//! The `tally-keys` command.
use super::paths::{
    build_capped_tally_output_path, build_tally_output_dir, tally_dir_text, tally_path_text,
};
use super::{keys_fit, reports_keys, require_keys, requests, CommonArgs, GraphNeed};
use crate::error::Error;
use crate::graph::GraphLoadRequest;
use crate::graph_check::EdgeValues;
use crate::path::file_name_text;
use crate::text::{borrowed, copied, optional_string, optional_text};
use vstd::prelude::*;

verus! {

/// The command's arguments.
#[derive(Debug)]
pub struct TallyKeysArgs {
    pub common: CommonArgs,
    pub graph_file: Option<String>,
    pub keys: Vec<String>,
    /// Stop after this many samples.
    pub max_samples: Option<usize>,
    /// Compress for size rather than for speed.
    pub high_compression: bool,
}

/// What a run of the command is to do.
#[derive(Debug)]
pub struct TallyKeysJob<W> {
    pub ben_file: String,
    pub graph: GraphNeed<W>,
    pub keys: Vec<String>,
    /// The directory that holds the output.
    pub tally_dir: String,
    /// The output of each key.
    pub output_files: Vec<String>,
    pub show_progress: bool,
    pub max_samples: Option<usize>,
    pub high_compression: bool,
}

impl<W> TallyKeysJob<W> {
    /// Whether this is the job of given arguments.
    pub open spec fn is_for(&self, args: TallyKeysArgs, show_progress: bool) -> bool {
        let dir = optional_string(args.common.output_dir);
        &&& self.ben_file == args.common.ben_file
        &&& self.graph.graph_file == args.graph_file
        &&& requests(self.graph.request, args.keys@, Seq::empty(), Seq::empty())
        &&& self.graph.request.edge_weight is None
        &&& self.keys@ == args.keys@
        &&& self.tally_dir@ == tally_dir_text(args.common.ben_file@, dir)
        &&& self.output_files@.len() == args.keys@.len()
        &&& forall|k: int|
            0 <= k < args.keys@.len() ==> (#[trigger] self.output_files@[k])@ == tally_path_text(
                args.common.ben_file@,
                args.keys@[k]@,
                dir,
                args.max_samples,
            )
        &&& self.show_progress == show_progress
        &&& self.max_samples == args.max_samples
        &&& self.high_compression == args.high_compression
    }
}

/// The output of every key.
fn output_files(
    ben_file: &str,
    keys: &Vec<String>,
    output_dir: Option<&str>,
    max_samples: Option<usize>,
) -> (r: Vec<String>)
    requires
        file_name_text(ben_file@) is Some,
    ensures
        r@.len() == keys@.len(),
        forall|k: int|
            0 <= k < keys@.len() ==> (#[trigger] r@[k])@ == tally_path_text(
                ben_file@,
                keys@[k]@,
                optional_text(output_dir),
                max_samples,
            ),
{
    let mut files: Vec<String> = Vec::new();
    let mut i: usize = 0;
    while i < keys.len()
        invariant
            file_name_text(ben_file@) is Some,
            i <= keys@.len(),
            files@.len() == i,
            forall|k: int|
                0 <= k < i ==> (#[trigger] files@[k])@ == tally_path_text(
                    ben_file@,
                    keys@[k]@,
                    optional_text(output_dir),
                    max_samples,
                ),
        decreases keys.len() - i,
    {
        files.push(
            build_capped_tally_output_path(ben_file, keys[i].as_str(), output_dir, max_samples),
        );
        i += 1;
    }
    files
}

/// Turn the command's arguments into a job.
pub fn run<W>(args: TallyKeysArgs, show_progress: bool) -> (r: Result<TallyKeysJob<W>, Error>)
    requires
        args.common.names_input(),
    ensures
        r is Ok <==> keys_fit(args.keys@),
        r matches Err(e) ==> reports_keys(args.keys@, "tally-keys"@, e),
        r matches Ok(job) ==> job.is_for(args, show_progress),
{
    match require_keys(args.keys.as_slice(), "tally-keys") {
        Ok(()) => {},
        Err(e) => {
            return Err(e);
        },
    }
    let output_dir = borrowed(&args.common.output_dir);
    let tally_dir = build_tally_output_dir(args.common.ben_file.as_str(), output_dir);
    let files = output_files(
        args.common.ben_file.as_str(),
        &args.keys,
        output_dir,
        args.max_samples,
    );
    let request = GraphLoadRequest {
        numeric_keys: copied(&args.keys),
        partial_numeric_keys: Vec::new(),
        region_keys: Vec::new(),
        edge_weight: None,
        need_adjacency: false,
    };
    Ok(
        TallyKeysJob {
            ben_file: args.common.ben_file,
            graph: GraphNeed {
                graph_file: args.graph_file,
                request,
                edge_values: EdgeValues::Present,
            },
            keys: args.keys,
            tally_dir,
            output_files: files,
            show_progress,
            max_samples: args.max_samples,
            high_compression: args.high_compression,
        },
    )
}

} // verus!
