//! The `cut-edges` command.
use super::paths::{build_output_path, law_output_is_not_the_input, output_path_text};
use super::{requests, CommonArgs, GraphNeed};
use crate::graph::{EdgeWeightRequest, GraphLoadRequest};
use crate::graph_check::EdgeValues;
use crate::text::{borrowed, optional_string};
use vstd::prelude::*;

verus! {

/// The command's arguments.
#[derive(Debug)]
pub struct CutEdgesArgs {
    pub common: CommonArgs,
    pub graph_file: Option<String>,
    pub edge_weight_key: Option<String>,
    /// Stop after this many samples.
    pub max_samples: Option<usize>,
    /// Compress for size rather than for speed.
    pub high_compression: bool,
}

/// What a run of the command is to do.
#[derive(Debug)]
pub struct CutEdgesJob<W> {
    pub ben_file: String,
    pub graph: GraphNeed<W>,
    pub output_file: String,
    pub show_progress: bool,
    pub max_samples: Option<usize>,
    pub high_compression: bool,
}

impl<W> CutEdgesJob<W> {
    /// Whether this is the job of given arguments.
    pub open spec fn is_for(&self, args: CutEdgesArgs, show_progress: bool, one: W) -> bool {
        &&& self.output_file@ == output_path_text(
            args.common.ben_file@,
            "_cut_edges.parquet"@,
            optional_string(args.common.output_dir),
        )
        &&& self.output_file@ != args.common.ben_file@
        &&& self.ben_file == args.common.ben_file
        &&& self.graph.graph_file == args.graph_file
        &&& self.graph.edge_values == EdgeValues::Sound
        &&& requests(self.graph.request, Seq::empty(), Seq::empty(), Seq::empty())
        &&& match args.edge_weight_key {
            Some(key) => self.graph.request.edge_weight == Some(
                EdgeWeightRequest { key, default_value: one },
            ),
            None => self.graph.request.edge_weight is None,
        }
        &&& self.show_progress == show_progress
        &&& self.max_samples == args.max_samples
        &&& self.high_compression == args.high_compression
    }
}

/// Turn the command's arguments into a job. Where edges are weighted, one without a weight counts
/// as `one`.
pub fn run<W>(args: CutEdgesArgs, show_progress: bool, one: W) -> (r: CutEdgesJob<W>)
    requires
        args.common.names_input(),
    ensures
        r.is_for(args, show_progress, one),
{
    proof {
        reveal_strlit("_cut_edges.parquet");
        law_output_is_not_the_input(
            args.common.ben_file@,
            "_cut_edges.parquet"@,
            optional_string(args.common.output_dir),
        );
    }
    let output_file = build_output_path(
        args.common.ben_file.as_str(),
        "_cut_edges.parquet",
        borrowed(&args.common.output_dir),
    );
    let edge_weight = match args.edge_weight_key {
        Some(key) => Some(EdgeWeightRequest { key, default_value: one }),
        None => None,
    };
    let request = GraphLoadRequest {
        numeric_keys: Vec::new(),
        partial_numeric_keys: Vec::new(),
        region_keys: Vec::new(),
        edge_weight,
        need_adjacency: false,
    };
    CutEdgesJob {
        ben_file: args.common.ben_file,
        graph: GraphNeed {
            graph_file: args.graph_file,
            request,
            edge_values: EdgeValues::Sound,
        },
        output_file,
        show_progress,
        max_samples: args.max_samples,
        high_compression: args.high_compression,
    }
}

} // verus!
