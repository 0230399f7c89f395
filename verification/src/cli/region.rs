//! The `region-splits` and `region-pieces` commands.
use super::paths::{build_output_path, law_output_is_not_the_input, output_path_text};
use super::{keys_fit, reports_keys, require_keys, requests, CommonArgs, GraphNeed};
use crate::error::Error;
use crate::graph::GraphLoadRequest;
use crate::graph_check::EdgeValues;
use crate::metrics::region::RegionMetric;
use crate::text::{borrowed, copied, optional_string};
use vstd::prelude::*;

verus! {

/// The commands' arguments.
#[derive(Debug)]
pub struct RegionArgs {
    pub common: CommonArgs,
    pub graph_file: Option<String>,
    pub keys: Vec<String>,
    /// Stop after this many samples.
    pub max_samples: Option<usize>,
    /// Compress for size rather than for speed.
    pub high_compression: bool,
}

/// What a run of one of the commands is to do.
#[derive(Debug)]
pub struct RegionJob<W> {
    pub ben_file: String,
    pub graph: GraphNeed<W>,
    pub keys: Vec<String>,
    pub metric: RegionMetric,
    pub output_file: String,
    pub show_progress: bool,
    pub max_samples: Option<usize>,
    pub high_compression: bool,
}

impl<W> RegionJob<W> {
    /// Whether this is the job of given arguments.
    pub open spec fn is_for(
        &self,
        args: RegionArgs,
        show_progress: bool,
        metric: RegionMetric,
        suffix: Seq<char>,
    ) -> bool {
        &&& self.output_file@ == output_path_text(
            args.common.ben_file@,
            suffix,
            optional_string(args.common.output_dir),
        )
        &&& self.output_file@ != args.common.ben_file@
        &&& self.ben_file == args.common.ben_file
        &&& self.graph.graph_file == args.graph_file
        &&& requests(self.graph.request, Seq::empty(), Seq::empty(), args.keys@)
        &&& self.graph.request.edge_weight is None
        &&& self.keys@ == args.keys@
        &&& self.metric == metric
        &&& self.show_progress == show_progress
        &&& self.max_samples == args.max_samples
        &&& self.high_compression == args.high_compression
    }
}

/// Turn the arguments of `region-splits` into a job.
pub fn run_splits<W>(args: RegionArgs, show_progress: bool) -> (r: Result<RegionJob<W>, Error>)
    requires
        args.common.names_input(),
    ensures
        r is Ok <==> keys_fit(args.keys@),
        r matches Err(e) ==> reports_keys(args.keys@, "region-splits"@, e),
        r matches Ok(job) ==> job.is_for(
            args,
            show_progress,
            RegionMetric::Splits,
            "_region_splits.parquet"@,
        ),
{
    proof {
        reveal_strlit("_region_splits.parquet");
    }
    run(args, show_progress, RegionMetric::Splits, "_region_splits.parquet", "region-splits")
}

/// Turn the arguments of `region-pieces` into a job.
pub fn run_pieces<W>(args: RegionArgs, show_progress: bool) -> (r: Result<RegionJob<W>, Error>)
    requires
        args.common.names_input(),
    ensures
        r is Ok <==> keys_fit(args.keys@),
        r matches Err(e) ==> reports_keys(args.keys@, "region-pieces"@, e),
        r matches Ok(job) ==> job.is_for(
            args,
            show_progress,
            RegionMetric::Pieces,
            "_region_pieces.parquet"@,
        ),
{
    proof {
        reveal_strlit("_region_pieces.parquet");
    }
    run(args, show_progress, RegionMetric::Pieces, "_region_pieces.parquet", "region-pieces")
}

fn run<W>(
    args: RegionArgs,
    show_progress: bool,
    metric: RegionMetric,
    suffix: &str,
    mode_name: &str,
) -> (r: Result<RegionJob<W>, Error>)
    requires
        args.common.names_input(),
        suffix@.len() > 10,
        forall|i: int| 0 <= i < suffix@.len() ==> #[trigger] suffix@[i] != '/',
    ensures
        r is Ok <==> keys_fit(args.keys@),
        r matches Err(e) ==> reports_keys(args.keys@, mode_name@, e),
        r matches Ok(job) ==> job.is_for(args, show_progress, metric, suffix@),
{
    match require_keys(args.keys.as_slice(), mode_name) {
        Ok(()) => {},
        Err(e) => {
            return Err(e);
        },
    }
    proof {
        law_output_is_not_the_input(
            args.common.ben_file@,
            suffix@,
            optional_string(args.common.output_dir),
        );
    }
    let output_file = build_output_path(
        args.common.ben_file.as_str(),
        suffix,
        borrowed(&args.common.output_dir),
    );
    let request = GraphLoadRequest {
        numeric_keys: Vec::new(),
        partial_numeric_keys: Vec::new(),
        region_keys: copied(&args.keys),
        edge_weight: None,
        need_adjacency: false,
    };
    Ok(
        RegionJob {
            ben_file: args.common.ben_file,
            graph: GraphNeed {
                graph_file: args.graph_file,
                request,
                edge_values: EdgeValues::Present,
            },
            keys: args.keys,
            metric,
            output_file,
            show_progress,
            max_samples: args.max_samples,
            high_compression: args.high_compression,
        },
    )
}

} // verus!
