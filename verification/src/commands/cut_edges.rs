//! Cut edges.
use super::Args;
use crate::cli::{CommonArgs, CutEdgesArgs, CutEdgesJob};
use vstd::prelude::*;

verus! {

/// The arguments that this mode reads.
pub open spec fn mode_args(args: Args) -> CutEdgesArgs {
    CutEdgesArgs {
        common: CommonArgs { ben_file: args.ben_file, output_dir: args.output_dir },
        graph_file: args.graph_file,
        edge_weight_key: args.edge_weight_key,
        max_samples: args.max_samples,
        high_compression: args.high_compression,
    }
}

/// Whether this is the job of the arguments.
pub open spec fn is_job<W>(args: Args, one: W, job: CutEdgesJob<W>) -> bool {
    job.is_for(mode_args(args), !args.no_progress, one)
}

/// Turn the arguments into a job.
pub fn run<W>(args: Args, one: W) -> (r: CutEdgesJob<W>)
    requires
        args.names_input(),
    ensures
        is_job(args, one, r),
{
    let show_progress = args.show_progress();
    crate::cli::cut_edges::run(
        CutEdgesArgs {
            common: CommonArgs { ben_file: args.ben_file, output_dir: args.output_dir },
            graph_file: args.graph_file,
            edge_weight_key: args.edge_weight_key,
            max_samples: args.max_samples,
            high_compression: args.high_compression,
        },
        show_progress,
        one,
    )
}

} // verus!
