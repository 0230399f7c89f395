//! Polsby-Popper scores.
use super::Args;
use crate::cli::{CommonArgs, PolsbyPopperArgs, PolsbyPopperJob};
use vstd::prelude::*;

verus! {

/// The arguments that this mode reads.
pub open spec fn mode_args(args: Args) -> PolsbyPopperArgs {
    PolsbyPopperArgs {
        common: CommonArgs { ben_file: args.ben_file, output_dir: args.output_dir },
        graph_file: args.graph_file,
        area_key: args.area_key,
        perim_key: args.perim_key,
        boundary_perim_key: args.boundary_perim_key,
        shared_perim_key: args.shared_perim_key,
        max_samples: args.max_samples,
        high_compression: args.high_compression,
    }
}

/// Whether this is the job of the arguments.
pub open spec fn is_job<W>(args: Args, zero: W, job: PolsbyPopperJob<W>) -> bool {
    job.is_for(mode_args(args), !args.no_progress, zero)
}

/// Turn the arguments into a job.
pub fn run<W>(args: Args, zero: W) -> (r: PolsbyPopperJob<W>)
    requires
        args.names_input(),
    ensures
        is_job(args, zero, r),
{
    let show_progress = args.show_progress();
    crate::cli::polsby_popper::run(
        PolsbyPopperArgs {
            common: CommonArgs { ben_file: args.ben_file, output_dir: args.output_dir },
            graph_file: args.graph_file,
            area_key: args.area_key,
            perim_key: args.perim_key,
            boundary_perim_key: args.boundary_perim_key,
            shared_perim_key: args.shared_perim_key,
            max_samples: args.max_samples,
            high_compression: args.high_compression,
        },
        show_progress,
        zero,
    )
}

} // verus!
