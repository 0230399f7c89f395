//! Counts of different partitions.
use super::Args;
use crate::cli::{CommonArgs, UniquePlansArgs, UniquePlansJob};
use vstd::prelude::*;

verus! {

/// The arguments that this mode reads.
pub open spec fn mode_args(args: Args) -> UniquePlansArgs {
    UniquePlansArgs {
        common: CommonArgs { ben_file: args.ben_file, output_dir: args.output_dir },
        max_samples: args.max_samples,
        high_compression: args.high_compression,
    }
}

/// Whether this is the job of the arguments.
pub open spec fn is_job(args: Args, job: UniquePlansJob) -> bool {
    job.is_for(mode_args(args), !args.no_progress)
}

/// Turn the arguments into a job.
pub fn run(args: Args) -> (r: UniquePlansJob)
    requires
        args.names_input(),
    ensures
        is_job(args, r),
{
    let show_progress = args.show_progress();
    crate::cli::unique_plans::run(
        UniquePlansArgs {
            common: CommonArgs { ben_file: args.ben_file, output_dir: args.output_dir },
            max_samples: args.max_samples,
            high_compression: args.high_compression,
        },
        show_progress,
    )
}

} // verus!
