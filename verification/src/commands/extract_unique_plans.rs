//! The first plan of each partition.
use super::Args;
use crate::cli::{CommonArgs, ExtractUniquePlansArgs, ExtractUniquePlansJob};
use vstd::prelude::*;

verus! {

/// The arguments that this mode reads.
pub open spec fn mode_args(args: Args) -> ExtractUniquePlansArgs {
    ExtractUniquePlansArgs {
        common: CommonArgs { ben_file: args.ben_file, output_dir: args.output_dir },
    }
}

/// Whether this is the job of the arguments.
pub open spec fn is_job(args: Args, job: ExtractUniquePlansJob) -> bool {
    job.is_for(mode_args(args), !args.no_progress)
}

/// Turn the arguments into a job.
pub fn run(args: Args) -> (r: ExtractUniquePlansJob)
    requires
        args.names_input(),
    ensures
        is_job(args, r),
{
    let show_progress = args.show_progress();
    crate::cli::extract_unique_plans::run(
        ExtractUniquePlansArgs {
            common: CommonArgs { ben_file: args.ben_file, output_dir: args.output_dir },
        },
        show_progress,
    )
}

} // verus!
