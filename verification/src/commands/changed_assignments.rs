//! Changed assignments.
use super::Args;
use crate::cli::{ChangedAssignmentsArgs, ChangedAssignmentsJob, CommonArgs};
use vstd::prelude::*;

verus! {

/// The arguments that this mode reads.
pub open spec fn mode_args(args: Args) -> ChangedAssignmentsArgs {
    ChangedAssignmentsArgs {
        common: CommonArgs { ben_file: args.ben_file, output_dir: args.output_dir },
        normalize: args.normalize,
        max_accepted: args.max_accepted,
        randomize_reassignments: args.randomize_reassignments,
        seed: args.seed,
        high_compression: args.high_compression,
    }
}

/// Whether this is the job of the arguments.
pub open spec fn is_job(args: Args, job: ChangedAssignmentsJob) -> bool {
    job.is_for(mode_args(args), !args.no_progress)
}

/// Turn the arguments into a job.
pub fn run(args: Args) -> (r: ChangedAssignmentsJob)
    requires
        args.names_input(),
    ensures
        is_job(args, r),
{
    let show_progress = args.show_progress();
    crate::cli::changed_assignments::run(
        ChangedAssignmentsArgs {
            common: CommonArgs { ben_file: args.ben_file, output_dir: args.output_dir },
            normalize: args.normalize,
            max_accepted: args.max_accepted,
            randomize_reassignments: args.randomize_reassignments,
            seed: args.seed,
            high_compression: args.high_compression,
        },
        show_progress,
    )
}

} // verus!
