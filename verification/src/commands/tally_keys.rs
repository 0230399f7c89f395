//! Tallies.
use super::{require_keys, Args};
use crate::cli::{keys_fit, reports_keys, CommonArgs, TallyKeysArgs, TallyKeysJob};
use crate::error::Error;
use vstd::prelude::*;

verus! {

/// The arguments that this mode reads.
pub open spec fn mode_args(args: Args) -> TallyKeysArgs {
    TallyKeysArgs {
        common: CommonArgs { ben_file: args.ben_file, output_dir: args.output_dir },
        graph_file: args.graph_file,
        keys: args.keys,
        max_samples: args.max_samples,
        high_compression: args.high_compression,
    }
}

/// Whether this is the job of the arguments. Output names derive from the ensemble file.
pub open spec fn is_job<W>(args: Args, job: TallyKeysJob<W>) -> bool {
    job.is_for(mode_args(args), !args.no_progress)
}

/// Turn the arguments into a job.
pub fn run<W>(args: Args) -> (r: Result<TallyKeysJob<W>, Error>)
    requires
        args.names_input(),
    ensures
        r is Ok <==> keys_fit(args.keys@),
        r matches Err(e) ==> reports_keys(args.keys@, "tally-keys"@, e),
        r matches Ok(job) ==> is_job(args, job),
{
    match require_keys(&args, "tally-keys") {
        Ok(()) => {},
        Err(e) => {
            return Err(e);
        },
    }
    let show_progress = args.show_progress();
    crate::cli::tally_keys::run(
        TallyKeysArgs {
            common: CommonArgs { ben_file: args.ben_file, output_dir: args.output_dir },
            graph_file: args.graph_file,
            keys: args.keys,
            max_samples: args.max_samples,
            high_compression: args.high_compression,
        },
        show_progress,
    )
}

} // verus!
