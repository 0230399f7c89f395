//! Region splits and pieces.
use super::{require_keys, Args};
use crate::cli::{keys_fit, reports_keys, CommonArgs, RegionArgs, RegionJob};
use crate::error::Error;
use crate::metrics::region::RegionMetric;
use vstd::prelude::*;

verus! {

/// The arguments that these modes read.
pub open spec fn mode_args(args: Args) -> RegionArgs {
    RegionArgs {
        common: CommonArgs { ben_file: args.ben_file, output_dir: args.output_dir },
        graph_file: args.graph_file,
        keys: args.keys,
        max_samples: args.max_samples,
        high_compression: args.high_compression,
    }
}

/// Whether this is the job of the arguments for region splits.
pub open spec fn is_splits_job<W>(args: Args, job: RegionJob<W>) -> bool {
    job.is_for(mode_args(args), !args.no_progress, RegionMetric::Splits, "_region_splits.parquet"@)
}

/// Whether this is the job of the arguments for region pieces.
pub open spec fn is_pieces_job<W>(args: Args, job: RegionJob<W>) -> bool {
    job.is_for(mode_args(args), !args.no_progress, RegionMetric::Pieces, "_region_pieces.parquet"@)
}

/// Turn the arguments into a job for region splits.
pub fn run_splits<W>(args: Args) -> (r: Result<RegionJob<W>, Error>)
    requires
        args.names_input(),
    ensures
        r is Ok <==> keys_fit(args.keys@),
        r matches Err(e) ==> reports_keys(args.keys@, "region-splits"@, e),
        r matches Ok(job) ==> is_splits_job(args, job),
{
    match require_keys(&args, "region-splits") {
        Ok(()) => {},
        Err(e) => {
            return Err(e);
        },
    }
    let show_progress = args.show_progress();
    crate::cli::region::run_splits(
        RegionArgs {
            common: CommonArgs { ben_file: args.ben_file, output_dir: args.output_dir },
            graph_file: args.graph_file,
            keys: args.keys,
            max_samples: args.max_samples,
            high_compression: args.high_compression,
        },
        show_progress,
    )
}

/// Turn the arguments into a job for region pieces.
pub fn run_pieces<W>(args: Args) -> (r: Result<RegionJob<W>, Error>)
    requires
        args.names_input(),
    ensures
        r is Ok <==> keys_fit(args.keys@),
        r matches Err(e) ==> reports_keys(args.keys@, "region-pieces"@, e),
        r matches Ok(job) ==> is_pieces_job(args, job),
{
    match require_keys(&args, "region-pieces") {
        Ok(()) => {},
        Err(e) => {
            return Err(e);
        },
    }
    let show_progress = args.show_progress();
    crate::cli::region::run_pieces(
        RegionArgs {
            common: CommonArgs { ben_file: args.ben_file, output_dir: args.output_dir },
            graph_file: args.graph_file,
            keys: args.keys,
            max_samples: args.max_samples,
            high_compression: args.high_compression,
        },
        show_progress,
    )
}

} // verus!
