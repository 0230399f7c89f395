//! The `reock` command.
use super::paths::{build_output_path, law_output_is_not_the_input, output_path_text};
use super::CommonArgs;
use crate::geometry::ReockLoadOptions;
use crate::text::{borrowed, optional_string, optional_text};
use vstd::prelude::*;

verus! {

/// The command's arguments.
#[derive(Debug)]
pub struct ReockArgs {
    pub common: CommonArgs,
    pub geometry_file: String,
    pub geometry_column: Option<String>,
    pub allow_geographic_crs: bool,
    pub allow_unknown_crs: bool,
    pub target_crs: Option<String>,
    pub source_crs: Option<String>,
    /// Stop after this many samples.
    pub max_samples: Option<usize>,
    /// Compress for size rather than for speed.
    pub high_compression: bool,
}

/// What a run of the command is to do.
#[derive(Debug)]
pub struct ReockJob {
    pub args: ReockArgs,
    pub output_file: String,
    pub show_progress: bool,
}

impl ReockJob {
    /// Whether this is the job of given arguments.
    pub open spec fn is_for(&self, args: ReockArgs, show_progress: bool) -> bool {
        &&& self.args == args
        &&& self.output_file@ == output_path_text(
            args.common.ben_file@,
            "_reock.parquet"@,
            optional_string(args.common.output_dir),
        )
        &&& self.output_file@ != args.common.ben_file@
        &&& self.show_progress == show_progress
    }

    /// How the geometry is to be read.
    pub fn load_options(&self) -> (r: ReockLoadOptions<'_>)
        ensures
            optional_text(r.geometry_column) == optional_string(self.args.geometry_column),
            optional_text(r.source_crs) == optional_string(self.args.source_crs),
            optional_text(r.target_crs) == optional_string(self.args.target_crs),
            r.allow_geographic_crs == self.args.allow_geographic_crs,
            r.allow_unknown_crs == self.args.allow_unknown_crs,
    {
        ReockLoadOptions {
            geometry_column: borrowed(&self.args.geometry_column),
            source_crs: borrowed(&self.args.source_crs),
            target_crs: borrowed(&self.args.target_crs),
            allow_geographic_crs: self.args.allow_geographic_crs,
            allow_unknown_crs: self.args.allow_unknown_crs,
        }
    }
}

/// Turn the command's arguments into a job.
pub fn run(args: ReockArgs, show_progress: bool) -> (r: ReockJob)
    requires
        args.common.names_input(),
    ensures
        r.is_for(args, show_progress),
{
    proof {
        reveal_strlit("_reock.parquet");
        law_output_is_not_the_input(
            args.common.ben_file@,
            "_reock.parquet"@,
            optional_string(args.common.output_dir),
        );
    }
    let output_file = build_output_path(
        args.common.ben_file.as_str(),
        "_reock.parquet",
        borrowed(&args.common.output_dir),
    );
    ReockJob { args, output_file, show_progress }
}

} // verus!
