//! The `extract-unique-plans` command.
use super::paths::{build_output_path, law_output_is_not_the_input, output_path_text};
use super::CommonArgs;
use crate::text::{borrowed, optional_string};
use vstd::prelude::*;

verus! {

/// The command's arguments.
#[derive(Debug)]
pub struct ExtractUniquePlansArgs {
    pub common: CommonArgs,
}

/// What a run of the command is to do.
#[derive(Debug)]
pub struct ExtractUniquePlansJob {
    pub args: ExtractUniquePlansArgs,
    pub output_file: String,
    pub show_progress: bool,
}

impl ExtractUniquePlansJob {
    /// Whether this is the job of given arguments.
    pub open spec fn is_for(&self, args: ExtractUniquePlansArgs, show_progress: bool) -> bool {
        &&& self.args == args
        &&& self.output_file@ == output_path_text(
            args.common.ben_file@,
            "_unique.jsonl.ben"@,
            optional_string(args.common.output_dir),
        )
        &&& self.output_file@ != args.common.ben_file@
        &&& self.show_progress == show_progress
    }
}

/// Turn the command's arguments into a job.
pub fn run(args: ExtractUniquePlansArgs, show_progress: bool) -> (r: ExtractUniquePlansJob)
    requires
        args.common.names_input(),
    ensures
        r.is_for(args, show_progress),
{
    proof {
        reveal_strlit("_unique.jsonl.ben");
        law_output_is_not_the_input(
            args.common.ben_file@,
            "_unique.jsonl.ben"@,
            optional_string(args.common.output_dir),
        );
    }
    let output_file = build_output_path(
        args.common.ben_file.as_str(),
        "_unique.jsonl.ben",
        borrowed(&args.common.output_dir),
    );
    ExtractUniquePlansJob { args, output_file, show_progress }
}

} // verus!
