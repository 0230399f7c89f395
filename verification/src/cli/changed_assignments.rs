//! The `changed-assignments` command.
use super::paths::{build_output_path, law_output_is_not_the_input, output_path_text};
use super::CommonArgs;
use crate::metrics::changed_assignments::{
    changed_assignments_suffix, changed_assignments_suffix_text,
};
use crate::text::{borrowed, decimal, lemma_decimal_has_no_separator, optional_string};
use vstd::prelude::*;

verus! {

/// The command's arguments.
#[derive(Debug)]
pub struct ChangedAssignmentsArgs {
    pub common: CommonArgs,
    pub normalize: bool,
    pub max_accepted: Option<usize>,
    /// Reassign labels at random.
    pub randomize_reassignments: bool,
    /// Makes random reassignments repeatable.
    pub seed: Option<u64>,
    /// Compress for size rather than for speed.
    pub high_compression: bool,
}

/// What a run of the command is to do.
#[derive(Debug)]
pub struct ChangedAssignmentsJob {
    pub args: ChangedAssignmentsArgs,
    pub show_progress: bool,
}

impl ChangedAssignmentsJob {
    /// Whether this is the job of given arguments.
    pub open spec fn is_for(&self, args: ChangedAssignmentsArgs, show_progress: bool) -> bool {
        self.args == args && self.show_progress == show_progress
    }

    /// The output of a run over `line_count` plans: the name tells their number.
    pub fn output_file(&self, line_count: usize) -> (r: String)
        requires
            self.args.common.names_input(),
        ensures
            r@ == output_path_text(
                self.args.common.ben_file@,
                changed_assignments_suffix_text(line_count as nat),
                optional_string(self.args.common.output_dir),
            ),
            r@ != self.args.common.ben_file@,
    {
        let suffix = changed_assignments_suffix(line_count);
        proof {
            reveal_strlit("_accept_");
            reveal_strlit("_changed_assignments.parquet");
            lemma_decimal_has_no_separator(line_count as nat);
            let head = "_accept_"@ + decimal(line_count as nat);
            assert forall|i: int| 0 <= i < suffix@.len() implies #[trigger] suffix@[i] != '/' by {
                if i < head.len() {
                    assert(suffix@[i] == head[i]);
                    if i >= 8 {
                        assert(head[i] == decimal(line_count as nat)[i - 8]);
                    }
                } else {
                    assert(suffix@[i] == "_changed_assignments.parquet"@[i - head.len()]);
                }
            }
            law_output_is_not_the_input(
                self.args.common.ben_file@,
                suffix@,
                optional_string(self.args.common.output_dir),
            );
        }
        build_output_path(
            self.args.common.ben_file.as_str(),
            suffix.as_str(),
            borrowed(&self.args.common.output_dir),
        )
    }
}

/// Turn the command's arguments into a job.
pub fn run(args: ChangedAssignmentsArgs, show_progress: bool) -> (r: ChangedAssignmentsJob)
    requires
        args.common.names_input(),
    ensures
        r.is_for(args, show_progress),
{
    ChangedAssignmentsJob { args, show_progress }
}

} // verus!
