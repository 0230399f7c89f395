//! The metrics.
use crate::error::Error;
use vstd::prelude::*;
use vstd::slice::slice_subrange;

pub mod canonical;
pub mod chain;
pub mod chain_runs;
pub mod changed_assignments;
pub mod changed_run;
pub mod composite;
pub mod counts;
pub mod cut_edges;
pub mod extract_unique_plans;
pub mod ledger;
pub mod polsby_popper;
pub mod region;
pub mod region_rows;
pub mod reock;
pub mod reock_chain;
pub mod runs;
pub mod scorer;
pub mod table;
pub mod tally_keys;
pub mod twodelta;
pub mod unique_plans;

verus! {

/// The tables of one metric for one plan, one behind the other: each has one value per district up
/// to the largest label.
#[derive(Debug)]
pub struct PreparedMetricOutput<V> {
    pub values: Vec<V>,
    pub table_count: usize,
    pub district_slots: usize,
    pub observed: u128,
}

impl<V> PreparedMetricOutput<V> {
    /// Whether there are values for the table at `index`.
    pub open spec fn has_table(&self, index: int) -> bool {
        (index + 1) * self.district_slots <= self.values@.len()
    }

    /// The table at `index`.
    pub open spec fn table_values(&self, index: int) -> Seq<V> {
        self.values@.subrange(index * self.district_slots, (index + 1) * self.district_slots)
    }

    /// The table at `index`.
    pub fn table(&self, index: usize) -> (r: Option<&[V]>)
        ensures
            r is Some <==> self.has_table(index as int),
            r matches Some(table) ==> table@ == self.table_values(index as int),
    {
        let total: usize = self.values.len();
        proof {
            let (i, n) = (index as int, self.district_slots as int);
            assert((i + 1) * n == i * n + n) by (nonlinear_arith);
            assert(0 <= i * n) by (nonlinear_arith)
                requires
                    0 <= i,
                    0 <= n,
            ;
        }
        let start: usize = match index.checked_mul(self.district_slots) {
            Some(start) => start,
            None => {
                return None;
            },
        };
        let end: usize = match start.checked_add(self.district_slots) {
            Some(end) => end,
            None => {
                return None;
            },
        };
        if end <= total {
            Some(slice_subrange(self.values.as_slice(), start, end))
        } else {
            None
        }
    }
}

/// Check the length of a plan.
pub fn validate_assignment_length(
    assignment: &[u16],
    expected: usize,
    expected_label: &'static str,
    actual_label: &'static str,
) -> (r: Result<(), Error>)
    ensures
        r is Ok <==> assignment@.len() == expected,
        r matches Err(e) ==> e == (Error::AssignmentLength {
            actual: assignment@.len() as usize,
            actual_label,
            expected,
            expected_label,
        }),
{
    if assignment.len() != expected {
        return Err(
            Error::AssignmentLength {
                actual: assignment.len(),
                actual_label,
                expected,
                expected_label,
            },
        );
    }
    Ok(())
}

} // verus!
