//! Whole runs over the accepted plans of a chain.
use crate::coin::{seeded_flips, Reassignments};
use crate::district::{district_set_changed_text, observes, reports_first_excess, within_limit};
use crate::error::Error;
use crate::metrics::changed_assignments::{
    accepted_line_count, labels_within, largest, law_counts_without_reassignment, law_largest,
    law_largest_label, lemma_later_decisions, steps, ChangedAssignments,
};
use crate::metrics::table::{lemma_same_masks, same_labels};
use crate::pipeline::{length_changed_text, AssignmentLengthCheck, SequentialFrames};
use vstd::prelude::*;

verus! {

/// How many plans a run takes.
pub open spec fn taken_plans(max_accepted: Option<usize>, total: nat) -> nat {
    match max_accepted {
        Some(cap) => if cap < total {
            cap as nat
        } else {
            total
        },
        None => total,
    }
}

/// Whether the first `n` plans have one length, labels that fit, and one label set.
pub open spec fn alike(plans: Seq<Vec<u16>>, n: int) -> bool {
    forall|i: int|
        0 <= i < n ==> (#[trigger] plans[i])@.len() == plans[0]@.len() && within_limit(plans[i]@)
            && same_labels(plans[i]@, plans[0]@)
}

/// Whether `e` reports what is wrong with plan `k`: its length comes first, then its labels, then
/// that they are not those of the first plan.
pub open spec fn reports_plan(plans: Seq<Vec<u16>>, k: int, e: Error) -> bool {
    if plans[k]@.len() != plans[0]@.len() {
        e.is_invalid_data(length_changed_text(plans[0]@.len(), plans[k]@.len()))
    } else if !within_limit(plans[k]@) {
        reports_first_excess(e, plans[k]@)
    } else {
        exists|mask: u128, first: u128|
            #![trigger observes(mask, plans[k]@), observes(first, plans[0]@)]
            observes(mask, plans[k]@) && observes(first, plans[0]@) && (
            e matches Error::DistrictSetChanged(message) && message@ == district_set_changed_text(
                mask,
                first,
                "changed-assignments"@,
            ))
    }
}

/// Whether these are decisions that a run can make: none reassigns labels where that is not asked
/// for, and a seed fixes all of them.
pub open spec fn run_decisions(decisions: Seq<bool>, randomize: bool, seed: Option<u64>) -> bool {
    forall|k: int|
        0 <= k < decisions.len() ==> (#[trigger] decisions[k] ==> randomize) && (
        seed matches Some(s) ==> (randomize ==> decisions[k] == seeded_flips(s)[k as nat]))
}

/// How often each node changes district over the accepted plans of a chain, up to `max_accepted` of
/// them, and how many plans that is.
pub fn tally_changed_assignments(
    plans: &Vec<Vec<u16>>,
    max_accepted: Option<usize>,
    randomize: bool,
    seed: Option<u64>,
) -> (r: Result<(Vec<u32>, usize), Error>)
    requires
        plans@.len() < u32::MAX,
    ensures
        r is Ok <==> taken_plans(max_accepted, plans@.len()) > 0 && alike(
            plans@,
            taken_plans(max_accepted, plans@.len()) as int,
        ),
        r matches Err(e) ==> if taken_plans(max_accepted, plans@.len()) == 0 {
            e == Error::NoData
        } else {
            exists|k: int|
                0 <= k < taken_plans(max_accepted, plans@.len()) && alike(plans@, k) && !alike(
                    plans@,
                    k + 1,
                ) && #[trigger] reports_plan(plans@, k, e)
        },
        r matches Ok((counts, count)) ==> {
            &&& count == taken_plans(max_accepted, plans@.len())
            &&& exists|decisions: Seq<bool>|
                decisions.len() == count - 1 && #[trigger] run_decisions(
                    decisions,
                    randomize,
                    seed,
                ) && counts@ == steps(
                    plans@[0]@,
                    plans@.skip(1),
                    decisions,
                    count - 1,
                ).counts
        },
{
    let line_count: usize = accepted_line_count(max_accepted, plans.len());
    let mut frames = SequentialFrames::new(
        plans.len(),
        Some(line_count),
        AssignmentLengthCheck::UniformWithinFile,
        Some("changed-assignments".to_owned()),
    );
    let mut reassignments = Reassignments::new(randomize, seed);
    let ghost flips = reassignments.decisions();
    let mut state = ChangedAssignments::new();
    let ghost rest = plans@.skip(1);
    let ghost first = plans@[0]@;
    let ghost mut decisions = Seq::<bool>::empty();
    let mut k: usize = 0;
    while k < line_count
        invariant
            k <= line_count <= plans@.len() < u32::MAX,
            line_count == taken_plans(max_accepted, plans@.len()),
            rest == plans@.skip(1),
            first == plans@[0]@,
            frames.frames_left == line_count - k,
            frames.accepted_count == k,
            frames.district_guard.label matches Some(label) && label@ == "changed-assignments"@,
            frames.length_guard.check == AssignmentLengthCheck::UniformWithinFile,
            frames.length_guard.established == (if k == 0 {
                None
            } else {
                Some(first.len() as usize)
            }),
            k > 0 ==> first.len() <= usize::MAX,
            match frames.district_guard.expected {
                Some(mask) => k > 0 && observes(mask, first),
                None => k == 0,
            },
            alike(plans@, k as int),
            reassignments.enabled() == randomize,
            seed matches Some(s) ==> flips == seeded_flips(s),
            forall|i: nat| #[trigger]
                reassignments.decisions()[i] == flips[(if randomize && k > 0 {
                    i + k - 1
                } else {
                    i as int
                }) as nat],
            state.wf(),
            state.full_count == k,
            state.started() == (k > 0),
            decisions.len() == (if k == 0 {
                0
            } else {
                k - 1
            }),
            forall|i: int|
                0 <= i < decisions.len() ==> #[trigger] decisions[i] == (randomize
                    && flips[i as nat]),
            k > 0 ==> state.step() == steps(first, rest, decisions, k - 1),
            k > 0 ==> state.current_permutation@.len() == largest(first) + 1,
        decreases line_count - k,
    {
        let plan: Vec<u16> = plans[k].clone();
        let ghost guard = frames.district_guard;
        proof {
            assert(plan@ =~= plans@[k as int]@);
            assert(plan@.len() == plan.len());
        }
        let frame = match frames.accept(plan, 1) {
            Ok(frame) => frame,
            Err(e) => {
                proof {
                    assert(!alike(plans@, k + 1)) by {
                        if alike(plans@, k + 1) {
                            assert(plans@[k as int]@.len() == plans@[0]@.len());
                            if k > 0 {
                                assert forall|mask: u128| #[trigger]
                                    observes(mask, plan@) implies guard.admits(mask) by {
                                    lemma_same_masks(plan@, mask, first, guard.expected->0);
                                }
                            }
                        }
                    }
                    assert(!alike(plans@, line_count as int)) by {
                        if alike(plans@, line_count as int) {
                            assert forall|i: int| 0 <= i < k + 1 implies (#[trigger] plans@[i])@.len()
                                == plans@[0]@.len() && within_limit(plans@[i]@) && same_labels(
                                plans@[i]@,
                                plans@[0]@,
                            ) by {}
                        }
                    }
                    assert(reports_plan(plans@, k as int, e)) by {
                        if plan@.len() == first.len() && within_limit(plan@) {
                            let mask = choose|mask: u128| #[trigger]
                                observes(mask, plan@) && guard.rejects(mask, e);
                            assert(observes(mask, plans@[k as int]@));
                        }
                    }
                }
                return Err(e);
            },
        };
        let ghost heads = reassignments.decisions()[0];
        proof {
            let mask = choose|mask: u128| #[trigger]
                observes(mask, plan@) && frames.district_guard == guard.after(mask);
            if k > 0 {
                lemma_same_masks(plan@, mask, first, guard.expected->0);
                law_largest(first);
                assert forall|i: int| 0 <= i < plan@.len() implies #[trigger] plan@[i] < largest(
                    first,
                ) + 1 by {
                    assert(plan@.contains(plan@[i]));
                    let j = first.index_of(plan@[i]);
                    assert(first[j] == plan@[i]);
                }
                assert(labels_within(plan@, state.current_permutation@.len()));
                assert(rest[k - 1] == plans@[k as int]);
                lemma_later_decisions(first, rest, decisions, randomize && heads, k - 1);
                decisions = decisions.push(randomize && heads);
                assert(heads == flips[(if randomize {
                    k - 1
                } else {
                    0
                }) as nat]);
            }
            assert(alike(plans@, k + 1));
        }
        match state.accept_frame(frame.assignment, &mut reassignments) {
            Ok(()) => {},
            Err(e) => {
                assert(false);
                return Err(e);
            },
        }
        k += 1;
    }
    match state.finish() {
        Ok((counts, count)) => {
            proof {
                assert(run_decisions(decisions, randomize, seed));
            }
            Ok((counts, count))
        },
        Err(e) => Err(e),
    }
}

/// A run takes all plans, or as many as it may if that is fewer.
pub proof fn law_taken_plans(cap: usize, total: nat)
    ensures
        taken_plans(None, total) == total,
        taken_plans(Some(cap), total) <= total,
        taken_plans(Some(cap), total) <= cap,
        taken_plans(Some(cap), total) == total || taken_plans(Some(cap), total) == cap,
{
}

/// What it takes for plans to be alike: the length of the first one, labels below the limit, and
/// the labels that the first one has.
pub proof fn law_alike(plans: Seq<Vec<u16>>, n: int)
    ensures
        alike(plans, n) <==> forall|k: int|
            0 <= k < n ==> {
                &&& (#[trigger] plans[k])@.len() == plans[0]@.len()
                &&& forall|i: int| 0 <= i < plans[k]@.len() ==> #[trigger] plans[k]@[i] < 128
                &&& forall|x: u16| #[trigger] plans[k]@.contains(x) <==> plans[0]@.contains(x)
            },
{
    if alike(plans, n) {
        assert forall|k: int| 0 <= k < n implies {
            &&& (#[trigger] plans[k])@.len() == plans[0]@.len()
            &&& forall|i: int| 0 <= i < plans[k]@.len() ==> #[trigger] plans[k]@[i] < 128
            &&& forall|x: u16| #[trigger] plans[k]@.contains(x) <==> plans[0]@.contains(x)
        } by {
            assert(within_limit(plans[k]@) && same_labels(plans[k]@, plans[0]@));
        }
    }
    if forall|k: int|
        0 <= k < n ==> {
            &&& (#[trigger] plans[k])@.len() == plans[0]@.len()
            &&& forall|i: int| 0 <= i < plans[k]@.len() ==> #[trigger] plans[k]@[i] < 128
            &&& forall|x: u16| #[trigger] plans[k]@.contains(x) <==> plans[0]@.contains(x)
        } {
        assert forall|k: int| 0 <= k < n implies (#[trigger] plans[k])@.len() == plans[0]@.len()
            && within_limit(plans[k]@) && same_labels(plans[k]@, plans[0]@) by {}
    }
}

/// In a run without reassignment, the count of a node is the number of plans after the first that
/// label it otherwise than the plan before.
pub proof fn law_run_without_reassignment(
    plans: Seq<Vec<u16>>,
    decisions: Seq<bool>,
    seed: Option<u64>,
    count: int,
    i: int,
)
    requires
        1 <= count <= plans.len(),
        count <= u32::MAX,
        alike(plans, count),
        decisions.len() == count - 1,
        run_decisions(decisions, false, seed),
        0 <= i < plans[0]@.len(),
    ensures
        steps(plans[0]@, plans.skip(1), decisions, count - 1).counts.len() == plans[0]@.len(),
        steps(plans[0]@, plans.skip(1), decisions, count - 1).counts[i] == Set::new(
            |k: int| 1 <= k < count && plans[k - 1]@[i] != plans[k]@[i],
        ).len(),
{
    let first = plans[0]@;
    let rest = plans.skip(1);
    let n = count - 1;
    let max = largest(first);
    law_largest_label(first);
    assert forall|k: int| 0 <= k < n implies (#[trigger] rest[k])@.len() == first.len() by {
        assert(rest[k] == plans[k + 1]);
    }
    assert forall|k: int, j: int| 0 <= k < n && 0 <= j < rest[k]@.len() implies #[trigger] rest[k]@[j]
        <= max by {
        assert(rest[k] == plans[k + 1]);
        let plan = plans[k + 1]@;
        assert(same_labels(plan, first));
        assert(plan.contains(plan[j]));
        let at = choose|at: int| 0 <= at < first.len() && first[at] == plan[j];
        assert(first[at] <= max);
    }
    assert(first.contains(max)) by {
        assert(first.len() > 0);
    }
    law_counts_without_reassignment(first, rest, decisions, max, n, i);
    let stepped = Set::new(
        |k: int|
            1 <= k <= n && (if k == 1 {
                first
            } else {
                rest[k - 2]@
            })[i] != rest[k - 1]@[i],
    );
    let changed = Set::new(|k: int| 1 <= k < count && plans[k - 1]@[i] != plans[k]@[i]);
    assert forall|k: int| stepped.contains(k) <==> changed.contains(k) by {
        if 1 <= k <= n {
            assert(rest[k - 1] == plans[k]);
            if k > 1 {
                assert(rest[k - 2] == plans[k - 1]);
            }
        }
    }
    assert(stepped =~= changed);
}

/// Decisions of a run without reassignment reassign nothing; with a seed, they are its flips.
pub proof fn law_run_decisions(decisions: Seq<bool>, randomize: bool, seed: Option<u64>, k: int)
    requires
        run_decisions(decisions, randomize, seed),
        0 <= k < decisions.len(),
    ensures
        !randomize ==> !decisions[k],
        randomize && seed is Some ==> decisions[k] == seeded_flips(seed->0)[k as nat],
{
    assert(decisions[k] ==> randomize);
}

/// A seed makes a run repeatable: decisions that a run can make with one seed are all the same.
pub proof fn law_seed_fixes_the_run(a: Seq<bool>, b: Seq<bool>, randomize: bool, seed: u64)
    requires
        a.len() == b.len(),
        run_decisions(a, randomize, Some(seed)),
        run_decisions(b, randomize, Some(seed)),
    ensures
        a == b,
{
    assert forall|k: int| 0 <= k < a.len() implies a[k] == b[k] by {
        assert(a[k] ==> randomize);
        assert(b[k] ==> randomize);
    }
    assert(a =~= b);
}

} // verus!
