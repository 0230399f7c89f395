//! How often each node changes district along a chain of accepted plans.
use crate::coin::Reassignments;
use crate::error::{invalid_data, Error};
use crate::metrics::counts::{indices, law_indices};
use crate::text::{decimal, push_decimal};
use vstd::prelude::*;
use vstd::slice::slice_to_vec;

verus! {

/// The length of the shorter of two sequences.
pub open spec fn common_len(first: Seq<u16>, second: Seq<u16>) -> int {
    if first.len() < second.len() {
        first.len() as int
    } else {
        second.len() as int
    }
}

/// The first position from `i` on where the labels differ.
pub open spec fn disagreement_from(first: Seq<u16>, second: Seq<u16>, i: int) -> Option<int>
    decreases common_len(first, second) - i,
{
    if i < 0 || i >= common_len(first, second) {
        None
    } else if first[i] != second[i] {
        Some(i)
    } else {
        disagreement_from(first, second, i + 1)
    }
}

/// The first position where two plans differ, with their labels there.
pub fn find_first_disagreement_index(first: &[u16], second: &[u16]) -> (r: Option<
    (usize, (u16, u16)),
>)
    ensures
        match disagreement_from(first@, second@, 0) {
            Some(i) => r == Some((i as usize, (first@[i], second@[i]))),
            None => r is None,
        },
{
    let mut i: usize = 0;
    while i < first.len() && i < second.len()
        invariant
            i <= common_len(first@, second@),
            disagreement_from(first@, second@, 0) == disagreement_from(first@, second@, i as int),
        decreases first.len() - i,
    {
        if first[i] != second[i] {
            return Some((i, (first[i], second[i])));
        }
        i += 1;
    }
    None
}

/// The label after labels `a` and `b` trade places.
pub open spec fn swapped(label: u16, a: u16, b: u16) -> u16 {
    if label == a {
        b
    } else if label == b {
        a
    } else {
        label
    }
}

/// The labels after labels `a` and `b` trade places.
pub open spec fn swapped_labels(labels: Seq<u16>, a: u16, b: u16) -> Seq<u16> {
    Seq::new(labels.len(), |i: int| swapped(labels[i], a, b))
}

/// Let two labels trade places.
pub fn swap_labels(labels: &mut Vec<u16>, label_a: u16, label_b: u16)
    ensures
        final(labels)@ == swapped_labels(old(labels)@, label_a, label_b),
{
    let ghost start = labels@;
    let mut i: usize = 0;
    while i < labels.len()
        invariant
            i <= labels@.len(),
            labels@.len() == start.len(),
            forall|k: int|
                0 <= k < i ==> #[trigger] labels@[k] == swapped(start[k], label_a, label_b),
            forall|k: int| i <= k < labels@.len() ==> #[trigger] labels@[k] == start[k],
        decreases labels.len() - i,
    {
        let label: u16 = labels[i];
        if label == label_a {
            labels.set(i, label_b);
        } else if label == label_b {
            labels.set(i, label_a);
        }
        i += 1;
    }
    proof {
        assert(labels@ =~= swapped_labels(start, label_a, label_b));
    }
}

/// Trading places twice changes nothing.
pub proof fn law_swap_is_its_own_inverse(labels: Seq<u16>, a: u16, b: u16)
    ensures
        swapped_labels(swapped_labels(labels, a, b), a, b) == labels,
{
    assert(swapped_labels(swapped_labels(labels, a, b), a, b) =~= labels);
}

/// The message for a label that the first plan did not use.
pub open spec fn label_outside_text(label: nat, index: nat, max_label: nat) -> Seq<char> {
    "encountered assignment label "@ + decimal(label) + " at index "@ + decimal(index)
        + " outside first assignment label range 0..="@ + decimal(max_label)
        + "; changed-assignments cannot apply the current label permutation"@
}

/// Whether every label has an entry in a permutation of `n` labels.
pub open spec fn labels_within(assignment: Seq<u16>, n: nat) -> bool {
    forall|i: int| 0 <= i < assignment.len() ==> #[trigger] assignment[i] < n
}

/// Whether `e` reports the first label without an entry in a permutation of `n` labels.
pub open spec fn reports_label_outside(assignment: Seq<u16>, n: nat, e: Error) -> bool {
    exists|i: int|
        0 <= i < assignment.len() && #[trigger] assignment[i] >= n && (forall|j: int|
            0 <= j < i ==> #[trigger] assignment[j] < n) && e.is_invalid_data(
            label_outside_text(assignment[i] as nat, i as nat, (n - 1) as nat),
        )
}

/// Check that every label has an entry in the current permutation.
pub fn validate_labels_within_first_assignment_range(
    assignment: &[u16],
    current_permutation: &[u16],
) -> (r: Result<(), Error>)
    requires
        current_permutation@.len() > 0,
    ensures
        r is Ok <==> labels_within(assignment@, current_permutation@.len()),
        r matches Err(e) ==> reports_label_outside(
            assignment@,
            current_permutation@.len(),
            e,
        ),
{
    let max_label: usize = current_permutation.len() - 1;
    let mut i: usize = 0;
    while i < assignment.len()
        invariant
            i <= assignment@.len(),
            max_label + 1 == current_permutation@.len(),
            forall|k: int|
                0 <= k < i ==> #[trigger] assignment@[k] < current_permutation@.len(),
        decreases assignment.len() - i,
    {
        let label: u16 = assignment[i];
        if label as usize > max_label {
            let mut message = "encountered assignment label ".to_owned();
            push_decimal(&mut message, label as u64);
            message.append(" at index ");
            push_decimal(&mut message, i as u64);
            message.append(" outside first assignment label range 0..=");
            push_decimal(&mut message, max_label as u64);
            message.append("; changed-assignments cannot apply the current label permutation");
            assert(assignment@[i as int] >= current_permutation@.len());
            return Err(invalid_data(message));
        }
        i += 1;
    }
    Ok(())
}

/// `assignment` with every label sent through `permutation`.
pub open spec fn relabelled(assignment: Seq<u16>, permutation: Seq<u16>) -> Seq<u16> {
    Seq::new(assignment.len(), |i: int| permutation[assignment[i] as int])
}

/// The two labels that trade places: those at the first disagreement, or one label with itself
/// where there is none.
pub open spec fn swap_pair(current: Seq<u16>, mapped: Seq<u16>, randomize: bool) -> (u16, u16) {
    if randomize {
        match disagreement_from(current, mapped, 0) {
            Some(i) => (current[i], mapped[i]),
            None => (1, 1),
        }
    } else {
        (1, 1)
    }
}

/// The next plan as it is counted: sent through the permutation, then with the two labels traded.
pub open spec fn next_labels(
    current: Seq<u16>,
    assignment: Seq<u16>,
    permutation: Seq<u16>,
    randomize: bool,
) -> Seq<u16> {
    let mapped = relabelled(assignment, permutation);
    let pair = swap_pair(current, mapped, randomize);
    swapped_labels(mapped, pair.0, pair.1)
}

/// The permutation after a step.
pub open spec fn next_permutation(
    current: Seq<u16>,
    assignment: Seq<u16>,
    permutation: Seq<u16>,
    randomize: bool,
) -> Seq<u16> {
    let pair = swap_pair(current, relabelled(assignment, permutation), randomize);
    swapped_labels(permutation, pair.0, pair.1)
}

/// The change counts after a step from `current` to `next`.
pub open spec fn counted(diff_count: Seq<u32>, current: Seq<u16>, next: Seq<u16>) -> Seq<u32> {
    Seq::new(
        diff_count.len(),
        |i: int|
            if i < common_len(current, next) && current[i] != next[i] {
                (diff_count[i] + 1) as u32
            } else {
                diff_count[i]
            },
    )
}

/// Count the nodes that change district from one plan to the next.
///
/// The next plan's labels are first sent through the current permutation. Where labels are
/// reassigned, the two labels at the first disagreement then trade places, in the plan and in the
/// permutation.
pub fn update_changed_assignment_state(
    current_assignment: &[u16],
    assignment: &mut Vec<u16>,
    current_permutation: &mut Vec<u16>,
    diff_count: &mut Vec<u32>,
    randomize_reassignment: bool,
) -> (r: Result<(), Error>)
    requires
        old(current_permutation)@.len() > 0,
        forall|i: int|
            0 <= i < old(diff_count)@.len() ==> #[trigger] old(diff_count)@[i] < u32::MAX,
    ensures
        r is Ok <==> labels_within(old(assignment)@, old(current_permutation)@.len()),
        r matches Err(e) ==> reports_label_outside(
            old(assignment)@,
            old(current_permutation)@.len(),
            e,
        ) && *final(assignment) == *old(assignment) && *final(current_permutation) == *old(
            current_permutation
        ) && *final(diff_count) == *old(diff_count),
        r is Ok ==> {
            &&& final(assignment)@ == next_labels(
                current_assignment@,
                old(assignment)@,
                old(current_permutation)@,
                randomize_reassignment,
            )
            &&& final(current_permutation)@ == next_permutation(
                current_assignment@,
                old(assignment)@,
                old(current_permutation)@,
                randomize_reassignment,
            )
            &&& final(diff_count)@ == counted(
                old(diff_count)@,
                current_assignment@,
                final(assignment)@,
            )
            &&& final(diff_count)@.len() == old(diff_count)@.len()
            &&& forall|i: int|
                0 <= i < old(diff_count)@.len() && i < current_assignment@.len() && i < old(
                    assignment
                )@.len() ==> #[trigger] final(diff_count)@[i] == old(diff_count)@[i] + (
                if current_assignment@[i] != final(assignment)@[i] {
                    1int
                } else {
                    0
                })
        },
{
    match validate_labels_within_first_assignment_range(assignment, current_permutation) {
        Ok(()) => {},
        Err(e) => {
            return Err(e);
        },
    }
    let ghost plan = assignment@;
    let ghost permutation = current_permutation@;
    let ghost counts = diff_count@;
    let ghost mapped = relabelled(plan, permutation);
    let mut i: usize = 0;
    while i < assignment.len()
        invariant
            i <= assignment@.len(),
            assignment@.len() == plan.len(),
            current_permutation@ == permutation,
            labels_within(plan, permutation.len()),
            mapped == relabelled(plan, permutation),
            forall|k: int| 0 <= k < i ==> #[trigger] assignment@[k] == mapped[k],
            forall|k: int| i <= k < assignment@.len() ==> #[trigger] assignment@[k] == plan[k],
        decreases assignment.len() - i,
    {
        let label: u16 = assignment[i];
        assert(plan[i as int] < permutation.len());
        assignment.set(i, current_permutation[label as usize]);
        i += 1;
    }
    proof {
        assert(assignment@ =~= mapped);
    }
    if randomize_reassignment {
        let (label_a, label_b) = match find_first_disagreement_index(
            current_assignment,
            assignment,
        ) {
            Some((_, labels)) => labels,
            None => (1u16, 1u16),
        };
        swap_labels(assignment, label_a, label_b);
        swap_labels(current_permutation, label_a, label_b);
    } else {
        proof {
            assert(swapped_labels(mapped, 1, 1) =~= mapped);
            assert(swapped_labels(permutation, 1, 1) =~= permutation);
        }
    }
    let ghost next = assignment@;
    let mut i: usize = 0;
    while i < current_assignment.len() && i < assignment.len() && i < diff_count.len()
        invariant
            i <= common_len(current_assignment@, next),
            i <= diff_count@.len(),
            assignment@ == next,
            diff_count@.len() == counts.len(),
            forall|k: int| 0 <= k < counts.len() ==> #[trigger] counts[k] < u32::MAX,
            forall|k: int|
                0 <= k < i ==> #[trigger] diff_count@[k] == counted(
                    counts,
                    current_assignment@,
                    next,
                )[k],
            forall|k: int| i <= k < counts.len() ==> #[trigger] diff_count@[k] == counts[k],
        decreases diff_count.len() - i,
    {
        if current_assignment[i] != assignment[i] {
            let count: u32 = diff_count[i];
            diff_count.set(i, count + 1);
        }
        i += 1;
    }
    proof {
        assert(diff_count@ =~= counted(counts, current_assignment@, next));
    }
    Ok(())
}

/// Where labels are reassigned, a plan that differs from the one before only in that two labels
/// traded places counts no change.
pub proof fn law_relabelling_counts_nothing(
    current: Seq<u16>,
    assignment: Seq<u16>,
    permutation: Seq<u16>,
    a: u16,
    b: u16,
    diff_count: Seq<u32>,
)
    requires
        relabelled(assignment, permutation) == swapped_labels(current, a, b),
    ensures
        next_labels(current, assignment, permutation, true) == current,
        counted(
            diff_count,
            current,
            next_labels(current, assignment, permutation, true),
        ) == diff_count,
{
    let mapped = relabelled(assignment, permutation);
    let next = next_labels(current, assignment, permutation, true);
    lemma_disagreement(current, mapped, 0);
    assert(mapped.len() == current.len());
    assert forall|i: int| 0 <= i < current.len() implies next[i] == current[i] by {
        assert(mapped[i] == swapped(current[i], a, b));
        match disagreement_from(current, mapped, 0) {
            Some(k) => {
                assert(mapped[k] == swapped(current[k], a, b));
            },
            None => {
                assert(current[i] == mapped[i]);
            },
        }
    }
    assert(next =~= current);
    assert(counted(diff_count, current, next) =~= diff_count);
}

proof fn lemma_disagreement(first: Seq<u16>, second: Seq<u16>, i: int)
    requires
        0 <= i,
    ensures
        match disagreement_from(first, second, i) {
            Some(k) => i <= k < common_len(first, second) && first[k] != second[k] && forall|j: int|
                i <= j < k ==> #[trigger] first[j] == second[j],
            None => forall|k: int|
                i <= k < common_len(first, second) ==> #[trigger] first[k] == second[k],
        },
    decreases common_len(first, second) - i,
{
    if i < common_len(first, second) && first[i] == second[i] {
        lemma_disagreement(first, second, i + 1);
    }
}

/// A step raises the count of each node that the two counted plans label differently by exactly
/// one, and leaves the other counts.
pub proof fn law_a_step_counts_each_change_once(before: Step, plan: Seq<u16>, randomize: bool, i: int)
    requires
        before.counts.len() == before.plan.len(),
        plan.len() == before.plan.len(),
        0 <= i < plan.len(),
        before.counts[i] < u32::MAX,
    ensures
        next_step(before, plan, randomize).plan.len() == plan.len(),
        next_step(before, plan, randomize).counts.len() == plan.len(),
        next_step(before, plan, randomize).counts[i] == before.counts[i] + (if before.plan[i]
            != next_step(before, plan, randomize).plan[i] {
            1int
        } else {
            0
        }),
{
}

/// Without reassignment, or where the plan sent through the permutation agrees with the current
/// one, no label trades places: the plan is counted as the permutation gives it, and the permutation
/// stays.
pub proof fn law_nothing_trades_places(
    current: Seq<u16>,
    assignment: Seq<u16>,
    permutation: Seq<u16>,
    randomize: bool,
)
    requires
        assignment.len() == current.len(),
        !randomize || forall|j: int|
            0 <= j < current.len() ==> #[trigger] current[j] == permutation[assignment[j] as int],
    ensures
        next_permutation(current, assignment, permutation, randomize) == permutation,
        next_labels(current, assignment, permutation, randomize).len() == assignment.len(),
        forall|j: int|
            0 <= j < assignment.len() ==> #[trigger] next_labels(
                current,
                assignment,
                permutation,
                randomize,
            )[j] == permutation[assignment[j] as int],
{
    let mapped = relabelled(assignment, permutation);
    lemma_disagreement(current, mapped, 0);
    assert(swapped_labels(permutation, 1, 1) =~= permutation);
    if randomize {
        assert forall|j: int| 0 <= j < current.len() implies current[j] == mapped[j] by {}
    }
}

/// With reassignment, the two labels at the first disagreement `i` trade places, in the plan and in
/// the permutation, and no other label does. The plan then agrees with the current one at `i`.
pub proof fn law_reassignment_trades_two_labels(
    current: Seq<u16>,
    assignment: Seq<u16>,
    permutation: Seq<u16>,
    i: int,
)
    requires
        assignment.len() == current.len(),
        0 <= i < current.len(),
        current[i] != permutation[assignment[i] as int],
        forall|j: int|
            0 <= j < i ==> #[trigger] current[j] == permutation[assignment[j] as int],
    ensures
        next_labels(current, assignment, permutation, true).len() == assignment.len(),
        forall|j: int|
            0 <= j < assignment.len() ==> #[trigger] next_labels(
                current,
                assignment,
                permutation,
                true,
            )[j] == (if permutation[assignment[j] as int] == current[i] {
                permutation[assignment[i] as int]
            } else if permutation[assignment[j] as int] == permutation[assignment[i] as int] {
                current[i]
            } else {
                permutation[assignment[j] as int]
            }),
        next_labels(current, assignment, permutation, true)[i] == current[i],
        next_permutation(current, assignment, permutation, true).len() == permutation.len(),
        forall|x: int|
            0 <= x < permutation.len() ==> #[trigger] next_permutation(
                current,
                assignment,
                permutation,
                true,
            )[x] == (if permutation[x] == current[i] {
                permutation[assignment[i] as int]
            } else if permutation[x] == permutation[assignment[i] as int] {
                current[i]
            } else {
                permutation[x]
            }),
{
    let mapped = relabelled(assignment, permutation);
    lemma_disagreement(current, mapped, 0);
    let k = disagreement_from(current, mapped, 0);
    match k {
        Some(found) => {
            if found < i {
                assert(current[found] == permutation[assignment[found] as int]);
            }
            if i < found {
                assert(current[i] == mapped[i]);
            }
        },
        None => {
            assert(current[i] == mapped[i]);
        },
    }
}

/// The first disagreement is where the two plans first differ within their common length: `i` is
/// found exactly when they differ at `i` and agree before; nothing is found exactly when they agree
/// throughout.
pub proof fn law_first_disagreement(first: Seq<u16>, second: Seq<u16>, i: int)
    ensures
        disagreement_from(first, second, 0) == Some(i) <==> 0 <= i < first.len() && i
            < second.len() && first[i] != second[i] && (forall|j: int|
            0 <= j < i ==> #[trigger] first[j] == second[j]),
        disagreement_from(first, second, 0) is None <==> (forall|j: int|
            0 <= j < first.len() && j < second.len() ==> #[trigger] first[j] == second[j]),
{
    lemma_disagreement(first, second, 0);
    match disagreement_from(first, second, 0) {
        Some(k) => {
            if 0 <= i < first.len() && i < second.len() && first[i] != second[i] && (forall|j: int|
                0 <= j < i ==> #[trigger] first[j] == second[j]) {
                if i < k {
                    assert(first[i] == second[i]);
                }
                if k < i {
                    assert(first[k] == second[k]);
                }
            }
        },
        None => {},
    }
}

/// Trading two labels gives each node of the one label the other, and leaves every other node.
pub proof fn law_swapped_labels(labels: Seq<u16>, a: u16, b: u16, i: int)
    requires
        0 <= i < labels.len(),
    ensures
        swapped_labels(labels, a, b).len() == labels.len(),
        labels[i] == a ==> swapped_labels(labels, a, b)[i] == b,
        labels[i] == b ==> swapped_labels(labels, a, b)[i] == a,
        labels[i] != a && labels[i] != b ==> swapped_labels(labels, a, b)[i] == labels[i],
{
}

/// A permutation stays a permutation: different labels keep different images.
pub proof fn law_permutation_stays_injective(permutation: Seq<u16>, a: u16, b: u16)
    requires
        permutation.no_duplicates(),
    ensures
        swapped_labels(permutation, a, b).no_duplicates(),
{
    let after = swapped_labels(permutation, a, b);
    assert forall|i: int, j: int|
        0 <= i < after.len() && 0 <= j < after.len() && i != j implies after[i] != after[j] by {
        assert(permutation[i] != permutation[j]);
    }
}

/// The largest label of a plan; zero for a plan without nodes.
pub open spec fn largest(labels: Seq<u16>) -> u16
    decreases labels.len(),
{
    if labels.len() == 0 {
        0
    } else if labels.last() > largest(labels.drop_last()) {
        labels.last()
    } else {
        largest(labels.drop_last())
    }
}

/// No label of a plan is above the largest.
pub proof fn law_largest(labels: Seq<u16>)
    ensures
        labels_within(labels, (largest(labels) + 1) as nat),
    decreases labels.len(),
{
    if labels.len() > 0 {
        law_largest(labels.drop_last());
        assert forall|i: int| 0 <= i < labels.len() implies #[trigger] labels[i] < largest(labels)
            + 1 by {
            if i < labels.len() - 1 {
                assert(labels.drop_last()[i] == labels[i]);
            }
        }
    }
}

/// The largest label of a plan is one of its labels, and no label is above it.
pub proof fn law_largest_label(labels: Seq<u16>)
    ensures
        labels.len() > 0 ==> labels.contains(largest(labels)),
        labels.len() == 0 ==> largest(labels) == 0,
        forall|i: int| 0 <= i < labels.len() ==> #[trigger] labels[i] <= largest(labels),
    decreases labels.len(),
{
    law_largest(labels);
    if labels.len() > 0 {
        let shorter = labels.drop_last();
        law_largest_label(shorter);
        assert(labels[labels.len() - 1] == labels.last());
        if shorter.contains(largest(shorter)) {
            let i = choose|i: int| 0 <= i < shorter.len() && shorter[i] == largest(shorter);
            assert(labels[i] == largest(shorter));
        }
    }
}

fn largest_label(assignment: &[u16]) -> (r: u16)
    ensures
        r == largest(assignment@),
{
    let mut found: u16 = 0;
    let mut i: usize = 0;
    while i < assignment.len()
        invariant
            i <= assignment@.len(),
            found == largest(assignment@.take(i as int)),
        decreases assignment.len() - i,
    {
        proof {
            assert(assignment@.take(i + 1).drop_last() =~= assignment@.take(i as int));
        }
        if assignment[i] > found {
            found = assignment[i];
        }
        i += 1;
    }
    proof {
        assert(assignment@.take(i as int) =~= assignment@);
    }
    found
}

/// The permutation of `n` labels that leaves each in place.
pub open spec fn identity(n: nat) -> Seq<u16> {
    Seq::new(n, |i: int| i as u16)
}

fn identity_permutation(largest: u16) -> (r: Vec<u16>)
    ensures
        r@ == identity((largest + 1) as nat),
{
    let mut permutation: Vec<u16> = Vec::new();
    let mut label: u32 = 0;
    while label <= largest as u32
        invariant
            label <= largest + 1,
            permutation@ == identity(label as nat),
        decreases largest + 1 - label,
    {
        permutation.push(label as u16);
        proof {
            assert(permutation@ =~= identity((label + 1) as nat));
        }
        label += 1;
    }
    permutation
}

/// Where a chain of plans stands: the last plan as counted, the permutation, and the counts.
pub ghost struct Step {
    pub plan: Seq<u16>,
    pub permutation: Seq<u16>,
    pub counts: Seq<u32>,
}

/// Where a chain stands after its first plan.
pub open spec fn first_step(plan: Seq<u16>) -> Step {
    Step {
        plan,
        permutation: identity((largest(plan) + 1) as nat),
        counts: Seq::new(plan.len(), |i: int| 0u32),
    }
}

/// Where a chain stands after one more plan.
pub open spec fn next_step(before: Step, plan: Seq<u16>, randomize: bool) -> Step {
    let next = next_labels(before.plan, plan, before.permutation, randomize);
    Step {
        plan: next,
        permutation: next_permutation(before.plan, plan, before.permutation, randomize),
        counts: counted(before.counts, before.plan, next),
    }
}

/// Where a chain stands after the first `n` plans of `rest`.
pub open spec fn steps(first: Seq<u16>, rest: Seq<Vec<u16>>, decisions: Seq<bool>, n: int) -> Step
    decreases n,
{
    if n <= 0 {
        first_step(first)
    } else {
        next_step(steps(first, rest, decisions, n - 1), rest[n - 1]@, decisions[n - 1])
    }
}

/// Decisions that come later do not change where a chain stands.
pub proof fn lemma_later_decisions(
    first: Seq<u16>,
    rest: Seq<Vec<u16>>,
    decisions: Seq<bool>,
    later: bool,
    n: int,
)
    requires
        n <= decisions.len(),
    ensures
        steps(first, rest, decisions.push(later), n) == steps(first, rest, decisions, n),
    decreases n,
{
    if n > 0 {
        lemma_later_decisions(first, rest, decisions, later, n - 1);
    }
}

/// No node changes more often than there are steps, and a permutation stays one.
pub proof fn law_changes_are_at_most_the_steps(
    first: Seq<u16>,
    rest: Seq<Vec<u16>>,
    decisions: Seq<bool>,
    n: int,
)
    requires
        0 <= n <= rest.len(),
        n < u32::MAX,
    ensures
        steps(first, rest, decisions, n).counts.len() == first.len(),
        forall|i: int|
            0 <= i < first.len() ==> #[trigger] steps(first, rest, decisions, n).counts[i] <= n,
        steps(first, rest, decisions, n).permutation.no_duplicates(),
    decreases n,
{
    if n > 0 {
        law_changes_are_at_most_the_steps(first, rest, decisions, n - 1);
        let before = steps(first, rest, decisions, n - 1);
        let after = steps(first, rest, decisions, n);
        let pair = swap_pair(
            before.plan,
            relabelled(rest[n - 1]@, before.permutation),
            decisions[n - 1],
        );
        law_permutation_stays_injective(before.permutation, pair.0, pair.1);
        assert forall|i: int| 0 <= i < first.len() implies #[trigger] after.counts[i] <= n by {
            assert(before.counts[i] <= n - 1);
        }
    }
}

/// The count of a node is the number of steps between counted plans that label it differently.
pub proof fn law_counts_are_the_changes(
    first: Seq<u16>,
    rest: Seq<Vec<u16>>,
    decisions: Seq<bool>,
    n: int,
    i: int,
)
    requires
        0 <= n <= rest.len(),
        n < u32::MAX,
        forall|k: int| 0 <= k < n ==> (#[trigger] rest[k])@.len() == first.len(),
        0 <= i < first.len(),
    ensures
        steps(first, rest, decisions, 0).plan == first,
        steps(first, rest, decisions, n).plan.len() == first.len(),
        steps(first, rest, decisions, n).counts[i] == Set::new(
            |k: int|
                1 <= k <= n && steps(first, rest, decisions, k - 1).plan[i] != steps(
                    first,
                    rest,
                    decisions,
                    k,
                ).plan[i],
        ).len(),
    decreases n,
{
    let changes = |k: int|
        1 <= k && steps(first, rest, decisions, k - 1).plan[i] != steps(
            first,
            rest,
            decisions,
            k,
        ).plan[i];
    assert(Set::new(
        |k: int|
            1 <= k <= n && steps(first, rest, decisions, k - 1).plan[i] != steps(
                first,
                rest,
                decisions,
                k,
            ).plan[i],
    ) =~= indices(n + 1, changes));
    law_indices(n, changes);
    law_indices(0, changes);
    law_changes_are_at_most_the_steps(first, rest, decisions, n);
    if n > 0 {
        law_counts_are_the_changes(first, rest, decisions, n - 1, i);
        law_changes_are_at_most_the_steps(first, rest, decisions, n - 1);
        assert(Set::new(
            |k: int|
                1 <= k <= n - 1 && steps(first, rest, decisions, k - 1).plan[i] != steps(
                    first,
                    rest,
                    decisions,
                    k,
                ).plan[i],
        ) =~= indices(n, changes));
        let before = steps(first, rest, decisions, n - 1);
        assert(rest[n - 1]@.len() == first.len());
        assert(before.counts[i] <= n - 1);
        law_a_step_counts_each_change_once(before, rest[n - 1]@, decisions[n - 1], i);
    }
}

/// Without reassignment the plans are counted as they are: `max` is the largest label of the first
/// plan, and no later plan goes above it.
pub proof fn law_without_reassignment_plans_are_counted_as_they_are(
    first: Seq<u16>,
    rest: Seq<Vec<u16>>,
    decisions: Seq<bool>,
    max: u16,
    n: int,
)
    requires
        0 <= n <= rest.len(),
        n <= decisions.len(),
        forall|k: int| 0 <= k < n ==> !#[trigger] decisions[k],
        first.contains(max),
        forall|i: int| 0 <= i < first.len() ==> #[trigger] first[i] <= max,
        forall|k: int, i: int|
            0 <= k < n && 0 <= i < rest[k]@.len() ==> #[trigger] rest[k]@[i] <= max,
    ensures
        steps(first, rest, decisions, n).plan == (if n == 0 {
            first
        } else {
            rest[n - 1]@
        }),
        steps(first, rest, decisions, n).permutation == Seq::new(
            (max + 1) as nat,
            |label: int| label as u16,
        ),
    decreases n,
{
    law_largest_label(first);
    assert(largest(first) == max) by {
        let i = choose|i: int| 0 <= i < first.len() && first[i] == max;
        let j = choose|j: int| 0 <= j < first.len() && first[j] == largest(first);
        assert(first[i] <= largest(first) && first[j] <= max);
    }
    let permutation = identity((max + 1) as nat);
    assert(permutation =~= Seq::new((max + 1) as nat, |label: int| label as u16));
    if n > 0 {
        law_without_reassignment_plans_are_counted_as_they_are(first, rest, decisions, max, n - 1);
        let plan = rest[n - 1]@;
        assert(!decisions[n - 1]);
        assert(swapped_labels(permutation, 1, 1) =~= permutation);
        let next = steps(first, rest, decisions, n).plan;
        assert forall|i: int| 0 <= i < plan.len() implies next[i] == plan[i] by {
            assert(rest[n - 1]@[i] <= max);
        }
        assert(next =~= plan);
    }
}

/// Without reassignment, the count of a node after `n` steps is the number of steps `k` for which
/// plan `k - 1` and plan `k` label it differently.
pub proof fn law_counts_without_reassignment(
    first: Seq<u16>,
    rest: Seq<Vec<u16>>,
    decisions: Seq<bool>,
    max: u16,
    n: int,
    i: int,
)
    requires
        0 <= n <= rest.len(),
        n < u32::MAX,
        n <= decisions.len(),
        forall|k: int| 0 <= k < n ==> !#[trigger] decisions[k],
        first.contains(max),
        forall|j: int| 0 <= j < first.len() ==> #[trigger] first[j] <= max,
        forall|k: int, j: int|
            0 <= k < n && 0 <= j < rest[k]@.len() ==> #[trigger] rest[k]@[j] <= max,
        forall|k: int| 0 <= k < n ==> (#[trigger] rest[k])@.len() == first.len(),
        0 <= i < first.len(),
    ensures
        steps(first, rest, decisions, n).counts.len() == first.len(),
        steps(first, rest, decisions, n).counts[i] == Set::new(
            |k: int|
                1 <= k <= n && (if k == 1 {
                    first
                } else {
                    rest[k - 2]@
                })[i] != rest[k - 1]@[i],
        ).len(),
{
    law_counts_are_the_changes(first, rest, decisions, n, i);
    law_changes_are_at_most_the_steps(first, rest, decisions, n);
    let counted = Set::new(
        |k: int|
            1 <= k <= n && steps(first, rest, decisions, k - 1).plan[i] != steps(
                first,
                rest,
                decisions,
                k,
            ).plan[i],
    );
    let given = Set::new(
        |k: int|
            1 <= k <= n && (if k == 1 {
                first
            } else {
                rest[k - 2]@
            })[i] != rest[k - 1]@[i],
    );
    assert forall|k: int| counted.contains(k) <==> given.contains(k) by {
        if 1 <= k <= n {
            law_without_reassignment_plans_are_counted_as_they_are(first, rest, decisions, max, k);
            law_without_reassignment_plans_are_counted_as_they_are(
                first,
                rest,
                decisions,
                max,
                k - 1,
            );
        }
    }
    assert(counted =~= given);
}

/// How a chain goes on: it starts with its first plan, each label in its place and nothing counted,
/// and each further plan is counted as it is relabelled, with the permutation that follows.
pub proof fn law_steps(first: Seq<u16>, rest: Seq<Vec<u16>>, decisions: Seq<bool>, n: int)
    requires
        0 < n <= rest.len(),
    ensures
        steps(first, rest, decisions, 0).plan == first,
        steps(first, rest, decisions, 0).counts.len() == first.len(),
        forall|i: int|
            0 <= i < first.len() ==> #[trigger] steps(first, rest, decisions, 0).counts[i] == 0,
        steps(first, rest, decisions, n).plan == next_labels(
            steps(first, rest, decisions, n - 1).plan,
            rest[n - 1]@,
            steps(first, rest, decisions, n - 1).permutation,
            decisions[n - 1],
        ),
        steps(first, rest, decisions, n).permutation == next_permutation(
            steps(first, rest, decisions, n - 1).plan,
            rest[n - 1]@,
            steps(first, rest, decisions, n - 1).permutation,
            decisions[n - 1],
        ),
{
}

/// Change counts along a chain of plans.
#[derive(Debug)]
pub struct ChangedAssignments {
    pub current_assignment: Option<Vec<u16>>,
    pub current_permutation: Vec<u16>,
    pub diff_count: Vec<u32>,
    /// How many plans were counted.
    pub full_count: usize,
}

impl ChangedAssignments {
    /// Whether a first plan was taken.
    pub open spec fn started(&self) -> bool {
        self.current_assignment is Some
    }

    /// Where the chain stands, once started.
    pub open spec fn step(&self) -> Step {
        Step {
            plan: self.current_assignment->0@,
            permutation: self.current_permutation@,
            counts: self.diff_count@,
        }
    }

    /// No node changed more often than there were steps, and different labels have different
    /// images.
    pub open spec fn wf(&self) -> bool {
        if self.started() {
            &&& self.full_count >= 1
            &&& self.current_permutation@.len() > 0
            &&& self.current_permutation@.no_duplicates()
            &&& forall|i: int|
                0 <= i < self.diff_count@.len() ==> #[trigger] self.diff_count@[i]
                    < self.full_count
        } else {
            self.full_count == 0
        }
    }

    /// No plan yet, so no labels to permute and no units to count for.
    pub fn new() -> (r: Self)
        ensures
            r.wf(),
            !r.started(),
            r.current_permutation@ == Seq::<u16>::empty(),
            r.diff_count@ == Seq::<u32>::empty(),
            r.full_count == 0,
    {
        ChangedAssignments {
            current_assignment: None,
            current_permutation: Vec::new(),
            diff_count: Vec::new(),
            full_count: 0,
        }
    }

    /// Take the next plan, with the decision whether its labels are reassigned.
    pub fn accept(&mut self, assignment: Vec<u16>, randomize: bool) -> (r: Result<(), Error>)
        requires
            old(self).wf(),
            old(self).full_count < u32::MAX,
        ensures
            final(self).wf(),
            r is Ok <==> (old(self).started() ==> labels_within(
                assignment@,
                old(self).current_permutation@.len(),
            )),
            r matches Err(e) ==> reports_label_outside(
                assignment@,
                old(self).current_permutation@.len(),
                e,
            ) && *final(self) == *old(self),
            r is Ok ==> final(self).started() && final(self).full_count == old(self).full_count + 1
                && final(self).step() == (if old(self).started() {
                next_step(old(self).step(), assignment@, randomize)
            } else {
                first_step(assignment@)
            }),
    {
        match self.current_assignment.take() {
            None => {
                self.current_permutation = identity_permutation(largest_label(&assignment));
                self.diff_count = vec![0u32; assignment.len()];
                proof {
                    assert(self.diff_count@ =~= Seq::new(assignment@.len(), |i: int| 0u32));
                }
                self.current_assignment = Some(assignment);
                self.full_count = 1;
                Ok(())
            },
            Some(current) => {
                let ghost plan = assignment@;
                let ghost permutation = self.current_permutation@;
                let mut next = assignment;
                match update_changed_assignment_state(
                    &current,
                    &mut next,
                    &mut self.current_permutation,
                    &mut self.diff_count,
                    randomize,
                ) {
                    Ok(()) => {
                        proof {
                            let pair = swap_pair(
                                current@,
                                relabelled(plan, permutation),
                                randomize,
                            );
                            law_permutation_stays_injective(permutation, pair.0, pair.1);
                        }
                        self.current_assignment = Some(next);
                        self.full_count = self.full_count + 1;
                        Ok(())
                    },
                    Err(e) => {
                        self.current_assignment = Some(current);
                        Err(e)
                    },
                }
            },
        }
    }

    /// Take the next plan, and flip for its reassignment. The first plan uses up no flip.
    pub fn accept_frame(
        &mut self,
        assignment: Vec<u16>,
        reassignments: &mut Reassignments,
    ) -> (r: Result<(), Error>)
        requires
            old(self).wf(),
            old(self).full_count < u32::MAX,
        ensures
            final(self).wf(),
            r is Ok <==> (old(self).started() ==> labels_within(
                assignment@,
                old(self).current_permutation@.len(),
            )),
            r matches Err(e) ==> reports_label_outside(
                assignment@,
                old(self).current_permutation@.len(),
                e,
            ) && *final(self) == *old(self),
            r is Ok ==> final(self).started() && final(self).full_count == old(self).full_count + 1
                && final(self).step() == (if old(self).started() {
                next_step(
                    old(self).step(),
                    assignment@,
                    old(reassignments).enabled() && old(reassignments).decisions()[0],
                )
            } else {
                first_step(assignment@)
            }),
            final(reassignments).enabled() == old(reassignments).enabled(),
            if old(self).started() && old(reassignments).enabled() {
                forall|i: nat| #[trigger]
                    final(reassignments).decisions()[i] == old(reassignments).decisions()[i + 1]
            } else {
                final(reassignments).decisions() == old(reassignments).decisions()
            },
    {
        let randomize = if self.current_assignment.is_some() {
            reassignments.decide()
        } else {
            false
        };
        self.accept(assignment, randomize)
    }

    /// The change counts and the number of plans, if there was any plan.
    pub fn finish(self) -> (r: Result<(Vec<u32>, usize), Error>)
        ensures
            match r {
                Ok((diff_count, full_count)) => self.full_count > 0 && diff_count
                    == self.diff_count && full_count == self.full_count,
                Err(e) => self.full_count == 0 && e == Error::NoData,
            },
    {
        if self.full_count == 0 {
            return Err(Error::NoData);
        }
        Ok((self.diff_count, self.full_count))
    }
}

/// How many accepted plans count: all, or as many as asked for, but no more than there are.
pub fn accepted_line_count(max_accepted: Option<usize>, total_frames: usize) -> (r: usize)
    ensures
        r == match max_accepted {
            Some(cap) => if cap < total_frames {
                cap
            } else {
                total_frames
            },
            None => total_frames,
        },
{
    match max_accepted {
        Some(cap) => if cap < total_frames {
            cap
        } else {
            total_frames
        },
        None => total_frames,
    }
}

/// The suffix of the output file's name.
pub open spec fn changed_assignments_suffix_text(line_count: nat) -> Seq<char> {
    "_accept_"@ + decimal(line_count) + "_changed_assignments.parquet"@
}

/// The suffix of the output file's name.
pub fn changed_assignments_suffix(line_count: usize) -> (r: String)
    ensures
        r@ == changed_assignments_suffix_text(line_count as nat),
{
    let mut suffix = "_accept_".to_owned();
    push_decimal(&mut suffix, line_count as u64);
    suffix.append("_changed_assignments.parquet");
    suffix
}

/// A count as a fraction.
#[derive(Clone, Copy, PartialEq, Eq, Structural, Debug)]
pub struct Fraction {
    pub numerator: u32,
    pub denominator: usize,
}

/// The counts to write: as they are, or per step. A single plan has no steps, and no changes.
pub fn finalize_changed_counts(
    diff_count: &[u32],
    line_count: usize,
    normalize: bool,
) -> (r: Vec<Fraction>)
    ensures
        r@.len() == diff_count@.len(),
        forall|i: int|
            0 <= i < r@.len() ==> #[trigger] r@[i] == (if !normalize {
                Fraction { numerator: diff_count@[i], denominator: 1 }
            } else if line_count <= 1 {
                Fraction { numerator: 0, denominator: 1 }
            } else {
                Fraction {
                    numerator: diff_count@[i],
                    denominator: (line_count - 1) as usize,
                }
            }),
{
    let mut out: Vec<Fraction> = Vec::new();
    let mut i: usize = 0;
    while i < diff_count.len()
        invariant
            i <= diff_count@.len(),
            out@.len() == i,
            forall|k: int|
                0 <= k < i ==> #[trigger] out@[k] == (if !normalize {
                    Fraction { numerator: diff_count@[k], denominator: 1 }
                } else if line_count <= 1 {
                    Fraction { numerator: 0, denominator: 1 }
                } else {
                    Fraction {
                        numerator: diff_count@[k],
                        denominator: (line_count - 1) as usize,
                    }
                }),
        decreases diff_count.len() - i,
    {
        let value = if !normalize {
            Fraction { numerator: diff_count[i], denominator: 1 }
        } else if line_count <= 1 {
            Fraction { numerator: 0, denominator: 1 }
        } else {
            Fraction { numerator: diff_count[i], denominator: line_count - 1 }
        };
        out.push(value);
        i += 1;
    }
    out
}

/// Whether `should_randomize` may have given these decisions.
pub open spec fn decided<F: FnMut() -> bool>(should_randomize: F, decisions: Seq<bool>) -> bool {
    forall|k: int|
        0 <= k < decisions.len() ==> should_randomize.ensures((), #[trigger] decisions[k])
}

/// Whether every plan of `rest` uses only labels up to the largest one of `first`.
pub open spec fn keeps_label_range(first: Seq<u16>, rest: Seq<Vec<u16>>) -> bool {
    forall|k: int|
        0 <= k < rest.len() ==> labels_within(
            #[trigger] rest[k]@,
            (largest(first) + 1) as nat,
        )
}

/// Count changes over plans in memory. `should_randomize` is asked once per plan after the first.
///
/// Returns the counts and the number of plans, the first included.
pub fn compute_changed_counts<F: FnMut() -> bool>(
    first_assignment: &[u16],
    rest: Vec<Vec<u16>>,
    mut should_randomize: F,
) -> (r: (Vec<u32>, usize))
    requires
        rest@.len() < u32::MAX,
        should_randomize.requires(()),
        keeps_label_range(first_assignment@, rest@),
    ensures
        r.1 == rest@.len() + 1,
        exists|decisions: Seq<bool>|
            decisions.len() == rest@.len() && #[trigger] decided(should_randomize, decisions)
                && r.0@ == steps(
                first_assignment@,
                rest@,
                decisions,
                rest@.len() as int,
            ).counts,
{
    let ghost first = first_assignment@;
    let ghost plans = rest@;
    let ghost asked = should_randomize;
    let mut diff_count: Vec<u32> = vec![0u32; first_assignment.len()];
    let mut current_permutation = identity_permutation(largest_label(first_assignment));
    let mut current_assignment: Vec<u16> = slice_to_vec(first_assignment);
    let ghost mut decisions = Seq::<bool>::empty();
    let mut k: usize = 0;
    proof {
        assert(diff_count@ =~= first_step(first).counts);
        assert(current_assignment@ =~= first);
    }
    while k < rest.len()
        invariant
            k <= rest@.len(),
            rest@ == plans,
            rest@.len() < u32::MAX,
            should_randomize == asked,
            should_randomize.requires(()),
            keeps_label_range(first, plans),
            decisions.len() == k,
            decided(asked, decisions),
            current_permutation@.len() == largest(first) + 1,
            steps(first, plans, decisions, k as int) == (Step {
                plan: current_assignment@,
                permutation: current_permutation@,
                counts: diff_count@,
            }),
        decreases rest.len() - k,
    {
        let randomize = should_randomize();
        let mut assignment: Vec<u16> = rest[k].clone();
        proof {
            assert(assignment@ =~= plans[k as int]@);
            law_changes_are_at_most_the_steps(first, plans, decisions, k as int);
            lemma_later_decisions(first, plans, decisions, randomize, k as int);
            decisions = decisions.push(randomize);
        }
        match update_changed_assignment_state(
            &current_assignment,
            &mut assignment,
            &mut current_permutation,
            &mut diff_count,
            randomize,
        ) {
            Ok(()) => {},
            Err(_) => {
                assert(false);
            },
        }
        current_assignment = assignment;
        k += 1;
    }
    proof {
        assert(decided(asked, decisions));
    }
    (diff_count, rest.len() + 1)
}

} // verus!
