//! Incremental scoring of plans that arrive as changes to the plan before.
//!
//! A metric is seeded from a full plan and then patched with each batch of relabelled nodes.
//! [`TwoDeltaRun`] decides, event by event, what the metric does next, which output row follows,
//! and when the run ends.
use crate::district::{
    has_district, lemma_clear_bit, lemma_empty_mask, observe_district, reports_first_excess,
    validate_district_set_unchanged, within_limit, district_set_changed_text, MAX_DISTRICTS,
};
use crate::error::{invalid_data, Error};
use crate::metrics::counts::{indices, law_indices};
use crate::pipeline::{capped_reps, kept_reps, left_samples};
use crate::text::{decimal, push_decimal};
use std::collections::HashSet;
use vstd::prelude::*;

verus! {

/// One relabelled node.
#[derive(Clone, Copy, PartialEq, Eq, Structural, Debug)]
pub struct DeltaChange {
    pub node: usize,
    pub old: u16,
    pub new: u16,
}

/// The place of an output row in the chain: the number of its first sample, how many samples it
/// stands for, and the number of its accepted plan.
#[derive(Clone, Copy, PartialEq, Eq, Structural, Debug)]
pub struct TwoDeltaRow {
    pub step: u64,
    pub n_reps: u32,
    pub accepted: u64,
}

/// A decoded event: a full plan, or the nodes relabelled since the plan before.
#[derive(Debug)]
pub enum TwoDeltaEvent {
    Snapshot { assignment: Vec<u16>, count: u16 },
    Delta { changes: Vec<(u32, u16, u16)>, count: u16 },
}

// ---------------------------------------------------------------------------------------------
// Applying changes
// ---------------------------------------------------------------------------------------------

/// `before` with `changes` made one after another.
pub open spec fn applied(before: Seq<u16>, changes: Seq<DeltaChange>) -> Seq<u16>
    decreases changes.len(),
{
    if changes.len() == 0 {
        before
    } else {
        applied(before, changes.drop_last()).update(
            changes.last().node as int,
            changes.last().new,
        )
    }
}

/// Whether each change, in turn, finds the label that it replaces.
#[verifier::opaque]
pub open spec fn applicable(before: Seq<u16>, changes: Seq<DeltaChange>) -> bool {
    forall|k: int|
        0 <= k < changes.len() ==> (#[trigger] changes[k]).node < before.len() && applied(
            before,
            changes.take(k),
        )[changes[k].node as int] == changes[k].old
}

/// Whether every change names a node of `before` and the label that the node has there.
pub open spec fn matches_labels(before: Seq<u16>, changes: Seq<DeltaChange>) -> bool {
    forall|k: int|
        0 <= k < changes.len() ==> (#[trigger] changes[k]).node < before.len()
            && before[changes[k].node as int] == changes[k].old
}

/// Whether no node is named twice.
pub open spec fn distinct_nodes(changes: Seq<DeltaChange>) -> bool {
    forall|i: int, j: int|
        0 <= i < j < changes.len() ==> (#[trigger] changes[i]).node != (#[trigger] changes[j]).node
}

/// Making changes keeps the number of nodes.
pub proof fn lemma_applied_len(before: Seq<u16>, changes: Seq<DeltaChange>)
    requires
        forall|k: int| 0 <= k < changes.len() ==> (#[trigger] changes[k]).node < before.len(),
    ensures
        applied(before, changes).len() == before.len(),
    decreases changes.len(),
{
    if changes.len() > 0 {
        let shorter = changes.drop_last();
        assert forall|k: int| 0 <= k < shorter.len() implies (#[trigger] shorter[k]).node
            < before.len() by {
            assert(shorter[k] == changes[k]);
        }
        lemma_applied_len(before, shorter);
        assert(changes[changes.len() - 1].node < before.len());
    }
}

/// A node that no change names keeps its label; with distinct nodes, a named one gets the new
/// label of its change.
pub proof fn law_applied_labels(before: Seq<u16>, changes: Seq<DeltaChange>)
    requires
        distinct_nodes(changes),
        forall|k: int| 0 <= k < changes.len() ==> (#[trigger] changes[k]).node < before.len(),
    ensures
        forall|k: int|
            0 <= k < changes.len() ==> applied(before, changes)[(#[trigger] changes[k]).node as int]
                == changes[k].new,
        forall|n: int|
            0 <= n < before.len() && (forall|k: int|
                0 <= k < changes.len() ==> (#[trigger] changes[k]).node != n) ==> #[trigger] applied(
                before,
                changes,
            )[n] == before[n],
    decreases changes.len(),
{
    lemma_applied_len(before, changes);
    if changes.len() > 0 {
        let shorter = changes.drop_last();
        lemma_applied_len(before, shorter);
        law_applied_labels(before, shorter);
        assert forall|k: int| 0 <= k < changes.len() implies applied(
            before,
            changes,
        )[(#[trigger] changes[k]).node as int] == changes[k].new by {
            if k < shorter.len() {
                assert(changes[k] == shorter[k]);
                assert(changes[k].node != changes[changes.len() - 1].node);
            }
        }
        assert forall|n: int|
            0 <= n < before.len() && (forall|k: int|
                0 <= k < changes.len() ==> (#[trigger] changes[k]).node != n) implies #[trigger] applied(
            before,
            changes,
        )[n] == before[n] by {
            assert forall|k: int| 0 <= k < shorter.len() implies (#[trigger] shorter[k]).node
                != n by {
                assert(changes[k].node != n);
            }
            assert(changes[changes.len() - 1].node != n);
            assert(applied(before, shorter)[n] == before[n]);
        }
    }
}

/// Changes that match the labels and name each node once can be made in turn.
pub proof fn law_distinct_changes_apply(before: Seq<u16>, changes: Seq<DeltaChange>)
    requires
        matches_labels(before, changes),
        distinct_nodes(changes),
    ensures
        applicable(before, changes),
{
    reveal(applicable);
    assert forall|k: int| 0 <= k < changes.len() implies (#[trigger] changes[k]).node
        < before.len() && applied(before, changes.take(k))[changes[k].node as int]
        == changes[k].old by {
        let earlier = changes.take(k);
        assert forall|j: int| 0 <= j < earlier.len() implies (#[trigger] earlier[j]).node
            != changes[k].node by {
            assert(earlier[j] == changes[j]);
        }
        law_applied_labels(before, earlier);
        assert(applied(before, earlier)[changes[k].node as int] == before[changes[k].node as int]);
    }
}

/// What [`applicable`] says of one change.
pub proof fn lemma_applicable_at(before: Seq<u16>, changes: Seq<DeltaChange>, k: int)
    requires
        applicable(before, changes),
        0 <= k < changes.len(),
    ensures
        changes[k].node < before.len(),
        applied(before, changes.take(k))[changes[k].node as int] == changes[k].old,
        applied(before, changes.take(k)).len() == before.len(),
        applied(before, changes.take(k + 1)) == applied(before, changes.take(k)).update(
            changes[k].node as int,
            changes[k].new,
        ),
{
    reveal(applicable);
    let earlier = changes.take(k);
    assert forall|j: int| 0 <= j < earlier.len() implies (#[trigger] earlier[j]).node
        < before.len() by {
        assert(earlier[j] == changes[j]);
    }
    lemma_applied_len(before, earlier);
    lemma_applied_step(before, changes, k);
}

/// Applicable changes name nodes of the plan, and keep their number.
pub proof fn lemma_applicable_nodes(before: Seq<u16>, changes: Seq<DeltaChange>)
    requires
        applicable(before, changes),
    ensures
        forall|k: int| 0 <= k < changes.len() ==> (#[trigger] changes[k]).node < before.len(),
        applied(before, changes).len() == before.len(),
{
    assert forall|k: int| 0 <= k < changes.len() implies (#[trigger] changes[k]).node
        < before.len() by {
        lemma_applicable_at(before, changes, k);
    }
    lemma_applied_len(before, changes);
}

/// The prefix form of [`applied`].
pub proof fn lemma_applied_step(before: Seq<u16>, changes: Seq<DeltaChange>, k: int)
    requires
        0 <= k < changes.len(),
    ensures
        applied(before, changes.take(k + 1)) == applied(before, changes.take(k)).update(
            changes[k].node as int,
            changes[k].new,
        ),
{
    assert(changes.take(k + 1).drop_last() =~= changes.take(k));
    assert(changes.take(k + 1).last() == changes[k]);
}

/// What a delta does to a plan: the number of nodes stays, a named node gets the new label of its
/// change, and every other node keeps its label.
pub proof fn law_delta_labels(before: Seq<u16>, raw: Seq<(u32, u16, u16)>, node: int)
    requires
        forall|k: int| 0 <= k < raw.len() ==> (#[trigger] raw[k]).0 < before.len(),
        forall|j: int, k: int|
            0 <= j < k < raw.len() ==> (#[trigger] raw[j]).0 != (#[trigger] raw[k]).0,
        0 <= node < before.len(),
        before.len() <= u32::MAX,
    ensures
        applied(before, as_changes(raw)).len() == before.len(),
        forall|k: int|
            0 <= k < raw.len() && (#[trigger] raw[k]).0 == node ==> applied(
                before,
                as_changes(raw),
            )[node] == raw[k].2,
        (forall|k: int| 0 <= k < raw.len() ==> (#[trigger] raw[k]).0 != node) ==> applied(
            before,
            as_changes(raw),
        )[node] == before[node],
{
    let changes = as_changes(raw);
    assert forall|k: int| 0 <= k < changes.len() implies (#[trigger] changes[k]).node
        < before.len() by {
        assert(raw[k].0 < before.len());
    }
    assert forall|j: int, k: int| 0 <= j < k < changes.len() implies (#[trigger] changes[j]).node
        != (#[trigger] changes[k]).node by {
        assert(raw[j].0 != raw[k].0);
    }
    lemma_applied_len(before, changes);
    law_applied_labels(before, changes);
    assert forall|k: int| 0 <= k < raw.len() && (#[trigger] raw[k]).0 == node implies applied(
        before,
        changes,
    )[node] == raw[k].2 by {
        assert(changes[k].node == node);
    }
    if forall|k: int| 0 <= k < raw.len() ==> (#[trigger] raw[k]).0 != node {
        assert forall|k: int| 0 <= k < changes.len() implies (#[trigger] changes[k]).node
            != node by {
            assert(raw[k].0 != node);
        }
    }
}

// ---------------------------------------------------------------------------------------------
// Validation
// ---------------------------------------------------------------------------------------------

/// The message for a change outside the plan.
pub open spec fn outside_text(node: nat, len: nat) -> Seq<char> {
    "TwoDelta delta references node "@ + decimal(node) + " outside assignment length "@ + decimal(
        len,
    )
}

/// The message for a change whose old label is not the node's.
pub open spec fn mismatch_text(node: nat, current: nat, old: nat) -> Seq<char> {
    "TwoDelta delta old label mismatch at node "@ + decimal(node) + ": expected "@ + decimal(
        current,
    ) + ", got "@ + decimal(old)
}

/// Whether raw change `c` names a node of `before` with its label there.
pub open spec fn raw_matches(before: Seq<u16>, c: (u32, u16, u16)) -> bool {
    c.0 < before.len() && before[c.0 as int] == c.1
}

/// Whether `e` reports raw change `c` against `before`.
pub open spec fn change_report(before: Seq<u16>, c: (u32, u16, u16), e: Error) -> bool {
    if c.0 >= before.len() {
        e.is_invalid_data(outside_text(c.0 as nat, before.len()))
    } else {
        before[c.0 as int] != c.1 && e.is_invalid_data(
            mismatch_text(c.0 as nat, before[c.0 as int] as nat, c.1 as nat),
        )
    }
}

/// A raw change with its node as an index.
pub open spec fn as_change(c: (u32, u16, u16)) -> DeltaChange {
    DeltaChange { node: c.0 as usize, old: c.1, new: c.2 }
}

/// Check that every change names a node of the plan and the label that the node has.
pub fn validate_changes(before: &[u16], changes: &[(u32, u16, u16)]) -> (r: Result<
    Vec<DeltaChange>,
    Error,
>)
    ensures
        r is Ok <==> forall|k: int| 0 <= k < changes@.len() ==> raw_matches(
            before@,
            #[trigger] changes@[k],
        ),
        r matches Ok(v) ==> v@ == Seq::new(changes@.len(), |k: int| as_change(changes@[k]))
            && matches_labels(before@, v@),
        r matches Err(e) ==> exists|k: int|
            0 <= k < changes@.len() && change_report(before@, #[trigger] changes@[k], e) && forall|
                j: int,
            |
                0 <= j < k ==> raw_matches(before@, #[trigger] changes@[j]),
{
    let mut validated: Vec<DeltaChange> = Vec::new();
    let mut k: usize = 0;
    while k < changes.len()
        invariant
            k <= changes@.len(),
            validated@.len() == k,
            forall|j: int| 0 <= j < k ==> raw_matches(before@, #[trigger] changes@[j]),
            forall|j: int| 0 <= j < k ==> #[trigger] validated@[j] == as_change(changes@[j]),
        decreases changes.len() - k,
    {
        let (node, old_label, new_label) = changes[k];
        if node as usize >= before.len() {
            let mut message = "TwoDelta delta references node ".to_owned();
            push_decimal(&mut message, node as u64);
            message.append(" outside assignment length ");
            push_decimal(&mut message, before.len() as u64);
            let e = invalid_data(message);
            assert(change_report(before@, changes@[k as int], e));
            assert(!raw_matches(before@, changes@[k as int]));
            return Err(e);
        }
        let current: u16 = before[node as usize];
        if current != old_label {
            let mut message = "TwoDelta delta old label mismatch at node ".to_owned();
            push_decimal(&mut message, node as u64);
            message.append(": expected ");
            push_decimal(&mut message, current as u64);
            message.append(", got ");
            push_decimal(&mut message, old_label as u64);
            let e = invalid_data(message);
            assert(change_report(before@, changes@[k as int], e));
            assert(!raw_matches(before@, changes@[k as int]));
            return Err(e);
        }
        validated.push(DeltaChange { node: node as usize, old: old_label, new: new_label });
        k += 1;
    }
    proof {
        assert(validated@ =~= Seq::new(changes@.len(), |j: int| as_change(changes@[j])));
        assert forall|j: int| 0 <= j < validated@.len() implies (#[trigger] validated@[j]).node
            < before@.len() && before@[validated@[j].node as int] == validated@[j].old by {
            assert(raw_matches(before@, changes@[j]));
        }
    }
    Ok(validated)
}

// ---------------------------------------------------------------------------------------------
// District presence
// ---------------------------------------------------------------------------------------------

/// How many nodes of `assignment` have label `d`.
pub open spec fn occurrences(assignment: Seq<u16>, d: int) -> nat
    decreases assignment.len(),
{
    if assignment.len() == 0 {
        0
    } else {
        occurrences(assignment.drop_last(), d) + if assignment.last() == d {
            1nat
        } else {
            0nat
        }
    }
}

/// A label occurs in a plan exactly when some node has it, and no more often than there are nodes.
pub proof fn lemma_occurrences(assignment: Seq<u16>, d: int)
    ensures
        occurrences(assignment, d) <= assignment.len(),
        occurrences(assignment, d) > 0 <==> exists|i: int|
            0 <= i < assignment.len() && #[trigger] assignment[i] == d,
    decreases assignment.len(),
{
    if assignment.len() > 0 {
        let shorter = assignment.drop_last();
        lemma_occurrences(shorter, d);
        if occurrences(shorter, d) > 0 {
            let i = choose|i: int| 0 <= i < shorter.len() && #[trigger] shorter[i] == d;
            assert(assignment[i] == d);
        }
        if exists|i: int| 0 <= i < assignment.len() && #[trigger] assignment[i] == d {
            let i = choose|i: int| 0 <= i < assignment.len() && #[trigger] assignment[i] == d;
            if i < shorter.len() {
                assert(shorter[i] == d);
            }
        }
    }
}

/// Two labels together occur no more often than there are nodes.
pub proof fn lemma_two_labels(assignment: Seq<u16>, d: int, e: int)
    requires
        d != e,
    ensures
        occurrences(assignment, d) + occurrences(assignment, e) <= assignment.len(),
    decreases assignment.len(),
{
    if assignment.len() > 0 {
        lemma_two_labels(assignment.drop_last(), d, e);
    }
}

/// Relabelling one node moves one occurrence.
pub proof fn lemma_occurrences_update(assignment: Seq<u16>, i: int, x: u16, d: int)
    requires
        0 <= i < assignment.len(),
    ensures
        occurrences(assignment.update(i, x), d) + (if assignment[i] == d {
            1nat
        } else {
            0nat
        }) == occurrences(assignment, d) + (if x == d {
            1nat
        } else {
            0nat
        }),
    decreases assignment.len(),
{
    let changed = assignment.update(i, x);
    if i < assignment.len() - 1 {
        assert(changed.drop_last() =~= assignment.drop_last().update(i, x));
        lemma_occurrences_update(assignment.drop_last(), i, x, d);
    } else {
        assert(changed.drop_last() =~= assignment.drop_last());
    }
}

/// The occurrences of a label are the nodes that have it.
pub proof fn law_occurrences(assignment: Seq<u16>, d: int)
    ensures
        occurrences(assignment, d) == Set::new(
            |i: int| 0 <= i < assignment.len() && assignment[i] == d,
        ).len(),
    decreases assignment.len(),
{
    let holds = |i: int| assignment[i] == d;
    assert(Set::new(|i: int| 0 <= i < assignment.len() && assignment[i] == d) =~= indices(
        assignment.len() as int,
        holds,
    ));
    law_indices(0, holds);
    if assignment.len() > 0 {
        let shorter = assignment.drop_last();
        law_occurrences(shorter, d);
        law_indices(assignment.len() - 1, holds);
        assert(Set::new(|i: int| 0 <= i < shorter.len() && shorter[i] == d) =~= indices(
            assignment.len() - 1,
            holds,
        ));
    }
}

/// Which districts a plan uses, and with how many nodes each.
#[derive(Debug)]
pub struct DistrictPresence {
    pub node_counts: Vec<u32>,
    pub observed: u128,
}

impl DistrictPresence {
    /// Whether this is the district presence of `assignment`.
    pub open spec fn tracks(&self, assignment: Seq<u16>) -> bool {
        &&& self.node_counts@.len() == MAX_DISTRICTS
        &&& forall|d: int|
            0 <= d < MAX_DISTRICTS ==> #[trigger] self.node_counts@[d] == occurrences(
                assignment,
                d,
            )
        &&& forall|d: int|
            0 <= d < MAX_DISTRICTS ==> (#[trigger] has_district(self.observed, d) <==> occurrences(
                assignment,
                d,
            ) > 0)
    }

    /// What the presence of a plan says of a district: how many nodes have its label, and whether
    /// any has.
    pub proof fn law_presence(&self, assignment: Seq<u16>, d: u16)
        requires
            self.tracks(assignment),
            d < 128,
        ensures
            self.node_counts@.len() == 128,
            self.node_counts@[d as int] == Set::new(
                |i: int| 0 <= i < assignment.len() && assignment[i] == d,
            ).len(),
            self.observed & (1u128 << (d as u128)) != 0 <==> assignment.contains(d),
    {
        law_occurrences(assignment, d as int);
        lemma_occurrences(assignment, d as int);
        assert(Set::new(|i: int| 0 <= i < assignment.len() && assignment[i] == d) =~= Set::new(
            |i: int| 0 <= i < assignment.len() && assignment[i] == d as int,
        ));
        assert(self.node_counts@[d as int] == occurrences(assignment, d as int));
        assert(d as int as u128 == d as u128);
        assert(has_district(self.observed, d as int) <==> occurrences(assignment, d as int) > 0);
        if assignment.contains(d) {
            let i = choose|i: int| 0 <= i < assignment.len() && assignment[i] == d;
            assert(assignment[i] == d as int);
        }
        if occurrences(assignment, d as int) > 0 {
            let i = choose|i: int| 0 <= i < assignment.len() && #[trigger] assignment[i] == d as int;
            assert(assignment[i] == d);
        }
    }

    /// The presence of the plan without nodes.
    pub fn new() -> (r: Self)
        ensures
            r.tracks(Seq::empty()),
    {
        proof {
            lemma_empty_mask();
        }
        DistrictPresence { node_counts: vec![0u32; MAX_DISTRICTS as usize], observed: 0 }
    }

    /// Count one more node.
    pub(crate) fn add(&mut self, district: u16, Ghost(assignment): Ghost<Seq<u16>>) -> (r: Result<
        (),
        Error,
    >)
        requires
            old(self).tracks(assignment),
            assignment.len() < u32::MAX,
        ensures
            r is Ok <==> district < MAX_DISTRICTS,
            r is Ok ==> final(self).tracks(assignment.push(district)),
            r matches Err(e) ==> e == (Error::DistrictLimitExceeded {
                id: district,
                limit: MAX_DISTRICTS,
            }) && *final(self) == *old(self),
    {
        match observe_district(&mut self.observed, district) {
            Ok(()) => {},
            Err(e) => {
                return Err(e);
            },
        }
        proof {
            assert(assignment.push(district).drop_last() =~= assignment);
            lemma_occurrences(assignment, district as int);
        }
        let count: u32 = self.node_counts[district as usize];
        self.node_counts.set(district as usize, count + 1);
        Ok(())
    }

    /// Move one node to another district.
    pub(crate) fn relabel(&mut self, old_label: u16, new_label: u16, Ghost(assignment): Ghost<
        Seq<u16>,
    >, Ghost(node): Ghost<int>) -> (r: Result<(), Error>)
        requires
            old(self).tracks(assignment),
            assignment.len() <= u32::MAX,
            0 <= node < assignment.len(),
            assignment[node] == old_label,
        ensures
            r is Ok <==> old_label < MAX_DISTRICTS && new_label < MAX_DISTRICTS,
            r is Ok ==> final(self).tracks(assignment.update(node, new_label)),
            r matches Err(e) ==> e == (Error::DistrictLimitExceeded {
                id: if old_label >= MAX_DISTRICTS {
                    old_label
                } else {
                    new_label
                },
                limit: MAX_DISTRICTS,
            }) && final(self).node_counts == old(self).node_counts,
    {
        match observe_district(&mut self.observed, old_label) {
            Ok(()) => {},
            Err(e) => {
                return Err(e);
            },
        }
        match observe_district(&mut self.observed, new_label) {
            Ok(()) => {},
            Err(e) => {
                return Err(e);
            },
        }
        proof {
            lemma_occurrences(assignment, old_label as int);
            lemma_occurrences(assignment, new_label as int);
            assert(assignment[node] == old_label as int);
            if old_label != new_label {
                lemma_two_labels(assignment, old_label as int, new_label as int);
            }
            assert forall|d: int| #[trigger]
                occurrences(assignment.update(node, new_label), d) + (if assignment[node] == d {
                    1nat
                } else {
                    0nat
                }) == occurrences(assignment, d) + (if new_label == d {
                    1nat
                } else {
                    0nat
                }) by {
                lemma_occurrences_update(assignment, node, new_label, d);
            }
        }
        if old_label == new_label {
            return Ok(());
        }
        let gained: u32 = self.node_counts[new_label as usize];
        self.node_counts.set(new_label as usize, gained + 1);
        let lost: u32 = self.node_counts[old_label as usize];
        self.node_counts.set(old_label as usize, lost - 1);
        if self.node_counts[old_label as usize] == 0 {
            proof {
                lemma_clear_bit(self.observed, old_label);
            }
            self.observed = self.observed & !(1u128 << old_label);
        }
        Ok(())
    }
}

// ---------------------------------------------------------------------------------------------
// Labels after a delta
// ---------------------------------------------------------------------------------------------

/// Sparse lookup for labels after the current delta is applied.
///
/// Each delta has a generation number; only nodes stamped with the current one override the plan
/// before the delta, so nothing is cleared between deltas.
#[derive(Debug)]
pub struct PostDeltaLabels {
    new_label: Vec<u16>,
    stamp: Vec<u64>,
    gen: u64,
}

impl PostDeltaLabels {
    /// How many nodes this has room for.
    pub closed spec fn node_count(&self) -> nat {
        self.stamp@.len()
    }

    /// The number of the delta that is loaded.
    pub closed spec fn generation(&self) -> nat {
        self.gen as nat
    }

    /// Whether the scratch space is in order.
    pub closed spec fn wf(&self) -> bool {
        &&& self.new_label@.len() == self.stamp@.len()
        &&& forall|n: int| 0 <= n < self.stamp@.len() ==> #[trigger] self.stamp@[n] <= self.gen
    }

    /// Whether `changes` are the loaded ones.
    pub closed spec fn holds(&self, changes: Seq<DeltaChange>) -> bool {
        &&& self.wf()
        &&& forall|before: Seq<u16>, n: int|
            before.len() == self.stamp@.len() && 0 <= n < before.len() ==> #[trigger] applied(
                before,
                changes,
            )[n] == if self.stamp@[n] == self.gen {
                self.new_label@[n]
            } else {
                before[n]
            }
    }

    /// Scratch space for `node_count` nodes. No change is loaded, so every node keeps its label.
    pub fn new(node_count: usize) -> (r: Self)
        ensures
            r.holds(Seq::empty()),
            r.wf(),
            r.node_count() == node_count,
            r.generation() == 1,
    {
        PostDeltaLabels {
            new_label: vec![0u16; node_count],
            stamp: vec![0u64; node_count],
            gen: 1,
        }
    }

    /// Load the changes of one delta.
    pub fn refresh(&mut self, changes: &[DeltaChange])
        requires
            old(self).wf(),
            old(self).generation() < u64::MAX,
            forall|k: int|
                0 <= k < changes@.len() ==> (#[trigger] changes@[k]).node < old(self).node_count(),
        ensures
            final(self).holds(changes@),
            final(self).wf(),
            final(self).node_count() == old(self).node_count(),
            final(self).generation() == old(self).generation() + 1,
    {
        self.gen = self.gen + 1;
        let mut k: usize = 0;
        proof {
            assert(changes@.take(0) =~= Seq::empty());
        }
        while k < changes.len()
            invariant
                k <= changes@.len(),
                self.new_label@.len() == self.stamp@.len(),
                self.stamp@.len() == old(self).stamp@.len(),
                self.gen == old(self).gen + 1,
                forall|n: int| 0 <= n < self.stamp@.len() ==> #[trigger] self.stamp@[n] <= self.gen,
                forall|j: int|
                    0 <= j < changes@.len() ==> (#[trigger] changes@[j]).node < self.stamp@.len(),
                forall|before: Seq<u16>, n: int|
                    before.len() == self.stamp@.len() && 0 <= n < before.len()
                        ==> #[trigger] applied(before, changes@.take(k as int))[n]
                        == if self.stamp@[n] == self.gen {
                        self.new_label@[n]
                    } else {
                        before[n]
                    },
            decreases changes.len() - k,
        {
            let change = changes[k];
            let ghost stamp = self.stamp@;
            let ghost labels = self.new_label@;
            assert(changes@[k as int].node < self.stamp@.len());
            self.stamp.set(change.node, self.gen);
            self.new_label.set(change.node, change.new);
            proof {
                assert forall|before: Seq<u16>, n: int|
                    before.len() == self.stamp@.len() && 0 <= n < before.len() implies #[trigger] applied(
                    before,
                    changes@.take(k + 1),
                )[n] == if self.stamp@[n] == self.gen {
                    self.new_label@[n]
                } else {
                    before[n]
                } by {
                    lemma_applied_step(before, changes@, k as int);
                    lemma_applied_len(before, changes@.take(k as int));
                    assert(applied(before, changes@.take(k as int))[n] == if stamp[n] == self.gen {
                        labels[n]
                    } else {
                        before[n]
                    });
                }
            }
            k += 1;
        }
        proof {
            assert(changes@.take(changes@.len() as int) =~= changes@);
        }
    }

    /// The label of `node` after the loaded delta.
    pub fn label(&self, before: &[u16], node: usize) -> (r: u16)
        requires
            self.wf(),
            before@.len() == self.node_count(),
            node < before@.len(),
        ensures
            forall|changes: Seq<DeltaChange>| #[trigger]
                self.holds(changes) ==> r == applied(before@, changes)[node as int],
    {
        if self.stamp[node] == self.gen {
            self.new_label[node]
        } else {
            before[node]
        }
    }
}

// ---------------------------------------------------------------------------------------------
// Runs
// ---------------------------------------------------------------------------------------------

/// Whether every label that the changes assign fits in the bitmask.
pub open spec fn new_labels_fit(changes: Seq<DeltaChange>) -> bool {
    forall|k: int| 0 <= k < changes.len() ==> (#[trigger] changes[k]).new < MAX_DISTRICTS
}

/// Whether `e` reports the first assigned label that does not fit.
pub open spec fn reports_new_label(changes: Seq<DeltaChange>, e: Error) -> bool {
    exists|k: int|
        0 <= k < changes.len() && (#[trigger] changes[k]).new >= MAX_DISTRICTS && (forall|j: int|
            0 <= j < k ==> (#[trigger] changes[j]).new < MAX_DISTRICTS) && e
            == (Error::DistrictLimitExceeded { id: changes[k].new, limit: MAX_DISTRICTS })
}

/// Whether a change does not fit the plan before it, or assigns a label that does not fit.
pub open spec fn change_fails(before: Seq<u16>, c: (u32, u16, u16)) -> bool {
    !raw_matches(before, c) || c.2 >= MAX_DISTRICTS
}

/// Whether `e` reports the first change that fails.
pub open spec fn reports_in_turn(before: Seq<u16>, raw: Seq<(u32, u16, u16)>, e: Error) -> bool {
    exists|k: int|
        0 <= k < raw.len() && change_fails(before, #[trigger] raw[k]) && (forall|j: int|
            0 <= j < k ==> !change_fails(before, #[trigger] raw[j])) && if !raw_matches(
            before,
            raw[k],
        ) {
            change_report(before, raw[k], e)
        } else {
            e == (Error::DistrictLimitExceeded { id: raw[k].2, limit: MAX_DISTRICTS })
        }
}

/// Check changes against the plan before them, each with the label that it assigns.
fn check_in_turn(before: &[u16], changes: &[(u32, u16, u16)]) -> (r: Result<(), Error>)
    ensures
        r is Ok <==> forall|k: int|
            0 <= k < changes@.len() ==> !change_fails(before@, #[trigger] changes@[k]),
        r matches Err(e) ==> reports_in_turn(before@, changes@, e),
{
    let mut k: usize = 0;
    while k < changes.len()
        invariant
            k <= changes@.len(),
            forall|j: int| 0 <= j < k ==> !change_fails(before@, #[trigger] changes@[j]),
        decreases changes.len() - k,
    {
        let one = [changes[k]];
        match validate_changes(before, &one) {
            Ok(_) => {
                assert(raw_matches(before@, one@[0]));
            },
            Err(e) => {
                proof {
                    assert(one@[0] == changes@[k as int]);
                    assert(change_fails(before@, changes@[k as int]));
                }
                return Err(e);
            },
        }
        if changes[k].2 >= MAX_DISTRICTS {
            assert(change_fails(before@, changes@[k as int]));
            return Err(
                Error::DistrictLimitExceeded { id: changes[k].2, limit: MAX_DISTRICTS },
            );
        }
        k += 1;
    }
    Ok(())
}

proof fn lemma_in_turn(before: Seq<u16>, raw: Seq<(u32, u16, u16)>, e: Error)
    requires
        reports_in_turn(before, raw, e),
    ensures
        !(forall|k: int| 0 <= k < raw.len() ==> raw_matches(before, #[trigger] raw[k]))
            || !new_labels_fit(as_changes(raw)),
{
    let k = choose|k: int| 0 <= k < raw.len() && change_fails(before, #[trigger] raw[k]);
    assert(as_changes(raw)[k].new == raw[k].2);
}

/// A metric that follows a chain of plans.
pub trait IncrementalTwoDeltaMetric: Sized {
    /// How many nodes a plan has.
    spec fn node_count(&self) -> nat;

    /// Whether the metric's own tables are in order.
    spec fn wf(&self) -> bool;

    /// How many patches the metric has room for.
    spec fn patches_left(&self) -> nat;

    /// Whether the metric is that of plan `assignment`.
    spec fn tracks(&self, assignment: Seq<u16>) -> bool;

    /// Whether `self` is `before` seeded from `assignment`.
    spec fn seeded(&self, before: Self, assignment: Seq<u16>) -> bool;

    /// Whether `self` is `before` patched with `changes` to plan `assignment`.
    spec fn patched(&self, before: Self, assignment: Seq<u16>, changes: Seq<DeltaChange>) -> bool;

    /// The district labels of the current plan.
    spec fn labels(&self) -> u128;

    /// Start over from a full plan.
    fn seed(&mut self, assignment: &[u16]) -> (r: Result<(), Error>)
        requires
            old(self).wf(),
            assignment@.len() == old(self).node_count(),
        ensures
            final(self).wf(),
            final(self).node_count() == old(self).node_count(),
            final(self).patches_left() >= old(self).patches_left(),
            r is Ok <==> within_limit(assignment@),
            r matches Err(e) ==> reports_first_excess(e, assignment@),
            r is Ok ==> final(self).tracks(assignment@) && final(self).seeded(
                *old(self),
                assignment@,
            ),
    ;

    /// Follow one delta. `before` is the plan before it.
    fn update_delta(&mut self, before: &[u16], changes: &[DeltaChange]) -> (r: Result<(), Error>)
        requires
            old(self).wf(),
            old(self).patches_left() > 0,
            old(self).tracks(before@),
            before@.len() == old(self).node_count(),
            within_limit(before@),
            applicable(before@, changes@),
        ensures
            final(self).wf(),
            final(self).node_count() == old(self).node_count(),
            final(self).patches_left() + 1 >= old(self).patches_left(),
            r is Ok <==> new_labels_fit(changes@),
            r matches Err(e) ==> reports_new_label(changes@, e),
            r is Ok ==> final(self).tracks(applied(before@, changes@)) && final(self).patched(
                *old(self),
                before@,
                changes@,
            ),
    ;

    /// The district labels of the current plan.
    fn observed(&self) -> (r: u128)
        ensures
            r == self.labels(),
    ;
}

/// The state of a run over a chain of plans.
#[derive(Debug)]
pub struct TwoDeltaRun {
    /// How many nodes a plan must have, and what fixes that number.
    pub expected_len: usize,
    pub expected_len_label: &'static str,
    /// What the run writes, for messages.
    pub output_name: String,
    /// Whether the label that a change assigns is checked before later changes are looked at.
    pub labels_in_turn: bool,
    /// How many samples are to go; `None` for all.
    pub remaining_samples: Option<usize>,
    /// The current plan.
    pub assignment: Option<Vec<u16>>,
    /// The district labels of the first plan.
    pub expected_observed: Option<u128>,
    /// The number of the next sample.
    pub step: u64,
    /// The number of the next accepted plan.
    pub accepted: u64,
}

/// The changes of a raw delta, with their nodes as indices.
pub open spec fn as_changes(raw: Seq<(u32, u16, u16)>) -> Seq<DeltaChange> {
    Seq::new(raw.len(), |k: int| as_change(raw[k]))
}

/// Whether no raw change names a node twice.
pub open spec fn names_once(raw: Seq<(u32, u16, u16)>) -> bool {
    forall|i: int, j: int| 0 <= i < j < raw.len() ==> (#[trigger] raw[i]).0 != (#[trigger] raw[j]).0
}

impl TwoDeltaEvent {
    /// A delta names each node at most once.
    pub open spec fn wf(&self) -> bool {
        self matches TwoDeltaEvent::Delta { changes, .. } ==> names_once(changes@)
    }

    /// How many samples the event stands for.
    pub open spec fn reps(&self) -> u16 {
        match self {
            TwoDeltaEvent::Snapshot { count, .. } => *count,
            TwoDeltaEvent::Delta { count, .. } => *count,
        }
    }

    /// Whether the event names each node at most once.
    pub fn names_each_node_once(&self) -> (r: bool)
        ensures
            r == self.wf(),
    {
        match self {
            TwoDeltaEvent::Snapshot { .. } => true,
            TwoDeltaEvent::Delta { changes, count: _ } => {
                broadcast use vstd::std_specs::hash::group_hash_axioms;

                let mut seen: HashSet<u32> = HashSet::new();
                let mut i: usize = 0;
                while i < changes.len()
                    invariant
                        i <= changes@.len(),
                        *self is Delta,
                        self->changes == *changes,
                        forall|a: int, b: int|
                            0 <= a < b < i ==> (#[trigger] changes@[a]).0 != (
                            #[trigger] changes@[b]).0,
                        forall|n: u32| #[trigger]
                            seen@.contains(n) <==> exists|a: int|
                                0 <= a < i && (#[trigger] changes@[a]).0 == n,
                    decreases changes.len() - i,
                {
                    let node: u32 = changes[i].0;
                    let ghost before = seen@;
                    if !seen.insert(node) {
                        proof {
                            assert(before.contains(node));
                            let a = choose|a: int|
                                0 <= a < i && (#[trigger] changes@[a]).0 == node;
                            assert(changes@[a].0 == changes@[i as int].0);
                        }
                        return false;
                    }
                    proof {
                        assert(!before.contains(node));
                        assert forall|n: u32| #[trigger] seen@.contains(n) <==> exists|a: int|
                            0 <= a < i + 1 && (#[trigger] changes@[a]).0 == n by {
                            if before.contains(n) {
                                let a = choose|a: int|
                                    0 <= a < i && (#[trigger] changes@[a]).0 == n;
                                assert(changes@[a].0 == n);
                            }
                            if n == node {
                                assert(changes@[i as int].0 == n);
                            }
                        }
                    }
                    i += 1;
                }
                true
            },
        }
    }
}

/// The message for a delta that no full plan precedes.
pub open spec fn no_snapshot_text() -> Seq<char> {
    "TwoDelta delta event appeared before an initial snapshot"@
}

impl TwoDeltaRun {
    /// A run that has seen no event.
    pub fn new(
        expected_len: usize,
        expected_len_label: &'static str,
        output_name: String,
        max_samples: Option<usize>,
    ) -> (r: Self)
        ensures
            r.expected_len == expected_len,
            r.expected_len_label == expected_len_label,
            r.output_name == output_name,
            !r.labels_in_turn,
            r.remaining_samples == max_samples,
            r.assignment is None,
            r.expected_observed is None,
            r.step == 1,
            r.accepted == 1,
    {
        TwoDeltaRun {
            expected_len,
            expected_len_label,
            output_name,
            labels_in_turn: false,
            remaining_samples: max_samples,
            assignment: None,
            expected_observed: None,
            step: 1,
            accepted: 1,
        }
    }

    /// The run, checking changes and their labels in turn if asked to.
    pub fn checking_in_turn(self, labels_in_turn: bool) -> (r: Self)
        ensures
            r == (TwoDeltaRun { labels_in_turn, ..self }),
    {
        TwoDeltaRun { labels_in_turn, ..self }
    }

    /// Whether run and metric agree on the current plan.
    pub open spec fn follows<M: IncrementalTwoDeltaMetric>(&self, metric: M) -> bool {
        &&& metric.wf()
        &&& metric.node_count() == self.expected_len
        &&& self.assignment matches Some(a) ==> a@.len() == self.expected_len && within_limit(a@)
            && metric.tracks(a@)
    }

    /// Whether an event can be followed.
    pub open spec fn accepts(&self, event: TwoDeltaEvent) -> bool {
        match event {
            TwoDeltaEvent::Snapshot { assignment, .. } => assignment@.len() == self.expected_len
                && within_limit(assignment@),
            TwoDeltaEvent::Delta { changes, .. } => self.assignment matches Some(a) && (forall|
                k: int,
            |
                0 <= k < changes@.len() ==> raw_matches(a@, #[trigger] changes@[k]))
                && new_labels_fit(as_changes(changes@)),
        }
    }

    /// Whether `e` is why an event cannot be followed.
    pub open spec fn rejects(&self, event: TwoDeltaEvent, e: Error) -> bool {
        match event {
            TwoDeltaEvent::Snapshot { assignment, .. } => if assignment@.len()
                != self.expected_len {
                e matches Error::AssignmentLength {
                    actual,
                    actual_label,
                    expected,
                    expected_label,
                } && actual == assignment@.len() && actual_label@ == "BEN assignment length"@
                    && expected == self.expected_len && expected_label == self.expected_len_label
            } else {
                reports_first_excess(e, assignment@)
            },
            TwoDeltaEvent::Delta { changes, .. } => match self.assignment {
                None => e.is_invalid_data(no_snapshot_text()),
                Some(a) => if self.labels_in_turn {
                    reports_in_turn(a@, changes@, e)
                } else if exists|k: int|
                    0 <= k < changes@.len() && !raw_matches(a@, #[trigger] changes@[k]) {
                    exists|k: int|
                        0 <= k < changes@.len() && change_report(a@, #[trigger] changes@[k], e)
                            && forall|j: int|
                            0 <= j < k ==> raw_matches(a@, #[trigger] changes@[j])
                } else {
                    reports_new_label(as_changes(changes@), e)
                },
            },
        }
    }

    /// The plan after an event that can be followed.
    pub open spec fn next_plan(&self, event: TwoDeltaEvent) -> Seq<u16> {
        match event {
            TwoDeltaEvent::Snapshot { assignment, .. } => assignment@,
            TwoDeltaEvent::Delta { changes, .. } => applied(
                self.assignment->0@,
                as_changes(changes@),
            ),
        }
    }

    /// Whether the run takes another event.
    pub fn wants_event(&self) -> (r: bool)
        ensures
            r == (self.remaining_samples != Some(0usize)),
    {
        match self.remaining_samples {
            Some(left) => left != 0,
            None => true,
        }
    }

    /// Follow one event with the metric. Returns how many samples of the event count.
    pub fn apply<M: IncrementalTwoDeltaMetric>(
        &mut self,
        metric: &mut M,
        event: TwoDeltaEvent,
    ) -> (r: Result<u16, Error>)
        requires
            old(self).follows(*old(metric)),
            old(metric).patches_left() > 0,
            event.wf(),
        ensures
            final(metric).patches_left() + 1 >= old(metric).patches_left(),
            r is Ok <==> old(self).accepts(event),
            r matches Err(e) ==> old(self).rejects(event, e) && *final(self) == *old(self),
            r matches Ok(n_reps) ==> {
                &&& n_reps == kept_reps(old(self).remaining_samples, event.reps())
                &&& final(self).remaining_samples == left_samples(
                    old(self).remaining_samples,
                    event.reps(),
                )
                &&& final(self).follows(*final(metric))
                &&& final(self).assignment matches Some(a) && a@ == old(self).next_plan(event)
                &&& match event {
                    TwoDeltaEvent::Snapshot { assignment, .. } => final(metric).seeded(
                        *old(metric),
                        assignment@,
                    ),
                    TwoDeltaEvent::Delta { changes, .. } => final(metric).patched(
                        *old(metric),
                        old(self).assignment->0@,
                        as_changes(changes@),
                    ),
                }
                &&& final(self).expected_observed == old(self).expected_observed
                &&& final(self).step == old(self).step
                &&& final(self).accepted == old(self).accepted
                &&& final(self).expected_len == old(self).expected_len
                &&& final(self).output_name == old(self).output_name
                &&& final(self).expected_len_label == old(self).expected_len_label
                &&& final(self).labels_in_turn == old(self).labels_in_turn
            },
    {
        match event {
            TwoDeltaEvent::Snapshot { assignment, count } => {
                if assignment.len() != self.expected_len {
                    return Err(
                        Error::AssignmentLength {
                            actual: assignment.len(),
                            actual_label: "BEN assignment length",
                            expected: self.expected_len,
                            expected_label: self.expected_len_label,
                        },
                    );
                }
                match metric.seed(&assignment) {
                    Ok(()) => {},
                    Err(e) => {
                        return Err(e);
                    },
                }
                self.assignment = Some(assignment);
                Ok(capped_reps(&mut self.remaining_samples, count))
            },
            TwoDeltaEvent::Delta { changes, count } => {
                let mut plan = match self.assignment.take() {
                    Some(plan) => plan,
                    None => {
                        return Err(
                            invalid_data(
                                "TwoDelta delta event appeared before an initial snapshot".to_owned(),
                            ),
                        );
                    },
                };
                if self.labels_in_turn {
                    match check_in_turn(&plan, &changes) {
                        Ok(()) => {},
                        Err(e) => {
                            proof {
                                lemma_in_turn(plan@, changes@, e);
                            }
                            self.assignment = Some(plan);
                            return Err(e);
                        },
                    }
                }
                let validated = match validate_changes(&plan, &changes) {
                    Ok(validated) => validated,
                    Err(e) => {
                        proof {
                            let k = choose|k: int|
                                0 <= k < changes@.len() && change_report(
                                    plan@,
                                    #[trigger] changes@[k],
                                    e,
                                ) && forall|j: int|
                                    0 <= j < k ==> raw_matches(plan@, #[trigger] changes@[j]);
                            assert(!raw_matches(plan@, changes@[k]));
                            assert(change_fails(plan@, changes@[k]));
                        }
                        self.assignment = Some(plan);
                        return Err(e);
                    },
                };
                let ghost before = plan@;
                proof {
                    assert(validated@ =~= as_changes(changes@));
                    assert(distinct_nodes(validated@)) by {
                        assert forall|i: int, j: int| 0 <= i < j < validated@.len() implies (
                        #[trigger] validated@[i]).node != (#[trigger] validated@[j]).node by {
                            assert(changes@[i].0 != changes@[j].0);
                        }
                    }
                    law_distinct_changes_apply(before, validated@);
                }
                match metric.update_delta(&plan, &validated) {
                    Ok(()) => {},
                    Err(e) => {
                        proof {
                            let k = choose|k: int|
                                0 <= k < validated@.len() && (#[trigger] validated@[k]).new
                                    >= MAX_DISTRICTS;
                            assert(change_fails(before, changes@[k]));
                        }
                        self.assignment = Some(plan);
                        return Err(e);
                    },
                }
                let mut k: usize = 0;
                proof {
                    assert(validated@.take(0) =~= Seq::empty());
                }
                while k < validated.len()
                    invariant
                        k <= validated@.len(),
                        plan@ == applied(before, validated@.take(k as int)),
                        plan@.len() == before.len(),
                        within_limit(plan@),
                        new_labels_fit(validated@),
                        forall|j: int|
                            0 <= j < validated@.len() ==> (#[trigger] validated@[j]).node
                                < before.len(),
                    decreases validated.len() - k,
                {
                    let change = validated[k];
                    assert(validated@[k as int].node < before.len());
                    assert(validated@[k as int].new < MAX_DISTRICTS);
                    plan.set(change.node, change.new);
                    proof {
                        lemma_applied_step(before, validated@, k as int);
                    }
                    k += 1;
                }
                proof {
                    assert(validated@.take(validated@.len() as int) =~= validated@);
                }
                self.assignment = Some(plan);
                Ok(capped_reps(&mut self.remaining_samples, count))
            },
        }
    }

    /// Check the plan's district labels against the first plan's, and number its row.
    pub fn emit(&mut self, observed: u128, n_reps: u16) -> (r: Result<TwoDeltaRow, Error>)
        requires
            old(self).step + n_reps <= u64::MAX,
            old(self).accepted < u64::MAX,
        ensures
            r is Ok <==> (old(self).expected_observed matches Some(expected) ==> expected
                == observed),
            r matches Err(e) ==> e matches Error::DistrictSetChanged(message) && message@
                == district_set_changed_text(
                observed,
                old(self).expected_observed->0,
                old(self).output_name@,
            ) && *final(self) == *old(self),
            r matches Ok(row) ==> {
                &&& row == (TwoDeltaRow {
                    step: old(self).step,
                    n_reps: n_reps as u32,
                    accepted: old(self).accepted,
                })
                &&& *final(self) == (TwoDeltaRun {
                    expected_observed: Some(observed),
                    step: (old(self).step + n_reps) as u64,
                    accepted: (old(self).accepted + 1) as u64,
                    ..*old(self)
                })
            },
    {
        match self.expected_observed {
            None => {
                self.expected_observed = Some(observed);
            },
            Some(expected) => {
                match validate_district_set_unchanged(observed, expected, &self.output_name) {
                    Ok(()) => {},
                    Err(e) => {
                        return Err(e);
                    },
                }
            },
        }
        let row = TwoDeltaRow { step: self.step, n_reps: n_reps as u32, accepted: self.accepted };
        self.step = self.step + n_reps as u64;
        self.accepted = self.accepted + 1;
        Ok(row)
    }
}

/// What an event that can be followed makes of the current plan: a full plan replaces it, and a delta
/// gives each node that it names the new label and leaves the others.
pub proof fn law_next_plan(run: TwoDeltaRun, event: TwoDeltaEvent, node: int)
    requires
        run.accepts(event),
        event.wf(),
        event is Delta ==> run.assignment->0@.len() <= u32::MAX && 0 <= node
            < run.assignment->0@.len(),
    ensures
        event matches TwoDeltaEvent::Snapshot { assignment, .. } ==> run.next_plan(event)
            == assignment@ && assignment@.len() == run.expected_len && forall|i: int|
            0 <= i < assignment@.len() ==> #[trigger] assignment@[i] < 128,
        event matches TwoDeltaEvent::Delta { changes, .. } ==> {
            &&& run.assignment is Some
            &&& run.next_plan(event).len() == run.assignment->0@.len()
            &&& forall|k: int|
                0 <= k < changes@.len() ==> (#[trigger] changes@[k]).0 < run.assignment->0@.len()
                    && run.assignment->0@[changes@[k].0 as int] == changes@[k].1 && changes@[k].2
                    < 128
            &&& forall|k: int|
                0 <= k < changes@.len() && (#[trigger] changes@[k]).0 == node ==> run.next_plan(
                    event,
                )[node] == changes@[k].2
            &&& (forall|k: int| 0 <= k < changes@.len() ==> (#[trigger] changes@[k]).0 != node)
                ==> run.next_plan(event)[node] == run.assignment->0@[node]
        },
{
    if let TwoDeltaEvent::Delta { changes, .. } = event {
        let before = run.assignment->0@;
        assert forall|k: int| 0 <= k < changes@.len() implies (#[trigger] changes@[k]).0
            < before.len() && before[changes@[k].0 as int] == changes@[k].1 && changes@[k].2
            < 128 by {
            assert(raw_matches(before, changes@[k]));
            assert(as_changes(changes@)[k].new == changes@[k].2);
        }
        law_delta_labels(before, changes@, node);
    }
}

} // verus!
