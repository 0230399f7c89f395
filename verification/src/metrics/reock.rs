//! District membership for Reock scores.
//!
//! A Reock score needs the points and the area of a district's units. Which units a district has,
//! kept up to date along a chain of plans, and which districts need a new score, is decided here;
//! the geometry belongs to the caller.
use crate::district::{
    has_district, law_mask_is_its_set, lemma_clear_bit, lemma_empty_mask, observe_district,
    observes, reports_first_excess, within_limit, MAX_DISTRICTS,
};
use crate::error::{invalid_data, Error};
use crate::metrics::counts::{law_listed, listed, sum_below};
use crate::metrics::ledger::{
    balance, district_sum, law_district_sum, lemma_balance_push, lemma_district_sum_applied, moved,
    Posting,
};
use crate::metrics::twodelta::{
    applicable, applied, law_applied_labels, lemma_applicable_at, DeltaChange,
    IncrementalTwoDeltaMetric,
};
use crate::text::{decimal, push_decimal};
use vstd::prelude::*;

verus! {

/// The units of every district.
///
/// `node_position[n]` is where node `n` stands in its district's list.
#[derive(Debug)]
pub struct ReockState {
    pub observed: u128,
    pub node_counts: Vec<u32>,
    pub nodes_by_district: Vec<Vec<usize>>,
    pub node_position: Vec<usize>,
}

/// `list` with the entry at `pos` taken out and the last entry put in its place.
pub open spec fn swap_removed(list: Seq<usize>, pos: int) -> Seq<usize> {
    list.update(pos, list.last()).drop_last()
}

/// The message for a position beyond a district's list.
pub open spec fn position_outside_text(node: nat, district: nat) -> Seq<char> {
    "node position for node "@ + decimal(node) + " points outside district "@ + decimal(district)
        + "'s node list"@
}

/// The message for a position that holds another node.
pub open spec fn position_taken_text(node: nat, removed: nat, district: nat) -> Seq<char> {
    "node position for node "@ + decimal(node) + " points at node "@ + decimal(removed)
        + " in district "@ + decimal(district)
}

/// Take a node out of a district's list.
pub fn remove_node(
    node_position: &mut Vec<usize>,
    nodes_by_district: &mut Vec<Vec<usize>>,
    district: usize,
    node: usize,
) -> (r: Result<(), Error>)
    requires
        node < old(node_position)@.len(),
        district < old(nodes_by_district)@.len(),
        forall|p: int|
            0 <= p < old(nodes_by_district)@[district as int]@.len() ==> (#[trigger] old(
                nodes_by_district
            )@[district as int]@[p]) < old(node_position)@.len(),
    ensures
        ({
            let list = old(nodes_by_district)@[district as int]@;
            let pos = old(node_position)@[node as int] as int;
            let unchanged = *final(node_position) == *old(node_position) && *final(
                nodes_by_district
            ) == *old(nodes_by_district);
            if pos >= list.len() {
                unchanged && (r matches Err(e) && e.is_invalid_data(
                    position_outside_text(node as nat, district as nat),
                ))
            } else if list[pos] != node {
                unchanged && (r matches Err(e) && e.is_invalid_data(
                    position_taken_text(node as nat, list[pos] as nat, district as nat),
                ))
            } else {
                &&& r is Ok
                &&& final(nodes_by_district)@.len() == old(nodes_by_district)@.len()
                &&& final(nodes_by_district)@[district as int]@ == swap_removed(list, pos)
                &&& forall|d: int|
                    0 <= d < final(nodes_by_district)@.len() && d != district ==> #[trigger] final(
                        nodes_by_district
                    )@[d] == old(nodes_by_district)@[d]
                &&& final(node_position)@ == if pos < list.len() - 1 {
                    old(node_position)@.update(list.last() as int, pos as usize)
                } else {
                    old(node_position)@
                }
            }
        }),
{
    let pos: usize = node_position[node];
    let len: usize = nodes_by_district[district].len();
    if pos >= len {
        let mut message = "node position for node ".to_owned();
        push_decimal(&mut message, node as u64);
        message.append(" points outside district ");
        push_decimal(&mut message, district as u64);
        message.append("'s node list");
        return Err(invalid_data(message));
    }
    let removed: usize = nodes_by_district[district][pos];
    if removed != node {
        let mut message = "node position for node ".to_owned();
        push_decimal(&mut message, node as u64);
        message.append(" points at node ");
        push_decimal(&mut message, removed as u64);
        message.append(" in district ");
        push_decimal(&mut message, district as u64);
        return Err(invalid_data(message));
    }
    let ghost list = nodes_by_district@[district as int]@;
    let _ = nodes_by_district[district].swap_remove(pos);
    proof {
        assert(nodes_by_district@[district as int]@ =~= swap_removed(list, pos as int));
    }
    if pos < len - 1 {
        let displaced: usize = nodes_by_district[district][pos];
        proof {
            assert(displaced == list.last());
            assert(list[list.len() - 1] < node_position@.len());
        }
        node_position.set(displaced, pos);
    }
    Ok(())
}

/// Put a node at the end of a district's list.
pub fn add_node(
    node_position: &mut Vec<usize>,
    nodes_by_district: &mut Vec<Vec<usize>>,
    district: usize,
    node: usize,
)
    requires
        node < old(node_position)@.len(),
        district < old(nodes_by_district)@.len(),
    ensures
        final(nodes_by_district)@.len() == old(nodes_by_district)@.len(),
        final(nodes_by_district)@[district as int]@ == old(
            nodes_by_district
        )@[district as int]@.push(node),
        forall|d: int|
            0 <= d < final(nodes_by_district)@.len() && d != district ==> #[trigger] final(
                nodes_by_district
            )@[d] == old(nodes_by_district)@[d],
        final(node_position)@ == old(node_position)@.update(
            node as int,
            old(nodes_by_district)@[district as int]@.len() as usize,
        ),
{
    let end: usize = nodes_by_district[district].len();
    node_position.set(node, end);
    nodes_by_district[district].push(node);
}

impl ReockState {
    /// Whether the tables have their size.
    pub open spec fn shaped(&self, unit_count: nat) -> bool {
        &&& self.node_counts@.len() == MAX_DISTRICTS
        &&& self.nodes_by_district@.len() == MAX_DISTRICTS
        &&& self.node_position@.len() == unit_count
    }

    /// Whether the lists hold the nodes of a plan of which the first `n` nodes are placed: every
    /// placed node stands at its position in its district's list, and nothing else is listed.
    pub open spec fn places(&self, assignment: Seq<u16>, n: int) -> bool {
        &&& self.shaped(assignment.len())
        &&& forall|node: int| 0 <= node < n ==> #[trigger] assignment[node] < MAX_DISTRICTS
        &&& forall|node: int|
            0 <= node < n ==> (#[trigger] self.node_position@[node]) < self.nodes_by_district@[assignment[node] as int]@.len()
                && self.nodes_by_district@[assignment[node] as int]@[self.node_position@[node] as int]
                == node
        &&& forall|d: int, p: int|
            0 <= d < MAX_DISTRICTS && 0 <= p < self.nodes_by_district@[d]@.len() ==> (
            #[trigger] self.nodes_by_district@[d]@[p]) < n
                && assignment[self.nodes_by_district@[d]@[p] as int] == d
                && self.node_position@[self.nodes_by_district@[d]@[p] as int] == p
        &&& forall|d: int|
            0 <= d < MAX_DISTRICTS ==> #[trigger] self.node_counts@[d]
                == self.nodes_by_district@[d]@.len() && self.node_counts@[d] <= n
    }

    /// A plan without placed nodes.
    pub fn new(unit_count: usize) -> (r: Self)
        ensures
            forall|assignment: Seq<u16>|
                assignment.len() == unit_count ==> #[trigger] r.places(assignment, 0),
            r.shaped(unit_count as nat),
            r.observed == 0,
            forall|d: int|
                0 <= d < MAX_DISTRICTS ==> (#[trigger] r.nodes_by_district@[d])@ == Seq::<
                    usize,
                >::empty(),
    {
        let mut nodes_by_district: Vec<Vec<usize>> = Vec::new();
        let mut d: u16 = 0;
        while d < MAX_DISTRICTS
            invariant
                d <= MAX_DISTRICTS,
                nodes_by_district@.len() == d,
                forall|k: int|
                    0 <= k < d ==> (#[trigger] nodes_by_district@[k])@ == Seq::<usize>::empty(),
            decreases MAX_DISTRICTS - d,
        {
            nodes_by_district.push(Vec::new());
            d += 1;
        }
        ReockState {
            observed: 0,
            node_counts: vec![0u32; MAX_DISTRICTS as usize],
            nodes_by_district,
            node_position: vec![0usize; unit_count],
        }
    }

    /// Move a placed node to another district, whose label is observed already. The label of a
    /// district that is left without nodes goes.
    fn relocate(&mut self, node: usize, old_label: u16, new_label: u16, Ghost(assignment): Ghost<
        Seq<u16>,
    >)
        requires
            old(self).places(assignment, assignment.len() as int),
            assignment.len() <= u32::MAX,
            node < assignment.len(),
            assignment[node as int] == old_label,
            old_label != new_label,
            new_label < MAX_DISTRICTS,
            forall|d: int| #[trigger]
                has_district(old(self).observed, d) <==> d == new_label || exists|i: int|
                    0 <= i < assignment.len() && #[trigger] assignment[i] == d,
        ensures
            final(self).places(
                assignment.update(node as int, new_label),
                assignment.len() as int,
            ),
            observes(final(self).observed, assignment.update(node as int, new_label)),
    {
        let ghost before = *self;
        let ghost from = old_label as int;
        let ghost to = new_label as int;
        let ghost list = self.nodes_by_district@[from]@;
        let ghost pos = self.node_position@[node as int] as int;
        let ghost next = assignment.update(node as int, new_label);
        proof {
            assert(self.node_position@[node as int] < list.len());
            assert forall|p: int| 0 <= p < list.len() implies #[trigger] list[p]
                < self.node_position@.len() by {
                assert(self.nodes_by_district@[from]@[p] < assignment.len());
            }
        }
        let taken = remove_node(
            &mut self.node_position,
            &mut self.nodes_by_district,
            old_label as usize,
            node,
        );
        assert(taken is Ok);
        let lost: u32 = self.node_counts[old_label as usize];
        proof {
            assert(before.node_counts@[from] == list.len());
        }
        self.node_counts.set(old_label as usize, lost - 1);
        add_node(
            &mut self.node_position,
            &mut self.nodes_by_district,
            new_label as usize,
            node,
        );
        let gained: u32 = self.node_counts[new_label as usize];
        proof {
            lemma_two_lists(before, assignment, from, to);
            assert(before.node_counts@[to] == before.nodes_by_district@[to]@.len());
        }
        self.node_counts.set(new_label as usize, gained + 1);
        if lost == 1 {
            proof {
                lemma_clear_bit(self.observed, old_label);
            }
            self.observed = self.observed & !(1u128 << old_label);
        }
        proof {
            let shorter = swap_removed(list, pos);
            let longer = before.nodes_by_district@[to]@.push(node);
            assert(self.nodes_by_district@[from]@ == shorter);
            assert(self.nodes_by_district@[to]@ == longer);
            assert forall|d: int, p: int|
                0 <= d < MAX_DISTRICTS && 0 <= p < self.nodes_by_district@[d]@.len() implies (
            #[trigger] self.nodes_by_district@[d]@[p]) < assignment.len()
                && next[self.nodes_by_district@[d]@[p] as int] == d
                && self.node_position@[self.nodes_by_district@[d]@[p] as int] == p by {
                if d == from {
                    let source = if p == pos {
                        list.len() - 1
                    } else {
                        p
                    };
                    assert(shorter[p] == list[source]);
                    assert(before.nodes_by_district@[d]@[source] < assignment.len());
                    assert(list[source] != node) by {
                        assert(before.node_position@[list[source] as int] == source);
                    }
                } else if d == to && p == longer.len() - 1 {
                } else {
                    let n = before.nodes_by_district@[d]@[p];
                    assert(self.nodes_by_district@[d]@[p] == n);
                    assert(assignment[n as int] == d);
                    assert(n != list.last()) by {
                        assert(before.nodes_by_district@[from]@[list.len() - 1] < assignment.len());
                    }
                }
            }
            assert forall|n: int| 0 <= n < assignment.len() implies #[trigger] next[n]
                < MAX_DISTRICTS by {
                assert(assignment[n] < MAX_DISTRICTS);
            }
            assert forall|n: int| 0 <= n < assignment.len() implies (
            #[trigger] self.node_position@[n]) < self.nodes_by_district@[next[n] as int]@.len()
                && self.nodes_by_district@[next[n] as int]@[self.node_position@[n] as int] == n by {
                assert(assignment[n] < MAX_DISTRICTS);
                assert(before.node_position@[n] < before.nodes_by_district@[assignment[n] as int]@.len());
                let p = before.node_position@[n] as int;
                if n == node {
                    assert(longer[longer.len() - 1] == node);
                } else if assignment[n] == from {
                    assert(list[p] == n);
                    assert(p != pos);
                    if p == list.len() - 1 {
                        assert(shorter[pos] == n);
                    } else {
                        assert(shorter[p] == n);
                        assert(n != list.last()) by {
                            assert(before.node_position@[list[list.len() - 1] as int]
                                == list.len() - 1);
                        }
                    }
                } else {
                    let d = assignment[n] as int;
                    assert(n != list.last()) by {
                        assert(assignment[before.nodes_by_district@[from]@[list.len() - 1] as int]
                            == from);
                    }
                    if d == to {
                        assert(longer[p] == n);
                    }
                }
            }
            assert forall|d: int| 0 <= d < MAX_DISTRICTS implies #[trigger] self.node_counts@[d]
                == self.nodes_by_district@[d]@.len() && self.node_counts@[d]
                <= assignment.len() by {
                assert(before.node_counts@[d] == before.nodes_by_district@[d]@.len());
            }
            assert forall|d: int| #[trigger] has_district(self.observed, d) <==> exists|i: int|
                0 <= i < next.len() && #[trigger] next[i] == d by {
                assert(has_district(self.observed, d) <==> has_district(before.observed, d) && !(
                lost == 1 && d == from));
                if has_district(self.observed, d) {
                    if d == to {
                        assert(next[node as int] == d);
                    } else if d == from {
                        let n = self.nodes_by_district@[d]@[0] as int;
                        assert(next[n] == d);
                    } else {
                        let i = choose|i: int|
                            0 <= i < assignment.len() && #[trigger] assignment[i] == d;
                        assert(next[i] == d);
                    }
                }
                if exists|i: int| 0 <= i < next.len() && #[trigger] next[i] == d {
                    let i = choose|i: int| 0 <= i < next.len() && #[trigger] next[i] == d;
                    if i != node {
                        assert(assignment[i] == d);
                    }
                    assert(self.node_position@[i] < self.nodes_by_district@[d]@.len());
                }
            }
        }
    }
}

/// Two lists together hold no more nodes than there are.
proof fn lemma_two_lists(state: ReockState, assignment: Seq<u16>, d: int, e: int)
    requires
        state.places(assignment, assignment.len() as int),
        0 <= d < MAX_DISTRICTS,
        0 <= e < MAX_DISTRICTS,
        d != e,
    ensures
        state.nodes_by_district@[d]@.len() + state.nodes_by_district@[e]@.len()
            <= assignment.len(),
{
    let both = state.nodes_by_district@[d]@ + state.nodes_by_district@[e]@;
    let n = state.nodes_by_district@[d]@.len();
    assert forall|i: int| 0 <= i < both.len() implies 0 <= #[trigger] both[i]
        < assignment.len() by {
        if i < n {
            assert(both[i] == state.nodes_by_district@[d]@[i]);
        } else {
            assert(both[i] == state.nodes_by_district@[e]@[i - n]);
        }
    }
    assert(both.no_duplicates()) by {
        assert forall|i: int, j: int|
            0 <= i < both.len() && 0 <= j < both.len() && i != j implies both[i] != both[j] by {
            let di = if i < n { d } else { e };
            let dj = if j < n { d } else { e };
            let pi = if i < n { i } else { i - n };
            let pj = if j < n { j } else { j - n };
            assert(both[i] == state.nodes_by_district@[di]@[pi]);
            assert(both[j] == state.nodes_by_district@[dj]@[pj]);
            assert(assignment[both[i] as int] == di);
            assert(assignment[both[j] as int] == dj);
        }
    }
    let set = both.to_set();
    both.unique_seq_to_set();
    let ints = vstd::set_lib::set_int_range(0, assignment.len() as int);
    vstd::set_lib::lemma_int_range(0, assignment.len() as int);
    let image = set.map(|x: usize| x as int);
    assert(vstd::relations::injective_on(|x: usize| x as int, set));
    vstd::set_lib::lemma_map_size(set, image, |x: usize| x as int);
    assert(image.subset_of(ints)) by {
        assert forall|x: int| image.contains(x) implies ints.contains(x) by {
            let y = choose|y: usize| set.contains(y) && y as int == x;
            let i = choose|i: int| 0 <= i < both.len() && both[i] == y;
            assert(0 <= both[i] < assignment.len());
        }
    }
    vstd::set_lib::lemma_len_subset(image, ints);
}

/// However a state came to hold a plan, patched or counted anew, it has the plan's labels, as many
/// nodes in every district, and the same ones, each once.
pub proof fn law_patched_units_are_recomputed_units(
    patched: ReockState,
    recomputed: ReockState,
    plan: Seq<u16>,
)
    requires
        patched.places(plan, plan.len() as int),
        observes(patched.observed, plan),
        recomputed.places(plan, plan.len() as int),
        observes(recomputed.observed, plan),
    ensures
        patched.observed == recomputed.observed,
        patched.node_counts@ == recomputed.node_counts@,
        forall|d: int|
            0 <= d < MAX_DISTRICTS ==> (#[trigger] patched.nodes_by_district@[d])@.no_duplicates()
                && recomputed.nodes_by_district@[d]@.no_duplicates()
                && patched.nodes_by_district@[d]@.to_set()
                == recomputed.nodes_by_district@[d]@.to_set(),
{
    assert forall|d: int| #[trigger] has_district(patched.observed, d) <==> has_district(
        recomputed.observed,
        d,
    ) by {}
    law_mask_is_its_set(patched.observed, recomputed.observed);
    assert forall|d: int| 0 <= d < MAX_DISTRICTS implies (
    #[trigger] patched.nodes_by_district@[d])@.no_duplicates()
        && recomputed.nodes_by_district@[d]@.no_duplicates()
        && patched.nodes_by_district@[d]@.to_set()
        == recomputed.nodes_by_district@[d]@.to_set() && patched.node_counts@[d]
        == recomputed.node_counts@[d] by {
        lemma_lists_units(patched, plan, d);
        lemma_lists_units(recomputed, plan, d);
        let a = patched.nodes_by_district@[d]@;
        let b = recomputed.nodes_by_district@[d]@;
        assert forall|u: usize| a.to_set().contains(u) <==> b.to_set().contains(u) by {
            assert(a.contains(u) <==> b.contains(u));
        }
        assert(a.to_set() =~= b.to_set());
        a.unique_seq_to_set();
        b.unique_seq_to_set();
        assert(patched.node_counts@[d] == a.len());
        assert(recomputed.node_counts@[d] == b.len());
    }
    assert forall|d: int| 0 <= d < MAX_DISTRICTS implies patched.node_counts@[d]
        == recomputed.node_counts@[d] by {
        assert(patched.nodes_by_district@[d]@.no_duplicates());
    }
    assert(patched.node_counts@ =~= recomputed.node_counts@);
}

/// A district's list holds its nodes, each once.
pub proof fn lemma_lists_units(state: ReockState, plan: Seq<u16>, d: int)
    requires
        state.places(plan, plan.len() as int),
        0 <= d < MAX_DISTRICTS,
    ensures
        state.nodes_by_district@[d]@.no_duplicates(),
        forall|u: usize| #[trigger]
            state.nodes_by_district@[d]@.contains(u) <==> u < plan.len() && plan[u as int] == d,
{
    let list = state.nodes_by_district@[d]@;
    assert forall|p: int, q: int| 0 <= p < q < list.len() implies list[p] != list[q] by {
        assert(state.node_position@[state.nodes_by_district@[d]@[p] as int] == p);
        assert(state.node_position@[state.nodes_by_district@[d]@[q] as int] == q);
    }
    assert forall|u: usize| #[trigger] list.contains(u) <==> u < plan.len() && plan[u as int]
        == d by {
        if list.contains(u) {
            let p = list.index_of(u);
            assert(state.nodes_by_district@[d]@[p] == u);
        }
        if u < plan.len() && plan[u as int] == d {
            let p = state.node_position@[u as int] as int;
            assert(list[p] == u);
        }
    }
}

/// The units of every district of one plan.
pub fn reock_rows(assignment: &[u16], unit_count: usize) -> (r: Result<ReockState, Error>)
    requires
        unit_count <= u32::MAX,
    ensures
        r is Ok <==> assignment@.len() == unit_count && within_limit(assignment@),
        r matches Err(e) ==> if assignment@.len() != unit_count {
            e matches Error::AssignmentLength {
                actual,
                actual_label,
                expected,
                expected_label,
            } && actual == assignment@.len() && actual_label@ == "BEN assignment length"@
                && expected == unit_count && expected_label@ == "geometry row count"@
        } else {
            reports_first_excess(e, assignment@)
        },
        r matches Ok(state) ==> {
            &&& state.places(assignment@, assignment@.len() as int)
            &&& observes(state.observed, assignment@)
            &&& forall|d: int|
                0 <= d < MAX_DISTRICTS ==> (#[trigger] state.nodes_by_district@[d])@ == district_units(
                    assignment@,
                    d,
                    assignment@.len() as int,
                )
        },
{
    if assignment.len() != unit_count {
        return Err(
            Error::AssignmentLength {
                actual: assignment.len(),
                actual_label: "BEN assignment length",
                expected: unit_count,
                expected_label: "geometry row count",
            },
        );
    }
    let mut state = ReockState::new(unit_count);
    proof {
        lemma_empty_mask();
    }
    let mut node: usize = 0;
    while node < assignment.len()
        invariant
            node <= assignment@.len() <= u32::MAX,
            assignment@.len() == unit_count,
            state.places(assignment@, node as int),
            forall|d: int| #[trigger]
                has_district(state.observed, d) <==> exists|k: int|
                    0 <= k < node && #[trigger] assignment@[k] == d,
            forall|d: int|
                0 <= d < MAX_DISTRICTS ==> (#[trigger] state.nodes_by_district@[d])@ == district_units(
                    assignment@,
                    d,
                    node as int,
                ),
        decreases assignment.len() - node,
    {
        let district: u16 = assignment[node];
        let ghost before = state;
        match observe_district(&mut state.observed, district) {
            Ok(()) => {},
            Err(e) => {
                proof {
                    assert(assignment@[node as int] >= MAX_DISTRICTS);
                }
                return Err(e);
            },
        }
        proof {
            assert forall|d: int| #[trigger]
                has_district(state.observed, d) <==> exists|k: int|
                    0 <= k < node + 1 && #[trigger] assignment@[k] == d by {
                assert(has_district(state.observed, d) <==> has_district(before.observed, d) || d
                    == district);
                if has_district(before.observed, d) {
                    let k = choose|k: int| 0 <= k < node && #[trigger] assignment@[k] == d;
                    assert(assignment@[k] == d);
                }
                if d == district {
                    assert(assignment@[node as int] == d);
                }
            }
            assert(before.node_counts@[district as int] <= node);
        }
        let count: u32 = state.node_counts[district as usize];
        state.node_counts.set(district as usize, count + 1);
        add_node(
            &mut state.node_position,
            &mut state.nodes_by_district,
            district as usize,
            node,
        );
        proof {
            let list = before.nodes_by_district@[district as int]@;
            assert(before.node_counts@[district as int] == list.len());
            assert forall|n: int| 0 <= n < node + 1 implies (#[trigger] state.node_position@[n])
                < state.nodes_by_district@[assignment@[n] as int]@.len()
                && state.nodes_by_district@[assignment@[n] as int]@[state.node_position@[n] as int]
                == n by {
                if n < node {
                    assert(assignment@[n] < MAX_DISTRICTS);
                    assert(before.node_position@[n] < before.nodes_by_district@[assignment@[n] as int]@.len());
                }
            }
            assert forall|d: int, p: int|
                0 <= d < MAX_DISTRICTS && 0 <= p < state.nodes_by_district@[d]@.len() implies (
            #[trigger] state.nodes_by_district@[d]@[p]) < node + 1
                && assignment@[state.nodes_by_district@[d]@[p] as int] == d
                && state.node_position@[state.nodes_by_district@[d]@[p] as int] == p by {
                if d == district && p == list.len() {
                } else {
                    assert(state.nodes_by_district@[d]@[p] == before.nodes_by_district@[d]@[p]);
                }
            }
            assert forall|d: int| 0 <= d < MAX_DISTRICTS implies #[trigger] state.node_counts@[d]
                == state.nodes_by_district@[d]@.len() && state.node_counts@[d] <= node + 1 by {
                assert(before.node_counts@[d] == before.nodes_by_district@[d]@.len());
            }
        }
        node += 1;
    }
    Ok(state)
}

/// The units of `district` among the first `n` nodes, in node order.
pub open spec fn district_units(assignment: Seq<u16>, district: int, n: int) -> Seq<usize>
    decreases n,
{
    if n <= 0 {
        Seq::empty()
    } else if assignment[n - 1] == district {
        district_units(assignment, district, n - 1).push((n - 1) as usize)
    } else {
        district_units(assignment, district, n - 1)
    }
}

/// The units of a district are the nodes with its label, in node order.
pub proof fn law_district_units(assignment: Seq<u16>, district: int, n: int)
    requires
        0 <= n,
    ensures
        district_units(assignment, district, n) == listed(
            n,
            |i: int| assignment[i] == district,
        ).map_values(|i: int| i as usize),
    decreases n,
{
    let here = |i: int| assignment[i] == district;
    law_listed(n - 1, here);
    if n > 0 {
        law_district_units(assignment, district, n - 1);
    }
    assert(district_units(assignment, district, n) =~= listed(n, here).map_values(
        |i: int| i as usize,
    ));
}

/// What a state says of a district of a plan: its list holds the nodes with its label, each once,
/// and its count is the number of those nodes.
pub proof fn law_placed_units(state: ReockState, plan: Seq<u16>, d: int)
    requires
        state.places(plan, plan.len() as int),
        0 <= d < 128,
    ensures
        state.nodes_by_district@[d]@.no_duplicates(),
        forall|u: usize| #[trigger]
            state.nodes_by_district@[d]@.contains(u) <==> u < plan.len() && plan[u as int] == d,
        state.node_counts@[d] == Set::new(|u: int| 0 <= u < plan.len() && plan[u] == d).len(),
{
    lemma_lists_units(state, plan, d);
    let list = state.nodes_by_district@[d]@;
    assert(state.node_counts@[d] == list.len());
    assert(state.node_position.len() == plan.len());
    assert forall|p: int| 0 <= p < list.len() implies #[trigger] list[p] < plan.len() by {
        assert(state.nodes_by_district@[d]@[p] < plan.len());
    }
    lemma_unit_count(list, plan, d);
}

/// A list of the nodes of a district, each once, is as long as there are such nodes.
pub(crate) proof fn lemma_unit_count(list: Seq<usize>, plan: Seq<u16>, d: int)
    requires
        list.no_duplicates(),
        forall|u: usize| #[trigger] list.contains(u) <==> u < plan.len() && plan[u as int] == d,
        forall|p: int| 0 <= p < list.len() ==> #[trigger] list[p] < plan.len(),
        plan.len() <= usize::MAX,
    ensures
        list.len() == Set::new(|u: int| 0 <= u < plan.len() && plan[u] == d).len(),
{
    let set = list.to_set();
    list.unique_seq_to_set();
    let wide = |u: usize| u as int;
    let image = set.map(wide);
    let nodes = Set::new(|u: int| 0 <= u < plan.len() && plan[u] == d);
    assert forall|u: int| image.contains(u) <==> nodes.contains(u) by {
        if nodes.contains(u) {
            let unit = u as usize;
            assert(list.contains(unit));
            assert(set.contains(unit) && wide(unit) == u);
        }
        if image.contains(u) {
            let unit = choose|unit: usize| set.contains(unit) && wide(unit) == u;
            assert(list.contains(unit));
        }
    }
    assert(image =~= nodes);
    vstd::set_lib::lemma_map_size(set, image, wide);
}

// ---------------------------------------------------------------------------------------------
// A chain of plans
// ---------------------------------------------------------------------------------------------

/// District units, areas, and pending scores along a chain of plans.
///
/// The district areas are kept by the caller: `postings` says what the last seed or update adds to
/// and subtracts from them. A seed starts from zero areas and zero scores. `emptied` lists the
/// districts whose score goes back to zero, `recompute` those that need a new score.
#[derive(Debug)]
pub struct IncrementalReock<'g, W> {
    pub unit_areas: &'g [W],
    pub state: ReockState,
    pub postings: Vec<Posting<W>>,
    pub emptied: Vec<usize>,
    pub recompute: Vec<usize>,
}

/// The postings of the first `n` units of a plan.
pub open spec fn unit_postings<W>(areas: Seq<W>, assignment: Seq<u16>, n: int) -> Seq<Posting<W>>
    decreases n,
{
    if n <= 0 {
        Seq::empty()
    } else {
        unit_postings(areas, assignment, n - 1).push(
            Posting {
                table: 0,
                district: assignment[n - 1],
                negative: false,
                value: areas[n - 1],
            },
        )
    }
}

/// The postings of the relabelled units.
pub open spec fn move_postings<W>(areas: Seq<W>, changes: Seq<DeltaChange>) -> Seq<Posting<W>>
    decreases changes.len(),
{
    if changes.len() == 0 {
        Seq::empty()
    } else {
        let c = changes.last();
        let earlier = move_postings(areas, changes.drop_last());
        if c.old == c.new {
            earlier
        } else {
            let value = areas[c.node as int];
            earlier.push(Posting { table: 0, district: c.old, negative: true, value }).push(
                Posting { table: 0, district: c.new, negative: false, value },
            )
        }
    }
}

/// Whether a unit moves into or out of `district`.
pub open spec fn moves_unit(changes: Seq<DeltaChange>, district: int) -> bool {
    exists|k: int|
        0 <= k < changes.len() && (#[trigger] changes[k]).old != changes[k].new && (changes[k].old
            == district || changes[k].new == district)
}

/// The districts below `bound` that are touched and, as `empty` says, have no units or some, in
/// ascending order.
pub open spec fn pending(
    touched: spec_fn(int) -> bool,
    node_counts: Seq<u32>,
    empty: bool,
    bound: int,
) -> Seq<usize>
    decreases bound,
{
    if bound <= 0 {
        Seq::empty()
    } else {
        let shorter = pending(touched, node_counts, empty, bound - 1);
        if touched(bound - 1) && (node_counts[bound - 1] == 0) == empty {
            shorter.push((bound - 1) as usize)
        } else {
            shorter
        }
    }
}

/// Moving units patches the district areas to those of the plan after the moves.
pub proof fn law_patched_areas_are_recomputed_areas<W>(
    areas: Seq<W>,
    before: Seq<u16>,
    changes: Seq<DeltaChange>,
    district: int,
    worth: spec_fn(W) -> int,
)
    requires
        applicable(before, changes),
    ensures
        balance(
            unit_postings(areas, applied(before, changes), before.len() as int),
            0,
            district,
            worth,
        ) == balance(unit_postings(areas, before, before.len() as int), 0, district, worth)
            + balance(move_postings(areas, changes), 0, district, worth),
{
    let n = changes.len() as int;
    assert(changes.take(n) =~= changes);
    lemma_district_sum_applied(areas, before, changes, n, district, worth);
    law_unit_postings(areas, before, before.len() as int, district, worth);
    law_unit_postings(areas, applied(before, changes), before.len() as int, district, worth);
    lemma_move_balance(areas, changes, district, worth);
}

/// The postings of a plan add up to the areas of each district's units.
pub proof fn law_unit_postings<W>(
    areas: Seq<W>,
    assignment: Seq<u16>,
    n: int,
    district: int,
    worth: spec_fn(W) -> int,
)
    ensures
        balance(unit_postings(areas, assignment, n), 0, district, worth) == district_sum(
            areas,
            assignment,
            district,
            n,
            worth,
        ),
    decreases n,
{
    if n > 0 {
        law_unit_postings(areas, assignment, n - 1, district, worth);
        lemma_balance_push(
            unit_postings(areas, assignment, n - 1),
            Posting {
                table: 0,
                district: assignment[n - 1],
                negative: false,
                value: areas[n - 1],
            },
            0,
            district,
            worth,
        );
    }
}

proof fn lemma_move_balance<W>(
    areas: Seq<W>,
    changes: Seq<DeltaChange>,
    district: int,
    worth: spec_fn(W) -> int,
)
    ensures
        balance(move_postings(areas, changes), 0, district, worth) == moved(
            areas,
            changes,
            district,
            worth,
        ),
    decreases changes.len(),
{
    if changes.len() > 0 {
        lemma_move_balance(areas, changes.drop_last(), district, worth);
        let c = changes.last();
        if c.old != c.new {
            let earlier = move_postings(areas, changes.drop_last());
            let value = areas[c.node as int];
            let p = Posting { table: 0, district: c.old, negative: true, value };
            let q = Posting { table: 0, district: c.new, negative: false, value };
            lemma_balance_push(earlier, p, 0, district, worth);
            lemma_balance_push(earlier.push(p), q, 0, district, worth);
        }
    }
}

/// The touched districts, split by whether they have units left.
fn split_pending(touched: &Vec<bool>, node_counts: &Vec<u32>) -> (r: (Vec<usize>, Vec<usize>))
    requires
        touched@.len() == MAX_DISTRICTS,
        node_counts@.len() == MAX_DISTRICTS,
    ensures
        r.0@ == pending(|d: int| touched@[d], node_counts@, true, MAX_DISTRICTS as int),
        r.1@ == pending(|d: int| touched@[d], node_counts@, false, MAX_DISTRICTS as int),
{
    let mut emptied: Vec<usize> = Vec::new();
    let mut recompute: Vec<usize> = Vec::new();
    let mut d: usize = 0;
    while d < MAX_DISTRICTS as usize
        invariant
            d <= MAX_DISTRICTS,
            touched@.len() == MAX_DISTRICTS,
            node_counts@.len() == MAX_DISTRICTS,
            emptied@ == pending(|k: int| touched@[k], node_counts@, true, d as int),
            recompute@ == pending(|k: int| touched@[k], node_counts@, false, d as int),
        decreases MAX_DISTRICTS - d,
    {
        if touched[d] {
            if node_counts[d] == 0 {
                emptied.push(d);
            } else {
                recompute.push(d);
            }
        }
        d += 1;
    }
    (emptied, recompute)
}

proof fn lemma_pending_same(
    f: spec_fn(int) -> bool,
    g: spec_fn(int) -> bool,
    node_counts: Seq<u32>,
    empty: bool,
    bound: int,
)
    requires
        forall|d: int| 0 <= d < bound ==> #[trigger] f(d) == g(d),
    ensures
        pending(f, node_counts, empty, bound) == pending(g, node_counts, empty, bound),
    decreases bound,
{
    if bound > 0 {
        lemma_pending_same(f, g, node_counts, empty, bound - 1);
        assert(f(bound - 1) == g(bound - 1));
    }
}

impl<'g, W: Copy> IncrementalReock<'g, W> {
    /// State for units with the given areas.
    pub fn new(unit_areas: &'g [W]) -> (r: Self)
        requires
            unit_areas@.len() <= u32::MAX,
        ensures
            r.wf(),
            r.unit_areas == unit_areas,
    {
        IncrementalReock {
            unit_areas,
            state: ReockState::new(unit_areas.len()),
            postings: Vec::new(),
            emptied: Vec::new(),
            recompute: Vec::new(),
        }
    }
}

impl<'g, W: Copy> IncrementalTwoDeltaMetric for IncrementalReock<'g, W> {
    open spec fn node_count(&self) -> nat {
        self.unit_areas@.len()
    }

    open spec fn wf(&self) -> bool {
        self.unit_areas@.len() <= u32::MAX
    }

    open spec fn patches_left(&self) -> nat {
        u64::MAX as nat
    }

    open spec fn tracks(&self, assignment: Seq<u16>) -> bool {
        &&& self.state.places(assignment, assignment.len() as int)
        &&& observes(self.state.observed, assignment)
    }

    open spec fn seeded(&self, before: Self, assignment: Seq<u16>) -> bool {
        &&& self.unit_areas == before.unit_areas
        &&& forall|d: int|
            0 <= d < MAX_DISTRICTS ==> (#[trigger] self.state.nodes_by_district@[d])@
                == district_units(assignment, d, assignment.len() as int)
        &&& self.postings@ == unit_postings(
            self.unit_areas@,
            assignment,
            assignment.len() as int,
        )
        &&& self.emptied@.len() == 0
        &&& self.recompute@ == pending(
            |d: int| true,
            self.state.node_counts@,
            false,
            MAX_DISTRICTS as int,
        )
    }

    open spec fn patched(
        &self,
        before: Self,
        assignment: Seq<u16>,
        changes: Seq<DeltaChange>,
    ) -> bool {
        &&& self.unit_areas == before.unit_areas
        &&& self.postings@ == move_postings(self.unit_areas@, changes)
        &&& self.emptied@ == pending(
            |d: int| moves_unit(changes, d),
            self.state.node_counts@,
            true,
            MAX_DISTRICTS as int,
        )
        &&& self.recompute@ == pending(
            |d: int| moves_unit(changes, d),
            self.state.node_counts@,
            false,
            MAX_DISTRICTS as int,
        )
    }

    open spec fn labels(&self) -> u128 {
        self.state.observed
    }

    fn seed(&mut self, assignment: &[u16]) -> (r: Result<(), Error>) {
        let state = match reock_rows(assignment, self.unit_areas.len()) {
            Ok(state) => state,
            Err(e) => {
                return Err(e);
            },
        };
        let mut postings: Vec<Posting<W>> = Vec::new();
        let mut node: usize = 0;
        while node < assignment.len()
            invariant
                node <= assignment@.len(),
                assignment@.len() == self.unit_areas@.len(),
                postings@ == unit_postings(self.unit_areas@, assignment@, node as int),
            decreases assignment.len() - node,
        {
            postings.push(
                Posting {
                    table: 0,
                    district: assignment[node],
                    negative: false,
                    value: self.unit_areas[node],
                },
            );
            node += 1;
        }
        let all: Vec<bool> = vec![true; MAX_DISTRICTS as usize];
        let (_, recompute) = split_pending(&all, &state.node_counts);
        proof {
            lemma_pending_same(
                |d: int| all@[d],
                |d: int| true,
                state.node_counts@,
                false,
                MAX_DISTRICTS as int,
            );
        }
        self.state = state;
        self.postings = postings;
        self.emptied = Vec::new();
        self.recompute = recompute;
        Ok(())
    }

    fn update_delta(&mut self, before: &[u16], changes: &[DeltaChange]) -> (r: Result<(), Error>) {
        self.postings = Vec::new();
        let mut touched: Vec<bool> = vec![false; MAX_DISTRICTS as usize];
        let mut c: usize = 0;
        proof {
            assert(changes@.take(0) =~= Seq::empty());
        }
        while c < changes.len()
            invariant
                c <= changes@.len(),
                self.wf(),
                self.unit_areas == old(self).unit_areas,
                before@.len() == self.unit_areas@.len(),
                within_limit(before@),
                applicable(before@, changes@),
                forall|j: int| 0 <= j < c ==> (#[trigger] changes@[j]).new < MAX_DISTRICTS,
                self.tracks(applied(before@, changes@.take(c as int))),
                applied(before@, changes@.take(c as int)).len() == before@.len(),
                self.postings@ == move_postings(self.unit_areas@, changes@.take(c as int)),
                touched@.len() == MAX_DISTRICTS,
                forall|d: int|
                    0 <= d < MAX_DISTRICTS ==> (#[trigger] touched@[d] <==> moves_unit(
                        changes@.take(c as int),
                        d,
                    )),
            decreases changes.len() - c,
        {
            let change = changes[c];
            let ghost cur = applied(before@, changes@.take(c as int));
            let ghost so_far = changes@.take(c as int);
            let ghost next = changes@.take(c + 1);
            let ghost seen = self.state.observed;
            proof {
                lemma_applicable_at(before@, changes@, c as int);
                assert(next.drop_last() =~= so_far);
                assert(next.last() == change);
                assert(next =~= so_far.push(change));
                assert(cur[change.node as int] < MAX_DISTRICTS);
                assert(has_district(self.state.observed, change.old as int));
                lemma_grow(so_far, change);
            }
            match observe_district(&mut self.state.observed, change.old) {
                Ok(()) => {},
                Err(e) => {
                    return Err(e);
                },
            }
            assert(self.state.observed == seen);
            if change.old == change.new {
                proof {
                    assert(cur.update(change.node as int, change.new) =~= cur);
                }
                c += 1;
                continue;
            }
            match observe_district(&mut self.state.observed, change.new) {
                Ok(()) => {},
                Err(e) => {
                    proof {
                        assert(changes@[c as int].new >= MAX_DISTRICTS);
                    }
                    return Err(e);
                },
            }
            self.state.relocate(change.node, change.old, change.new, Ghost(cur));
            let value: W = self.unit_areas[change.node];
            self.postings.push(Posting { table: 0, district: change.old, negative: true, value });
            self.postings.push(Posting { table: 0, district: change.new, negative: false, value });
            touched.set(change.old as usize, true);
            touched.set(change.new as usize, true);
            c += 1;
        }
        let (emptied, recompute) = split_pending(&touched, &self.state.node_counts);
        proof {
            assert(changes@.take(changes@.len() as int) =~= changes@);
            let f = |d: int| touched@[d];
            let g = |d: int| moves_unit(changes@, d);
            lemma_pending_same(f, g, self.state.node_counts@, true, MAX_DISTRICTS as int);
            lemma_pending_same(f, g, self.state.node_counts@, false, MAX_DISTRICTS as int);
        }
        self.emptied = emptied;
        self.recompute = recompute;
        Ok(())
    }

    fn observed(&self) -> (r: u128) {
        self.state.observed
    }
}

/// One more change moves units of its own two districts, if it moves any.
proof fn lemma_grow(changes: Seq<DeltaChange>, c: DeltaChange)
    ensures
        forall|d: int| #[trigger]
            moves_unit(changes.push(c), d) <==> moves_unit(changes, d) || (c.old != c.new && (c.old
                == d || c.new == d)),
{
    let all = changes.push(c);
    assert(all[changes.len() as int] == c);
    assert forall|k: int| 0 <= k < changes.len() implies #[trigger] changes[k] == all[k] by {}
    assert forall|d: int| #[trigger]
        moves_unit(all, d) <==> moves_unit(changes, d) || (c.old != c.new && (c.old == d || c.new
            == d)) by {
        if moves_unit(changes, d) {
            let k = choose|k: int|
                0 <= k < changes.len() && (#[trigger] changes[k]).old != changes[k].new && (
                changes[k].old == d || changes[k].new == d);
            assert(all[k] == changes[k]);
        }
    }
}

/// The districts to look at are those that are touched and have units or none, as asked, in ascending
/// order.
pub proof fn law_pending(
    touched: spec_fn(int) -> bool,
    node_counts: Seq<u32>,
    empty: bool,
    bound: int,
)
    requires
        0 <= bound <= usize::MAX,
    ensures
        pending(touched, node_counts, empty, bound) == listed(
            bound,
            |d: int| touched(d) && (node_counts[d] == 0) == empty,
        ).map_values(|d: int| d as usize),
        forall|d: usize| #[trigger]
            pending(touched, node_counts, empty, bound).contains(d) <==> d < bound && touched(
                d as int,
            ) && (node_counts[d as int] == 0) == empty,
    decreases bound,
{
    let holds = |d: int| touched(d) && (node_counts[d] == 0) == empty;
    let list = pending(touched, node_counts, empty, bound);
    law_listed(bound - 1, holds);
    law_listed(0, holds);
    if bound > 0 {
        law_pending(touched, node_counts, empty, bound - 1);
    }
    assert(list =~= listed(bound, holds).map_values(|d: int| d as usize));
    assert forall|d: usize| #[trigger] list.contains(d) <==> d < bound && touched(d as int) && (
    node_counts[d as int] == 0) == empty by {
        let all = listed(bound, holds);
        law_listed(bound, holds);
        assert(all.contains(d as int) <==> d < bound && holds(d as int));
        if list.contains(d) {
            let k = choose|k: int| 0 <= k < list.len() && list[k] == d;
            assert(all.contains(all[k]));
            assert(all[k] as usize == d);
        }
        if all.contains(d as int) {
            let k = choose|k: int| 0 <= k < all.len() && all[k] == d as int;
            assert(list[k] == d);
        }
    }
}

/// A delta moves a unit into or out of a district exactly when some node is in the district before
/// and not after, or after and not before.
pub proof fn law_moves_unit(before: Seq<u16>, changes: Seq<DeltaChange>, district: int)
    requires
        forall|k: int|
            0 <= k < changes.len() ==> (#[trigger] changes[k]).node < before.len()
                && before[changes[k].node as int] == changes[k].old,
        forall|j: int, k: int|
            0 <= j < k < changes.len() ==> (#[trigger] changes[j]).node != (
            #[trigger] changes[k]).node,
    ensures
        moves_unit(changes, district) <==> exists|u: int|
            0 <= u < before.len() && (#[trigger] before[u] == district) != (applied(
                before,
                changes,
            )[u] == district),
{
    let after = applied(before, changes);
    law_applied_labels(before, changes);
    if moves_unit(changes, district) {
        let k = choose|k: int|
            0 <= k < changes.len() && (#[trigger] changes[k]).old != changes[k].new && (
            changes[k].old == district || changes[k].new == district);
        let u = changes[k].node as int;
        assert(after[changes[k].node as int] == changes[k].new);
        assert((before[u] == district) != (after[u] == district));
    }
    if exists|u: int|
        0 <= u < before.len() && (#[trigger] before[u] == district) != (after[u] == district) {
        let u = choose|u: int|
            0 <= u < before.len() && (#[trigger] before[u] == district) != (after[u] == district);
        if forall|k: int| 0 <= k < changes.len() ==> (#[trigger] changes[k]).node != u {
            assert(after[u] == before[u]);
        } else {
            let k = choose|k: int| 0 <= k < changes.len() && (#[trigger] changes[k]).node == u;
            assert(after[changes[k].node as int] == changes[k].new);
        }
    }
}

/// A seed posts to each district the areas of the units with its label.
pub proof fn law_unit_areas<W>(
    areas: Seq<W>,
    assignment: Seq<u16>,
    district: int,
    worth: spec_fn(W) -> int,
)
    ensures
        balance(
            unit_postings(areas, assignment, assignment.len() as int),
            0,
            district,
            worth,
        ) == sum_below(
            assignment.len() as int,
            |i: int|
                if assignment[i] == district {
                    worth(areas[i])
                } else {
                    0
                },
        ),
{
    law_unit_postings(areas, assignment, assignment.len() as int, district, worth);
    law_district_sum(areas, assignment, district, assignment.len() as int, worth);
}

/// The postings of a plan, one by one: unit after unit, its area to the district that has it.
pub proof fn law_unit_postings_in_order<W>(areas: Seq<W>, assignment: Seq<u16>, n: int, i: int)
    requires
        0 <= n,
    ensures
        unit_postings(areas, assignment, n).len() == n,
        0 <= i < n ==> unit_postings(areas, assignment, n)[i] == (Posting {
            table: 0,
            district: assignment[i],
            negative: false,
            value: areas[i],
        }),
    decreases n,
{
    if n > 0 {
        law_unit_postings_in_order(areas, assignment, n - 1, i);
    }
}

/// The postings of a delta, one by one: each unit that changes its district goes with its area from
/// the old one to the new one.
pub proof fn law_move_postings_in_order<W>(areas: Seq<W>, changes: Seq<DeltaChange>, c: DeltaChange)
    ensures
        move_postings(areas, Seq::empty()).len() == 0,
        move_postings(areas, changes.push(c)) == move_postings(areas, changes) + (if c.old
            == c.new {
            Seq::empty()
        } else {
            seq![
                Posting {
                    table: 0,
                    district: c.old,
                    negative: true,
                    value: areas[c.node as int],
                },
                Posting {
                    table: 0,
                    district: c.new,
                    negative: false,
                    value: areas[c.node as int],
                },
            ]
        }),
{
    assert(changes.push(c).drop_last() =~= changes);
    assert(move_postings(areas, changes.push(c)) =~= move_postings(areas, changes) + (if c.old
        == c.new {
        Seq::empty()
    } else {
        seq![
            Posting { table: 0, district: c.old, negative: true, value: areas[c.node as int] },
            Posting { table: 0, district: c.new, negative: false, value: areas[c.node as int] },
        ]
    }));
}

/// Taking an entry out of a list moves the last entry to its place and leaves all others.
pub proof fn law_swap_removed(list: Seq<usize>, pos: int, p: int)
    requires
        0 <= pos < list.len(),
        0 <= p < list.len() - 1,
    ensures
        swap_removed(list, pos).len() == list.len() - 1,
        swap_removed(list, pos)[p] == (if p == pos {
            list[list.len() - 1]
        } else {
            list[p]
        }),
{
}

} // verus!
