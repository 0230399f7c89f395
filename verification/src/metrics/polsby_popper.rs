//! District areas and perimeters for Polsby-Popper scores.
//!
//! A district's area is the sum of its nodes' areas. Its perimeter is the sum of its nodes'
//! perimeters less twice the perimeter shared along each edge inside the district. Which value is
//! added or subtracted where, and in which order, is decided here; the sums themselves belong to
//! the caller.
use crate::district::{
    has_district, is_dense_count, observed_assignment_districts, observes, reports_first_excess,
    within_limit, MAX_DISTRICTS,
};
use crate::error::{invalid_data, Error};
use crate::graph::{incident, law_incident_edges, Graph};
use crate::metrics::counts::{
    law_listed, law_sum_below, lemma_sum_add, lemma_sum_at, lemma_sum_same, listed, sum_below,
};
use crate::metrics::ledger::{
    balance, district_sum, law_district_sum, lemma_balance_add, lemma_balance_push,
    lemma_district_sum_applied, moved, posted, Posting,
};
use crate::metrics::twodelta::{
    applicable, applied, lemma_applicable_at, lemma_applicable_nodes, lemma_applied_len,
    new_labels_fit, reports_new_label, DeltaChange, DistrictPresence, IncrementalTwoDeltaMetric,
    PostDeltaLabels,
};
use crate::text::{decimal, push_decimal};
use vstd::prelude::*;

verus! {

/// The table of district areas.
pub const AREA_TABLE: usize = 0;

/// The table of district perimeters, by node.
pub const PERIMETER_TABLE: usize = 1;

/// The table of perimeters shared along edges inside a district. A posting here counts twice
/// toward the district's perimeter.
pub const SHARED_TABLE: usize = 2;

// ---------------------------------------------------------------------------------------------
// Node perimeters
// ---------------------------------------------------------------------------------------------

/// What the first `n` edges contribute to the perimeter of `node`, in edge order.
pub open spec fn node_shares<W>(
    edges: Seq<(u32, u32)>,
    shared: Seq<W>,
    node: int,
    n: int,
) -> Seq<W>
    decreases n,
{
    if n <= 0 {
        Seq::empty()
    } else {
        let earlier = node_shares(edges, shared, node, n - 1);
        let once = if edges[n - 1].0 == node {
            earlier.push(shared[n - 1])
        } else {
            earlier
        };
        if edges[n - 1].1 == node {
            once.push(shared[n - 1])
        } else {
            once
        }
    }
}

/// The addends of every node's perimeter: its part of the outer boundary, then what it shares
/// along each of its edges.
pub fn derive_total_perimeters<W: Copy>(
    boundary_perimeters: &[W],
    edges: &[(u32, u32)],
    shared_perimeters: &[W],
) -> (r: Vec<Vec<W>>)
    requires
        shared_perimeters@.len() == edges@.len(),
        forall|e: int|
            0 <= e < edges@.len() ==> (#[trigger] edges@[e]).0 < boundary_perimeters@.len()
                && edges@[e].1 < boundary_perimeters@.len(),
    ensures
        r@.len() == boundary_perimeters@.len(),
        forall|i: int|
            0 <= i < r@.len() ==> (#[trigger] r@[i])@ == seq![boundary_perimeters@[i]]
                + node_shares(edges@, shared_perimeters@, i, edges@.len() as int),
{
    let mut totals: Vec<Vec<W>> = Vec::new();
    let mut i: usize = 0;
    while i < boundary_perimeters.len()
        invariant
            i <= boundary_perimeters@.len(),
            totals@.len() == i,
            forall|k: int|
                0 <= k < i ==> (#[trigger] totals@[k])@ == seq![boundary_perimeters@[k]]
                    + node_shares(edges@, shared_perimeters@, k, 0),
        decreases boundary_perimeters.len() - i,
    {
        let mut start: Vec<W> = Vec::new();
        start.push(boundary_perimeters[i]);
        proof {
            assert(start@ =~= seq![boundary_perimeters@[i as int]] + node_shares(
                edges@,
                shared_perimeters@,
                i as int,
                0,
            ));
        }
        totals.push(start);
        i += 1;
    }
    let mut e: usize = 0;
    while e < edges.len()
        invariant
            e <= edges@.len(),
            shared_perimeters@.len() == edges@.len(),
            totals@.len() == boundary_perimeters@.len(),
            forall|k: int|
                0 <= k < edges@.len() ==> (#[trigger] edges@[k]).0 < boundary_perimeters@.len()
                    && edges@[k].1 < boundary_perimeters@.len(),
            forall|k: int|
                0 <= k < totals@.len() ==> (#[trigger] totals@[k])@ == seq![
                    boundary_perimeters@[k],
                ] + node_shares(edges@, shared_perimeters@, k, e as int),
        decreases edges.len() - e,
    {
        let (node_u, node_v) = edges[e];
        let ghost before = totals@;
        assert(edges@[e as int].0 < boundary_perimeters@.len());
        totals[node_u as usize].push(shared_perimeters[e]);
        totals[node_v as usize].push(shared_perimeters[e]);
        proof {
            assert forall|k: int| 0 <= k < totals@.len() implies (#[trigger] totals@[k])@ == seq![
                boundary_perimeters@[k],
            ] + node_shares(edges@, shared_perimeters@, k, e + 1) by {
                assert(before[k]@ == seq![boundary_perimeters@[k]] + node_shares(
                    edges@,
                    shared_perimeters@,
                    k,
                    e as int,
                ));
                assert(totals@[k]@ =~= seq![boundary_perimeters@[k]] + node_shares(
                    edges@,
                    shared_perimeters@,
                    k,
                    e + 1,
                ));
            }
        }
        e += 1;
    }
    totals
}

proof fn lemma_few_times(value: int, count: int)
    requires
        0 <= count <= 2,
    ensures
        value * count == (if count == 0 {
            0
        } else if count == 1 {
            value
        } else {
            value + value
        }),
{
    assert(value * 0 == 0) by (nonlinear_arith);
    assert(value * 1 == value) by (nonlinear_arith);
    assert(value * 2 == value + value) by (nonlinear_arith);
}

/// A node gets the share of an edge once for each end of the edge at the node, whatever the values
/// are worth; so it gets as many shares as its degree.
pub proof fn law_node_shares<W>(
    edges: Seq<(u32, u32)>,
    shared: Seq<W>,
    node: int,
    n: int,
    worth: spec_fn(W) -> int,
)
    requires
        0 <= n <= edges.len(),
        shared.len() == edges.len(),
    ensures
        sum_below(
            node_shares(edges, shared, node, n).len() as int,
            |k: int| worth(node_shares(edges, shared, node, n)[k]),
        ) == sum_below(
            n,
            |e: int|
                worth(shared[e]) * ((if edges[e].0 == node {
                    1int
                } else {
                    0
                }) + (if edges[e].1 == node {
                    1int
                } else {
                    0
                })),
        ),
        node_shares(edges, shared, node, n).len() == sum_below(
            n,
            |e: int|
                (if edges[e].0 == node {
                    1int
                } else {
                    0
                }) + (if edges[e].1 == node {
                    1int
                } else {
                    0
                }),
        ),
    decreases n,
{
    let shares = node_shares(edges, shared, node, n);
    let values = |k: int| worth(shares[k]);
    let ends = |e: int|
        (if edges[e].0 == node {
            1int
        } else {
            0
        }) + (if edges[e].1 == node {
            1int
        } else {
            0
        });
    let terms = |e: int|
        worth(shared[e]) * ((if edges[e].0 == node {
            1int
        } else {
            0
        }) + (if edges[e].1 == node {
            1int
        } else {
            0
        }));
    law_sum_below(0, values);
    law_sum_below(n - 1, ends);
    law_sum_below(n - 1, terms);
    if n > 0 {
        let earlier = node_shares(edges, shared, node, n - 1);
        let len = earlier.len() as int;
        law_node_shares(edges, shared, node, n - 1, worth);
        lemma_sum_same(len, |k: int| worth(earlier[k]), values);
        law_sum_below(len, values);
        law_sum_below(len + 1, values);
        lemma_few_times(worth(shared[n - 1]), ends(n - 1));
    }
}

/// The shares of a node come in edge order: one edge more appends its share once for each of its
/// ends at the node.
pub proof fn law_node_shares_in_edge_order<W>(
    edges: Seq<(u32, u32)>,
    shared: Seq<W>,
    node: int,
    e: int,
)
    requires
        0 <= e < edges.len(),
        shared.len() == edges.len(),
    ensures
        node_shares(edges, shared, node, 0).len() == 0,
        node_shares(edges, shared, node, e + 1) == node_shares(edges, shared, node, e) + (
        if edges[e].0 == node && edges[e].1 == node {
            seq![shared[e], shared[e]]
        } else if edges[e].0 == node || edges[e].1 == node {
            seq![shared[e]]
        } else {
            Seq::empty()
        }),
{
    assert(node_shares(edges, shared, node, e + 1) =~= node_shares(edges, shared, node, e) + (
    if edges[e].0 == node && edges[e].1 == node {
        seq![shared[e], shared[e]]
    } else if edges[e].0 == node || edges[e].1 == node {
        seq![shared[e]]
    } else {
        Seq::empty()
    }));
}

/// The addends of a node's perimeter are worth its part of the outer boundary plus the share of
/// each edge, once for each end of the edge at the node.
pub proof fn law_perimeter_addends<W>(
    boundary: Seq<W>,
    edges: Seq<(u32, u32)>,
    shared: Seq<W>,
    addends: Seq<W>,
    node: int,
    worth: spec_fn(W) -> int,
)
    requires
        0 <= node < boundary.len(),
        shared.len() == edges.len(),
        addends == seq![boundary[node]] + node_shares(edges, shared, node, edges.len() as int),
    ensures
        sum_below(addends.len() as int, |k: int| worth(addends[k])) == worth(boundary[node])
            + sum_below(
            edges.len() as int,
            |e: int|
                worth(shared[e]) * ((if edges[e].0 == node {
                    1int
                } else {
                    0
                }) + (if edges[e].1 == node {
                    1int
                } else {
                    0
                })),
        ),
        addends.len() == 1 + sum_below(
            edges.len() as int,
            |e: int|
                (if edges[e].0 == node {
                    1int
                } else {
                    0
                }) + (if edges[e].1 == node {
                    1int
                } else {
                    0
                }),
        ),
{
    let n = edges.len() as int;
    let shares = node_shares(edges, shared, node, n);
    law_node_shares(edges, shared, node, n, worth);
    lemma_sum_after_first(addends, shares, worth);
}

proof fn lemma_sum_after_first<W>(all: Seq<W>, rest: Seq<W>, worth: spec_fn(W) -> int)
    requires
        all.len() == rest.len() + 1,
        forall|k: int| 0 <= k < rest.len() ==> #[trigger] rest[k] == all[k + 1],
    ensures
        sum_below(all.len() as int, |k: int| worth(all[k])) == worth(all[0]) + sum_below(
            rest.len() as int,
            |k: int| worth(rest[k]),
        ),
    decreases rest.len(),
{
    let values = |k: int| worth(all[k]);
    let tail = |k: int| worth(rest[k]);
    let n = rest.len() as int;
    law_sum_below(n, values);
    law_sum_below(n - 1, tail);
    if n > 0 {
        let fewer = all.drop_last();
        let shorter = rest.drop_last();
        assert forall|k: int| 0 <= k < shorter.len() implies #[trigger] shorter[k] == fewer[k
            + 1] by {
            assert(rest[k] == all[k + 1]);
        }
        lemma_sum_after_first(fewer, shorter, worth);
        lemma_sum_same(n, |k: int| worth(fewer[k]), values);
        lemma_sum_same(n - 1, |k: int| worth(shorter[k]), tail);
        assert(rest[n - 1] == all[n]);
    }
}

// ---------------------------------------------------------------------------------------------
// One plan
// ---------------------------------------------------------------------------------------------

/// The postings of the first `n` nodes of a plan.
pub open spec fn node_part<W>(
    areas: Seq<W>,
    perimeters: Seq<W>,
    assignment: Seq<u16>,
    n: int,
) -> Seq<Posting<W>>
    decreases n,
{
    if n <= 0 {
        Seq::empty()
    } else {
        let district = assignment[n - 1];
        node_part(areas, perimeters, assignment, n - 1).push(
            Posting { table: AREA_TABLE, district, negative: false, value: areas[n - 1] },
        ).push(
            Posting { table: PERIMETER_TABLE, district, negative: false, value: perimeters[n - 1] },
        )
    }
}

/// The postings of the first `n` edges of a plan: each edge inside a district takes its shared
/// perimeter off.
pub open spec fn interior_part<W>(
    edges: Seq<(u32, u32)>,
    shared: Seq<W>,
    assignment: Seq<u16>,
    n: int,
) -> Seq<Posting<W>>
    decreases n,
{
    if n <= 0 {
        Seq::empty()
    } else {
        let earlier = interior_part(edges, shared, assignment, n - 1);
        let district = assignment[edges[n - 1].0 as int];
        if district == assignment[edges[n - 1].1 as int] {
            earlier.push(
                Posting { table: SHARED_TABLE, district, negative: true, value: shared[n - 1] },
            )
        } else {
            earlier
        }
    }
}

/// The postings of a plan.
pub open spec fn plan_postings<W>(
    areas: Seq<W>,
    perimeters: Seq<W>,
    edges: Seq<(u32, u32)>,
    shared: Seq<W>,
    assignment: Seq<u16>,
) -> Seq<Posting<W>> {
    node_part(areas, perimeters, assignment, assignment.len() as int) + interior_part(
        edges,
        shared,
        assignment,
        edges.len() as int,
    )
}

/// The postings of a plan.
fn post_plan<W: Copy>(
    assignment: &[u16],
    area_values: &[W],
    total_perimeter_values: &[W],
    edges: &[(u32, u32)],
    shared_perimeters: &[W],
) -> (r: Vec<Posting<W>>)
    requires
        area_values@.len() == assignment@.len(),
        total_perimeter_values@.len() == assignment@.len(),
        shared_perimeters@.len() == edges@.len(),
        forall|e: int|
            0 <= e < edges@.len() ==> (#[trigger] edges@[e]).0 < assignment@.len() && edges@[e].1
                < assignment@.len(),
    ensures
        r@ == plan_postings(
            area_values@,
            total_perimeter_values@,
            edges@,
            shared_perimeters@,
            assignment@,
        ),
{
    let mut postings: Vec<Posting<W>> = Vec::new();
    let mut node: usize = 0;
    while node < assignment.len()
        invariant
            node <= assignment@.len(),
            area_values@.len() == assignment@.len(),
            total_perimeter_values@.len() == assignment@.len(),
            postings@ == node_part(
                area_values@,
                total_perimeter_values@,
                assignment@,
                node as int,
            ),
        decreases assignment.len() - node,
    {
        let district: u16 = assignment[node];
        postings.push(
            Posting { table: AREA_TABLE, district, negative: false, value: area_values[node] },
        );
        postings.push(
            Posting {
                table: PERIMETER_TABLE,
                district,
                negative: false,
                value: total_perimeter_values[node],
            },
        );
        node += 1;
    }
    let ghost nodes = postings@;
    let mut e: usize = 0;
    while e < edges.len()
        invariant
            e <= edges@.len(),
            shared_perimeters@.len() == edges@.len(),
            forall|k: int|
                0 <= k < edges@.len() ==> (#[trigger] edges@[k]).0 < assignment@.len()
                    && edges@[k].1 < assignment@.len(),
            postings@ == nodes + interior_part(
                edges@,
                shared_perimeters@,
                assignment@,
                e as int,
            ),
        decreases edges.len() - e,
    {
        let (node_u, node_v) = edges[e];
        assert(edges@[e as int].0 < assignment@.len());
        let district_u: u16 = assignment[node_u as usize];
        let district_v: u16 = assignment[node_v as usize];
        if district_u == district_v {
            postings.push(
                Posting {
                    table: SHARED_TABLE,
                    district: district_u,
                    negative: true,
                    value: shared_perimeters[e],
                },
            );
        }
        e += 1;
    }
    postings
}

/// The postings of one plan, the dense district count, and the district labels.
pub fn polsby_popper_rows<W: Copy>(
    assignment: &[u16],
    area_values: &[W],
    total_perimeter_values: &[W],
    edges: &[(u32, u32)],
    shared_perimeters: &[W],
) -> (r: Result<(Vec<Posting<W>>, u16, u128), Error>)
    requires
        area_values@.len() == assignment@.len(),
        total_perimeter_values@.len() == assignment@.len(),
        shared_perimeters@.len() == edges@.len(),
        forall|e: int|
            0 <= e < edges@.len() ==> (#[trigger] edges@[e]).0 < assignment@.len() && edges@[e].1
                < assignment@.len(),
    ensures
        r is Ok <==> within_limit(assignment@),
        r matches Err(e) ==> reports_first_excess(e, assignment@),
        r matches Ok((postings, n_districts, observed)) ==> {
            &&& observes(observed, assignment@)
            &&& is_dense_count(n_districts, assignment@)
            &&& postings@ == plan_postings(
                area_values@,
                total_perimeter_values@,
                edges@,
                shared_perimeters@,
                assignment@,
            )
        },
{
    match observed_assignment_districts(assignment) {
        Ok((n_districts, observed)) => Ok(
            (
                post_plan(
                    assignment,
                    area_values,
                    total_perimeter_values,
                    edges,
                    shared_perimeters,
                ),
                n_districts,
                observed,
            ),
        ),
        Err(e) => Err(e),
    }
}

/// Whether district `d` is used and its perimeter is not positive.
pub open spec fn perimeter_fails(observed: u128, nonpositive: Seq<bool>, d: int) -> bool {
    has_district(observed, d) && nonpositive[d]
}

/// The first district in use whose perimeter is not positive. Districts that are not in use have
/// no perimeter and are not looked at.
pub fn first_nonpositive_district(observed: u128, nonpositive: &[bool]) -> (r: Option<usize>)
    requires
        nonpositive@.len() <= MAX_DISTRICTS,
    ensures
        match r {
            Some(d) => d < nonpositive@.len() && perimeter_fails(observed, nonpositive@, d as int)
                && forall|k: int|
                0 <= k < d ==> !#[trigger] perimeter_fails(observed, nonpositive@, k),
            None => forall|k: int|
                0 <= k < nonpositive@.len() ==> !#[trigger] perimeter_fails(
                    observed,
                    nonpositive@,
                    k,
                ),
        },
{
    let mut d: usize = 0;
    while d < nonpositive.len()
        invariant
            d <= nonpositive@.len() <= MAX_DISTRICTS,
            forall|k: int| 0 <= k < d ==> !#[trigger] perimeter_fails(observed, nonpositive@, k),
        decreases nonpositive.len() - d,
    {
        let bit: u128 = d as u128;
        if observed & (1u128 << bit) != 0 && nonpositive[d] {
            return Some(d);
        }
        d += 1;
    }
    None
}

/// A perimeter is at fault exactly when the district is in use and the perimeter is not positive.
pub proof fn law_perimeter_fails(observed: u128, nonpositive: Seq<bool>, d: u16)
    requires
        d < 128,
    ensures
        perimeter_fails(observed, nonpositive, d as int) <==> observed & (1u128 << (d as u128)) != 0
            && nonpositive[d as int],
{
    assert(d as int as u128 == d as u128);
}

/// The message for a district whose perimeter is not positive.
pub open spec fn nonpositive_text(district: nat, perimeter: Seq<char>) -> Seq<char> {
    "district "@ + decimal(district) + " has nonpositive perimeter "@ + perimeter
        + "; check the area/perimeter/shared-perimeter keys"@
}

/// The error for a district whose perimeter, printed as `perimeter`, is not positive.
pub fn nonpositive_perimeter(district: usize, perimeter: &str) -> (r: Error)
    ensures
        r.is_invalid_data(nonpositive_text(district as nat, perimeter@)),
{
    let mut message = "district ".to_owned();
    push_decimal(&mut message, district as u64);
    message.append(" has nonpositive perimeter ");
    message.append(perimeter);
    message.append("; check the area/perimeter/shared-perimeter keys");
    invalid_data(message)
}

// ---------------------------------------------------------------------------------------------
// A chain of plans
// ---------------------------------------------------------------------------------------------

/// The postings of the relabelled nodes.
pub open spec fn change_part<W>(
    areas: Seq<W>,
    perimeters: Seq<W>,
    changes: Seq<DeltaChange>,
) -> Seq<Posting<W>>
    decreases changes.len(),
{
    if changes.len() == 0 {
        Seq::empty()
    } else {
        let c = changes.last();
        let earlier = change_part(areas, perimeters, changes.drop_last());
        if c.old == c.new {
            earlier
        } else {
            let area = areas[c.node as int];
            let perimeter = perimeters[c.node as int];
            earlier.push(
                Posting { table: AREA_TABLE, district: c.old, negative: true, value: area },
            ).push(
                Posting { table: AREA_TABLE, district: c.new, negative: false, value: area },
            ).push(
                Posting {
                    table: PERIMETER_TABLE,
                    district: c.old,
                    negative: true,
                    value: perimeter,
                },
            ).push(
                Posting {
                    table: PERIMETER_TABLE,
                    district: c.new,
                    negative: false,
                    value: perimeter,
                },
            )
        }
    }
}

/// The edges at the relabelled nodes, node by node.
pub open spec fn visit_list(edges: Seq<(u32, u32)>, changes: Seq<DeltaChange>) -> Seq<usize>
    decreases changes.len(),
{
    if changes.len() == 0 {
        Seq::empty()
    } else {
        visit_list(edges, changes.drop_last()) + edge_indices(
            incident(edges, changes.last().node as int, edges.len() as int),
        )
    }
}

/// The edge indices of a list of incident edges.
pub open spec fn edge_indices(list: Seq<(u32, usize)>) -> Seq<usize> {
    Seq::new(list.len(), |i: int| list[i].1)
}

/// Each edge of `visits` where it occurs first.
pub open spec fn first_visits(visits: Seq<usize>) -> Seq<usize>
    decreases visits.len(),
{
    if visits.len() == 0 {
        Seq::empty()
    } else {
        let earlier = first_visits(visits.drop_last());
        if visits.drop_last().contains(visits.last()) {
            earlier
        } else {
            earlier.push(visits.last())
        }
    }
}

/// The postings of one edge at a relabelled node: its shared perimeter comes back where it was
/// inside a district, and goes off where it is inside one now.
pub open spec fn edge_postings<W>(
    edges: Seq<(u32, u32)>,
    shared: Seq<W>,
    before: Seq<u16>,
    after: Seq<u16>,
    e: int,
) -> Seq<Posting<W>> {
    let u = edges[e].0 as int;
    let v = edges[e].1 as int;
    let back = if before[u] == before[v] {
        seq![
            Posting {
                table: SHARED_TABLE,
                district: before[u],
                negative: false,
                value: shared[e],
            },
        ]
    } else {
        Seq::empty()
    };
    let off = if after[u] == after[v] {
        seq![
            Posting { table: SHARED_TABLE, district: after[u], negative: true, value: shared[e] },
        ]
    } else {
        Seq::empty()
    };
    back + off
}

/// The postings of a list of edges.
pub open spec fn edge_part<W>(
    edges: Seq<(u32, u32)>,
    shared: Seq<W>,
    before: Seq<u16>,
    after: Seq<u16>,
    visits: Seq<usize>,
) -> Seq<Posting<W>>
    decreases visits.len(),
{
    if visits.len() == 0 {
        Seq::empty()
    } else {
        edge_part(edges, shared, before, after, visits.drop_last()) + edge_postings(
            edges,
            shared,
            before,
            after,
            visits.last() as int,
        )
    }
}

/// The postings of a delta: the relabelled nodes, then each edge at one of them once.
pub open spec fn delta_postings<W>(
    areas: Seq<W>,
    perimeters: Seq<W>,
    edges: Seq<(u32, u32)>,
    shared: Seq<W>,
    before: Seq<u16>,
    changes: Seq<DeltaChange>,
) -> Seq<Posting<W>> {
    change_part(areas, perimeters, changes) + edge_part(
        edges,
        shared,
        before,
        applied(before, changes),
        first_visits(visit_list(edges, changes)),
    )
}

/// Areas and perimeters along a chain of plans.
///
/// The district totals are kept by the caller: `postings` says what the last seed or update adds
/// to and subtracts from them. A seed starts from zero totals.
#[derive(Debug)]
pub struct IncrementalPolsbyPopper<'g, W> {
    pub graph: &'g Graph<W>,
    pub area_values: &'g [W],
    pub total_perimeter_values: &'g [W],
    pub shared_perimeters: &'g [W],
    pub postings: Vec<Posting<W>>,
    pub presence: DistrictPresence,
    pub post_delta_labels: PostDeltaLabels,
    pub seen_edges: Vec<u64>,
    pub gen: u64,
}

impl<'g, W: Copy> IncrementalPolsbyPopper<'g, W> {
    /// Whether graph and values are those of `other`.
    pub open spec fn same_input(&self, other: Self) -> bool {
        &&& self.graph == other.graph
        &&& self.area_values == other.area_values
        &&& self.total_perimeter_values == other.total_perimeter_values
        &&& self.shared_perimeters == other.shared_perimeters
    }

    /// State for a graph with incident-edge lists.
    pub fn new(
        graph: &'g Graph<W>,
        area_values: &'g [W],
        total_perimeter_values: &'g [W],
        shared_perimeters: &'g [W],
    ) -> (r: Self)
        requires
            graph.wf(),
            graph.adjacency is Some,
            graph.node_count <= u32::MAX,
            area_values@.len() == graph.node_count,
            total_perimeter_values@.len() == graph.node_count,
            shared_perimeters@.len() == graph.edges@.len(),
        ensures
            r.wf(),
            r.patches_left() == u64::MAX - 1,
            r.graph == graph,
            r.area_values == area_values,
            r.total_perimeter_values == total_perimeter_values,
            r.shared_perimeters == shared_perimeters,
    {
        IncrementalPolsbyPopper {
            graph,
            area_values,
            total_perimeter_values,
            shared_perimeters,
            postings: Vec::new(),
            presence: DistrictPresence::new(),
            post_delta_labels: PostDeltaLabels::new(graph.node_count),
            seen_edges: vec![0u64; graph.edges.len()],
            gen: 0,
        }
    }

    /// Whether there is room for one more patch.
    pub fn has_room(&self) -> (r: bool)
        requires
            self.wf(),
        ensures
            r == (self.patches_left() > 0),
    {
        self.gen < u64::MAX - 1
    }

    /// Post the edges at one relabelled node that were not posted yet.
    fn visit_node(&mut self, before: &[u16], node: usize, Ghost(changes): Ghost<
        Seq<DeltaChange>,
    >, Ghost(earlier): Ghost<Seq<usize>>, Ghost(base): Ghost<Seq<Posting<W>>>)
        requires
            old(self).wf(),
            before@.len() == old(self).graph.node_count,
            node < before@.len(),
            old(self).post_delta_labels.holds(changes),
            applied(before@, changes).len() == before@.len(),
            forall|e: int|
                0 <= e < old(self).seen_edges@.len() ==> (#[trigger] old(self).seen_edges@[e]
                    == old(self).gen <==> earlier.contains(e as usize)),
            old(self).postings@ == base + edge_part(
                old(self).graph.edges@,
                old(self).shared_perimeters@,
                before@,
                applied(before@, changes),
                first_visits(earlier),
            ),
        ensures
            final(self).wf(),
            final(self).same_input(*old(self)),
            final(self).presence == old(self).presence,
            final(self).post_delta_labels == old(self).post_delta_labels,
            final(self).gen == old(self).gen,
            ({
                let graph = old(self).graph;
                let list = edge_indices(
                    incident(graph.edges@, node as int, graph.edges@.len() as int),
                );
                &&& forall|e: int|
                    0 <= e < final(self).seen_edges@.len() ==> (
                    #[trigger] final(self).seen_edges@[e] == final(self).gen <==> (earlier
                        + list).contains(e as usize))
                &&& final(self).postings@ == base + edge_part(
                    graph.edges@,
                    old(self).shared_perimeters@,
                    before@,
                    applied(before@, changes),
                    first_visits(earlier + list),
                )
            }),
    {
        let graph: &'g Graph<W> = self.graph;
        let ghost edges = graph.edges@;
        let ghost total = edges.len() as int;
        let ghost all = incident(edges, node as int, total);
        let ghost list = edge_indices(all);
        let ghost after = applied(before@, changes);
        let ghost shared = self.shared_perimeters@;
        let around = graph.neighbors(node);
        let edge_count: usize = graph.edges.len();
        proof {
            assert(total == edge_count);
            law_incident_edges(edges, node as int, total);
            assert(earlier + list.take(0) =~= earlier);
        }
        let mut j: usize = 0;
        while j < around.len()
            invariant
                j <= around@.len(),
                graph == self.graph,
                edges == graph.edges@,
                total == edges.len(),
                all == incident(edges, node as int, total),
                around@ == all,
                list == edge_indices(all),
                after == applied(before@, changes),
                after.len() == before@.len(),
                shared == self.shared_perimeters@,
                self.wf(),
                self.same_input(*old(self)),
                self.presence == old(self).presence,
                self.post_delta_labels == old(self).post_delta_labels,
                self.gen == old(self).gen,
                before@.len() == graph.node_count,
                self.post_delta_labels.holds(changes),
                forall|k: int| 0 <= k < all.len() ==> (#[trigger] all[k]).1 < total,
                forall|e: int|
                    0 <= e < self.seen_edges@.len() ==> (#[trigger] self.seen_edges@[e] == self.gen
                        <==> (earlier + list.take(j as int)).contains(e as usize)),
                self.postings@ == base + edge_part(
                    edges,
                    shared,
                    before@,
                    after,
                    first_visits(earlier + list.take(j as int)),
                ),
            decreases around.len() - j,
        {
            let edge_index: usize = around[j].1;
            let ghost visited = earlier + list.take(j as int);
            let ghost next = earlier + list.take(j + 1);
            proof {
                assert(all[j as int].1 < total);
                assert(list[j as int] == edge_index);
                assert(next =~= visited.push(edge_index));
                assert(next.drop_last() =~= visited);
                assert forall|e: usize| next.contains(e) <==> visited.contains(e) || e
                    == edge_index by {
                    if visited.contains(e) {
                        let i = choose|i: int| 0 <= i < visited.len() && visited[i] == e;
                        assert(next[i] == e);
                    }
                    if e == edge_index {
                        assert(next[next.len() - 1] == e);
                    }
                }
            }
            if self.seen_edges[edge_index] == self.gen {
                proof {
                    assert(visited.contains(edge_index));
                }
                j += 1;
                continue;
            }
            proof {
                assert(!visited.contains(edge_index));
            }
            self.seen_edges.set(edge_index, self.gen);
            let (u, v) = graph.edges[edge_index];
            assert(graph.edges@[edge_index as int].0 < graph.node_count);
            let before_u: u16 = before[u as usize];
            let before_v: u16 = before[v as usize];
            let after_u: u16 = self.post_delta_labels.label(before, u as usize);
            let after_v: u16 = self.post_delta_labels.label(before, v as usize);
            let value: W = self.shared_perimeters[edge_index];
            let ghost posted_before = self.postings@;
            if before_u == before_v {
                self.postings.push(
                    Posting { table: SHARED_TABLE, district: before_u, negative: false, value },
                );
            }
            if after_u == after_v {
                self.postings.push(
                    Posting { table: SHARED_TABLE, district: after_u, negative: true, value },
                );
            }
            proof {
                let extra = edge_postings(edges, shared, before@, after, edge_index as int);
                assert(self.postings@ =~= posted_before + extra);
                let seen = first_visits(visited);
                assert(first_visits(next) == seen.push(edge_index));
                assert(seen.push(edge_index).drop_last() =~= seen);
                assert(self.postings@ =~= base + edge_part(
                    edges,
                    shared,
                    before@,
                    after,
                    first_visits(next),
                ));
            }
            j += 1;
        }
        proof {
            assert(list.take(list.len() as int) =~= list);
        }
    }
}

impl<'g, W: Copy> IncrementalTwoDeltaMetric for IncrementalPolsbyPopper<'g, W> {
    open spec fn node_count(&self) -> nat {
        self.graph.node_count as nat
    }

    open spec fn wf(&self) -> bool {
        &&& self.graph.wf()
        &&& self.graph.adjacency is Some
        &&& self.graph.node_count <= u32::MAX
        &&& self.area_values@.len() == self.graph.node_count
        &&& self.total_perimeter_values@.len() == self.graph.node_count
        &&& self.shared_perimeters@.len() == self.graph.edges@.len()
        &&& self.post_delta_labels.wf()
        &&& self.post_delta_labels.node_count() == self.graph.node_count
        &&& self.gen < u64::MAX
        &&& self.post_delta_labels.generation() == self.gen + 1
        &&& self.seen_edges@.len() == self.graph.edges@.len()
        &&& forall|e: int|
            0 <= e < self.seen_edges@.len() ==> #[trigger] self.seen_edges@[e] <= self.gen
    }

    open spec fn patches_left(&self) -> nat {
        (u64::MAX - 1 - self.gen) as nat
    }

    open spec fn tracks(&self, assignment: Seq<u16>) -> bool {
        self.presence.tracks(assignment)
    }

    open spec fn seeded(&self, before: Self, assignment: Seq<u16>) -> bool {
        &&& self.same_input(before)
        &&& self.postings@ == plan_postings(
            self.area_values@,
            self.total_perimeter_values@,
            self.graph.edges@,
            self.shared_perimeters@,
            assignment,
        )
    }

    open spec fn patched(
        &self,
        before: Self,
        assignment: Seq<u16>,
        changes: Seq<DeltaChange>,
    ) -> bool {
        &&& self.same_input(before)
        &&& self.postings@ == delta_postings(
            self.area_values@,
            self.total_perimeter_values@,
            self.graph.edges@,
            self.shared_perimeters@,
            assignment,
            changes,
        )
    }

    open spec fn labels(&self) -> u128 {
        self.presence.observed
    }

    fn seed(&mut self, assignment: &[u16]) -> (r: Result<(), Error>) {
        self.presence = DistrictPresence::new();
        let mut node: usize = 0;
        proof {
            assert(assignment@.take(0) =~= Seq::empty());
        }
        while node < assignment.len()
            invariant
                node <= assignment@.len(),
                self.wf(),
                self.same_input(*old(self)),
                self.gen == old(self).gen,
                assignment@.len() == self.node_count(),
                self.presence.tracks(assignment@.take(node as int)),
                forall|i: int| 0 <= i < node ==> #[trigger] assignment@[i] < MAX_DISTRICTS,
            decreases assignment.len() - node,
        {
            let district: u16 = assignment[node];
            match self.presence.add(district, Ghost(assignment@.take(node as int))) {
                Ok(()) => {},
                Err(e) => {
                    assert(assignment@[node as int] >= MAX_DISTRICTS);
                    return Err(e);
                },
            }
            proof {
                assert(assignment@.take(node as int).push(district) =~= assignment@.take(node + 1));
            }
            node += 1;
        }
        proof {
            assert(assignment@.take(assignment@.len() as int) =~= assignment@);
        }
        self.postings = post_plan(
            assignment,
            self.area_values,
            self.total_perimeter_values,
            self.graph.edges.as_slice(),
            self.shared_perimeters,
        );
        Ok(())
    }

    fn update_delta(&mut self, before: &[u16], changes: &[DeltaChange]) -> (r: Result<(), Error>) {
        match self.post_changes(before, changes) {
            Ok(()) => {},
            Err(e) => {
                return Err(e);
            },
        }
        proof {
            lemma_applicable_nodes(before@, changes@);
        }
        self.post_delta_labels.refresh(changes);
        self.gen = self.gen + 1;
        let ghost base = self.postings@;
        let ghost after = applied(before@, changes@);
        proof {
            assert(visit_list(self.graph.edges@, changes@.take(0)) =~= Seq::empty()) by {
                assert(changes@.take(0) =~= Seq::empty());
            }
            assert(base + edge_part(
                self.graph.edges@,
                self.shared_perimeters@,
                before@,
                after,
                first_visits(visit_list(self.graph.edges@, changes@.take(0))),
            ) =~= base);
        }
        let mut c: usize = 0;
        while c < changes.len()
            invariant
                c <= changes@.len(),
                self.wf(),
                self.same_input(*old(self)),
                self.gen == old(self).gen + 1,
                before@.len() == self.node_count(),
                forall|k: int|
                    0 <= k < changes@.len() ==> (#[trigger] changes@[k]).node < before@.len(),
                after == applied(before@, changes@),
                after.len() == before@.len(),
                self.presence.tracks(after),
                self.post_delta_labels.holds(changes@),
                forall|e: int|
                    0 <= e < self.seen_edges@.len() ==> (#[trigger] self.seen_edges@[e] == self.gen
                        <==> visit_list(self.graph.edges@, changes@.take(c as int)).contains(
                        e as usize,
                    )),
                self.postings@ == base + edge_part(
                    self.graph.edges@,
                    self.shared_perimeters@,
                    before@,
                    after,
                    first_visits(visit_list(self.graph.edges@, changes@.take(c as int))),
                ),
            decreases changes.len() - c,
        {
            let change = changes[c];
            assert(changes@[c as int].node < before@.len());
            let ghost earlier = visit_list(self.graph.edges@, changes@.take(c as int));
            self.visit_node(before, change.node, Ghost(changes@), Ghost(earlier), Ghost(base));
            proof {
                assert(changes@.take(c + 1).drop_last() =~= changes@.take(c as int));
                assert(changes@.take(c + 1).last() == change);
            }
            c += 1;
        }
        proof {
            assert(changes@.take(changes@.len() as int) =~= changes@);
        }
        Ok(())
    }

    fn observed(&self) -> (r: u128) {
        self.presence.observed
    }
}

impl<'g, W: Copy> IncrementalPolsbyPopper<'g, W> {
    /// Post the relabelled nodes.
    fn post_changes(&mut self, before: &[u16], changes: &[DeltaChange]) -> (r: Result<(), Error>)
        requires
            old(self).wf(),
            old(self).presence.tracks(before@),
            before@.len() == old(self).graph.node_count,
            within_limit(before@),
            applicable(before@, changes@),
        ensures
            final(self).wf(),
            final(self).same_input(*old(self)),
            final(self).gen == old(self).gen,
            final(self).seen_edges == old(self).seen_edges,
            final(self).post_delta_labels == old(self).post_delta_labels,
            r is Ok <==> new_labels_fit(changes@),
            r matches Err(e) ==> reports_new_label(changes@, e),
            r is Ok ==> final(self).presence.tracks(applied(before@, changes@)) && final(self).postings@ == change_part(
                old(self).area_values@,
                old(self).total_perimeter_values@,
                changes@,
            ),
    {
        self.postings = Vec::new();
        let mut c: usize = 0;
        proof {
            assert(changes@.take(0) =~= Seq::empty());
        }
        while c < changes.len()
            invariant
                c <= changes@.len(),
                self.wf(),
                self.same_input(*old(self)),
                self.gen == old(self).gen,
                self.seen_edges == old(self).seen_edges,
                self.post_delta_labels == old(self).post_delta_labels,
                before@.len() == self.graph.node_count,
                within_limit(before@),
                applicable(before@, changes@),
                forall|j: int| 0 <= j < c ==> (#[trigger] changes@[j]).new < MAX_DISTRICTS,
                self.presence.tracks(applied(before@, changes@.take(c as int))),
                within_limit(applied(before@, changes@.take(c as int))),
                applied(before@, changes@.take(c as int)).len() == before@.len(),
                self.postings@ == change_part(
                    self.area_values@,
                    self.total_perimeter_values@,
                    changes@.take(c as int),
                ),
            decreases changes.len() - c,
        {
            let change = changes[c];
            let ghost cur = applied(before@, changes@.take(c as int));
            proof {
                lemma_applicable_at(before@, changes@, c as int);
                assert(changes@.take(c + 1).drop_last() =~= changes@.take(c as int));
                assert(changes@.take(c + 1).last() == change);
            }
            match self.presence.relabel(
                change.old,
                change.new,
                Ghost(cur),
                Ghost(change.node as int),
            ) {
                Ok(()) => {},
                Err(e) => {
                    proof {
                        assert(cur[change.node as int] < MAX_DISTRICTS);
                        assert(changes@[c as int].new >= MAX_DISTRICTS);
                    }
                    return Err(e);
                },
            }
            if change.old != change.new {
                let area: W = self.area_values[change.node];
                let perimeter: W = self.total_perimeter_values[change.node];
                self.postings.push(
                    Posting { table: AREA_TABLE, district: change.old, negative: true, value: area },
                );
                self.postings.push(
                    Posting {
                        table: AREA_TABLE,
                        district: change.new,
                        negative: false,
                        value: area,
                    },
                );
                self.postings.push(
                    Posting {
                        table: PERIMETER_TABLE,
                        district: change.old,
                        negative: true,
                        value: perimeter,
                    },
                );
                self.postings.push(
                    Posting {
                        table: PERIMETER_TABLE,
                        district: change.new,
                        negative: false,
                        value: perimeter,
                    },
                );
            }
            c += 1;
        }
        proof {
            assert(changes@.take(changes@.len() as int) =~= changes@);
        }
        Ok(())
    }
}

// ---------------------------------------------------------------------------------------------
// What the postings add up to
// ---------------------------------------------------------------------------------------------

/// The worth of what edge `e` shares inside `district`.
pub open spec fn inside<W>(
    edges: Seq<(u32, u32)>,
    shared: Seq<W>,
    assignment: Seq<u16>,
    district: int,
    e: int,
    worth: spec_fn(W) -> int,
) -> int {
    if assignment[edges[e].0 as int] == district && assignment[edges[e].1 as int] == district {
        worth(shared[e])
    } else {
        0
    }
}

/// The worth of what the first `n` edges share inside `district`.
pub open spec fn interior_sum<W>(
    edges: Seq<(u32, u32)>,
    shared: Seq<W>,
    assignment: Seq<u16>,
    district: int,
    n: int,
    worth: spec_fn(W) -> int,
) -> int
    decreases n,
{
    if n <= 0 {
        0
    } else {
        interior_sum(edges, shared, assignment, district, n - 1, worth) + inside(
            edges,
            shared,
            assignment,
            district,
            n - 1,
            worth,
        )
    }
}

proof fn lemma_node_part_balance<W>(
    areas: Seq<W>,
    perimeters: Seq<W>,
    assignment: Seq<u16>,
    n: int,
    district: int,
    worth: spec_fn(W) -> int,
)
    requires
        0 <= n,
    ensures
        balance(
            node_part(areas, perimeters, assignment, n),
            AREA_TABLE as int,
            district,
            worth,
        ) == district_sum(areas, assignment, district, n, worth),
        balance(
            node_part(areas, perimeters, assignment, n),
            PERIMETER_TABLE as int,
            district,
            worth,
        ) == district_sum(perimeters, assignment, district, n, worth),
        balance(
            node_part(areas, perimeters, assignment, n),
            SHARED_TABLE as int,
            district,
            worth,
        ) == 0,
    decreases n,
{
    if n > 0 {
        lemma_node_part_balance(areas, perimeters, assignment, n - 1, district, worth);
        let earlier = node_part(areas, perimeters, assignment, n - 1);
        let label = assignment[n - 1];
        let first = Posting {
            table: AREA_TABLE,
            district: label,
            negative: false,
            value: areas[n - 1],
        };
        let second = Posting {
            table: PERIMETER_TABLE,
            district: label,
            negative: false,
            value: perimeters[n - 1],
        };
        assert forall|t: int| #[trigger]
            balance(earlier.push(first).push(second), t, district, worth) == balance(
                earlier,
                t,
                district,
                worth,
            ) + posted(first, t, district, worth) + posted(second, t, district, worth) by {
            lemma_balance_push(earlier, first, t, district, worth);
            lemma_balance_push(earlier.push(first), second, t, district, worth);
        }
    }
}

proof fn lemma_interior_part_balance<W>(
    edges: Seq<(u32, u32)>,
    shared: Seq<W>,
    assignment: Seq<u16>,
    n: int,
    district: int,
    worth: spec_fn(W) -> int,
)
    requires
        0 <= n,
    ensures
        balance(
            interior_part(edges, shared, assignment, n),
            SHARED_TABLE as int,
            district,
            worth,
        ) == -interior_sum(edges, shared, assignment, district, n, worth),
        forall|t: int|
            t != SHARED_TABLE ==> #[trigger] balance(
                interior_part(edges, shared, assignment, n),
                t,
                district,
                worth,
            ) == 0,
    decreases n,
{
    if n > 0 {
        lemma_interior_part_balance(edges, shared, assignment, n - 1, district, worth);
        let earlier = interior_part(edges, shared, assignment, n - 1);
        let label = assignment[edges[n - 1].0 as int];
        if label == assignment[edges[n - 1].1 as int] {
            let p = Posting {
                table: SHARED_TABLE,
                district: label,
                negative: true,
                value: shared[n - 1],
            };
            assert forall|t: int| #[trigger] balance(earlier.push(p), t, district, worth)
                == balance(earlier, t, district, worth) + posted(p, t, district, worth) by {
                lemma_balance_push(earlier, p, t, district, worth);
            }
        }
    }
}

/// The postings of a plan add up to the areas and perimeters of its nodes by district, less what
/// is shared along edges inside a district.
pub proof fn law_plan_postings<W>(
    areas: Seq<W>,
    perimeters: Seq<W>,
    edges: Seq<(u32, u32)>,
    shared: Seq<W>,
    assignment: Seq<u16>,
    district: int,
    worth: spec_fn(W) -> int,
)
    ensures
        balance(
            plan_postings(areas, perimeters, edges, shared, assignment),
            AREA_TABLE as int,
            district,
            worth,
        ) == district_sum(areas, assignment, district, assignment.len() as int, worth),
        balance(
            plan_postings(areas, perimeters, edges, shared, assignment),
            PERIMETER_TABLE as int,
            district,
            worth,
        ) == district_sum(perimeters, assignment, district, assignment.len() as int, worth),
        balance(
            plan_postings(areas, perimeters, edges, shared, assignment),
            SHARED_TABLE as int,
            district,
            worth,
        ) == -interior_sum(edges, shared, assignment, district, edges.len() as int, worth),
{
    let nodes = node_part(areas, perimeters, assignment, assignment.len() as int);
    let inner = interior_part(edges, shared, assignment, edges.len() as int);
    lemma_node_part_balance(
        areas,
        perimeters,
        assignment,
        assignment.len() as int,
        district,
        worth,
    );
    lemma_interior_part_balance(edges, shared, assignment, edges.len() as int, district, worth);
    assert forall|t: int| #[trigger] balance(nodes + inner, t, district, worth) == balance(
        nodes,
        t,
        district,
        worth,
    ) + balance(inner, t, district, worth) by {
        lemma_balance_add(nodes, inner, t, district, worth);
    }
}

/// The totals of a plan, read off the nodes and edges: a district's area and perimeter tables hold
/// the worth of the nodes with its label, and its shared table loses the worth of every edge with
/// both ends in it.
pub proof fn law_plan_totals<W>(
    areas: Seq<W>,
    perimeters: Seq<W>,
    edges: Seq<(u32, u32)>,
    shared: Seq<W>,
    assignment: Seq<u16>,
    district: int,
    worth: spec_fn(W) -> int,
)
    ensures
        balance(
            plan_postings(areas, perimeters, edges, shared, assignment),
            0,
            district,
            worth,
        ) == sum_below(
            assignment.len() as int,
            |i: int|
                if assignment[i] == district {
                    worth(areas[i])
                } else {
                    0
                },
        ),
        balance(
            plan_postings(areas, perimeters, edges, shared, assignment),
            1,
            district,
            worth,
        ) == sum_below(
            assignment.len() as int,
            |i: int|
                if assignment[i] == district {
                    worth(perimeters[i])
                } else {
                    0
                },
        ),
        balance(
            plan_postings(areas, perimeters, edges, shared, assignment),
            2,
            district,
            worth,
        ) == -sum_below(
            edges.len() as int,
            |e: int|
                if assignment[edges[e].0 as int] == district && assignment[edges[e].1 as int]
                    == district {
                    worth(shared[e])
                } else {
                    0
                },
        ),
{
    law_plan_postings(areas, perimeters, edges, shared, assignment, district, worth);
    law_district_sum(areas, assignment, district, assignment.len() as int, worth);
    law_district_sum(perimeters, assignment, district, assignment.len() as int, worth);
    lemma_interior_sum(edges, shared, assignment, district, edges.len() as int, worth);
}

proof fn lemma_interior_sum<W>(
    edges: Seq<(u32, u32)>,
    shared: Seq<W>,
    assignment: Seq<u16>,
    district: int,
    n: int,
    worth: spec_fn(W) -> int,
)
    requires
        0 <= n,
    ensures
        interior_sum(edges, shared, assignment, district, n, worth) == sum_below(
            n,
            |e: int|
                if assignment[edges[e].0 as int] == district && assignment[edges[e].1 as int]
                    == district {
                    worth(shared[e])
                } else {
                    0
                },
        ),
    decreases n,
{
    let term = |e: int|
        if assignment[edges[e].0 as int] == district && assignment[edges[e].1 as int]
            == district {
            worth(shared[e])
        } else {
            0
        };
    law_sum_below(n - 1, term);
    if n > 0 {
        lemma_interior_sum(edges, shared, assignment, district, n - 1, worth);
    }
}

/// The postings of a plan, one by one: for each node in turn its area and its perimeter, and then for
/// each edge with both ends in one district, in edge order, its share off that district.
pub proof fn law_plan_postings_in_order<W>(
    areas: Seq<W>,
    perimeters: Seq<W>,
    edges: Seq<(u32, u32)>,
    shared: Seq<W>,
    assignment: Seq<u16>,
    i: int,
)
    ensures
        ({
            let n = assignment.len() as int;
            let all = plan_postings(areas, perimeters, edges, shared, assignment);
            &&& 0 <= i < n ==> all[2 * i] == (Posting {
                table: 0,
                district: assignment[i],
                negative: false,
                value: areas[i],
            })
            &&& 0 <= i < n ==> all[2 * i + 1] == (Posting {
                table: 1,
                district: assignment[i],
                negative: false,
                value: perimeters[i],
            })
            &&& all.skip(2 * n) == listed(
                edges.len() as int,
                |e: int| assignment[edges[e].0 as int] == assignment[edges[e].1 as int],
            ).map_values(
                |e: int|
                    Posting {
                        table: 2,
                        district: assignment[edges[e].0 as int],
                        negative: true,
                        value: shared[e],
                    },
            )
        }),
{
    let n = assignment.len() as int;
    let nodes = node_part(areas, perimeters, assignment, n);
    let inner = interior_part(edges, shared, assignment, edges.len() as int);
    lemma_node_part_at(areas, perimeters, assignment, n, i);
    lemma_interior_part_listed(edges, shared, assignment, edges.len() as int);
    assert((nodes + inner).skip(2 * n) =~= inner);
}

proof fn lemma_node_part_at<W>(
    areas: Seq<W>,
    perimeters: Seq<W>,
    assignment: Seq<u16>,
    n: int,
    i: int,
)
    requires
        0 <= n,
    ensures
        node_part(areas, perimeters, assignment, n).len() == 2 * n,
        0 <= i < n ==> node_part(areas, perimeters, assignment, n)[2 * i] == (Posting {
            table: AREA_TABLE,
            district: assignment[i],
            negative: false,
            value: areas[i],
        }),
        0 <= i < n ==> node_part(areas, perimeters, assignment, n)[2 * i + 1] == (Posting {
            table: PERIMETER_TABLE,
            district: assignment[i],
            negative: false,
            value: perimeters[i],
        }),
    decreases n,
{
    if n > 0 {
        lemma_node_part_at(areas, perimeters, assignment, n - 1, i);
    }
}

proof fn lemma_interior_part_listed<W>(
    edges: Seq<(u32, u32)>,
    shared: Seq<W>,
    assignment: Seq<u16>,
    n: int,
)
    requires
        0 <= n,
    ensures
        interior_part(edges, shared, assignment, n) == listed(
            n,
            |e: int| assignment[edges[e].0 as int] == assignment[edges[e].1 as int],
        ).map_values(
            |e: int|
                Posting {
                    table: 2,
                    district: assignment[edges[e].0 as int],
                    negative: true,
                    value: shared[e],
                },
        ),
    decreases n,
{
    let inner = |e: int| assignment[edges[e].0 as int] == assignment[edges[e].1 as int];
    law_listed(n - 1, inner);
    law_listed(0, inner);
    if n > 0 {
        lemma_interior_part_listed(edges, shared, assignment, n - 1);
    }
    assert(interior_part(edges, shared, assignment, n) =~= listed(n, inner).map_values(
        |e: int|
            Posting {
                table: 2,
                district: assignment[edges[e].0 as int],
                negative: true,
                value: shared[e],
            },
    ));
}

/// How many ends of an edge lie at a node.
spec fn ends_at(edge: (u32, u32), node: int) -> int {
    (if edge.0 == node {
        1int
    } else {
        0
    }) + (if edge.1 == node {
        1int
    } else {
        0
    })
}

/// What one edge contributes to the nodes of a district, over all nodes.
proof fn lemma_edge_over_nodes(
    edge: (u32, u32),
    value: int,
    assignment: Seq<u16>,
    district: int,
)
    requires
        edge.0 < assignment.len(),
        edge.1 < assignment.len(),
    ensures
        sum_below(
            assignment.len() as int,
            |i: int|
                if assignment[i] == district {
                    value * ends_at(edge, i)
                } else {
                    0
                },
        ) == (if assignment[edge.0 as int] == district {
            value
        } else {
            0
        }) + (if assignment[edge.1 as int] == district {
            value
        } else {
            0
        }),
{
    let n = assignment.len() as int;
    let u = edge.0 as int;
    let v = edge.1 as int;
    let at_u = if assignment[u] == district {
        value
    } else {
        0
    };
    let at_v = if assignment[v] == district {
        value
    } else {
        0
    };
    let first = |i: int|
        if i == u {
            at_u
        } else {
            0
        };
    let second = |i: int|
        if i == v {
            at_v
        } else {
            0
        };
    let both = |i: int| first(i) + second(i);
    let given = |i: int|
        if assignment[i] == district {
            value * ends_at(edge, i)
        } else {
            0
        };
    assert forall|i: int| 0 <= i < n implies #[trigger] given(i) == both(i) by {
        lemma_few_times(value, ends_at(edge, i));
    }
    lemma_sum_same(n, given, both);
    lemma_sum_add(n, first, second);
    lemma_sum_at(n, u, at_u);
    lemma_sum_at(n, v, at_v);
}

/// What the first `m` edges contribute to the nodes of a district, over all nodes.
proof fn lemma_edges_over_nodes<W>(
    boundary: Seq<W>,
    edges: Seq<(u32, u32)>,
    shared: Seq<W>,
    assignment: Seq<u16>,
    district: int,
    m: int,
    worth: spec_fn(W) -> int,
)
    requires
        0 <= m <= edges.len(),
        forall|e: int|
            0 <= e < edges.len() ==> (#[trigger] edges[e]).0 < assignment.len() && edges[e].1
                < assignment.len(),
    ensures
        sum_below(
            assignment.len() as int,
            |i: int|
                if assignment[i] == district {
                    worth(boundary[i]) + sum_below(
                        m,
                        |e: int| worth(shared[e]) * ends_at(edges[e], i),
                    )
                } else {
                    0
                },
        ) == sum_below(
            assignment.len() as int,
            |i: int|
                if assignment[i] == district {
                    worth(boundary[i])
                } else {
                    0
                },
        ) + sum_below(
            m,
            |e: int|
                (if assignment[edges[e].0 as int] == district {
                    worth(shared[e])
                } else {
                    0
                }) + (if assignment[edges[e].1 as int] == district {
                    worth(shared[e])
                } else {
                    0
                }),
        ),
    decreases m,
{
    let n = assignment.len() as int;
    let whole = |i: int|
        if assignment[i] == district {
            worth(boundary[i]) + sum_below(m, |e: int| worth(shared[e]) * ends_at(edges[e], i))
        } else {
            0
        };
    let outer = |i: int|
        if assignment[i] == district {
            worth(boundary[i])
        } else {
            0
        };
    let by_edge = |e: int|
        (if assignment[edges[e].0 as int] == district {
            worth(shared[e])
        } else {
            0
        }) + (if assignment[edges[e].1 as int] == district {
            worth(shared[e])
        } else {
            0
        });
    law_sum_below(m - 1, by_edge);
    if m == 0 {
        assert forall|i: int| 0 <= i < n implies #[trigger] whole(i) == outer(i) by {
            law_sum_below(0, |e: int| worth(shared[e]) * ends_at(edges[e], i));
        }
        lemma_sum_same(n, whole, outer);
    } else {
        lemma_edges_over_nodes(boundary, edges, shared, assignment, district, m - 1, worth);
        let fewer = |i: int|
            if assignment[i] == district {
                worth(boundary[i]) + sum_below(
                    m - 1,
                    |e: int| worth(shared[e]) * ends_at(edges[e], i),
                )
            } else {
                0
            };
        let last = |i: int|
            if assignment[i] == district {
                worth(shared[m - 1]) * ends_at(edges[m - 1], i)
            } else {
                0
            };
        let both = |i: int| fewer(i) + last(i);
        assert forall|i: int| 0 <= i < n implies #[trigger] whole(i) == both(i) by {
            law_sum_below(m - 1, |e: int| worth(shared[e]) * ends_at(edges[e], i));
        }
        lemma_sum_same(n, whole, both);
        lemma_sum_add(n, fewer, last);
        assert(edges[m - 1].0 < assignment.len() && edges[m - 1].1 < assignment.len());
        lemma_edge_over_nodes(edges[m - 1], worth(shared[m - 1]), assignment, district);
    }
}

/// The perimeter of a district is its outline. Let every node's perimeter be its part of the outer
/// boundary plus the shares of its edges. Then the perimeter table, with the shared table counted
/// twice, gives a district its part of the outer boundary plus the shares of the edges that have
/// exactly one end in it.
pub proof fn law_district_perimeter_is_its_outline<W>(
    areas: Seq<W>,
    boundary: Seq<W>,
    perimeters: Seq<W>,
    edges: Seq<(u32, u32)>,
    shared: Seq<W>,
    assignment: Seq<u16>,
    district: int,
    worth: spec_fn(W) -> int,
)
    requires
        forall|e: int|
            0 <= e < edges.len() ==> (#[trigger] edges[e]).0 < assignment.len() && edges[e].1
                < assignment.len(),
        forall|i: int|
            0 <= i < assignment.len() ==> worth(#[trigger] perimeters[i]) == worth(boundary[i])
                + sum_below(
                edges.len() as int,
                |e: int|
                    worth(shared[e]) * ((if edges[e].0 == i {
                        1int
                    } else {
                        0
                    }) + (if edges[e].1 == i {
                        1int
                    } else {
                        0
                    })),
            ),
    ensures
        balance(
            plan_postings(areas, perimeters, edges, shared, assignment),
            1,
            district,
            worth,
        ) + 2 * balance(
            plan_postings(areas, perimeters, edges, shared, assignment),
            2,
            district,
            worth,
        ) == sum_below(
            assignment.len() as int,
            |i: int|
                if assignment[i] == district {
                    worth(boundary[i])
                } else {
                    0
                },
        ) + sum_below(
            edges.len() as int,
            |e: int|
                if (assignment[edges[e].0 as int] == district) != (assignment[edges[e].1 as int]
                    == district) {
                    worth(shared[e])
                } else {
                    0
                },
        ),
{
    let n = assignment.len() as int;
    let m = edges.len() as int;
    law_plan_totals(areas, perimeters, edges, shared, assignment, district, worth);
    lemma_edges_over_nodes(boundary, edges, shared, assignment, district, m, worth);
    let posted_here = |i: int|
        if assignment[i] == district {
            worth(perimeters[i])
        } else {
            0
        };
    let whole = |i: int|
        if assignment[i] == district {
            worth(boundary[i]) + sum_below(m, |e: int| worth(shared[e]) * ends_at(edges[e], i))
        } else {
            0
        };
    assert forall|i: int| 0 <= i < n implies #[trigger] posted_here(i) == whole(i) by {
        let given = |e: int|
            worth(shared[e]) * ((if edges[e].0 == i {
                1int
            } else {
                0
            }) + (if edges[e].1 == i {
                1int
            } else {
                0
            }));
        assert(worth(perimeters[i]) == worth(boundary[i]) + sum_below(m, given));
        let counted = |e: int| worth(shared[e]) * ends_at(edges[e], i);
        lemma_sum_same(m, given, counted);
    }
    lemma_sum_same(n, posted_here, whole);
    let by_edge = |e: int|
        (if assignment[edges[e].0 as int] == district {
            worth(shared[e])
        } else {
            0
        }) + (if assignment[edges[e].1 as int] == district {
            worth(shared[e])
        } else {
            0
        });
    let inner = |e: int|
        if assignment[edges[e].0 as int] == district && assignment[edges[e].1 as int]
            == district {
            worth(shared[e])
        } else {
            0
        };
    let outline = |e: int|
        if (assignment[edges[e].0 as int] == district) != (assignment[edges[e].1 as int]
            == district) {
            worth(shared[e])
        } else {
            0
        };
    let twice = |e: int| inner(e) + inner(e);
    let split = |e: int| outline(e) + twice(e);
    lemma_sum_same(m, by_edge, split);
    lemma_sum_add(m, outline, twice);
    lemma_sum_add(m, inner, inner);
}

proof fn lemma_change_part_balance<W>(
    areas: Seq<W>,
    perimeters: Seq<W>,
    changes: Seq<DeltaChange>,
    district: int,
    worth: spec_fn(W) -> int,
)
    ensures
        balance(
            change_part(areas, perimeters, changes),
            AREA_TABLE as int,
            district,
            worth,
        ) == moved(areas, changes, district, worth),
        balance(
            change_part(areas, perimeters, changes),
            PERIMETER_TABLE as int,
            district,
            worth,
        ) == moved(perimeters, changes, district, worth),
        balance(
            change_part(areas, perimeters, changes),
            SHARED_TABLE as int,
            district,
            worth,
        ) == 0,
    decreases changes.len(),
{
    if changes.len() > 0 {
        lemma_change_part_balance(areas, perimeters, changes.drop_last(), district, worth);
        let c = changes.last();
        if c.old != c.new {
            let earlier = change_part(areas, perimeters, changes.drop_last());
            let area = areas[c.node as int];
            let perimeter = perimeters[c.node as int];
            let p1 = Posting { table: AREA_TABLE, district: c.old, negative: true, value: area };
            let p2 = Posting { table: AREA_TABLE, district: c.new, negative: false, value: area };
            let p3 = Posting {
                table: PERIMETER_TABLE,
                district: c.old,
                negative: true,
                value: perimeter,
            };
            let p4 = Posting {
                table: PERIMETER_TABLE,
                district: c.new,
                negative: false,
                value: perimeter,
            };
            assert forall|t: int| #[trigger]
                balance(earlier.push(p1).push(p2).push(p3).push(p4), t, district, worth)
                    == balance(earlier, t, district, worth) + posted(p1, t, district, worth)
                    + posted(p2, t, district, worth) + posted(p3, t, district, worth) + posted(
                    p4,
                    t,
                    district,
                    worth,
                ) by {
                lemma_balance_push(earlier, p1, t, district, worth);
                lemma_balance_push(earlier.push(p1), p2, t, district, worth);
                lemma_balance_push(earlier.push(p1).push(p2), p3, t, district, worth);
                lemma_balance_push(earlier.push(p1).push(p2).push(p3), p4, t, district, worth);
            }
        }
    }
}

/// What the shared perimeter of edge `e` inside `district` loses from `before` to `after`.
spec fn lost<W>(
    edges: Seq<(u32, u32)>,
    shared: Seq<W>,
    before: Seq<u16>,
    after: Seq<u16>,
    district: int,
    e: int,
    worth: spec_fn(W) -> int,
) -> int {
    inside(edges, shared, before, district, e, worth) - inside(
        edges,
        shared,
        after,
        district,
        e,
        worth,
    )
}

/// The sum of [`lost`] over the first `n` edges that are not in `visits`.
spec fn lost_outside<W>(
    edges: Seq<(u32, u32)>,
    shared: Seq<W>,
    before: Seq<u16>,
    after: Seq<u16>,
    district: int,
    visits: Seq<usize>,
    n: int,
    worth: spec_fn(W) -> int,
) -> int
    decreases n,
{
    if n <= 0 {
        0
    } else {
        lost_outside(edges, shared, before, after, district, visits, n - 1, worth) + if visits.contains(
            (n - 1) as usize,
        ) {
            0
        } else {
            lost(edges, shared, before, after, district, n - 1, worth)
        }
    }
}

proof fn lemma_lost_outside_push<W>(
    edges: Seq<(u32, u32)>,
    shared: Seq<W>,
    before: Seq<u16>,
    after: Seq<u16>,
    district: int,
    visits: Seq<usize>,
    e: usize,
    n: int,
    worth: spec_fn(W) -> int,
)
    requires
        n <= usize::MAX,
        !visits.contains(e),
    ensures
        lost_outside(edges, shared, before, after, district, visits.push(e), n, worth) + (if e < n {
            lost(edges, shared, before, after, district, e as int, worth)
        } else {
            0
        }) == lost_outside(edges, shared, before, after, district, visits, n, worth),
    decreases n,
{
    if n > 0 {
        lemma_lost_outside_push(edges, shared, before, after, district, visits, e, n - 1, worth);
        let x = (n - 1) as usize;
        assert(visits.push(e).contains(x) <==> visits.contains(x) || x == e) by {
            if visits.contains(x) {
                let i = choose|i: int| 0 <= i < visits.len() && visits[i] == x;
                assert(visits.push(e)[i] == x);
            }
            if x == e {
                assert(visits.push(e)[visits.len() as int] == x);
            }
        }
    }
}

proof fn lemma_edge_part_balance<W>(
    edges: Seq<(u32, u32)>,
    shared: Seq<W>,
    before: Seq<u16>,
    after: Seq<u16>,
    visits: Seq<usize>,
    district: int,
    worth: spec_fn(W) -> int,
)
    requires
        edges.len() <= usize::MAX,
        visits.no_duplicates(),
        forall|i: int| 0 <= i < visits.len() ==> #[trigger] visits[i] < edges.len(),
    ensures
        balance(
            edge_part(edges, shared, before, after, visits),
            SHARED_TABLE as int,
            district,
            worth,
        ) + lost_outside(
            edges,
            shared,
            before,
            after,
            district,
            visits,
            edges.len() as int,
            worth,
        ) == lost_outside(
            edges,
            shared,
            before,
            after,
            district,
            Seq::empty(),
            edges.len() as int,
            worth,
        ),
        forall|t: int|
            t != SHARED_TABLE ==> #[trigger] balance(
                edge_part(edges, shared, before, after, visits),
                t,
                district,
                worth,
            ) == 0,
    decreases visits.len(),
{
    if visits.len() == 0 {
        assert(visits =~= Seq::empty());
    } else {
        let shorter = visits.drop_last();
        let e = visits.last();
        assert(visits[visits.len() - 1] == e);
        assert(shorter.push(e) =~= visits);
        lemma_edge_part_balance(edges, shared, before, after, shorter, district, worth);
        lemma_lost_outside_push(
            edges,
            shared,
            before,
            after,
            district,
            shorter,
            e,
            edges.len() as int,
            worth,
        );
        let earlier = edge_part(edges, shared, before, after, shorter);
        let extra = edge_postings(edges, shared, before, after, e as int);
        assert forall|t: int| #[trigger] balance(earlier + extra, t, district, worth) == balance(
            earlier,
            t,
            district,
            worth,
        ) + balance(extra, t, district, worth) by {
            lemma_balance_add(earlier, extra, t, district, worth);
        }
        lemma_edge_postings_balance(edges, shared, before, after, e as int, district, worth);
    }
}

proof fn lemma_edge_postings_balance<W>(
    edges: Seq<(u32, u32)>,
    shared: Seq<W>,
    before: Seq<u16>,
    after: Seq<u16>,
    e: int,
    district: int,
    worth: spec_fn(W) -> int,
)
    ensures
        balance(
            edge_postings(edges, shared, before, after, e),
            SHARED_TABLE as int,
            district,
            worth,
        ) == lost(edges, shared, before, after, district, e, worth),
        forall|t: int|
            t != SHARED_TABLE ==> #[trigger] balance(
                edge_postings(edges, shared, before, after, e),
                t,
                district,
                worth,
            ) == 0,
{
    let u = edges[e].0 as int;
    let v = edges[e].1 as int;
    let p = Posting {
        table: SHARED_TABLE,
        district: before[u],
        negative: false,
        value: shared[e],
    };
    let q = Posting { table: SHARED_TABLE, district: after[u], negative: true, value: shared[e] };
    let none = Seq::<Posting<W>>::empty();
    let all = edge_postings(edges, shared, before, after, e);
    assert forall|t: int| #[trigger] balance(all, t, district, worth) == (if before[u]
        == before[v] {
        posted(p, t, district, worth)
    } else {
        0
    }) + (if after[u] == after[v] {
        posted(q, t, district, worth)
    } else {
        0
    }) by {
        lemma_balance_push(none, p, t, district, worth);
        lemma_balance_push(none, q, t, district, worth);
        lemma_balance_push(none.push(p), q, t, district, worth);
        if before[u] == before[v] && after[u] == after[v] {
            assert(all =~= none.push(p).push(q));
        } else if before[u] == before[v] {
            assert(all =~= none.push(p));
        } else if after[u] == after[v] {
            assert(all =~= none.push(q));
        } else {
            assert(all =~= none);
        }
    }
}

proof fn lemma_first_visits(visits: Seq<usize>)
    ensures
        first_visits(visits).no_duplicates(),
        forall|e: usize| #[trigger] first_visits(visits).contains(e) <==> visits.contains(e),
    decreases visits.len(),
{
    if visits.len() > 0 {
        let shorter = visits.drop_last();
        let last = visits.last();
        lemma_first_visits(shorter);
        let earlier = first_visits(shorter);
        let all = first_visits(visits);
        assert forall|e: usize| #[trigger] all.contains(e) <==> visits.contains(e) by {
            assert(earlier.contains(e) <==> shorter.contains(e));
            if visits.contains(e) {
                let i = choose|i: int| 0 <= i < visits.len() && visits[i] == e;
                if i < shorter.len() {
                    assert(shorter[i] == e);
                }
            }
            if shorter.contains(e) {
                let i = choose|i: int| 0 <= i < shorter.len() && shorter[i] == e;
                assert(visits[i] == e);
            }
            assert(visits[visits.len() - 1] == last);
            if earlier.contains(e) {
                let i = choose|i: int| 0 <= i < earlier.len() && earlier[i] == e;
                assert(all[i] == e);
            }
            if !shorter.contains(last) {
                assert(all[all.len() - 1] == last);
            }
            if all.contains(e) {
                let i = choose|i: int| 0 <= i < all.len() && all[i] == e;
                if i < earlier.len() {
                    assert(earlier[i] == e);
                }
            }
        }
        if !shorter.contains(last) {
            assert(!earlier.contains(last));
            assert forall|i: int, j: int|
                0 <= i < all.len() && 0 <= j < all.len() && i != j implies all[i] != all[j] by {
                if i < earlier.len() && j < earlier.len() {
                } else if i < earlier.len() {
                    assert(earlier[i] == all[i]);
                    assert(earlier.contains(earlier[i]));
                } else {
                    assert(earlier[j] == all[j]);
                    assert(earlier.contains(earlier[j]));
                }
            }
        }
    }
}

proof fn lemma_visit_list(edges: Seq<(u32, u32)>, changes: Seq<DeltaChange>)
    requires
        edges.len() <= usize::MAX,
    ensures
        forall|i: int|
            0 <= i < visit_list(edges, changes).len() ==> #[trigger] visit_list(edges, changes)[i]
                < edges.len(),
        forall|e: int, k: int|
            #![trigger edges[e], changes[k]]
            0 <= e < edges.len() && 0 <= k < changes.len() && (edges[e].0 == changes[k].node
                || edges[e].1 == changes[k].node) ==> visit_list(edges, changes).contains(
                e as usize,
            ),
    decreases changes.len(),
{
    if changes.len() > 0 {
        let shorter = changes.drop_last();
        lemma_visit_list(edges, shorter);
        let node = changes.last().node as int;
        let m = edges.len() as int;
        law_incident_edges(edges, node, m);
        let earlier = visit_list(edges, shorter);
        let all = visit_list(edges, changes);
        assert forall|i: int| 0 <= i < all.len() implies #[trigger] all[i] < edges.len() by {
            if i < earlier.len() {
                assert(all[i] == earlier[i]);
            } else {
                assert(all[i] == incident(edges, node, m)[i - earlier.len()].1);
            }
        }
        assert forall|e: int, k: int|
            #![trigger edges[e], changes[k]]
            0 <= e < edges.len() && 0 <= k < changes.len() && (edges[e].0 == changes[k].node
                || edges[e].1 == changes[k].node) implies all.contains(e as usize) by {
            if k < shorter.len() {
                assert(shorter[k] == changes[k]);
                let i = choose|i: int| 0 <= i < earlier.len() && earlier[i] == e as usize;
                assert(all[i] == e as usize);
            } else {
                let i = choose|i: int|
                    0 <= i < incident(edges, node, m).len() && (#[trigger] incident(
                        edges,
                        node,
                        m,
                    )[i]).1 == e;
                assert(all[earlier.len() + i] == e as usize);
            }
        }
    }
}

/// A node that no change names keeps its label.
proof fn lemma_unnamed_label(before: Seq<u16>, changes: Seq<DeltaChange>, n: int)
    requires
        0 <= n < before.len(),
        forall|k: int|
            0 <= k < changes.len() ==> (#[trigger] changes[k]).node < before.len()
                && changes[k].node != n,
    ensures
        applied(before, changes)[n] == before[n],
    decreases changes.len(),
{
    if changes.len() > 0 {
        let shorter = changes.drop_last();
        assert forall|k: int| 0 <= k < shorter.len() implies (#[trigger] shorter[k]).node
            < before.len() && shorter[k].node != n by {
            assert(shorter[k] == changes[k]);
        }
        lemma_unnamed_label(before, shorter, n);
        lemma_applied_len(before, shorter);
        assert(changes[changes.len() - 1].node != n);
    }
}

proof fn lemma_nothing_lost_outside<W>(
    edges: Seq<(u32, u32)>,
    shared: Seq<W>,
    before: Seq<u16>,
    changes: Seq<DeltaChange>,
    district: int,
    n: int,
    worth: spec_fn(W) -> int,
)
    requires
        applicable(before, changes),
        0 <= n <= edges.len() <= usize::MAX,
        forall|e: int|
            0 <= e < edges.len() ==> (#[trigger] edges[e]).0 < before.len() && edges[e].1
                < before.len(),
    ensures
        lost_outside(
            edges,
            shared,
            before,
            applied(before, changes),
            district,
            first_visits(visit_list(edges, changes)),
            n,
            worth,
        ) == 0,
    decreases n,
{
    if n > 0 {
        lemma_nothing_lost_outside(edges, shared, before, changes, district, n - 1, worth);
        let visits = first_visits(visit_list(edges, changes));
        let e = n - 1;
        lemma_first_visits(visit_list(edges, changes));
        lemma_visit_list(edges, changes);
        if !visits.contains(e as usize) {
            lemma_applicable_nodes(before, changes);
            assert(edges[e].0 < before.len() && edges[e].1 < before.len());
            assert forall|k: int| 0 <= k < changes.len() implies (#[trigger] changes[k]).node
                != edges[e].0 && changes[k].node != edges[e].1 by {
                if changes[k].node == edges[e].0 || changes[k].node == edges[e].1 {
                    assert(visit_list(edges, changes).contains(e as usize));
                }
            }
            lemma_unnamed_label(before, changes, edges[e].0 as int);
            lemma_unnamed_label(before, changes, edges[e].1 as int);
        }
    }
}

proof fn lemma_all_lost<W>(
    edges: Seq<(u32, u32)>,
    shared: Seq<W>,
    before: Seq<u16>,
    after: Seq<u16>,
    district: int,
    n: int,
    worth: spec_fn(W) -> int,
)
    ensures
        lost_outside(edges, shared, before, after, district, Seq::empty(), n, worth)
            == interior_sum(edges, shared, before, district, n, worth) - interior_sum(
            edges,
            shared,
            after,
            district,
            n,
            worth,
        ),
    decreases n,
{
    if n > 0 {
        lemma_all_lost(edges, shared, before, after, district, n - 1, worth);
    }
}

/// Patching a plan's areas and perimeters with the postings of a delta gives those of the plan
/// after the delta, as a seed from that plan would: an edge between relabelled nodes is neither
/// missed nor counted twice.
pub proof fn law_patched_perimeters_are_recomputed_perimeters<W>(
    areas: Seq<W>,
    perimeters: Seq<W>,
    edges: Seq<(u32, u32)>,
    shared: Seq<W>,
    before: Seq<u16>,
    changes: Seq<DeltaChange>,
    district: int,
    table: usize,
    worth: spec_fn(W) -> int,
)
    requires
        applicable(before, changes),
        edges.len() <= usize::MAX,
        forall|e: int|
            0 <= e < edges.len() ==> (#[trigger] edges[e]).0 < before.len() && edges[e].1
                < before.len(),
        table == AREA_TABLE || table == PERIMETER_TABLE || table == SHARED_TABLE,
    ensures
        balance(
            plan_postings(areas, perimeters, edges, shared, applied(before, changes)),
            table as int,
            district,
            worth,
        ) == balance(
            plan_postings(areas, perimeters, edges, shared, before),
            table as int,
            district,
            worth,
        ) + balance(
            delta_postings(areas, perimeters, edges, shared, before, changes),
            table as int,
            district,
            worth,
        ),
{
    let after = applied(before, changes);
    let n = changes.len() as int;
    let visits = first_visits(visit_list(edges, changes));
    assert(changes.take(n) =~= changes);
    lemma_applicable_nodes(before, changes);
    law_plan_postings(areas, perimeters, edges, shared, before, district, worth);
    law_plan_postings(areas, perimeters, edges, shared, after, district, worth);
    lemma_district_sum_applied(areas, before, changes, n, district, worth);
    lemma_district_sum_applied(perimeters, before, changes, n, district, worth);
    lemma_change_part_balance(areas, perimeters, changes, district, worth);
    lemma_first_visits(visit_list(edges, changes));
    lemma_visit_list(edges, changes);
    assert forall|i: int| 0 <= i < visits.len() implies #[trigger] visits[i] < edges.len() by {
        assert(visits.contains(visits[i]));
        let list = visit_list(edges, changes);
        let j = choose|j: int| 0 <= j < list.len() && list[j] == visits[i];
        assert(list[j] < edges.len());
    }
    lemma_edge_part_balance(edges, shared, before, after, visits, district, worth);
    lemma_nothing_lost_outside(
        edges,
        shared,
        before,
        changes,
        district,
        edges.len() as int,
        worth,
    );
    lemma_all_lost(edges, shared, before, after, district, edges.len() as int, worth);
    lemma_balance_add(
        change_part(areas, perimeters, changes),
        edge_part(edges, shared, before, after, visits),
        table as int,
        district,
        worth,
    );
}

/// The postings of a delta, one by one: each relabelled node in turn goes with its area, then with its
/// perimeter, from its old district to its new one; a node that keeps its label posts nothing. Then
/// come the edges at relabelled nodes, each once.
pub proof fn law_delta_postings_in_order<W>(
    areas: Seq<W>,
    perimeters: Seq<W>,
    changes: Seq<DeltaChange>,
    c: DeltaChange,
    edges: Seq<(u32, u32)>,
)
    requires
        edges.len() <= usize::MAX,
    ensures
        change_part(areas, perimeters, Seq::empty()).len() == 0,
        change_part(areas, perimeters, changes.push(c)) == change_part(areas, perimeters, changes)
            + (if c.old == c.new {
            Seq::empty()
        } else {
            seq![
                Posting {
                    table: 0,
                    district: c.old,
                    negative: true,
                    value: areas[c.node as int],
                },
                Posting {
                    table: 0,
                    district: c.new,
                    negative: false,
                    value: areas[c.node as int],
                },
                Posting {
                    table: 1,
                    district: c.old,
                    negative: true,
                    value: perimeters[c.node as int],
                },
                Posting {
                    table: 1,
                    district: c.new,
                    negative: false,
                    value: perimeters[c.node as int],
                },
            ]
        }),
        first_visits(visit_list(edges, changes)).no_duplicates(),
        forall|e: usize| #[trigger]
            first_visits(visit_list(edges, changes)).contains(e) <==> e < edges.len() && exists|k: int|
                0 <= k < changes.len() && (edges[e as int].0 == (#[trigger] changes[k]).node
                    || edges[e as int].1 == changes[k].node),
{
    assert(changes.push(c).drop_last() =~= changes);
    assert(change_part(areas, perimeters, changes.push(c)) =~= change_part(
        areas,
        perimeters,
        changes,
    ) + (if c.old == c.new {
        Seq::empty()
    } else {
        seq![
            Posting { table: 0, district: c.old, negative: true, value: areas[c.node as int] },
            Posting { table: 0, district: c.new, negative: false, value: areas[c.node as int] },
            Posting { table: 1, district: c.old, negative: true, value: perimeters[c.node as int] },
            Posting {
                table: 1,
                district: c.new,
                negative: false,
                value: perimeters[c.node as int],
            },
        ]
    }));
    let list = visit_list(edges, changes);
    lemma_first_visits(list);
    lemma_visited(edges, changes);
    assert forall|e: usize| #[trigger] first_visits(list).contains(e) <==> e < edges.len() && exists|
        k: int,
    |
        0 <= k < changes.len() && (edges[e as int].0 == (#[trigger] changes[k]).node
            || edges[e as int].1 == changes[k].node) by {
        assert(first_visits(list).contains(e) <==> list.contains(e));
    }
}

proof fn lemma_visited(edges: Seq<(u32, u32)>, changes: Seq<DeltaChange>)
    requires
        edges.len() <= usize::MAX,
    ensures
        forall|e: usize| #[trigger]
            visit_list(edges, changes).contains(e) <==> e < edges.len() && exists|k: int|
                0 <= k < changes.len() && (edges[e as int].0 == (#[trigger] changes[k]).node
                    || edges[e as int].1 == changes[k].node),
    decreases changes.len(),
{
    let list = visit_list(edges, changes);
    if changes.len() > 0 {
        let shorter = changes.drop_last();
        let last = changes[changes.len() - 1];
        lemma_visited(edges, shorter);
        let before = visit_list(edges, shorter);
        let at = incident(edges, last.node as int, edges.len() as int);
        let here = edge_indices(at);
        law_incident_edges(edges, last.node as int, edges.len() as int);
        assert(list == before + here);
        assert forall|e: usize| #[trigger] list.contains(e) <==> e < edges.len() && exists|k: int|
            0 <= k < changes.len() && (edges[e as int].0 == (#[trigger] changes[k]).node
                || edges[e as int].1 == changes[k].node) by {
            assert(here.contains(e) <==> e < edges.len() && (edges[e as int].0 == last.node
                || edges[e as int].1 == last.node)) by {
                if here.contains(e) {
                    let k = choose|k: int| 0 <= k < here.len() && here[k] == e;
                    assert(at[k].1 == e);
                    assert(edges[e as int] == edges[e as int]);
                }
                if e < edges.len() && (edges[e as int].0 == last.node || edges[e as int].1
                    == last.node) {
                    let k = choose|k: int| 0 <= k < at.len() && (#[trigger] at[k]).1 == e;
                    assert(here[k] == e);
                }
            }
            assert(list.contains(e) <==> before.contains(e) || here.contains(e)) by {
                if list.contains(e) {
                    let k = choose|k: int| 0 <= k < list.len() && list[k] == e;
                    if k < before.len() {
                        assert(before[k] == e);
                    } else {
                        assert(here[k - before.len()] == e);
                    }
                }
                if before.contains(e) {
                    let k = choose|k: int| 0 <= k < before.len() && before[k] == e;
                    assert(list[k] == e);
                }
                if here.contains(e) {
                    let k = choose|k: int| 0 <= k < here.len() && here[k] == e;
                    assert(list[before.len() + k] == e);
                }
            }
            if before.contains(e) {
                let k = choose|k: int|
                    0 <= k < shorter.len() && (edges[e as int].0 == (#[trigger] shorter[k]).node
                        || edges[e as int].1 == shorter[k].node);
                assert(changes[k] == shorter[k]);
            }
            if e < edges.len() && exists|k: int|
                0 <= k < changes.len() && (edges[e as int].0 == (#[trigger] changes[k]).node
                    || edges[e as int].1 == changes[k].node) {
                let k = choose|k: int|
                    0 <= k < changes.len() && (edges[e as int].0 == (#[trigger] changes[k]).node
                        || edges[e as int].1 == changes[k].node);
                if k < shorter.len() {
                    assert(shorter[k] == changes[k]);
                }
            }
        }
    }
}

} // verus!
