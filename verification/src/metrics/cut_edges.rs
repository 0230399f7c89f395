//! Cut edges.
use crate::district::{
    has_district, lemma_empty_mask, observe_district, observes, reports_first_excess, within_limit,
    MAX_DISTRICTS,
};
use crate::error::Error;
use crate::graph::Graph;
use crate::metrics::counts::{indices, law_indices, law_listed, listed};
use vstd::prelude::*;

verus! {

/// The cut of a plan: how many edges join two districts, or the weights of those edges in edge
/// order, for the caller to add up.
#[derive(Debug)]
pub enum CutValue<W> {
    Count(u64),
    Weights(Vec<W>),
}

/// Whether edge `e` joins two districts.
pub open spec fn is_cut(edges: Seq<(u32, u32)>, assignment: Seq<u16>, e: int) -> bool {
    assignment[edges[e].0 as int] != assignment[edges[e].1 as int]
}

/// The indices of the cut edges among the first `n`, in edge order.
pub open spec fn cut_among(edges: Seq<(u32, u32)>, assignment: Seq<u16>, n: int) -> Seq<int>
    decreases n,
{
    if n <= 0 {
        Seq::empty()
    } else if is_cut(edges, assignment, n - 1) {
        cut_among(edges, assignment, n - 1).push(n - 1)
    } else {
        cut_among(edges, assignment, n - 1)
    }
}

/// The labels at the ends of the first `n` edges, edge by edge.
pub open spec fn end_labels(edges: Seq<(u32, u32)>, assignment: Seq<u16>, n: int) -> Seq<u16>
    decreases n,
{
    if n <= 0 {
        Seq::empty()
    } else {
        end_labels(edges, assignment, n - 1).push(assignment[edges[n - 1].0 as int]).push(
            assignment[edges[n - 1].1 as int],
        )
    }
}

/// An edge is listed as cut exactly when the plan gives its two ends different labels. The list is
/// in edge order and names no edge twice, so it is as long as there are such edges.
pub proof fn law_cut_edges_join_different_labels(
    edges: Seq<(u32, u32)>,
    assignment: Seq<u16>,
    n: int,
)
    requires
        0 <= n <= edges.len(),
    ensures
        forall|e: int| #[trigger]
            cut_among(edges, assignment, n).contains(e) <==> 0 <= e < n
                && assignment[edges[e].0 as int] != assignment[edges[e].1 as int],
        forall|i: int, j: int|
            0 <= i < j < cut_among(edges, assignment, n).len() ==> #[trigger] cut_among(
                edges,
                assignment,
                n,
            )[i] < #[trigger] cut_among(edges, assignment, n)[j],
        cut_among(edges, assignment, n).len() == Set::new(
            |e: int|
                0 <= e < n && assignment[edges[e].0 as int] != assignment[edges[e].1 as int],
        ).len(),
    decreases n,
{
    let cut = cut_among(edges, assignment, n);
    let differs = |e: int| assignment[edges[e].0 as int] != assignment[edges[e].1 as int];
    assert(Set::new(
        |e: int| 0 <= e < n && assignment[edges[e].0 as int] != assignment[edges[e].1 as int],
    ) =~= indices(n, differs));
    law_indices(n, differs);
    if n > 0 {
        let before = cut_among(edges, assignment, n - 1);
        law_cut_edges_join_different_labels(edges, assignment, n - 1);
        law_indices(n - 1, differs);
        assert(Set::new(
            |e: int|
                0 <= e < n - 1 && assignment[edges[e].0 as int] != assignment[edges[e].1 as int],
        ) =~= indices(n - 1, differs));
        assert forall|e: int| #[trigger] cut.contains(e) <==> 0 <= e < n && differs(e) by {
            assert(before.contains(e) <==> 0 <= e < n - 1 && differs(e));
            if before.contains(e) {
                let k = choose|k: int| 0 <= k < before.len() && before[k] == e;
                assert(cut[k] == e);
            }
            if e == n - 1 && differs(e) {
                assert(cut[before.len() as int] == e);
            }
            if cut.contains(e) {
                let k = choose|k: int| 0 <= k < cut.len() && cut[k] == e;
                if k < before.len() {
                    assert(before[k] == e);
                }
            }
        }
        assert forall|i: int, j: int| 0 <= i < j < cut.len() implies #[trigger] cut[i]
            < #[trigger] cut[j] by {
            assert(before[i] == cut[i]);
            assert(before.contains(before[i]));
            if j < before.len() {
                assert(before[j] == cut[j]);
            }
        }
    }
}

/// The cut edges are the indices of the edges whose ends have different labels, in edge order.
pub proof fn law_cut_edges_listed(edges: Seq<(u32, u32)>, assignment: Seq<u16>, n: int)
    requires
        0 <= n <= edges.len(),
    ensures
        cut_among(edges, assignment, n) == listed(
            n,
            |e: int| assignment[edges[e].0 as int] != assignment[edges[e].1 as int],
        ),
    decreases n,
{
    let differs = |e: int| assignment[edges[e].0 as int] != assignment[edges[e].1 as int];
    if n > 0 {
        law_cut_edges_listed(edges, assignment, n - 1);
        law_listed(n - 1, differs);
    } else {
        law_listed(0, differs);
        assert(listed(0, differs) =~= Seq::empty());
    }
}

/// Every edge contributes the labels of its two ends, edge by edge: a label is listed exactly when
/// some edge ends at a node with that label.
pub proof fn law_end_labels(edges: Seq<(u32, u32)>, assignment: Seq<u16>, n: int)
    requires
        0 <= n <= edges.len(),
    ensures
        end_labels(edges, assignment, n).len() == 2 * n,
        forall|e: int|
            #![trigger edges[e]]
            0 <= e < n ==> end_labels(edges, assignment, n)[2 * e]
                == assignment[edges[e].0 as int] && end_labels(edges, assignment, n)[2 * e + 1]
                == assignment[edges[e].1 as int],
        forall|x: u16| #[trigger]
            end_labels(edges, assignment, n).contains(x) <==> exists|e: int|
                0 <= e < n && (assignment[(#[trigger] edges[e]).0 as int] == x
                    || assignment[edges[e].1 as int] == x),
    decreases n,
{
    if n > 0 {
        law_end_labels(edges, assignment, n - 1);
    }
    let labels = end_labels(edges, assignment, n);
    assert forall|e: int| #![trigger edges[e]] 0 <= e < n implies labels[2 * e]
        == assignment[edges[e].0 as int] && labels[2 * e + 1]
        == assignment[edges[e].1 as int] by {
        let shorter = end_labels(edges, assignment, n - 1);
        if e < n - 1 {
            assert(shorter[2 * e] == labels[2 * e] && shorter[2 * e + 1] == labels[2 * e + 1]);
        }
    }
    assert forall|x: u16| #[trigger] labels.contains(x) <==> exists|e: int|
        0 <= e < n && (assignment[(#[trigger] edges[e]).0 as int] == x
            || assignment[edges[e].1 as int] == x) by {
        if labels.contains(x) {
            let k = choose|k: int| 0 <= k < labels.len() && labels[k] == x;
            let e = k / 2;
            assert(k == 2 * e || k == 2 * e + 1);
            assert(0 <= e < n && edges[e] == edges[e]);
        }
        if exists|e: int|
            0 <= e < n && (assignment[(#[trigger] edges[e]).0 as int] == x
                || assignment[edges[e].1 as int] == x) {
            let e = choose|e: int|
                0 <= e < n && (assignment[(#[trigger] edges[e]).0 as int] == x
                    || assignment[edges[e].1 as int] == x);
            assert(labels[2 * e] == x || labels[2 * e + 1] == x);
        }
    }
}

/// Renaming the districts one-to-one cuts the same edges.
pub proof fn law_cut_is_label_invariant(
    edges: Seq<(u32, u32)>,
    assignment: Seq<u16>,
    rename: spec_fn(u16) -> u16,
    n: int,
)
    requires
        0 <= n <= edges.len(),
        forall|e: int|
            0 <= e < edges.len() ==> (#[trigger] edges[e]).0 < assignment.len() && edges[e].1
                < assignment.len(),
        forall|a: u16, b: u16| #![trigger rename(a), rename(b)] rename(a) == rename(b) ==> a == b,
    ensures
        cut_among(edges, assignment.map_values(rename), n) == cut_among(edges, assignment, n),
    decreases n,
{
    if n > 0 {
        law_cut_is_label_invariant(edges, assignment, rename, n - 1);
        assert(edges[n - 1].0 < assignment.len() && edges[n - 1].1 < assignment.len());
    }
}

/// A plan with a single district cuts nothing.
pub proof fn law_one_district_cuts_nothing(
    edges: Seq<(u32, u32)>,
    assignment: Seq<u16>,
    n: int,
)
    requires
        0 <= n <= edges.len(),
        forall|e: int|
            0 <= e < edges.len() ==> (#[trigger] edges[e]).0 < assignment.len() && edges[e].1
                < assignment.len(),
        forall|i: int, j: int|
            0 <= i < assignment.len() && 0 <= j < assignment.len() ==> assignment[i]
                == assignment[j],
    ensures
        cut_among(edges, assignment, n).len() == 0,
    decreases n,
{
    if n > 0 {
        law_one_district_cuts_nothing(edges, assignment, n - 1);
        assert(edges[n - 1].0 < assignment.len() && edges[n - 1].1 < assignment.len());
    }
}

proof fn lemma_end_labels(edges: Seq<(u32, u32)>, assignment: Seq<u16>, m: int, n: int)
    requires
        0 <= m <= n,
    ensures
        end_labels(edges, assignment, n).len() == 2 * n,
        end_labels(edges, assignment, m).len() == 2 * m,
        end_labels(edges, assignment, n).take(2 * m) == end_labels(edges, assignment, m),
    decreases n,
{
    if m < n {
        lemma_end_labels(edges, assignment, m, n - 1);
        let shorter = end_labels(edges, assignment, n - 1);
        let all = end_labels(edges, assignment, n);
        assert(all.take(2 * m) =~= shorter.take(2 * m));
    } else {
        lemma_end_labels_len(edges, assignment, n);
        assert(end_labels(edges, assignment, n).take(2 * m) =~= end_labels(edges, assignment, m));
    }
}

proof fn lemma_end_labels_len(edges: Seq<(u32, u32)>, assignment: Seq<u16>, n: int)
    requires
        0 <= n,
    ensures
        end_labels(edges, assignment, n).len() == 2 * n,
    decreases n,
{
    if n > 0 {
        lemma_end_labels_len(edges, assignment, n - 1);
    }
}

/// Fold the labels at both ends of an edge into the label set.
fn observe_ends(observed: &mut u128, district_u: u16, district_v: u16, Ghost(labels): Ghost<
    Seq<u16>,
>) -> (r: Result<(), Error>)
    requires
        observes(*old(observed), labels),
        within_limit(labels),
    ensures
        r is Ok <==> district_u < MAX_DISTRICTS && district_v < MAX_DISTRICTS,
        r is Ok ==> observes(*final(observed), labels.push(district_u).push(district_v)),
        r matches Err(e) ==> reports_first_excess(e, labels.push(district_u).push(district_v)),
{
    let ghost all = labels.push(district_u).push(district_v);
    let ghost start = *observed;
    match observe_district(observed, district_u) {
        Ok(()) => {},
        Err(e) => {
            proof {
                assert(all[labels.len() as int] == district_u);
                assert forall|j: int| 0 <= j < labels.len() implies #[trigger] all[j]
                    < MAX_DISTRICTS by {
                    assert(all[j] == labels[j]);
                }
            }
            return Err(e);
        },
    }
    let ghost middle = *observed;
    match observe_district(observed, district_v) {
        Ok(()) => {},
        Err(e) => {
            proof {
                assert(all[(labels.len() + 1) as int] == district_v);
                assert forall|j: int| 0 <= j < labels.len() + 1 implies #[trigger] all[j]
                    < MAX_DISTRICTS by {
                    if j < labels.len() {
                        assert(all[j] == labels[j]);
                    }
                }
            }
            return Err(e);
        },
    }
    proof {
        assert forall|d: int| #[trigger] has_district(*observed, d) <==> exists|i: int|
            0 <= i < all.len() && #[trigger] all[i] == d by {
            assert(has_district(*observed, d) <==> has_district(middle, d) || d == district_v);
            assert(has_district(middle, d) <==> has_district(start, d) || d == district_u);
            if has_district(start, d) {
                let i = choose|i: int| 0 <= i < labels.len() && #[trigger] labels[i] == d;
                assert(all[i] == d);
            }
            if d == district_u {
                assert(all[labels.len() as int] == d);
            }
            if d == district_v {
                assert(all[(labels.len() + 1) as int] == d);
            }
            if exists|i: int| 0 <= i < all.len() && #[trigger] all[i] == d {
                let i = choose|i: int| 0 <= i < all.len() && #[trigger] all[i] == d;
                if i < labels.len() {
                    assert(labels[i] == d);
                }
            }
        }
    }
    Ok(())
}

/// Cut edges of one plan, and the labels that touch an edge.
///
/// The labels are read off the edge ends, so a node without edges does not show in them.
pub fn cut_edges<W: Copy>(graph: &Graph<W>, assignment: &[u16]) -> (r: Result<
    (CutValue<W>, u128),
    Error,
>)
    requires
        graph.edges_wf(),
        graph.node_count <= assignment@.len(),
    ensures
        r is Ok <==> within_limit(
            end_labels(graph.edges@, assignment@, graph.edges@.len() as int),
        ),
        r matches Err(e) ==> reports_first_excess(
            e,
            end_labels(graph.edges@, assignment@, graph.edges@.len() as int),
        ),
        r matches Ok((value, observed)) ==> {
            let cut = cut_among(graph.edges@, assignment@, graph.edges@.len() as int);
            &&& observes(
                observed,
                end_labels(graph.edges@, assignment@, graph.edges@.len() as int),
            )
            &&& match (graph.edge_weights, value) {
                (None, CutValue::Count(count)) => count == cut.len(),
                (Some(weights), CutValue::Weights(addends)) => addends@ == Seq::new(
                    cut.len(),
                    |i: int| weights@[cut[i]],
                ),
                _ => false,
            }
        },
        r matches Ok((CutValue::Weights(addends), _)) ==> addends@ == listed(
            graph.edges@.len() as int,
            |e: int|
                assignment@[graph.edges@[e].0 as int] != assignment@[graph.edges@[e].1 as int],
        ).map_values(|e: int| graph.edge_weights->0@[e]),
        r matches Ok((CutValue::Count(count), _)) ==> count == Set::new(
            |e: int|
                0 <= e < graph.edges@.len() && assignment@[graph.edges@[e].0 as int]
                    != assignment@[graph.edges@[e].1 as int],
        ).len(),
{
    let ghost edges = graph.edges@;
    let ghost total = edges.len() as int;
    let ghost labels = end_labels(edges, assignment@, total);
    let mut observed: u128 = 0;
    let mut count: u64 = 0;
    let mut addends: Vec<W> = Vec::new();
    proof {
        lemma_empty_mask();
    }
    let mut e: usize = 0;
    while e < graph.edges.len()
        invariant
            e <= graph.edges@.len(),
            graph.edges_wf(),
            graph.node_count <= assignment@.len(),
            edges == graph.edges@,
            total == edges.len(),
            labels == end_labels(edges, assignment@, total),
            within_limit(end_labels(edges, assignment@, e as int)),
            observes(observed, end_labels(edges, assignment@, e as int)),
            count == cut_among(edges, assignment@, e as int).len(),
            count <= e,
            forall|i: int|
                0 <= i < count ==> 0 <= #[trigger] cut_among(edges, assignment@, e as int)[i] < e,
            graph.edge_weights is None ==> addends@.len() == 0,
            graph.edge_weights matches Some(weights) ==> addends@ == Seq::new(
                cut_among(edges, assignment@, e as int).len(),
                |i: int| weights@[cut_among(edges, assignment@, e as int)[i]],
            ),
        decreases graph.edges.len() - e,
    {
        let (node_u, node_v) = graph.edges[e];
        assert(edges[e as int].0 < graph.node_count && edges[e as int].1 < graph.node_count);
        let district_u: u16 = assignment[node_u as usize];
        let district_v: u16 = assignment[node_v as usize];
        let ghost so_far = end_labels(edges, assignment@, e as int);
        let ghost cut_before = cut_among(edges, assignment@, e as int);
        match observe_ends(&mut observed, district_u, district_v, Ghost(so_far)) {
            Ok(()) => {},
            Err(error) => {
                proof {
                    lemma_end_labels(edges, assignment@, e + 1, total);
                    let next = end_labels(edges, assignment@, e + 1);
                    let i = choose|i: int|
                        0 <= i < next.len() && #[trigger] next[i] >= MAX_DISTRICTS && (forall|
                            j: int,
                        |
                            0 <= j < i ==> #[trigger] next[j] < MAX_DISTRICTS) && error
                            == (Error::DistrictLimitExceeded { id: next[i], limit: MAX_DISTRICTS });
                    assert(labels.take(2 * (e + 1)) == next);
                    assert(labels[i] == next[i]);
                    assert forall|j: int| 0 <= j < i implies #[trigger] labels[j]
                        < MAX_DISTRICTS by {
                        assert(labels[j] == next[j]);
                    }
                }
                return Err(error);
            },
        }
        if district_u != district_v {
            count += 1;
            if let Some(weights) = &graph.edge_weights {
                addends.push(weights[e]);
            }
        }
        proof {
            let next = end_labels(edges, assignment@, e + 1);
            assert forall|i: int| 0 <= i < next.len() implies #[trigger] next[i]
                < MAX_DISTRICTS by {
                if i < so_far.len() {
                    assert(next[i] == so_far[i]);
                }
            }
            let cut_after = cut_among(edges, assignment@, e + 1);
            assert forall|i: int| 0 <= i < count implies 0 <= #[trigger] cut_after[i] < e + 1 by {
                if i < cut_before.len() {
                    assert(cut_after[i] == cut_before[i]);
                }
            }
            if graph.edge_weights is Some {
                let weights = graph.edge_weights->0;
                assert(addends@ =~= Seq::new(cut_after.len(), |i: int| weights@[cut_after[i]]));
            }
        }
        e += 1;
    }
    proof {
        law_cut_edges_join_different_labels(edges, assignment@, total);
        law_cut_edges_listed(edges, assignment@, total);
        if graph.edge_weights is Some {
            let cut = cut_among(edges, assignment@, total);
            assert(addends@ =~= cut.map_values(|e: int| graph.edge_weights->0@[e]));
        }
    }
    match &graph.edge_weights {
        Some(_) => Ok((CutValue::Weights(addends), observed)),
        None => Ok((CutValue::Count(count), observed)),
    }
}

} // verus!
