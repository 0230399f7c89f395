//! Whole runs over recorded plans, for the metrics that are reported per district or per plan.
//!
//! A run states for every plan that it takes what there is to add up; the adding is left to whoever
//! holds the numbers.
use crate::district::{
    is_dense_count, observes, reports_first_excess, within_limit, MAX_DISTRICTS,
};
use crate::error::Error;
use crate::graph::{column_for, Graph};
use crate::metrics::counts::listed;
use crate::metrics::cut_edges::{
    cut_among, cut_edges, end_labels, law_cut_edges_join_different_labels, law_cut_edges_listed,
    law_end_labels, CutValue,
};
use crate::metrics::ledger::Posting;
use crate::metrics::polsby_popper::{
    derive_total_perimeters, node_shares, plan_postings, polsby_popper_rows,
};
use crate::metrics::reock::{
    district_units, law_district_units, law_placed_units, reock_rows, ReockState,
};
use crate::metrics::table::{
    law_labelled_run, law_run_by_labels, numbered, reports_run, row_from, scores_by,
    scores_by_labels, uniform_by, uniform_run,
};
use crate::metrics::tally_keys::{addends, law_addends_listed, tally_keys};
use crate::pipeline::{
    counts_of, run_outcome, run_pipeline, taken_reps, AssignmentLengthCheck, FrameResult, Pipeline,
    PipelineRow,
};
use vstd::prelude::*;

verus! {

// ---------------------------------------------------------------------------------------------
// Tallies
// ---------------------------------------------------------------------------------------------

/// What there is to add up for one plan: for every key and district, the values of its nodes.
#[derive(Debug)]
pub struct TallyRow<W> {
    pub totals: Vec<Vec<Vec<W>>>,
    pub n_districts: u16,
    pub observed: u128,
}

impl<W> TallyRow<W> {
    /// Whether the row is that of `plan`.
    pub open spec fn is_of(
        &self,
        graph: &Graph<W>,
        indices: Seq<usize>,
        plan: Seq<u16>,
    ) -> bool {
        &&& observes(self.observed, plan)
        &&& is_dense_count(self.n_districts, plan)
        &&& self.totals@.len() == indices.len()
        &&& forall|k: int|
            0 <= k < self.totals@.len() ==> (#[trigger] self.totals@[k])@.len()
                == self.n_districts
        &&& forall|k: int, d: int|
            0 <= k < self.totals@.len() && 0 <= d < self.n_districts ==> (
            #[trigger] self.totals@[k]@[d])@ == addends(
                graph.attr_columns@[indices[k] as int]@,
                plan,
                d,
                plan.len() as int,
            )
    }
}

/// Whether every key has its numeric column.
pub open spec fn numeric_columns_exist<W>(graph: &Graph<W>, indices: Seq<usize>) -> bool {
    &&& graph.columns_wf()
    &&& forall|k: int|
        0 <= k < indices.len() ==> #[trigger] indices[k] < graph.attr_columns@.len()
}

/// The columns of keys that a graph was loaded with.
pub fn numeric_column_indices<W>(graph: &Graph<W>, key_list: &[String]) -> (r: Vec<usize>)
    requires
        graph.columns_wf(),
        forall|k: int|
            0 <= k < key_list@.len() ==> column_for(
                graph.attr_keys@,
                (#[trigger] key_list@[k])@,
            ) is Some,
    ensures
        numeric_columns_exist(graph, r@),
        r@.len() == key_list@.len(),
        forall|k: int|
            0 <= k < r@.len() ==> Some(#[trigger] r@[k]) == column_for(
                graph.attr_keys@,
                key_list@[k]@,
            ),
{
    let mut indices: Vec<usize> = Vec::new();
    let mut k: usize = 0;
    while k < key_list.len()
        invariant
            k <= key_list@.len(),
            indices@.len() == k,
            graph.columns_wf(),
            forall|j: int|
                0 <= j < key_list@.len() ==> column_for(
                    graph.attr_keys@,
                    (#[trigger] key_list@[j])@,
                ) is Some,
            forall|j: int|
                0 <= j < k ==> Some(#[trigger] indices@[j]) == column_for(
                    graph.attr_keys@,
                    key_list@[j]@,
                ),
            forall|j: int| 0 <= j < k ==> #[trigger] indices@[j] < graph.attr_columns@.len(),
        decreases key_list.len() - k,
    {
        assert(column_for(graph.attr_keys@, key_list@[k as int]@) is Some);
        if let Some(column) = graph.numeric_column_index(key_list[k].as_str()) {
            indices.push(column);
        }
        k += 1;
    }
    indices
}

/// The tallies of recorded plans.
pub fn tally_from_key_list<W: Copy>(
    graph: &Graph<W>,
    records: Vec<(Vec<u16>, u16)>,
    indices: &[usize],
    max_samples: Option<usize>,
) -> (r: (Vec<PipelineRow<TallyRow<W>>>, Result<(), Error>))
    requires
        numeric_columns_exist(graph, indices@),
        1 + 0xffff * records@.len() <= u64::MAX,
    ensures
        numbered(r.0@, taken_reps(counts_of(records@), max_samples)),
        forall|i: int|
            0 <= i < r.0@.len() ==> (#[trigger] r.0@[i]).row.is_of(
                graph,
                indices@,
                records@[i].0@,
            ),
        r.1 is Ok <==> uniform_run(
            records@,
            taken_reps(counts_of(records@), max_samples).len(),
            graph.node_count as nat,
        ),
        r.1 matches Err(e) ==> reports_run(
            (AssignmentLengthCheck::Exact {
                expected: graph.node_count,
                label: "graph node count",
            }),
            "tally"@,
            records@,
            taken_reps(counts_of(records@), max_samples).len(),
            |plan: Seq<u16>| plan,
            r.0@.len(),
            e,
        ),
        r.1 is Ok ==> r.0@.len() == taken_reps(counts_of(records@), max_samples).len(),
{
    let label = "tally".to_owned();
    let check = AssignmentLengthCheck::Exact {
        expected: graph.node_count,
        label: "graph node count",
    };
    let process = |assignment: &[u16], n_reps: u16| -> (out: Result<(u128, TallyRow<W>), Error>)
        requires
            numeric_columns_exist(graph, indices@),
            assignment@.len() == graph.node_count,
        ensures
            out is Ok <==> within_limit(assignment@),
            out matches Err(e) ==> reports_first_excess(e, assignment@),
            out matches Ok((observed, row)) ==> observes(observed, assignment@) && row.is_of(
                graph,
                indices@,
                assignment@,
            ),
        {
            match tally_keys(graph, assignment, indices) {
                Ok((totals, n_districts, observed)) => Ok(
                    (observed, TallyRow { totals, n_districts, observed }),
                ),
                Err(e) => Err(e),
            }
        };
    let ghost all = records@;
    let ended = run_pipeline(records, check, label, process, max_samples);
    proof {
        let results = choose|results: Seq<FrameResult<TallyRow<W>>>| #[trigger]
            run_outcome(
                Pipeline::start(check, Some(label)),
                process,
                all,
                max_samples,
                results,
                ended.0@,
                ended.1,
            );
        assert(scores_by_labels(process, graph.node_count as nat));
        law_labelled_run(check, label, process, all, max_samples, results, ended.0@, ended.1);
        let kept = taken_reps(counts_of(all), max_samples);
        assert forall|i: int| 0 <= i < ended.0@.len() implies (#[trigger] ended.0@[i]).row.is_of(
            graph,
            indices@,
            all[i].0@,
        ) by {
            assert(row_from(process, all[i].0@, kept[i], ended.0@[i].row));
        }
    }
    ended
}

// ---------------------------------------------------------------------------------------------
// Polsby-Popper
// ---------------------------------------------------------------------------------------------

/// The columns that Polsby-Popper scores come from. A node's perimeter is the sum of its addends.
#[derive(Debug)]
pub struct PolsbyPopperColumns<'g, W> {
    pub area_values: &'g [W],
    pub perimeter_addends: Vec<Vec<W>>,
    pub shared_perimeters: &'g [W],
}

/// The columns of keys that a graph was loaded with. A perimeter key gives perimeters directly;
/// without one they are derived from the outer boundary and the shared edges.
pub fn polsby_popper_columns<'g, W: Copy>(
    graph: &'g Graph<W>,
    area_key: &str,
    perim_key: Option<&str>,
    boundary_perim_key: Option<&str>,
) -> (r: Option<PolsbyPopperColumns<'g, W>>)
    requires
        graph.columns_wf(),
        graph.edges_wf(),
    ensures
        r is Some <==> column_for(graph.attr_keys@, area_key@) is Some && graph.edge_weights is Some
            && match perim_key {
            Some(key) => column_for(graph.attr_keys@, key@) is Some,
            None => boundary_perim_key matches Some(key) && column_for(
                graph.attr_keys@,
                key@,
            ) is Some,
        },
        r matches Some(columns) ==> {
            &&& columns.area_values@ == graph.attr_columns@[column_for(
                graph.attr_keys@,
                area_key@,
            )->0 as int]@
            &&& columns.shared_perimeters@ == graph.edge_weights->0@
            &&& columns.perimeter_addends@.len() == graph.node_count
            &&& match perim_key {
                Some(key) => forall|i: int|
                    0 <= i < graph.node_count ==> (#[trigger] columns.perimeter_addends@[i])@
                        == seq![
                        graph.attr_columns@[column_for(graph.attr_keys@, key@)->0 as int]@[i],
                    ],
                None => forall|i: int|
                    0 <= i < graph.node_count ==> (#[trigger] columns.perimeter_addends@[i])@
                        == seq![
                        graph.attr_columns@[column_for(
                            graph.attr_keys@,
                            boundary_perim_key->0@,
                        )->0 as int]@[i],
                    ] + node_shares(
                        graph.edges@,
                        graph.edge_weights->0@,
                        i,
                        graph.edges@.len() as int,
                    ),
            }
        },
{
    let area_values = match graph.numeric_column(area_key) {
        Some(column) => column,
        None => {
            return None;
        },
    };
    let shared_perimeters = match graph.edge_weight_column() {
        Some(column) => column,
        None => {
            return None;
        },
    };
    let perimeter_addends = match perim_key {
        Some(key) => match graph.numeric_column(key) {
            Some(column) => {
                let mut direct: Vec<Vec<W>> = Vec::new();
                let mut i: usize = 0;
                while i < column.len()
                    invariant
                        i <= column@.len(),
                        direct@.len() == i,
                        forall|k: int|
                            0 <= k < i ==> (#[trigger] direct@[k])@ == seq![column@[k]],
                    decreases column.len() - i,
                {
                    let mut one: Vec<W> = Vec::new();
                    one.push(column[i]);
                    proof {
                        assert(one@ =~= seq![column@[i as int]]);
                    }
                    direct.push(one);
                    i += 1;
                }
                direct
            },
            None => {
                return None;
            },
        },
        None => match boundary_perim_key {
            Some(key) => match graph.numeric_column(key) {
                Some(column) => derive_total_perimeters(column, &graph.edges, shared_perimeters),
                None => {
                    return None;
                },
            },
            None => {
                return None;
            },
        },
    };
    Some(PolsbyPopperColumns { area_values, perimeter_addends, shared_perimeters })
}

/// What there is to add up for one plan.
#[derive(Debug)]
pub struct PostedRow<W> {
    pub postings: Vec<Posting<W>>,
    pub n_districts: u16,
    pub observed: u128,
}

/// Whether there is an area, a perimeter and a length for every node and edge.
pub open spec fn polsby_popper_input<W>(
    n: nat,
    areas: Seq<W>,
    perimeters: Seq<W>,
    edges: Seq<(u32, u32)>,
    shared: Seq<W>,
) -> bool {
    &&& areas.len() == n
    &&& perimeters.len() == n
    &&& shared.len() == edges.len()
    &&& forall|e: int|
        0 <= e < edges.len() ==> (#[trigger] edges[e]).0 < n && edges[e].1 < n
}

/// The Polsby-Popper postings of recorded plans.
pub fn tally_polsby_popper<W: Copy>(
    graph: &Graph<W>,
    area_values: &[W],
    total_perimeters: &[W],
    shared_perimeters: &[W],
    records: Vec<(Vec<u16>, u16)>,
    max_samples: Option<usize>,
) -> (r: (Vec<PipelineRow<PostedRow<W>>>, Result<(), Error>))
    requires
        polsby_popper_input(
            graph.node_count as nat,
            area_values@,
            total_perimeters@,
            graph.edges@,
            shared_perimeters@,
        ),
        1 + 0xffff * records@.len() <= u64::MAX,
    ensures
        numbered(r.0@, taken_reps(counts_of(records@), max_samples)),
        forall|i: int|
            0 <= i < r.0@.len() ==> observes((#[trigger] r.0@[i]).row.observed, records@[i].0@)
                && is_dense_count(r.0@[i].row.n_districts, records@[i].0@)
                && r.0@[i].row.postings@ == plan_postings(
                area_values@,
                total_perimeters@,
                graph.edges@,
                shared_perimeters@,
                records@[i].0@,
            ),
        r.1 is Ok <==> uniform_run(
            records@,
            taken_reps(counts_of(records@), max_samples).len(),
            graph.node_count as nat,
        ),
        r.1 matches Err(e) ==> reports_run(
            AssignmentLengthCheck::MatchesGraph(graph.node_count),
            "polsby-popper"@,
            records@,
            taken_reps(counts_of(records@), max_samples).len(),
            |plan: Seq<u16>| plan,
            r.0@.len(),
            e,
        ),
        r.1 is Ok ==> r.0@.len() == taken_reps(counts_of(records@), max_samples).len(),
{
    let label = "polsby-popper".to_owned();
    let check = AssignmentLengthCheck::MatchesGraph(graph.node_count);
    let process = |assignment: &[u16], n_reps: u16| -> (out: Result<(u128, PostedRow<W>), Error>)
        requires
            polsby_popper_input(
                graph.node_count as nat,
                area_values@,
                total_perimeters@,
                graph.edges@,
                shared_perimeters@,
            ),
            assignment@.len() == graph.node_count,
        ensures
            out is Ok <==> within_limit(assignment@),
            out matches Err(e) ==> reports_first_excess(e, assignment@),
            out matches Ok((observed, row)) ==> observes(observed, assignment@) && row.observed
                == observed && is_dense_count(row.n_districts, assignment@) && row.postings@ == plan_postings(
                area_values@,
                total_perimeters@,
                graph.edges@,
                shared_perimeters@,
                assignment@,
            ),
        {
            match polsby_popper_rows(
                assignment,
                area_values,
                total_perimeters,
                &graph.edges,
                shared_perimeters,
            ) {
                Ok((postings, n_districts, observed)) => Ok(
                    (observed, PostedRow { postings, n_districts, observed }),
                ),
                Err(e) => Err(e),
            }
        };
    let ghost all = records@;
    let ended = run_pipeline(records, check, label, process, max_samples);
    proof {
        let results = choose|results: Seq<FrameResult<PostedRow<W>>>| #[trigger]
            run_outcome(
                Pipeline::start(check, Some(label)),
                process,
                all,
                max_samples,
                results,
                ended.0@,
                ended.1,
            );
        assert(scores_by_labels(process, graph.node_count as nat));
        law_labelled_run(check, label, process, all, max_samples, results, ended.0@, ended.1);
        let kept = taken_reps(counts_of(all), max_samples);
        assert forall|i: int| 0 <= i < ended.0@.len() implies observes(
            (#[trigger] ended.0@[i]).row.observed,
            all[i].0@,
        ) && is_dense_count(ended.0@[i].row.n_districts, all[i].0@)
            && ended.0@[i].row.postings@ == plan_postings(
            area_values@,
            total_perimeters@,
            graph.edges@,
            shared_perimeters@,
            all[i].0@,
        ) by {
            assert(row_from(process, all[i].0@, kept[i], ended.0@[i].row));
        }
    }
    ended
}

// ---------------------------------------------------------------------------------------------
// Reock
// ---------------------------------------------------------------------------------------------

/// The district units of recorded plans.
pub fn tally_reock(
    unit_count: usize,
    records: Vec<(Vec<u16>, u16)>,
    max_samples: Option<usize>,
) -> (r: (Vec<PipelineRow<ReockState>>, Result<(), Error>))
    requires
        unit_count <= u32::MAX,
        1 + 0xffff * records@.len() <= u64::MAX,
    ensures
        numbered(r.0@, taken_reps(counts_of(records@), max_samples)),
        forall|i: int|
            0 <= i < r.0@.len() ==> reock_row((#[trigger] r.0@[i]).row, records@[i].0@),
        r.1 is Ok <==> uniform_run(
            records@,
            taken_reps(counts_of(records@), max_samples).len(),
            unit_count as nat,
        ),
        r.1 matches Err(e) ==> reports_run(
            (AssignmentLengthCheck::Exact {
                expected: unit_count,
                label: "geometry row count",
            }),
            "reock"@,
            records@,
            taken_reps(counts_of(records@), max_samples).len(),
            |plan: Seq<u16>| plan,
            r.0@.len(),
            e,
        ),
        r.1 is Ok ==> r.0@.len() == taken_reps(counts_of(records@), max_samples).len(),
{
    let label = "reock".to_owned();
    let check = AssignmentLengthCheck::Exact { expected: unit_count, label: "geometry row count" };
    let process = |assignment: &[u16], n_reps: u16| -> (out: Result<(u128, ReockState), Error>)
        requires
            unit_count <= u32::MAX,
            assignment@.len() == unit_count,
        ensures
            out is Ok <==> within_limit(assignment@),
            out matches Err(e) ==> reports_first_excess(e, assignment@),
            out matches Ok((observed, row)) ==> observes(observed, assignment@) && reock_row(
                row,
                assignment@,
            ),
        {
            match reock_rows(assignment, unit_count) {
                Ok(state) => Ok((state.observed, state)),
                Err(e) => Err(e),
            }
        };
    let ghost all = records@;
    let ended = run_pipeline(records, check, label, process, max_samples);
    proof {
        let results = choose|results: Seq<FrameResult<ReockState>>| #[trigger]
            run_outcome(
                Pipeline::start(check, Some(label)),
                process,
                all,
                max_samples,
                results,
                ended.0@,
                ended.1,
            );
        assert(scores_by_labels(process, unit_count as nat));
        law_labelled_run(check, label, process, all, max_samples, results, ended.0@, ended.1);
        let kept = taken_reps(counts_of(all), max_samples);
        assert forall|i: int| 0 <= i < ended.0@.len() implies reock_row(
            (#[trigger] ended.0@[i]).row,
            all[i].0@,
        ) by {
            assert(row_from(process, all[i].0@, kept[i], ended.0@[i].row));
        }
    }
    ended
}

/// Whether a state lists the units of every district of `plan`, and its labels.
pub open spec fn reock_row(state: ReockState, plan: Seq<u16>) -> bool {
    &&& observes(state.observed, plan)
    &&& state.places(plan, plan.len() as int)
    &&& forall|d: int|
        0 <= d < MAX_DISTRICTS ==> (#[trigger] state.nodes_by_district@[d])@ == district_units(
            plan,
            d,
            plan.len() as int,
        )
}

// ---------------------------------------------------------------------------------------------
// Cut edges
// ---------------------------------------------------------------------------------------------

/// Whether a value is that of the edges that a plan cuts.
pub open spec fn cut_row<W>(graph: &Graph<W>, plan: Seq<u16>, value: CutValue<W>) -> bool {
    let cut = cut_among(graph.edges@, plan, graph.edges@.len() as int);
    match (graph.edge_weights, value) {
        (None, CutValue::Count(count)) => count == cut.len(),
        (Some(weights), CutValue::Weights(list)) => list@ == Seq::new(
            cut.len(),
            |i: int| weights@[cut[i]],
        ),
        _ => false,
    }
}

/// The labels that a plan gives to edge ends.
pub open spec fn plan_end_labels<W>(graph: &Graph<W>) -> spec_fn(Seq<u16>) -> Seq<u16> {
    |plan: Seq<u16>| end_labels(graph.edges@, plan, graph.edges@.len() as int)
}

/// The cut edges of recorded plans. Only the labels of edge ends are looked at.
pub fn tally_cut_edges<W: Copy>(
    graph: &Graph<W>,
    records: Vec<(Vec<u16>, u16)>,
    max_samples: Option<usize>,
) -> (r: (Vec<PipelineRow<CutValue<W>>>, Result<(), Error>))
    requires
        graph.edges_wf(),
        1 + 0xffff * records@.len() <= u64::MAX,
    ensures
        numbered(r.0@, taken_reps(counts_of(records@), max_samples)),
        forall|i: int|
            0 <= i < r.0@.len() ==> cut_row(graph, records@[i].0@, (#[trigger] r.0@[i]).row),
        r.1 is Ok <==> uniform_by(
            records@,
            taken_reps(counts_of(records@), max_samples).len(),
            graph.node_count as nat,
            plan_end_labels(graph),
        ),
        r.1 matches Err(e) ==> reports_run(
            AssignmentLengthCheck::MatchesGraph(graph.node_count),
            "cut-edges"@,
            records@,
            taken_reps(counts_of(records@), max_samples).len(),
            plan_end_labels(graph),
            r.0@.len(),
            e,
        ),
        r.1 is Ok ==> r.0@.len() == taken_reps(counts_of(records@), max_samples).len(),
{
    let label = "cut-edges".to_owned();
    let check = AssignmentLengthCheck::MatchesGraph(graph.node_count);
    let process = |assignment: &[u16], n_reps: u16| -> (out: Result<(u128, CutValue<W>), Error>)
        requires
            graph.edges_wf(),
            assignment@.len() == graph.node_count,
        ensures
            out is Ok <==> within_limit(plan_end_labels(graph)(assignment@)),
            out matches Err(e) ==> reports_first_excess(e, plan_end_labels(graph)(assignment@)),
            out matches Ok((observed, value)) ==> cut_row(graph, assignment@, value) && observes(
                observed,
                plan_end_labels(graph)(assignment@),
            ),
        {
            match cut_edges(graph, assignment) {
                Ok((value, observed)) => Ok((observed, value)),
                Err(e) => Err(e),
            }
        };
    let ghost all = records@;
    let ended = run_pipeline(records, check, label, process, max_samples);
    proof {
        let results = choose|results: Seq<FrameResult<CutValue<W>>>| #[trigger]
            run_outcome(
                Pipeline::start(check, Some(label)),
                process,
                all,
                max_samples,
                results,
                ended.0@,
                ended.1,
            );
        assert(scores_by(process, graph.node_count as nat, plan_end_labels(graph)));
        law_run_by_labels(
            check,
            label,
            process,
            all,
            max_samples,
            results,
            ended.0@,
            ended.1,
            plan_end_labels(graph),
        );
        let kept = taken_reps(counts_of(all), max_samples);
        assert forall|i: int| 0 <= i < ended.0@.len() implies cut_row(
            graph,
            all[i].0@,
            (#[trigger] ended.0@[i]).row,
        ) by {
            assert(row_from(process, all[i].0@, kept[i], ended.0@[i].row));
        }
    }
    ended
}

/// What the row of a plan says of the cut: without edge weights, the number of edges whose ends the
/// plan labels differently; with them, the weights of those edges, in edge order.
pub proof fn law_cut_row<W>(graph: &Graph<W>, plan: Seq<u16>, value: CutValue<W>)
    ensures
        cut_row(graph, plan, value) <==> match (graph.edge_weights, value) {
            (None, CutValue::Count(count)) => count == Set::new(
                |e: int|
                    0 <= e < graph.edges@.len() && plan[graph.edges@[e].0 as int]
                        != plan[graph.edges@[e].1 as int],
            ).len(),
            (Some(weights), CutValue::Weights(list)) => list@ == listed(
                graph.edges@.len() as int,
                |e: int| plan[graph.edges@[e].0 as int] != plan[graph.edges@[e].1 as int],
            ).map_values(|e: int| weights@[e]),
            _ => false,
        },
{
    let n = graph.edges@.len() as int;
    let cut = cut_among(graph.edges@, plan, n);
    law_cut_edges_join_different_labels(graph.edges@, plan, n);
    law_cut_edges_listed(graph.edges@, plan, n);
    if graph.edge_weights is Some {
        let weights = graph.edge_weights->0;
        assert(Seq::new(cut.len(), |i: int| weights@[cut[i]]) =~= cut.map_values(
            |e: int| weights@[e],
        ));
    }
}

/// The labels that a run over cut edges looks at: those at the ends of edges.
pub proof fn law_plan_end_labels<W>(graph: &Graph<W>, plan: Seq<u16>, x: u16)
    ensures
        plan_end_labels(graph)(plan).contains(x) <==> exists|e: int|
            0 <= e < graph.edges@.len() && (plan[(#[trigger] graph.edges@[e]).0 as int] == x
                || plan[graph.edges@[e].1 as int] == x),
{
    law_end_labels(graph.edges@, plan, graph.edges@.len() as int);
}

/// What the row of a plan says of a key and a district: the values of the nodes with that label, in
/// node order. There is a list for every label up to the largest one.
pub proof fn law_tally_row<W>(
    row: TallyRow<W>,
    graph: &Graph<W>,
    indices: Seq<usize>,
    plan: Seq<u16>,
    k: int,
    d: int,
)
    requires
        row.is_of(graph, indices, plan),
        0 <= k < indices.len(),
        0 <= d < row.n_districts,
    ensures
        row.totals@.len() == indices.len(),
        row.totals@[k]@.len() == row.n_districts,
        observes(row.observed, plan),
        is_dense_count(row.n_districts, plan),
        row.totals@[k]@[d]@ == listed(plan.len() as int, |i: int| plan[i] == d).map_values(
            |i: int| graph.attr_columns@[indices[k] as int]@[i],
        ),
{
    let column = graph.attr_columns@[indices[k] as int]@;
    assert(row.totals@[k]@.len() == row.n_districts);
    assert(row.totals@[k]@[d]@ == addends(column, plan, d, plan.len() as int));
    law_addends_listed(column, plan, d, plan.len() as int);
    assert(listed(plan.len() as int, |i: int| plan[i] == d).map_values(|i: int| column[i])
        =~= listed(plan.len() as int, |i: int| plan[i] == d).map_values(
        |i: int| graph.attr_columns@[indices[k] as int]@[i],
    ));
}

/// What the row of a plan says of a district: its units are the nodes with its label, in node order,
/// and their number is counted.
pub proof fn law_reock_row(state: ReockState, plan: Seq<u16>, d: int)
    requires
        reock_row(state, plan),
        0 <= d < 128,
    ensures
        observes(state.observed, plan),
        state.nodes_by_district@[d]@ == listed(
            plan.len() as int,
            |i: int| plan[i] == d,
        ).map_values(|i: int| i as usize),
        state.node_counts@[d] == Set::new(|u: int| 0 <= u < plan.len() && plan[u] == d).len(),
{
    law_district_units(plan, d, plan.len() as int);
    law_placed_units(state, plan, d);
}

} // verus!
