//! Region tables: for every accepted plan, one row per region key.
use crate::district::{observed_assignment_districts, observes, reports_first_excess, within_limit};
use crate::district::has_district;
use crate::error::Error;
use crate::graph::{column_for, Graph};
use crate::metrics::region::{
    law_region_values_of_a_plan, metric_column_text, region_metric_column_name,
    region_metric_for_key, region_pairs, region_value, IncrementalRegionMetrics, RegionMetric,
};
use crate::metrics::chain::{
    chain_outcome, chain_plan, chain_plans, event_reps, follows_event, law_chain_by_labels,
    reports_chain, run_incremental_twodelta, state_before, uniform_chain, ChainRow,
};
use crate::metrics::table::{
    law_labelled_run, numbered, reports_run, row_from, scores_by_labels, uniform_run,
};
use crate::metrics::twodelta::{lemma_occurrences, IncrementalTwoDeltaMetric, TwoDeltaEvent};
use crate::pipeline::{
    counts_of, law_capped_total, run_outcome, run_pipeline, taken_reps, AssignmentLengthCheck,
    FrameResult, Pipeline, PipelineRow,
};
use vstd::prelude::*;

verus! {

/// The metric of a plan under each key.
pub open spec fn key_values<W>(
    graph: &Graph<W>,
    indices: Seq<usize>,
    metric: RegionMetric,
    plan: Seq<u16>,
) -> Seq<nat> {
    Seq::new(
        indices.len(),
        |k: int|
            region_value(
                region_pairs(graph.region_columns@[indices[k] as int]@, plan),
                graph.region_id_counts@[indices[k] as int] as nat,
                metric,
            ),
    )
}

/// Whether `values` are exactly these numbers.
pub open spec fn are_numbers(values: Seq<u32>, numbers: Seq<nat>) -> bool {
    &&& values.len() == numbers.len()
    &&& forall|k: int| 0 <= k < values.len() ==> #[trigger] values[k] == numbers[k]
}

/// Whether every key has its column.
pub open spec fn columns_exist<W>(graph: &Graph<W>, indices: Seq<usize>) -> bool {
    &&& graph.regions_wf()
    &&& graph.node_count <= u32::MAX
    &&& forall|k: int|
        0 <= k < indices.len() ==> #[trigger] indices[k] < graph.region_columns@.len()
}

/// The columns of keys that a graph was loaded with.
pub fn region_column_indices<W>(graph: &Graph<W>, key_list: &[String]) -> (r: Vec<usize>)
    requires
        graph.regions_wf(),
        graph.node_count <= u32::MAX,
        forall|k: int|
            0 <= k < key_list@.len() ==> column_for(
                graph.region_keys@,
                (#[trigger] key_list@[k])@,
            ) is Some,
    ensures
        columns_exist(graph, r@),
        r@.len() == key_list@.len(),
        forall|k: int|
            0 <= k < r@.len() ==> Some(#[trigger] r@[k]) == column_for(
                graph.region_keys@,
                key_list@[k]@,
            ),
{
    let mut indices: Vec<usize> = Vec::new();
    let mut k: usize = 0;
    while k < key_list.len()
        invariant
            k <= key_list@.len(),
            indices@.len() == k,
            graph.regions_wf(),
            forall|j: int|
                0 <= j < key_list@.len() ==> column_for(
                    graph.region_keys@,
                    (#[trigger] key_list@[j])@,
                ) is Some,
            forall|j: int|
                0 <= j < k ==> Some(#[trigger] indices@[j]) == column_for(
                    graph.region_keys@,
                    key_list@[j]@,
                ),
            forall|j: int|
                0 <= j < k ==> #[trigger] indices@[j] < graph.region_columns@.len(),
        decreases key_list.len() - k,
    {
        assert(column_for(graph.region_keys@, key_list@[k as int]@) is Some);
        if let Some(column) = graph.region_column_index(key_list[k].as_str()) {
            indices.push(column);
        }
        k += 1;
    }
    indices
}

/// The labels of a plan and its metric under each key.
pub fn region_values<W>(
    graph: &Graph<W>,
    assignment: &[u16],
    indices: &[usize],
    metric: RegionMetric,
) -> (r: Result<(u128, Vec<u32>), Error>)
    requires
        columns_exist(graph, indices@),
        assignment@.len() == graph.node_count,
    ensures
        r is Ok <==> within_limit(assignment@),
        r matches Err(e) ==> reports_first_excess(e, assignment@),
        r matches Ok((observed, values)) ==> observes(observed, assignment@) && are_numbers(
            values@,
            key_values(graph, indices@, metric, assignment@),
        ),
{
    let (n_districts, observed) = match observed_assignment_districts(assignment) {
        Ok(seen) => seen,
        Err(e) => {
            return Err(e);
        },
    };
    let max_district: usize = (n_districts - 1) as usize;
    let mut values: Vec<u32> = Vec::new();
    let mut k: usize = 0;
    while k < indices.len()
        invariant
            k <= indices@.len(),
            columns_exist(graph, indices@),
            assignment@.len() == graph.node_count,
            max_district <= u16::MAX,
            forall|i: int|
                0 <= i < assignment@.len() ==> #[trigger] assignment@[i] <= max_district,
            values@.len() == k,
            forall|j: int|
                0 <= j < k ==> #[trigger] values@[j] == key_values(
                    graph,
                    indices@,
                    metric,
                    assignment@,
                )[j],
        decreases indices.len() - k,
    {
        let column: usize = indices[k];
        assert(indices@[k as int] < graph.region_columns@.len());
        values.push(region_metric_for_key(graph, assignment, column, metric, max_district));
        k += 1;
    }
    Ok((observed, values))
}

/// One row of a region table.
#[derive(Debug)]
pub struct RegionRow {
    pub step: u64,
    pub n_reps: u32,
    pub accepted_count: u64,
    pub region_key: String,
    pub value: u32,
}

/// Rows for one plan: keys side by side with their values.
pub fn push_region_rows(
    key_list: &[String],
    step: u64,
    n_reps: u32,
    accepted: u64,
    values: &[u32],
) -> (r: Vec<RegionRow>)
    requires
        values@.len() == key_list@.len(),
    ensures
        r@.len() == key_list@.len(),
        forall|k: int|
            0 <= k < r@.len() ==> {
                &&& (#[trigger] r@[k]).step == step
                &&& r@[k].n_reps == n_reps
                &&& r@[k].accepted_count == accepted
                &&& r@[k].region_key@ == key_list@[k]@
                &&& r@[k].value == values@[k]
            },
{
    let mut rows: Vec<RegionRow> = Vec::new();
    let mut k: usize = 0;
    while k < key_list.len()
        invariant
            k <= key_list@.len(),
            values@.len() == key_list@.len(),
            rows@.len() == k,
            forall|j: int|
                0 <= j < k ==> {
                    &&& (#[trigger] rows@[j]).step == step
                    &&& rows@[j].n_reps == n_reps
                    &&& rows@[j].accepted_count == accepted
                    &&& rows@[j].region_key@ == key_list@[j]@
                    &&& rows@[j].value == values@[j]
                },
        decreases key_list.len() - k,
    {
        rows.push(
            RegionRow {
                step,
                n_reps,
                accepted_count: accepted,
                region_key: key_list[k].clone(),
                value: values[k],
            },
        );
        k += 1;
    }
    rows
}

/// Whether rows are those of plans: numbered by samples and plans, each with the metric of its plan
/// under each key.
pub open spec fn is_region_table<W>(
    rows: Seq<PipelineRow<Vec<u32>>>,
    graph: &Graph<W>,
    indices: Seq<usize>,
    metric: RegionMetric,
    plans: Seq<Seq<u16>>,
    kept: Seq<u16>,
) -> bool {
    &&& numbered(rows, kept)
    &&& forall|i: int|
        0 <= i < rows.len() ==> are_numbers(
            (#[trigger] rows[i]).row@,
            key_values(graph, indices, metric, plans[i]),
        )
}

/// The plans of records.
pub open spec fn plans_of(records: Seq<(Vec<u16>, u16)>) -> Seq<Seq<u16>> {
    Seq::new(records.len(), |i: int| records[i].0@)
}

/// The region table of recorded plans.
pub fn tally_region_metric<W>(
    graph: &Graph<W>,
    records: Vec<(Vec<u16>, u16)>,
    indices: &[usize],
    metric: RegionMetric,
    max_samples: Option<usize>,
) -> (r: (Vec<PipelineRow<Vec<u32>>>, Result<(), Error>))
    requires
        columns_exist(graph, indices@),
        1 + 0xffff * records@.len() <= u64::MAX,
    ensures
        is_region_table(
            r.0@,
            graph,
            indices@,
            metric,
            plans_of(records@),
            taken_reps(counts_of(records@), max_samples),
        ),
        r.1 is Ok <==> uniform_run(
            records@,
            taken_reps(counts_of(records@), max_samples).len(),
            graph.node_count as nat,
        ),
        r.1 matches Err(e) ==> reports_run(
            AssignmentLengthCheck::MatchesGraph(graph.node_count),
            metric_column_text(metric),
            records@,
            taken_reps(counts_of(records@), max_samples).len(),
            |plan: Seq<u16>| plan,
            r.0@.len(),
            e,
        ),
        r.1 is Ok ==> r.0@.len() == taken_reps(counts_of(records@), max_samples).len(),
{
    let label = region_metric_column_name(metric).to_owned();
    let check = AssignmentLengthCheck::MatchesGraph(graph.node_count);
    let process = |assignment: &[u16], n_reps: u16| -> (out: Result<(u128, Vec<u32>), Error>)
        requires
            columns_exist(graph, indices@),
            assignment@.len() == graph.node_count,
        ensures
            out is Ok <==> within_limit(assignment@),
            out matches Err(e) ==> reports_first_excess(e, assignment@),
            out matches Ok((observed, values)) ==> observes(observed, assignment@) && are_numbers(
                values@,
                key_values(graph, indices@, metric, assignment@),
            ),
        { region_values(graph, assignment, indices, metric) };
    let ghost all = records@;
    let ended = run_pipeline(records, check, label, process, max_samples);
    proof {
        let results = choose|results: Seq<FrameResult<Vec<u32>>>| #[trigger]
            run_outcome(
                Pipeline::start(check, Some(label)),
                process,
                all,
                max_samples,
                results,
                ended.0@,
                ended.1,
            );
        assert(scores_by_labels(process, graph.node_count as nat));
        law_labelled_run(
            check,
            label,
            process,
            all,
            max_samples,
            results,
            ended.0@,
            ended.1,
        );
        law_capped_total(counts_of(all), max_samples);
        let kept = taken_reps(counts_of(all), max_samples);
        assert forall|i: int| 0 <= i < ended.0@.len() implies are_numbers(
            (#[trigger] ended.0@[i]).row@,
            key_values(graph, indices@, metric, plans_of(all)[i]),
        ) by {
            assert(row_from(process, all[i].0@, kept[i], ended.0@[i].row));
        }
    }
    ended
}

// ---------------------------------------------------------------------------------------------
// Along a chain of changes
// ---------------------------------------------------------------------------------------------

proof fn lemma_metric_observes<W>(metric: IncrementalRegionMetrics<W>, plan: Seq<u16>)
    requires
        metric.tracks(plan),
        within_limit(plan),
    ensures
        observes(metric.labels(), plan),
{
    assert forall|d: int| #[trigger] has_district(metric.labels(), d) <==> exists|i: int|
        0 <= i < plan.len() && #[trigger] plan[i] == d by {
        lemma_occurrences(plan, d);
    }
}

/// The region table of a chain: the metric is patched from plan to plan.
pub fn run_incremental_twodelta_region_metric<W>(
    graph: &Graph<W>,
    events: Vec<TwoDeltaEvent>,
    indices: &[usize],
    metric: RegionMetric,
    max_samples: Option<usize>,
) -> (r: (Vec<PipelineRow<Vec<u32>>>, Result<(), Error>))
    requires
        columns_exist(graph, indices@),
        1 + 0xffff * events@.len() <= u64::MAX,
        forall|i: int| 0 <= i < events@.len() ==> (#[trigger] events@[i]).wf(),
    ensures
        is_region_table(
            r.0@,
            graph,
            indices@,
            metric,
            chain_plans(events@),
            taken_reps(event_reps(events@), max_samples),
        ),
        r.1 is Ok <==> uniform_chain(
            events@,
            taken_reps(event_reps(events@), max_samples).len(),
            graph.node_count as nat,
        ),
        r.1 matches Err(e) ==> reports_chain(
            events@,
            graph.node_count,
            "graph node count"@,
            true,
            taken_reps(event_reps(events@), max_samples).len(),
            metric_column_text(metric),
            r.0@.len(),
            e,
        ),
        r.1 is Ok ==> r.0@.len() == taken_reps(event_reps(events@), max_samples).len(),
{
    let ghost all = events@;
    let state = IncrementalRegionMetrics::new(graph, indices);
    let ghost start = state;
    let name = region_metric_column_name(metric).to_owned();
    let output = |m: &IncrementalRegionMetrics<W>| -> (out: Vec<u32>)
        requires
            m.wf(),
        ensures
            out@.len() == m.key_states@.len(),
            forall|plan: Seq<u16>, k: int|
                #![trigger m.tracks(plan), out@[k]]
                m.tracks(plan) && 0 <= k < out@.len() ==> out@[k] == region_value(
                    m.pairs(k, plan),
                    m.key_states@[k].n_regions(),
                    metric,
                ),
        { m.values(metric) };
    let (chain, outcome) = run_incremental_twodelta(
        events,
        graph.node_count,
        "graph node count",
        true,
        name,
        max_samples,
        state,
        output,
    );
    proof {
        let states = choose|states: Seq<IncrementalRegionMetrics<W>>| #[trigger]
            chain_outcome(
                start,
                all,
                graph.node_count,
                "graph node count"@,
                true,
                metric_column_text(metric),
                max_samples,
                output,
                states,
                chain@,
                outcome,
            );
        assert forall|m: IncrementalRegionMetrics<W>, plan: Seq<u16>| #[trigger]
            m.tracks(plan) && within_limit(plan) implies observes(m.labels(), plan) by {
            lemma_metric_observes(m, plan);
        }
        law_chain_by_labels(
            start,
            all,
            graph.node_count,
            "graph node count"@,
            true,
            metric_column_text(metric),
            max_samples,
            output,
            states,
            chain@,
            outcome,
        );
        assert forall|i: int| 0 <= i < chain@.len() implies are_numbers(
            (#[trigger] chain@[i]).row.row@,
            key_values(graph, indices@, metric, chain_plans(all)[i]),
        ) by {
            lemma_same_columns(start, all, states, i);
            let m = states[i];
            let plan = chain_plan(all, i + 1);
            let values = chain@[i].row.row@;
            assert(m.tracks(plan));
            assert forall|k: int| 0 <= k < values.len() implies #[trigger] values[k]
                == key_values(graph, indices@, metric, plan)[k] by {
                assert(m.key_states@[k].n_regions()
                    == m.graph.region_id_counts@[m.region_column_indices@[k] as int]);
            }
        }
    }
    (unwrapped(chain), outcome)
}

proof fn lemma_same_columns<W>(
    start: IncrementalRegionMetrics<W>,
    events: Seq<TwoDeltaEvent>,
    states: Seq<IncrementalRegionMetrics<W>>,
    i: int,
)
    requires
        0 <= i < states.len(),
        forall|j: int|
            0 <= j < states.len() ==> follows_event(
                state_before(start, states, j),
                #[trigger] states[j],
                events,
                j,
            ),
    ensures
        states[i].graph == start.graph,
        states[i].region_column_indices == start.region_column_indices,
    decreases i,
{
    assert(follows_event(state_before(start, states, i), states[i], events, i));
    if i > 0 {
        lemma_same_columns(start, events, states, i - 1);
    }
}

/// The rows of a chain, whether or not totals start over with them.
fn unwrapped<Row>(chain: Vec<PipelineRow<ChainRow<Row>>>) -> (r: Vec<PipelineRow<Row>>)
    ensures
        r@.len() == chain@.len(),
        forall|i: int|
            0 <= i < r@.len() ==> #[trigger] r@[i] == (PipelineRow {
                step: chain@[i].step,
                n_reps: chain@[i].n_reps,
                accepted: chain@[i].accepted,
                row: chain@[i].row.row,
            }),
{
    let ghost all = chain@;
    let mut chain = chain;
    let mut reversed: Vec<PipelineRow<Row>> = Vec::new();
    while chain.len() > 0
        invariant
            chain@.len() + reversed@.len() == all.len(),
            chain@ == all.take(chain@.len() as int),
            forall|i: int|
                0 <= i < reversed@.len() ==> #[trigger] reversed@[i] == (PipelineRow {
                    step: all[all.len() - 1 - i].step,
                    n_reps: all[all.len() - 1 - i].n_reps,
                    accepted: all[all.len() - 1 - i].accepted,
                    row: all[all.len() - 1 - i].row.row,
                }),
        decreases chain.len(),
    {
        if let Some(row) = chain.pop() {
            proof {
                assert(chain@ =~= all.take(chain@.len() as int));
            }
            reversed.push(
                PipelineRow {
                    step: row.step,
                    n_reps: row.n_reps,
                    accepted: row.accepted,
                    row: row.row.row,
                },
            );
        }
    }
    let mut rows: Vec<PipelineRow<Row>> = Vec::new();
    while reversed.len() > 0
        invariant
            reversed@.len() + rows@.len() == all.len(),
            forall|i: int|
                0 <= i < reversed@.len() ==> #[trigger] reversed@[i] == (PipelineRow {
                    step: all[all.len() - 1 - i].step,
                    n_reps: all[all.len() - 1 - i].n_reps,
                    accepted: all[all.len() - 1 - i].accepted,
                    row: all[all.len() - 1 - i].row.row,
                }),
            forall|i: int|
                0 <= i < rows@.len() ==> #[trigger] rows@[i] == (PipelineRow {
                    step: all[i].step,
                    n_reps: all[i].n_reps,
                    accepted: all[i].accepted,
                    row: all[i].row.row,
                }),
        decreases reversed.len(),
    {
        if let Some(row) = reversed.pop() {
            rows.push(row);
        }
    }
    rows
}

/// A chain and records of the same plans give the same table: patching loses nothing.
pub proof fn law_patched_tables_are_recomputed_tables<W>(
    graph: &Graph<W>,
    indices: Seq<usize>,
    metric: RegionMetric,
    events: Seq<TwoDeltaEvent>,
    records: Seq<(Vec<u16>, u16)>,
    max_samples: Option<usize>,
    patched: Seq<PipelineRow<Vec<u32>>>,
    recomputed: Seq<PipelineRow<Vec<u32>>>,
)
    requires
        chain_plans(events) == plans_of(records),
        event_reps(events) == counts_of(records),
        is_region_table(
            patched,
            graph,
            indices,
            metric,
            chain_plans(events),
            taken_reps(event_reps(events), max_samples),
        ),
        is_region_table(
            recomputed,
            graph,
            indices,
            metric,
            plans_of(records),
            taken_reps(counts_of(records), max_samples),
        ),
        patched.len() == recomputed.len(),
    ensures
        forall|i: int|
            0 <= i < patched.len() ==> {
                &&& (#[trigger] patched[i]).step == recomputed[i].step
                &&& patched[i].n_reps == recomputed[i].n_reps
                &&& patched[i].accepted == recomputed[i].accepted
                &&& patched[i].row@ == recomputed[i].row@
            },
{
    assert forall|i: int| 0 <= i < patched.len() implies {
        &&& (#[trigger] patched[i]).step == recomputed[i].step
        &&& patched[i].n_reps == recomputed[i].n_reps
        &&& patched[i].accepted == recomputed[i].accepted
        &&& patched[i].row@ == recomputed[i].row@
    } by {
        assert(recomputed[i].accepted == i + 1);
        let numbers = key_values(graph, indices, metric, plans_of(records)[i]);
        assert(are_numbers(patched[i].row@, numbers));
        assert(are_numbers(recomputed[i].row@, numbers));
        assert(patched[i].row@ =~= recomputed[i].row@);
    }
}

/// What a region table says of a plan under a key: the number of regions with two nodes that the
/// plan labels differently, or the number of pairs of a region and a label that occur at one node.
pub proof fn law_region_table<W>(
    rows: Seq<PipelineRow<Vec<u32>>>,
    graph: &Graph<W>,
    indices: Seq<usize>,
    metric: RegionMetric,
    plans: Seq<Seq<u16>>,
    kept: Seq<u16>,
    i: int,
    k: int,
)
    requires
        is_region_table(rows, graph, indices, metric, plans, kept),
        columns_exist(graph, indices),
        0 <= i < rows.len(),
        0 <= k < indices.len(),
        plans[i].len() == graph.node_count,
    ensures
        numbered(rows, kept),
        rows[i].row@.len() == indices.len(),
        ({
            let column = graph.region_columns@[indices[k] as int]@;
            let plan = plans[i];
            metric is Splits ==> rows[i].row@[k] == Set::new(
                |r: int|
                    0 <= r < graph.region_id_counts@[indices[k] as int] && exists|u: int, v: int|
                        #![trigger column[u], column[v]]
                        0 <= u < column.len() && 0 <= v < column.len() && column[u] is Some
                            && column[v] is Some && column[u]->0 == r && column[v]->0 == r
                            && plan[u] != plan[v],
            ).len()
        }),
        ({
            let column = graph.region_columns@[indices[k] as int]@;
            let plan = plans[i];
            metric is Pieces ==> rows[i].row@[k] == Set::new(
                |p: (int, int)|
                    0 <= p.0 < graph.region_id_counts@[indices[k] as int] && exists|u: int|
                        0 <= u < column.len() && (#[trigger] column[u] is Some && column[u]->0
                            == p.0 && plan[u] == p.1),
            ).len()
        }),
{
    let column = graph.region_columns@[indices[k] as int]@;
    let plan = plans[i];
    let n_regions = graph.region_id_counts@[indices[k] as int] as nat;
    assert(are_numbers(rows[i].row@, key_values(graph, indices, metric, plan)));
    assert(rows[i].row@[k] == key_values(graph, indices, metric, plan)[k]);
    assert(indices[k] < graph.region_columns@.len());
    assert(column.len() == graph.node_count);
    law_region_values_of_a_plan(column, plan, n_regions);
    assert(Set::new(
        |r: int|
            0 <= r < graph.region_id_counts@[indices[k] as int] && exists|u: int, v: int|
                #![trigger column[u], column[v]]
                0 <= u < column.len() && 0 <= v < column.len() && column[u] is Some && column[v]
                    is Some && column[u]->0 == r && column[v]->0 == r && plan[u] != plan[v],
    ) =~= Set::new(
        |r: int|
            0 <= r < n_regions && exists|i: int, j: int|
                #![trigger column[i], column[j]]
                0 <= i < column.len() && 0 <= j < column.len() && column[i] is Some && column[j]
                    is Some && column[i]->0 == r && column[j]->0 == r && plan[i] != plan[j],
    ));
    assert(Set::new(
        |p: (int, int)|
            0 <= p.0 < graph.region_id_counts@[indices[k] as int] && exists|u: int|
                0 <= u < column.len() && (#[trigger] column[u] is Some && column[u]->0 == p.0
                    && plan[u] == p.1),
    ) =~= Set::new(
        |p: (int, int)|
            0 <= p.0 < n_regions && exists|i: int|
                0 <= i < column.len() && (#[trigger] column[i] is Some && column[i]->0 == p.0
                    && plan[i] == p.1),
    ));
}

} // verus!
