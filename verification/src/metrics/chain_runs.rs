//! Whole runs over chains of plans, for the metrics whose district totals are patched.
//!
//! A row says what its event adds to and subtracts from the totals, and whether they start over.
use crate::district::{has_district, observes, within_limit};
use crate::error::Error;
use crate::graph::Graph;
use crate::metrics::chain::{
    chain_outcome, chain_plan, event_fits, event_reps, follows_event, law_chain_by_labels,
    lemma_chain_plan, lemma_chain_plans, reports_chain, run_incremental_twodelta, state_before,
    uniform_chain, ChainRow,
};
use crate::metrics::counts::{lemma_sum_same, sum_below};
use crate::metrics::ledger::{
    balance, district_sum, law_district_sum, lemma_balance_add, Posting,
};
use crate::metrics::polsby_popper::{
    delta_postings as perimeter_delta_postings,
    law_patched_perimeters_are_recomputed_perimeters, plan_postings, IncrementalPolsbyPopper,
    AREA_TABLE, PERIMETER_TABLE, SHARED_TABLE,
};
use crate::metrics::runs::{numeric_columns_exist, polsby_popper_input};
use crate::metrics::table::numbered;
use crate::metrics::tally_keys::{
    delta_postings, law_patched_totals_are_recomputed_totals, law_seed_posts_district_sums,
    seed_postings, IncrementalTallies,
};
use crate::metrics::twodelta::{
    as_changes, lemma_occurrences, DistrictPresence, IncrementalTwoDeltaMetric, TwoDeltaEvent,
};
use crate::pipeline::{taken_reps, PipelineRow};
use vstd::prelude::*;

verus! {

/// What one event adds to and subtracts from the totals, and the labels of its plan.
#[derive(Debug)]
pub struct ChainPostings<W> {
    pub postings: Vec<Posting<W>>,
    pub observed: u128,
}

/// Postings made along a chain up to event `i`, since totals last started over.
pub open spec fn posted_since<W>(
    events: Seq<TwoDeltaEvent>,
    made: spec_fn(int) -> Seq<Posting<W>>,
    i: int,
) -> Seq<Posting<W>>
    decreases i,
{
    if i <= 0 || events[i] is Snapshot {
        made(i)
    } else {
        posted_since(events, made, i - 1) + made(i)
    }
}

/// Totals start over with a full plan; after a delta, what it posts comes on top of what was posted
/// before.
pub proof fn law_posted_since<W>(
    events: Seq<TwoDeltaEvent>,
    made: spec_fn(int) -> Seq<Posting<W>>,
    i: int,
)
    requires
        0 <= i < events.len(),
    ensures
        events[i] is Snapshot ==> posted_since(events, made, i) == made(i),
        events[i] is Delta && i > 0 ==> posted_since(events, made, i) == posted_since(
            events,
            made,
            i - 1,
        ) + made(i),
{
}

/// A copy of postings.
pub fn copied<W: Copy>(postings: &Vec<Posting<W>>) -> (r: Vec<Posting<W>>)
    ensures
        r@ == postings@,
{
    let mut copy: Vec<Posting<W>> = Vec::new();
    let mut i: usize = 0;
    while i < postings.len()
        invariant
            i <= postings@.len(),
            copy@ == postings@.take(i as int),
        decreases postings.len() - i,
    {
        let p = &postings[i];
        copy.push(
            Posting { table: p.table, district: p.district, negative: p.negative, value: p.value },
        );
        proof {
            assert(copy@ =~= postings@.take(i + 1));
        }
        i += 1;
    }
    proof {
        assert(postings@.take(i as int) =~= postings@);
    }
    copy
}

pub(crate) proof fn lemma_presence_observes(presence: DistrictPresence, plan: Seq<u16>)
    requires
        presence.tracks(plan),
        within_limit(plan),
    ensures
        observes(presence.observed, plan),
{
    assert forall|d: int| #[trigger] has_district(presence.observed, d) <==> exists|i: int|
        0 <= i < plan.len() && #[trigger] plan[i] == d by {
        lemma_occurrences(plan, d);
    }
}

// ---------------------------------------------------------------------------------------------
// Tallies
// ---------------------------------------------------------------------------------------------

/// The values of keys.
pub open spec fn key_columns<W>(graph: &Graph<W>, indices: Seq<usize>) -> Seq<Seq<W>> {
    Seq::new(indices.len(), |k: int| graph.attr_columns@[indices[k] as int]@)
}

/// What event `i` of a chain adds to and subtracts from tallies.
pub open spec fn tally_postings<W>(
    columns: Seq<Seq<W>>,
    events: Seq<TwoDeltaEvent>,
    i: int,
) -> Seq<Posting<W>> {
    match events[i] {
        TwoDeltaEvent::Snapshot { assignment, .. } => seed_postings(
            columns,
            assignment@,
            assignment@.len() as int,
        ),
        TwoDeltaEvent::Delta { changes, .. } => delta_postings(columns, as_changes(changes@)),
    }
}

/// The tallies of a chain: they are patched from plan to plan.
pub fn run_incremental_twodelta_tallies<W: Copy>(
    graph: &Graph<W>,
    events: Vec<TwoDeltaEvent>,
    indices: &[usize],
    max_samples: Option<usize>,
) -> (r: (Vec<PipelineRow<ChainRow<ChainPostings<W>>>>, Result<(), Error>))
    requires
        numeric_columns_exist(graph, indices@),
        graph.node_count <= u32::MAX,
        1 + 0xffff * events@.len() <= u64::MAX,
        forall|i: int| 0 <= i < events@.len() ==> (#[trigger] events@[i]).wf(),
    ensures
        numbered(r.0@, taken_reps(event_reps(events@), max_samples)),
        forall|i: int|
            0 <= i < r.0@.len() ==> (#[trigger] r.0@[i]).row.starts_over == (events@[i] is Snapshot)
                && observes(r.0@[i].row.row.observed, chain_plan(events@, i + 1))
                && r.0@[i].row.row.postings@ == tally_postings(
                key_columns(graph, indices@),
                events@,
                i,
            ),
        r.1 is Ok <==> uniform_chain(
            events@,
            taken_reps(event_reps(events@), max_samples).len(),
            graph.node_count as nat,
        ),
        r.1 matches Err(e) ==> reports_chain(
            events@,
            graph.node_count,
            "graph node count"@,
            false,
            taken_reps(event_reps(events@), max_samples).len(),
            "tally"@,
            r.0@.len(),
            e,
        ),
        r.1 is Ok ==> r.0@.len() == taken_reps(event_reps(events@), max_samples).len(),
{
    let ghost all = events@;
    let state = IncrementalTallies::new(graph, indices);
    let ghost start = state;
    let output = |m: &IncrementalTallies<W>| -> (out: ChainPostings<W>)
        requires
            m.wf(),
        ensures
            out.postings@ == m.postings@,
            out.observed == m.presence.observed,
        { ChainPostings { postings: copied(&m.postings), observed: m.presence.observed } };
    let name = "tally".to_owned();
    let ended = run_incremental_twodelta(
        events,
        graph.node_count,
        "graph node count",
        false,
        name,
        max_samples,
        state,
        output,
    );
    proof {
        let states = choose|states: Seq<IncrementalTallies<W>>| #[trigger]
            chain_outcome(
                start,
                all,
                graph.node_count,
                "graph node count"@,
                false,
                "tally"@,
                max_samples,
                output,
                states,
                ended.0@,
                ended.1,
            );
        assert forall|m: IncrementalTallies<W>, plan: Seq<u16>| #[trigger]
            m.tracks(plan) && within_limit(plan) implies observes(m.labels(), plan) by {
            lemma_presence_observes(m.presence, plan);
        }
        law_chain_by_labels(
            start,
            all,
            graph.node_count,
            "graph node count"@,
            false,
            "tally"@,
            max_samples,
            output,
            states,
            ended.0@,
            ended.1,
        );
        let columns = key_columns(graph, indices@);
        assert forall|i: int| 0 <= i < ended.0@.len() implies (
        #[trigger] ended.0@[i]).row.starts_over == (all[i] is Snapshot) && observes(
            ended.0@[i].row.row.observed,
            chain_plan(all, i + 1),
        ) && ended.0@[i].row.row.postings@ == tally_postings(columns, all, i) by {
            lemma_same_keys(start, all, states, i);
            assert(follows_event(state_before(start, states, i), states[i], all, i));
            assert(states[i].columns() =~= columns);
            assert(observes(states[i].labels(), chain_plan(all, i + 1)));
        }
    }
    ended
}

proof fn lemma_same_keys<W: Copy>(
    start: IncrementalTallies<W>,
    events: Seq<TwoDeltaEvent>,
    states: Seq<IncrementalTallies<W>>,
    i: int,
)
    requires
        0 <= i < states.len(),
        forall|j: int|
            0 <= j < states.len() ==> follows_event(
                state_before(start, states, j),
                #[trigger] states[j],
                events,
                j,
            ),
    ensures
        states[i].graph == start.graph,
        states[i].attr_column_indices == start.attr_column_indices,
    decreases i,
{
    assert(follows_event(state_before(start, states, i), states[i], events, i));
    if i > 0 {
        lemma_same_keys(start, events, states, i - 1);
    }
}

/// Along a chain, what was added to and subtracted from the tallies since they last started over is
/// for every plan the sum of the values of each district's nodes, as if counted from that plan
/// alone.
pub proof fn law_chain_tallies_are_district_sums<W>(
    columns: Seq<Seq<W>>,
    events: Seq<TwoDeltaEvent>,
    n: nat,
    i: int,
    key: int,
    district: int,
    worth: spec_fn(W) -> int,
)
    requires
        0 <= i < events.len(),
        0 <= key < columns.len() <= usize::MAX,
        forall|j: int| 0 <= j < events.len() ==> (#[trigger] events[j]).wf(),
        forall|j: int| 0 <= j <= i ==> #[trigger] event_fits(events, n, j),
    ensures
        balance(
            posted_since(events, |j: int| tally_postings(columns, events, j), i),
            key,
            district,
            worth,
        ) == district_sum(columns[key], chain_plan(events, i + 1), district, n as int, worth),
    decreases i,
{
    let made = |j: int| tally_postings(columns, events, j);
    let after = chain_plan(events, i + 1);
    lemma_chain_plans(events, n, i + 1);
    assert(event_fits(events, n, i));
    assert(after.len() == n);
    match events[i] {
        TwoDeltaEvent::Snapshot { assignment, .. } => {
            law_seed_posts_district_sums(columns, after, n as int, key, district, worth);
        },
        TwoDeltaEvent::Delta { changes, .. } => {
            law_chain_tallies_are_district_sums(columns, events, n, i - 1, key, district, worth);
            let before = chain_plan(events, i);
            let all = as_changes(changes@);
            assert(before == chain_plan(events, (i - 1) + 1));
            assert(events[i].wf());
            lemma_chain_plan(events, n, i);
            law_patched_totals_are_recomputed_totals(columns, before, all, key, district, worth);
            law_seed_posts_district_sums(columns, before, n as int, key, district, worth);
            law_seed_posts_district_sums(columns, after, n as int, key, district, worth);
            lemma_balance_add(
                posted_since(events, made, i - 1),
                made(i),
                key,
                district,
                worth,
            );
        },
    }
}

/// Along a chain, what was posted since totals last started over is for every plan, key and district
/// the worth of the nodes that the plan gives that label.
pub proof fn law_chain_totals<W>(
    graph: &Graph<W>,
    indices: Seq<usize>,
    events: Seq<TwoDeltaEvent>,
    n: nat,
    i: int,
    key: int,
    district: int,
    worth: spec_fn(W) -> int,
)
    requires
        0 <= i < events.len(),
        0 <= key < indices.len() <= usize::MAX,
        forall|j: int| 0 <= j < events.len() ==> (#[trigger] events[j]).wf(),
        forall|j: int| 0 <= j <= i ==> #[trigger] event_fits(events, n, j),
    ensures
        balance(
            posted_since(
                events,
                |j: int| tally_postings(key_columns(graph, indices), events, j),
                i,
            ),
            key,
            district,
            worth,
        ) == sum_below(
            n as int,
            |u: int|
                if chain_plan(events, i + 1)[u] == district {
                    worth(graph.attr_columns@[indices[key] as int]@[u])
                } else {
                    0
                },
        ),
{
    let columns = key_columns(graph, indices);
    let plan = chain_plan(events, i + 1);
    law_chain_tallies_are_district_sums(columns, events, n, i, key, district, worth);
    law_district_sum(columns[key], plan, district, n as int, worth);
    lemma_sum_same(
        n as int,
        |u: int|
            if plan[u] == district {
                worth(columns[key][u])
            } else {
                0
            },
        |u: int|
            if chain_plan(events, i + 1)[u] == district {
                worth(graph.attr_columns@[indices[key] as int]@[u])
            } else {
                0
            },
    );
}

// ---------------------------------------------------------------------------------------------
// Polsby-Popper
// ---------------------------------------------------------------------------------------------

/// What event `i` of a chain adds to and subtracts from areas and perimeters.
pub open spec fn perimeter_postings<W>(
    areas: Seq<W>,
    perimeters: Seq<W>,
    edges: Seq<(u32, u32)>,
    shared: Seq<W>,
    events: Seq<TwoDeltaEvent>,
    i: int,
) -> Seq<Posting<W>> {
    match events[i] {
        TwoDeltaEvent::Snapshot { assignment, .. } => plan_postings(
            areas,
            perimeters,
            edges,
            shared,
            assignment@,
        ),
        TwoDeltaEvent::Delta { changes, .. } => perimeter_delta_postings(
            areas,
            perimeters,
            edges,
            shared,
            chain_plan(events, i),
            as_changes(changes@),
        ),
    }
}

/// The areas and perimeters of a chain: they are patched from plan to plan.
pub fn run_incremental_twodelta_polsby_popper<W: Copy>(
    graph: &Graph<W>,
    events: Vec<TwoDeltaEvent>,
    area_values: &[W],
    total_perimeters: &[W],
    shared_perimeters: &[W],
    max_samples: Option<usize>,
) -> (r: (Vec<PipelineRow<ChainRow<ChainPostings<W>>>>, Result<(), Error>))
    requires
        graph.wf(),
        graph.adjacency is Some,
        graph.node_count <= u32::MAX,
        polsby_popper_input(
            graph.node_count as nat,
            area_values@,
            total_perimeters@,
            graph.edges@,
            shared_perimeters@,
        ),
        1 + 0xffff * events@.len() <= u64::MAX,
        forall|i: int| 0 <= i < events@.len() ==> (#[trigger] events@[i]).wf(),
    ensures
        numbered(r.0@, taken_reps(event_reps(events@), max_samples)),
        forall|i: int|
            0 <= i < r.0@.len() ==> (#[trigger] r.0@[i]).row.starts_over == (events@[i] is Snapshot)
                && observes(r.0@[i].row.row.observed, chain_plan(events@, i + 1))
                && r.0@[i].row.row.postings@ == perimeter_postings(
                area_values@,
                total_perimeters@,
                graph.edges@,
                shared_perimeters@,
                events@,
                i,
            ),
        r.1 is Ok <==> uniform_chain(
            events@,
            taken_reps(event_reps(events@), max_samples).len(),
            graph.node_count as nat,
        ),
        r.1 matches Err(e) ==> reports_chain(
            events@,
            graph.node_count,
            "graph node count"@,
            true,
            taken_reps(event_reps(events@), max_samples).len(),
            "polsby-popper"@,
            r.0@.len(),
            e,
        ),
        r.1 is Ok ==> r.0@.len() == taken_reps(event_reps(events@), max_samples).len(),
{
    let ghost all = events@;
    let state = IncrementalPolsbyPopper::new(
        graph,
        area_values,
        total_perimeters,
        shared_perimeters,
    );
    let ghost start = state;
    let output = |m: &IncrementalPolsbyPopper<W>| -> (out: ChainPostings<W>)
        requires
            m.wf(),
        ensures
            out.postings@ == m.postings@,
            out.observed == m.presence.observed,
        { ChainPostings { postings: copied(&m.postings), observed: m.presence.observed } };
    let name = "polsby-popper".to_owned();
    let ended = run_incremental_twodelta(
        events,
        graph.node_count,
        "graph node count",
        true,
        name,
        max_samples,
        state,
        output,
    );
    proof {
        let states = choose|states: Seq<IncrementalPolsbyPopper<W>>| #[trigger]
            chain_outcome(
                start,
                all,
                graph.node_count,
                "graph node count"@,
                true,
                "polsby-popper"@,
                max_samples,
                output,
                states,
                ended.0@,
                ended.1,
            );
        assert forall|m: IncrementalPolsbyPopper<W>, plan: Seq<u16>| #[trigger]
            m.tracks(plan) && within_limit(plan) implies observes(m.labels(), plan) by {
            lemma_presence_observes(m.presence, plan);
        }
        law_chain_by_labels(
            start,
            all,
            graph.node_count,
            "graph node count"@,
            true,
            "polsby-popper"@,
            max_samples,
            output,
            states,
            ended.0@,
            ended.1,
        );
        assert forall|i: int| 0 <= i < ended.0@.len() implies (
        #[trigger] ended.0@[i]).row.starts_over == (all[i] is Snapshot) && observes(
            ended.0@[i].row.row.observed,
            chain_plan(all, i + 1),
        ) && ended.0@[i].row.row.postings@ == perimeter_postings(
            area_values@,
            total_perimeters@,
            graph.edges@,
            shared_perimeters@,
            all,
            i,
        ) by {
            lemma_same_values(start, all, states, i);
            assert(follows_event(state_before(start, states, i), states[i], all, i));
            assert(observes(states[i].labels(), chain_plan(all, i + 1)));
        }
    }
    ended
}

proof fn lemma_same_values<W: Copy>(
    start: IncrementalPolsbyPopper<W>,
    events: Seq<TwoDeltaEvent>,
    states: Seq<IncrementalPolsbyPopper<W>>,
    i: int,
)
    requires
        0 <= i < states.len(),
        forall|j: int|
            0 <= j < states.len() ==> follows_event(
                state_before(start, states, j),
                #[trigger] states[j],
                events,
                j,
            ),
    ensures
        states[i].same_input(start),
    decreases i,
{
    assert(follows_event(state_before(start, states, i), states[i], events, i));
    if i > 0 {
        lemma_same_values(start, events, states, i - 1);
    }
}

/// Along a chain, what was added to and subtracted from areas and perimeters since they last started
/// over is for every plan what a seed from that plan alone would post.
pub proof fn law_chain_perimeters_are_plan_perimeters<W>(
    areas: Seq<W>,
    perimeters: Seq<W>,
    edges: Seq<(u32, u32)>,
    shared: Seq<W>,
    events: Seq<TwoDeltaEvent>,
    n: nat,
    i: int,
    table: usize,
    district: int,
    worth: spec_fn(W) -> int,
)
    requires
        0 <= i < events.len(),
        edges.len() <= usize::MAX,
        polsby_popper_input(n, areas, perimeters, edges, shared),
        table == AREA_TABLE || table == PERIMETER_TABLE || table == SHARED_TABLE,
        forall|j: int| 0 <= j < events.len() ==> (#[trigger] events[j]).wf(),
        forall|j: int| 0 <= j <= i ==> #[trigger] event_fits(events, n, j),
    ensures
        balance(
            posted_since(
                events,
                |j: int| perimeter_postings(areas, perimeters, edges, shared, events, j),
                i,
            ),
            table as int,
            district,
            worth,
        ) == balance(
            plan_postings(areas, perimeters, edges, shared, chain_plan(events, i + 1)),
            table as int,
            district,
            worth,
        ),
    decreases i,
{
    let made = |j: int| perimeter_postings(areas, perimeters, edges, shared, events, j);
    lemma_chain_plans(events, n, i + 1);
    assert(event_fits(events, n, i));
    if let TwoDeltaEvent::Delta { changes, .. } = events[i] {
        law_chain_perimeters_are_plan_perimeters(
            areas,
            perimeters,
            edges,
            shared,
            events,
            n,
            i - 1,
            table,
            district,
            worth,
        );
        let before = chain_plan(events, i);
        let all = as_changes(changes@);
        assert(before == chain_plan(events, (i - 1) + 1));
        assert(events[i].wf());
        lemma_chain_plan(events, n, i);
        law_patched_perimeters_are_recomputed_perimeters(
            areas,
            perimeters,
            edges,
            shared,
            before,
            all,
            district,
            table,
            worth,
        );
        lemma_balance_add(
            posted_since(events, made, i - 1),
            made(i),
            table as int,
            district,
            worth,
        );
    }
}

} // verus!
