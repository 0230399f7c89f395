//! Reock along a chain of plans: which units each district has, and which districts to score anew.
use crate::district::{observes, within_limit, MAX_DISTRICTS};
use crate::error::Error;
use crate::metrics::chain::{
    chain_outcome, chain_plan, event_fits, event_reps, follows_event, law_chain_by_labels,
    lemma_chain_plan, lemma_chain_plans, reports_chain, run_incremental_twodelta, state_before,
    uniform_chain, ChainRow,
};
use crate::metrics::chain_runs::{copied, posted_since};
use crate::metrics::ledger::{balance, district_sum, lemma_balance_add, Posting};
use crate::metrics::reock::{
    law_moves_unit, law_patched_areas_are_recomputed_areas, law_pending, law_unit_postings,
    lemma_lists_units, lemma_unit_count, move_postings, moves_unit, pending, unit_postings,
    IncrementalReock,
};
use crate::metrics::table::{numbered, scorable};
use crate::metrics::twodelta::{
    applied, as_changes, raw_matches, IncrementalTwoDeltaMetric, TwoDeltaEvent,
};
use crate::pipeline::{taken_reps, PipelineRow};
use vstd::prelude::*;
use vstd::slice::slice_to_vec;

verus! {

/// What an event changes: the labels of its plan, the units of every district and their number, what
/// is added to and subtracted from the district areas, which districts lost their last unit, and
/// which are to be scored anew.
#[derive(Debug)]
pub struct ReockChange<W> {
    pub observed: u128,
    pub units: Vec<Vec<usize>>,
    pub unit_counts: Vec<u32>,
    pub postings: Vec<Posting<W>>,
    pub emptied: Vec<usize>,
    pub recompute: Vec<usize>,
}

/// Whether each district of `plan` lists its units, each once.
pub open spec fn lists_units(units: Seq<Vec<usize>>, plan: Seq<u16>) -> bool {
    &&& units.len() == MAX_DISTRICTS
    &&& forall|d: int|
        0 <= d < units.len() ==> (#[trigger] units[d])@.no_duplicates() && forall|u: usize| #[trigger]
            units[d]@.contains(u) <==> u < plan.len() && plan[u as int] == d
}

/// What event `i` adds to and subtracts from district areas.
pub open spec fn area_postings<W>(
    areas: Seq<W>,
    events: Seq<TwoDeltaEvent>,
    i: int,
) -> Seq<Posting<W>> {
    match events[i] {
        TwoDeltaEvent::Snapshot { assignment, .. } => unit_postings(
            areas,
            assignment@,
            assignment@.len() as int,
        ),
        TwoDeltaEvent::Delta { changes, .. } => move_postings(areas, as_changes(changes@)),
    }
}

/// Whether event `i` touches district `d`: a full plan touches all of them.
pub open spec fn touches(events: Seq<TwoDeltaEvent>, i: int, d: int) -> bool {
    match events[i] {
        TwoDeltaEvent::Snapshot { .. } => true,
        TwoDeltaEvent::Delta { changes, .. } => moves_unit(as_changes(changes@), d),
    }
}

impl<W> ReockChange<W> {
    /// Whether this is what event `i` changes.
    pub open spec fn is_of(&self, areas: Seq<W>, events: Seq<TwoDeltaEvent>, i: int) -> bool {
        &&& observes(self.observed, chain_plan(events, i + 1))
        &&& lists_units(self.units@, chain_plan(events, i + 1))
        &&& self.unit_counts@.len() == MAX_DISTRICTS
        &&& forall|d: int|
            0 <= d < MAX_DISTRICTS ==> #[trigger] self.unit_counts@[d] == self.units@[d]@.len()
        &&& self.postings@ == area_postings(areas, events, i)
        &&& self.recompute@ == pending(
            |d: int| touches(events, i, d),
            self.unit_counts@,
            false,
            MAX_DISTRICTS as int,
        )
        &&& match events[i] {
            TwoDeltaEvent::Snapshot { .. } => self.emptied@.len() == 0,
            TwoDeltaEvent::Delta { .. } => self.emptied@ == pending(
                |d: int| touches(events, i, d),
                self.unit_counts@,
                true,
                MAX_DISTRICTS as int,
            ),
        }
    }
}

fn copied_lists(lists: &Vec<Vec<usize>>) -> (r: Vec<Vec<usize>>)
    ensures
        r@.len() == lists@.len(),
        forall|d: int| 0 <= d < r@.len() ==> (#[trigger] r@[d])@ == lists@[d]@,
{
    let mut copy: Vec<Vec<usize>> = Vec::new();
    let mut d: usize = 0;
    while d < lists.len()
        invariant
            d <= lists@.len(),
            copy@.len() == d,
            forall|k: int| 0 <= k < d ==> (#[trigger] copy@[k])@ == lists@[k]@,
        decreases lists.len() - d,
    {
        copy.push(slice_to_vec(lists[d].as_slice()));
        d += 1;
    }
    copy
}

/// What the events of a chain change.
pub fn run_incremental_twodelta_reock<W: Copy>(
    unit_areas: &[W],
    events: Vec<TwoDeltaEvent>,
    max_samples: Option<usize>,
) -> (r: (Vec<PipelineRow<ChainRow<ReockChange<W>>>>, Result<(), Error>))
    requires
        unit_areas@.len() <= u32::MAX,
        1 + 0xffff * events@.len() <= u64::MAX,
        forall|i: int| 0 <= i < events@.len() ==> (#[trigger] events@[i]).wf(),
    ensures
        numbered(r.0@, taken_reps(event_reps(events@), max_samples)),
        forall|i: int|
            0 <= i < r.0@.len() ==> (#[trigger] r.0@[i]).row.starts_over == (events@[i] is Snapshot)
                && r.0@[i].row.row.is_of(unit_areas@, events@, i),
        r.1 is Ok <==> uniform_chain(
            events@,
            taken_reps(event_reps(events@), max_samples).len(),
            unit_areas@.len(),
        ),
        r.1 matches Err(e) ==> reports_chain(
            events@,
            unit_areas@.len() as usize,
            "geometry row count"@,
            false,
            taken_reps(event_reps(events@), max_samples).len(),
            "reock"@,
            r.0@.len(),
            e,
        ),
        r.1 is Ok ==> r.0@.len() == taken_reps(event_reps(events@), max_samples).len(),
{
    let ghost all = events@;
    let unit_count: usize = unit_areas.len();
    let state = IncrementalReock::new(unit_areas);
    let ghost start = state;
    let output = |m: &IncrementalReock<W>| -> (out: ReockChange<W>)
        requires
            m.wf(),
        ensures
            out.observed == m.state.observed,
            out.units@.len() == m.state.nodes_by_district@.len(),
            forall|d: int|
                0 <= d < out.units@.len() ==> (#[trigger] out.units@[d])@
                    == m.state.nodes_by_district@[d]@,
            out.unit_counts@ == m.state.node_counts@,
            out.postings@ == m.postings@,
            out.emptied@ == m.emptied@,
            out.recompute@ == m.recompute@,
        {
            ReockChange {
                observed: m.state.observed,
                units: copied_lists(&m.state.nodes_by_district),
                unit_counts: slice_to_vec(m.state.node_counts.as_slice()),
                postings: copied(&m.postings),
                emptied: slice_to_vec(m.emptied.as_slice()),
                recompute: slice_to_vec(m.recompute.as_slice()),
            }
        };
    let name = "reock".to_owned();
    let ended = run_incremental_twodelta(
        events,
        unit_count,
        "geometry row count",
        false,
        name,
        max_samples,
        state,
        output,
    );
    proof {
        let states = choose|states: Seq<IncrementalReock<W>>| #[trigger]
            chain_outcome(
                start,
                all,
                unit_count,
                "geometry row count"@,
                false,
                "reock"@,
                max_samples,
                output,
                states,
                ended.0@,
                ended.1,
            );
        assert forall|m: IncrementalReock<W>, plan: Seq<u16>| #[trigger]
            m.tracks(plan) && within_limit(plan) implies observes(m.labels(), plan) by {}
        law_chain_by_labels(
            start,
            all,
            unit_count,
            "geometry row count"@,
            false,
            "reock"@,
            max_samples,
            output,
            states,
            ended.0@,
            ended.1,
        );
        let m = ended.0@.len() as int;
        assert forall|i: int| 0 <= i < m implies (#[trigger] ended.0@[i]).row.row.is_of(
            unit_areas@,
            all,
            i,
        ) by {
            lemma_same_areas(start, all, states, i);
            assert(follows_event(state_before(start, states, i), states[i], all, i));
            assert(scorable(chain_plan(all, i + 1), unit_count as nat));
            lemma_change(
                states[i],
                state_before(start, states, i),
                ended.0@[i].row.row,
                all,
                i,
            );
        }
    }
    ended
}

proof fn lemma_same_areas<W: Copy>(
    start: IncrementalReock<W>,
    events: Seq<TwoDeltaEvent>,
    states: Seq<IncrementalReock<W>>,
    i: int,
)
    requires
        0 <= i < states.len(),
        forall|j: int|
            0 <= j < states.len() ==> follows_event(
                state_before(start, states, j),
                #[trigger] states[j],
                events,
                j,
            ),
    ensures
        states[i].unit_areas == start.unit_areas,
    decreases i,
{
    assert(follows_event(state_before(start, states, i), states[i], events, i));
    if i > 0 {
        lemma_same_areas(start, events, states, i - 1);
    }
}

/// What a metric that follows an event lists is what the event changes.
proof fn lemma_change<W: Copy>(
    m: IncrementalReock<W>,
    before: IncrementalReock<W>,
    row: ReockChange<W>,
    events: Seq<TwoDeltaEvent>,
    i: int,
)
    requires
        0 <= i < events.len(),
        follows_event(before, m, events, i),
        row.observed == m.state.observed,
        row.units@.len() == m.state.nodes_by_district@.len(),
        forall|d: int|
            0 <= d < row.units@.len() ==> (#[trigger] row.units@[d])@
                == m.state.nodes_by_district@[d]@,
        row.unit_counts@ == m.state.node_counts@,
        row.postings@ == m.postings@,
        row.emptied@ == m.emptied@,
        row.recompute@ == m.recompute@,
        chain_plan(events, i + 1).len() <= u32::MAX,
    ensures
        row.is_of(m.unit_areas@, events, i),
{
    let plan = chain_plan(events, i + 1);
    let state = m.state;
    assert(m.tracks(plan));
    assert forall|d: int| 0 <= d < row.units@.len() implies (
    #[trigger] row.units@[d])@.no_duplicates() && forall|u: usize| #[trigger]
        row.units@[d]@.contains(u) <==> u < plan.len() && plan[u as int] == d by {
        lemma_lists_units(state, plan, d);
        assert(row.units@[d]@ == state.nodes_by_district@[d]@);
    }
    assert forall|d: int| 0 <= d < MAX_DISTRICTS implies #[trigger] row.unit_counts@[d]
        == row.units@[d]@.len() by {
        assert(state.node_counts@[d] == state.nodes_by_district@[d]@.len());
    }
    let touched = |d: int| touches(events, i, d);
    match events[i] {
        TwoDeltaEvent::Snapshot { .. } => {
            assert((|d: int| true) =~= touched);
        },
        TwoDeltaEvent::Delta { changes, .. } => {
            let all = as_changes(changes@);
            assert((|d: int| moves_unit(all, d)) =~= touched);
        },
    }
}

/// Along a chain, what was added to and subtracted from the district areas since they last started
/// over is for every plan the sum of the areas of each district's units.
pub proof fn law_chain_areas_are_district_sums<W>(
    areas: Seq<W>,
    events: Seq<TwoDeltaEvent>,
    n: nat,
    i: int,
    district: int,
    worth: spec_fn(W) -> int,
)
    requires
        0 <= i < events.len(),
        forall|j: int| 0 <= j < events.len() ==> (#[trigger] events[j]).wf(),
        forall|j: int| 0 <= j <= i ==> #[trigger] event_fits(events, n, j),
    ensures
        balance(
            posted_since(events, |j: int| area_postings(areas, events, j), i),
            0,
            district,
            worth,
        ) == district_sum(areas, chain_plan(events, i + 1), district, n as int, worth),
    decreases i,
{
    let made = |j: int| area_postings(areas, events, j);
    let after = chain_plan(events, i + 1);
    lemma_chain_plans(events, n, i + 1);
    assert(event_fits(events, n, i));
    assert(after.len() == n);
    law_unit_postings(areas, after, n as int, district, worth);
    if let TwoDeltaEvent::Delta { changes, .. } = events[i] {
        law_chain_areas_are_district_sums(areas, events, n, i - 1, district, worth);
        let before = chain_plan(events, i);
        let all = as_changes(changes@);
        assert(before == chain_plan(events, (i - 1) + 1));
        assert(events[i].wf());
        lemma_chain_plan(events, n, i);
        law_patched_areas_are_recomputed_areas(areas, before, all, district, worth);
        law_unit_postings(areas, before, n as int, district, worth);
        lemma_balance_add(posted_since(events, made, i - 1), made(i), 0, district, worth);
    }
}

/// What an event changes for a district: its units are the nodes that the plan after the event gives
/// its label, each once. It is scored anew exactly when it has units and the event is a full plan or
/// moves a node into or out of it, and it is emptied exactly when a delta takes its last node.
pub proof fn law_reock_change<W>(
    change: ReockChange<W>,
    areas: Seq<W>,
    events: Seq<TwoDeltaEvent>,
    n: nat,
    i: int,
    d: usize,
)
    requires
        0 <= i < events.len(),
        change.is_of(areas, events, i),
        forall|j: int| 0 <= j < events.len() ==> (#[trigger] events[j]).wf(),
        forall|j: int| 0 <= j <= i ==> #[trigger] event_fits(events, n, j),
        n <= u32::MAX,
        d < 128,
    ensures
        change.units@[d as int]@.no_duplicates(),
        forall|u: usize| #[trigger]
            change.units@[d as int]@.contains(u) <==> u < n && chain_plan(events, i + 1)[u as int]
                == d,
        change.unit_counts@[d as int] == Set::new(
            |u: int| 0 <= u < n && chain_plan(events, i + 1)[u] == d,
        ).len(),
        events[i] is Snapshot ==> (change.recompute@.contains(d) <==> exists|u: int|
            0 <= u < n && #[trigger] chain_plan(events, i + 1)[u] == d) && !change.emptied@.contains(
            d,
        ),
        events[i] is Delta ==> (change.recompute@.contains(d) <==> (exists|u: int|
            0 <= u < n && #[trigger] chain_plan(events, i + 1)[u] == d) && (exists|u: int|
            0 <= u < n && (chain_plan(events, i)[u] == d) != (#[trigger] chain_plan(
                events,
                i + 1,
            )[u] == d))),
        events[i] is Delta ==> (change.emptied@.contains(d) <==> !(exists|u: int|
            0 <= u < n && #[trigger] chain_plan(events, i + 1)[u] == d) && (exists|u: int|
            0 <= u < n && (chain_plan(events, i)[u] == d) != (#[trigger] chain_plan(
                events,
                i + 1,
            )[u] == d))),
{
    let before = chain_plan(events, i);
    let plan = chain_plan(events, i + 1);
    lemma_chain_plans(events, n, i + 1);
    assert(event_fits(events, n, i));
    assert(plan.len() == n);
    let list = change.units@[d as int]@;
    assert(list.no_duplicates());
    assert forall|p: int| 0 <= p < list.len() implies #[trigger] list[p] < plan.len() by {
        assert(list.contains(list[p]));
    }
    lemma_unit_count(list, plan, d as int);
    assert(Set::new(|u: int| 0 <= u < n && chain_plan(events, i + 1)[u] == d) =~= Set::new(
        |u: int| 0 <= u < plan.len() && plan[u] == d as int,
    ));
    assert(change.unit_counts@[d as int] == list.len());
    assert(list.len() > 0 <==> exists|u: int| 0 <= u < n && #[trigger] plan[u] == d) by {
        if list.len() > 0 {
            assert(list.contains(list[0]));
            assert(plan[list[0] as int] == d);
        }
        if exists|u: int| 0 <= u < n && #[trigger] plan[u] == d {
            let u = choose|u: int| 0 <= u < n && #[trigger] plan[u] == d;
            assert(list.contains(u as usize));
        }
    }
    let touched = |x: int| touches(events, i, x);
    law_pending(touched, change.unit_counts@, false, MAX_DISTRICTS as int);
    law_pending(touched, change.unit_counts@, true, MAX_DISTRICTS as int);
    assert(touched(d as int) == touches(events, i, d as int));
    if let TwoDeltaEvent::Delta { changes, .. } = events[i] {
        let all = as_changes(changes@);
        assert(event_fits(events, n, i - 1));
        assert(before == chain_plan(events, (i - 1) + 1));
        assert(before.len() == n);
        assert(events[i].wf());
        assert forall|k: int| 0 <= k < all.len() implies (#[trigger] all[k]).node < before.len()
            && before[all[k].node as int] == all[k].old by {
            assert(raw_matches(before, changes@[k]));
        }
        assert forall|j: int, k: int| 0 <= j < k < all.len() implies (#[trigger] all[j]).node != (
        #[trigger] all[k]).node by {
            assert(changes@[j].0 != changes@[k].0);
        }
        law_moves_unit(before, all, d as int);
        assert(plan == applied(before, all));
        if exists|u: int| 0 <= u < before.len() && (#[trigger] before[u] == d) != (plan[u] == d) {
            let u = choose|u: int|
                0 <= u < before.len() && (#[trigger] before[u] == d) != (plan[u] == d);
            assert((before[u] == d) != (chain_plan(events, i + 1)[u] == d));
        }
        if exists|u: int| 0 <= u < n && (before[u] == d) != (#[trigger] plan[u] == d) {
            let u = choose|u: int| 0 <= u < n && (before[u] == d) != (#[trigger] plan[u] == d);
            assert((before[u] == d as int) != (plan[u] == d as int));
        }
    } else {
        assert(change.emptied@.len() == 0);
    }
}

} // verus!
