//! Chains of plans: full plans, and what changes from plan to plan.
//!
//! A metric follows a chain event by event. Each accepted plan gives a row, numbered by sample and
//! by plan, and every plan has to use the labels of the first.
use crate::district::{
    district_set_changed_text, observes, reports_first_excess, within_limit, MAX_DISTRICTS,
};
use crate::error::Error;
use crate::metrics::table::{
    lemma_same_masks, numbered, reports_label_change, same_labels, scorable,
};
use crate::metrics::twodelta::{
    applicable, applied, as_changes, change_report, law_applied_labels, law_delta_labels,
    law_distinct_changes_apply, lemma_applied_len, new_labels_fit, no_snapshot_text, raw_matches,
    reports_in_turn, reports_new_label, IncrementalTwoDeltaMetric, TwoDeltaEvent, TwoDeltaRun,
};
use crate::pipeline::{
    law_capped_total, lemma_taken_step, reports_length, sum_reps, taken_reps, PipelineRow,
};
use vstd::prelude::*;

verus! {

/// The plan after the first `n` events.
pub open spec fn chain_plan(events: Seq<TwoDeltaEvent>, n: int) -> Seq<u16>
    decreases n,
{
    if n <= 0 {
        Seq::empty()
    } else {
        match events[n - 1] {
            TwoDeltaEvent::Snapshot { assignment, .. } => assignment@,
            TwoDeltaEvent::Delta { changes, .. } => applied(
                chain_plan(events, n - 1),
                as_changes(changes@),
            ),
        }
    }
}

/// The plans of a chain.
pub open spec fn chain_plans(events: Seq<TwoDeltaEvent>) -> Seq<Seq<u16>> {
    Seq::new(events.len(), |i: int| chain_plan(events, i + 1))
}

/// The sample counts of events.
pub open spec fn event_reps(events: Seq<TwoDeltaEvent>) -> Seq<u16> {
    Seq::new(events.len(), |i: int| events[i].reps())
}

/// Whether event `i` can be followed: a full plan that can be scored, or changes to the plan before
/// whose new labels fit.
pub open spec fn event_fits(events: Seq<TwoDeltaEvent>, n: nat, i: int) -> bool {
    match events[i] {
        TwoDeltaEvent::Snapshot { assignment, .. } => scorable(assignment@, n),
        TwoDeltaEvent::Delta { changes, .. } => {
            &&& i > 0
            &&& forall|k: int|
                0 <= k < changes@.len() ==> raw_matches(
                    chain_plan(events, i),
                    #[trigger] changes@[k],
                )
            &&& new_labels_fit(as_changes(changes@))
        },
    }
}

/// Whether `e` reports why event `i` cannot be followed. `label` says what fixes the length `n`, and
/// `in_turn` whether changes and the labels that they assign are checked together.
pub open spec fn reports_event(
    events: Seq<TwoDeltaEvent>,
    n: usize,
    label: Seq<char>,
    in_turn: bool,
    i: int,
    e: Error,
) -> bool {
    match events[i] {
        TwoDeltaEvent::Snapshot { assignment, .. } => if assignment@.len() != n {
            reports_length(e, assignment@.len(), n as nat, label)
        } else {
            reports_first_excess(e, assignment@)
        },
        TwoDeltaEvent::Delta { changes, .. } => {
            let plan = chain_plan(events, i);
            if i == 0 {
                e.is_invalid_data(no_snapshot_text())
            } else if in_turn {
                reports_in_turn(plan, changes@, e)
            } else if exists|k: int|
                0 <= k < changes@.len() && !raw_matches(plan, #[trigger] changes@[k]) {
                exists|k: int|
                    0 <= k < changes@.len() && change_report(plan, #[trigger] changes@[k], e)
                        && forall|j: int| 0 <= j < k ==> raw_matches(plan, #[trigger] changes@[j])
            } else {
                reports_new_label(as_changes(changes@), e)
            }
        },
    }
}

/// Whether all events that a run takes can be followed and keep the labels of the first plan.
pub open spec fn uniform_chain(events: Seq<TwoDeltaEvent>, taken: nat, n: nat) -> bool {
    forall|i: int|
        0 <= i < taken ==> #[trigger] event_fits(events, n, i) && same_labels(
            chain_plan(events, i + 1),
            chain_plan(events, 1),
        )
}

/// Whether `e` reports the first event that cannot be followed, or that changes the labels. All
/// events before it give a row: `rows` of them.
pub open spec fn reports_chain(
    events: Seq<TwoDeltaEvent>,
    n: usize,
    label: Seq<char>,
    in_turn: bool,
    taken: nat,
    output_name: Seq<char>,
    rows: nat,
    e: Error,
) -> bool {
    let i = rows as int;
    &&& rows < taken
    &&& uniform_chain(events, rows, n as nat)
    &&& if event_fits(events, n as nat, i) {
        &&& !same_labels(chain_plan(events, i + 1), chain_plan(events, 1))
        &&& reports_label_change(
            chain_plan(events, 1),
            chain_plan(events, i + 1),
            output_name,
            e,
        )
    } else {
        reports_event(events, n, label, in_turn, i, e)
    }
}

/// The plans of events that can be followed have all nodes and labels that fit, and their changes
/// can be made in turn.
pub proof fn lemma_chain_plan(events: Seq<TwoDeltaEvent>, n: nat, i: int)
    requires
        0 <= i < events.len(),
        events[i].wf(),
        event_fits(events, n, i),
        events[i] is Delta ==> scorable(chain_plan(events, i), n),
    ensures
        scorable(chain_plan(events, i + 1), n),
        events[i] matches TwoDeltaEvent::Delta { changes, .. } ==> applicable(
            chain_plan(events, i),
            as_changes(changes@),
        ),
{
    if let TwoDeltaEvent::Delta { changes, .. } = events[i] {
        let before = chain_plan(events, i);
        let all = as_changes(changes@);
        assert forall|k: int| 0 <= k < all.len() implies (#[trigger] all[k]).node < before.len()
            && before[all[k].node as int] == all[k].old by {
            assert(raw_matches(before, changes@[k]));
        }
        assert forall|a: int, b: int| 0 <= a < b < all.len() implies (#[trigger] all[a]).node
            != (#[trigger] all[b]).node by {
            assert(changes@[a].0 != changes@[b].0);
        }
        law_distinct_changes_apply(before, all);
        lemma_applied_len(before, all);
        law_applied_labels(before, all);
        assert forall|x: int| 0 <= x < before.len() implies #[trigger] applied(before, all)[x]
            < MAX_DISTRICTS by {
            if exists|k: int| 0 <= k < all.len() && (#[trigger] all[k]).node == x {
                let k = choose|k: int| 0 <= k < all.len() && (#[trigger] all[k]).node == x;
                assert(applied(before, all)[all[k].node as int] == all[k].new);
            } else {
                assert(applied(before, all)[x] == before[x]);
            }
        }
    }
}

/// Whether a metric goes from `before` to `after` with event `i`.
pub open spec fn follows_event<M: IncrementalTwoDeltaMetric>(
    before: M,
    after: M,
    events: Seq<TwoDeltaEvent>,
    i: int,
) -> bool {
    &&& after.wf()
    &&& after.tracks(chain_plan(events, i + 1))
    &&& match events[i] {
        TwoDeltaEvent::Snapshot { assignment, .. } => after.seeded(before, assignment@),
        TwoDeltaEvent::Delta { changes, .. } => after.patched(
            before,
            chain_plan(events, i),
            as_changes(changes@),
        ),
    }
}

/// The metric before event `i`.
pub open spec fn state_before<M>(start: M, states: Seq<M>, i: int) -> M {
    if i == 0 {
        start
    } else {
        states[i - 1]
    }
}

/// One row of a chain: whether totals start over with it, and what the metric gives.
#[derive(Debug)]
pub struct ChainRow<Row> {
    pub starts_over: bool,
    pub row: Row,
}

/// Whether `states` are what a metric goes through along the events, and `rows` what it gives there,
/// with one label set throughout.
pub open spec fn follows_chain<M: IncrementalTwoDeltaMetric, Row, F: Fn(&M) -> Row>(
    start: M,
    events: Seq<TwoDeltaEvent>,
    output: F,
    kept: Seq<u16>,
    states: Seq<M>,
    rows: Seq<PipelineRow<ChainRow<Row>>>,
) -> bool {
    &&& states.len() == rows.len()
    &&& numbered(rows, kept)
    &&& forall|i: int|
        0 <= i < states.len() ==> follows_event(
            state_before(start, states, i),
            #[trigger] states[i],
            events,
            i,
        ) && states[i].labels() == states[0].labels()
    &&& forall|i: int|
        0 <= i < rows.len() ==> (#[trigger] rows[i]).row.starts_over == (events[i] is Snapshot)
            && call_ensures(output, (&states[i],), rows[i].row.row)
    &&& forall|i: int|
        0 <= i < rows.len() ==> #[trigger] event_fits(events, start.node_count(), i)
}

/// Whether `e` is why a run ends with event `i`: it cannot be followed, or it changes the labels.
pub open spec fn ends_chain<M: IncrementalTwoDeltaMetric>(
    start: M,
    events: Seq<TwoDeltaEvent>,
    n: usize,
    label: Seq<char>,
    in_turn: bool,
    output_name: Seq<char>,
    states: Seq<M>,
    e: Error,
) -> bool {
    let i = states.len() as int;
    if event_fits(events, n as nat, i) {
        i > 0 && exists|after: M| #[trigger]
            follows_event(states[i - 1], after, events, i) && after.labels() != states[0].labels()
                && (e matches Error::DistrictSetChanged(message) && message@
                == district_set_changed_text(after.labels(), states[0].labels(), output_name))
    } else {
        reports_event(events, n, label, in_turn, i, e)
    }
}

/// Whether a run over events ends with `rows` and `outcome`, where `states` are what the metric goes
/// through.
pub open spec fn chain_outcome<M: IncrementalTwoDeltaMetric, Row, F: Fn(&M) -> Row>(
    start: M,
    events: Seq<TwoDeltaEvent>,
    n: usize,
    label: Seq<char>,
    in_turn: bool,
    output_name: Seq<char>,
    max_samples: Option<usize>,
    output: F,
    states: Seq<M>,
    rows: Seq<PipelineRow<ChainRow<Row>>>,
    outcome: Result<(), Error>,
) -> bool {
    let kept = taken_reps(event_reps(events), max_samples);
    &&& kept.len() <= events.len()
    &&& follows_chain(start, events, output, kept, states, rows)
    &&& match outcome {
        Ok(()) => rows.len() == kept.len(),
        Err(e) => rows.len() < kept.len() && ends_chain(
            start,
            events,
            n,
            label,
            in_turn,
            output_name,
            states,
            e,
        ),
    }
}

/// Follow a chain with a metric. Every accepted plan gives a row of what `output` makes of the metric.
/// With `labels_in_turn`, changes and the labels that they assign are checked together.
///
/// Returns the rows, and why the run ended early if it did.
#[verifier::rlimit(60)]
#[verifier::spinoff_prover]
pub fn run_incremental_twodelta<M: IncrementalTwoDeltaMetric, Row, F: Fn(&M) -> Row>(
    events: Vec<TwoDeltaEvent>,
    expected_len: usize,
    expected_len_label: &'static str,
    labels_in_turn: bool,
    output_name: String,
    max_samples: Option<usize>,
    metric: M,
    output: F,
) -> (r: (Vec<PipelineRow<ChainRow<Row>>>, Result<(), Error>))
    requires
        metric.wf(),
        metric.node_count() == expected_len,
        metric.patches_left() >= events@.len(),
        1 + 0xffff * events@.len() <= u64::MAX,
        forall|i: int| 0 <= i < events@.len() ==> (#[trigger] events@[i]).wf(),
        forall|m: &M| m.wf() ==> #[trigger] call_requires(output, (m,)),
    ensures
        exists|states: Seq<M>| #[trigger]
            chain_outcome(
                metric,
                events@,
                expected_len,
                expected_len_label@,
                labels_in_turn,
                output_name@,
                max_samples,
                output,
                states,
                r.0@,
                r.1,
            ),
{
    let ghost all = events@;
    let ghost start = metric;
    let ghost counts = event_reps(all);
    let ghost kept = taken_reps(counts, max_samples);
    let ghost mut states: Seq<M> = Seq::empty();
    let mut current = metric;
    let mut run = TwoDeltaRun::new(
        expected_len,
        expected_len_label,
        output_name,
        max_samples,
    ).checking_in_turn(labels_in_turn);
    let mut rows: Vec<PipelineRow<ChainRow<Row>>> = Vec::new();
    let mut forward: Vec<TwoDeltaEvent> = events;
    let mut pending: Vec<TwoDeltaEvent> = Vec::new();
    while forward.len() > 0
        invariant
            all == events@,
            forward@.len() + pending@.len() == all.len(),
            forward@ == all.take(forward@.len() as int),
            forall|i: int|
                0 <= i < pending@.len() ==> #[trigger] pending@[i] == all[all.len() - 1 - i],
        decreases forward.len(),
    {
        if let Some(event) = forward.pop() {
            pending.push(event);
            proof {
                assert(forward@ =~= all.take(forward@.len() as int));
            }
        }
    }
    proof {
        law_capped_total(counts, max_samples);
        assert(counts.skip(0) =~= counts);
        assert(kept.skip(0) =~= kept);
        assert(kept.take(0) =~= Seq::<u16>::empty());
    }
    while pending.len() > 0 && run.wants_event()
        invariant
            all == events@,
            counts == event_reps(all),
            kept == taken_reps(counts, max_samples),
            kept.len() <= all.len(),
            1 + 0xffff * all.len() <= u64::MAX,
            forall|i: int| 0 <= i < all.len() ==> (#[trigger] all[i]).wf(),
            forall|m: &M| m.wf() ==> #[trigger] call_requires(output, (m,)),
            rows@.len() + pending@.len() == all.len(),
            rows@.len() <= kept.len(),
            forall|i: int|
                0 <= i < pending@.len() ==> #[trigger] pending@[i] == all[all.len() - 1 - i],
            kept.skip(rows@.len() as int) == taken_reps(
                counts.skip(rows@.len() as int),
                run.remaining_samples,
            ),
            start == metric,
            start.node_count() == expected_len,
            run.expected_len == expected_len,
            run.expected_len_label == expected_len_label,
            run.output_name == output_name,
            run.labels_in_turn == labels_in_turn,
            run.follows(current),
            current.patches_left() >= pending@.len(),
            run.step == 1 + sum_reps(kept.take(rows@.len() as int)),
            sum_reps(kept.take(rows@.len() as int)) <= 0xffff * rows@.len(),
            run.accepted == rows@.len() + 1,
            match run.assignment {
                Some(plan) => rows@.len() > 0 && plan@ == chain_plan(all, rows@.len() as int),
                None => rows@.len() == 0,
            },
            run.expected_observed == (if rows@.len() == 0 {
                None
            } else {
                Some(states[0].labels())
            }),
            current == state_before(start, states, rows@.len() as int),
            follows_chain(start, all, output, kept, states, rows@),
        decreases pending.len(),
    {
        let ghost i = rows@.len() as int;
        let ghost before = run;
        let ghost state = current;
        let event = match pending.pop() {
            Some(event) => event,
            None => {
                return (rows, Ok(()));
            },
        };
        let starts_over = match &event {
            TwoDeltaEvent::Snapshot { assignment: _, count: _ } => true,
            TwoDeltaEvent::Delta { changes: _, count: _ } => false,
        };
        proof {
            assert(event == all[i]);
            assert(event.wf());
            lemma_taken_step(counts, i, max_samples, run.remaining_samples);
            assert(counts[i] == event.reps());
            assert(kept.take(i + 1).drop_last() =~= kept.take(i));
            assert(kept.take(i + 1).last() == kept[i]);
            assert(before.accepts(event) <==> event_fits(all, expected_len as nat, i));
        }
        let n_reps: u16 = match run.apply(&mut current, event) {
            Ok(n_reps) => n_reps,
            Err(e) => {
                proof {
                    assert(!event_fits(all, expected_len as nat, i));
                    assert(reports_event(
                        all,
                        expected_len,
                        expected_len_label@,
                        labels_in_turn,
                        i,
                        e,
                    ));
                }
                let ended: (Vec<PipelineRow<ChainRow<Row>>>, Result<(), Error>) = (rows, Err(e));
                assert(chain_outcome(
                    start,
                    all,
                    expected_len,
                    expected_len_label@,
                    labels_in_turn,
                    output_name@,
                    max_samples,
                    output,
                    states,
                    ended.0@,
                    ended.1,
                ));
                return ended;
            },
        };
        assert(follows_event(state, current, all, i));
        let observed: u128 = current.observed();
        let row = match run.emit(observed, n_reps) {
            Ok(row) => row,
            Err(e) => {
                let ended: (Vec<PipelineRow<ChainRow<Row>>>, Result<(), Error>) = (rows, Err(e));
                assert(chain_outcome(
                    start,
                    all,
                    expected_len,
                    expected_len_label@,
                    labels_in_turn,
                    output_name@,
                    max_samples,
                    output,
                    states,
                    ended.0@,
                    ended.1,
                ));
                return ended;
            },
        };
        let out = output(&current);
        let ghost earlier = rows@;
        rows.push(
            PipelineRow {
                step: row.step,
                n_reps: row.n_reps,
                accepted: row.accepted,
                row: ChainRow { starts_over, row: out },
            },
        );
        proof {
            let old_states = states;
            states = states.push(current);
            assert forall|j: int| 0 <= j < states.len() implies follows_event(
                state_before(start, states, j),
                #[trigger] states[j],
                all,
                j,
            ) && states[j].labels() == states[0].labels() by {
                if j < i {
                    assert(states[j] == old_states[j]);
                    assert(state_before(start, states, j) == state_before(start, old_states, j));
                    assert(states[0] == old_states[0]);
                } else {
                    assert(state_before(start, states, j) == state);
                }
            }
            assert forall|j: int| 0 <= j < rows@.len() implies (#[trigger] rows@[j]).row.starts_over
                == (all[j] is Snapshot) && call_ensures(output, (&states[j],), rows@[j].row.row) by {
                if j < i {
                    assert(rows@[j] == earlier[j]);
                    assert(states[j] == old_states[j]);
                }
            }
            assert forall|j: int| 0 <= j < rows@.len() implies #[trigger] event_fits(
                all,
                start.node_count(),
                j,
            ) by {
                if j == i {
                    assert(before.accepts(event));
                }
            }
        }
    }
    proof {
        lemma_taken_step(counts, rows@.len() as int, max_samples, run.remaining_samples);
    }
    let ended: (Vec<PipelineRow<ChainRow<Row>>>, Result<(), Error>) = (rows, Ok(()));
    assert(chain_outcome(
        start,
        all,
        expected_len,
        expected_len_label@,
        labels_in_turn,
        output_name@,
        max_samples,
        output,
        states,
        ended.0@,
        ended.1,
    ));
    ended
}

/// Where a metric's labels are those of its plan, a run over events gets to its end exactly where
/// all events can be followed and keep the labels of the first plan, and it reports the first one
/// that does not.
pub proof fn law_chain_by_labels<M: IncrementalTwoDeltaMetric, Row, F: Fn(&M) -> Row>(
    start: M,
    events: Seq<TwoDeltaEvent>,
    n: usize,
    label: Seq<char>,
    in_turn: bool,
    output_name: Seq<char>,
    max_samples: Option<usize>,
    output: F,
    states: Seq<M>,
    rows: Seq<PipelineRow<ChainRow<Row>>>,
    outcome: Result<(), Error>,
)
    requires
        start.node_count() == n,
        forall|i: int| 0 <= i < events.len() ==> (#[trigger] events[i]).wf(),
        forall|m: M, plan: Seq<u16>| #[trigger]
            m.tracks(plan) && within_limit(plan) ==> observes(m.labels(), plan),
        chain_outcome(
            start,
            events,
            n,
            label,
            in_turn,
            output_name,
            max_samples,
            output,
            states,
            rows,
            outcome,
        ),
    ensures
        ({
            let taken = taken_reps(event_reps(events), max_samples).len();
            &&& outcome is Ok <==> uniform_chain(events, taken, n as nat)
            &&& outcome matches Err(e) ==> reports_chain(
                events,
                n,
                label,
                in_turn,
                taken,
                output_name,
                rows.len(),
                e,
            )
            &&& uniform_chain(events, rows.len(), n as nat)
            &&& forall|i: int|
                0 <= i < rows.len() ==> scorable(#[trigger] chain_plan(events, i + 1), n as nat)
            &&& forall|i: int|
                0 <= i < rows.len() ==> observes(
                    (#[trigger] states[i]).labels(),
                    chain_plan(events, i + 1),
                )
        }),
{
    let m = rows.len() as int;
    lemma_chain_plans(events, n as nat, m);
    assert forall|i: int| 0 <= i < m implies observes(
        (#[trigger] states[i]).labels(),
        chain_plan(events, i + 1),
    ) by {
        assert(follows_event(state_before(start, states, i), states[i], events, i));
        assert(states[i].tracks(chain_plan(events, i + 1)));
        assert(scorable(chain_plan(events, i + 1), n as nat));
    }
    assert forall|i: int| 0 <= i < m implies #[trigger] event_fits(events, n as nat, i)
        && same_labels(chain_plan(events, i + 1), chain_plan(events, 1)) by {
        assert(event_fits(events, start.node_count(), i));
        assert(states[i].labels() == states[0].labels());
        lemma_same_masks(
            chain_plan(events, i + 1),
            states[i].labels(),
            chain_plan(events, 1),
            states[0].labels(),
        );
    }
    if let Err(e) = outcome {
        if event_fits(events, n as nat, m) {
            let after = choose|after: M| #[trigger]
                follows_event(states[m - 1], after, events, m) && after.labels()
                    != states[0].labels() && (e matches Error::DistrictSetChanged(message)
                    && message@ == district_set_changed_text(
                    after.labels(),
                    states[0].labels(),
                    output_name,
                ));
            if events[m] is Delta {
                assert(scorable(chain_plan(events, (m - 1) + 1), n as nat));
            }
            lemma_chain_plan(events, n as nat, m);
            assert(after.tracks(chain_plan(events, m + 1)));
            assert(observes(after.labels(), chain_plan(events, m + 1)));
            assert(observes(states[0].labels(), chain_plan(events, 1)));
            lemma_same_masks(
                chain_plan(events, m + 1),
                after.labels(),
                chain_plan(events, 1),
                states[0].labels(),
            );
            assert(reports_label_change(
                chain_plan(events, 1),
                chain_plan(events, m + 1),
                output_name,
                e,
            ));
        }
    }
}

/// The plans of events that can be followed can all be scored.
pub proof fn lemma_chain_plans(events: Seq<TwoDeltaEvent>, n: nat, m: int)
    requires
        0 <= m <= events.len(),
        forall|i: int| 0 <= i < events.len() ==> (#[trigger] events[i]).wf(),
        forall|i: int| 0 <= i < m ==> #[trigger] event_fits(events, n, i),
    ensures
        forall|i: int| 0 <= i < m ==> scorable(#[trigger] chain_plan(events, i + 1), n),
    decreases m,
{
    if m > 0 {
        lemma_chain_plans(events, n, m - 1);
        let i = m - 1;
        assert(events[i].wf());
        assert(event_fits(events, n, i));
        if i > 0 {
            assert(scorable(chain_plan(events, (i - 1) + 1), n));
        }
        lemma_chain_plan(events, n, i);
        assert forall|j: int| 0 <= j < m implies scorable(
            #[trigger] chain_plan(events, j + 1),
            n,
        ) by {
            if j < m - 1 {
                assert(scorable(chain_plan(events, j + 1), n));
            }
        }
    }
}

/// What an event does to the plan: a full plan replaces it, and a delta gives each node that it names
/// the new label and leaves the others.
pub proof fn law_chain_plan(events: Seq<TwoDeltaEvent>, n: nat, i: int, node: int)
    requires
        0 <= i < events.len(),
        events[i].wf(),
        event_fits(events, n, i),
        n <= u32::MAX,
        chain_plan(events, i).len() == n || events[i] is Snapshot,
        0 <= node < n,
    ensures
        chain_plan(events, i + 1).len() == n,
        events[i] matches TwoDeltaEvent::Snapshot { assignment, .. } ==> chain_plan(events, i + 1)
            == assignment@,
        events[i] matches TwoDeltaEvent::Delta { changes, .. } ==> {
            &&& forall|k: int|
                0 <= k < changes@.len() && (#[trigger] changes@[k]).0 == node ==> chain_plan(
                    events,
                    i + 1,
                )[node] == changes@[k].2
            &&& (forall|k: int| 0 <= k < changes@.len() ==> (#[trigger] changes@[k]).0 != node)
                ==> chain_plan(events, i + 1)[node] == chain_plan(events, i)[node]
        },
{
    if let TwoDeltaEvent::Delta { changes, .. } = events[i] {
        assert forall|k: int| 0 <= k < changes@.len() implies (#[trigger] changes@[k]).0
            < chain_plan(events, i).len() by {
            assert(raw_matches(chain_plan(events, i), changes@[k]));
        }
        law_delta_labels(chain_plan(events, i), changes@, node);
    }
}

/// What it takes to follow an event: a full plan has `n` nodes and labels below 128; a delta comes
/// after a plan, and each of its changes names a node of that plan, the label that the node has, and
/// a new label below 128.
pub proof fn law_event_fits(events: Seq<TwoDeltaEvent>, n: nat, i: int)
    ensures
        event_fits(events, n, i) <==> match events[i] {
            TwoDeltaEvent::Snapshot { assignment, .. } => assignment@.len() == n && forall|k: int|
                0 <= k < assignment@.len() ==> #[trigger] assignment@[k] < 128,
            TwoDeltaEvent::Delta { changes, .. } => i > 0 && forall|k: int|
                0 <= k < changes@.len() ==> (#[trigger] changes@[k]).0 < chain_plan(events, i).len()
                    && chain_plan(events, i)[changes@[k].0 as int] == changes@[k].1
                    && changes@[k].2 < 128,
        },
{
    if let TwoDeltaEvent::Delta { changes, .. } = events[i] {
        let plan = chain_plan(events, i);
        let all = as_changes(changes@);
        if event_fits(events, n, i) {
            assert forall|k: int| 0 <= k < changes@.len() implies (#[trigger] changes@[k]).0
                < plan.len() && plan[changes@[k].0 as int] == changes@[k].1 && changes@[k].2
                < 128 by {
                assert(raw_matches(plan, changes@[k]));
                assert(all[k].new < MAX_DISTRICTS);
            }
        }
        if i > 0 && forall|k: int|
            0 <= k < changes@.len() ==> (#[trigger] changes@[k]).0 < plan.len()
                && plan[changes@[k].0 as int] == changes@[k].1 && changes@[k].2 < 128 {
            assert forall|k: int| 0 <= k < changes@.len() implies raw_matches(
                plan,
                #[trigger] changes@[k],
            ) by {}
            assert forall|k: int| 0 <= k < all.len() implies (#[trigger] all[k]).new
                < MAX_DISTRICTS by {
                assert(changes@[k].2 < 128);
            }
        }
    }
}

/// What it takes for a chain to be uniform: every event taken can be followed, and every plan has
/// exactly the labels of the first. Each event counts with the samples that it carries.
pub proof fn law_uniform_chain(events: Seq<TwoDeltaEvent>, taken: nat, n: nat)
    ensures
        uniform_chain(events, taken, n) <==> forall|i: int|
            0 <= i < taken ==> #[trigger] event_fits(events, n, i) && forall|x: u16| #[trigger]
                chain_plan(events, i + 1).contains(x) <==> chain_plan(events, 1).contains(x),
        event_reps(events).len() == events.len(),
        forall|i: int|
            0 <= i < events.len() ==> #[trigger] event_reps(events)[i] == match events[i] {
                TwoDeltaEvent::Snapshot { count, .. } => count,
                TwoDeltaEvent::Delta { count, .. } => count,
            },
{
    if uniform_chain(events, taken, n) {
        assert forall|i: int| 0 <= i < taken implies #[trigger] event_fits(events, n, i) && forall|
            x: u16,
        | #[trigger]
            chain_plan(events, i + 1).contains(x) <==> chain_plan(events, 1).contains(x) by {
            assert(event_fits(events, n, i));
            assert(same_labels(chain_plan(events, i + 1), chain_plan(events, 1)));
        }
    }
    if forall|i: int|
        0 <= i < taken ==> #[trigger] event_fits(events, n, i) && forall|x: u16| #[trigger]
            chain_plan(events, i + 1).contains(x) <==> chain_plan(events, 1).contains(x) {
        assert forall|i: int| 0 <= i < taken implies #[trigger] event_fits(events, n, i)
            && same_labels(chain_plan(events, i + 1), chain_plan(events, 1)) by {
            assert(event_fits(events, n, i));
        }
    }
}

} // verus!
