//! Tables of a run: one row per accepted plan, numbered by sample and by plan.
use crate::district::{
    district_set_changed_text, has_district, law_mask_is_its_set, observes, reports_first_excess,
    within_limit,
};
use crate::error::Error;
use crate::pipeline::{
    counts_of, is_scorable, reports_length, reps_of, run_outcome, scored, sum_reps, taken_reps,
    unscored, AssignmentLengthCheck, DistrictSetGuard, FrameResult, Pipeline, PipelineRow, BATCH,
};
use vstd::prelude::*;

verus! {

/// Whether rows are numbered as plans that stand for `kept` samples each: samples and plans count
/// from one.
pub open spec fn numbered<Row>(rows: Seq<PipelineRow<Row>>, kept: Seq<u16>) -> bool {
    &&& rows.len() <= kept.len()
    &&& forall|i: int|
        0 <= i < rows.len() ==> {
            &&& (#[trigger] rows[i]).step == 1 + sum_reps(kept.take(i))
            &&& rows[i].n_reps == kept[i]
            &&& rows[i].accepted == i + 1
        }
}

/// Whether two plans use the same labels.
pub open spec fn same_labels(a: Seq<u16>, b: Seq<u16>) -> bool {
    forall|x: u16| #[trigger] a.contains(x) <==> b.contains(x)
}

/// Whether a plan can be scored: the right length, and labels that fit.
pub open spec fn scorable(plan: Seq<u16>, n: nat) -> bool {
    plan.len() == n && within_limit(plan)
}

/// Whether `row` is a row that scoring may give for a plan.
pub open spec fn row_from<Row, P: Fn(&[u16], u16) -> Result<(u128, Row), Error>>(
    process: P,
    plan: Seq<u16>,
    count: u16,
    row: Row,
) -> bool {
    exists|view: &[u16], observed: u128|
        #![trigger call_ensures(process, (view, count), Ok::<(u128, Row), Error>((observed, row)))]
        view@ == plan && call_ensures(
            process,
            (view, count),
            Ok::<(u128, Row), Error>((observed, row)),
        )
}

/// Label sets are equal exactly where the plans use the same labels.
pub proof fn lemma_same_masks(a: Seq<u16>, ma: u128, b: Seq<u16>, mb: u128)
    requires
        observes(ma, a),
        observes(mb, b),
    ensures
        ma == mb <==> same_labels(a, b),
{
    if ma == mb {
        assert forall|x: u16| #[trigger] a.contains(x) <==> b.contains(x) by {
            assert(has_district(ma, x as int) <==> has_district(mb, x as int));
            if a.contains(x) {
                let i = a.index_of(x);
                assert(a[i] == x as int);
                let j = choose|j: int| 0 <= j < b.len() && #[trigger] b[j] == x as int;
                assert(b[j] == x);
            }
            if b.contains(x) {
                let i = b.index_of(x);
                assert(b[i] == x as int);
                let j = choose|j: int| 0 <= j < a.len() && #[trigger] a[j] == x as int;
                assert(a[j] == x);
            }
        }
    }
    if same_labels(a, b) {
        assert forall|d: int| #[trigger] has_district(ma, d) <==> has_district(mb, d) by {
            if has_district(ma, d) {
                let i = choose|i: int| 0 <= i < a.len() && #[trigger] a[i] == d;
                assert(a.contains(d as u16));
                let j = b.index_of(d as u16);
                assert(b[j] == d);
            }
            if has_district(mb, d) {
                let i = choose|i: int| 0 <= i < b.len() && #[trigger] b[i] == d;
                assert(b.contains(d as u16));
                assert(a.contains(d as u16));
                let j = a.index_of(d as u16);
                assert(a[j] == d);
            }
        }
        law_mask_is_its_set(ma, mb);
    }
}

/// The guards after results that pass: the first result fixes the label set.
proof fn lemma_guards<Row>(start: Pipeline, results: Seq<FrameResult<Row>>, n: int)
    requires
        0 <= n <= results.len(),
        start.district_guard.label is Some,
        start.district_guard.expected is None,
        start.length_guard.check.fixed() is Some,
        forall|i: int|
            0 <= i < n ==> start.after_all(results.take(i)).admits(#[trigger] results[i]),
    ensures
        start.after_all(results.take(n)).length_guard == start.length_guard,
        start.after_all(results.take(n)).district_guard == (DistrictSetGuard {
            label: start.district_guard.label,
            expected: if n == 0 {
                None
            } else {
                Some(results[0].observed)
            },
        }),
        forall|i: int| 0 <= i < n ==> (#[trigger] results[i]).observed == results[0].observed,
    decreases n,
{
    if n == 0 {
        start.lemma_after_none(results);
    } else {
        lemma_guards(start, results, n - 1);
        start.lemma_after_all(results, n - 1);
        assert(start.after_all(results.take(n - 1)).admits(results[n - 1]));
    }
}

/// The length that a check asks for from the start.
pub open spec fn due_length(check: AssignmentLengthCheck) -> nat {
    match check.fixed() {
        Some((expected, _)) => expected as nat,
        None => 0,
    }
}

/// Whether scoring with `process` succeeds exactly on plans whose labels fit, and reports those
/// labels. Which labels count is up to `labels`.
pub open spec fn scores_by<Row, P: Fn(&[u16], u16) -> Result<(u128, Row), Error>>(
    process: P,
    n: nat,
    labels: spec_fn(Seq<u16>) -> Seq<u16>,
) -> bool {
    forall|view: &[u16], count: u16, out: Result<(u128, Row), Error>| #[trigger]
        call_ensures(process, (view, count), out) && view@.len() == n ==> match out {
            Ok((observed, _)) => within_limit(labels(view@)) && observes(observed, labels(view@)),
            Err(e) => reports_first_excess(e, labels(view@)),
        }
}

/// Whether `e` reports what is wrong with record `i`: its length comes first, then its labels, then
/// that they are not those of the first record.
pub open spec fn reports_record(
    check: AssignmentLengthCheck,
    output_name: Seq<char>,
    records: Seq<(Vec<u16>, u16)>,
    labels: spec_fn(Seq<u16>) -> Seq<u16>,
    i: int,
    e: Error,
) -> bool {
    let plan = records[i].0@;
    if plan.len() != due_length(check) {
        check.fixed() matches Some((expected, length_label)) && reports_length(
            e,
            plan.len(),
            expected as nat,
            length_label,
        )
    } else if !within_limit(labels(plan)) {
        reports_first_excess(e, labels(plan))
    } else {
        &&& !same_labels(labels(plan), labels(records[0].0@))
        &&& reports_label_change(labels(records[0].0@), labels(plan), output_name, e)
    }
}

/// Whether `e` reports that a plan uses other labels than the first.
pub open spec fn reports_label_change(
    first: Seq<u16>,
    plan: Seq<u16>,
    output_name: Seq<char>,
    e: Error,
) -> bool {
    exists|mask: u128, first_mask: u128|
        #![trigger observes(mask, plan), observes(first_mask, first)]
        observes(mask, plan) && observes(first_mask, first) && (
        e matches Error::DistrictSetChanged(message) && message@ == district_set_changed_text(
            mask,
            first_mask,
            output_name,
        ))
}

/// Whether a plan has the right length and labels that fit.
pub open spec fn fits_by(
    plan: Seq<u16>,
    n: nat,
    labels: spec_fn(Seq<u16>) -> Seq<u16>,
) -> bool {
    plan.len() == n && within_limit(labels(plan))
}

/// The first record of the batch that record `i` belongs to.
pub open spec fn batch_start(i: int) -> int {
    i - i % (BATCH as int)
}

/// Whether a run that record `i` ends has given `rows` rows by then.
///
/// A batch is scored before its first row is given. So the first record that does not fit ends the
/// run at the start of its batch. Where all of its batch fit, the first record with other labels
/// than those of the first plan ends the run right there.
pub open spec fn ends_run(
    records: Seq<(Vec<u16>, u16)>,
    taken: nat,
    n: nat,
    labels: spec_fn(Seq<u16>) -> Seq<u16>,
    i: int,
    rows: nat,
) -> bool {
    &&& if fits_by(records[i].0@, n, labels) {
        &&& rows == i
        &&& forall|j: int|
            0 <= j < taken && j < batch_start(i) + BATCH ==> fits_by(
                (#[trigger] records[j]).0@,
                n,
                labels,
            )
    } else {
        &&& rows == batch_start(i)
        &&& forall|j: int| 0 <= j < i ==> fits_by((#[trigger] records[j]).0@, n, labels)
    }
    &&& forall|j: int|
        0 <= j < rows ==> same_labels(
            labels((#[trigger] records[j]).0@),
            labels(records[0].0@),
        )
}

/// Whether `e` reports what is wrong with the record that ends a run, which gave `rows` rows.
pub open spec fn reports_run(
    check: AssignmentLengthCheck,
    output_name: Seq<char>,
    records: Seq<(Vec<u16>, u16)>,
    taken: nat,
    labels: spec_fn(Seq<u16>) -> Seq<u16>,
    rows: nat,
    e: Error,
) -> bool {
    exists|i: int|
        0 <= i < taken && #[trigger] reports_record(check, output_name, records, labels, i, e)
            && ends_run(records, taken, due_length(check), labels, i, rows)
}

/// Whether a result is that of a plan that can be scored.
spec fn sound_result<Row, P: Fn(&[u16], u16) -> Result<(u128, Row), Error>>(
    process: P,
    plan: Seq<u16>,
    count: u16,
    n: nat,
    labels: spec_fn(Seq<u16>) -> Seq<u16>,
    result: FrameResult<Row>,
) -> bool {
    plan.len() == n && within_limit(labels(plan)) && observes(
        result.observed,
        labels(plan),
    ) && row_from(
        process,
        plan,
        count,
        result.row,
    )
}

/// Whether all plans that a run takes have the right length and labels that fit and are those of
/// the first.
pub open spec fn uniform_by(
    records: Seq<(Vec<u16>, u16)>,
    taken: nat,
    n: nat,
    labels: spec_fn(Seq<u16>) -> Seq<u16>,
) -> bool {
    forall|i: int|
        0 <= i < taken ==> (#[trigger] records[i]).0@.len() == n && within_limit(
            labels(records[i].0@),
        ) && same_labels(labels(records[i].0@), labels(records[0].0@))
}

/// A run over labelled plans gives a row for each plan that it takes, exactly where all of them
/// have the right length and labels that fit and are those of the first.
pub proof fn law_run_by_labels<Row, P: Fn(&[u16], u16) -> Result<(u128, Row), Error>>(
    check: AssignmentLengthCheck,
    label: String,
    process: P,
    records: Seq<(Vec<u16>, u16)>,
    max_samples: Option<usize>,
    results: Seq<FrameResult<Row>>,
    rows: Seq<PipelineRow<Row>>,
    outcome: Result<(), Error>,
    labels: spec_fn(Seq<u16>) -> Seq<u16>,
)
    requires
        check.fixed() is Some,
        Pipeline::start(check, Some(label)).has_room(records.len()),
        scores_by(process, due_length(check), labels),
        run_outcome(
            Pipeline::start(check, Some(label)),
            process,
            records,
            max_samples,
            results,
            rows,
            outcome,
        ),
    ensures
        numbered(rows, taken_reps(counts_of(records), max_samples)),
        outcome is Ok <==> uniform_by(
            records,
            taken_reps(counts_of(records), max_samples).len(),
            due_length(check),
            labels,
        ),
        outcome matches Err(e) ==> reports_run(
            check,
            label@,
            records,
            taken_reps(counts_of(records), max_samples).len(),
            labels,
            rows.len(),
            e,
        ),
        outcome is Ok ==> rows.len() == taken_reps(counts_of(records), max_samples).len(),
        forall|i: int|
            0 <= i < rows.len() ==> row_from(
                process,
                records[i].0@,
                taken_reps(counts_of(records), max_samples)[i],
                (#[trigger] rows[i]).row,
            ),
        forall|i: int|
            0 <= i < rows.len() ==> (#[trigger] records[i]).0@.len() == due_length(check),
{
    let start = Pipeline::start(check, Some(label));
    let kept = taken_reps(counts_of(records), max_samples);
    let n = due_length(check);
    crate::pipeline::law_capped_total(counts_of(records), max_samples);
    assert(kept.len() <= records.len());
    assert(rows.len() <= results.len());
    assert forall|i: int| 0 <= i < results.len() implies #[trigger] sound_result(
        process,
        records[i].0@,
        kept[i],
        n,
        labels,
        results[i],
    ) by {
        assert(scored(process, check, records[i].0@, kept[i], results[i]));
        let view = choose|view: &[u16]| #[trigger]
            view@ == records[i].0@ && call_ensures(
                process,
                (view, kept[i]),
                Ok::<(u128, Row), Error>((results[i].observed, results[i].row)),
            );
        assert(call_ensures(
            process,
            (view, kept[i]),
            Ok::<(u128, Row), Error>((results[i].observed, results[i].row)),
        ));
    }
    assert forall|i: int| 0 <= i < rows.len() implies {
        &&& (#[trigger] rows[i]).step == 1 + sum_reps(kept.take(i))
        &&& rows[i].n_reps == kept[i]
        &&& rows[i].accepted == i + 1
        &&& rows[i].row == results[i].row
    } by {
        assert(rows[i] == start.after_all(results.take(i)).stamp(results[i]));
        assert(start.has_room(results.len()));
        start.law_counters(results, i);
        assert(scored(process, check, records[i].0@, kept[i], results[i]));
        assert(reps_of(results.take(i)) =~= kept.take(i)) by {
            assert forall|k: int| 0 <= k < i implies reps_of(results.take(i))[k]
                == kept.take(i)[k] by {
                assert(scored(process, check, records[k].0@, kept[k], results[k]));
            }
        }
    }
    assert forall|i: int| 0 <= i < rows.len() implies row_from(
        process,
        records[i].0@,
        kept[i],
        (#[trigger] rows[i]).row,
    ) by {
        assert(rows[i].row == results[i].row);
        assert(sound_result(process, records[i].0@, kept[i], n, labels, results[i]));
    }
    assert forall|i: int| 0 <= i < rows.len() implies (#[trigger] records[i]).0@.len() == n by {
        assert(sound_result(process, records[i].0@, kept[i], n, labels, results[i]));
    }
    lemma_guards(start, results, rows.len() as int);
    assert forall|i: int| 0 <= i < rows.len() implies same_labels(
        labels((#[trigger] records[i]).0@),
        labels(records[0].0@),
    ) by {
        assert(sound_result(process, records[i].0@, kept[i], n, labels, results[i]));
        assert(sound_result(process, records[0].0@, kept[0], n, labels, results[0]));
        lemma_same_masks(
            labels(records[i].0@),
            results[i].observed,
            labels(records[0].0@),
            results[0].observed,
        );
    }
    assert forall|i: int| 0 <= i < results.len() implies fits_by(
        (#[trigger] records[i]).0@,
        n,
        labels,
    ) by {
        assert(sound_result(process, records[i].0@, kept[i], n, labels, results[i]));
    }
    if outcome is Ok {
        assert(results.len() == kept.len()) by {
            match outcome {
                Ok(()) => {},
                Err(_) => {},
            }
        }
        assert forall|i: int| 0 <= i < kept.len() implies (#[trigger] records[i]).0@.len() == n
            && within_limit(labels(records[i].0@)) && same_labels(
            labels(records[i].0@),
            labels(records[0].0@),
        ) by {
            assert(fits_by(records[i].0@, n, labels));
        }
    } else {
        let e = outcome->Err_0;
        if start.forwards(results, rows, Some(e)) {
            let i = rows.len() as int;
            assert(!start.after_all(results.take(i)).admits(results[i]));
            assert(scored(process, check, records[i].0@, kept[i], results[i]));
            assert(results[i].observed != results[0].observed);
            assert(sound_result(process, records[i].0@, kept[i], n, labels, results[i]));
            assert(sound_result(process, records[0].0@, kept[0], n, labels, results[0]));
            lemma_same_masks(
                labels(records[i].0@),
                results[i].observed,
                labels(records[0].0@),
                results[0].observed,
            );
            assert(!same_labels(labels(records[i].0@), labels(records[0].0@)));
            assert(observes(results[i].observed, labels(records[i].0@)));
            assert(observes(results[0].observed, labels(records[0].0@)));
            assert(start.after_all(results.take(i)).rejects(results[i], e));
            assert(reports_label_change(
                labels(records[0].0@),
                labels(records[i].0@),
                label@,
                e,
            ));
            assert(reports_record(check, label@, records, labels, i, e));
            assert(fits_by(records[i].0@, n, labels));
            assert(results.len() == kept.len() || results.len() >= batch_start(i) + BATCH);
            assert(ends_run(records, kept.len(), n, labels, i, rows.len()));
        } else {
            let i = choose|i: int|
                results.len() <= i < kept.len() && i < results.len() + BATCH && unscored(
                    process,
                    check,
                    (#[trigger] records[i]).0@,
                    kept[i],
                    e,
                ) && forall|j: int|
                    results.len() <= j < i ==> is_scorable(
                        process,
                        check,
                        (#[trigger] records[j]).0@,
                        kept[j],
                    );
            assert forall|j: int| 0 <= j < i implies fits_by(
                (#[trigger] records[j]).0@,
                n,
                labels,
            ) by {
                if j >= results.len() {
                    assert(is_scorable(process, check, records[j].0@, kept[j]));
                    let result = choose|result: FrameResult<Row>| #[trigger]
                        scored(process, check, records[j].0@, kept[j], result);
                    let view = choose|view: &[u16]| #[trigger]
                        view@ == records[j].0@ && call_ensures(
                            process,
                            (view, kept[j]),
                            Ok::<(u128, Row), Error>((result.observed, result.row)),
                        );
                    assert(call_ensures(
                        process,
                        (view, kept[j]),
                        Ok::<(u128, Row), Error>((result.observed, result.row)),
                    ));
                }
            }
            assert(batch_start(i) == results.len());
            assert(!(records[i].0@.len() == n && within_limit(labels(records[i].0@)))) by {
                if records[i].0@.len() == n {
                    let view = choose|view: &[u16]| #[trigger]
                        view@ == records[i].0@ && call_ensures(
                            process,
                            (view, kept[i]),
                            Err::<(u128, Row), Error>(e),
                        );
                    assert(call_ensures(process, (view, kept[i]), Err::<(u128, Row), Error>(e)));
                    assert(reports_first_excess(e, labels(records[i].0@)));
                }
            }
            assert(reports_record(check, label@, records, labels, i, e)) by {
                if records[i].0@.len() == n {
                    let view = choose|view: &[u16]| #[trigger]
                        view@ == records[i].0@ && call_ensures(
                            process,
                            (view, kept[i]),
                            Err::<(u128, Row), Error>(e),
                        );
                    assert(call_ensures(process, (view, kept[i]), Err::<(u128, Row), Error>(e)));
                }
            }
            assert(!fits_by(records[i].0@, n, labels));
            assert(ends_run(records, kept.len(), n, labels, i, rows.len()));
        }
    }
}

/// Whether scoring with `process` succeeds exactly on plans whose labels fit, and reports their
/// labels.
pub open spec fn scores_by_labels<Row, P: Fn(&[u16], u16) -> Result<(u128, Row), Error>>(
    process: P,
    n: nat,
) -> bool {
    scores_by(process, n, |plan: Seq<u16>| plan)
}

/// Whether all plans that a run takes can be scored and use the labels of the first.
pub open spec fn uniform_run(records: Seq<(Vec<u16>, u16)>, taken: nat, n: nat) -> bool {
    forall|i: int|
        0 <= i < taken ==> scorable((#[trigger] records[i]).0@, n) && same_labels(
            records[i].0@,
            records[0].0@,
        )
}

/// [`law_run_by_labels`] for a scoring that looks at all labels of a plan.
pub proof fn law_labelled_run<Row, P: Fn(&[u16], u16) -> Result<(u128, Row), Error>>(
    check: AssignmentLengthCheck,
    label: String,
    process: P,
    records: Seq<(Vec<u16>, u16)>,
    max_samples: Option<usize>,
    results: Seq<FrameResult<Row>>,
    rows: Seq<PipelineRow<Row>>,
    outcome: Result<(), Error>,
)
    requires
        check.fixed() is Some,
        Pipeline::start(check, Some(label)).has_room(records.len()),
        scores_by_labels(process, due_length(check)),
        run_outcome(
            Pipeline::start(check, Some(label)),
            process,
            records,
            max_samples,
            results,
            rows,
            outcome,
        ),
    ensures
        numbered(rows, taken_reps(counts_of(records), max_samples)),
        outcome is Ok <==> uniform_run(
            records,
            taken_reps(counts_of(records), max_samples).len(),
            due_length(check),
        ),
        outcome matches Err(e) ==> reports_run(
            check,
            label@,
            records,
            taken_reps(counts_of(records), max_samples).len(),
            |plan: Seq<u16>| plan,
            rows.len(),
            e,
        ),
        outcome is Ok ==> rows.len() == taken_reps(counts_of(records), max_samples).len(),
        forall|i: int|
            0 <= i < rows.len() ==> row_from(
                process,
                records[i].0@,
                taken_reps(counts_of(records), max_samples)[i],
                (#[trigger] rows[i]).row,
            ),
        forall|i: int|
            0 <= i < rows.len() ==> (#[trigger] records[i]).0@.len() == due_length(check),
{
    let all = |plan: Seq<u16>| plan;
    law_run_by_labels(
        check,
        label,
        process,
        records,
        max_samples,
        results,
        rows,
        outcome,
        all,
    );
    let taken = taken_reps(counts_of(records), max_samples).len();
    assert(uniform_run(records, taken, due_length(check)) <==> uniform_by(
        records,
        taken,
        due_length(check),
        all,
    ));
}

/// How rows count: samples and plans from one, each row's first sample right after the samples of
/// the row before, and each row with as many samples as its plan stands for.
pub proof fn law_row_numbers<Row>(rows: Seq<PipelineRow<Row>>, kept: Seq<u16>, i: int)
    requires
        numbered(rows, kept),
        0 <= i < rows.len(),
    ensures
        rows.len() <= kept.len(),
        rows[0].step == 1,
        rows[0].accepted == 1,
        rows[i].n_reps == kept[i],
        i + 1 < rows.len() ==> rows[i + 1].step == rows[i].step + rows[i].n_reps,
        i + 1 < rows.len() ==> rows[i + 1].accepted == rows[i].accepted + 1,
{
    assert(kept.take(0) =~= Seq::empty());
    assert(rows[0].step == 1 + sum_reps(kept.take(0)));
    assert(rows[i].step == 1 + sum_reps(kept.take(i)));
    if i + 1 < rows.len() {
        assert(kept.take(i + 1).drop_last() =~= kept.take(i));
        assert(kept.take(i + 1).last() == kept[i]);
        assert(rows[i + 1].step == 1 + sum_reps(kept.take(i + 1)));
    }
}

/// What it takes for a run to be uniform in the labels that count: every plan taken has `n` nodes,
/// labels below 128, and exactly the labels of the first plan.
pub proof fn law_uniform_by(
    records: Seq<(Vec<u16>, u16)>,
    taken: nat,
    n: nat,
    labels: spec_fn(Seq<u16>) -> Seq<u16>,
)
    ensures
        uniform_by(records, taken, n, labels) <==> forall|i: int|
            0 <= i < taken ==> {
                &&& (#[trigger] records[i]).0@.len() == n
                &&& forall|k: int|
                    0 <= k < labels(records[i].0@).len() ==> #[trigger] labels(records[i].0@)[k]
                        < 128
                &&& forall|x: u16| #[trigger]
                    labels(records[i].0@).contains(x) <==> labels(records[0].0@).contains(x)
            },
{
    if uniform_by(records, taken, n, labels) {
        assert forall|i: int| 0 <= i < taken implies {
            &&& (#[trigger] records[i]).0@.len() == n
            &&& forall|k: int|
                0 <= k < labels(records[i].0@).len() ==> #[trigger] labels(records[i].0@)[k] < 128
            &&& forall|x: u16| #[trigger]
                labels(records[i].0@).contains(x) <==> labels(records[0].0@).contains(x)
        } by {
            assert(within_limit(labels(records[i].0@)));
            assert(same_labels(labels(records[i].0@), labels(records[0].0@)));
        }
    }
    if forall|i: int|
        0 <= i < taken ==> {
            &&& (#[trigger] records[i]).0@.len() == n
            &&& forall|k: int|
                0 <= k < labels(records[i].0@).len() ==> #[trigger] labels(records[i].0@)[k] < 128
            &&& forall|x: u16| #[trigger]
                labels(records[i].0@).contains(x) <==> labels(records[0].0@).contains(x)
        } {
        assert forall|i: int| 0 <= i < taken implies (#[trigger] records[i]).0@.len() == n
            && within_limit(labels(records[i].0@)) && same_labels(
            labels(records[i].0@),
            labels(records[0].0@),
        ) by {}
    }
}

/// What it takes for a run to be uniform: every plan taken has `n` nodes, labels below 128, and
/// exactly the labels of the first plan.
pub proof fn law_uniform_run(records: Seq<(Vec<u16>, u16)>, taken: nat, n: nat)
    ensures
        uniform_run(records, taken, n) <==> forall|i: int|
            0 <= i < taken ==> {
                &&& (#[trigger] records[i]).0@.len() == n
                &&& forall|k: int| 0 <= k < records[i].0@.len() ==> #[trigger] records[i].0@[k] < 128
                &&& forall|x: u16| #[trigger]
                    records[i].0@.contains(x) <==> records[0].0@.contains(x)
            },
{
    if uniform_run(records, taken, n) {
        assert forall|i: int| 0 <= i < taken implies {
            &&& (#[trigger] records[i]).0@.len() == n
            &&& forall|k: int| 0 <= k < records[i].0@.len() ==> #[trigger] records[i].0@[k] < 128
            &&& forall|x: u16| #[trigger] records[i].0@.contains(x) <==> records[0].0@.contains(x)
        } by {
            assert(within_limit(records[i].0@));
            assert(same_labels(records[i].0@, records[0].0@));
        }
    }
    if forall|i: int|
        0 <= i < taken ==> {
            &&& (#[trigger] records[i]).0@.len() == n
            &&& forall|k: int| 0 <= k < records[i].0@.len() ==> #[trigger] records[i].0@[k] < 128
            &&& forall|x: u16| #[trigger] records[i].0@.contains(x) <==> records[0].0@.contains(x)
        } {
        assert forall|i: int| 0 <= i < taken implies (#[trigger] records[i]).0@.len() == n
            && within_limit(records[i].0@) && same_labels(records[i].0@, records[0].0@) by {}
    }
}

/// A run that ends early ends because of one of the plans that it takes: that plan has another
/// length than asked for, a label from 128 on, or other labels than the first plan. The error says
/// which, and no plan after that one gives a row.
pub proof fn law_early_end(
    check: AssignmentLengthCheck,
    n: usize,
    output_name: Seq<char>,
    records: Seq<(Vec<u16>, u16)>,
    taken: nat,
    labels: spec_fn(Seq<u16>) -> Seq<u16>,
    rows: nat,
    e: Error,
)
    requires
        reports_run(check, output_name, records, taken, labels, rows, e),
        match check {
            AssignmentLengthCheck::MatchesGraph(expected) => expected == n,
            AssignmentLengthCheck::Exact { expected, .. } => expected == n,
            AssignmentLengthCheck::UniformWithinFile => false,
        },
    ensures
        exists|i: int|
            0 <= i < taken && rows <= i && {
                let plan = (#[trigger] records[i]).0@;
                if plan.len() != n {
                    e matches Error::AssignmentLength { actual, expected, .. } && actual
                        == plan.len() && expected == n
                } else if exists|k: int|
                    0 <= k < labels(plan).len() && #[trigger] labels(plan)[k] >= 128 {
                    e matches Error::DistrictLimitExceeded { id, limit } && id >= 128 && limit == 128
                        && labels(plan).contains(id)
                } else {
                    e is DistrictSetChanged && exists|x: u16| #[trigger]
                        labels(plan).contains(x) != labels(records[0].0@).contains(x)
                }
            },
{
    let i = choose|i: int|
        0 <= i < taken && #[trigger] reports_record(check, output_name, records, labels, i, e)
            && ends_run(records, taken, due_length(check), labels, i, rows);
    let plan = records[i].0@;
    if plan.len() == due_length(check) {
        if exists|k: int| 0 <= k < labels(plan).len() && #[trigger] labels(plan)[k] >= 128 {
            let k = choose|k: int| 0 <= k < labels(plan).len() && #[trigger] labels(plan)[k] >= 128;
            assert(!within_limit(labels(plan)));
            assert(reports_first_excess(e, labels(plan)));
        } else {
            assert(within_limit(labels(plan)));
        }
    }
    assert(rows <= i);
    assert(records[i].0@ == plan);
}

} // verus!
