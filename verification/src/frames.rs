//! Frames as they are stored: a plan is expanded from its runs right before it is scored.
use crate::error::{invalid_data, Error};
use crate::pipeline::{
    capped_reps, is_scorable, lemma_taken_step, length_fits, process_assignment_batch,
    run_metric_on_assignment, run_outcome, run_pipeline_core, scored, taken_reps, unscored,
    wants_samples, AssignmentLengthCheck, FrameResult, Pipeline, PipelineRow, BATCH,
};
use binary_ensemble::codec::BenDecodeFrame;
use binary_ensemble::io::reader::DecodeFrame;
use binary_ensemble::BenVariant;
use vstd::prelude::*;

verus! {

/// The variants of an ensemble.
#[derive(Clone, Copy, PartialEq, Eq, Structural, Debug)]
pub enum StreamVariant {
    /// Every sample has a frame.
    Standard,
    /// A frame stands for a run of equal samples.
    MkvChain,
    /// A frame is a plan, or what changed since the plan before.
    TwoDelta,
}

/// How the runs of a frame are laid out.
#[derive(Clone, Copy, PartialEq, Eq, Structural, Debug)]
pub enum FrameLayout {
    /// Packed bits: so many for a label, so many for a length, in so many bytes.
    Packed { label_bits: u8, length_bits: u8, byte_count: u32 },
    /// Four bytes for each label and length.
    Words(StreamVariant),
}

/// A frame that can be read without the frames before it.
#[derive(Debug)]
pub struct StoredFrame {
    pub layout: FrameLayout,
    pub bytes: Vec<u8>,
}

/// What `DecodeFrame::expand_self_contained` of `binary_ensemble` makes of a frame: its plan, or why
/// it has none.
pub uninterp spec fn expanded_frame(layout: FrameLayout, bytes: Seq<u8>) -> Result<
    Seq<u16>,
    Seq<char>,
>;

/// `DecodeFrame::expand_self_contained` of `binary_ensemble`, on a frame with the given layout and
/// bytes. The result is that of [`expanded_frame`]; nothing else is claimed of it. A failure is
/// handed on as its text.
#[verifier::external_body]
fn expand(layout: FrameLayout, bytes: &Vec<u8>) -> (r: Result<Vec<u16>, String>)
    ensures
        match r {
            Ok(plan) => expanded_frame(layout, bytes@) == Ok::<Seq<u16>, Seq<char>>(plan@),
            Err(cause) => expanded_frame(layout, bytes@) == Err::<Seq<u16>, Seq<char>>(cause@),
        },
{
    let bytes = bytes.clone();
    let frame = match layout {
        FrameLayout::Packed { label_bits, length_bits, byte_count } => DecodeFrame::Ben(
            BenDecodeFrame::Standard {
                max_val_bit_count: label_bits,
                max_len_bit_count: length_bits,
                n_bytes: byte_count,
                raw_bytes: bytes,
            }),
        FrameLayout::Words(StreamVariant::Standard) => DecodeFrame::XBen(bytes, BenVariant::Standard),
        FrameLayout::Words(StreamVariant::MkvChain) => DecodeFrame::XBen(bytes, BenVariant::MkvChain),
        FrameLayout::Words(StreamVariant::TwoDelta) => DecodeFrame::XBen(bytes, BenVariant::TwoDelta),
    };
    frame.expand_self_contained().map_err(|e| e.to_string())
}

impl StoredFrame {
    /// The plan of the frame, or why it has none.
    pub open spec fn plan(&self) -> Result<Seq<u16>, Seq<char>> {
        expanded_frame(self.layout, self.bytes@)
    }
}

/// The message for a frame without a plan.
pub open spec fn undecodable_text(cause: Seq<char>) -> Seq<char> {
    "failed to decode BEN frame: "@ + cause
}

/// The error for a frame without a plan.
pub fn undecodable(cause: &str) -> (r: Error)
    ensures
        r.is_invalid_data(undecodable_text(cause@)),
{
    let mut message = "failed to decode BEN frame: ".to_owned();
    message.append(cause);
    invalid_data(message)
}

/// The plan of a frame.
pub fn decode_frame(frame: &StoredFrame) -> (r: Result<Vec<u16>, Error>)
    ensures
        match frame.plan() {
            Ok(plan) => r matches Ok(assignment) && assignment@ == plan,
            Err(cause) => r matches Err(e) && e.is_invalid_data(undecodable_text(cause)),
        },
{
    match expand(frame.layout, &frame.bytes) {
        Ok(plan) => Ok(plan),
        Err(cause) => Err(undecodable(cause.as_str())),
    }
}

/// Whether `result` is what scoring gives for a frame that stands for `count` samples.
pub open spec fn frame_scored<Row, P: Fn(&[u16], u16) -> Result<(u128, Row), Error>>(
    process: P,
    check: AssignmentLengthCheck,
    frame: StoredFrame,
    count: u16,
    result: FrameResult<Row>,
) -> bool {
    frame.plan() matches Ok(plan) && scored(process, check, plan, count, result)
}

/// Whether `e` is why a frame that stands for `count` samples has no score.
pub open spec fn frame_unscored<Row, P: Fn(&[u16], u16) -> Result<(u128, Row), Error>>(
    process: P,
    check: AssignmentLengthCheck,
    frame: StoredFrame,
    count: u16,
    e: Error,
) -> bool {
    match frame.plan() {
        Ok(plan) => unscored(process, check, plan, count, e),
        Err(cause) => e.is_invalid_data(undecodable_text(cause)),
    }
}

/// Whether a frame that stands for `count` samples has a score.
pub open spec fn is_frame_scorable<Row, P: Fn(&[u16], u16) -> Result<(u128, Row), Error>>(
    process: P,
    check: AssignmentLengthCheck,
    frame: StoredFrame,
    count: u16,
) -> bool {
    exists|result: FrameResult<Row>| #[trigger]
        frame_scored(process, check, frame, count, result)
}

/// Expand a frame and score its plan.
pub fn run_metric_on_frame<Row, P: Fn(&[u16], u16) -> Result<(u128, Row), Error>>(
    process: &P,
    length_check: AssignmentLengthCheck,
    frame: &StoredFrame,
    count: u16,
) -> (r: Result<FrameResult<Row>, Error>)
    requires
        forall|plan: &[u16]|
            length_fits(length_check, plan@.len()) ==> #[trigger] call_requires(
                *process,
                (plan, count),
            ),
    ensures
        r matches Ok(result) ==> frame_scored(*process, length_check, *frame, count, result),
        r matches Err(e) ==> frame_unscored(*process, length_check, *frame, count, e),
        frame.plan() is Err ==> r is Err,
{
    match decode_frame(frame) {
        Ok(assignment) => run_metric_on_assignment(
            process,
            length_check,
            assignment.as_slice(),
            count,
        ),
        Err(e) => Err(e),
    }
}

/// Expand and score the frames of a batch in order, up to the first without a score.
pub fn process_batch<Row, P: Fn(&[u16], u16) -> Result<(u128, Row), Error>>(
    process: &P,
    length_check: AssignmentLengthCheck,
    frames: &[(StoredFrame, u16)],
) -> (r: Result<Vec<FrameResult<Row>>, Error>)
    requires
        forall|plan: &[u16], count: u16|
            length_fits(length_check, plan@.len()) ==> #[trigger] call_requires(
                *process,
                (plan, count),
            ),
    ensures
        r matches Ok(results) ==> results@.len() == frames@.len() && forall|i: int|
            0 <= i < results@.len() ==> frame_scored(
                *process,
                length_check,
                frames@[i].0,
                frames@[i].1,
                #[trigger] results@[i],
            ),
        r matches Err(e) ==> exists|i: int|
            0 <= i < frames@.len() && frame_unscored(
                *process,
                length_check,
                (#[trigger] frames@[i]).0,
                frames@[i].1,
                e,
            ) && forall|j: int|
                0 <= j < i ==> is_frame_scorable(
                    *process,
                    length_check,
                    (#[trigger] frames@[j]).0,
                    frames@[j].1,
                ),
{
    let mut results: Vec<FrameResult<Row>> = Vec::new();
    let mut i: usize = 0;
    while i < frames.len()
        invariant
            i <= frames@.len(),
            results@.len() == i,
            forall|plan: &[u16], count: u16|
                length_fits(length_check, plan@.len()) ==> #[trigger] call_requires(
                    *process,
                    (plan, count),
                ),
            forall|k: int|
                0 <= k < i ==> frame_scored(
                    *process,
                    length_check,
                    frames@[k].0,
                    frames@[k].1,
                    #[trigger] results@[k],
                ),
        decreases frames.len() - i,
    {
        match run_metric_on_frame(process, length_check, &frames[i].0, frames[i].1) {
            Ok(result) => {
                results.push(result);
            },
            Err(e) => {
                proof {
                    assert forall|j: int| 0 <= j < i implies is_frame_scorable(
                        *process,
                        length_check,
                        (#[trigger] frames@[j]).0,
                        frames@[j].1,
                    ) by {
                        assert(frame_scored(
                            *process,
                            length_check,
                            frames@[j].0,
                            frames@[j].1,
                            results@[j],
                        ));
                    }
                    assert(frame_unscored(
                        *process,
                        length_check,
                        frames@[i as int].0,
                        frames@[i as int].1,
                        e,
                    ));
                }
                return Err(e);
            },
        }
        i += 1;
    }
    Ok(results)
}

/// The sample counts of frames.
pub open spec fn frame_counts(frames: Seq<(StoredFrame, u16)>) -> Seq<u16> {
    Seq::new(frames.len(), |i: int| frames[i].1)
}

/// Whether `records` are the plans of the first frames that a run takes, with the samples that it
/// takes of each, up to a frame without a plan.
pub open spec fn decoded_records(
    frames: Seq<(StoredFrame, u16)>,
    max_samples: Option<usize>,
    records: Seq<(Vec<u16>, u16)>,
) -> bool {
    let kept = taken_reps(frame_counts(frames), max_samples);
    &&& records.len() <= kept.len() <= frames.len()
    &&& forall|i: int|
        0 <= i < records.len() ==> frames[i].0.plan() == Ok::<Seq<u16>, Seq<char>>(
            (#[trigger] records[i]).0@,
        ) && records[i].1 == kept[i]
    &&& records.len() < kept.len() ==> frames[records.len() as int].0.plan() is Err
}

/// How many of `n` records are in whole batches.
pub open spec fn in_whole_batches(n: nat) -> int {
    n - n % (BATCH as nat)
}

/// Whether a run over frames ends with `rows` and `outcome`, where `records` are the plans of the
/// frames, as far as they have one.
///
/// With plans for all frames it ends as the run over the plans does. A frame without a plan ends the
/// run before its batch is forwarded: the batches before go as always, and the error is the first
/// one of the batch.
pub open spec fn frame_outcome<Row, P: Fn(&[u16], u16) -> Result<(u128, Row), Error>>(
    start: Pipeline,
    process: P,
    frames: Seq<(StoredFrame, u16)>,
    max_samples: Option<usize>,
    records: Seq<(Vec<u16>, u16)>,
    results: Seq<FrameResult<Row>>,
    rows: Seq<PipelineRow<Row>>,
    outcome: Result<(), Error>,
) -> bool {
    let check = start.length_guard.check;
    let kept = taken_reps(frame_counts(frames), max_samples);
    let whole = in_whole_batches(records.len());
    &&& decoded_records(frames, max_samples, records)
    &&& if records.len() == kept.len() {
        run_outcome(start, process, records, None, results, rows, outcome)
    } else {
        outcome matches Err(e) && {
            ||| run_outcome(start, process, records.take(whole), None, results, rows, Err(e))
            ||| run_outcome(start, process, records.take(whole), None, results, rows, Ok(())) && {
                ||| exists|i: int|
                    whole <= i < records.len() && unscored(
                        process,
                        check,
                        (#[trigger] records[i]).0@,
                        records[i].1,
                        e,
                    ) && forall|j: int|
                        whole <= j < i ==> is_scorable(
                            process,
                            check,
                            (#[trigger] records[j]).0@,
                            records[j].1,
                        )
                ||| (forall|i: int|
                    whole <= i < records.len() ==> is_scorable(
                        process,
                        check,
                        (#[trigger] records[i]).0@,
                        records[i].1,
                    )) && frame_unscored(
                    process,
                    check,
                    frames[records.len() as int].0,
                    kept[records.len() as int],
                    e,
                )
            }
        }
    }
}

/// Expand the frames that a run takes, up to one without a plan. Gives their plans, and the error.
fn decode_taken(frames: &Vec<(StoredFrame, u16)>, max_samples: Option<usize>) -> (r: (
    Vec<(Vec<u16>, u16)>,
    Option<Error>,
))
    ensures
        decoded_records(frames@, max_samples, r.0@),
        ({
            let kept = taken_reps(frame_counts(frames@), max_samples);
            match r.1 {
                None => r.0@.len() == kept.len(),
                Some(e) => r.0@.len() < kept.len() && (frames@[r.0@.len() as int].0.plan() matches Err(
                    cause,
                ) && e.is_invalid_data(undecodable_text(cause))),
            }
        }),
{
    let ghost counts = frame_counts(frames@);
    let ghost kept = taken_reps(counts, max_samples);
    let mut records: Vec<(Vec<u16>, u16)> = Vec::new();
    let mut remaining_samples = max_samples;
    let mut i: usize = 0;
    proof {
        crate::pipeline::law_capped_total(counts, max_samples);
        assert(counts.skip(0) =~= counts);
        assert(kept.skip(0) =~= kept);
    }
    while i < frames.len() && wants_samples(&remaining_samples)
        invariant
            i <= frames@.len(),
            records@.len() == i,
            counts == frame_counts(frames@),
            kept == taken_reps(counts, max_samples),
            i <= kept.len() <= frames@.len(),
            kept.skip(i as int) == taken_reps(counts.skip(i as int), remaining_samples),
            forall|k: int|
                0 <= k < i ==> frames@[k].0.plan() == Ok::<Seq<u16>, Seq<char>>(
                    (#[trigger] records@[k]).0@,
                ) && records@[k].1 == kept[k],
        decreases frames.len() - i,
    {
        proof {
            lemma_taken_step(counts, i as int, max_samples, remaining_samples);
            assert(counts[i as int] == frames@[i as int].1);
        }
        match decode_frame(&frames[i].0) {
            Ok(assignment) => {
                let count: u16 = capped_reps(&mut remaining_samples, frames[i].1);
                records.push((assignment, count));
            },
            Err(e) => {
                return (records, Some(e));
            },
        }
        i += 1;
    }
    proof {
        lemma_taken_step(counts, i as int, max_samples, remaining_samples);
    }
    (records, None)
}

/// Expand and score frames and forward the results, batch by batch.
///
/// Returns the output rows, and why the run ended early if it did.
pub fn run_frame_pipeline<Row, P: Fn(&[u16], u16) -> Result<(u128, Row), Error>>(
    frames: &Vec<(StoredFrame, u16)>,
    length_check: AssignmentLengthCheck,
    district_set_label: Option<String>,
    process: P,
    max_samples: Option<usize>,
) -> (r: (Vec<PipelineRow<Row>>, Result<(), Error>))
    requires
        Pipeline::start(length_check, district_set_label).has_room(frames@.len()),
        forall|plan: &[u16], count: u16|
            length_fits(length_check, plan@.len()) ==> #[trigger] call_requires(
                process,
                (plan, count),
            ),
    ensures
        exists|records: Seq<(Vec<u16>, u16)>, results: Seq<FrameResult<Row>>| #[trigger]
            frame_outcome(
                Pipeline::start(length_check, district_set_label),
                process,
                frames@,
                max_samples,
                records,
                results,
                r.0@,
                r.1,
            ),
{
    let ghost start = Pipeline::start(length_check, district_set_label);
    let (mut records, failure) = decode_taken(frames, max_samples);
    let ghost decoded = records@;
    let decode_error = match failure {
        None => {
            let ended = run_pipeline_core(records, length_check, district_set_label, process, None);
            proof {
                let results = choose|results: Seq<FrameResult<Row>>| #[trigger]
                    run_outcome(start, process, decoded, None, results, ended.0@, ended.1);
                assert(frame_outcome(
                    start,
                    process,
                    frames@,
                    max_samples,
                    decoded,
                    results,
                    ended.0@,
                    ended.1,
                ));
            }
            return ended;
        },
        Some(e) => e,
    };
    let whole: usize = records.len() - records.len() % BATCH;
    let rest = records.split_off(whole);
    proof {
        assert(records@ =~= decoded.take(whole as int));
        assert forall|i: int| 0 <= i < rest@.len() implies #[trigger] rest@[i] == decoded[whole
            + i] by {}
    }
    let batch_error = match process_assignment_batch(&process, length_check, rest.as_slice()) {
        Ok(results) => {
            proof {
                assert forall|i: int| whole <= i < decoded.len() implies is_scorable(
                    process,
                    length_check,
                    (#[trigger] decoded[i]).0@,
                    decoded[i].1,
                ) by {
                    let result = results@[i - whole];
                    assert(rest@[i - whole] == decoded[i]);
                    assert(scored(process, length_check, decoded[i].0@, decoded[i].1, result));
                }
            }
            decode_error
        },
        Err(e) => {
            proof {
                let i = choose|i: int|
                    0 <= i < rest@.len() && unscored(
                        process,
                        length_check,
                        (#[trigger] rest@[i]).0@,
                        rest@[i].1,
                        e,
                    ) && forall|j: int|
                        0 <= j < i ==> is_scorable(
                            process,
                            length_check,
                            (#[trigger] rest@[j]).0@,
                            rest@[j].1,
                        );
                assert forall|j: int| whole <= j < whole + i implies is_scorable(
                    process,
                    length_check,
                    (#[trigger] decoded[j]).0@,
                    decoded[j].1,
                ) by {
                    assert(rest@[j - whole] == decoded[j]);
                }
                assert(rest@[i] == decoded[whole + i]);
                assert(unscored(
                    process,
                    length_check,
                    decoded[whole + i].0@,
                    decoded[whole + i].1,
                    e,
                ));
            }
            e
        },
    };
    let (rows, outcome) = run_pipeline_core(
        records,
        length_check,
        district_set_label,
        process,
        None,
    );
    let ghost results = choose|results: Seq<FrameResult<Row>>| #[trigger]
        run_outcome(start, process, decoded.take(whole as int), None, results, rows@, outcome);
    let error = match outcome {
        Ok(()) => batch_error,
        Err(e) => e,
    };
    let ended: (Vec<PipelineRow<Row>>, Result<(), Error>) = (rows, Err(error));
    proof {
        assert(frame_outcome(
            start,
            process,
            frames@,
            max_samples,
            decoded,
            results,
            ended.0@,
            ended.1,
        ));
    }
    ended
}

/// What a run decodes: the plans of the frames that it takes, in order, each with as many samples as
/// the run takes of it, up to the first frame without a plan.
pub proof fn law_decoded_records(
    frames: Seq<(StoredFrame, u16)>,
    max_samples: Option<usize>,
    records: Seq<(Vec<u16>, u16)>,
    i: int,
)
    requires
        decoded_records(frames, max_samples, records),
        0 <= i < records.len(),
    ensures
        expanded_frame(frames[i].0.layout, frames[i].0.bytes@) == Ok::<Seq<u16>, Seq<char>>(
            records[i].0@,
        ),
        records[i].1 == taken_reps(Seq::new(frames.len(), |j: int| frames[j].1), max_samples)[i],
        records.len() < taken_reps(
            Seq::new(frames.len(), |j: int| frames[j].1),
            max_samples,
        ).len() ==> expanded_frame(
            frames[records.len() as int].0.layout,
            frames[records.len() as int].0.bytes@,
        ) is Err,
{
    assert(frame_counts(frames) =~= Seq::new(frames.len(), |j: int| frames[j].1));
    assert(records[i].0@ == records[i].0@);
}

} // verus!
