//! The contracts that every run enforces, frame by frame.
//!
//! Frames are decoded in batches; each batch is scored, and its results are then forwarded in file
//! order. Forwarding checks the assignment length and, for modes whose output depends on district
//! labels, that every plan uses the labels of the first, and numbers the output rows. Modes that
//! keep state from frame to frame go through [`SequentialFrames`] instead.
use crate::district::{
    district_set_changed_text, observed_assignment_districts, observes, reports_first_excess,
    validate_district_set_unchanged, within_limit,
};
use crate::error::{invalid_data, Error};
use crate::text::{decimal, push_decimal};
use vstd::prelude::*;

verus! {

/// Default number of rows per written row group.
pub const PARQUET_BATCH_ROWS: usize = 262144;

/// Number of frames scored together.
pub const BATCH: usize = 256;

// ---------------------------------------------------------------------------------------------
// Samples to go
// ---------------------------------------------------------------------------------------------

/// How many of `n_reps` samples a run with `remaining` samples to go keeps.
pub open spec fn kept_reps(remaining: Option<usize>, n_reps: u16) -> u16 {
    match remaining {
        Some(left) => if left < n_reps {
            left as u16
        } else {
            n_reps
        },
        None => n_reps,
    }
}

/// How many samples are to go after a frame of `n_reps`.
pub open spec fn left_samples(remaining: Option<usize>, n_reps: u16) -> Option<usize> {
    match remaining {
        Some(left) => Some((left - kept_reps(remaining, n_reps)) as usize),
        None => None,
    }
}

/// Take a frame of `n_reps` samples out of the samples to go.
pub fn capped_reps(remaining_samples: &mut Option<usize>, n_reps: u16) -> (r: u16)
    ensures
        r == kept_reps(*old(remaining_samples), n_reps),
        *final(remaining_samples) == left_samples(*old(remaining_samples), n_reps),
{
    match *remaining_samples {
        Some(remaining) => {
            let keep: usize = if remaining < n_reps as usize {
                remaining
            } else {
                n_reps as usize
            };
            *remaining_samples = Some(remaining - keep);
            keep as u16
        },
        None => n_reps,
    }
}

/// Whether there are samples to go.
pub fn wants_samples(remaining_samples: &Option<usize>) -> (r: bool)
    ensures
        r == (*remaining_samples != Some(0usize)),
{
    match remaining_samples {
        Some(left) => *left != 0,
        None => true,
    }
}

/// The sum of `counts`.
pub open spec fn sum_reps(counts: Seq<u16>) -> nat
    decreases counts.len(),
{
    if counts.len() == 0 {
        0
    } else {
        sum_reps(counts.drop_last()) + counts.last() as nat
    }
}

/// How many frames of the given sizes a run takes, and with how many samples each: it stops when
/// no samples are to go.
pub open spec fn taken_reps(counts: Seq<u16>, remaining: Option<usize>) -> Seq<u16>
    decreases counts.len(),
{
    if counts.len() == 0 || remaining == Some(0usize) {
        Seq::empty()
    } else {
        seq![kept_reps(remaining, counts[0])] + taken_reps(
            counts.drop_first(),
            left_samples(remaining, counts[0]),
        )
    }
}

/// A run takes all samples, or as many as it was allowed; every frame but the last that it takes
/// counts in full.
pub proof fn law_capped_total(counts: Seq<u16>, max_samples: Option<usize>)
    ensures
        taken_reps(counts, max_samples).len() <= counts.len(),
        sum_reps(taken_reps(counts, max_samples)) == match max_samples {
            Some(max) => if sum_reps(counts) < max {
                sum_reps(counts)
            } else {
                max as nat
            },
            None => sum_reps(counts),
        },
        max_samples is None ==> taken_reps(counts, max_samples) == counts,
        forall|i: int|
            0 <= i < taken_reps(counts, max_samples).len() - 1 ==> #[trigger] taken_reps(
                counts,
                max_samples,
            )[i] == counts[i],
    decreases counts.len(),
{
    if counts.len() == 0 || max_samples == Some(0usize) {
        if counts.len() == 0 {
            assert(taken_reps(counts, max_samples) =~= counts);
        }
    } else {
        let rest = counts.drop_first();
        let left = left_samples(max_samples, counts[0]);
        let kept = kept_reps(max_samples, counts[0]);
        law_capped_total(rest, left);
        lemma_sum_front(counts[0], rest);
        lemma_sum_front(kept, taken_reps(rest, left));
        assert(seq![counts[0]] + rest =~= counts);
        if max_samples is None {
            assert(taken_reps(counts, max_samples) =~= counts);
        }
        assert forall|i: int|
            0 <= i < taken_reps(counts, max_samples).len() - 1 implies #[trigger] taken_reps(
            counts,
            max_samples,
        )[i] == counts[i] by {
            if i > 0 {
                assert(taken_reps(counts, max_samples)[i] == taken_reps(rest, left)[i - 1]);
                assert(rest[i - 1] == counts[i]);
            } else if max_samples matches Some(max) && max < counts[0] {
                assert(taken_reps(rest, left).len() == 0);
            }
        }
    }
}

/// The sum of counts adds up one count after another.
pub proof fn law_sum_reps(counts: Seq<u16>, count: u16)
    ensures
        sum_reps(Seq::empty()) == 0,
        sum_reps(counts.push(count)) == sum_reps(counts) + count,
{
    assert(counts.push(count).drop_last() =~= counts);
}

/// Which frames a run takes, and with how many samples: a frame is taken exactly when the frames
/// before it leave samples to go, and counts with its own samples or with those that are left.
pub proof fn law_taken_frames(counts: Seq<u16>, max_samples: Option<usize>, i: int)
    requires
        0 <= i < counts.len(),
    ensures
        i < taken_reps(counts, max_samples).len() <==> (max_samples is None || sum_reps(
            counts.take(i),
        ) < max_samples->0),
        i < taken_reps(counts, max_samples).len() ==> taken_reps(counts, max_samples)[i] == (
        match max_samples {
            Some(max) => if max - sum_reps(counts.take(i)) < counts[i] {
                max - sum_reps(counts.take(i))
            } else {
                counts[i] as int
            },
            None => counts[i] as int,
        }),
    decreases counts.len(),
{
    let kept = taken_reps(counts, max_samples);
    assert(counts.take(0) =~= Seq::empty());
    if max_samples != Some(0usize) {
        let rest = counts.drop_first();
        let left = left_samples(max_samples, counts[0]);
        assert(kept == seq![kept_reps(max_samples, counts[0])] + taken_reps(rest, left));
        if i > 0 {
            law_taken_frames(rest, left, i - 1);
            assert(counts.take(i) =~= seq![counts[0]] + rest.take(i - 1));
            lemma_sum_front(counts[0], rest.take(i - 1));
            assert(kept.len() == 1 + taken_reps(rest, left).len());
            if i < kept.len() {
                assert(kept[i] == taken_reps(rest, left)[i - 1]);
            }
        }
    }
}

/// What one frame takes out of the samples to go: as many as it has, but no more than are left.
pub proof fn law_kept_reps(left: usize, n_reps: u16)
    ensures
        kept_reps(None, n_reps) == n_reps,
        left_samples(None, n_reps) is None,
        kept_reps(Some(left), n_reps) <= left,
        kept_reps(Some(left), n_reps) <= n_reps,
        kept_reps(Some(left), n_reps) == left || kept_reps(Some(left), n_reps) == n_reps,
        left_samples(Some(left), n_reps) is Some,
        left_samples(Some(left), n_reps)->0 + kept_reps(Some(left), n_reps) == left,
{
}

proof fn lemma_sum_front(first: u16, rest: Seq<u16>)
    ensures
        sum_reps(seq![first] + rest) == first as nat + sum_reps(rest),
    decreases rest.len(),
{
    let all = seq![first] + rest;
    if rest.len() == 0 {
        assert(all.drop_last() =~= Seq::<u16>::empty());
        assert(sum_reps(all.drop_last()) == 0);
    } else {
        assert(all.drop_last() =~= seq![first] + rest.drop_last());
        assert(all.last() == rest.last());
        lemma_sum_front(first, rest.drop_last());
    }
}

// ---------------------------------------------------------------------------------------------
// Guards
// ---------------------------------------------------------------------------------------------

/// How every decoded assignment's length is validated.
#[derive(Clone, Copy, Debug)]
pub enum AssignmentLengthCheck {
    /// Every frame has exactly the graph's node count.
    MatchesGraph(usize),
    /// Every frame has exactly `expected` entries; `label` says what fixes the number.
    Exact { expected: usize, label: &'static str },
    /// The first frame's length holds for the rest of the file.
    UniformWithinFile,
}

/// Serial enforcement of [`AssignmentLengthCheck`], in file order.
#[derive(Debug)]
pub struct LengthGuard {
    pub check: AssignmentLengthCheck,
    pub established: Option<usize>,
}

/// The message for a length that changes within a file.
pub open spec fn length_changed_text(expected: nat, actual: nat) -> Seq<char> {
    "assignment length changed from "@ + decimal(expected) + " to "@ + decimal(actual)
        + " within the BEN file; every plan in an ensemble must assign the same node set"@
}

/// Whether `e` reports an assignment of `actual` entries where `expected` are due.
pub open spec fn reports_length(
    e: Error,
    actual: nat,
    expected: nat,
    label: Seq<char>,
) -> bool {
    e matches Error::AssignmentLength { actual: a, actual_label, expected: x, expected_label } && a
        == actual && actual_label@ == "BEN assignment length"@ && x == expected
        && expected_label@ == label
}

impl AssignmentLengthCheck {
    /// The length that holds from the start, and what fixes it.
    pub open spec fn fixed(&self) -> Option<(usize, Seq<char>)> {
        match self {
            AssignmentLengthCheck::MatchesGraph(expected) => Some(
                (*expected, "graph node count"@),
            ),
            AssignmentLengthCheck::Exact { expected, label } => Some((*expected, label@)),
            AssignmentLengthCheck::UniformWithinFile => None,
        }
    }

    /// The length that holds from the start.
    pub fn fixed_length(&self) -> (r: Option<usize>)
        ensures
            match self.fixed() {
                Some((expected, _)) => r == Some(expected),
                None => r is None,
            },
    {
        match self {
            AssignmentLengthCheck::MatchesGraph(expected) => Some(*expected),
            AssignmentLengthCheck::Exact { expected, label: _ } => Some(*expected),
            AssignmentLengthCheck::UniformWithinFile => None,
        }
    }

    /// What fixes the length.
    pub fn length_label(&self) -> (r: &'static str)
        ensures
            self.fixed() matches Some((_, label)) ==> r@ == label,
    {
        match self {
            AssignmentLengthCheck::MatchesGraph(_) => "graph node count",
            AssignmentLengthCheck::Exact { expected: _, label } => label,
            AssignmentLengthCheck::UniformWithinFile => "first assignment length",
        }
    }
}

impl LengthGuard {
    /// Whether a frame of `actual` entries passes.
    pub open spec fn admits(&self, actual: usize) -> bool {
        match self.check.fixed() {
            Some((expected, _)) => actual == expected,
            None => self.established matches Some(expected) ==> actual == expected,
        }
    }

    /// The guard after a frame that passes.
    pub open spec fn after(self, actual: usize) -> LengthGuard {
        match self.check.fixed() {
            Some(_) => self,
            None => LengthGuard { check: self.check, established: Some(actual) },
        }
    }

    /// Whether `e` is why a frame of `actual` entries does not pass.
    pub open spec fn rejects(&self, actual: usize, e: Error) -> bool {
        match self.check.fixed() {
            Some((expected, label)) => reports_length(e, actual as nat, expected as nat, label),
            None => e.is_invalid_data(
                length_changed_text(self.established->0 as nat, actual as nat),
            ),
        }
    }

    /// A guard that has seen no frame.
    pub fn new(check: AssignmentLengthCheck) -> (r: Self)
        ensures
            r.check == check,
            r.established is None,
    {
        LengthGuard { check, established: None }
    }

    /// Check the length of one frame.
    pub fn check(&mut self, actual: usize) -> (r: Result<(), Error>)
        ensures
            r is Ok <==> old(self).admits(actual),
            r is Ok ==> *final(self) == old(self).after(actual),
            r matches Err(e) ==> old(self).rejects(actual, e) && *final(self) == *old(self),
    {
        match self.check.fixed_length() {
            Some(expected) => {
                if actual != expected {
                    return Err(
                        Error::AssignmentLength {
                            actual,
                            actual_label: "BEN assignment length",
                            expected,
                            expected_label: self.check.length_label(),
                        },
                    );
                }
            },
            None => match self.established {
                None => {
                    self.established = Some(actual);
                },
                Some(expected) => {
                    if actual != expected {
                        let mut message = "assignment length changed from ".to_owned();
                        push_decimal(&mut message, expected as u64);
                        message.append(" to ");
                        push_decimal(&mut message, actual as u64);
                        message.append(
                            " within the BEN file; every plan in an ensemble must assign the same node set",
                        );
                        return Err(invalid_data(message));
                    }
                },
            },
        }
        Ok(())
    }
}

/// First-frame district-set contract: where a label is given, the first frame's district set holds
/// for the rest of the run. Modes that do not look at district labels give none.
#[derive(Debug)]
pub struct DistrictSetGuard {
    pub label: Option<String>,
    pub expected: Option<u128>,
}

impl DistrictSetGuard {
    /// Whether a plan with the given labels passes.
    pub open spec fn admits(&self, observed: u128) -> bool {
        self.label is Some ==> (self.expected matches Some(expected) ==> expected == observed)
    }

    /// The guard after a plan that passes.
    pub open spec fn after(self, observed: u128) -> DistrictSetGuard {
        if self.label is Some {
            DistrictSetGuard { label: self.label, expected: Some(observed) }
        } else {
            self
        }
    }

    /// Whether `e` is why a plan with the given labels does not pass.
    pub open spec fn rejects(&self, observed: u128, e: Error) -> bool {
        e matches Error::DistrictSetChanged(message) && message@ == district_set_changed_text(
            observed,
            self.expected->0,
            self.label->0@,
        )
    }

    /// A guard that has seen no plan.
    pub fn new(label: Option<String>) -> (r: Self)
        ensures
            r.label == label,
            r.expected is None,
    {
        DistrictSetGuard { label, expected: None }
    }

    /// Whether district sets are looked at.
    pub fn is_active(&self) -> (r: bool)
        ensures
            r == (self.label is Some),
    {
        self.label.is_some()
    }

    /// Check the labels of one plan.
    pub fn check(&mut self, observed: u128) -> (r: Result<(), Error>)
        ensures
            r is Ok <==> old(self).admits(observed),
            r is Ok ==> *final(self) == old(self).after(observed),
            r matches Err(e) ==> old(self).rejects(observed, e) && *final(self) == *old(self),
    {
        match &self.label {
            None => {},
            Some(label) => match self.expected {
                None => {
                    self.expected = Some(observed);
                },
                Some(expected) => {
                    match validate_district_set_unchanged(observed, expected, label) {
                        Ok(()) => {},
                        Err(e) => {
                            return Err(e);
                        },
                    }
                },
            },
        }
        Ok(())
    }
}

// ---------------------------------------------------------------------------------------------
// Batches
// ---------------------------------------------------------------------------------------------

/// The score of one frame: how many samples it stands for, its length, its district labels, and
/// its row.
#[derive(Debug)]
pub struct FrameResult<Row> {
    pub n_reps: u16,
    pub assignment_len: usize,
    pub observed: u128,
    pub row: Row,
}

/// The error of an outcome.
pub open spec fn failure_of(outcome: Result<(), Error>) -> Option<Error> {
    match outcome {
        Ok(()) => None,
        Err(e) => Some(e),
    }
}

/// An output row: the number of its first sample, how many samples it stands for, and the number
/// of its accepted plan.
#[derive(Debug)]
pub struct PipelineRow<Row> {
    pub step: u64,
    pub n_reps: u32,
    pub accepted: u64,
    pub row: Row,
}

/// The state of a run: guards and counters.
#[derive(Debug)]
pub struct Pipeline {
    pub length_guard: LengthGuard,
    pub district_guard: DistrictSetGuard,
    pub sample_count: u64,
    pub accepted_count: u64,
}

impl Pipeline {
    /// A run that has seen no frame: rows are numbered from one.
    pub open spec fn start(
        length_check: AssignmentLengthCheck,
        district_set_label: Option<String>,
    ) -> Pipeline {
        Pipeline {
            length_guard: LengthGuard { check: length_check, established: None },
            district_guard: DistrictSetGuard { label: district_set_label, expected: None },
            sample_count: 1,
            accepted_count: 1,
        }
    }

    /// A run that has seen no frame.
    pub fn new(
        length_check: AssignmentLengthCheck,
        district_set_label: Option<String>,
    ) -> (r: Self)
        ensures
            r == Pipeline::start(length_check, district_set_label),
    {
        Pipeline {
            length_guard: LengthGuard::new(length_check),
            district_guard: DistrictSetGuard::new(district_set_label),
            sample_count: 1,
            accepted_count: 1,
        }
    }

    /// Whether a result passes both guards.
    pub open spec fn admits<Row>(&self, result: FrameResult<Row>) -> bool {
        self.length_guard.admits(result.assignment_len) && self.district_guard.admits(
            result.observed,
        )
    }

    /// Whether `e` is why a result does not pass: the length is looked at first.
    pub open spec fn rejects<Row>(&self, result: FrameResult<Row>, e: Error) -> bool {
        if !self.length_guard.admits(result.assignment_len) {
            self.length_guard.rejects(result.assignment_len, e)
        } else {
            self.district_guard.rejects(result.observed, e)
        }
    }

    /// The run after a result that passes.
    pub open spec fn after<Row>(self, result: FrameResult<Row>) -> Pipeline {
        Pipeline {
            length_guard: self.length_guard.after(result.assignment_len),
            district_guard: self.district_guard.after(result.observed),
            sample_count: (self.sample_count + result.n_reps) as u64,
            accepted_count: (self.accepted_count + 1) as u64,
        }
    }

    /// The run after results that all pass.
    #[verifier::opaque]
    pub open spec fn after_all<Row>(self, results: Seq<FrameResult<Row>>) -> Pipeline
        decreases results.len(),
    {
        if results.len() == 0 {
            self
        } else {
            self.after_all(results.drop_last()).after(results.last())
        }
    }

    /// The run after no results is the run itself.
    pub proof fn lemma_after_none<Row>(self, results: Seq<FrameResult<Row>>)
        ensures
            self.after_all(results.take(0)) == self,
    {
        reveal(Pipeline::after_all);
        assert(results.take(0) =~= Seq::empty());
    }

    /// The run after one more result.
    pub proof fn lemma_after_all<Row>(self, results: Seq<FrameResult<Row>>, n: int)
        requires
            0 <= n < results.len(),
        ensures
            self.after_all(results.take(n + 1)) == self.after_all(results.take(n)).after(
                results[n],
            ),
    {
        reveal(Pipeline::after_all);
        assert(results.take(n + 1).drop_last() =~= results.take(n));
        assert(results.take(n + 1).last() == results[n]);
    }

    /// The row of a result.
    pub open spec fn stamp<Row>(&self, result: FrameResult<Row>) -> PipelineRow<Row> {
        PipelineRow {
            step: self.sample_count,
            n_reps: result.n_reps as u32,
            accepted: self.accepted_count,
            row: result.row,
        }
    }

    /// Whether the counters have room for `n` more frames.
    pub open spec fn has_room(&self, n: nat) -> bool {
        self.sample_count + 0xffff * n <= u64::MAX && self.accepted_count + n <= u64::MAX
    }

    /// Forward the results of a batch in order, up to the first that does not pass.
    ///
    /// Returns the rows of the results that pass, and why forwarding stopped.
    pub fn forward_results<Row>(&mut self, results: Vec<FrameResult<Row>>) -> (r: (
        Vec<PipelineRow<Row>>,
        Result<(), Error>,
    ))
        requires
            old(self).has_room(results@.len()),
        ensures
            old(self).forwards(results@, r.0@, failure_of(r.1)),
            r.1 is Ok ==> *final(self) == old(self).after_all(results@),
            r.1 is Err ==> {
                let state = old(self).after_all(results@.take(r.0@.len() as int));
                let failed = results@[r.0@.len() as int];
                *final(self) == if state.length_guard.admits(failed.assignment_len) {
                    Pipeline {
                        length_guard: state.length_guard.after(failed.assignment_len),
                        ..state
                    }
                } else {
                    state
                }
            },
    {
        let ghost all = results@;
        let ghost start = *self;
        let mut rows: Vec<PipelineRow<Row>> = Vec::new();
        let mut rest = results;
        let mut reversed: Vec<FrameResult<Row>> = Vec::new();
        while rest.len() > 0
            invariant
                all == results@,
                rest@.len() + reversed@.len() == all.len(),
                rest@ == all.take(rest@.len() as int),
                forall|i: int|
                    0 <= i < reversed@.len() ==> #[trigger] reversed@[i] == all[all.len() - 1 - i],
            decreases rest.len(),
        {
            match rest.pop() {
                Some(result) => {
                    reversed.push(result);
                },
                None => {},
            }
        }
        proof {
            start.lemma_after_none(all);
        }
        while reversed.len() > 0
            invariant
                all == results@,
                rows@.len() + reversed@.len() == all.len(),
                start == *old(self),
                start.has_room(all.len()),
                *self == start.after_all(all.take(rows@.len() as int)),
                self.sample_count + 0xffff * reversed@.len() <= u64::MAX,
                self.accepted_count + reversed@.len() <= u64::MAX,
                forall|i: int|
                    0 <= i < reversed@.len() ==> #[trigger] reversed@[i] == all[all.len() - 1 - i],
                forall|i: int|
                    0 <= i < rows@.len() ==> start.after_all(all.take(i)).admits(
                        #[trigger] all[i],
                    ),
                forall|i: int|
                    0 <= i < rows@.len() ==> #[trigger] rows@[i] == start.after_all(
                        all.take(i),
                    ).stamp(all[i]),
            decreases reversed.len(),
        {
            let ghost n = rows@.len() as int;
            let result = match reversed.pop() {
                Some(result) => result,
                None => {
                    return (rows, Ok(()));
                },
            };
            proof {
                assert(result == all[n]);
                start.lemma_after_all(all, n);
            }
            match self.length_guard.check(result.assignment_len) {
                Ok(()) => {},
                Err(e) => {
                    return (rows, Err(e));
                },
            }
            match self.district_guard.check(result.observed) {
                Ok(()) => {},
                Err(e) => {
                    return (rows, Err(e));
                },
            }
            rows.push(
                PipelineRow {
                    step: self.sample_count,
                    n_reps: result.n_reps as u32,
                    accepted: self.accepted_count,
                    row: result.row,
                },
            );
            self.sample_count = self.sample_count + result.n_reps as u64;
            self.accepted_count = self.accepted_count + 1;
        }
        proof {
            assert(all.take(all.len() as int) =~= all);
        }
        (rows, Ok(()))
    }
}

impl Pipeline {
    /// Whether `rows` are the rows of `results` up to the first result that does not pass, and
    /// `failure` is why it does not.
    pub open spec fn forwards<Row>(
        self,
        results: Seq<FrameResult<Row>>,
        rows: Seq<PipelineRow<Row>>,
        failure: Option<Error>,
    ) -> bool {
        &&& rows.len() <= results.len()
        &&& forall|i: int|
            0 <= i < rows.len() ==> self.after_all(results.take(i)).admits(#[trigger] results[i])
        &&& forall|i: int|
            0 <= i < rows.len() ==> #[trigger] rows[i] == self.after_all(results.take(i)).stamp(
                results[i],
            )
        &&& match failure {
            None => rows.len() == results.len(),
            Some(e) => rows.len() < results.len() && !self.after_all(
                results.take(rows.len() as int),
            ).admits(results[rows.len() as int]) && self.after_all(
                results.take(rows.len() as int),
            ).rejects(results[rows.len() as int], e),
        }
    }

    /// The counters after results that all pass: samples add up, and every result is one accepted
    /// plan.
    pub proof fn law_counters<Row>(self, results: Seq<FrameResult<Row>>, n: int)
        requires
            0 <= n <= results.len(),
            self.has_room(results.len()),
        ensures
            self.after_all(results.take(n)).sample_count == self.sample_count + sum_reps(
                reps_of(results.take(n)),
            ),
            self.after_all(results.take(n)).accepted_count == self.accepted_count + n,
            sum_reps(reps_of(results.take(n))) <= 0xffff * n,
        decreases n,
    {
        if n == 0 {
            self.lemma_after_none(results);
            assert(reps_of(results.take(0)) =~= Seq::empty());
        } else {
            self.law_counters(results, n - 1);
            self.lemma_after_all(results, n - 1);
            assert(reps_of(results.take(n)).drop_last() =~= reps_of(results.take(n - 1)));
            assert(reps_of(results.take(n)).last() == results[n - 1].n_reps);
        }
    }

    /// Results forwarded in two parts end in the same state as in one.
    pub proof fn law_batches_do_not_matter<Row>(
        self,
        first: Seq<FrameResult<Row>>,
        second: Seq<FrameResult<Row>>,
    )
        ensures
            self.after_all(first + second) == self.after_all(first).after_all(second),
        decreases second.len(),
    {
        reveal(Pipeline::after_all);
        if second.len() == 0 {
            assert(first + second =~= first);
        } else {
            assert((first + second).drop_last() =~= first + second.drop_last());
            self.law_batches_do_not_matter(first, second.drop_last());
        }
    }
}

/// The sample counts of results.
pub open spec fn reps_of<Row>(results: Seq<FrameResult<Row>>) -> Seq<u16> {
    Seq::new(results.len(), |i: int| results[i].n_reps)
}

/// Whether a record has the length that holds from the start.
pub open spec fn length_fits(check: AssignmentLengthCheck, len: nat) -> bool {
    check.fixed() matches Some((expected, _)) ==> len == expected
}

/// Whether `result` is what scoring gives for an assignment that stands for `count` samples.
pub open spec fn scored<Row, P: Fn(&[u16], u16) -> Result<(u128, Row), Error>>(
    process: P,
    check: AssignmentLengthCheck,
    assignment: Seq<u16>,
    count: u16,
    result: FrameResult<Row>,
) -> bool {
    &&& length_fits(check, assignment.len())
    &&& result.n_reps == count
    &&& result.assignment_len == assignment.len()
    &&& exists|plan: &[u16]| #[trigger]
        plan@ == assignment && call_ensures(
            process,
            (plan, count),
            Ok::<(u128, Row), Error>((result.observed, result.row)),
        )
}

/// Whether `e` is why an assignment that stands for `count` samples has no score.
pub open spec fn unscored<Row, P: Fn(&[u16], u16) -> Result<(u128, Row), Error>>(
    process: P,
    check: AssignmentLengthCheck,
    assignment: Seq<u16>,
    count: u16,
    e: Error,
) -> bool {
    if length_fits(check, assignment.len()) {
        exists|plan: &[u16]| #[trigger]
            plan@ == assignment && call_ensures(
                process,
                (plan, count),
                Err::<(u128, Row), Error>(e),
            )
    } else {
        check.fixed() matches Some((expected, label)) && reports_length(
            e,
            assignment.len(),
            expected as nat,
            label,
        )
    }
}

/// Whether an assignment that stands for `count` samples has a score.
pub open spec fn is_scorable<Row, P: Fn(&[u16], u16) -> Result<(u128, Row), Error>>(
    process: P,
    check: AssignmentLengthCheck,
    assignment: Seq<u16>,
    count: u16,
) -> bool {
    exists|result: FrameResult<Row>| #[trigger] scored(process, check, assignment, count, result)
}

/// Score one assignment. Where its length is fixed from the start, a wrong length is reported
/// before the metric looks at it.
pub fn run_metric_on_assignment<Row, P: Fn(&[u16], u16) -> Result<(u128, Row), Error>>(
    process: &P,
    length_check: AssignmentLengthCheck,
    assignment: &[u16],
    count: u16,
) -> (r: Result<FrameResult<Row>, Error>)
    requires
        length_fits(length_check, assignment@.len()) ==> call_requires(
            *process,
            (assignment, count),
        ),
    ensures
        r matches Ok(result) ==> scored(*process, length_check, assignment@, count, result),
        r matches Err(e) ==> unscored(*process, length_check, assignment@, count, e),
        !length_fits(length_check, assignment@.len()) ==> r is Err,
{
    if let Some(expected) = length_check.fixed_length() {
        if assignment.len() != expected {
            return Err(
                Error::AssignmentLength {
                    actual: assignment.len(),
                    actual_label: "BEN assignment length",
                    expected,
                    expected_label: length_check.length_label(),
                },
            );
        }
    }
    match process(assignment, count) {
        Ok((observed, row)) => Ok(
            FrameResult { n_reps: count, assignment_len: assignment.len(), observed, row },
        ),
        Err(e) => Err(e),
    }
}

/// Score the records of a batch in order, up to the first without a score.
pub fn process_assignment_batch<Row, P: Fn(&[u16], u16) -> Result<(u128, Row), Error>>(
    process: &P,
    length_check: AssignmentLengthCheck,
    records: &[(Vec<u16>, u16)],
) -> (r: Result<Vec<FrameResult<Row>>, Error>)
    requires
        forall|plan: &[u16], count: u16|
            length_fits(length_check, plan@.len()) ==> #[trigger] call_requires(
                *process,
                (plan, count),
            ),
    ensures
        r matches Ok(results) ==> results@.len() == records@.len() && forall|i: int|
            0 <= i < results@.len() ==> scored(
                *process,
                length_check,
                records@[i].0@,
                records@[i].1,
                #[trigger] results@[i],
            ),
        r matches Err(e) ==> exists|i: int|
            0 <= i < records@.len() && unscored(
                *process,
                length_check,
                (#[trigger] records@[i]).0@,
                records@[i].1,
                e,
            ) && forall|j: int|
                0 <= j < i ==> is_scorable(
                    *process,
                    length_check,
                    (#[trigger] records@[j]).0@,
                    records@[j].1,
                ),
{
    let mut results: Vec<FrameResult<Row>> = Vec::new();
    let mut i: usize = 0;
    while i < records.len()
        invariant
            i <= records@.len(),
            results@.len() == i,
            forall|plan: &[u16], count: u16|
                length_fits(length_check, plan@.len()) ==> #[trigger] call_requires(
                    *process,
                    (plan, count),
                ),
            forall|k: int|
                0 <= k < i ==> scored(
                    *process,
                    length_check,
                    records@[k].0@,
                    records@[k].1,
                    #[trigger] results@[k],
                ),
        decreases records.len() - i,
    {
        match run_metric_on_assignment(
            process,
            length_check,
            records[i].0.as_slice(),
            records[i].1,
        ) {
            Ok(result) => {
                results.push(result);
            },
            Err(e) => {
                proof {
                    assert(unscored(
                        *process,
                        length_check,
                        records@[i as int].0@,
                        records@[i as int].1,
                        e,
                    ));
                    assert forall|j: int| 0 <= j < i implies is_scorable(
                        *process,
                        length_check,
                        (#[trigger] records@[j]).0@,
                        records@[j].1,
                    ) by {
                        assert(scored(
                            *process,
                            length_check,
                            records@[j].0@,
                            records@[j].1,
                            results@[j],
                        ));
                    }
                }
                return Err(e);
            },
        }
        i += 1;
    }
    Ok(results)
}

impl Pipeline {
    /// Results forwarded in two parts give the rows that they give in one.
    proof fn lemma_forwards_add<Row>(
        self,
        first: Seq<FrameResult<Row>>,
        first_rows: Seq<PipelineRow<Row>>,
        second: Seq<FrameResult<Row>>,
        second_rows: Seq<PipelineRow<Row>>,
        failure: Option<Error>,
    )
        requires
            self.forwards(first, first_rows, None),
            self.after_all(first).forwards(second, second_rows, failure),
        ensures
            self.forwards(first + second, first_rows + second_rows, failure),
    {
        let all = first + second;
        let rows = first_rows + second_rows;
        let m = first.len() as int;
        let middle = self.after_all(first);
        assert forall|i: int| 0 <= i <= rows.len() implies #[trigger] self.after_all(all.take(i))
            == (if i < m {
            self.after_all(first.take(i))
        } else {
            middle.after_all(second.take(i - m))
        }) by {
            if i < m {
                assert(all.take(i) =~= first.take(i));
            } else {
                assert(all.take(i) =~= first + second.take(i - m));
                self.law_batches_do_not_matter(first, second.take(i - m));
            }
        }
        assert forall|i: int| 0 <= i < rows.len() implies self.after_all(all.take(i)).admits(
            #[trigger] all[i],
        ) by {
            if i < m {
                assert(all[i] == first[i]);
            } else {
                assert(all[i] == second[i - m]);
            }
        }
        assert forall|i: int| 0 <= i < rows.len() implies #[trigger] rows[i] == self.after_all(
            all.take(i),
        ).stamp(all[i]) by {
            if i < m {
                assert(rows[i] == first_rows[i]);
                assert(all[i] == first[i]);
            } else {
                assert(rows[i] == second_rows[i - m]);
                assert(all[i] == second[i - m]);
            }
        }
        if failure is Some {
            assert(self.after_all(all.take(rows.len() as int)) == middle.after_all(
                second.take(second_rows.len() as int),
            ));
            assert(all[rows.len() as int] == second[second_rows.len() as int]);
        }
    }
}

/// The sample counts of records.
pub open spec fn counts_of(records: Seq<(Vec<u16>, u16)>) -> Seq<u16> {
    Seq::new(records.len(), |i: int| records[i].1)
}

/// Whether a run over `records` ends with `rows` and `outcome`, where `results` are the scores of
/// the batches that were forwarded.
///
/// Records are taken while samples are to go and scored batch by batch. The first record without a
/// score ends the run before its batch is forwarded; a result that does not pass ends it right
/// there.
pub open spec fn run_outcome<Row, P: Fn(&[u16], u16) -> Result<(u128, Row), Error>>(
    start: Pipeline,
    process: P,
    records: Seq<(Vec<u16>, u16)>,
    max_samples: Option<usize>,
    results: Seq<FrameResult<Row>>,
    rows: Seq<PipelineRow<Row>>,
    outcome: Result<(), Error>,
) -> bool {
    let check = start.length_guard.check;
    let kept = taken_reps(counts_of(records), max_samples);
    &&& results.len() <= kept.len()
    &&& results.len() == kept.len() || results.len() % (BATCH as nat) == 0
    &&& forall|i: int|
        0 <= i < results.len() ==> scored(
            process,
            check,
            records[i].0@,
            kept[i],
            #[trigger] results[i],
        )
    &&& match outcome {
        Ok(()) => results.len() == kept.len() && start.forwards(results, rows, None),
        Err(e) => {
            ||| start.forwards(results, rows, Some(e)) && results.len() <= rows.len() + BATCH
            ||| start.forwards(results, rows, None) && exists|i: int|
                results.len() <= i < kept.len() && i < results.len() + BATCH && unscored(
                    process,
                    check,
                    (#[trigger] records[i]).0@,
                    kept[i],
                    e,
                ) && forall|j: int|
                    results.len() <= j < i ==> is_scorable(
                        process,
                        check,
                        (#[trigger] records[j]).0@,
                        kept[j],
                    )
        },
    }
}

pub(crate) proof fn lemma_taken_step(counts: Seq<u16>, t: int, max_samples: Option<usize>, left: Option<usize>)
    requires
        0 <= t <= counts.len(),
        t <= taken_reps(counts, max_samples).len(),
        taken_reps(counts, max_samples).skip(t) == taken_reps(counts.skip(t), left),
    ensures
        t < counts.len() && left != Some(0usize) ==> t < taken_reps(counts, max_samples).len()
            && taken_reps(counts, max_samples)[t] == kept_reps(left, counts[t]) && taken_reps(
            counts,
            max_samples,
        ).skip(t + 1) == taken_reps(counts.skip(t + 1), left_samples(left, counts[t])),
        t == counts.len() || left == Some(0usize) ==> t == taken_reps(counts, max_samples).len(),
{
    let kept = taken_reps(counts, max_samples);
    if t < counts.len() && left != Some(0usize) {
        let rest = counts.skip(t);
        assert(rest[0] == counts[t]);
        assert(rest.drop_first() =~= counts.skip(t + 1));
        let tail = taken_reps(rest.drop_first(), left_samples(left, rest[0]));
        assert(kept.skip(t) == seq![kept_reps(left, rest[0])] + tail);
        assert(kept.skip(t)[0] == kept[t]);
        assert(kept.skip(t + 1) =~= kept.skip(t).drop_first());
        assert((seq![kept_reps(left, rest[0])] + tail).drop_first() =~= tail);
    } else {
        if t == counts.len() {
            assert(counts.skip(t) =~= Seq::empty());
        }
        assert(kept.skip(t).len() == 0);
    }
}

/// Score and forward one batch.
fn run_batch<Row, P: Fn(&[u16], u16) -> Result<(u128, Row), Error>>(
    pipeline: &mut Pipeline,
    process: &P,
    batch: &[(Vec<u16>, u16)],
    rows: &mut Vec<PipelineRow<Row>>,
    Ghost(start): Ghost<Pipeline>,
    Ghost(results): Ghost<Seq<FrameResult<Row>>>,
) -> (r: (Ghost<Seq<FrameResult<Row>>>, Result<(), Error>))
    requires
        *old(pipeline) == start.after_all(results),
        start.forwards(results, old(rows)@, None),
        start.has_room(results.len() + batch@.len()),
        start.length_guard.check == old(pipeline).length_guard.check,
        forall|plan: &[u16], count: u16|
            length_fits(start.length_guard.check, plan@.len()) ==> #[trigger] call_requires(
                *process,
                (plan, count),
            ),
    ensures
        ({
            let all = r.0@;
            let check = start.length_guard.check;
            &&& all.len() == results.len() || all.len() == results.len() + batch@.len()
            &&& all.take(results.len() as int) == results
            &&& forall|i: int|
                results.len() <= i < all.len() ==> scored(
                    *process,
                    check,
                    batch@[i - results.len()].0@,
                    batch@[i - results.len()].1,
                    #[trigger] all[i],
                )
            &&& match r.1 {
                Ok(()) => all.len() == results.len() + batch@.len() && start.forwards(
                    all,
                    final(rows)@,
                    None,
                ) && *final(pipeline) == start.after_all(all) && final(pipeline).length_guard.check
                    == check,
                Err(e) => {
                    ||| start.forwards(all, final(rows)@, Some(e)) && all.len() <= final(
                        rows
                    )@.len() + batch@.len()
                    ||| all == results && start.forwards(all, final(rows)@, None) && exists|i: int|
                        0 <= i < batch@.len() && unscored(
                            *process,
                            check,
                            (#[trigger] batch@[i]).0@,
                            batch@[i].1,
                            e,
                        ) && forall|j: int|
                            0 <= j < i ==> is_scorable(
                                *process,
                                check,
                                (#[trigger] batch@[j]).0@,
                                batch@[j].1,
                            )
                },
            }
        }),
{
    let scores = match process_assignment_batch(process, pipeline.length_guard.check, batch) {
        Ok(scores) => scores,
        Err(e) => {
            proof {
                assert(results.take(results.len() as int) =~= results);
            }
            return (Ghost(results), Err(e));
        },
    };
    let ghost here = scores@;
    let ghost all = results + here;
    let ghost before = rows@;
    proof {
        start.law_counters(results + here, results.len() as int);
        assert(all.take(results.len() as int) =~= results);
        start.law_batches_do_not_matter(results, here);
    }
    let (mut more, outcome) = pipeline.forward_results(scores);
    let ghost more_rows = more@;
    rows.append(&mut more);
    proof {
        start.lemma_forwards_add(results, before, here, more_rows, failure_of(outcome));
        assert(rows@ =~= before + more_rows);
        assert forall|i: int| results.len() <= i < all.len() implies scored(
            *process,
            start.length_guard.check,
            batch@[i - results.len()].0@,
            batch@[i - results.len()].1,
            #[trigger] all[i],
        ) by {
            assert(all[i] == here[i - results.len()]);
        }
        lemma_check_kept(start, all, all.len() as int);
        assert(all.take(all.len() as int) =~= all);
    }
    (Ghost(all), outcome)
}

proof fn lemma_check_kept<Row>(start: Pipeline, results: Seq<FrameResult<Row>>, n: int)
    requires
        0 <= n <= results.len(),
    ensures
        start.after_all(results.take(n)).length_guard.check == start.length_guard.check,
    decreases n,
{
    if n == 0 {
        start.lemma_after_none(results);
    } else {
        lemma_check_kept(start, results, n - 1);
        start.lemma_after_all(results, n - 1);
    }
}

/// Score records and forward the results, batch by batch.
///
/// Returns the output rows, and why the run ended early if it did.
pub fn run_pipeline_core<Row, P: Fn(&[u16], u16) -> Result<(u128, Row), Error>>(
    records: Vec<(Vec<u16>, u16)>,
    length_check: AssignmentLengthCheck,
    district_set_label: Option<String>,
    process: P,
    max_samples: Option<usize>,
) -> (r: (Vec<PipelineRow<Row>>, Result<(), Error>))
    requires
        Pipeline::start(length_check, district_set_label).has_room(records@.len()),
        forall|plan: &[u16], count: u16|
            length_fits(length_check, plan@.len()) ==> #[trigger] call_requires(
                process,
                (plan, count),
            ),
    ensures
        exists|results: Seq<FrameResult<Row>>| #[trigger]
            run_outcome(
                Pipeline::start(length_check, district_set_label),
                process,
                records@,
                max_samples,
                results,
                r.0@,
                r.1,
            ),
{
    let ghost start = Pipeline::start(length_check, district_set_label);
    let ghost all = records@;
    let ghost counts = counts_of(all);
    let ghost kept = taken_reps(counts, max_samples);
    let mut pipeline = Pipeline::new(length_check, district_set_label);
    let mut remaining_samples = max_samples;
    let mut rows: Vec<PipelineRow<Row>> = Vec::new();
    let mut batch: Vec<(Vec<u16>, u16)> = Vec::new();
    let ghost mut results: Seq<FrameResult<Row>> = Seq::empty();
    let mut forward = records;
    let mut pending: Vec<(Vec<u16>, u16)> = Vec::new();
    while forward.len() > 0
        invariant
            all == records@,
            forward@.len() + pending@.len() == all.len(),
            forward@ == all.take(forward@.len() as int),
            forall|i: int|
                0 <= i < pending@.len() ==> #[trigger] pending@[i] == all[all.len() - 1 - i],
        decreases forward.len(),
    {
        if let Some(record) = forward.pop() {
            pending.push(record);
        }
    }
    proof {
        start.lemma_after_none(results);
        assert(results.take(0) =~= results);
        assert(counts.skip(0) =~= counts);
        assert(kept.skip(0) =~= kept);
        law_capped_total(counts, max_samples);
    }
    while wants_samples(&remaining_samples) && pending.len() > 0
        invariant
            all == records@,
            start == Pipeline::start(length_check, district_set_label),
            start.has_room(all.len()),
            counts == counts_of(all),
            kept == taken_reps(counts, max_samples),
            kept.len() <= all.len(),
            results.len() + batch@.len() + pending@.len() == all.len(),
            results.len() + batch@.len() <= kept.len(),
            results.len() % (BATCH as nat) == 0,
            batch@.len() < BATCH,
            forall|i: int|
                0 <= i < pending@.len() ==> #[trigger] pending@[i] == all[all.len() - 1 - i],
            kept.skip((results.len() + batch@.len()) as int) == taken_reps(
                counts.skip((results.len() + batch@.len()) as int),
                remaining_samples,
            ),
            forall|i: int|
                0 <= i < batch@.len() ==> (#[trigger] batch@[i]).0 == all[results.len() + i].0
                    && batch@[i].1 == kept[results.len() + i],
            pipeline == start.after_all(results),
            pipeline.length_guard.check == length_check,
            start.forwards(results, rows@, None),
            forall|i: int|
                0 <= i < results.len() ==> scored(
                    process,
                    length_check,
                    all[i].0@,
                    kept[i],
                    #[trigger] results[i],
                ),
            forall|plan: &[u16], count: u16|
                length_fits(length_check, plan@.len()) ==> #[trigger] call_requires(
                    process,
                    (plan, count),
                ),
        decreases pending.len(),
    {
        let ghost t = (results.len() + batch@.len()) as int;
        proof {
            lemma_taken_step(counts, t, max_samples, remaining_samples);
        }
        if let Some((assignment, n_reps)) = pending.pop() {
            assert(all[t] == (assignment, n_reps));
            assert(counts[t] == n_reps);
            let count: u16 = capped_reps(&mut remaining_samples, n_reps);
            batch.push((assignment, count));
            if batch.len() == BATCH {
                let ghost earlier = results;
                let (Ghost(more), outcome) = run_batch(
                    &mut pipeline,
                    &process,
                    &batch,
                    &mut rows,
                    Ghost(start),
                    Ghost(results),
                );
                proof {
                    results = more;
                    lemma_batch_scores(
                        process,
                        length_check,
                        all,
                        kept,
                        batch@,
                        earlier,
                        results,
                    );
                }
                match outcome {
                    Ok(()) => {},
                    Err(e) => {
                        proof {
                            lemma_batch_failure(
                                start,
                                process,
                                all,
                                max_samples,
                                batch@,
                                earlier,
                                results,
                                rows@,
                                e,
                            );
                        }
                        let ended: (Vec<PipelineRow<Row>>, Result<(), Error>) = (rows, Err(e));
                        assert(run_outcome(
                            Pipeline::start(length_check, district_set_label),
                            process,
                            records@,
                            max_samples,
                            results,
                            ended.0@,
                            ended.1,
                        ));
                        return ended;
                    },
                }
                batch.clear();
            }
        }
    }
    let ghost t = (results.len() + batch@.len()) as int;
    proof {
        lemma_taken_step(counts, t, max_samples, remaining_samples);
    }
    let ghost earlier = results;
    let (Ghost(more), outcome) = run_batch(
        &mut pipeline,
        &process,
        &batch,
        &mut rows,
        Ghost(start),
        Ghost(results),
    );
    proof {
        results = more;
        lemma_batch_scores(process, length_check, all, kept, batch@, earlier, results);
    }
    match outcome {
        Ok(()) => {
            let ended: (Vec<PipelineRow<Row>>, Result<(), Error>) = (rows, Ok(()));
            assert(run_outcome(
                Pipeline::start(length_check, district_set_label),
                process,
                records@,
                max_samples,
                results,
                ended.0@,
                ended.1,
            ));
            ended
        },
        Err(e) => {
            proof {
                lemma_batch_failure(
                    start,
                    process,
                    all,
                    max_samples,
                    batch@,
                    earlier,
                    results,
                    rows@,
                    e,
                );
            }
            let ended: (Vec<PipelineRow<Row>>, Result<(), Error>) = (rows, Err(e));
            assert(run_outcome(
                Pipeline::start(length_check, district_set_label),
                process,
                records@,
                max_samples,
                results,
                ended.0@,
                ended.1,
            ));
            ended
        },
    }
}

proof fn lemma_batch_scores<Row, P: Fn(&[u16], u16) -> Result<(u128, Row), Error>>(
    process: P,
    check: AssignmentLengthCheck,
    records: Seq<(Vec<u16>, u16)>,
    kept: Seq<u16>,
    batch: Seq<(Vec<u16>, u16)>,
    earlier: Seq<FrameResult<Row>>,
    results: Seq<FrameResult<Row>>,
)
    requires
        earlier.len() + batch.len() <= records.len(),
        results.len() == earlier.len() || results.len() == earlier.len() + batch.len(),
        results.take(earlier.len() as int) == earlier,
        forall|i: int|
            0 <= i < batch.len() ==> (#[trigger] batch[i]).0 == records[earlier.len() + i].0
                && batch[i].1 == kept[earlier.len() + i],
        forall|i: int|
            0 <= i < earlier.len() ==> scored(
                process,
                check,
                records[i].0@,
                kept[i],
                #[trigger] earlier[i],
            ),
        forall|i: int|
            earlier.len() <= i < results.len() ==> scored(
                process,
                check,
                batch[i - earlier.len()].0@,
                batch[i - earlier.len()].1,
                #[trigger] results[i],
            ),
    ensures
        forall|i: int|
            0 <= i < results.len() ==> scored(
                process,
                check,
                records[i].0@,
                kept[i],
                #[trigger] results[i],
            ),
{
    assert forall|i: int| 0 <= i < results.len() implies scored(
        process,
        check,
        records[i].0@,
        kept[i],
        #[trigger] results[i],
    ) by {
        if i < earlier.len() {
            assert(results.take(earlier.len() as int)[i] == results[i]);
            assert(earlier[i] == results[i]);
        } else {
            let j = i - earlier.len();
            assert(batch[j].0 == records[earlier.len() + j].0);
        }
    }
}

proof fn lemma_batch_failure<Row, P: Fn(&[u16], u16) -> Result<(u128, Row), Error>>(
    start: Pipeline,
    process: P,
    records: Seq<(Vec<u16>, u16)>,
    max_samples: Option<usize>,
    batch: Seq<(Vec<u16>, u16)>,
    earlier: Seq<FrameResult<Row>>,
    results: Seq<FrameResult<Row>>,
    rows: Seq<PipelineRow<Row>>,
    e: Error,
)
    requires
        ({
            let check = start.length_guard.check;
            let kept = taken_reps(counts_of(records), max_samples);
            &&& kept.len() <= records.len()
            &&& earlier.len() % (BATCH as nat) == 0
            &&& batch.len() <= BATCH
            &&& earlier.len() + batch.len() <= kept.len()
            &&& batch.len() == BATCH || earlier.len() + batch.len() == kept.len()
            &&& results.len() == earlier.len() || results.len() == earlier.len() + batch.len()
            &&& forall|i: int|
                0 <= i < batch.len() ==> (#[trigger] batch[i]).0 == records[earlier.len() + i].0
                    && batch[i].1 == kept[earlier.len() + i]
            &&& forall|i: int|
                0 <= i < results.len() ==> scored(
                    process,
                    check,
                    records[i].0@,
                    kept[i],
                    #[trigger] results[i],
                )
            &&& {
                ||| start.forwards(results, rows, Some(e)) && results.len() <= rows.len()
                    + batch.len()
                ||| results == earlier && start.forwards(results, rows, None) && exists|i: int|
                    0 <= i < batch.len() && unscored(
                        process,
                        check,
                        (#[trigger] batch[i]).0@,
                        batch[i].1,
                        e,
                    ) && forall|j: int|
                        0 <= j < i ==> is_scorable(
                            process,
                            check,
                            (#[trigger] batch[j]).0@,
                            batch[j].1,
                        )
            }
        }),
    ensures
        run_outcome(start, process, records, max_samples, results, rows, Err(e)),
{
    let check = start.length_guard.check;
    let kept = taken_reps(counts_of(records), max_samples);
    if !(start.forwards(results, rows, Some(e)) && results.len() <= rows.len() + batch.len()) {
        let i = choose|i: int|
            0 <= i < batch.len() && unscored(
                process,
                check,
                (#[trigger] batch[i]).0@,
                batch[i].1,
                e,
            ) && forall|j: int|
                0 <= j < i ==> is_scorable(
                    process,
                    check,
                    (#[trigger] batch[j]).0@,
                    batch[j].1,
                );
        let k = earlier.len() + i;
        assert(batch[i].0 == records[k].0);
        assert(unscored(process, check, records[k].0@, kept[k], e));
        assert forall|j: int| results.len() <= j < k implies is_scorable(
            process,
            check,
            (#[trigger] records[j]).0@,
            kept[j],
        ) by {
            let b = j - earlier.len();
            assert(batch[b].0 == records[earlier.len() + b].0);
        }
    }
}

/// Score records for a mode whose output depends on district labels: every plan must use the
/// labels of the first.
pub fn run_pipeline<Row, P: Fn(&[u16], u16) -> Result<(u128, Row), Error>>(
    records: Vec<(Vec<u16>, u16)>,
    length_check: AssignmentLengthCheck,
    district_set_label: String,
    process: P,
    max_samples: Option<usize>,
) -> (r: (Vec<PipelineRow<Row>>, Result<(), Error>))
    requires
        Pipeline::start(length_check, Some(district_set_label)).has_room(records@.len()),
        forall|plan: &[u16], count: u16|
            length_fits(length_check, plan@.len()) ==> #[trigger] call_requires(
                process,
                (plan, count),
            ),
    ensures
        exists|results: Seq<FrameResult<Row>>| #[trigger]
            run_outcome(
                Pipeline::start(length_check, Some(district_set_label)),
                process,
                records@,
                max_samples,
                results,
                r.0@,
                r.1,
            ),
{
    run_pipeline_core(records, length_check, Some(district_set_label), process, max_samples)
}

/// Whether a scorer can be asked for an assignment.
spec fn takes<Row, P: Fn(&[u16], u16) -> Result<Row, Error>>(
    scorer: &P,
    plan: &[u16],
    count: u16,
) -> bool {
    call_requires(*scorer, (plan, count))
}

/// Whether a scorer can answer `out` for an assignment.
spec fn gives<Row, P: Fn(&[u16], u16) -> Result<Row, Error>>(
    scorer: &P,
    plan: &[u16],
    count: u16,
    out: Result<Row, Error>,
) -> bool {
    call_ensures(*scorer, (plan, count), out)
}

/// Score records for a mode that does not look at district labels: no label set is asked for and
/// none is checked.
pub fn run_label_invariant_pipeline<Row, P: Fn(&[u16], u16) -> Result<Row, Error>>(
    records: Vec<(Vec<u16>, u16)>,
    length_check: AssignmentLengthCheck,
    process: P,
    max_samples: Option<usize>,
) -> (r: (Vec<PipelineRow<Row>>, Result<(), Error>))
    requires
        Pipeline::start(length_check, None).has_room(records@.len()),
        forall|plan: &[u16], count: u16|
            length_fits(length_check, plan@.len()) ==> #[trigger] call_requires(
                process,
                (plan, count),
            ),
    ensures
        exists|results: Seq<FrameResult<Row>>| #[trigger]
            label_invariant_outcome(
                Pipeline::start(length_check, None),
                process,
                records@,
                max_samples,
                results,
                r.0@,
                r.1,
            ),
{
    let scorer: &P = &process;
    let unlabelled = |plan: &[u16], count: u16| -> (out: Result<(u128, Row), Error>)
        requires
            takes(scorer, plan, count),
        ensures
            match out {
                Ok((observed, row)) => observed == 0 && gives(scorer, plan, count, Ok(row)),
                Err(e) => gives(scorer, plan, count, Err(e)),
            },
        {
            match scorer(plan, count) {
                Ok(row) => Ok((0u128, row)),
                Err(e) => Err(e),
            }
        };
    let ended = run_pipeline_core(records, length_check, None, unlabelled, max_samples);
    proof {
        let start = Pipeline::start(length_check, None);
        let results = choose|results: Seq<FrameResult<Row>>| #[trigger]
            run_outcome(
                start,
                unlabelled,
                records@,
                max_samples,
                results,
                ended.0@,
                ended.1,
            );
        assert forall|plan: Seq<u16>, count: u16| #[trigger]
            is_scorable(unlabelled, length_check, plan, count) implies is_row_scorable(
            process,
            length_check,
            plan,
            count,
        ) by {
            let result = choose|result: FrameResult<Row>| #[trigger]
                scored(unlabelled, length_check, plan, count, result);
            assert(row_scored(process, length_check, plan, count, result));
        }
        assert(label_invariant_outcome(
            start,
            process,
            records@,
            max_samples,
            results,
            ended.0@,
            ended.1,
        ));
    }
    ended
}

/// Whether `row` is what scoring gives for an assignment.
pub open spec fn row_scored<Row, P: Fn(&[u16], u16) -> Result<Row, Error>>(
    process: P,
    check: AssignmentLengthCheck,
    assignment: Seq<u16>,
    count: u16,
    result: FrameResult<Row>,
) -> bool {
    &&& length_fits(check, assignment.len())
    &&& result.n_reps == count
    &&& result.assignment_len == assignment.len()
    &&& exists|plan: &[u16]| #[trigger]
        plan@ == assignment && call_ensures(process, (plan, count), Ok::<Row, Error>(result.row))
}

/// Whether `e` is why an assignment has no row.
pub open spec fn row_unscored<Row, P: Fn(&[u16], u16) -> Result<Row, Error>>(
    process: P,
    check: AssignmentLengthCheck,
    assignment: Seq<u16>,
    count: u16,
    e: Error,
) -> bool {
    if length_fits(check, assignment.len()) {
        exists|plan: &[u16]| #[trigger]
            plan@ == assignment && call_ensures(process, (plan, count), Err::<Row, Error>(e))
    } else {
        check.fixed() matches Some((expected, label)) && reports_length(
            e,
            assignment.len(),
            expected as nat,
            label,
        )
    }
}

/// Whether an assignment that stands for `count` samples has a row.
pub open spec fn is_row_scorable<Row, P: Fn(&[u16], u16) -> Result<Row, Error>>(
    process: P,
    check: AssignmentLengthCheck,
    assignment: Seq<u16>,
    count: u16,
) -> bool {
    exists|result: FrameResult<Row>| #[trigger]
        row_scored(process, check, assignment, count, result)
}

/// [`run_outcome`] for a mode that does not look at district labels.
pub open spec fn label_invariant_outcome<Row, P: Fn(&[u16], u16) -> Result<Row, Error>>(
    start: Pipeline,
    process: P,
    records: Seq<(Vec<u16>, u16)>,
    max_samples: Option<usize>,
    results: Seq<FrameResult<Row>>,
    rows: Seq<PipelineRow<Row>>,
    outcome: Result<(), Error>,
) -> bool {
    let check = start.length_guard.check;
    let kept = taken_reps(counts_of(records), max_samples);
    &&& results.len() <= kept.len()
    &&& results.len() == kept.len() || results.len() % (BATCH as nat) == 0
    &&& forall|i: int|
        0 <= i < results.len() ==> row_scored(
            process,
            check,
            records[i].0@,
            kept[i],
            #[trigger] results[i],
        )
    &&& match outcome {
        Ok(()) => results.len() == kept.len() && start.forwards(results, rows, None),
        Err(e) => {
            ||| start.forwards(results, rows, Some(e)) && results.len() <= rows.len() + BATCH
            ||| start.forwards(results, rows, None) && exists|i: int|
                results.len() <= i < kept.len() && i < results.len() + BATCH && row_unscored(
                    process,
                    check,
                    (#[trigger] records[i]).0@,
                    kept[i],
                    e,
                ) && forall|j: int|
                    results.len() <= j < i ==> is_row_scorable(
                        process,
                        check,
                        (#[trigger] records[j]).0@,
                        kept[j],
                    )
        },
    }
}

// ---------------------------------------------------------------------------------------------
// Frame after frame
// ---------------------------------------------------------------------------------------------

/// An accepted plan: its number, its labels, and how many samples it stands for.
#[derive(Debug)]
pub struct AcceptedFrame {
    pub accepted_count: u64,
    pub assignment: Vec<u16>,
    pub n_reps: u16,
}

/// The state of a run that keeps state from frame to frame. A frame passes the same guards as in a
/// batched run before the mode sees it.
#[derive(Debug)]
pub struct SequentialFrames {
    pub length_guard: LengthGuard,
    pub district_guard: DistrictSetGuard,
    pub accepted_count: u64,
    /// How many frames are to go.
    pub frames_left: usize,
}

impl SequentialFrames {
    /// A run that has seen no frame: it goes through `max_frames` frames, or through all.
    pub fn new(
        total_frames: usize,
        max_frames: Option<usize>,
        length_check: AssignmentLengthCheck,
        district_set_label: Option<String>,
    ) -> (r: Self)
        ensures
            r.length_guard == (LengthGuard { check: length_check, established: None }),
            r.district_guard == (DistrictSetGuard { label: district_set_label, expected: None }),
            r.accepted_count == 0,
            r.frames_left == max_frames.unwrap_or(total_frames),
    {
        SequentialFrames {
            length_guard: LengthGuard::new(length_check),
            district_guard: DistrictSetGuard::new(district_set_label),
            accepted_count: 0,
            frames_left: match max_frames {
                Some(limit) => limit,
                None => total_frames,
            },
        }
    }

    /// Whether a frame passes.
    pub open spec fn admits(&self, assignment: Seq<u16>) -> bool {
        &&& self.length_guard.admits(assignment.len() as usize)
        &&& self.district_guard.label is Some ==> within_limit(assignment) && forall|mask: u128|
            #[trigger] observes(mask, assignment) ==> self.district_guard.admits(mask)
    }

    /// Whether `e` is why a frame does not pass: length, then labels that do not fit, then changed
    /// labels.
    pub open spec fn rejects(&self, assignment: Seq<u16>, e: Error) -> bool {
        if !self.length_guard.admits(assignment.len() as usize) {
            self.length_guard.rejects(assignment.len() as usize, e)
        } else if !within_limit(assignment) {
            reports_first_excess(e, assignment)
        } else {
            exists|mask: u128| #[trigger]
                observes(mask, assignment) && self.district_guard.rejects(mask, e)
        }
    }

    /// Check one frame and number it.
    pub fn accept(&mut self, assignment: Vec<u16>, n_reps: u16) -> (r: Result<AcceptedFrame, Error>)
        requires
            old(self).accepted_count < u64::MAX,
            old(self).frames_left > 0,
        ensures
            r is Ok <==> old(self).admits(assignment@),
            r matches Err(e) ==> old(self).rejects(assignment@, e),
            r matches Ok(frame) ==> {
                &&& frame.assignment == assignment
                &&& frame.n_reps == n_reps
                &&& frame.accepted_count == old(self).accepted_count + 1
                &&& final(self).accepted_count == old(self).accepted_count + 1
                &&& final(self).frames_left == old(self).frames_left - 1
                &&& final(self).length_guard == old(self).length_guard.after(
                    assignment@.len() as usize,
                )
                &&& if old(self).district_guard.label is Some {
                    exists|mask: u128| #[trigger]
                        observes(mask, assignment@) && final(self).district_guard == old(
                            self
                        ).district_guard.after(mask)
                } else {
                    final(self).district_guard == old(self).district_guard
                }
            },
    {
        match self.length_guard.check(assignment.len()) {
            Ok(()) => {},
            Err(e) => {
                return Err(e);
            },
        }
        if self.district_guard.is_active() {
            let observed: u128 = match observed_assignment_districts(&assignment) {
                Ok((_, observed)) => observed,
                Err(e) => {
                    return Err(e);
                },
            };
            proof {
                assert forall|mask: u128| #[trigger] observes(mask, assignment@) implies mask
                    == observed by {
                    crate::district::law_mask_is_its_set(mask, observed);
                }
            }
            match self.district_guard.check(observed) {
                Ok(()) => {},
                Err(e) => {
                    return Err(e);
                },
            }
        }
        self.accepted_count = self.accepted_count + 1;
        self.frames_left = self.frames_left - 1;
        Ok(AcceptedFrame { accepted_count: self.accepted_count, assignment, n_reps })
    }
}

/// What the guards of a run hold after `n` results that all pass.
proof fn lemma_guards_after<Row>(
    check: AssignmentLengthCheck,
    label: Option<String>,
    results: Seq<FrameResult<Row>>,
    n: int,
)
    requires
        0 <= n <= results.len(),
        forall|i: int|
            0 <= i < n ==> Pipeline::start(check, label).after_all(results.take(i)).admits(
                #[trigger] results[i],
            ),
    ensures
        Pipeline::start(check, label).after_all(results.take(n)).length_guard == (LengthGuard {
            check,
            established: if check is UniformWithinFile && n > 0 {
                Some(results[0].assignment_len)
            } else {
                None
            },
        }),
        Pipeline::start(check, label).after_all(results.take(n)).district_guard == (
        DistrictSetGuard {
            label,
            expected: if label is Some && n > 0 {
                Some(results[0].observed)
            } else {
                None
            },
        }),
    decreases n,
{
    let start = Pipeline::start(check, label);
    if n == 0 {
        start.lemma_after_none(results);
    } else {
        lemma_guards_after(check, label, results, n - 1);
        start.lemma_after_all(results, n - 1);
        assert(start.after_all(results.take(n - 1)).admits(results[n - 1]));
    }
}

/// Whether a result has the length that the check asks for: the one it names, or that of the first
/// result.
pub open spec fn has_due_length<Row>(
    check: AssignmentLengthCheck,
    results: Seq<FrameResult<Row>>,
    i: int,
) -> bool {
    match check {
        AssignmentLengthCheck::MatchesGraph(n) => results[i].assignment_len == n,
        AssignmentLengthCheck::Exact { expected, .. } => results[i].assignment_len == expected,
        AssignmentLengthCheck::UniformWithinFile => results[i].assignment_len
            == results[0].assignment_len,
    }
}

/// What forwarding does with results: every result gives its row, numbered by samples and plans from
/// one, up to the first that has another length than asked for or, where labels matter, other labels
/// than the first.
pub proof fn law_forwarded_rows<Row>(
    check: AssignmentLengthCheck,
    label: Option<String>,
    results: Seq<FrameResult<Row>>,
    rows: Seq<PipelineRow<Row>>,
    failure: Option<Error>,
)
    requires
        Pipeline::start(check, label).forwards(results, rows, failure),
        1 + 0xffff * results.len() <= u64::MAX,
    ensures
        rows.len() <= results.len(),
        failure is None <==> rows.len() == results.len(),
        forall|i: int|
            0 <= i < rows.len() ==> {
                &&& (#[trigger] rows[i]).row == results[i].row
                &&& rows[i].n_reps == results[i].n_reps
                &&& rows[i].accepted == i + 1
                &&& rows[i].step == 1 + sum_reps(reps_of(results.take(i)))
                &&& has_due_length(check, results, i)
                &&& label is Some ==> results[i].observed == results[0].observed
            },
        rows.len() < results.len() ==> {
            ||| !has_due_length(check, results, rows.len() as int)
            ||| label is Some && results[rows.len() as int].observed != results[0].observed
        },
{
    let start = Pipeline::start(check, label);
    assert forall|i: int| 0 <= i < rows.len() implies {
        &&& (#[trigger] rows[i]).row == results[i].row
        &&& rows[i].n_reps == results[i].n_reps
        &&& rows[i].accepted == i + 1
        &&& rows[i].step == 1 + sum_reps(reps_of(results.take(i)))
        &&& has_due_length(check, results, i)
        &&& label is Some ==> results[i].observed == results[0].observed
    } by {
        lemma_guards_after(check, label, results, i);
        start.law_counters(results, i);
        assert(start.after_all(results.take(i)).admits(results[i]));
        assert(rows[i] == start.after_all(results.take(i)).stamp(results[i]));
    }
    if rows.len() < results.len() {
        lemma_guards_after(check, label, results, rows.len() as int);
    }
}

} // verus!
