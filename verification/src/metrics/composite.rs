//! Several metrics that follow one chain of plans side by side.
use crate::district::{has_district, law_mask_is_its_set, observes, within_limit, MAX_DISTRICTS};
use crate::error::{invalid_data, Error};
use crate::metrics::chain_runs::lemma_presence_observes;
use crate::metrics::polsby_popper::IncrementalPolsbyPopper;
use crate::metrics::reock::IncrementalReock;
use crate::metrics::scorer::validate_observed;
use crate::metrics::tally_keys::IncrementalTallies;
use crate::metrics::twodelta::{
    applicable, applied, lemma_applied_len, new_labels_fit, DeltaChange, IncrementalTwoDeltaMetric,
};
use vstd::prelude::*;

verus! {

/// One of the metrics that can be scored side by side.
#[derive(Debug)]
pub enum IncrementalRustBackedMetric<'a, W> {
    Tally(IncrementalTallies<'a, W>),
    Reock(IncrementalReock<'a, W>),
    PolsbyPopper(IncrementalPolsbyPopper<'a, W>),
}

impl<'a, W: Copy> IncrementalRustBackedMetric<'a, W> {
    /// How many nodes a plan has.
    fn plan_len(&self) -> (r: usize)
        ensures
            r == self.node_count(),
    {
        match self {
            IncrementalRustBackedMetric::Tally(metric) => metric.graph.node_count,
            IncrementalRustBackedMetric::Reock(metric) => metric.unit_areas.len(),
            IncrementalRustBackedMetric::PolsbyPopper(metric) => metric.graph.node_count,
        }
    }

    /// Whether there is room for one more patch.
    pub fn has_room(&self) -> (r: bool)
        requires
            self.wf(),
        ensures
            r == (self.patches_left() > 0),
    {
        match self {
            IncrementalRustBackedMetric::Tally(_) => true,
            IncrementalRustBackedMetric::Reock(_) => true,
            IncrementalRustBackedMetric::PolsbyPopper(metric) => metric.has_room(),
        }
    }

    /// The labels of a metric are those of its plan.
    pub proof fn law_labels_are_those_of_the_plan(&self, plan: Seq<u16>)
        requires
            self.tracks(plan),
            within_limit(plan),
        ensures
            observes(self.labels(), plan),
    {
        match self {
            IncrementalRustBackedMetric::Tally(metric) => {
                lemma_presence_observes(metric.presence, plan);
            },
            IncrementalRustBackedMetric::Reock(_) => {},
            IncrementalRustBackedMetric::PolsbyPopper(metric) => {
                lemma_presence_observes(metric.presence, plan);
            },
        }
    }
}

impl<'a, W: Copy> IncrementalTwoDeltaMetric for IncrementalRustBackedMetric<'a, W> {
    open spec fn node_count(&self) -> nat {
        match self {
            IncrementalRustBackedMetric::Tally(metric) => metric.node_count(),
            IncrementalRustBackedMetric::Reock(metric) => metric.node_count(),
            IncrementalRustBackedMetric::PolsbyPopper(metric) => metric.node_count(),
        }
    }

    open spec fn wf(&self) -> bool {
        match self {
            IncrementalRustBackedMetric::Tally(metric) => metric.wf(),
            IncrementalRustBackedMetric::Reock(metric) => metric.wf(),
            IncrementalRustBackedMetric::PolsbyPopper(metric) => metric.wf(),
        }
    }

    open spec fn patches_left(&self) -> nat {
        match self {
            IncrementalRustBackedMetric::Tally(metric) => metric.patches_left(),
            IncrementalRustBackedMetric::Reock(metric) => metric.patches_left(),
            IncrementalRustBackedMetric::PolsbyPopper(metric) => metric.patches_left(),
        }
    }

    open spec fn tracks(&self, assignment: Seq<u16>) -> bool {
        match self {
            IncrementalRustBackedMetric::Tally(metric) => metric.tracks(assignment),
            IncrementalRustBackedMetric::Reock(metric) => metric.tracks(assignment),
            IncrementalRustBackedMetric::PolsbyPopper(metric) => metric.tracks(assignment),
        }
    }

    open spec fn seeded(&self, before: Self, assignment: Seq<u16>) -> bool {
        match (*self, before) {
            (
                IncrementalRustBackedMetric::Tally(metric),
                IncrementalRustBackedMetric::Tally(earlier),
            ) => metric.seeded(earlier, assignment),
            (
                IncrementalRustBackedMetric::Reock(metric),
                IncrementalRustBackedMetric::Reock(earlier),
            ) => metric.seeded(earlier, assignment),
            (
                IncrementalRustBackedMetric::PolsbyPopper(metric),
                IncrementalRustBackedMetric::PolsbyPopper(earlier),
            ) => metric.seeded(earlier, assignment),
            _ => false,
        }
    }

    open spec fn patched(
        &self,
        before: Self,
        assignment: Seq<u16>,
        changes: Seq<DeltaChange>,
    ) -> bool {
        match (*self, before) {
            (
                IncrementalRustBackedMetric::Tally(metric),
                IncrementalRustBackedMetric::Tally(earlier),
            ) => metric.patched(earlier, assignment, changes),
            (
                IncrementalRustBackedMetric::Reock(metric),
                IncrementalRustBackedMetric::Reock(earlier),
            ) => metric.patched(earlier, assignment, changes),
            (
                IncrementalRustBackedMetric::PolsbyPopper(metric),
                IncrementalRustBackedMetric::PolsbyPopper(earlier),
            ) => metric.patched(earlier, assignment, changes),
            _ => false,
        }
    }

    open spec fn labels(&self) -> u128 {
        match self {
            IncrementalRustBackedMetric::Tally(metric) => metric.labels(),
            IncrementalRustBackedMetric::Reock(metric) => metric.labels(),
            IncrementalRustBackedMetric::PolsbyPopper(metric) => metric.labels(),
        }
    }

    fn seed(&mut self, assignment: &[u16]) -> (r: Result<(), Error>) {
        match self {
            IncrementalRustBackedMetric::Tally(metric) => metric.seed(assignment),
            IncrementalRustBackedMetric::Reock(metric) => metric.seed(assignment),
            IncrementalRustBackedMetric::PolsbyPopper(metric) => metric.seed(assignment),
        }
    }

    fn update_delta(&mut self, before: &[u16], changes: &[DeltaChange]) -> (r: Result<(), Error>) {
        match self {
            IncrementalRustBackedMetric::Tally(metric) => metric.update_delta(before, changes),
            IncrementalRustBackedMetric::Reock(metric) => metric.update_delta(before, changes),
            IncrementalRustBackedMetric::PolsbyPopper(metric) => metric.update_delta(
                before,
                changes,
            ),
        }
    }

    fn observed(&self) -> (r: u128) {
        match self {
            IncrementalRustBackedMetric::Tally(metric) => metric.observed(),
            IncrementalRustBackedMetric::Reock(metric) => metric.observed(),
            IncrementalRustBackedMetric::PolsbyPopper(metric) => metric.observed(),
        }
    }
}

/// Changes to labels that fit keep a plan within the limit.
proof fn lemma_applied_within_limit(before: Seq<u16>, changes: Seq<DeltaChange>)
    requires
        within_limit(before),
        new_labels_fit(changes),
        forall|k: int| 0 <= k < changes.len() ==> (#[trigger] changes[k]).node < before.len(),
    ensures
        within_limit(applied(before, changes)),
    decreases changes.len(),
{
    if changes.len() > 0 {
        let shorter = changes.drop_last();
        assert forall|k: int| 0 <= k < shorter.len() implies (#[trigger] shorter[k]).new
            < MAX_DISTRICTS && shorter[k].node < before.len() by {
            assert(shorter[k] == changes[k]);
        }
        lemma_applied_within_limit(before, shorter);
        lemma_applied_len(before, shorter);
        let last = changes[changes.len() - 1];
        assert(last.new < MAX_DISTRICTS && last.node < before.len());
        let after = applied(before, changes);
        assert forall|n: int| 0 <= n < after.len() implies #[trigger] after[n] < MAX_DISTRICTS by {
            if n != last.node {
                assert(after[n] == applied(before, shorter)[n]);
            }
        }
    }
}

/// The least room for patches among the first `n` metrics.
pub open spec fn least_room<'a, W: Copy>(
    metrics: Seq<IncrementalRustBackedMetric<'a, W>>,
    n: int,
) -> nat
    decreases n,
{
    if n <= 0 {
        0
    } else {
        let last = metrics[n - 1].patches_left();
        if n > 1 && least_room(metrics, n - 1) < last {
            least_room(metrics, n - 1)
        } else {
            last
        }
    }
}

proof fn lemma_least_room<'a, W: Copy>(metrics: Seq<IncrementalRustBackedMetric<'a, W>>, n: int)
    requires
        0 < n <= metrics.len(),
    ensures
        forall|i: int|
            0 <= i < n ==> least_room(metrics, n) <= (#[trigger] metrics[i]).patches_left(),
        exists|i: int|
            0 <= i < n && least_room(metrics, n) == (#[trigger] metrics[i]).patches_left(),
    decreases n,
{
    if n > 1 {
        lemma_least_room(metrics, n - 1);
    }
    assert(least_room(metrics, n) <= metrics[n - 1].patches_left());
}

/// Metrics that follow one chain together. The first one's labels are those of all.
#[derive(Debug)]
pub struct CompositeTwoDeltaMetric<'a, W> {
    pub metrics: Vec<IncrementalRustBackedMetric<'a, W>>,
}

impl<'a, W: Copy> CompositeTwoDeltaMetric<'a, W> {
    /// Put metrics side by side. There has to be one, and all have to be for plans of one length.
    pub fn new(metrics: Vec<IncrementalRustBackedMetric<'a, W>>) -> (r: Result<Self, Error>)
        requires
            forall|i: int| 0 <= i < metrics@.len() ==> (#[trigger] metrics@[i]).wf(),
        ensures
            r is Ok <==> metrics@.len() > 0 && forall|i: int|
                0 <= i < metrics@.len() ==> (#[trigger] metrics@[i]).node_count()
                    == metrics@[0].node_count(),
            r matches Ok(composite) ==> composite.metrics == metrics && composite.wf(),
            r matches Err(e) ==> e.is_invalid_data(
                if metrics@.len() == 0 {
                    "cannot score without a prepared metric"@
                } else {
                    "prepared metrics have different node counts"@
                },
            ),
    {
        if metrics.len() == 0 {
            return Err(invalid_data("cannot score without a prepared metric".to_owned()));
        }
        let expected: usize = metrics[0].plan_len();
        let mut i: usize = 0;
        while i < metrics.len()
            invariant
                0 < metrics@.len(),
                i <= metrics@.len(),
                expected == metrics@[0].node_count(),
                forall|k: int| 0 <= k < i ==> (#[trigger] metrics@[k]).node_count() == expected,
            decreases metrics.len() - i,
        {
            if metrics[i].plan_len() != expected {
                assert(metrics@[i as int].node_count() != metrics@[0].node_count());
                return Err(
                    invalid_data("prepared metrics have different node counts".to_owned()),
                );
            }
            i += 1;
        }
        Ok(CompositeTwoDeltaMetric { metrics })
    }

    /// Whether there is room for one more patch.
    pub fn has_room(&self) -> (r: bool)
        requires
            self.wf(),
        ensures
            r == (self.patches_left() > 0),
    {
        proof {
            lemma_least_room(self.metrics@, self.metrics@.len() as int);
        }
        let mut i: usize = 0;
        while i < self.metrics.len()
            invariant
                self.wf(),
                i <= self.metrics@.len(),
                forall|k: int|
                    0 <= k < self.metrics@.len() ==> self.patches_left() <= (
                    #[trigger] self.metrics@[k]).patches_left(),
                exists|k: int|
                    0 <= k < self.metrics@.len() && self.patches_left() == (
                    #[trigger] self.metrics@[k]).patches_left(),
                forall|k: int| 0 <= k < i ==> (#[trigger] self.metrics@[k]).patches_left() > 0,
            decreases self.metrics.len() - i,
        {
            assert(self.metrics@[i as int].wf());
            if !self.metrics[i].has_room() {
                return false;
            }
            i += 1;
        }
        true
    }

    /// Metrics that follow one plan have one label set, which is that of the plan.
    pub proof fn law_metrics_have_one_label_set(&self, plan: Seq<u16>)
        requires
            self.tracks(plan),
            within_limit(plan),
        ensures
            observes(self.labels(), plan),
            forall|i: int|
                0 <= i < self.metrics@.len() ==> (#[trigger] self.metrics@[i]).labels()
                    == self.labels(),
    {
        self.metrics@[0].law_labels_are_those_of_the_plan(plan);
        assert forall|i: int| 0 <= i < self.metrics@.len() implies (
        #[trigger] self.metrics@[i]).labels() == self.labels() by {
            let metric = self.metrics@[i];
            metric.law_labels_are_those_of_the_plan(plan);
            assert forall|d: int| #[trigger] has_district(metric.labels(), d) <==> has_district(
                self.labels(),
                d,
            ) by {}
            law_mask_is_its_set(metric.labels(), self.labels());
        }
    }

    /// Check that all metrics saw one label set.
    pub fn validate_observed(&self) -> (r: Result<(), Error>)
        ensures
            r is Ok <==> self.metrics@.len() > 0 && forall|i: int|
                0 <= i < self.metrics@.len() ==> (#[trigger] self.metrics@[i]).labels()
                    == self.metrics@[0].labels(),
            r matches Err(e) ==> e.is_invalid_data(
                if self.metrics@.len() == 0 {
                    "cannot score without a prepared metric"@
                } else {
                    "prepared metrics observed different district sets"@
                },
            ),
    {
        let mut seen: Vec<u128> = Vec::new();
        let mut i: usize = 0;
        while i < self.metrics.len()
            invariant
                i <= self.metrics@.len(),
                seen@.len() == i,
                forall|k: int| 0 <= k < i ==> #[trigger] seen@[k] == self.metrics@[k].labels(),
            decreases self.metrics.len() - i,
        {
            seen.push(self.metrics[i].observed());
            i += 1;
        }
        proof {
            if forall|k: int| 0 <= k < seen@.len() ==> #[trigger] seen@[k] == seen@[0] {
                assert forall|k: int| 0 <= k < self.metrics@.len() implies (
                #[trigger] self.metrics@[k]).labels() == self.metrics@[0].labels() by {
                    assert(seen@[k] == seen@[0]);
                }
            } else {
                let k = choose|k: int| 0 <= k < seen@.len() && #[trigger] seen@[k] != seen@[0];
                assert(self.metrics@[k].labels() != self.metrics@[0].labels());
            }
        }
        match validate_observed(seen.as_slice()) {
            Ok(_) => Ok(()),
            Err(e) => Err(e),
        }
    }
}

impl<'a, W: Copy> IncrementalTwoDeltaMetric for CompositeTwoDeltaMetric<'a, W> {
    open spec fn node_count(&self) -> nat {
        self.metrics@[0].node_count()
    }

    open spec fn wf(&self) -> bool {
        &&& self.metrics@.len() > 0
        &&& forall|i: int|
            0 <= i < self.metrics@.len() ==> (#[trigger] self.metrics@[i]).wf()
                && self.metrics@[i].node_count() == self.metrics@[0].node_count()
    }

    open spec fn patches_left(&self) -> nat {
        least_room(self.metrics@, self.metrics@.len() as int)
    }

    open spec fn tracks(&self, assignment: Seq<u16>) -> bool {
        &&& self.metrics@.len() > 0
        &&& forall|i: int|
            0 <= i < self.metrics@.len() ==> (#[trigger] self.metrics@[i]).tracks(assignment)
    }

    open spec fn seeded(&self, before: Self, assignment: Seq<u16>) -> bool {
        &&& self.metrics@.len() == before.metrics@.len()
        &&& forall|i: int|
            0 <= i < self.metrics@.len() ==> (#[trigger] self.metrics@[i]).seeded(
                before.metrics@[i],
                assignment,
            )
    }

    open spec fn patched(
        &self,
        before: Self,
        assignment: Seq<u16>,
        changes: Seq<DeltaChange>,
    ) -> bool {
        &&& self.metrics@.len() == before.metrics@.len()
        &&& forall|i: int|
            0 <= i < self.metrics@.len() ==> (#[trigger] self.metrics@[i]).patched(
                before.metrics@[i],
                assignment,
                changes,
            )
    }

    open spec fn labels(&self) -> u128 {
        if self.metrics@.len() > 0 {
            self.metrics@[0].labels()
        } else {
            0
        }
    }

    fn seed(&mut self, assignment: &[u16]) -> (r: Result<(), Error>) {
        let ghost start = self.metrics@;
        let ghost count = start.len() as int;
        proof {
            lemma_least_room(start, count);
        }
        let mut i: usize = 0;
        while i < self.metrics.len()
            invariant
                i <= self.metrics@.len() == start.len(),
                start == old(self).metrics@,
                count == start.len(),
                self.wf(),
                self.node_count() == old(self).node_count(),
                assignment@.len() == self.node_count(),
                forall|k: int|
                    0 <= k < count ==> least_room(start, count) <= (
                    #[trigger] self.metrics@[k]).patches_left(),
                forall|k: int| i <= k < count ==> #[trigger] self.metrics@[k] == start[k],
                forall|k: int|
                    0 <= k < i ==> (#[trigger] self.metrics@[k]).tracks(assignment@)
                        && self.metrics@[k].seeded(start[k], assignment@),
                i > 0 ==> within_limit(assignment@),
            decreases self.metrics.len() - i,
        {
            let ghost before = self.metrics@;
            assert(before[i as int].wf());
            let outcome = self.metrics[i].seed(assignment);
            match outcome {
                Ok(()) => {},
                Err(e) => {
                    proof {
                        lemma_least_room(self.metrics@, count);
                    }
                    return Err(e);
                },
            }
            i += 1;
        }
        proof {
            lemma_least_room(self.metrics@, count);
            self.law_metrics_have_one_label_set(assignment@);
        }
        self.validate_observed()
    }

    fn update_delta(&mut self, before: &[u16], changes: &[DeltaChange]) -> (r: Result<(), Error>) {
        let ghost start = self.metrics@;
        let ghost count = start.len() as int;
        proof {
            lemma_least_room(start, count);
        }
        let mut i: usize = 0;
        while i < self.metrics.len()
            invariant
                i <= self.metrics@.len() == start.len(),
                start == old(self).metrics@,
                count == start.len(),
                self.wf(),
                self.node_count() == old(self).node_count(),
                before@.len() == self.node_count(),
                within_limit(before@),
                applicable(before@, changes@),
                least_room(start, count) > 0,
                forall|k: int|
                    0 <= k < count ==> least_room(start, count) <= (
                    #[trigger] self.metrics@[k]).patches_left() + 1,
                forall|k: int|
                    0 <= k < count ==> least_room(start, count) <= (
                    #[trigger] start[k]).patches_left(),
                forall|k: int| 0 <= k < count ==> (#[trigger] start[k]).tracks(before@),
                forall|k: int| i <= k < count ==> #[trigger] self.metrics@[k] == start[k],
                forall|k: int|
                    0 <= k < i ==> (#[trigger] self.metrics@[k]).tracks(applied(before@, changes@))
                        && self.metrics@[k].patched(start[k], before@, changes@),
                i > 0 ==> new_labels_fit(changes@),
            decreases self.metrics.len() - i,
        {
            let ghost held = self.metrics@;
            assert(held[i as int].wf());
            assert(held[i as int] == start[i as int]);
            let outcome = self.metrics[i].update_delta(before, changes);
            match outcome {
                Ok(()) => {},
                Err(e) => {
                    proof {
                        lemma_least_room(self.metrics@, count);
                    }
                    return Err(e);
                },
            }
            i += 1;
        }
        proof {
            lemma_least_room(self.metrics@, count);
            reveal(applicable);
            lemma_applied_within_limit(before@, changes@);
            self.law_metrics_have_one_label_set(applied(before@, changes@));
        }
        self.validate_observed()
    }

    fn observed(&self) -> (r: u128) {
        if self.metrics.len() > 0 {
            self.metrics[0].observed()
        } else {
            0
        }
    }
}

} // verus!
