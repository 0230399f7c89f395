//! The first plan of each partition, as it was first labelled.
use crate::error::Error;
use crate::metrics::canonical::{canonical_hash, partition_hash, same_partition, spares_label};
use crate::metrics::counts::listed;
use crate::metrics::unique_plans::{
    first_occurrences, plan_hashes, reports_mixed_length, uniform_length, UniquePlans,
};
use crate::metrics::unique_plans::{law_first_occurrences, law_unique_plans_are_the_partitions};
use crate::pipeline::{AssignmentLengthCheck, LengthGuard, SequentialFrames};
use vstd::prelude::*;

verus! {

broadcast use vstd::std_specs::hash::group_hash_axioms;

/// The plans at some positions.
pub open spec fn plans_at(plans: Seq<Vec<u16>>, positions: Seq<int>) -> Seq<Seq<u16>> {
    Seq::new(positions.len(), |k: int| plans[positions[k]]@)
}

/// The first plan of each partition among the first `n`.
pub open spec fn first_plans(plans: Seq<Vec<u16>>, n: int) -> Seq<Seq<u16>> {
    plans_at(plans, first_occurrences(plan_hashes(plans), n))
}

/// The labels of plans.
pub open spec fn labels_of(plans: Seq<Vec<u16>>) -> Seq<Seq<u16>> {
    Seq::new(plans.len(), |i: int| plans[i]@)
}

/// Extraction, plan after plan.
#[derive(Debug)]
pub struct UniquePlanExtraction {
    pub frames: SequentialFrames,
    pub unique: UniquePlans,
}

impl UniquePlanExtraction {
    /// Whether exactly the first `n` plans came through, all of one length.
    pub open spec fn took(&self, plans: Seq<Vec<u16>>, n: int) -> bool {
        &&& self.unique.saw(plan_hashes(plans).take(n))
        &&& self.frames.accepted_count == n
        &&& self.frames.district_guard.label is None
        &&& self.frames.length_guard == (LengthGuard {
            check: AssignmentLengthCheck::UniformWithinFile,
            established: if n == 0 {
                None
            } else {
                Some(plans[0]@.len() as usize)
            },
        })
    }

    /// Nothing extracted yet, out of `total_frames` plans.
    pub fn new(total_frames: usize) -> (r: Self)
        ensures
            forall|plans: Seq<Vec<u16>>| #[trigger] r.took(plans, 0),
            r.frames.frames_left == total_frames,
    {
        let r = UniquePlanExtraction {
            frames: SequentialFrames::new(
                total_frames,
                None,
                AssignmentLengthCheck::UniformWithinFile,
                None,
            ),
            unique: UniquePlans::new(),
        };
        proof {
            assert forall|plans: Seq<Vec<u16>>| #[trigger] r.took(plans, 0) by {
                assert(plan_hashes(plans).take(0) =~= Seq::<u128>::empty());
            }
        }
        r
    }

    /// Look at the next plan. It comes back if it is the first of its partition; a plan of another
    /// length is an error.
    pub fn offer(&mut self, assignment: Vec<u16>, n_reps: u16) -> (r: Result<
        Option<Vec<u16>>,
        Error,
    >)
        requires
            spares_label(assignment@),
            old(self).frames.frames_left > 0,
            old(self).frames.accepted_count < u64::MAX,
            old(self).unique.total_frames < u64::MAX,
            old(self).frames.district_guard.label is None,
        ensures
            r is Ok <==> old(self).frames.length_guard.admits(assignment@.len() as usize),
            r matches Err(e) ==> old(self).frames.length_guard.rejects(
                assignment@.len() as usize,
                e,
            ),
            r matches Ok(kept) ==> {
                &&& kept == (if old(self).unique.seen@.contains(partition_hash(assignment@)) {
                    None
                } else {
                    Some(assignment)
                })
                &&& final(self).frames.frames_left == old(self).frames.frames_left - 1
                &&& final(self).frames.accepted_count == old(self).frames.accepted_count + 1
                &&& final(self).frames.district_guard == old(self).frames.district_guard
                &&& final(self).frames.length_guard == old(self).frames.length_guard.after(
                    assignment@.len() as usize,
                )
                &&& forall|hashes: Seq<u128>| #[trigger]
                    old(self).unique.saw(hashes) ==> final(self).unique.saw(
                        hashes.push(partition_hash(assignment@)),
                    )
            },
    {
        let frame = match self.frames.accept(assignment, n_reps) {
            Ok(frame) => frame,
            Err(e) => {
                return Err(e);
            },
        };
        let hash = canonical_hash(&frame.assignment);
        if self.unique.insert(hash) {
            Ok(Some(frame.assignment))
        } else {
            Ok(None)
        }
    }
}

/// Extract from plans in memory: the first plan of each partition, in order, and how many plans
/// there were.
pub fn extract_unique_plans(plans: Vec<Vec<u16>>) -> (r: Result<(Vec<Vec<u16>>, u64), Error>)
    requires
        forall|i: int| 0 <= i < plans@.len() ==> spares_label(#[trigger] plans@[i]@),
    ensures
        r is Ok <==> uniform_length(plans@),
        r matches Err(e) ==> reports_mixed_length(plans@, e),
        r matches Ok((kept, total)) ==> total == plans@.len() && labels_of(kept@) == first_plans(
            plans@,
            plans@.len() as int,
        ),
{
    let ghost all = plans@;
    let ghost hashes = plan_hashes(all);
    let mut extraction = UniquePlanExtraction::new(plans.len());
    let mut kept: Vec<Vec<u16>> = Vec::new();
    let mut i: usize = 0;
    proof {
        assert(extraction.took(all, 0));
        assert(labels_of(kept@) =~= first_plans(all, 0));
    }
    while i < plans.len()
        invariant
            i <= plans@.len(),
            plans@ == all,
            hashes == plan_hashes(all),
            extraction.took(all, i as int),
            extraction.frames.frames_left == all.len() - i,
            i > 0 ==> all[0]@.len() <= usize::MAX,
            forall|k: int| 0 <= k < i ==> (#[trigger] all[k])@.len() == all[0]@.len(),
            labels_of(kept@) == first_plans(all, i as int),
            forall|k: int| 0 <= k < plans@.len() ==> spares_label(#[trigger] plans@[k]@),
        decreases plans.len() - i,
    {
        let plan: Vec<u16> = plans[i].clone();
        proof {
            assert(plan@ =~= all[i as int]@);
            assert(plan@.len() == plan.len());
            assert(hashes[i as int] == partition_hash(plan@));
            assert(hashes.take(i + 1) =~= hashes.take(i as int).push(hashes[i as int]));
            assert(extraction.unique.saw(hashes.take(i as int)));
            assert(extraction.unique.seen@.contains(hashes[i as int]) <==> hashes.take(
                i as int,
            ).contains(hashes[i as int]));
        }
        match extraction.offer(plan, 1) {
            Ok(Some(fresh)) => {
                let ghost before = kept@;
                kept.push(fresh);
                proof {
                    assert(labels_of(kept@) =~= labels_of(before).push(all[i as int]@));
                    assert(first_plans(all, i + 1) =~= first_plans(all, i as int).push(
                        all[i as int]@,
                    ));
                    assert(labels_of(kept@) =~= first_plans(all, i + 1));
                }
            },
            Ok(None) => {
                proof {
                    assert(first_plans(all, i + 1) =~= first_plans(all, i as int));
                }
            },
            Err(e) => {
                proof {
                    assert(all[i as int]@.len() != all[0]@.len());
                    assert(uniform_length(all.take(i as int)));
                }
                return Err(e);
            },
        }
        i += 1;
    }
    Ok((kept, extraction.frames.accepted_count))
}

/// Extracting what was extracted changes nothing.
pub proof fn law_extraction_is_idempotent(plans: Seq<Vec<u16>>, kept: Seq<Vec<u16>>)
    requires
        labels_of(kept) == first_plans(plans, plans.len() as int),
    ensures
        first_plans(kept, kept.len() as int) == labels_of(kept),
{
    let hashes = plan_hashes(plans);
    let first = first_occurrences(hashes, plans.len() as int);
    let again = plan_hashes(kept);
    law_first_occurrences(hashes, plans.len() as int);
    assert(labels_of(kept).len() == first.len());
    assert forall|k: int| 0 <= k < kept.len() implies #[trigger] again[k] == hashes[first[k]] by {
        assert(labels_of(kept)[k] == plans[first[k]]@);
    }
    lemma_all_first(again, kept.len() as int);
    assert(first_plans(kept, kept.len() as int) =~= labels_of(kept));
}

proof fn lemma_all_first(hashes: Seq<u128>, n: int)
    requires
        0 <= n <= hashes.len(),
        forall|j: int, k: int|
            0 <= j < k < hashes.len() ==> #[trigger] hashes[j] != #[trigger] hashes[k],
    ensures
        first_occurrences(hashes, n) == Seq::new(n as nat, |i: int| i),
    decreases n,
{
    if n > 0 {
        lemma_all_first(hashes, n - 1);
        if hashes.take(n - 1).contains(hashes[n - 1]) {
            let i = hashes.take(n - 1).index_of(hashes[n - 1]);
            assert(hashes.take(n - 1)[i] == hashes[n - 1]);
            assert(hashes[i] == hashes[n - 1]);
        }
        assert(first_occurrences(hashes, n) =~= Seq::new(n as nat, |i: int| i));
    } else {
        assert(first_occurrences(hashes, n) =~= Seq::new(n as nat, |i: int| i));
    }
}

/// Where different partitions have different digests, what is extracted are, in order, the plans
/// whose partition no earlier plan has.
pub proof fn law_extracted_plans(plans: Seq<Vec<u16>>)
    requires
        forall|i: int, j: int|
            0 <= i < plans.len() && 0 <= j < plans.len() && partition_hash(#[trigger] plans[i]@)
                == partition_hash(#[trigger] plans[j]@) ==> same_partition(plans[i]@, plans[j]@),
    ensures
        first_plans(plans, plans.len() as int) == listed(
            plans.len() as int,
            |i: int| forall|j: int| 0 <= j < i ==> !same_partition(#[trigger] plans[j]@, plans[i]@),
        ).map_values(|i: int| plans[i]@),
{
    law_unique_plans_are_the_partitions(plans);
    let positions = first_occurrences(plan_hashes(plans), plans.len() as int);
    assert(first_plans(plans, plans.len() as int) =~= positions.map_values(|i: int| plans[i]@));
}

} // verus!
