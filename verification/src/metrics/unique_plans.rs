//! Counts of different partitions.
//!
//! Plans that differ only in how their districts are labelled have one digest and count once. So
//! would different partitions whose digests happen to be equal.
use crate::error::Error;
use crate::metrics::canonical::{canonical_hash, partition_hash, same_partition, spares_label};
use crate::metrics::canonical::law_same_partition_same_hash;
use crate::metrics::counts::{indices, law_listed, lemma_listed_same, listed};
use crate::pipeline::{length_changed_text, AssignmentLengthCheck, LengthGuard};
use std::collections::HashSet;
use vstd::prelude::*;

verus! {

broadcast use vstd::std_specs::hash::group_hash_axioms;

/// The positions among the first `n` whose digest did not come up before.
pub open spec fn first_occurrences(hashes: Seq<u128>, n: int) -> Seq<int>
    decreases n,
{
    if n <= 0 {
        Seq::empty()
    } else if hashes.take(n - 1).contains(hashes[n - 1]) {
        first_occurrences(hashes, n - 1)
    } else {
        first_occurrences(hashes, n - 1).push(n - 1)
    }
}

/// The digests of plans.
pub open spec fn plan_hashes(plans: Seq<Vec<u16>>) -> Seq<u128> {
    Seq::new(plans.len(), |i: int| partition_hash(plans[i]@))
}

/// How many partitions there are, and how many plans they were counted over.
#[derive(Clone, Copy, PartialEq, Eq, Structural, Debug)]
pub struct UniqueCounts {
    pub unique_plans: u64,
    pub total_accepted_frames: u64,
}

/// The digests seen so far.
#[derive(Debug)]
pub struct UniquePlans {
    pub seen: HashSet<u128>,
    pub total_frames: u64,
}

impl UniquePlans {
    /// Whether exactly these digests were seen.
    pub open spec fn saw(&self, hashes: Seq<u128>) -> bool {
        &&& self.seen@ == hashes.to_set()
        &&& self.total_frames == hashes.len()
    }

    /// Nothing seen yet.
    pub fn new() -> (r: Self)
        ensures
            r.saw(Seq::empty()),
    {
        let r = UniquePlans { seen: HashSet::new(), total_frames: 0 };
        proof {
            assert(r.seen@ =~= Seq::<u128>::empty().to_set());
        }
        r
    }

    /// Take the digest of one more plan. Tells whether it did not come up before.
    pub fn insert(&mut self, hash: u128) -> (r: bool)
        requires
            old(self).total_frames < u64::MAX,
        ensures
            r == !old(self).seen@.contains(hash),
            forall|hashes: Seq<u128>| #[trigger]
                old(self).saw(hashes) ==> final(self).saw(hashes.push(hash)),
    {
        let fresh = self.seen.insert(hash);
        self.total_frames = self.total_frames + 1;
        proof {
            assert forall|hashes: Seq<u128>| #[trigger] old(self).saw(hashes) implies self.saw(
                hashes.push(hash),
            ) by {
                hashes.lemma_push_to_set_commute(hash);
            }
        }
        fresh
    }

    /// The counts.
    pub fn counts(&self) -> (r: UniqueCounts)
        ensures
            r.unique_plans == self.seen@.len(),
            r.total_accepted_frames == self.total_frames,
    {
        UniqueCounts {
            unique_plans: self.seen.len() as u64,
            total_accepted_frames: self.total_frames,
        }
    }
}

/// Whether all plans are of one length.
pub open spec fn uniform_length(plans: Seq<Vec<u16>>) -> bool {
    forall|i: int|
        0 <= i < plans.len() ==> (#[trigger] plans[i])@.len() == plans[0]@.len()
}

/// Whether `e` reports the first plan whose length differs from the first one's.
pub open spec fn reports_mixed_length(plans: Seq<Vec<u16>>, e: Error) -> bool {
    exists|i: int|
        0 < i < plans.len() && (#[trigger] plans[i])@.len() != plans[0]@.len() && uniform_length(
            plans.take(i),
        ) && e.is_invalid_data(length_changed_text(plans[0]@.len(), plans[i]@.len()))
}

/// Count the partitions among plans in memory. A plan of another length than the first is an error.
pub fn count_unique_plans(plans: &Vec<Vec<u16>>) -> (r: Result<UniqueCounts, Error>)
    requires
        forall|i: int| 0 <= i < plans@.len() ==> spares_label(#[trigger] plans@[i]@),
    ensures
        r is Ok <==> uniform_length(plans@),
        r matches Err(e) ==> reports_mixed_length(plans@, e),
        r matches Ok(counts) ==> counts.unique_plans == plan_hashes(plans@).to_set().len()
            && counts.total_accepted_frames == plans@.len(),
{
    let ghost hashes = plan_hashes(plans@);
    let mut unique = UniquePlans::new();
    let mut guard = LengthGuard::new(AssignmentLengthCheck::UniformWithinFile);
    let mut i: usize = 0;
    proof {
        assert(hashes.take(0) =~= Seq::<u128>::empty());
    }
    while i < plans.len()
        invariant
            i <= plans@.len(),
            hashes == plan_hashes(plans@),
            unique.saw(hashes.take(i as int)),
            guard == (LengthGuard {
                check: AssignmentLengthCheck::UniformWithinFile,
                established: if i == 0 {
                    None
                } else {
                    Some(plans@[0]@.len() as usize)
                },
            }),
            i > 0 ==> plans@[0]@.len() <= usize::MAX,
            forall|k: int| 0 <= k < i ==> (#[trigger] plans@[k])@.len() == plans@[0]@.len(),
            forall|k: int| 0 <= k < plans@.len() ==> spares_label(#[trigger] plans@[k]@),
        decreases plans.len() - i,
    {
        let plan = &plans[i];
        assert(plan@.len() == plan.len());
        match guard.check(plan.len()) {
            Ok(()) => {},
            Err(e) => {
                proof {
                    assert(plans@[i as int]@.len() != plans@[0]@.len());
                    assert(uniform_length(plans@.take(i as int)));
                }
                return Err(e);
            },
        }
        unique.insert(canonical_hash(plan));
        proof {
            assert(hashes.take(i + 1) =~= hashes.take(i as int).push(hashes[i as int]));
        }
        i += 1;
    }
    proof {
        assert(hashes.take(i as int) =~= hashes);
    }
    Ok(unique.counts())
}

/// Whether `first` lists a position up to `i` with the digest at `i`.
pub open spec fn represented(hashes: Seq<u128>, first: Seq<int>, i: int) -> bool {
    exists|k: int|
        0 <= k < first.len() && hashes[#[trigger] first[k]] == hashes[i] && first[k] <= i
}

/// What the first occurrences are: in order, each digest exactly once.
pub proof fn law_first_occurrences(hashes: Seq<u128>, n: int)
    requires
        0 <= n <= hashes.len(),
    ensures
        ({
            let first = first_occurrences(hashes, n);
            &&& forall|k: int| 0 <= k < first.len() ==> 0 <= #[trigger] first[k] < n
            &&& forall|j: int, k: int|
                0 <= j < k < first.len() ==> #[trigger] first[j] < #[trigger] first[k]
                    && hashes[first[j]] != hashes[first[k]]
            &&& forall|i: int| 0 <= i < n ==> #[trigger] represented(hashes, first, i)
        }),
    decreases n,
{
    if n > 0 {
        law_first_occurrences(hashes, n - 1);
        let before = first_occurrences(hashes, n - 1);
        let after = first_occurrences(hashes, n);
        let last = hashes[n - 1];
        if hashes.take(n - 1).contains(last) {
            let i = hashes.take(n - 1).index_of(last);
            assert(hashes.take(n - 1)[i] == last);
            assert(represented(hashes, before, i));
            let k = choose|k: int|
                0 <= k < before.len() && hashes[#[trigger] before[k]] == hashes[i] && before[k]
                    <= i;
            assert(hashes[before[k]] == hashes[n - 1]);
            assert(represented(hashes, before, n - 1));
        } else {
            assert forall|k: int| 0 <= k < before.len() implies hashes[#[trigger] before[k]]
                != last by {
                assert(hashes.take(n - 1)[before[k]] == hashes[before[k]]);
            }
            assert forall|i: int| 0 <= i < n implies #[trigger] represented(
                hashes,
                after,
                i,
            ) by {
                if i < n - 1 {
                    assert(represented(hashes, before, i));
                    let k = choose|k: int|
                        0 <= k < before.len() && hashes[#[trigger] before[k]] == hashes[i]
                            && before[k] <= i;
                    assert(after[k] == before[k]);
                } else {
                    assert(after[before.len() as int] == n - 1);
                }
            }
        }
    }
}

/// There are as many first occurrences as different digests, and no more than digests.
pub proof fn law_first_occurrences_count_the_set(hashes: Seq<u128>, n: int)
    requires
        0 <= n <= hashes.len(),
    ensures
        hashes.take(n).to_set().finite(),
        first_occurrences(hashes, n).len() == hashes.take(n).to_set().len(),
        hashes.take(n).to_set().len() <= n,
    decreases n,
{
    if n == 0 {
        assert(hashes.take(0).to_set() =~= Set::empty());
    } else {
        law_first_occurrences_count_the_set(hashes, n - 1);
        let before = hashes.take(n - 1);
        let last = hashes[n - 1];
        assert(hashes.take(n) =~= before.push(last));
        before.lemma_push_to_set_commute(last);
        if before.contains(last) {
            assert(before.to_set().insert(last) =~= before.to_set());
        }
    }
}

/// Of two plans with one partition at most the first is kept, however they are labelled.
pub proof fn law_one_plan_of_a_partition(plans: Seq<Vec<u16>>, i: int, j: int)
    requires
        0 <= i < j < plans.len(),
        same_partition(plans[i]@, plans[j]@),
    ensures
        forall|k: int|
            0 <= k < first_occurrences(plan_hashes(plans), plans.len() as int).len()
                ==> #[trigger] first_occurrences(plan_hashes(plans), plans.len() as int)[k] != j,
{
    let hashes = plan_hashes(plans);
    let n = plans.len() as int;
    law_same_partition_same_hash(plans[i]@, plans[j]@);
    law_first_occurrences(hashes, n);
    assert(hashes[i] == hashes[j]);
    let first = first_occurrences(hashes, n);
    assert(represented(hashes, first, i));
    let k = choose|k: int|
        0 <= k < first.len() && hashes[#[trigger] first[k]] == hashes[i] && first[k] <= i;
    assert forall|m: int| 0 <= m < first.len() implies #[trigger] first[m] != j by {
        if first[m] == j {
            assert(hashes[first[m]] == hashes[first[k]]);
            if k < m {
                assert(hashes[first[k]] != hashes[first[m]]);
            } else if m < k {
                assert(hashes[first[m]] != hashes[first[k]]);
            }
        }
    }
}

/// A position is listed exactly when its digest comes up at no earlier position; the list is in
/// order.
pub proof fn law_first_occurrences_listed(hashes: Seq<u128>, n: int)
    requires
        0 <= n <= hashes.len(),
    ensures
        first_occurrences(hashes, n) == listed(
            n,
            |i: int| forall|j: int| 0 <= j < i ==> #[trigger] hashes[j] != hashes[i],
        ),
    decreases n,
{
    let fresh = |i: int| forall|j: int| 0 <= j < i ==> #[trigger] hashes[j] != hashes[i];
    if n > 0 {
        law_first_occurrences_listed(hashes, n - 1);
        law_listed(n - 1, fresh);
        let before = hashes.take(n - 1);
        if before.contains(hashes[n - 1]) {
            let j = choose|j: int| 0 <= j < before.len() && before[j] == hashes[n - 1];
            assert(hashes[j] == hashes[n - 1]);
            assert(!fresh(n - 1));
        } else {
            assert forall|j: int| 0 <= j < n - 1 implies #[trigger] hashes[j] != hashes[n - 1] by {
                assert(before[j] == hashes[j]);
                assert(before.contains(before[j]));
            }
            assert(fresh(n - 1));
        }
    } else {
        law_listed(0, fresh);
        assert(listed(0, fresh) =~= Seq::empty());
    }
}

/// Where different partitions have different digests, the positions listed are those of plans whose
/// partition no earlier plan has, and the count is the number of such plans.
pub proof fn law_unique_plans_are_the_partitions(plans: Seq<Vec<u16>>)
    requires
        forall|i: int, j: int|
            0 <= i < plans.len() && 0 <= j < plans.len() && partition_hash(#[trigger] plans[i]@)
                == partition_hash(#[trigger] plans[j]@) ==> same_partition(plans[i]@, plans[j]@),
    ensures
        first_occurrences(plan_hashes(plans), plans.len() as int) == listed(
            plans.len() as int,
            |i: int| forall|j: int| 0 <= j < i ==> !same_partition(#[trigger] plans[j]@, plans[i]@),
        ),
        plan_hashes(plans).to_set().len() == Set::new(
            |i: int|
                0 <= i < plans.len() && forall|j: int|
                    0 <= j < i ==> !same_partition(#[trigger] plans[j]@, plans[i]@),
        ).len(),
{
    let n = plans.len() as int;
    let hashes = plan_hashes(plans);
    let fresh = |i: int| forall|j: int| 0 <= j < i ==> #[trigger] hashes[j] != hashes[i];
    let new = |i: int|
        forall|j: int| 0 <= j < i ==> !same_partition(#[trigger] plans[j]@, plans[i]@);
    law_first_occurrences_listed(hashes, n);
    assert forall|i: int| 0 <= i < n implies #[trigger] fresh(i) == new(i) by {
        if fresh(i) {
            assert forall|j: int| 0 <= j < i implies !same_partition(
                #[trigger] plans[j]@,
                plans[i]@,
            ) by {
                assert(hashes[j] != hashes[i]);
                if same_partition(plans[j]@, plans[i]@) {
                    law_same_partition_same_hash(plans[j]@, plans[i]@);
                }
            }
        }
        if new(i) {
            assert forall|j: int| 0 <= j < i implies #[trigger] hashes[j] != hashes[i] by {
                assert(!same_partition(plans[j]@, plans[i]@));
            }
        }
    }
    lemma_listed_same(n, fresh, new);
    law_listed(n, new);
    law_first_occurrences_count_the_set(hashes, n);
    assert(hashes.take(n) =~= hashes);
    assert(indices(n, new) =~= Set::new(
        |i: int|
            0 <= i < plans.len() && forall|j: int|
                0 <= j < i ==> !same_partition(#[trigger] plans[j]@, plans[i]@),
    ));
}

/// What it takes for plans to have one length.
pub proof fn law_uniform_length(plans: Seq<Vec<u16>>)
    ensures
        uniform_length(plans) <==> forall|i: int, j: int|
            0 <= i < plans.len() && 0 <= j < plans.len() ==> (#[trigger] plans[i])@.len() == (
            #[trigger] plans[j])@.len(),
        plan_hashes(plans).len() == plans.len(),
        forall|i: int|
            0 <= i < plans.len() ==> #[trigger] plan_hashes(plans)[i] == partition_hash(plans[i]@),
{
}

} // verus!
