//! Label-canonical hashing for assignment vectors.
//!
//! Two assignments that differ only by a permutation of district labels describe the same
//! partition. [`canonical_hash`] numbers districts in order of first appearance and hashes the
//! numbered sequence with xxh3-128, so equivalent partitions share one 128-bit digest.
use vstd::prelude::*;
use xxhash_rust::xxh3::Xxh3;

verus! {

/// The different labels of `assignment`, in order of first appearance.
pub open spec fn appearance(assignment: Seq<u16>) -> Seq<u16>
    decreases assignment.len(),
{
    if assignment.len() == 0 {
        Seq::empty()
    } else {
        let earlier = appearance(assignment.drop_last());
        if earlier.contains(assignment.last()) {
            earlier
        } else {
            earlier.push(assignment.last())
        }
    }
}

/// `assignment` with each label replaced by its place in the order of first appearance.
pub open spec fn canonical(assignment: Seq<u16>) -> Seq<int> {
    Seq::new(assignment.len(), |i: int| appearance(assignment).index_of(assignment[i]))
}

/// Two bytes per number, low byte first.
pub open spec fn little_endian(ids: Seq<int>) -> Seq<u8>
    decreases ids.len(),
{
    if ids.len() == 0 {
        Seq::empty()
    } else {
        little_endian(ids.drop_last()).push((ids.last() % 256) as u8).push(
            (ids.last() / 256) as u8,
        )
    }
}

/// The 128-bit xxh3 digest of `bytes`.
pub uninterp spec fn xxh3_digest(bytes: Seq<u8>) -> u128;

/// Whether two assignments group the nodes in the same way.
pub open spec fn same_partition(a: Seq<u16>, b: Seq<u16>) -> bool {
    &&& a.len() == b.len()
    &&& forall|i: int, j: int|
        0 <= i < a.len() && 0 <= j < a.len() ==> (#[trigger] a[i] == #[trigger] a[j] <==> b[i]
            == b[j])
}

/// The hash of an assignment's partition.
pub open spec fn partition_hash(assignment: Seq<u16>) -> u128 {
    xxh3_digest(little_endian(canonical(assignment)))
}

/// Hash `bytes` with `Xxh3` of `xxhash_rust`: a fresh hasher with the default secret, fed `bytes`
/// and asked for `digest128`. The contract names the digest and claims nothing else of it.
#[verifier::external_body]
fn digest128(bytes: &[u8]) -> (r: u128)
    ensures
        r == xxh3_digest(bytes@),
{
    let mut hasher = Xxh3::new();
    hasher.update(bytes);
    hasher.digest128()
}

/// What [`appearance`] lists: each label of the assignment, once.
pub proof fn lemma_appearance(assignment: Seq<u16>)
    ensures
        appearance(assignment).no_duplicates(),
        forall|x: u16| #[trigger] appearance(assignment).contains(x) <==> assignment.contains(x),
        appearance(assignment).len() <= assignment.len(),
    decreases assignment.len(),
{
    if assignment.len() > 0 {
        let shorter = assignment.drop_last();
        let last = assignment.last();
        let earlier = appearance(shorter);
        let all = appearance(assignment);
        lemma_appearance(shorter);
        assert forall|x: u16| #[trigger] all.contains(x) <==> assignment.contains(x) by {
            assert(earlier.contains(x) <==> shorter.contains(x));
            if shorter.contains(x) {
                let i = choose|i: int| 0 <= i < shorter.len() && shorter[i] == x;
                assert(assignment[i] == x);
            }
            if assignment.contains(x) && x != last {
                let i = choose|i: int| 0 <= i < assignment.len() && assignment[i] == x;
                assert(shorter[i] == x);
            }
            assert(assignment[assignment.len() - 1] == last);
            if earlier.contains(x) {
                let i = choose|i: int| 0 <= i < earlier.len() && earlier[i] == x;
                assert(all[i] == x);
            }
            if !earlier.contains(last) {
                assert(all[all.len() - 1] == last);
            }
            if all.contains(x) {
                let i = choose|i: int| 0 <= i < all.len() && all[i] == x;
                if i < earlier.len() {
                    assert(earlier[i] == x);
                }
            }
        }
    }
}

/// A longer assignment only adds labels at the end.
proof fn lemma_appearance_prefix(assignment: Seq<u16>, n: int)
    requires
        0 <= n <= assignment.len(),
    ensures
        appearance(assignment.take(n)).len() <= appearance(assignment).len(),
        appearance(assignment).take(appearance(assignment.take(n)).len() as int) == appearance(
            assignment.take(n),
        ),
    decreases assignment.len() - n,
{
    if n == assignment.len() {
        assert(assignment.take(n) =~= assignment);
        assert(appearance(assignment).take(appearance(assignment).len() as int) =~= appearance(
            assignment,
        ));
    } else {
        lemma_appearance_prefix(assignment, n + 1);
        let here = appearance(assignment.take(n));
        let next = appearance(assignment.take(n + 1));
        assert(assignment.take(n + 1).drop_last() =~= assignment.take(n));
        assert(appearance(assignment).take(here.len() as int) =~= next.take(here.len() as int));
        assert(next.take(here.len() as int) =~= here);
    }
}

/// An assignment that lacks some label has fewer labels than there are in all.
proof fn lemma_spare_label(labels: Seq<u16>, spare: u16)
    requires
        labels.no_duplicates(),
        !labels.contains(spare),
    ensures
        labels.len() < 0x1_0000,
{
    let set = labels.to_set();
    labels.unique_seq_to_set();
    let image = set.map(|x: u16| x as int);
    assert(vstd::relations::injective_on(|x: u16| x as int, set));
    vstd::set_lib::lemma_map_size(set, image, |x: u16| x as int);
    let all = vstd::set_lib::set_int_range(0, 0x1_0000);
    vstd::set_lib::lemma_int_range(0, 0x1_0000);
    let rest = all.remove(spare as int);
    assert(image.subset_of(rest)) by {
        assert forall|x: int| image.contains(x) implies rest.contains(x) by {
            let y = choose|y: u16| set.contains(y) && y as int == x;
            assert(labels.contains(y));
        }
    }
    vstd::set_lib::lemma_len_subset(image, rest);
}

/// Whether some label is not in use.
pub open spec fn spares_label(assignment: Seq<u16>) -> bool {
    exists|x: u16| !#[trigger] assignment.contains(x)
}

/// Whether some label is not in use.
pub fn has_spare_label(assignment: &[u16]) -> (r: bool)
    ensures
        r == spares_label(assignment@),
{
    let mut used: Vec<bool> = vec![false; 0x1_0000];
    let mut i: usize = 0;
    while i < assignment.len()
        invariant
            i <= assignment@.len(),
            used@.len() == 0x1_0000,
            forall|x: int|
                0 <= x < 0x1_0000 ==> (#[trigger] used@[x] <==> assignment@.take(
                    i as int,
                ).contains(x as u16)),
        decreases assignment.len() - i,
    {
        let label: u16 = assignment[i];
        used.set(label as usize, true);
        proof {
            let next = assignment@.take(i + 1);
            let here = assignment@.take(i as int);
            assert forall|x: int| 0 <= x < 0x1_0000 implies (#[trigger] used@[x] <==> next.contains(
                x as u16,
            )) by {
                if here.contains(x as u16) {
                    let k = choose|k: int| 0 <= k < here.len() && here[k] == x as u16;
                    assert(next[k] == x as u16);
                }
                if x == label {
                    assert(next[i as int] == label);
                }
                if next.contains(x as u16) && x != label {
                    let k = choose|k: int| 0 <= k < next.len() && next[k] == x as u16;
                    assert(here[k] == x as u16);
                }
            }
        }
        i += 1;
    }
    proof {
        assert(assignment@.take(assignment@.len() as int) =~= assignment@);
    }
    let mut x: usize = 0;
    while x < 0x1_0000
        invariant
            x <= 0x1_0000,
            used@.len() == 0x1_0000,
            forall|k: int|
                0 <= k < 0x1_0000 ==> (#[trigger] used@[k] <==> assignment@.contains(k as u16)),
            forall|k: int| 0 <= k < x ==> #[trigger] used@[k],
        decreases 0x1_0000 - x,
    {
        if !used[x] {
            assert(!assignment@.contains(x as u16));
            return true;
        }
        x += 1;
    }
    proof {
        assert forall|k: u16| #[trigger] assignment@.contains(k) by {
            assert(used@[k as int]);
        }
    }
    false
}

/// Hash an assignment by its partition.
///
/// The numbering has room for all labels but one, so an assignment that uses every `u16` label is
/// out of range.
pub fn canonical_hash(assignment: &[u16]) -> (r: u128)
    requires
        spares_label(assignment@),
    ensures
        r == partition_hash(assignment@),
        r == xxh3_digest(partition_bytes(assignment@)),
{
    let ghost labels = appearance(assignment@);
    let ghost ids = canonical(assignment@);
    proof {
        lemma_appearance(assignment@);
        let spare = choose|x: u16| !#[trigger] assignment@.contains(x);
        assert(!labels.contains(spare));
        lemma_spare_label(labels, spare);
    }
    let mut max_label: u16 = 0;
    let mut i: usize = 0;
    while i < assignment.len()
        invariant
            i <= assignment@.len(),
            forall|k: int| 0 <= k < i ==> #[trigger] assignment@[k] <= max_label,
        decreases assignment.len() - i,
    {
        if assignment[i] > max_label {
            max_label = assignment[i];
        }
        i += 1;
    }
    // `u16::MAX` marks a label that has not appeared yet.
    let mut remap: Vec<u16> = vec![u16::MAX; max_label as usize + 1];
    let mut next_id: u16 = 0;
    let mut bytes: Vec<u8> = Vec::new();
    proof {
        assert(assignment@.take(0) =~= Seq::empty());
        assert(ids.take(0) =~= Seq::empty());
    }
    let mut i: usize = 0;
    while i < assignment.len()
        invariant
            i <= assignment@.len(),
            labels == appearance(assignment@),
            ids == canonical(assignment@),
            labels.len() < 0x1_0000,
            forall|k: int| 0 <= k < assignment@.len() ==> #[trigger] assignment@[k] <= max_label,
            remap@.len() == max_label + 1,
            next_id == appearance(assignment@.take(i as int)).len(),
            forall|x: u16|
                x <= max_label ==> #[trigger] remap@[x as int] == (if appearance(
                    assignment@.take(i as int),
                ).contains(x) {
                    appearance(assignment@.take(i as int)).index_of(x) as u16
                } else {
                    u16::MAX
                }),
            bytes@ == little_endian(ids.take(i as int)),
        decreases assignment.len() - i,
    {
        let label: u16 = assignment[i];
        let ghost here = appearance(assignment@.take(i as int));
        let ghost next = appearance(assignment@.take(i + 1));
        proof {
            lemma_appearance(assignment@.take(i as int));
            lemma_appearance(assignment@.take(i + 1));
            lemma_appearance(assignment@);
            lemma_appearance_prefix(assignment@, i as int);
            lemma_appearance_prefix(assignment@, i + 1);
            assert(assignment@.take(i + 1).drop_last() =~= assignment@.take(i as int));
            assert(assignment@.take(i + 1).last() == label);
            assert(assignment@.contains(label));
            if here.contains(label) {
                let k = here.index_of(label);
                assert(here[k] == label);
                assert(labels.take(here.len() as int)[k] == label);
                assert(labels[k] == label);
                assert(labels.index_of(label) == k);
                assert(k < u16::MAX);
            } else {
                assert(next[here.len() as int] == label);
                assert(labels.take(next.len() as int)[here.len() as int] == label);
                assert(labels[here.len() as int] == label);
                assert(labels.index_of(label) == here.len());
            }
        }
        let canonical_id: u16 = if remap[label as usize] == u16::MAX {
            let id: u16 = next_id;
            remap.set(label as usize, id);
            next_id += 1;
            id
        } else {
            remap[label as usize]
        };
        proof {
            assert(canonical_id == ids[i as int]);
            assert forall|x: u16| x <= max_label implies #[trigger] remap@[x as int] == (
            if next.contains(x) {
                next.index_of(x) as u16
            } else {
                u16::MAX
            }) by {
                if here.contains(x) {
                    let k = here.index_of(x);
                    assert(here[k] == x);
                    assert(next[k] == x);
                    assert(next.index_of(x) == k);
                } else if x == label {
                    assert(next[here.len() as int] == x);
                    assert(next.index_of(x) == here.len());
                } else {
                    assert(!next.contains(x)) by {
                        if next.contains(x) {
                            let k = next.index_of(x);
                            assert(next[k] == x);
                            assert(here[k] == x);
                        }
                    }
                }
            }
            assert(ids.take(i + 1).drop_last() =~= ids.take(i as int));
            assert(ids.take(i + 1).last() == ids[i as int]);
        }
        bytes.push((canonical_id % 256) as u8);
        bytes.push((canonical_id / 256) as u8);
        i += 1;
    }
    proof {
        assert(ids.take(ids.len() as int) =~= ids);
    }
    digest128(&bytes)
}

/// Numbering the districts in order of first appearance tells partitions apart and nothing else:
/// two assignments get the same numbering exactly when they group the nodes in the same way.
pub proof fn law_canonical_is_the_partition(a: Seq<u16>, b: Seq<u16>)
    ensures
        canonical(a) == canonical(b) <==> same_partition(a, b),
{
    lemma_appearance(a);
    lemma_appearance(b);
    if same_partition(a, b) {
        lemma_matching_labels(a, b, a.len() as int);
        assert(a.take(a.len() as int) =~= a);
        assert(b.take(a.len() as int) =~= b);
        assert forall|i: int| 0 <= i < a.len() implies canonical(a)[i] == canonical(b)[i] by {
            assert(a.contains(a[i]) && b.contains(b[i]));
            assert(appearance(a).contains(a[i]) && appearance(b).contains(b[i]));
            let k = appearance(a).index_of(a[i]);
            assert(appearance(a)[k] == a[i]);
            assert(appearance(b)[k] == b[i]);
        }
        assert(canonical(a) =~= canonical(b));
    }
    if canonical(a) == canonical(b) {
        assert(a.len() == canonical(a).len());
        assert(b.len() == canonical(b).len());
        assert forall|i: int, j: int|
            0 <= i < a.len() && 0 <= j < a.len() implies (#[trigger] a[i] == #[trigger] a[j]
            <==> b[i] == b[j]) by {
            assert(a.contains(a[i]) && a.contains(a[j]) && b.contains(b[i]) && b.contains(b[j]));
            assert(appearance(a).contains(a[i]) && appearance(a).contains(a[j]));
            assert(appearance(b).contains(b[i]) && appearance(b).contains(b[j]));
            assert(canonical(a)[i] == canonical(b)[i]);
            assert(canonical(a)[j] == canonical(b)[j]);
            assert(appearance(a)[canonical(a)[i]] == a[i]);
            assert(appearance(a)[canonical(a)[j]] == a[j]);
            assert(appearance(b)[canonical(b)[i]] == b[i]);
            assert(appearance(b)[canonical(b)[j]] == b[j]);
        }
    }
}

proof fn lemma_matching_labels(a: Seq<u16>, b: Seq<u16>, n: int)
    requires
        same_partition(a, b),
        0 <= n <= a.len(),
    ensures
        appearance(a.take(n)).len() == appearance(b.take(n)).len(),
        forall|k: int, i: int|
            0 <= k < appearance(a.take(n)).len() && 0 <= i < a.len() ==> (#[trigger] appearance(
                a.take(n),
            )[k] == #[trigger] a[i] <==> appearance(b.take(n))[k] == b[i]),
    decreases n,
{
    if n > 0 {
        lemma_matching_labels(a, b, n - 1);
        let la = appearance(a.take(n - 1));
        let lb = appearance(b.take(n - 1));
        let na = appearance(a.take(n));
        let nb = appearance(b.take(n));
        assert(a.take(n).drop_last() =~= a.take(n - 1));
        assert(b.take(n).drop_last() =~= b.take(n - 1));
        assert(a.take(n).last() == a[n - 1]);
        assert(b.take(n).last() == b[n - 1]);
        assert(la.contains(a[n - 1]) <==> lb.contains(b[n - 1])) by {
            if la.contains(a[n - 1]) {
                let k = choose|k: int| 0 <= k < la.len() && la[k] == a[n - 1];
                assert(lb[k] == b[n - 1]);
            }
            if lb.contains(b[n - 1]) {
                let k = choose|k: int| 0 <= k < lb.len() && lb[k] == b[n - 1];
                assert(la[k] == a[n - 1] <==> lb[k] == b[n - 1]);
            }
        }
        assert forall|k: int, i: int| 0 <= k < na.len() && 0 <= i < a.len() implies (
        #[trigger] na[k] == #[trigger] a[i] <==> nb[k] == b[i]) by {
            if k < la.len() {
                assert(na[k] == la[k] && nb[k] == lb[k]);
                assert(la[k] == a[i] <==> lb[k] == b[i]);
            } else {
                assert(na[k] == a[n - 1] && nb[k] == b[n - 1]);
                assert(a[n - 1] == a[i] <==> b[n - 1] == b[i]);
            }
        }
    } else {
        assert(a.take(0) =~= Seq::empty());
        assert(b.take(0) =~= Seq::empty());
    }
}

/// Two assignments have one partition exactly when they have as many nodes and put the same pairs of
/// nodes together.
pub proof fn law_same_partition(a: Seq<u16>, b: Seq<u16>)
    ensures
        same_partition(a, b) <==> a.len() == b.len() && (forall|i: int, j: int|
            0 <= i < a.len() && 0 <= j < a.len() ==> (#[trigger] a[i] == #[trigger] a[j] <==> b[i]
                == b[j])),
{
}

/// The bytes that stand for an assignment's partition.
pub open spec fn partition_bytes(assignment: Seq<u16>) -> Seq<u8> {
    little_endian(canonical(assignment))
}

/// Two bytes stand for each number, in order.
proof fn lemma_little_endian(ids: Seq<int>)
    requires
        forall|i: int| 0 <= i < ids.len() ==> 0 <= #[trigger] ids[i] < 0x1_0000,
    ensures
        little_endian(ids).len() == 2 * ids.len(),
        forall|i: int|
            #![trigger ids[i]]
            0 <= i < ids.len() ==> little_endian(ids)[2 * i] + 256 * little_endian(ids)[2 * i + 1]
                == ids[i],
    decreases ids.len(),
{
    if ids.len() > 0 {
        let shorter = ids.drop_last();
        let last = ids.last();
        assert forall|i: int| 0 <= i < shorter.len() implies 0 <= #[trigger] shorter[i]
            < 0x1_0000 by {
            assert(shorter[i] == ids[i]);
        }
        lemma_little_endian(shorter);
        assert(last == ids[ids.len() - 1]);
        assert(0 <= last / 256 < 256 && 0 <= last % 256 < 256);
        let before = little_endian(shorter);
        let all = little_endian(ids);
        assert forall|i: int| #![trigger ids[i]] 0 <= i < ids.len() implies all[2 * i] + 256
            * all[2 * i + 1] == ids[i] by {
            if i < shorter.len() {
                assert(shorter[i] == ids[i]);
                assert(before[2 * i] == all[2 * i] && before[2 * i + 1] == all[2 * i + 1]);
            } else {
                assert(all[2 * i] == (last % 256) as u8 && all[2 * i + 1] == (last / 256) as u8);
            }
        }
    }
}

/// The number of each node fits two bytes where a label is spare.
proof fn lemma_ids_fit(assignment: Seq<u16>)
    requires
        spares_label(assignment),
    ensures
        forall|i: int|
            0 <= i < assignment.len() ==> 0 <= #[trigger] canonical(assignment)[i] < 0x1_0000,
{
    let labels = appearance(assignment);
    lemma_appearance(assignment);
    let spare = choose|x: u16| !#[trigger] assignment.contains(x);
    assert(!labels.contains(spare));
    lemma_spare_label(labels, spare);
    assert forall|i: int| 0 <= i < assignment.len() implies 0 <= #[trigger] canonical(assignment)[i]
        < 0x1_0000 by {
        assert(assignment.contains(assignment[i]));
        assert(labels.contains(assignment[i]));
    }
}

/// The digested bytes tell partitions apart and nothing else: for two assignments that spare a
/// label, they are equal exactly when the assignments have the same length and put the same pairs
/// of nodes together.
pub proof fn law_digested_bytes_are_the_partition(a: Seq<u16>, b: Seq<u16>)
    requires
        spares_label(a),
        spares_label(b),
    ensures
        partition_hash(a) == xxh3_digest(partition_bytes(a)),
        partition_bytes(a) == partition_bytes(b) <==> a.len() == b.len() && (forall|i: int, j: int|
            0 <= i < a.len() && 0 <= j < a.len() ==> (#[trigger] a[i] == #[trigger] a[j] <==> b[i]
                == b[j])),
        partition_bytes(a) == partition_bytes(b) <==> same_partition(a, b),
{
    law_canonical_is_the_partition(a, b);
    lemma_ids_fit(a);
    lemma_ids_fit(b);
    lemma_little_endian(canonical(a));
    lemma_little_endian(canonical(b));
    if partition_bytes(a) == partition_bytes(b) {
        assert forall|i: int| 0 <= i < a.len() implies canonical(a)[i] == canonical(b)[i] by {
            assert(canonical(a)[i] == canonical(a)[i] && canonical(b)[i] == canonical(b)[i]);
        }
        assert(canonical(a) =~= canonical(b));
    }
}

/// What is digested of a node: two bytes, low byte first, with the number of different labels that
/// come before the first node of the same district.
pub proof fn law_digested_bytes_count_earlier_labels(assignment: Seq<u16>, i: int, first: int)
    requires
        spares_label(assignment),
        0 <= first <= i < assignment.len(),
        assignment[first] == assignment[i],
        forall|j: int| 0 <= j < first ==> #[trigger] assignment[j] != assignment[i],
    ensures
        partition_bytes(assignment).len() == 2 * assignment.len(),
        partition_bytes(assignment)[2 * i] + 256 * partition_bytes(assignment)[2 * i + 1]
            == Set::new(
            |x: u16| exists|j: int| 0 <= j < first && #[trigger] assignment[j] == x,
        ).len(),
{
    lemma_ids_fit(assignment);
    lemma_little_endian(canonical(assignment));
    let labels = appearance(assignment);
    let earlier = assignment.take(first);
    let here = appearance(earlier);
    let label = assignment[i];
    lemma_appearance(assignment);
    lemma_appearance(earlier);
    lemma_appearance_prefix(assignment, first);
    lemma_appearance_prefix(assignment, first + 1);
    let next = appearance(assignment.take(first + 1));
    assert(assignment.take(first + 1).drop_last() =~= earlier);
    assert(assignment.take(first + 1).last() == label);
    assert(!earlier.contains(label));
    assert(!here.contains(label));
    assert(next == here.push(label));
    assert(labels.take(next.len() as int)[here.len() as int] == label);
    assert(labels[here.len() as int] == label);
    assert(labels.contains(label));
    assert(canonical(assignment)[i] == here.len());
    here.unique_seq_to_set();
    let before = Set::new(|x: u16| exists|j: int| 0 <= j < first && #[trigger] assignment[j] == x);
    assert(here.to_set() =~= before) by {
        assert forall|x: u16| here.to_set().contains(x) <==> before.contains(x) by {
            assert(here.to_set().contains(x) <==> here.contains(x));
            assert(here.contains(x) <==> earlier.contains(x));
            if earlier.contains(x) {
                let j = choose|j: int| 0 <= j < earlier.len() && earlier[j] == x;
                assert(assignment[j] == x);
            }
            if before.contains(x) {
                let j = choose|j: int| 0 <= j < first && #[trigger] assignment[j] == x;
                assert(earlier[j] == x);
            }
        }
    }
}

/// Renaming the districts one-to-one does not change the hash.
pub proof fn law_hash_is_label_invariant(assignment: Seq<u16>, rename: spec_fn(u16) -> u16)
    requires
        forall|x: u16, y: u16| #![trigger rename(x), rename(y)] rename(x) == rename(y) ==> x == y,
    ensures
        partition_hash(assignment.map_values(rename)) == partition_hash(assignment),
{
    let renamed = assignment.map_values(rename);
    assert(same_partition(renamed, assignment)) by {
        assert forall|i: int, j: int|
            0 <= i < renamed.len() && 0 <= j < renamed.len() implies (#[trigger] renamed[i]
            == #[trigger] renamed[j] <==> assignment[i] == assignment[j]) by {
            assert(renamed[i] == rename(assignment[i]));
            assert(renamed[j] == rename(assignment[j]));
        }
    }
    law_canonical_is_the_partition(renamed, assignment);
}

/// Assignments with the same partition share a hash.
pub proof fn law_same_partition_same_hash(a: Seq<u16>, b: Seq<u16>)
    requires
        same_partition(a, b),
    ensures
        partition_hash(a) == partition_hash(b),
{
    law_canonical_is_the_partition(a, b);
}

} // verus!
