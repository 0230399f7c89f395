//! District label sets.
//!
//! The set of district labels that a plan uses is kept as a bitmask with one bit per label, so
//! labels stay below [`MAX_DISTRICTS`]. Every metric captures the set through this module.
use crate::error::Error;
use crate::text::{number_list, push_number_list};
use vstd::prelude::*;

verus! {

/// Upper bound on district labels supported by the observed-district bitmask.
pub const MAX_DISTRICTS: u16 = 128;

/// Whether label `d` is in the label set `mask`.
pub open spec fn has_district(mask: u128, d: int) -> bool {
    0 <= d < 128 && mask & (1u128 << (d as u128)) != 0
}

/// Whether every label of `assignment` fits in the bitmask.
pub open spec fn within_limit(assignment: Seq<u16>) -> bool {
    forall|i: int| 0 <= i < assignment.len() ==> #[trigger] assignment[i] < MAX_DISTRICTS
}

/// Whether `mask` is exactly the set of labels that occur in `assignment`.
pub open spec fn observes(mask: u128, assignment: Seq<u16>) -> bool {
    forall|d: int| #[trigger] has_district(mask, d) <==> exists|i: int|
        0 <= i < assignment.len() && #[trigger] assignment[i] == d
}

/// Whether `r` is the report of the first label of `assignment` that does not fit.
pub open spec fn reports_first_excess(e: Error, assignment: Seq<u16>) -> bool {
    exists|i: int|
        0 <= i < assignment.len() && #[trigger] assignment[i] >= MAX_DISTRICTS && (
        forall|j: int| 0 <= j < i ==> #[trigger] assignment[j] < MAX_DISTRICTS) && e
            == (Error::DistrictLimitExceeded { id: assignment[i], limit: MAX_DISTRICTS })
}

/// No label is in the empty mask.
pub proof fn lemma_empty_mask()
    ensures
        forall|d: int| !#[trigger] has_district(0, d),
{
    assert forall|d: int| !#[trigger] has_district(0, d) by {
        let shift = d as u128;
        assert(0u128 & (1u128 << shift) == 0) by (bit_vector);
    }
}

/// Setting the bit of `d` adds `d` and nothing else.
pub proof fn lemma_set_bit(mask: u128, d: u16)
    requires
        d < MAX_DISTRICTS,
    ensures
        forall|e: int|
            #[trigger] has_district(mask | (1u128 << d), e) <==> has_district(mask, e) || e == d,
{
    assert forall|e: int|
        #[trigger] has_district(mask | (1u128 << d), e) <==> has_district(mask, e) || e == d by {
        if 0 <= e < 128 {
            let s = e as u128;
            assert(s < 128 && d < 128 ==> ((mask | (1u128 << d)) & (1u128 << s) != 0 <==> mask & (
            1u128 << s) != 0 || s == d)) by (bit_vector);
        }
    }
}

/// Clearing the bit of `d` removes `d` and nothing else.
pub proof fn lemma_clear_bit(mask: u128, d: u16)
    requires
        d < MAX_DISTRICTS,
    ensures
        forall|e: int|
            #[trigger] has_district(mask & !(1u128 << d), e) <==> has_district(mask, e) && e != d,
{
    assert forall|e: int|
        #[trigger] has_district(mask & !(1u128 << d), e) <==> has_district(mask, e) && e != d by {
        if 0 <= e < 128 {
            let s = e as u128;
            assert(s < 128 && d < 128 ==> ((mask & !(1u128 << d)) & (1u128 << s) != 0 <==> mask & (
            1u128 << s) != 0 && s != d)) by (bit_vector);
        }
    }
}

/// A mask with no label is zero.
pub proof fn lemma_no_district_is_zero(mask: u128)
    requires
        forall|d: int| !#[trigger] has_district(mask, d),
    ensures
        mask == 0,
{
    lemma_high_bits_clear(mask, 0);
    assert(mask >> 0u128 == 0 ==> mask == 0) by (bit_vector);
}

proof fn lemma_high_bits_clear(mask: u128, from: u128)
    requires
        from < 128,
        forall|d: int| !#[trigger] has_district(mask, d),
    ensures
        mask >> from == 0,
    decreases 128 - from,
{
    assert(!has_district(mask, from as int));
    if from < 127 {
        let next = (from + 1) as u128;
        lemma_high_bits_clear(mask, next);
        assert(mask >> from == 0) by (bit_vector)
            requires
                from < 127,
                next == from + 1,
                mask >> next == 0,
                mask & (1u128 << from) == 0,
        ;
    } else {
        assert(mask & (1u128 << 127u128) == 0 ==> mask >> 127u128 == 0) by (bit_vector);
    }
}

/// Two masks with the same labels are the same mask.
pub proof fn law_mask_is_its_set(a: u128, b: u128)
    requires
        forall|d: int| #[trigger] has_district(a, d) <==> has_district(b, d),
    ensures
        a == b,
{
    assert forall|d: int| !#[trigger] has_district(a ^ b, d) by {
        if 0 <= d < 128 {
            let s = d as u128;
            assert(has_district(a, d) <==> has_district(b, d));
            assert((a & (1u128 << s) != 0 <==> b & (1u128 << s) != 0) ==> (a ^ b) & (1u128 << s)
                == 0) by (bit_vector)
                requires
                    s < 128,
            ;
        }
    }
    lemma_no_district_is_zero(a ^ b);
    assert(a ^ b == 0 ==> a == b) by (bit_vector);
}

/// The difference of two masks holds the labels of the first that the second lacks.
pub proof fn law_mask_difference(a: u128, b: u128)
    ensures
        forall|d: int|
            #[trigger] has_district(a & !b, d) <==> has_district(a, d) && !has_district(b, d),
{
    assert forall|d: int|
        #[trigger] has_district(a & !b, d) <==> has_district(a, d) && !has_district(b, d) by {
        if 0 <= d < 128 {
            let s = d as u128;
            assert(s < 128 ==> ((a & !b) & (1u128 << s) != 0 <==> a & (1u128 << s) != 0 && b & (
            1u128 << s) == 0)) by (bit_vector);
        }
    }
}

/// Fold one district label into an observed bitmask.
pub fn observe_district(observed: &mut u128, district_id: u16) -> (r: Result<(), Error>)
    ensures
        r is Ok <==> district_id < MAX_DISTRICTS,
        r matches Err(e) ==> e == (Error::DistrictLimitExceeded {
            id: district_id,
            limit: MAX_DISTRICTS,
        }) && *final(observed) == *old(observed),
        r is Ok ==> forall|d: int| #[trigger]
            has_district(*final(observed), d) <==> has_district(*old(observed), d) || d
                == district_id,
        r is Ok && has_district(*old(observed), district_id as int) ==> *final(observed) == *old(
            observed,
        ),
{
    if district_id >= MAX_DISTRICTS {
        return Err(Error::DistrictLimitExceeded { id: district_id, limit: MAX_DISTRICTS });
    }
    proof {
        lemma_set_bit(*observed, district_id);
        if has_district(*observed, district_id as int) {
            law_mask_is_its_set(*observed | (1u128 << district_id), *observed);
        }
    }
    *observed = *observed | (1u128 << district_id);
    Ok(())
}

/// Whether `n` is one more than the largest label, or one where there is none.
pub open spec fn is_dense_count(n: u16, assignment: Seq<u16>) -> bool {
    &&& 1 <= n <= MAX_DISTRICTS
    &&& forall|i: int| 0 <= i < assignment.len() ==> #[trigger] assignment[i] < n
    &&& n == 1 || exists|i: int| 0 <= i < assignment.len() && #[trigger] assignment[i] + 1 == n
}

/// The dense district count and the label set of an assignment.
///
/// The count is one more than the largest label (one for an empty assignment), which is the length
/// of a table indexed by label.
pub fn observed_assignment_districts(assignment: &[u16]) -> (r: Result<(u16, u128), Error>)
    ensures
        r is Ok <==> within_limit(assignment@),
        r matches Err(e) ==> reports_first_excess(e, assignment@),
        r matches Ok((n_districts, observed)) ==> {
            &&& observes(observed, assignment@)
            &&& is_dense_count(n_districts, assignment@)
        },
{
    let mut observed: u128 = 0;
    let mut max_d: u16 = 0;
    proof {
        lemma_empty_mask();
    }
    let mut i: usize = 0;
    while i < assignment.len()
        invariant
            i <= assignment@.len(),
            max_d < MAX_DISTRICTS,
            forall|k: int| 0 <= k < i ==> #[trigger] assignment@[k] <= max_d,
            max_d == 0 || exists|k: int| 0 <= k < i && #[trigger] assignment@[k] == max_d,
            forall|d: int| #[trigger]
                has_district(observed, d) <==> exists|k: int|
                    0 <= k < i && #[trigger] assignment@[k] == d,
        decreases assignment.len() - i,
    {
        let district_id: u16 = assignment[i];
        let ghost before = observed;
        match observe_district(&mut observed, district_id) {
            Ok(()) => {},
            Err(e) => {
                assert(assignment@[i as int] >= MAX_DISTRICTS);
                return Err(e);
            },
        }
        if district_id > max_d {
            max_d = district_id;
        }
        proof {
            assert forall|d: int| #[trigger]
                has_district(observed, d) <==> exists|k: int|
                    0 <= k < i + 1 && #[trigger] assignment@[k] == d by {
                assert(has_district(observed, d) <==> has_district(before, d) || d == district_id);
                if has_district(before, d) {
                    let k = choose|k: int| 0 <= k < i && #[trigger] assignment@[k] == d;
                    assert(0 <= k < i + 1 && assignment@[k] == d);
                }
                if d == district_id {
                    assert(assignment@[i as int] == d);
                }
            }
        }
        i += 1;
    }
    Ok((max_d + 1, observed))
}

/// Whether `ids` lists the labels of `mask` in ascending order.
pub open spec fn lists_districts(ids: Seq<u16>, mask: u128) -> bool {
    &&& forall|i: int, j: int| 0 <= i < j < ids.len() ==> ids[i] < ids[j]
    &&& forall|d: int| #[trigger] has_district(mask, d) <==> exists|i: int|
        0 <= i < ids.len() && #[trigger] ids[i] == d
}

/// The labels of `mask` below `bound`, in ascending order.
pub open spec fn districts_below(mask: u128, bound: nat) -> Seq<u16>
    decreases bound,
{
    if bound == 0 {
        Seq::empty()
    } else {
        let shorter = districts_below(mask, (bound - 1) as nat);
        if has_district(mask, bound - 1) {
            shorter.push((bound - 1) as u16)
        } else {
            shorter
        }
    }
}

/// The labels of `mask` in ascending order.
pub open spec fn ascending_districts(mask: u128) -> Seq<u16> {
    districts_below(mask, 128)
}

/// The labels of a mask, read in order, are exactly the members of its set, each once.
pub proof fn law_ascending_districts_list_the_set(mask: u128)
    ensures
        lists_districts(ascending_districts(mask), mask),
{
    lemma_districts_below(mask, 128);
    assert forall|d: int| #[trigger] has_district(mask, d) implies exists|i: int|
        0 <= i < ascending_districts(mask).len() && #[trigger] ascending_districts(mask)[i] == d by {
        let i = choose|i: int|
            0 <= i < districts_below(mask, 128).len() && #[trigger] districts_below(mask, 128)[i]
                == d;
        assert(ascending_districts(mask)[i] == d);
    }
}

/// A label set holds a label exactly when its bit is set and some node has that label; labels from
/// 128 on have no bit.
pub proof fn law_observed_labels(mask: u128, assignment: Seq<u16>)
    ensures
        observes(mask, assignment) <==> (forall|i: int|
            0 <= i < assignment.len() ==> #[trigger] assignment[i] < 128) && (forall|d: u16|
            d < 128 ==> (mask & (1u128 << (d as u128)) != 0 <==> #[trigger] assignment.contains(
                d,
            ))),
{
    if observes(mask, assignment) {
        assert forall|i: int| 0 <= i < assignment.len() implies #[trigger] assignment[i] < 128 by {
            assert(has_district(mask, assignment[i] as int));
        }
        assert forall|d: u16| d < 128 implies (mask & (1u128 << (d as u128)) != 0
            <==> #[trigger] assignment.contains(d)) by {
            assert(d as int as u128 == d as u128);
            assert(has_district(mask, d as int) <==> exists|i: int|
                0 <= i < assignment.len() && #[trigger] assignment[i] == d as int);
            if has_district(mask, d as int) {
                let i = choose|i: int|
                    0 <= i < assignment.len() && #[trigger] assignment[i] == d as int;
                assert(assignment[i] == d);
            }
            if assignment.contains(d) {
                let i = choose|i: int| 0 <= i < assignment.len() && assignment[i] == d;
                assert(assignment[i] == d as int);
            }
        }
    }
    if (forall|i: int| 0 <= i < assignment.len() ==> #[trigger] assignment[i] < 128) && (forall|
        d: u16,
    |
        d < 128 ==> (mask & (1u128 << (d as u128)) != 0 <==> #[trigger] assignment.contains(d))) {
        assert forall|d: int| #[trigger] has_district(mask, d) <==> exists|i: int|
            0 <= i < assignment.len() && #[trigger] assignment[i] == d by {
            if 0 <= d < 128 {
                let label = d as u16;
                assert(label as u128 == d as u128);
                if assignment.contains(label) {
                    let i = choose|i: int| 0 <= i < assignment.len() && assignment[i] == label;
                    assert(assignment[i] == d);
                }
                if exists|i: int| 0 <= i < assignment.len() && #[trigger] assignment[i] == d {
                    let i = choose|i: int| 0 <= i < assignment.len() && #[trigger] assignment[i] == d;
                    assert(assignment[i] == label);
                    assert(assignment.contains(label));
                }
            }
        }
    }
}

/// An assignment is within the limit exactly when every label is below 128.
pub proof fn law_limit(assignment: Seq<u16>)
    ensures
        MAX_DISTRICTS == 128,
        within_limit(assignment) <==> forall|i: int|
            0 <= i < assignment.len() ==> #[trigger] assignment[i] < 128,
{
}

/// The dense district count is the largest label plus one, and one where there is no label.
pub proof fn law_dense_count(n: u16, assignment: Seq<u16>)
    requires
        within_limit(assignment),
    ensures
        is_dense_count(n, assignment) <==> if assignment.len() == 0 {
            n == 1
        } else {
            n >= 1 && assignment.contains((n - 1) as u16) && forall|i: int|
                0 <= i < assignment.len() ==> #[trigger] assignment[i] < n
        },
{
    if assignment.len() > 0 {
        assert(assignment[0] < 128);
        if is_dense_count(n, assignment) {
            assert(assignment[0] < n);
            if n == 1 {
                assert(assignment[0] == 0);
                assert(assignment.contains(0u16));
            } else {
                let i = choose|i: int| 0 <= i < assignment.len() && #[trigger] assignment[i] + 1 == n;
                assert(assignment[i] == (n - 1) as u16);
            }
        }
        if n >= 1 && assignment.contains((n - 1) as u16) {
            let i = choose|i: int| 0 <= i < assignment.len() && assignment[i] == (n - 1) as u16;
            assert(assignment[i] + 1 == n);
        }
    }
}

/// The labels of a mask come in ascending order, and a label is listed exactly when its bit is set.
pub proof fn law_listed_labels(mask: u128)
    ensures
        forall|i: int, j: int|
            0 <= i < j < ascending_districts(mask).len() ==> #[trigger] ascending_districts(mask)[i]
                < #[trigger] ascending_districts(mask)[j],
        forall|d: u16| #[trigger]
            ascending_districts(mask).contains(d) <==> d < 128 && mask & (1u128 << (d as u128))
                != 0,
{
    law_ascending_districts_list_the_set(mask);
    let ids = ascending_districts(mask);
    assert forall|d: u16| #[trigger] ids.contains(d) <==> d < 128 && mask & (1u128 << (d as u128))
        != 0 by {
        assert(d as int as u128 == d as u128);
        if ids.contains(d) {
            let i = choose|i: int| 0 <= i < ids.len() && ids[i] == d;
            assert(ids[i] == d as int);
            assert(has_district(mask, d as int));
        }
        if has_district(mask, d as int) {
            let i = choose|i: int| 0 <= i < ids.len() && #[trigger] ids[i] == d as int;
            assert(ids[i] == d);
        }
    }
}

proof fn lemma_districts_below(mask: u128, bound: nat)
    requires
        bound <= 128,
    ensures
        districts_below(mask, bound).len() <= bound,
        forall|i: int, j: int|
            0 <= i < j < districts_below(mask, bound).len() ==> districts_below(mask, bound)[i]
                < districts_below(mask, bound)[j],
        forall|i: int|
            0 <= i < districts_below(mask, bound).len() ==> #[trigger] districts_below(
                mask,
                bound,
            )[i] < bound && has_district(mask, districts_below(mask, bound)[i] as int),
        forall|d: int|
            0 <= d < bound && #[trigger] has_district(mask, d) ==> exists|i: int|
                0 <= i < districts_below(mask, bound).len() && #[trigger] districts_below(
                    mask,
                    bound,
                )[i] == d,
    decreases bound,
{
    if bound > 0 {
        let shorter = districts_below(mask, (bound - 1) as nat);
        lemma_districts_below(mask, (bound - 1) as nat);
        let all = districts_below(mask, bound);
        assert forall|d: int| 0 <= d < bound && #[trigger] has_district(mask, d) implies exists|
            i: int,
        |
            0 <= i < all.len() && #[trigger] all[i] == d by {
            if d < bound - 1 {
                let i = choose|i: int| 0 <= i < shorter.len() && #[trigger] shorter[i] == d;
                assert(all[i] == d);
            } else {
                assert(all[all.len() - 1] == d);
            }
        }
    }
}

/// The labels of `mask` in ascending order.
pub fn sorted_district_ids(mask: u128) -> (r: Vec<u16>)
    ensures
        r@ == ascending_districts(mask),
        lists_districts(r@, mask),
{
    let mut out: Vec<u16> = Vec::new();
    let mut d: u16 = 0;
    while d < MAX_DISTRICTS
        invariant
            d <= 128,
            out@ == districts_below(mask, d as nat),
        decreases 128 - d,
    {
        assert(1u128 << d == 1u128 << (d as u128)) by (bit_vector);
        if mask & (1u128 << d) != 0 {
            out.push(d);
        }
        d += 1;
    }
    proof {
        law_ascending_districts_list_the_set(mask);
    }
    out
}

/// What is said of a district-set change: the labels that a plan has and the first one lacks, those
/// that the first one has and the plan lacks, and what the labels are needed for.
pub proof fn law_district_set_changed_text(observed: u128, expected: u128, output_name: Seq<char>)
    ensures
        ({
            let added = number_list(ascending_districts(observed & !expected));
            let dropped = number_list(ascending_districts(expected & !observed));
            let rest = "; every plan in the ensemble must use the same district labels to stream "@
                + output_name + " output with a fixed schema"@;
            let text = district_set_changed_text(observed, expected, output_name);
            &&& observed & !expected != 0 && expected & !observed == 0 ==> text
                == "encountered districts "@ + added + " not present in first assignment"@ + rest
            &&& observed & !expected == 0 ==> text == "districts "@ + dropped
                + " from the first assignment are missing from a later plan"@ + rest
            &&& observed & !expected != 0 && expected & !observed != 0 ==> text
                == "encountered districts "@ + added + " not present in first assignment"@ + "; "@
                + ("districts "@ + dropped
                + " from the first assignment are missing from a later plan"@) + rest
        }),
{
    let added = number_list(ascending_districts(observed & !expected));
    let dropped = number_list(ascending_districts(expected & !observed));
    let rest = "; every plan in the ensemble must use the same district labels to stream "@
        + output_name + " output with a fixed schema"@;
    let text = district_set_changed_text(observed, expected, output_name);
    if observed & !expected != 0 && expected & !observed == 0 {
        assert(text =~= "encountered districts "@ + added + " not present in first assignment"@
            + rest);
    }
    if observed & !expected == 0 {
        assert(text =~= "districts "@ + dropped
            + " from the first assignment are missing from a later plan"@ + rest);
    }
    if observed & !expected != 0 && expected & !observed != 0 {
        assert(text =~= "encountered districts "@ + added + " not present in first assignment"@
            + "; "@ + ("districts "@ + dropped
            + " from the first assignment are missing from a later plan"@) + rest);
    }
}

/// The explanation of a district-set change: which labels were added, which were dropped.
pub open spec fn district_set_changed_text(
    observed: u128,
    expected: u128,
    output_name: Seq<char>,
) -> Seq<char> {
    let added = observed & !expected;
    let dropped = expected & !observed;
    let added_part = "encountered districts "@ + number_list(ascending_districts(added))
        + " not present in first assignment"@;
    let dropped_part = "districts "@ + number_list(ascending_districts(dropped))
        + " from the first assignment are missing from a later plan"@;
    let parts = if added != 0 && dropped != 0 {
        added_part + "; "@ + dropped_part
    } else if added != 0 {
        added_part
    } else {
        dropped_part
    };
    parts
        + "; every plan in the ensemble must use the same district labels to stream "@
        + output_name + " output with a fixed schema"@
}

/// Check that a plan uses exactly the district labels of the first plan.
///
/// The per-district output schema is fixed from the first plan, so a label added or dropped later
/// is an error in either direction.
pub fn validate_district_set_unchanged(
    observed: u128,
    expected: u128,
    output_name: &str,
) -> (r: Result<(), Error>)
    ensures
        r is Ok <==> observed == expected,
        r matches Err(e) ==> e matches Error::DistrictSetChanged(message) && message@
            == district_set_changed_text(observed, expected, output_name@),
{
    if observed == expected {
        return Ok(());
    }
    let unseen: u128 = observed & !expected;
    let missing: u128 = expected & !observed;
    let mut message = String::new();
    if unseen != 0 {
        message = "encountered districts ".to_owned();
        push_number_list(&mut message, &sorted_district_ids(unseen));
        message.append(" not present in first assignment");
    }
    if missing != 0 {
        if unseen != 0 {
            message.append("; ");
        }
        let mut part = "districts ".to_owned();
        push_number_list(&mut part, &sorted_district_ids(missing));
        part.append(" from the first assignment are missing from a later plan");
        message.append(part.as_str());
    }
    assert(unseen != 0 || missing != 0) by {
        assert(observed & !expected == 0 && expected & !observed == 0 ==> observed == expected)
            by (bit_vector);
    }
    message.append("; every plan in the ensemble must use the same district labels to stream ");
    message.append(output_name);
    message.append(" output with a fixed schema");
    Err(Error::DistrictSetChanged(message))
}

/// Whether a plan uses exactly the district labels of the first plan: a caller fails on `false`.
/// What to report then, [`validate_district_set_unchanged`] gives.
pub fn assert_district_set_unchanged(observed: u128, expected: u128, output_name: &str) -> (r: bool)
    ensures
        r <==> observed == expected,
{
    match validate_district_set_unchanged(observed, expected, output_name) {
        Ok(()) => true,
        Err(_) => false,
    }
}

/// An excess is reported of the first label from 128 on.
pub proof fn law_reports_first_excess(e: Error, assignment: Seq<u16>, i: int)
    requires
        0 <= i < assignment.len(),
        assignment[i] >= 128,
        forall|j: int| 0 <= j < i ==> #[trigger] assignment[j] < 128,
    ensures
        reports_first_excess(e, assignment) <==> e == (Error::DistrictLimitExceeded {
            id: assignment[i],
            limit: 128,
        }),
{
    if reports_first_excess(e, assignment) {
        let k = choose|k: int|
            0 <= k < assignment.len() && #[trigger] assignment[k] >= MAX_DISTRICTS && (forall|
                j: int,
            |
                0 <= j < k ==> #[trigger] assignment[j] < MAX_DISTRICTS) && e
                == (Error::DistrictLimitExceeded { id: assignment[k], limit: MAX_DISTRICTS });
        if k < i {
            assert(assignment[k] < 128);
        }
        if i < k {
            assert(assignment[i] < MAX_DISTRICTS);
        }
    }
}

} // verus!
