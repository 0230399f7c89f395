//! Region splits and pieces.
//!
//! A region is split when its nodes lie in more than one district; its pieces are the districts
//! that it touches. Both are counted over all regions of a key, for one plan at a time
//! ([`region_metric_for_key`]) or along a chain of plans ([`IncrementalRegionMetrics`]).
use crate::district::{within_limit, MAX_DISTRICTS};
use crate::error::Error;
use crate::graph::Graph;
use crate::metrics::counts::{indices, law_indices};
use crate::metrics::twodelta::{
    applicable, applied, lemma_applicable_at, DeltaChange, DistrictPresence,
    IncrementalTwoDeltaMetric,
};
use vstd::prelude::*;

verus! {

/// Which of the two counts is wanted.
#[derive(Clone, Copy, PartialEq, Eq, Structural, Debug)]
pub enum RegionMetric {
    Splits,
    Pieces,
}

// ---------------------------------------------------------------------------------------------
// The counts
// ---------------------------------------------------------------------------------------------

/// The region and district of every node; `None` for a node without a region.
pub open spec fn region_pairs(column: Seq<Option<u32>>, assignment: Seq<u16>) -> Seq<
    Option<(u32, u16)>,
> {
    Seq::new(
        column.len(),
        |i: int|
            match column[i] {
                Some(region) => Some((region, assignment[i])),
                None => None,
            },
    )
}

/// The districts that a region touches.
pub open spec fn touched(pairs: Seq<Option<(u32, u16)>>, region: int) -> Set<int> {
    Set::new(
        |d: int|
            exists|i: int|
                0 <= i < pairs.len() && (#[trigger] pairs[i] matches Some(p) && p.0 == region
                    && p.1 == d),
    )
}

/// How many districts each of the regions touches.
pub open spec fn touch_counts(pairs: Seq<Option<(u32, u16)>>, n_regions: nat) -> Seq<nat> {
    Seq::new(n_regions, |r: int| touched(pairs, r).len())
}

/// The sum of `sizes`.
pub open spec fn total(sizes: Seq<nat>) -> nat
    decreases sizes.len(),
{
    if sizes.len() == 0 {
        0
    } else {
        total(sizes.drop_last()) + sizes.last()
    }
}

/// How many of `sizes` are above one.
pub open spec fn above_one(sizes: Seq<nat>) -> nat
    decreases sizes.len(),
{
    if sizes.len() == 0 {
        0
    } else {
        above_one(sizes.drop_last()) + if sizes.last() > 1 {
            1nat
        } else {
            0nat
        }
    }
}

/// The metric of a plan: how many regions touch more than one district, or how many districts the
/// regions touch in all.
pub open spec fn region_value(
    pairs: Seq<Option<(u32, u16)>>,
    n_regions: nat,
    metric: RegionMetric,
) -> nat {
    match metric {
        RegionMetric::Splits => above_one(touch_counts(pairs, n_regions)),
        RegionMetric::Pieces => total(touch_counts(pairs, n_regions)),
    }
}

proof fn lemma_total_update(sizes: Seq<nat>, i: int, x: nat)
    requires
        0 <= i < sizes.len(),
    ensures
        total(sizes.update(i, x)) + sizes[i] == total(sizes) + x,
    decreases sizes.len(),
{
    let changed = sizes.update(i, x);
    if i < sizes.len() - 1 {
        assert(changed.drop_last() =~= sizes.drop_last().update(i, x));
        lemma_total_update(sizes.drop_last(), i, x);
    } else {
        assert(changed.drop_last() =~= sizes.drop_last());
    }
}

proof fn lemma_above_one_update(sizes: Seq<nat>, i: int, x: nat)
    requires
        0 <= i < sizes.len(),
    ensures
        above_one(sizes.update(i, x)) + (if sizes[i] > 1 {
            1nat
        } else {
            0nat
        }) == above_one(sizes) + (if x > 1 {
            1nat
        } else {
            0nat
        }),
        above_one(sizes) <= sizes.len(),
        sizes[i] <= 1 ==> above_one(sizes) < sizes.len(),
    decreases sizes.len(),
{
    lemma_above_one_bound(sizes.drop_last());
    let changed = sizes.update(i, x);
    if i < sizes.len() - 1 {
        assert(changed.drop_last() =~= sizes.drop_last().update(i, x));
        lemma_above_one_update(sizes.drop_last(), i, x);
    } else {
        assert(changed.drop_last() =~= sizes.drop_last());
    }
}

proof fn lemma_above_one_bound(sizes: Seq<nat>)
    ensures
        above_one(sizes) <= sizes.len(),
    decreases sizes.len(),
{
    if sizes.len() > 0 {
        lemma_above_one_bound(sizes.drop_last());
    }
}

proof fn lemma_all_zero(sizes: Seq<nat>)
    requires
        forall|i: int| 0 <= i < sizes.len() ==> #[trigger] sizes[i] == 0,
    ensures
        total(sizes) == 0,
        above_one(sizes) == 0,
    decreases sizes.len(),
{
    if sizes.len() > 0 {
        lemma_all_zero(sizes.drop_last());
    }
}

/// A region touches finitely many districts.
proof fn lemma_touched_finite(pairs: Seq<Option<(u32, u16)>>, region: int)
    ensures
        touched(pairs, region).finite(),
{
    let bound = vstd::set_lib::set_int_range(0, 0x1_0000);
    vstd::set_lib::lemma_int_range(0, 0x1_0000);
    assert(touched(pairs, region).subset_of(bound));
    vstd::set_lib::lemma_set_subset_finite(bound, touched(pairs, region));
}

/// Giving a node a region and a district adds one district to that region's, and touches no other
/// region.
proof fn lemma_touched_fill(pairs: Seq<Option<(u32, u16)>>, node: int, region: u32, district: u16)
    requires
        0 <= node < pairs.len(),
        pairs[node] is None,
    ensures
        forall|r: int|
            #![trigger touched(pairs.update(node, Some((region, district))), r)]
            touched(pairs.update(node, Some((region, district))), r) == (if r == region {
                touched(pairs, r).insert(district as int)
            } else {
                touched(pairs, r)
            }),
{
    let filled = pairs.update(node, Some((region, district)));
    assert forall|r: int| #![trigger touched(filled, r)] touched(filled, r) == (if r == region {
        touched(pairs, r).insert(district as int)
    } else {
        touched(pairs, r)
    }) by {
        let after = if r == region {
            touched(pairs, r).insert(district as int)
        } else {
            touched(pairs, r)
        };
        assert forall|d: int| touched(filled, r).contains(d) <==> after.contains(d) by {
            if touched(pairs, r).contains(d) {
                let i = choose|i: int|
                    0 <= i < pairs.len() && (#[trigger] pairs[i] matches Some(p) && p.0 == r && p.1
                        == d);
                assert(filled[i] == pairs[i]);
            }
            if touched(filled, r).contains(d) {
                let i = choose|i: int|
                    0 <= i < filled.len() && (#[trigger] filled[i] matches Some(p) && p.0 == r
                        && p.1 == d);
                if i != node {
                    assert(pairs[i] == filled[i]);
                }
            }
            if r == region && d == district {
                assert(filled[node] matches Some(p) && p.0 == r && p.1 == d);
            }
        }
        assert(touched(filled, r) =~= after);
    }
}

/// The touch counts after a node gets a region and a district.
proof fn lemma_counts_fill(
    pairs: Seq<Option<(u32, u16)>>,
    n_regions: nat,
    node: int,
    region: u32,
    district: u16,
)
    requires
        0 <= node < pairs.len(),
        pairs[node] is None,
        region < n_regions,
    ensures
        touch_counts(pairs.update(node, Some((region, district))), n_regions) == touch_counts(
            pairs,
            n_regions,
        ).update(
            region as int,
            if touched(pairs, region as int).contains(district as int) {
                touched(pairs, region as int).len()
            } else {
                touched(pairs, region as int).len() + 1
            },
        ),
{
    lemma_touched_fill(pairs, node, region, district);
    lemma_touched_finite(pairs, region as int);
    let filled = pairs.update(node, Some((region, district)));
    let before = touched(pairs, region as int);
    if before.contains(district as int) {
        assert(before.insert(district as int) =~= before);
    }
    assert(touched(filled, region as int) == before.insert(district as int));
    assert(touch_counts(filled, n_regions) =~= touch_counts(pairs, n_regions).update(
        region as int,
        if before.contains(district as int) {
            before.len()
        } else {
            before.len() + 1
        },
    ));
}

/// How many nodes have a region.
pub open spec fn filled_among(pairs: Seq<Option<(u32, u16)>>) -> nat
    decreases pairs.len(),
{
    if pairs.len() == 0 {
        0
    } else {
        filled_among(pairs.drop_last()) + if pairs.last() is Some {
            1nat
        } else {
            0nat
        }
    }
}

proof fn lemma_filled_update(pairs: Seq<Option<(u32, u16)>>, i: int, x: Option<(u32, u16)>)
    requires
        0 <= i < pairs.len(),
    ensures
        filled_among(pairs.update(i, x)) + (if pairs[i] is Some {
            1nat
        } else {
            0nat
        }) == filled_among(pairs) + (if x is Some {
            1nat
        } else {
            0nat
        }),
        filled_among(pairs) <= pairs.len(),
        pairs[i] is None ==> filled_among(pairs) < pairs.len(),
    decreases pairs.len(),
{
    lemma_filled_bound(pairs.drop_last());
    let changed = pairs.update(i, x);
    if i < pairs.len() - 1 {
        assert(changed.drop_last() =~= pairs.drop_last().update(i, x));
        lemma_filled_update(pairs.drop_last(), i, x);
    } else {
        assert(changed.drop_last() =~= pairs.drop_last());
    }
}

proof fn lemma_filled_bound(pairs: Seq<Option<(u32, u16)>>)
    ensures
        filled_among(pairs) <= pairs.len(),
        filled_among(pairs) > 0 ==> exists|i: int|
            0 <= i < pairs.len() && #[trigger] pairs[i] is Some,
    decreases pairs.len(),
{
    if pairs.len() > 0 {
        let shorter = pairs.drop_last();
        lemma_filled_bound(shorter);
        if filled_among(shorter) > 0 {
            let i = choose|i: int| 0 <= i < shorter.len() && #[trigger] shorter[i] is Some;
            assert(pairs[i] is Some);
        } else if pairs.last() is Some {
            assert(pairs[pairs.len() - 1] is Some);
        }
    }
}

/// A plan has no more pieces than nodes with a region, and no more splits than regions; a split
/// region has at least two pieces.
pub proof fn law_value_bounds(pairs: Seq<Option<(u32, u16)>>, n_regions: nat)
    requires
        forall|i: int| 0 <= i < pairs.len() ==> (#[trigger] pairs[i] matches Some(p) ==> p.0 < n_regions),
    ensures
        region_value(pairs, n_regions, RegionMetric::Pieces) <= filled_among(pairs),
        region_value(pairs, n_regions, RegionMetric::Splits) <= n_regions,
        2 * region_value(pairs, n_regions, RegionMetric::Splits) <= region_value(
            pairs,
            n_regions,
            RegionMetric::Pieces,
        ),
    decreases filled_among(pairs),
{
    lemma_above_one_bound(touch_counts(pairs, n_regions));
    lemma_twice_above_one(touch_counts(pairs, n_regions));
    lemma_filled_bound(pairs);
    if filled_among(pairs) > 0 {
        let i = choose|i: int| 0 <= i < pairs.len() && #[trigger] pairs[i] is Some;
        let (region, district) = pairs[i]->0;
        let rest = pairs.update(i, None);
        lemma_filled_update(pairs, i, None);
        assert forall|k: int| 0 <= k < rest.len() implies (#[trigger] rest[k] matches Some(p)
            ==> p.0 < n_regions) by {
            if k != i {
                assert(rest[k] == pairs[k]);
            }
        }
        law_value_bounds(rest, n_regions);
        assert(rest.update(i, Some((region, district))) =~= pairs);
        lemma_counts_fill(rest, n_regions, i, region, district);
        let x = touch_counts(pairs, n_regions)[region as int];
        lemma_total_update(touch_counts(rest, n_regions), region as int, x);
    } else {
        assert forall|r: int| 0 <= r < n_regions implies #[trigger] touch_counts(
            pairs,
            n_regions,
        )[r] == 0 by {
            assert forall|d: int| !touched(pairs, r).contains(d) by {
                if touched(pairs, r).contains(d) {
                    let i = choose|i: int|
                        0 <= i < pairs.len() && (#[trigger] pairs[i] matches Some(p) && p.0 == r
                            && p.1 == d);
                    lemma_filled_update(pairs, i, None);
                }
            }
            assert(touched(pairs, r) =~= Set::empty());
        }
        lemma_all_zero(touch_counts(pairs, n_regions));
    }
}

proof fn lemma_twice_above_one(sizes: Seq<nat>)
    ensures
        2 * above_one(sizes) <= total(sizes),
    decreases sizes.len(),
{
    if sizes.len() > 0 {
        lemma_twice_above_one(sizes.drop_last());
    }
}

/// A set of districts has more than one member exactly when it has two different ones.
proof fn lemma_more_than_one(set: Set<int>)
    requires
        set.finite(),
    ensures
        set.len() > 1 <==> exists|c: int, d: int|
            #![trigger set.contains(c), set.contains(d)]
            set.contains(c) && set.contains(d) && c != d,
{
    if set.len() > 1 {
        let c = set.choose();
        let rest = set.remove(c);
        assert(rest.len() > 0);
        let d = rest.choose();
        assert(rest.contains(d));
        assert(set.contains(c) && set.contains(d) && c != d);
    }
    if exists|c: int, d: int|
        #![trigger set.contains(c), set.contains(d)]
        set.contains(c) && set.contains(d) && c != d {
        let (c, d) = choose|c: int, d: int|
            #![trigger set.contains(c), set.contains(d)]
            set.contains(c) && set.contains(d) && c != d;
        let rest = set.remove(c);
        assert(rest.contains(d));
        assert(rest.remove(d).len() + 1 == rest.len());
    }
}

proof fn lemma_above_one_count(sizes: Seq<nat>)
    ensures
        above_one(sizes) == indices(sizes.len() as int, |r: int| sizes[r] > 1).len(),
    decreases sizes.len(),
{
    let big = |r: int| sizes[r] > 1;
    law_indices(0, big);
    if sizes.len() > 0 {
        let shorter = sizes.drop_last();
        lemma_above_one_count(shorter);
        law_indices(sizes.len() - 1, big);
        assert(indices(sizes.len() - 1, big) =~= indices(
            shorter.len() as int,
            |r: int| shorter[r] > 1,
        ));
    }
}

/// The splits of a plan are the regions with two nodes in different districts, each counted once.
pub proof fn law_splits_are_the_divided_regions(pairs: Seq<Option<(u32, u16)>>, n_regions: nat)
    ensures
        region_value(pairs, n_regions, RegionMetric::Splits) == Set::new(
            |r: int|
                0 <= r < n_regions && exists|i: int, j: int|
                    #![trigger pairs[i], pairs[j]]
                    0 <= i < pairs.len() && 0 <= j < pairs.len() && pairs[i] is Some && pairs[j]
                        is Some && (pairs[i]->0).0 == r && (pairs[j]->0).0 == r && (pairs[i]->0).1
                        != (pairs[j]->0).1,
        ).len(),
{
    let sizes = touch_counts(pairs, n_regions);
    let big = |r: int| sizes[r] > 1;
    let divided = Set::new(
        |r: int|
            0 <= r < n_regions && exists|i: int, j: int|
                #![trigger pairs[i], pairs[j]]
                0 <= i < pairs.len() && 0 <= j < pairs.len() && pairs[i] is Some && pairs[j]
                    is Some && (pairs[i]->0).0 == r && (pairs[j]->0).0 == r && (pairs[i]->0).1
                    != (pairs[j]->0).1,
    );
    lemma_above_one_count(sizes);
    assert forall|r: int| divided.contains(r) <==> indices(n_regions as int, big).contains(r) by {
        let set = touched(pairs, r);
        lemma_touched_finite(pairs, r);
        lemma_more_than_one(set);
        if 0 <= r < n_regions && big(r) {
            let (c, d) = choose|c: int, d: int|
                #![trigger set.contains(c), set.contains(d)]
                set.contains(c) && set.contains(d) && c != d;
            let i = choose|i: int|
                0 <= i < pairs.len() && (#[trigger] pairs[i] matches Some(p) && p.0 == r && p.1
                    == c);
            let j = choose|i: int|
                0 <= i < pairs.len() && (#[trigger] pairs[i] matches Some(p) && p.0 == r && p.1
                    == d);
            assert((pairs[i]->0).1 != (pairs[j]->0).1);
        }
        if divided.contains(r) {
            let (i, j) = choose|i: int, j: int|
                #![trigger pairs[i], pairs[j]]
                0 <= i < pairs.len() && 0 <= j < pairs.len() && pairs[i] is Some && pairs[j]
                    is Some && (pairs[i]->0).0 == r && (pairs[j]->0).0 == r && (pairs[i]->0).1
                    != (pairs[j]->0).1;
            assert(pairs[i] matches Some(p) && p.0 == r && p.1 == (pairs[i]->0).1);
            assert(pairs[j] matches Some(p) && p.0 == r && p.1 == (pairs[j]->0).1);
            assert(set.contains((pairs[i]->0).1 as int));
            assert(set.contains((pairs[j]->0).1 as int));
        }
    }
    assert(divided =~= indices(n_regions as int, big));
}

/// The pieces of a plan are the pairs of a region and a district that share a node, each counted
/// once.
pub proof fn law_pieces_are_the_shared_pairs(pairs: Seq<Option<(u32, u16)>>, n_regions: nat)
    ensures
        region_value(pairs, n_regions, RegionMetric::Pieces) == Set::new(
            |p: (int, int)|
                0 <= p.0 < n_regions && exists|i: int|
                    0 <= i < pairs.len() && (#[trigger] pairs[i] is Some && (pairs[i]->0).0 == p.0
                        && (pairs[i]->0).1 == p.1),
        ).len(),
        Set::new(
            |p: (int, int)|
                0 <= p.0 < n_regions && exists|i: int|
                    0 <= i < pairs.len() && (#[trigger] pairs[i] is Some && (pairs[i]->0).0 == p.0
                        && (pairs[i]->0).1 == p.1),
        ).finite(),
    decreases n_regions,
{
    let shared = Set::new(
        |p: (int, int)|
            0 <= p.0 < n_regions && exists|i: int|
                0 <= i < pairs.len() && (#[trigger] pairs[i] is Some && (pairs[i]->0).0 == p.0
                    && (pairs[i]->0).1 == p.1),
    );
    if n_regions == 0 {
        assert(shared =~= Set::empty());
    } else {
        let n = (n_regions - 1) as nat;
        let last = n as int;
        law_pieces_are_the_shared_pairs(pairs, n);
        let before = Set::new(
            |p: (int, int)|
                0 <= p.0 < n && exists|i: int|
                    0 <= i < pairs.len() && (#[trigger] pairs[i] is Some && (pairs[i]->0).0 == p.0
                        && (pairs[i]->0).1 == p.1),
        );
        let districts = touched(pairs, last);
        lemma_touched_finite(pairs, last);
        let tag = |d: int| (last, d);
        let added = districts.map(tag);
        vstd::set_lib::lemma_map_size(districts, added, tag);
        districts.lemma_map_finite(tag);
        assert forall|p: (int, int)| shared.contains(p) <==> (before + added).contains(p) by {
            if shared.contains(p) && p.0 == last {
                let i = choose|i: int|
                    0 <= i < pairs.len() && (#[trigger] pairs[i] is Some && (pairs[i]->0).0 == p.0
                        && (pairs[i]->0).1 == p.1);
                assert(pairs[i] matches Some(q) && q.0 == last && q.1 == p.1);
                assert(districts.contains(p.1) && tag(p.1) == p);
            }
            if added.contains(p) {
                let d = choose|d: int| districts.contains(d) && tag(d) == p;
                let i = choose|i: int|
                    0 <= i < pairs.len() && (#[trigger] pairs[i] matches Some(q) && q.0 == last
                        && q.1 == d);
                assert(pairs[i] is Some && (pairs[i]->0).0 == p.0 && (pairs[i]->0).1 == p.1);
            }
        }
        assert(shared =~= before + added);
        assert(before.disjoint(added));
        vstd::set_lib::lemma_set_disjoint_lens(before, added);
        assert(touch_counts(pairs, n_regions).drop_last() =~= touch_counts(pairs, n));
    }
}

/// The two metrics of a plan, read off the region column and the plan: the splits are the regions
/// with two nodes that the plan labels differently, the pieces are the pairs of a region and a
/// label that occur at one node.
pub proof fn law_region_values_of_a_plan(
    column: Seq<Option<u32>>,
    assignment: Seq<u16>,
    n_regions: nat,
)
    requires
        assignment.len() == column.len(),
    ensures
        region_value(region_pairs(column, assignment), n_regions, RegionMetric::Splits)
            == Set::new(
            |r: int|
                0 <= r < n_regions && exists|i: int, j: int|
                    #![trigger column[i], column[j]]
                    0 <= i < column.len() && 0 <= j < column.len() && column[i] is Some
                        && column[j] is Some && column[i]->0 == r && column[j]->0 == r
                        && assignment[i] != assignment[j],
        ).len(),
        region_value(region_pairs(column, assignment), n_regions, RegionMetric::Pieces)
            == Set::new(
            |p: (int, int)|
                0 <= p.0 < n_regions && exists|i: int|
                    0 <= i < column.len() && (#[trigger] column[i] is Some && column[i]->0 == p.0
                        && assignment[i] == p.1),
        ).len(),
{
    let pairs = region_pairs(column, assignment);
    law_splits_are_the_divided_regions(pairs, n_regions);
    law_pieces_are_the_shared_pairs(pairs, n_regions);
    let divided = Set::new(
        |r: int|
            0 <= r < n_regions && exists|i: int, j: int|
                #![trigger pairs[i], pairs[j]]
                0 <= i < pairs.len() && 0 <= j < pairs.len() && pairs[i] is Some && pairs[j]
                    is Some && (pairs[i]->0).0 == r && (pairs[j]->0).0 == r && (pairs[i]->0).1
                    != (pairs[j]->0).1,
    );
    let split = Set::new(
        |r: int|
            0 <= r < n_regions && exists|i: int, j: int|
                #![trigger column[i], column[j]]
                0 <= i < column.len() && 0 <= j < column.len() && column[i] is Some && column[j]
                    is Some && column[i]->0 == r && column[j]->0 == r && assignment[i]
                    != assignment[j],
    );
    assert forall|r: int| divided.contains(r) <==> split.contains(r) by {
        if divided.contains(r) {
            let (i, j) = choose|i: int, j: int|
                #![trigger pairs[i], pairs[j]]
                0 <= i < pairs.len() && 0 <= j < pairs.len() && pairs[i] is Some && pairs[j]
                    is Some && (pairs[i]->0).0 == r && (pairs[j]->0).0 == r && (pairs[i]->0).1
                    != (pairs[j]->0).1;
            assert(column[i] is Some && column[j] is Some);
        }
        if split.contains(r) {
            let (i, j) = choose|i: int, j: int|
                #![trigger column[i], column[j]]
                0 <= i < column.len() && 0 <= j < column.len() && column[i] is Some && column[j]
                    is Some && column[i]->0 == r && column[j]->0 == r && assignment[i]
                    != assignment[j];
            assert(pairs[i] is Some && pairs[j] is Some);
        }
    }
    assert(divided =~= split);
    let shared = Set::new(
        |p: (int, int)|
            0 <= p.0 < n_regions && exists|i: int|
                0 <= i < pairs.len() && (#[trigger] pairs[i] is Some && (pairs[i]->0).0 == p.0
                    && (pairs[i]->0).1 == p.1),
    );
    let touching = Set::new(
        |p: (int, int)|
            0 <= p.0 < n_regions && exists|i: int|
                0 <= i < column.len() && (#[trigger] column[i] is Some && column[i]->0 == p.0
                    && assignment[i] == p.1),
    );
    assert forall|p: (int, int)| shared.contains(p) <==> touching.contains(p) by {
        if shared.contains(p) {
            let i = choose|i: int|
                0 <= i < pairs.len() && (#[trigger] pairs[i] is Some && (pairs[i]->0).0 == p.0
                    && (pairs[i]->0).1 == p.1);
            assert(column[i] is Some);
        }
        if touching.contains(p) {
            let i = choose|i: int|
                0 <= i < column.len() && (#[trigger] column[i] is Some && column[i]->0 == p.0
                    && assignment[i] == p.1);
            assert(pairs[i] is Some);
        }
    }
    assert(shared =~= touching);
}

/// Both counts only depend on which nodes share a district, not on the labels: renaming the
/// districts one-to-one changes neither.
pub proof fn law_region_value_is_label_invariant(
    column: Seq<Option<u32>>,
    assignment: Seq<u16>,
    rename: spec_fn(u16) -> u16,
    n_regions: nat,
    metric: RegionMetric,
)
    requires
        assignment.len() == column.len(),
        forall|a: u16, b: u16| #![trigger rename(a), rename(b)] rename(a) == rename(b) ==> a == b,
    ensures
        region_value(
            region_pairs(column, assignment.map_values(rename)),
            n_regions,
            metric,
        ) == region_value(region_pairs(column, assignment), n_regions, metric),
{
    let before = region_pairs(column, assignment);
    let after = region_pairs(column, assignment.map_values(rename));
    assert forall|r: int| 0 <= r < n_regions implies touched(after, r).len() == touched(
        before,
        r,
    ).len() by {
        lemma_touched_finite(before, r);
        let f = |d: int| rename(d as u16) as int;
        let image = touched(before, r).map(f);
        assert forall|d: int| touched(after, r).contains(d) <==> image.contains(d) by {
            if touched(after, r).contains(d) {
                let i = choose|i: int|
                    0 <= i < after.len() && (#[trigger] after[i] matches Some(p) && p.0 == r && p.1
                        == d);
                assert(before[i] matches Some(p) && p.0 == r && p.1 == assignment[i]);
                assert(touched(before, r).contains(assignment[i] as int));
                assert(f(assignment[i] as int) == d);
            }
            if image.contains(d) {
                let e = choose|e: int| touched(before, r).contains(e) && f(e) == d;
                let i = choose|i: int|
                    0 <= i < before.len() && (#[trigger] before[i] matches Some(p) && p.0 == r
                        && p.1 == e);
                assert(after[i] matches Some(p) && p.0 == r && p.1 == d);
            }
        }
        assert(touched(after, r) =~= image);
        vstd::set_lib::lemma_map_size(touched(before, r), image, f);
    }
    assert(touch_counts(after, n_regions) =~= touch_counts(before, n_regions));
}

// ---------------------------------------------------------------------------------------------
// One plan
// ---------------------------------------------------------------------------------------------

/// The name of the output column of a metric.
pub open spec fn metric_column_text(metric: RegionMetric) -> Seq<char> {
    match metric {
        RegionMetric::Splits => "region_splits"@,
        RegionMetric::Pieces => "region_pieces"@,
    }
}

/// The name of the output column of a metric.
pub fn region_metric_column_name(metric: RegionMetric) -> (r: &'static str)
    ensures
        r@ == metric_column_text(metric),
{
    match metric {
        RegionMetric::Splits => "region_splits",
        RegionMetric::Pieces => "region_pieces",
    }
}

/// The metric of one plan under one region column.
///
/// A dense table of regions by districts marks the pairs that occur. `max_district` is the largest
/// label of the plan.
pub fn region_metric_for_key<W>(
    graph: &Graph<W>,
    assignment: &[u16],
    region_column_index: usize,
    metric: RegionMetric,
    max_district: usize,
) -> (r: u32)
    requires
        graph.regions_wf(),
        graph.node_count <= u32::MAX,
        region_column_index < graph.region_columns@.len(),
        assignment@.len() == graph.node_count,
        max_district <= u16::MAX,
        forall|i: int| 0 <= i < assignment@.len() ==> #[trigger] assignment@[i] <= max_district,
    ensures
        r == region_value(
            region_pairs(graph.region_columns@[region_column_index as int]@, assignment@),
            graph.region_id_counts@[region_column_index as int] as nat,
            metric,
        ),
        ({
            let column = graph.region_columns@[region_column_index as int]@;
            metric is Splits ==> r == Set::new(
                |region: int|
                    0 <= region < graph.region_id_counts@[region_column_index as int] && exists|
                        i: int,
                        j: int,
                    |
                        #![trigger column[i], column[j]]
                        0 <= i < column.len() && 0 <= j < column.len() && column[i] is Some
                            && column[j] is Some && column[i]->0 == region && column[j]->0 == region
                            && assignment@[i] != assignment@[j],
            ).len()
        }),
{
    let column = &graph.region_columns[region_column_index];
    let n_regions: usize = graph.region_id_counts[region_column_index] as usize;
    let ghost n = n_regions as nat;
    let ghost full = region_pairs(column@, assignment@);
    let ghost mut cur: Seq<Option<(u32, u16)>> = Seq::new(full.len(), |i: int| None);
    let mut present: Vec<Vec<bool>> = Vec::new();
    let mut r: usize = 0;
    while r < n_regions
        invariant
            r <= n_regions,
            max_district <= u16::MAX,
            present@.len() == r,
            forall|k: int| 0 <= k < r ==> (#[trigger] present@[k])@.len() == max_district + 1,
            forall|k: int, d: int|
                0 <= k < r && 0 <= d <= max_district ==> !#[trigger] present@[k]@[d],
        decreases n_regions - r,
    {
        present.push(vec![false; max_district + 1]);
        r += 1;
    }
    let mut sizes: Vec<u32> = vec![0u32; n_regions];
    let mut splits: u32 = 0;
    let mut pieces: u32 = 0;
    proof {
        lemma_none_filled(cur, n);
        assert forall|k: int| 0 <= k < n implies #[trigger] sizes@[k] == touched(cur, k).len() by {
            assert(touched(cur, k) == Set::<int>::empty());
        }
        assert forall|k: int, d: int| 0 <= k < n && 0 <= d <= max_district implies (
        #[trigger] present@[k]@[d] <==> touched(cur, k).contains(d)) by {
            assert(!present@[k]@[d]);
        }
    }
    let mut i: usize = 0;
    while i < column.len()
        invariant
            i <= column@.len(),
            column@.len() == graph.node_count <= u32::MAX,
            column@ == graph.region_columns@[region_column_index as int]@,
            n_regions == n,
            n == graph.region_id_counts@[region_column_index as int],
            region_column_index < graph.region_columns@.len(),
            graph.regions_wf(),
            assignment@.len() == graph.node_count,
            max_district <= u16::MAX,
            forall|k: int| 0 <= k < assignment@.len() ==> #[trigger] assignment@[k] <= max_district,
            full == region_pairs(column@, assignment@),
            cur.len() == full.len(),
            forall|k: int| 0 <= k < i ==> #[trigger] cur[k] == full[k],
            forall|k: int| i <= k < cur.len() ==> #[trigger] cur[k] is None,
            present@.len() == n,
            forall|k: int| 0 <= k < n ==> (#[trigger] present@[k])@.len() == max_district + 1,
            forall|k: int, d: int|
                0 <= k < n && 0 <= d <= max_district ==> (#[trigger] present@[k]@[d] <==> touched(
                    cur,
                    k,
                ).contains(d)),
            sizes@.len() == n,
            forall|k: int| 0 <= k < n ==> #[trigger] sizes@[k] == touched(cur, k).len(),
            splits == above_one(touch_counts(cur, n)),
            pieces == total(touch_counts(cur, n)),
        decreases column.len() - i,
    {
        match column[i] {
            None => {
                proof {
                    assert(cur[i as int] == full[i as int]);
                }
            },
            Some(region_id) => {
                let district: u16 = assignment[i];
                let region: usize = region_id as usize;
                assert(graph.region_columns@[region_column_index as int]@[i as int] is Some);
                assert(region < n_regions);
                let ghost before = cur;
                proof {
                    cur = cur.update(i as int, Some((region_id, district)));
                    lemma_touched_fill(before, i as int, region_id, district);
                    lemma_counts_fill(before, n, i as int, region_id, district);
                    lemma_touched_finite(before, region as int);
                    assert forall|k: int| 0 <= k < cur.len() implies (#[trigger] cur[k] matches Some(
                        p,
                    ) ==> p.0 < n) by {
                        if k < i {
                            assert(cur[k] == full[k]);
                            assert(graph.region_columns@[region_column_index as int]@[k] == column@[k]);
                        }
                    }
                    law_value_bounds(cur, n);
                    lemma_filled_bound(cur);
                    let x = touch_counts(cur, n)[region as int];
                    lemma_total_update(touch_counts(before, n), region as int, x);
                    lemma_above_one_update(touch_counts(before, n), region as int, x);
                }
                if !present[region][district as usize] {
                    if sizes[region] == 1 {
                        splits += 1;
                    }
                    pieces += 1;
                    let size: u32 = sizes[region];
                    proof {
                        let set = touched(cur, region as int);
                        let bound = vstd::set_lib::set_int_range(0, 0x1_0000);
                        vstd::set_lib::lemma_int_range(0, 0x1_0000);
                        assert(set.subset_of(bound));
                        vstd::set_lib::lemma_len_subset(set, bound);
                    }
                    sizes.set(region, size + 1);
                    present[region].set(district as usize, true);
                } else {
                    proof {
                        assert(touched(before, region as int).insert(district as int) =~= touched(
                            before,
                            region as int,
                        ));
                    }
                }
            },
        }
        i += 1;
    }
    proof {
        assert(cur =~= full);
        law_region_values_of_a_plan(column@, assignment@, n);
        assert(Set::new(
            |region: int|
                0 <= region < graph.region_id_counts@[region_column_index as int] && exists|
                    i: int,
                    j: int,
                |
                    #![trigger column@[i], column@[j]]
                    0 <= i < column@.len() && 0 <= j < column@.len() && column@[i] is Some
                        && column@[j] is Some && column@[i]->0 == region && column@[j]->0 == region
                        && assignment@[i] != assignment@[j],
        ) =~= Set::new(
            |r: int|
                0 <= r < n && exists|i: int, j: int|
                    #![trigger column@[i], column@[j]]
                    0 <= i < column@.len() && 0 <= j < column@.len() && column@[i] is Some
                        && column@[j] is Some && column@[i]->0 == r && column@[j]->0 == r
                        && assignment@[i] != assignment@[j],
        ));
    }
    match metric {
        RegionMetric::Splits => splits,
        RegionMetric::Pieces => pieces,
    }
}

// ---------------------------------------------------------------------------------------------
// A chain of plans
// ---------------------------------------------------------------------------------------------

/// How many nodes lie in the given region and district.
pub open spec fn pair_count(pairs: Seq<Option<(u32, u16)>>, region: int, district: int) -> nat
    decreases pairs.len(),
{
    if pairs.len() == 0 {
        0
    } else {
        pair_count(pairs.drop_last(), region, district) + if pairs.last() matches Some(p) && p.0
            == region && p.1 == district {
            1nat
        } else {
            0nat
        }
    }
}

/// One if the node lies in the given region and district.
spec fn hit(pair: Option<(u32, u16)>, region: int, district: int) -> nat {
    if pair matches Some(p) && p.0 == region && p.1 == district {
        1
    } else {
        0
    }
}

proof fn lemma_pair_count_update(
    pairs: Seq<Option<(u32, u16)>>,
    i: int,
    x: Option<(u32, u16)>,
    region: int,
    district: int,
)
    requires
        0 <= i < pairs.len(),
    ensures
        pair_count(pairs.update(i, x), region, district) + hit(pairs[i], region, district)
            == pair_count(pairs, region, district) + hit(x, region, district),
    decreases pairs.len(),
{
    let changed = pairs.update(i, x);
    if i < pairs.len() - 1 {
        assert(changed.drop_last() =~= pairs.drop_last().update(i, x));
        lemma_pair_count_update(pairs.drop_last(), i, x, region, district);
    } else {
        assert(changed.drop_last() =~= pairs.drop_last());
    }
}

proof fn lemma_pair_count(pairs: Seq<Option<(u32, u16)>>, region: int, district: int)
    ensures
        pair_count(pairs, region, district) <= pairs.len(),
        pair_count(pairs, region, district) > 0 <==> touched(pairs, region).contains(district),
    decreases pairs.len(),
{
    if pairs.len() > 0 {
        let shorter = pairs.drop_last();
        lemma_pair_count(shorter, region, district);
        if touched(shorter, region).contains(district) {
            let i = choose|i: int|
                0 <= i < shorter.len() && (#[trigger] shorter[i] matches Some(p) && p.0 == region
                    && p.1 == district);
            assert(pairs[i] == shorter[i]);
        }
        if pairs.last() matches Some(p) && p.0 == region && p.1 == district {
            assert(pairs[pairs.len() - 1] == pairs.last());
        }
        if touched(pairs, region).contains(district) {
            let i = choose|i: int|
                0 <= i < pairs.len() && (#[trigger] pairs[i] matches Some(p) && p.0 == region
                    && p.1 == district);
            if i < shorter.len() {
                assert(shorter[i] == pairs[i]);
            }
        }
    }
}

proof fn lemma_pair_count_is_count(pairs: Seq<Option<(u32, u16)>>, region: int, district: int)
    ensures
        pair_count(pairs, region, district) == indices(
            pairs.len() as int,
            |i: int|
                pairs[i] is Some && (pairs[i]->0).0 == region && (pairs[i]->0).1 == district,
        ).len(),
    decreases pairs.len(),
{
    let holds = |i: int|
        pairs[i] is Some && (pairs[i]->0).0 == region && (pairs[i]->0).1 == district;
    law_indices(0, holds);
    if pairs.len() > 0 {
        let shorter = pairs.drop_last();
        lemma_pair_count_is_count(shorter, region, district);
        law_indices(pairs.len() - 1, holds);
        assert(indices(
            shorter.len() as int,
            |i: int|
                shorter[i] is Some && (shorter[i]->0).0 == region && (shorter[i]->0).1 == district,
        ) =~= indices(pairs.len() - 1, holds));
    }
}

/// Whether every pair names one of `n_regions` regions and a label that fits.
pub open spec fn pairs_fit(pairs: Seq<Option<(u32, u16)>>, n_regions: nat) -> bool {
    forall|i: int|
        0 <= i < pairs.len() ==> (#[trigger] pairs[i] matches Some(p) ==> p.0 < n_regions && p.1
            < MAX_DISTRICTS)
}

/// The region counts of one key along a chain of plans.
#[derive(Debug)]
pub struct RegionKeyState {
    /// Nodes by region and district.
    pub counts: Vec<Vec<u32>>,
    /// Districts touched, by region.
    pub distinct_counts: Vec<u16>,
    pub splits: u32,
    pub pieces: u32,
}

impl RegionKeyState {
    /// How many regions the key has.
    pub open spec fn n_regions(&self) -> nat {
        self.distinct_counts@.len()
    }

    /// Whether the tables have their size.
    pub open spec fn wf(&self) -> bool {
        &&& self.counts@.len() == self.distinct_counts@.len() <= u32::MAX
        &&& forall|r: int|
            0 <= r < self.counts@.len() ==> (#[trigger] self.counts@[r])@.len() == MAX_DISTRICTS
    }

    /// Whether these are the counts of nodes with the given regions and districts.
    pub open spec fn tracks(&self, pairs: Seq<Option<(u32, u16)>>) -> bool {
        &&& self.wf()
        &&& pairs_fit(pairs, self.n_regions())
        &&& forall|r: int, d: int|
            0 <= r < self.n_regions() && 0 <= d < MAX_DISTRICTS ==> #[trigger] self.counts@[r]@[d]
                == pair_count(pairs, r, d)
        &&& forall|r: int|
            0 <= r < self.n_regions() ==> #[trigger] self.distinct_counts@[r] == touched(
                pairs,
                r,
            ).len()
        &&& self.splits == above_one(touch_counts(pairs, self.n_regions()))
        &&& self.pieces == total(touch_counts(pairs, self.n_regions()))
    }

    /// Whether two states hold the same counts.
    pub open spec fn same_counts(&self, other: &RegionKeyState) -> bool {
        &&& self.counts@.len() == other.counts@.len()
        &&& forall|r: int|
            0 <= r < self.counts@.len() ==> (#[trigger] self.counts@[r])@ == other.counts@[r]@
        &&& self.distinct_counts@ == other.distinct_counts@
        &&& self.splits == other.splits
        &&& self.pieces == other.pieces
    }

    /// Nodes with the same regions and districts have the same counts, whatever came before.
    pub proof fn law_counts_are_those_of_the_nodes(
        &self,
        other: &RegionKeyState,
        pairs: Seq<Option<(u32, u16)>>,
    )
        requires
            self.tracks(pairs),
            other.tracks(pairs),
            self.n_regions() == other.n_regions(),
        ensures
            self.same_counts(other),
    {
        assert forall|r: int| 0 <= r < self.counts@.len() implies (#[trigger] self.counts@[r])@
            == other.counts@[r]@ by {
            assert(self.counts@[r]@.len() == other.counts@[r]@.len());
            assert forall|d: int| 0 <= d < MAX_DISTRICTS implies self.counts@[r]@[d]
                == other.counts@[r]@[d] by {
                assert(self.counts@[r]@[d] == pair_count(pairs, r, d));
                assert(other.counts@[r]@[d] == pair_count(pairs, r, d));
            }
            assert(self.counts@[r]@ =~= other.counts@[r]@);
        }
        assert forall|r: int| 0 <= r < self.n_regions() implies self.distinct_counts@[r]
            == other.distinct_counts@[r] by {
            assert(self.distinct_counts@[r] == touched(pairs, r).len());
            assert(other.distinct_counts@[r] == touched(pairs, r).len());
        }
        assert(self.distinct_counts@ =~= other.distinct_counts@);
    }

    /// What the counts of a key say of the nodes: how many nodes lie in region `r` and district `d`,
    /// how many districts the region touches, and both metrics.
    pub proof fn law_counts_of_the_nodes(&self, pairs: Seq<Option<(u32, u16)>>, r: int, d: int)
        requires
            self.tracks(pairs),
            0 <= r < self.distinct_counts@.len(),
            0 <= d < MAX_DISTRICTS,
        ensures
            self.counts@[r]@[d] == Set::new(
                |i: int|
                    0 <= i < pairs.len() && pairs[i] is Some && (pairs[i]->0).0 == r && (
                    pairs[i]->0).1 == d,
            ).len(),
            self.distinct_counts@[r] == Set::new(
                |x: int|
                    exists|i: int|
                        0 <= i < pairs.len() && (#[trigger] pairs[i] is Some && (pairs[i]->0).0
                            == r && (pairs[i]->0).1 == x),
            ).len(),
            self.splits == region_value(pairs, self.distinct_counts@.len(), RegionMetric::Splits),
            self.pieces == region_value(pairs, self.distinct_counts@.len(), RegionMetric::Pieces),
    {
        lemma_pair_count_is_count(pairs, r, d);
        assert(self.counts@[r]@[d] == pair_count(pairs, r, d));
        let here = |i: int|
            pairs[i] is Some && (pairs[i]->0).0 == r && (pairs[i]->0).1 == d;
        assert(indices(pairs.len() as int, here) =~= Set::new(
            |i: int|
                0 <= i < pairs.len() && pairs[i] is Some && (pairs[i]->0).0 == r && (
                pairs[i]->0).1 == d,
        ));
        assert(self.distinct_counts@[r] == touched(pairs, r).len());
        let named = Set::new(
            |x: int|
                exists|i: int|
                    0 <= i < pairs.len() && (#[trigger] pairs[i] is Some && (pairs[i]->0).0 == r
                        && (pairs[i]->0).1 == x),
        );
        assert forall|x: int| touched(pairs, r).contains(x) <==> named.contains(x) by {
            if touched(pairs, r).contains(x) {
                let i = choose|i: int|
                    0 <= i < pairs.len() && (#[trigger] pairs[i] matches Some(p) && p.0 == r
                        && p.1 == x);
                assert(pairs[i] is Some);
            }
            if named.contains(x) {
                let i = choose|i: int|
                    0 <= i < pairs.len() && (#[trigger] pairs[i] is Some && (pairs[i]->0).0 == r
                        && (pairs[i]->0).1 == x);
                assert(pairs[i] matches Some(p) && p.0 == r && p.1 == x);
            }
        }
        assert(touched(pairs, r) =~= named);
    }

    /// Forgetting a node right after counting it brings all counts back: `added` counts one node
    /// more than `self`, and `removed` forgets it again.
    pub proof fn law_remove_undoes_add(
        &self,
        added: &RegionKeyState,
        removed: &RegionKeyState,
        pairs: Seq<Option<(u32, u16)>>,
        node: int,
        region: u32,
        district: u16,
    )
        requires
            self.tracks(pairs),
            0 <= node < pairs.len(),
            pairs[node] is None,
            added.tracks(pairs.update(node, Some((region, district)))),
            added.n_regions() == self.n_regions(),
            removed.tracks(pairs.update(node, Some((region, district))).update(node, None)),
            removed.n_regions() == added.n_regions(),
        ensures
            removed.same_counts(self),
    {
        assert(pairs.update(node, Some((region, district))).update(node, None) =~= pairs);
        removed.law_counts_are_those_of_the_nodes(self, pairs);
    }

    /// The counts of a plan in which no node has a region.
    pub fn new(n_regions: usize) -> (r: Self)
        requires
            n_regions <= u32::MAX,
        ensures
            r.wf(),
            r.n_regions() == n_regions,
            forall|pairs: Seq<Option<(u32, u16)>>|
                (forall|i: int| 0 <= i < pairs.len() ==> #[trigger] pairs[i] is None)
                    ==> #[trigger] r.tracks(pairs),
    {
        let mut counts: Vec<Vec<u32>> = Vec::new();
        let mut k: usize = 0;
        while k < n_regions
            invariant
                k <= n_regions,
                counts@.len() == k,
                forall|r: int| 0 <= r < k ==> (#[trigger] counts@[r])@.len() == MAX_DISTRICTS,
                forall|r: int, d: int|
                    0 <= r < k && 0 <= d < MAX_DISTRICTS ==> #[trigger] counts@[r]@[d] == 0,
            decreases n_regions - k,
        {
            counts.push(vec![0u32; MAX_DISTRICTS as usize]);
            k += 1;
        }
        let state = RegionKeyState {
            counts,
            distinct_counts: vec![0u16; n_regions],
            splits: 0,
            pieces: 0,
        };
        proof {
            assert forall|pairs: Seq<Option<(u32, u16)>>|
                (forall|i: int| 0 <= i < pairs.len() ==> #[trigger] pairs[i] is None)
                    implies #[trigger] state.tracks(pairs) by {
                lemma_none_filled(pairs, state.n_regions());
                assert forall|r: int, d: int|
                    0 <= r < state.n_regions() && 0 <= d
                        < MAX_DISTRICTS implies #[trigger] state.counts@[r]@[d] == pair_count(
                    pairs,
                    r,
                    d,
                ) by {
                    lemma_pair_count(pairs, r, d);
                }
            }
        }
        state
    }

    /// Forget every node.
    pub fn reset(&mut self)
        requires
            old(self).wf(),
        ensures
            final(self).wf(),
            final(self).n_regions() == old(self).n_regions(),
            forall|pairs: Seq<Option<(u32, u16)>>|
                (forall|i: int| 0 <= i < pairs.len() ==> #[trigger] pairs[i] is None)
                    ==> #[trigger] final(self).tracks(pairs),
    {
        *self = RegionKeyState::new(self.distinct_counts.len());
    }

    /// Count a node that had no region so far.
    pub fn add(&mut self, region: u32, district: u16, Ghost(pairs): Ghost<
        Seq<Option<(u32, u16)>>,
    >, Ghost(node): Ghost<int>)
        requires
            old(self).tracks(pairs),
            pairs.len() <= u32::MAX,
            0 <= node < pairs.len(),
            pairs[node] is None,
            region < old(self).n_regions(),
            district < MAX_DISTRICTS,
        ensures
            final(self).tracks(pairs.update(node, Some((region, district)))),
            final(self).n_regions() == old(self).n_regions(),
    {
        let ghost n = self.n_regions();
        let ghost after = pairs.update(node, Some((region, district)));
        proof {
            lemma_counts_fill(pairs, n, node, region, district);
            lemma_touched_fill(pairs, node, region, district);
            lemma_touched_finite(pairs, region as int);
            lemma_pair_count(pairs, region as int, district as int);
            lemma_pair_count(after, region as int, district as int);
            assert forall|i: int| 0 <= i < after.len() implies (#[trigger] after[i] matches Some(p)
                ==> p.0 < n && p.1 < MAX_DISTRICTS) by {
                if i != node {
                    assert(after[i] == pairs[i]);
                }
            }
            law_value_bounds(after, n);
            lemma_filled_bound(after);
            let x = touch_counts(after, n)[region as int];
            lemma_total_update(touch_counts(pairs, n), region as int, x);
            lemma_above_one_update(touch_counts(pairs, n), region as int, x);
            assert forall|r: int, d: int| #[trigger]
                pair_count(after, r, d) + hit(pairs[node], r, d) == pair_count(pairs, r, d) + hit(
                    Some((region, district)),
                    r,
                    d,
                ) by {
                lemma_pair_count_update(pairs, node, Some((region, district)), r, d);
            }
            lemma_touched_small(after, n, region as int);
            if touched(pairs, region as int).contains(district as int) {
                assert(touched(pairs, region as int).insert(district as int) =~= touched(
                    pairs,
                    region as int,
                ));
            }
        }
        let r: usize = region as usize;
        let d: usize = district as usize;
        assert(self.counts@[r as int]@.len() == MAX_DISTRICTS);
        let count: u32 = self.counts[r][d];
        if count == 0 {
            if self.distinct_counts[r] == 1 {
                self.splits = self.splits + 1;
            }
            let distinct: u16 = self.distinct_counts[r];
            self.distinct_counts.set(r, distinct + 1);
            self.pieces = self.pieces + 1;
        }
        self.counts[r].set(d, count + 1);
    }

    /// Forget the region of a node. All counts are those of any other state without that node, so
    /// of the state before the node was counted.
    pub fn remove(&mut self, region: u32, district: u16, Ghost(pairs): Ghost<
        Seq<Option<(u32, u16)>>,
    >, Ghost(node): Ghost<int>)
        requires
            old(self).tracks(pairs),
            pairs.len() <= u32::MAX,
            0 <= node < pairs.len(),
            pairs[node] == Some((region, district)),
        ensures
            final(self).tracks(pairs.update(node, None)),
            final(self).n_regions() == old(self).n_regions(),
            forall|earlier: RegionKeyState| #[trigger]
                earlier.tracks(pairs.update(node, None)) && earlier.n_regions() == old(
                    self
                ).n_regions() ==> final(self).same_counts(&earlier),
    {
        let ghost n = self.n_regions();
        let ghost rest = pairs.update(node, None);
        proof {
            assert(rest.update(node, Some((region, district))) =~= pairs);
            lemma_counts_fill(rest, n, node, region, district);
            lemma_touched_fill(rest, node, region, district);
            lemma_touched_finite(rest, region as int);
            lemma_pair_count(rest, region as int, district as int);
            lemma_pair_count(pairs, region as int, district as int);
            let x = touch_counts(pairs, n)[region as int];
            lemma_total_update(touch_counts(rest, n), region as int, x);
            lemma_above_one_update(touch_counts(rest, n), region as int, x);
            assert forall|r: int, d: int| #[trigger]
                pair_count(rest, r, d) + hit(pairs[node], r, d) == pair_count(pairs, r, d) by {
                lemma_pair_count_update(pairs, node, None, r, d);
            }
            assert forall|i: int| 0 <= i < rest.len() implies (#[trigger] rest[i] matches Some(p)
                ==> p.0 < n && p.1 < MAX_DISTRICTS) by {
                if i != node {
                    assert(rest[i] == pairs[i]);
                }
            }
            if touched(rest, region as int).contains(district as int) {
                assert(touched(rest, region as int).insert(district as int) =~= touched(
                    rest,
                    region as int,
                ));
            }
        }
        let r: usize = region as usize;
        let d: usize = district as usize;
        assert(self.counts@[r as int]@.len() == MAX_DISTRICTS);
        let count: u32 = self.counts[r][d];
        self.counts[r].set(d, count - 1);
        if count - 1 == 0 {
            if self.distinct_counts[r] == 2 {
                self.splits = self.splits - 1;
            }
            let distinct: u16 = self.distinct_counts[r];
            self.distinct_counts.set(r, distinct - 1);
            self.pieces = self.pieces - 1;
        }
        proof {
            assert forall|earlier: RegionKeyState| #[trigger]
                earlier.tracks(rest) && earlier.n_regions() == n implies self.same_counts(
                &earlier,
            ) by {
                self.law_counts_are_those_of_the_nodes(&earlier, rest);
            }
        }
    }

    /// The current value of a metric.
    pub fn value(&self, metric: RegionMetric) -> (r: u32)
        ensures
            forall|pairs: Seq<Option<(u32, u16)>>| #[trigger]
                self.tracks(pairs) ==> r == region_value(pairs, self.n_regions(), metric),
    {
        match metric {
            RegionMetric::Splits => self.splits,
            RegionMetric::Pieces => self.pieces,
        }
    }
}

proof fn lemma_touched_small(pairs: Seq<Option<(u32, u16)>>, n_regions: nat, region: int)
    requires
        pairs_fit(pairs, n_regions),
    ensures
        touched(pairs, region).len() <= MAX_DISTRICTS,
{
    let bound = vstd::set_lib::set_int_range(0, MAX_DISTRICTS as int);
    vstd::set_lib::lemma_int_range(0, MAX_DISTRICTS as int);
    assert(touched(pairs, region).subset_of(bound));
    vstd::set_lib::lemma_len_subset(touched(pairs, region), bound);
}

proof fn lemma_none_filled(pairs: Seq<Option<(u32, u16)>>, n_regions: nat)
    requires
        forall|i: int| 0 <= i < pairs.len() ==> #[trigger] pairs[i] is None,
    ensures
        forall|r: int| #[trigger] touched(pairs, r) == Set::<int>::empty(),
        total(touch_counts(pairs, n_regions)) == 0,
        above_one(touch_counts(pairs, n_regions)) == 0,
{
    assert forall|r: int| #[trigger] touched(pairs, r) == Set::<int>::empty() by {
        assert(touched(pairs, r) =~= Set::<int>::empty());
    }
    lemma_all_zero(touch_counts(pairs, n_regions));
}

/// Region counts of several keys along a chain of plans.
#[derive(Debug)]
pub struct IncrementalRegionMetrics<'g, W> {
    pub graph: &'g Graph<W>,
    pub region_column_indices: &'g [usize],
    pub key_states: Vec<RegionKeyState>,
    pub presence: DistrictPresence,
}

impl<'g, W> IncrementalRegionMetrics<'g, W> {
    /// The region column of key `k`.
    pub open spec fn column(&self, k: int) -> Seq<Option<u32>> {
        self.graph.region_columns@[self.region_column_indices@[k] as int]@
    }

    /// The regions and districts of a plan under key `k`.
    pub open spec fn pairs(&self, k: int, assignment: Seq<u16>) -> Seq<Option<(u32, u16)>> {
        region_pairs(self.column(k), assignment)
    }

    /// State for the given region columns.
    pub fn new(graph: &'g Graph<W>, region_column_indices: &'g [usize]) -> (r: Self)
        requires
            graph.regions_wf(),
            graph.node_count <= u32::MAX,
            forall|k: int|
                0 <= k < region_column_indices@.len() ==> #[trigger] region_column_indices@[k]
                    < graph.region_columns@.len(),
        ensures
            r.wf(),
            r.graph == graph,
            r.region_column_indices == region_column_indices,
    {
        let mut key_states: Vec<RegionKeyState> = Vec::new();
        let mut k: usize = 0;
        while k < region_column_indices.len()
            invariant
                k <= region_column_indices@.len(),
                graph.regions_wf(),
                forall|j: int|
                    0 <= j < region_column_indices@.len() ==> #[trigger] region_column_indices@[j]
                        < graph.region_columns@.len(),
                key_states@.len() == k,
                forall|j: int|
                    0 <= j < k ==> (#[trigger] key_states@[j]).wf() && key_states@[j].n_regions()
                        == graph.region_id_counts@[region_column_indices@[j] as int],
            decreases region_column_indices.len() - k,
        {
            let column_index: usize = region_column_indices[k];
            assert(region_column_indices@[k as int] < graph.region_columns@.len());
            key_states.push(RegionKeyState::new(graph.region_id_counts[column_index] as usize));
            k += 1;
        }
        IncrementalRegionMetrics {
            graph,
            region_column_indices,
            key_states,
            presence: DistrictPresence::new(),
        }
    }

    /// The current value of a metric under every key.
    pub fn values(&self, metric: RegionMetric) -> (r: Vec<u32>)
        requires
            self.wf(),
        ensures
            r@.len() == self.key_states@.len(),
            forall|assignment: Seq<u16>, k: int|
                #![trigger self.tracks(assignment), r@[k]]
                self.tracks(assignment) && 0 <= k < r@.len() ==> r@[k] == region_value(
                    self.pairs(k, assignment),
                    self.key_states@[k].n_regions(),
                    metric,
                ),
    {
        let mut values: Vec<u32> = Vec::new();
        let mut k: usize = 0;
        while k < self.key_states.len()
            invariant
                k <= self.key_states@.len(),
                values@.len() == k,
                forall|assignment: Seq<u16>, j: int|
                    #![trigger self.tracks(assignment), values@[j]]
                    self.tracks(assignment) && 0 <= j < k ==> values@[j] == region_value(
                        self.pairs(j, assignment),
                        self.key_states@[j].n_regions(),
                        metric,
                    ),
            decreases self.key_states.len() - k,
        {
            let value: u32 = self.key_states[k].value(metric);
            proof {
                assert forall|assignment: Seq<u16>| #[trigger] self.tracks(assignment) implies value
                    == region_value(
                    self.pairs(k as int, assignment),
                    self.key_states@[k as int].n_regions(),
                    metric,
                ) by {
                    assert(self.key_states@[k as int].tracks(self.pairs(k as int, assignment)));
                }
            }
            values.push(value);
            k += 1;
        }
        values
    }
    /// Move one node to another district under every key.
    fn relabel_keys(&mut self, change: DeltaChange, Ghost(cur): Ghost<Seq<u16>>)
        requires
            old(self).wf(),
            change.node < cur.len(),
            cur.len() == old(self).graph.node_count,
            cur[change.node as int] == change.old,
            change.new < MAX_DISTRICTS,
            forall|k: int|
                0 <= k < old(self).key_states@.len() ==> (#[trigger] old(self).key_states@[k]).tracks(old(self).pairs(k, cur)),
        ensures
            final(self).wf(),
            final(self).graph == old(self).graph,
            final(self).region_column_indices == old(self).region_column_indices,
            final(self).presence == old(self).presence,
            forall|k: int|
                0 <= k < final(self).key_states@.len() ==> (#[trigger] final(self).key_states@[k]).tracks(
                    final(self).pairs(k, cur.update(change.node as int, change.new)),
                ),
    {
        let ghost next = cur.update(change.node as int, change.new);
        let mut k: usize = 0;
        while k < self.key_states.len()
            invariant
                k <= self.key_states@.len(),
                self.wf(),
                self.graph == old(self).graph,
                self.region_column_indices == old(self).region_column_indices,
                change.node < cur.len(),
                cur.len() == self.graph.node_count,
                cur[change.node as int] == change.old,
                change.new < MAX_DISTRICTS,
                next == cur.update(change.node as int, change.new),
                self.presence == old(self).presence,
                forall|j: int|
                    0 <= j < k ==> (#[trigger] self.key_states@[j]).tracks(self.pairs(j, next)),
                forall|j: int|
                    k <= j < self.key_states@.len() ==> (#[trigger] self.key_states@[j]).tracks(
                        self.pairs(j, cur),
                    ),
            decreases self.key_states.len() - k,
        {
            let column_index: usize = self.region_column_indices[k];
            let ghost here = self.pairs(k as int, cur);
            let ghost there = self.pairs(k as int, next);
            let ghost node = change.node as int;
            assert(self.region_column_indices@[k as int] < self.graph.region_columns@.len());
            assert(self.graph.region_columns@[column_index as int]@.len()
                == self.graph.node_count);
            assert(self.key_states@[k as int].tracks(here));
            match self.graph.region_columns[column_index][change.node] {
                Some(region) => {
                    proof {
                        assert(self.graph.region_columns@[column_index as int]@[node] is Some);
                        assert(here[node] == Some((region, change.old)));
                    }
                    self.key_states[k].remove(region, change.old, Ghost(here), Ghost(node));
                    self.key_states[k].add(
                        region,
                        change.new,
                        Ghost(here.update(node, None)),
                        Ghost(node),
                    );
                    assert(here.update(node, None).update(node, Some((region, change.new)))
                        =~= there);
                },
                None => {
                    assert(here =~= there);
                },
            }
            k += 1;
        }
    }
}

/// The pairs of a plan whose nodes from `n` on have not been counted yet.
spec fn pairs_below(column: Seq<Option<u32>>, assignment: Seq<u16>, n: int) -> Seq<
    Option<(u32, u16)>,
> {
    Seq::new(
        column.len(),
        |i: int|
            if i < n {
                region_pairs(column, assignment)[i]
            } else {
                None
            },
    )
}

impl<'g, W> IncrementalTwoDeltaMetric for IncrementalRegionMetrics<'g, W> {
    open spec fn node_count(&self) -> nat {
        self.graph.node_count as nat
    }

    open spec fn wf(&self) -> bool {
        &&& self.graph.regions_wf()
        &&& self.graph.node_count <= u32::MAX
        &&& self.presence.node_counts@.len() == MAX_DISTRICTS
        &&& self.key_states@.len() == self.region_column_indices@.len()
        &&& forall|k: int|
            0 <= k < self.region_column_indices@.len() ==> #[trigger] self.region_column_indices@[k]
                < self.graph.region_columns@.len()
        &&& forall|k: int|
            0 <= k < self.key_states@.len() ==> (#[trigger] self.key_states@[k]).wf()
                && self.key_states@[k].n_regions()
                == self.graph.region_id_counts@[self.region_column_indices@[k] as int]
    }

    open spec fn patches_left(&self) -> nat {
        u64::MAX as nat
    }

    open spec fn tracks(&self, assignment: Seq<u16>) -> bool {
        &&& self.presence.tracks(assignment)
        &&& forall|k: int|
            0 <= k < self.key_states@.len() ==> (#[trigger] self.key_states@[k]).tracks(
                self.pairs(k, assignment),
            )
    }

    open spec fn seeded(&self, before: Self, assignment: Seq<u16>) -> bool {
        self.graph == before.graph && self.region_column_indices == before.region_column_indices
    }

    open spec fn patched(
        &self,
        before: Self,
        assignment: Seq<u16>,
        changes: Seq<DeltaChange>,
    ) -> bool {
        self.graph == before.graph && self.region_column_indices == before.region_column_indices
    }

    open spec fn labels(&self) -> u128 {
        self.presence.observed
    }

    fn seed(&mut self, assignment: &[u16]) -> (r: Result<(), Error>) {
        self.presence = DistrictPresence::new();
        let mut k: usize = 0;
        while k < self.key_states.len()
            invariant
                k <= self.key_states@.len(),
                self.wf(),
                self.graph == old(self).graph,
                self.region_column_indices == old(self).region_column_indices,
                self.presence.tracks(Seq::empty()),
                forall|j: int, pairs: Seq<Option<(u32, u16)>>|
                    0 <= j < k && (forall|i: int|
                        0 <= i < pairs.len() ==> #[trigger] pairs[i] is None)
                        ==> #[trigger] self.key_states@[j].tracks(pairs),
            decreases self.key_states.len() - k,
        {
            self.key_states[k].reset();
            k += 1;
        }
        let mut node: usize = 0;
        proof {
            assert(assignment@.take(0) =~= Seq::empty());
            assert forall|j: int| 0 <= j < self.key_states@.len() implies (
            #[trigger] self.key_states@[j]).tracks(pairs_below(self.column(j), assignment@, 0)) by {
                assert forall|i: int|
                    0 <= i < pairs_below(self.column(j), assignment@, 0).len() implies #[trigger] pairs_below(
                    self.column(j),
                    assignment@,
                    0,
                )[i] is None by {}
            }
        }
        while node < assignment.len()
            invariant
                node <= assignment@.len(),
                self.wf(),
                self.graph == old(self).graph,
                self.region_column_indices == old(self).region_column_indices,
                assignment@.len() == self.node_count(),
                self.presence.tracks(assignment@.take(node as int)),
                forall|i: int| 0 <= i < node ==> #[trigger] assignment@[i] < MAX_DISTRICTS,
                forall|j: int|
                    0 <= j < self.key_states@.len() ==> (#[trigger] self.key_states@[j]).tracks(
                        pairs_below(self.column(j), assignment@, node as int),
                    ),
            decreases assignment.len() - node,
        {
            let district: u16 = assignment[node];
            match self.presence.add(district, Ghost(assignment@.take(node as int))) {
                Ok(()) => {},
                Err(e) => {
                    assert(assignment@[node as int] >= MAX_DISTRICTS);
                    return Err(e);
                },
            }
            proof {
                assert(assignment@.take(node as int).push(district) =~= assignment@.take(node + 1));
            }
            let mut k: usize = 0;
            while k < self.key_states.len()
                invariant
                    k <= self.key_states@.len(),
                    self.wf(),
                    self.graph == old(self).graph,
                    self.region_column_indices == old(self).region_column_indices,
                    node < assignment@.len(),
                    assignment@.len() == self.node_count(),
                    district == assignment@[node as int],
                    district < MAX_DISTRICTS,
                    self.presence.tracks(assignment@.take(node + 1)),
                    forall|j: int|
                        0 <= j < k ==> (#[trigger] self.key_states@[j]).tracks(
                            pairs_below(self.column(j), assignment@, node + 1),
                        ),
                    forall|j: int|
                        k <= j < self.key_states@.len() ==> (#[trigger] self.key_states@[j]).tracks(
                            pairs_below(self.column(j), assignment@, node as int),
                        ),
                decreases self.key_states.len() - k,
            {
                let column_index: usize = self.region_column_indices[k];
                let ghost here = pairs_below(self.column(k as int), assignment@, node as int);
                let ghost next = pairs_below(self.column(k as int), assignment@, node + 1);
                assert(self.region_column_indices@[k as int] < self.graph.region_columns@.len());
                assert(self.graph.region_columns@[column_index as int]@.len()
                    == self.graph.node_count);
                assert(self.key_states@[k as int].tracks(here));
                match self.graph.region_columns[column_index][node] {
                    Some(region) => {
                        proof {
                            assert(self.graph.region_columns@[column_index as int]@[node as int]
                                is Some);
                        }
                        self.key_states[k].add(region, district, Ghost(here), Ghost(node as int));
                        assert(here.update(node as int, Some((region, district))) =~= next);
                    },
                    None => {
                        assert(here =~= next);
                    },
                }
                k += 1;
            }
            node += 1;
        }
        proof {
            assert(assignment@.take(assignment@.len() as int) =~= assignment@);
            assert forall|j: int| 0 <= j < self.key_states@.len() implies (
            #[trigger] self.key_states@[j]).tracks(self.pairs(j, assignment@)) by {
                assert(pairs_below(self.column(j), assignment@, assignment@.len() as int)
                    =~= self.pairs(j, assignment@));
            }
        }
        Ok(())
    }

    fn update_delta(&mut self, before: &[u16], changes: &[DeltaChange]) -> (r: Result<(), Error>) {
        let mut c: usize = 0;
        proof {
            assert(changes@.take(0) =~= Seq::empty());
        }
        while c < changes.len()
            invariant
                c <= changes@.len(),
                self.wf(),
                self.graph == old(self).graph,
                self.region_column_indices == old(self).region_column_indices,
                before@.len() == self.node_count(),
                within_limit(before@),
                applicable(before@, changes@),
                forall|j: int| 0 <= j < c ==> (#[trigger] changes@[j]).new < MAX_DISTRICTS,
                self.tracks(applied(before@, changes@.take(c as int))),
                within_limit(applied(before@, changes@.take(c as int))),
                applied(before@, changes@.take(c as int)).len() == before@.len(),
            decreases changes.len() - c,
        {
            let change = changes[c];
            let ghost cur = applied(before@, changes@.take(c as int));
            let ghost next = applied(before@, changes@.take(c + 1));
            proof {
                lemma_applicable_at(before@, changes@, c as int);
            }
            match self.presence.relabel(change.old, change.new, Ghost(cur), Ghost(change.node as int)) {
                Ok(()) => {},
                Err(e) => {
                    proof {
                        assert(cur[change.node as int] < MAX_DISTRICTS);
                        assert(changes@[c as int].new >= MAX_DISTRICTS);
                    }
                    return Err(e);
                },
            }
            if change.old == change.new {
                proof {
                    assert(next =~= cur);
                }
                c += 1;
                continue;
            }
            self.relabel_keys(change, Ghost(cur));
            c += 1;
        }
        proof {
            assert(changes@.take(changes@.len() as int) =~= changes@);
        }
        Ok(())
    }

    fn observed(&self) -> (r: u128) {
        self.presence.observed
    }
}

} // verus!
