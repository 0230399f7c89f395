//! Per-key district tallies.
use crate::district::{
    is_dense_count, observed_assignment_districts, observes, reports_first_excess, within_limit,
    MAX_DISTRICTS,
};
use crate::error::Error;
use crate::graph::Graph;
use crate::metrics::counts::{law_listed, law_sum_below, lemma_sum_same, listed, sum_below};
use crate::metrics::ledger::{
    balance, district_sum, law_district_sum, lemma_balance_add, lemma_balance_push,
    lemma_district_sum_applied, moved, Posting,
};
use crate::metrics::twodelta::{
    applicable, applied, lemma_applicable_at, DeltaChange, DistrictPresence,
    IncrementalTwoDeltaMetric,
};
use vstd::prelude::*;

verus! {

/// The values of the nodes labelled `district` among the first `n` nodes, in node order.
pub open spec fn addends<W>(column: Seq<W>, assignment: Seq<u16>, district: int, n: int) -> Seq<W>
    decreases n,
{
    if n <= 0 {
        Seq::empty()
    } else {
        let shorter = addends(column, assignment, district, n - 1);
        if assignment[n - 1] == district {
            shorter.push(column[n - 1])
        } else {
            shorter
        }
    }
}

/// The values of one column by district.
fn column_addends<W: Copy>(column: &Vec<W>, assignment: &[u16], n_districts: u16) -> (r: Vec<
    Vec<W>,
>)
    requires
        column@.len() == assignment@.len(),
        forall|i: int| 0 <= i < assignment@.len() ==> #[trigger] assignment@[i] < n_districts,
    ensures
        r@.len() == n_districts,
        forall|d: int|
            0 <= d < n_districts ==> (#[trigger] r@[d])@ == addends(
                column@,
                assignment@,
                d,
                column@.len() as int,
            ),
{
    let mut totals: Vec<Vec<W>> = Vec::new();
    let mut d: u16 = 0;
    while d < n_districts
        invariant
            d <= n_districts,
            totals@.len() == d,
            forall|k: int| 0 <= k < d ==> (#[trigger] totals@[k])@ == Seq::<W>::empty(),
        decreases n_districts - d,
    {
        totals.push(Vec::new());
        d += 1;
    }
    let mut node: usize = 0;
    while node < column.len()
        invariant
            node <= column@.len(),
            column@.len() == assignment@.len(),
            totals@.len() == n_districts,
            forall|i: int| 0 <= i < assignment@.len() ==> #[trigger] assignment@[i] < n_districts,
            forall|k: int|
                0 <= k < n_districts ==> (#[trigger] totals@[k])@ == addends(
                    column@,
                    assignment@,
                    k,
                    node as int,
                ),
        decreases column.len() - node,
    {
        let district: usize = assignment[node] as usize;
        totals[district].push(column[node]);
        node += 1;
    }
    totals
}

/// The addends of every key by district, the dense district count, and the district labels.
///
/// Entry `d` of key `k` lists, in node order, the values that district `d` sums up.
pub fn tally_keys<W: Copy>(
    graph: &Graph<W>,
    assignment: &[u16],
    attr_column_indices: &[usize],
) -> (r: Result<(Vec<Vec<Vec<W>>>, u16, u128), Error>)
    requires
        graph.columns_wf(),
        assignment@.len() == graph.node_count,
        forall|k: int|
            0 <= k < attr_column_indices@.len() ==> #[trigger] attr_column_indices@[k]
                < graph.attr_columns@.len(),
    ensures
        r is Ok <==> within_limit(assignment@),
        r matches Err(e) ==> reports_first_excess(e, assignment@),
        r matches Ok((totals, n_districts, observed)) ==> {
            &&& observes(observed, assignment@)
            &&& is_dense_count(n_districts, assignment@)
            &&& totals@.len() == attr_column_indices@.len()
            &&& forall|k: int|
                0 <= k < totals@.len() ==> (#[trigger] totals@[k])@.len() == n_districts
            &&& forall|k: int, d: int|
                0 <= k < totals@.len() && 0 <= d < n_districts ==> (#[trigger] totals@[k]@[d])@
                    == addends(
                    graph.attr_columns@[attr_column_indices@[k] as int]@,
                    assignment@,
                    d,
                    assignment@.len() as int,
                )
        },
{
    let (n_districts, observed) = match observed_assignment_districts(assignment) {
        Ok(found) => found,
        Err(e) => {
            return Err(e);
        },
    };
    let mut totals: Vec<Vec<Vec<W>>> = Vec::new();
    let mut k: usize = 0;
    while k < attr_column_indices.len()
        invariant
            k <= attr_column_indices@.len(),
            graph.columns_wf(),
            assignment@.len() == graph.node_count,
            forall|j: int|
                0 <= j < attr_column_indices@.len() ==> #[trigger] attr_column_indices@[j]
                    < graph.attr_columns@.len(),
            forall|i: int| 0 <= i < assignment@.len() ==> #[trigger] assignment@[i] < n_districts,
            totals@.len() == k,
            forall|j: int| 0 <= j < k ==> (#[trigger] totals@[j])@.len() == n_districts,
            forall|j: int, d: int|
                0 <= j < k && 0 <= d < n_districts ==> (#[trigger] totals@[j]@[d])@ == addends(
                    graph.attr_columns@[attr_column_indices@[j] as int]@,
                    assignment@,
                    d,
                    assignment@.len() as int,
                ),
        decreases attr_column_indices.len() - k,
    {
        let column_index: usize = attr_column_indices[k];
        assert(attr_column_indices@[k as int] < graph.attr_columns@.len());
        let column = &graph.attr_columns[column_index];
        totals.push(column_addends(column, assignment, n_districts));
        k += 1;
    }
    Ok((totals, n_districts, observed))
}

/// Tallies of several keys along a chain of plans.
///
/// The totals themselves are kept by the caller: `postings` says what the last seed or update adds
/// to and subtracts from them. A seed starts from zero totals.
#[derive(Debug)]
pub struct IncrementalTallies<'g, W> {
    pub graph: &'g Graph<W>,
    pub attr_column_indices: &'g [usize],
    pub postings: Vec<Posting<W>>,
    pub presence: DistrictPresence,
}

/// The postings of one node, one per key.
pub open spec fn node_postings<W>(
    columns: Seq<Seq<W>>,
    node: int,
    district: u16,
) -> Seq<Posting<W>> {
    Seq::new(
        columns.len(),
        |k: int|
            Posting { table: k as usize, district, negative: false, value: columns[k][node] },
    )
}

/// The postings of the first `n` nodes of a plan, node by node.
pub open spec fn seed_postings<W>(
    columns: Seq<Seq<W>>,
    assignment: Seq<u16>,
    n: int,
) -> Seq<Posting<W>>
    decreases n,
{
    if n <= 0 {
        Seq::empty()
    } else {
        seed_postings(columns, assignment, n - 1) + node_postings(columns, n - 1, assignment[n - 1])
    }
}

/// The postings of one relabelled node under the first `n` keys: out of the old district, into the
/// new one.
pub open spec fn change_postings<W>(columns: Seq<Seq<W>>, c: DeltaChange, n: int) -> Seq<
    Posting<W>,
>
    decreases n,
{
    if n <= 0 {
        Seq::empty()
    } else {
        let value = columns[n - 1][c.node as int];
        let table = (n - 1) as usize;
        change_postings(columns, c, n - 1).push(
            Posting { table, district: c.old, negative: true, value },
        ).push(Posting { table, district: c.new, negative: false, value })
    }
}

/// The postings of a delta, change by change.
pub open spec fn delta_postings<W>(columns: Seq<Seq<W>>, changes: Seq<DeltaChange>) -> Seq<
    Posting<W>,
>
    decreases changes.len(),
{
    if changes.len() == 0 {
        Seq::empty()
    } else {
        delta_postings(columns, changes.drop_last()) + change_postings(
            columns,
            changes.last(),
            columns.len() as int,
        )
    }
}

proof fn lemma_node_postings_balance<W>(
    columns: Seq<Seq<W>>,
    node: int,
    label: u16,
    n: int,
    key: int,
    district: int,
    worth: spec_fn(W) -> int,
)
    requires
        0 <= n <= columns.len() <= usize::MAX,
        0 <= key < columns.len(),
    ensures
        balance(node_postings(columns, node, label).take(n), key, district, worth) == if key < n
            && label == district {
            worth(columns[key][node])
        } else {
            0
        },
    decreases n,
{
    if n > 0 {
        let all = node_postings(columns, node, label);
        lemma_node_postings_balance(columns, node, label, n - 1, key, district, worth);
        assert(all.take(n).drop_last() =~= all.take(n - 1));
        assert(all.take(n).last() == all[n - 1]);
    }
}

/// Seeding posts, for every key and district, exactly the sum of the values of the district's
/// nodes.
pub proof fn law_seed_posts_district_sums<W>(
    columns: Seq<Seq<W>>,
    assignment: Seq<u16>,
    n: int,
    key: int,
    district: int,
    worth: spec_fn(W) -> int,
)
    requires
        0 <= n <= assignment.len(),
        0 <= key < columns.len() <= usize::MAX,
    ensures
        balance(seed_postings(columns, assignment, n), key, district, worth) == district_sum(
            columns[key],
            assignment,
            district,
            n,
            worth,
        ),
    decreases n,
{
    if n > 0 {
        law_seed_posts_district_sums(columns, assignment, n - 1, key, district, worth);
        let here = node_postings(columns, n - 1, assignment[n - 1]);
        lemma_node_postings_balance(
            columns,
            n - 1,
            assignment[n - 1],
            columns.len() as int,
            key,
            district,
            worth,
        );
        assert(here.take(columns.len() as int) =~= here);
        lemma_balance_add(
            seed_postings(columns, assignment, n - 1),
            here,
            key,
            district,
            worth,
        );
    }
}

proof fn lemma_change_postings_balance<W>(
    columns: Seq<Seq<W>>,
    c: DeltaChange,
    n: int,
    key: int,
    district: int,
    worth: spec_fn(W) -> int,
)
    requires
        0 <= n <= columns.len() <= usize::MAX,
        0 <= key < columns.len(),
    ensures
        balance(change_postings(columns, c, n), key, district, worth) == if key < n {
            (if c.new == district {
                worth(columns[key][c.node as int])
            } else {
                0
            }) - (if c.old == district {
                worth(columns[key][c.node as int])
            } else {
                0
            })
        } else {
            0
        },
    decreases n,
{
    if n > 0 {
        lemma_change_postings_balance(columns, c, n - 1, key, district, worth);
        let value = columns[n - 1][c.node as int];
        let table = (n - 1) as usize;
        let first = Posting { table, district: c.old, negative: true, value };
        let second = Posting { table, district: c.new, negative: false, value };
        let earlier = change_postings(columns, c, n - 1);
        lemma_balance_push(earlier, first, key, district, worth);
        lemma_balance_push(earlier.push(first), second, key, district, worth);
    }
}

proof fn lemma_delta_balance<W>(
    columns: Seq<Seq<W>>,
    changes: Seq<DeltaChange>,
    key: int,
    district: int,
    worth: spec_fn(W) -> int,
)
    requires
        0 <= key < columns.len() <= usize::MAX,
    ensures
        balance(delta_postings(columns, changes), key, district, worth) == moved(
            columns[key],
            changes,
            district,
            worth,
        ),
    decreases changes.len(),
{
    if changes.len() > 0 {
        lemma_delta_balance(columns, changes.drop_last(), key, district, worth);
        lemma_change_postings_balance(
            columns,
            changes.last(),
            columns.len() as int,
            key,
            district,
            worth,
        );
        lemma_balance_add(
            delta_postings(columns, changes.drop_last()),
            change_postings(columns, changes.last(), columns.len() as int),
            key,
            district,
            worth,
        );
    }
}

/// Patching a plan's totals with the postings of a delta gives the totals of the plan after the
/// delta, as a seed from that plan would.
pub proof fn law_patched_totals_are_recomputed_totals<W>(
    columns: Seq<Seq<W>>,
    before: Seq<u16>,
    changes: Seq<DeltaChange>,
    key: int,
    district: int,
    worth: spec_fn(W) -> int,
)
    requires
        applicable(before, changes),
        0 <= key < columns.len() <= usize::MAX,
    ensures
        balance(
            seed_postings(columns, applied(before, changes), before.len() as int),
            key,
            district,
            worth,
        ) == balance(
            seed_postings(columns, before, before.len() as int),
            key,
            district,
            worth,
        ) + balance(delta_postings(columns, changes), key, district, worth),
{
    let n = changes.len() as int;
    assert(changes.take(n) =~= changes);
    lemma_district_sum_applied(columns[key], before, changes, n, district, worth);
    lemma_delta_balance(columns, changes, key, district, worth);
    law_seed_posts_district_sums(columns, before, before.len() as int, key, district, worth);
    law_seed_posts_district_sums(
        columns,
        applied(before, changes),
        before.len() as int,
        key,
        district,
        worth,
    );
}

/// The values to add up for a district are those of the nodes with its label, in node order.
pub proof fn law_addends_listed<W>(column: Seq<W>, assignment: Seq<u16>, district: int, n: int)
    requires
        0 <= n,
    ensures
        addends(column, assignment, district, n) == listed(
            n,
            |i: int| assignment[i] == district,
        ).map_values(|i: int| column[i]),
    decreases n,
{
    let here = |i: int| assignment[i] == district;
    law_listed(n - 1, here);
    if n > 0 {
        law_addends_listed(column, assignment, district, n - 1);
    }
    assert(addends(column, assignment, district, n) =~= listed(n, here).map_values(
        |i: int| column[i],
    ));
}

/// The values to add up for a district are worth what its nodes are worth together.
pub proof fn law_addends_worth<W>(
    column: Seq<W>,
    assignment: Seq<u16>,
    district: int,
    n: int,
    worth: spec_fn(W) -> int,
)
    requires
        0 <= n,
    ensures
        sum_below(
            addends(column, assignment, district, n).len() as int,
            |k: int| worth(addends(column, assignment, district, n)[k]),
        ) == sum_below(
            n,
            |i: int|
                if assignment[i] == district {
                    worth(column[i])
                } else {
                    0
                },
        ),
    decreases n,
{
    let all = addends(column, assignment, district, n);
    let values = |k: int| worth(all[k]);
    let terms = |i: int|
        if assignment[i] == district {
            worth(column[i])
        } else {
            0
        };
    law_sum_below(0, values);
    law_sum_below(n - 1, terms);
    if n > 0 {
        let shorter = addends(column, assignment, district, n - 1);
        law_addends_worth(column, assignment, district, n - 1, worth);
        lemma_sum_same(shorter.len() as int, |k: int| worth(shorter[k]), values);
        law_sum_below(shorter.len() as int, values);
    }
}

/// A seed posts to the table of each key and to each district the worth of the nodes with its
/// label.
pub proof fn law_seed_totals<W>(
    columns: Seq<Seq<W>>,
    assignment: Seq<u16>,
    key: int,
    district: int,
    worth: spec_fn(W) -> int,
)
    requires
        0 <= key < columns.len() <= usize::MAX,
    ensures
        balance(
            seed_postings(columns, assignment, assignment.len() as int),
            key,
            district,
            worth,
        ) == sum_below(
            assignment.len() as int,
            |i: int|
                if assignment[i] == district {
                    worth(columns[key][i])
                } else {
                    0
                },
        ),
{
    law_seed_posts_district_sums(
        columns,
        assignment,
        assignment.len() as int,
        key,
        district,
        worth,
    );
    law_district_sum(columns[key], assignment, district, assignment.len() as int, worth);
}

/// The postings of a seed, one by one: node after node, and for each node key after key, its value to
/// the district that has it.
pub proof fn law_seed_postings_in_order<W>(
    columns: Seq<Seq<W>>,
    assignment: Seq<u16>,
    n: int,
    i: int,
    k: int,
)
    requires
        0 <= n,
    ensures
        seed_postings(columns, assignment, n).len() == n * columns.len(),
        0 <= i < n && 0 <= k < columns.len() ==> 0 <= i * columns.len() + k < n * columns.len()
            && seed_postings(columns, assignment, n)[i * columns.len() + k] == (Posting {
            table: k as usize,
            district: assignment[i],
            negative: false,
            value: columns[k][i],
        }),
    decreases n,
{
    let m = columns.len() as int;
    if n > 0 {
        law_seed_postings_in_order(columns, assignment, n - 1, i, k);
        assert((n - 1) * m + m == n * m) by (nonlinear_arith);
        if 0 <= i < n && 0 <= k < m {
            assert(0 <= i * m + k < n * m) by (nonlinear_arith)
                requires
                    0 <= i < n,
                    0 <= k < m,
            ;
        }
    } else {
        assert(n * m == 0) by (nonlinear_arith)
            requires
                n == 0,
        ;
    }
}

/// The postings of a delta, one by one: change after change, and for each change key after key, the
/// value of its node off the old district and to the new one.
pub proof fn law_delta_postings_in_order<W>(
    columns: Seq<Seq<W>>,
    changes: Seq<DeltaChange>,
    c: DeltaChange,
    k: int,
)
    ensures
        delta_postings(columns, Seq::empty()).len() == 0,
        delta_postings(columns, changes.push(c)).len() == delta_postings(columns, changes).len() + 2
            * columns.len(),
        delta_postings(columns, changes.push(c)).take(
            delta_postings(columns, changes).len() as int,
        ) == delta_postings(columns, changes),
        0 <= k < columns.len() ==> delta_postings(columns, changes.push(c))[delta_postings(
            columns,
            changes,
        ).len() + 2 * k] == (Posting {
            table: k as usize,
            district: c.old,
            negative: true,
            value: columns[k][c.node as int],
        }),
        0 <= k < columns.len() ==> delta_postings(columns, changes.push(c))[delta_postings(
            columns,
            changes,
        ).len() + 2 * k + 1] == (Posting {
            table: k as usize,
            district: c.new,
            negative: false,
            value: columns[k][c.node as int],
        }),
{
    assert(changes.push(c).drop_last() =~= changes);
    let before = delta_postings(columns, changes);
    lemma_change_postings_at(columns, c, columns.len() as int, k);
    assert(delta_postings(columns, changes.push(c)).take(before.len() as int) =~= before);
}

proof fn lemma_change_postings_at<W>(columns: Seq<Seq<W>>, c: DeltaChange, n: int, k: int)
    requires
        0 <= n,
    ensures
        change_postings(columns, c, n).len() == 2 * n,
        0 <= k < n ==> change_postings(columns, c, n)[2 * k] == (Posting {
            table: k as usize,
            district: c.old,
            negative: true,
            value: columns[k][c.node as int],
        }),
        0 <= k < n ==> change_postings(columns, c, n)[2 * k + 1] == (Posting {
            table: k as usize,
            district: c.new,
            negative: false,
            value: columns[k][c.node as int],
        }),
    decreases n,
{
    if n > 0 {
        lemma_change_postings_at(columns, c, n - 1, k);
    }
}

impl<'g, W: Copy> IncrementalTallies<'g, W> {
    /// The values of every key.
    pub open spec fn columns(&self) -> Seq<Seq<W>> {
        Seq::new(
            self.attr_column_indices@.len(),
            |k: int| self.graph.attr_columns@[self.attr_column_indices@[k] as int]@,
        )
    }

    /// State for the given columns.
    pub fn new(graph: &'g Graph<W>, attr_column_indices: &'g [usize]) -> (r: Self)
        requires
            graph.columns_wf(),
            graph.node_count <= u32::MAX,
            forall|k: int|
                0 <= k < attr_column_indices@.len() ==> #[trigger] attr_column_indices@[k]
                    < graph.attr_columns@.len(),
        ensures
            r.wf(),
            r.graph == graph,
            r.attr_column_indices == attr_column_indices,
    {
        IncrementalTallies {
            graph,
            attr_column_indices,
            postings: Vec::new(),
            presence: DistrictPresence::new(),
        }
    }

    fn post_node(&mut self, node: usize, district: u16)
        requires
            old(self).wf(),
            node < old(self).graph.node_count,
        ensures
            final(self).graph == old(self).graph,
            final(self).attr_column_indices == old(self).attr_column_indices,
            final(self).presence == old(self).presence,
            final(self).postings@ == old(self).postings@ + node_postings(
                old(self).columns(),
                node as int,
                district,
            ),
    {
        let ghost start = self.postings@;
        let ghost all = node_postings(self.columns(), node as int, district);
        let mut k: usize = 0;
        while k < self.attr_column_indices.len()
            invariant
                k <= self.attr_column_indices@.len(),
                self.wf(),
                node < self.graph.node_count,
                self.graph == old(self).graph,
                self.attr_column_indices == old(self).attr_column_indices,
                self.presence == old(self).presence,
                all == node_postings(self.columns(), node as int, district),
                self.postings@ == start + all.take(k as int),
            decreases self.attr_column_indices.len() - k,
        {
            let column_index: usize = self.attr_column_indices[k];
            assert(self.attr_column_indices@[k as int] < self.graph.attr_columns@.len());
            assert(self.graph.attr_columns@[column_index as int]@.len() == self.graph.node_count);
            let value: W = self.graph.attr_columns[column_index][node];
            self.postings.push(Posting { table: k, district, negative: false, value });
            proof {
                assert(all.take(k + 1) =~= all.take(k as int).push(all[k as int]));
            }
            k += 1;
        }
        proof {
            assert(all.take(all.len() as int) =~= all);
        }
    }

    fn post_change(&mut self, change: DeltaChange)
        requires
            old(self).wf(),
            change.node < old(self).graph.node_count,
        ensures
            final(self).graph == old(self).graph,
            final(self).attr_column_indices == old(self).attr_column_indices,
            final(self).presence == old(self).presence,
            final(self).postings@ == old(self).postings@ + change_postings(
                old(self).columns(),
                change,
                old(self).columns().len() as int,
            ),
    {
        let ghost start = self.postings@;
        let mut k: usize = 0;
        while k < self.attr_column_indices.len()
            invariant
                k <= self.attr_column_indices@.len(),
                self.wf(),
                change.node < self.graph.node_count,
                self.graph == old(self).graph,
                self.attr_column_indices == old(self).attr_column_indices,
                self.presence == old(self).presence,
                self.postings@ == start + change_postings(self.columns(), change, k as int),
            decreases self.attr_column_indices.len() - k,
        {
            let column_index: usize = self.attr_column_indices[k];
            assert(self.attr_column_indices@[k as int] < self.graph.attr_columns@.len());
            assert(self.graph.attr_columns@[column_index as int]@.len() == self.graph.node_count);
            let value: W = self.graph.attr_columns[column_index][change.node];
            self.postings.push(Posting { table: k, district: change.old, negative: true, value });
            self.postings.push(Posting { table: k, district: change.new, negative: false, value });
            k += 1;
        }
    }
}

impl<'g, W: Copy> IncrementalTwoDeltaMetric for IncrementalTallies<'g, W> {
    open spec fn node_count(&self) -> nat {
        self.graph.node_count as nat
    }

    open spec fn wf(&self) -> bool {
        &&& self.graph.columns_wf()
        &&& self.graph.node_count <= u32::MAX
        &&& forall|k: int|
            0 <= k < self.attr_column_indices@.len() ==> #[trigger] self.attr_column_indices@[k]
                < self.graph.attr_columns@.len()
    }

    open spec fn patches_left(&self) -> nat {
        u64::MAX as nat
    }

    open spec fn tracks(&self, assignment: Seq<u16>) -> bool {
        self.presence.tracks(assignment)
    }

    open spec fn seeded(&self, before: Self, assignment: Seq<u16>) -> bool {
        &&& self.graph == before.graph
        &&& self.attr_column_indices == before.attr_column_indices
        &&& self.postings@ == seed_postings(self.columns(), assignment, assignment.len() as int)
    }

    open spec fn patched(
        &self,
        before: Self,
        assignment: Seq<u16>,
        changes: Seq<DeltaChange>,
    ) -> bool {
        &&& self.graph == before.graph
        &&& self.attr_column_indices == before.attr_column_indices
        &&& self.postings@ == delta_postings(self.columns(), changes)
    }

    open spec fn labels(&self) -> u128 {
        self.presence.observed
    }

    fn seed(&mut self, assignment: &[u16]) -> (r: Result<(), Error>) {
        self.postings = Vec::new();
        self.presence = DistrictPresence::new();
        let mut node: usize = 0;
        proof {
            assert(assignment@.take(0) =~= Seq::empty());
        }
        while node < assignment.len()
            invariant
                node <= assignment@.len(),
                self.wf(),
                self.graph == old(self).graph,
                self.attr_column_indices == old(self).attr_column_indices,
                assignment@.len() == self.node_count(),
                self.presence.tracks(assignment@.take(node as int)),
                forall|i: int| 0 <= i < node ==> #[trigger] assignment@[i] < MAX_DISTRICTS,
                self.postings@ == seed_postings(self.columns(), assignment@, node as int),
            decreases assignment.len() - node,
        {
            let district: u16 = assignment[node];
            match self.presence.add(district, Ghost(assignment@.take(node as int))) {
                Ok(()) => {},
                Err(e) => {
                    assert(assignment@[node as int] >= MAX_DISTRICTS);
                    return Err(e);
                },
            }
            proof {
                assert(assignment@.take(node as int).push(district) =~= assignment@.take(node + 1));
            }
            self.post_node(node, district);
            node += 1;
        }
        proof {
            assert(assignment@.take(assignment@.len() as int) =~= assignment@);
        }
        Ok(())
    }

    fn update_delta(&mut self, before: &[u16], changes: &[DeltaChange]) -> (r: Result<(), Error>) {
        self.postings = Vec::new();
        let mut c: usize = 0;
        proof {
            assert(changes@.take(0) =~= Seq::empty());
        }
        while c < changes.len()
            invariant
                c <= changes@.len(),
                self.wf(),
                self.graph == old(self).graph,
                self.attr_column_indices == old(self).attr_column_indices,
                before@.len() == self.node_count(),
                within_limit(before@),
                applicable(before@, changes@),
                forall|j: int| 0 <= j < c ==> (#[trigger] changes@[j]).new < MAX_DISTRICTS,
                self.presence.tracks(applied(before@, changes@.take(c as int))),
                within_limit(applied(before@, changes@.take(c as int))),
                applied(before@, changes@.take(c as int)).len() == before@.len(),
                self.postings@ == delta_postings(self.columns(), changes@.take(c as int)),
            decreases changes.len() - c,
        {
            let change = changes[c];
            let ghost cur = applied(before@, changes@.take(c as int));
            proof {
                lemma_applicable_at(before@, changes@, c as int);
            }
            match self.presence.relabel(
                change.old,
                change.new,
                Ghost(cur),
                Ghost(change.node as int),
            ) {
                Ok(()) => {},
                Err(e) => {
                    proof {
                        assert(cur[change.node as int] < MAX_DISTRICTS);
                        assert(changes@[c as int].new >= MAX_DISTRICTS);
                    }
                    return Err(e);
                },
            }
            self.post_change(change);
            proof {
                assert(changes@.take(c + 1).drop_last() =~= changes@.take(c as int));
                assert(changes@.take(c + 1).last() == change);
            }
            c += 1;
        }
        proof {
            assert(changes@.take(changes@.len() as int) =~= changes@);
        }
        Ok(())
    }

    fn observed(&self) -> (r: u128) {
        self.presence.observed
    }
}

} // verus!
