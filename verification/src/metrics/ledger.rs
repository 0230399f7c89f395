//! Ordered additions and subtractions of abstract values.
//!
//! The library decides which value goes to which district total, in which order and with which
//! sign; whoever owns the totals adds them up. A [`Posting`] is one such addition or subtraction.
use crate::metrics::counts::{law_sum_below, lemma_sum_same, sum_below};
use crate::metrics::twodelta::{applicable, applied, lemma_applicable_at, DeltaChange};
use vstd::prelude::*;

verus! {

/// Add `value` to, or subtract it from, the total of `district` in one of several tables.
#[derive(Debug)]
pub struct Posting<W> {
    pub table: usize,
    pub district: u16,
    pub negative: bool,
    pub value: W,
}

/// What one posting adds to the total of `district` in `table`, for values worth `worth`.
pub open spec fn posted<W>(
    p: Posting<W>,
    table: int,
    district: int,
    worth: spec_fn(W) -> int,
) -> int {
    if p.table == table && p.district == district {
        if p.negative {
            -worth(p.value)
        } else {
            worth(p.value)
        }
    } else {
        0
    }
}

/// What the postings add to the total of `district` in `table`, for values worth `worth`.
pub open spec fn balance<W>(
    postings: Seq<Posting<W>>,
    table: int,
    district: int,
    worth: spec_fn(W) -> int,
) -> int
    decreases postings.len(),
{
    if postings.len() == 0 {
        0
    } else {
        balance(postings.drop_last(), table, district, worth) + posted(
            postings.last(),
            table,
            district,
            worth,
        )
    }
}

/// The balance of postings made one after another is the sum of their balances.
pub proof fn lemma_balance_add<W>(
    a: Seq<Posting<W>>,
    b: Seq<Posting<W>>,
    table: int,
    district: int,
    worth: spec_fn(W) -> int,
)
    ensures
        balance(a + b, table, district, worth) == balance(a, table, district, worth) + balance(
            b,
            table,
            district,
            worth,
        ),
    decreases b.len(),
{
    if b.len() == 0 {
        assert(a + b =~= a);
    } else {
        assert((a + b).drop_last() =~= a + b.drop_last());
        lemma_balance_add(a, b.drop_last(), table, district, worth);
    }
}

/// The balance after one more posting.
pub proof fn lemma_balance_push<W>(
    a: Seq<Posting<W>>,
    p: Posting<W>,
    table: int,
    district: int,
    worth: spec_fn(W) -> int,
)
    ensures
        balance(a.push(p), table, district, worth) == balance(a, table, district, worth) + posted(
            p,
            table,
            district,
            worth,
        ),
{
    assert(a.push(p).drop_last() =~= a);
}

/// The worth of the values of the nodes in `district`, among the first `n` nodes.
pub open spec fn district_sum<W>(
    column: Seq<W>,
    assignment: Seq<u16>,
    district: int,
    n: int,
    worth: spec_fn(W) -> int,
) -> int
    decreases n,
{
    if n <= 0 {
        0
    } else {
        district_sum(column, assignment, district, n - 1, worth) + if assignment[n - 1]
            == district {
            worth(column[n - 1])
        } else {
            0
        }
    }
}

/// What postings add to a total is the sum of the worths of the values posted to it, with the sign
/// of each.
pub proof fn law_balance<W>(
    postings: Seq<Posting<W>>,
    table: int,
    district: int,
    worth: spec_fn(W) -> int,
)
    ensures
        balance(postings, table, district, worth) == sum_below(
            postings.len() as int,
            |i: int|
                if postings[i].table == table && postings[i].district == district {
                    if postings[i].negative {
                        -worth(postings[i].value)
                    } else {
                        worth(postings[i].value)
                    }
                } else {
                    0
                },
        ),
    decreases postings.len(),
{
    let term = |i: int|
        if postings[i].table == table && postings[i].district == district {
            if postings[i].negative {
                -worth(postings[i].value)
            } else {
                worth(postings[i].value)
            }
        } else {
            0
        };
    let n = postings.len() as int;
    law_sum_below(n - 1, term);
    if n > 0 {
        let shorter = postings.drop_last();
        law_balance(shorter, table, district, worth);
        let before = |i: int|
            if shorter[i].table == table && shorter[i].district == district {
                if shorter[i].negative {
                    -worth(shorter[i].value)
                } else {
                    worth(shorter[i].value)
                }
            } else {
                0
            };
        lemma_sum_same(n - 1, before, term);
    }
}

/// The worth of a district is the sum of the worths of the nodes that have its label.
pub proof fn law_district_sum<W>(
    column: Seq<W>,
    assignment: Seq<u16>,
    district: int,
    n: int,
    worth: spec_fn(W) -> int,
)
    requires
        0 <= n,
    ensures
        district_sum(column, assignment, district, n, worth) == sum_below(
            n,
            |i: int|
                if assignment[i] == district {
                    worth(column[i])
                } else {
                    0
                },
        ),
    decreases n,
{
    let term = |i: int|
        if assignment[i] == district {
            worth(column[i])
        } else {
            0
        };
    law_sum_below(n - 1, term);
    if n > 0 {
        law_district_sum(column, assignment, district, n - 1, worth);
    }
}

/// Relabelling one node moves the worth of its value.
pub proof fn lemma_district_sum_update<W>(
    column: Seq<W>,
    assignment: Seq<u16>,
    node: int,
    label: u16,
    district: int,
    n: int,
    worth: spec_fn(W) -> int,
)
    requires
        0 <= node < assignment.len(),
        n <= assignment.len(),
    ensures
        district_sum(column, assignment.update(node, label), district, n, worth) == district_sum(
            column,
            assignment,
            district,
            n,
            worth,
        ) + (if node < n && label == district {
            worth(column[node])
        } else {
            0
        }) - (if node < n && assignment[node] == district {
            worth(column[node])
        } else {
            0
        }),
    decreases n,
{
    if n > 0 {
        lemma_district_sum_update(column, assignment, node, label, district, n - 1, worth);
    }
}

/// What the changes move into and out of `district`, for values worth `worth`.
pub open spec fn moved<W>(
    column: Seq<W>,
    changes: Seq<DeltaChange>,
    district: int,
    worth: spec_fn(W) -> int,
) -> int
    decreases changes.len(),
{
    if changes.len() == 0 {
        0
    } else {
        let c = changes.last();
        moved(column, changes.drop_last(), district, worth) + (if c.new == district {
            worth(column[c.node as int])
        } else {
            0
        }) - (if c.old == district {
            worth(column[c.node as int])
        } else {
            0
        })
    }
}

/// The district sum after changes is the one before plus what the changes move.
pub proof fn lemma_district_sum_applied<W>(
    column: Seq<W>,
    before: Seq<u16>,
    changes: Seq<DeltaChange>,
    k: int,
    district: int,
    worth: spec_fn(W) -> int,
)
    requires
        applicable(before, changes),
        0 <= k <= changes.len(),
    ensures
        district_sum(
            column,
            applied(before, changes.take(k)),
            district,
            before.len() as int,
            worth,
        ) == district_sum(column, before, district, before.len() as int, worth) + moved(
            column,
            changes.take(k),
            district,
            worth,
        ),
        applied(before, changes.take(k)).len() == before.len(),
    decreases k,
{
    if k == 0 {
        assert(changes.take(0) =~= Seq::empty());
    } else {
        lemma_district_sum_applied(column, before, changes, k - 1, district, worth);
        lemma_applicable_at(before, changes, k - 1);
        let c = changes[k - 1];
        lemma_district_sum_update(
            column,
            applied(before, changes.take(k - 1)),
            c.node as int,
            c.new,
            district,
            before.len() as int,
            worth,
        );
        assert(changes.take(k).drop_last() =~= changes.take(k - 1));
        assert(changes.take(k).last() == c);
    }
}

} // verus!
