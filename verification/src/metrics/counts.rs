//! Sums and counts over ranges of indices.
use vstd::prelude::*;

verus! {

/// The sum of `values`.
pub open spec fn sum(values: Seq<int>) -> int {
    values.fold_left(0, |total: int, value: int| total + value)
}

/// The sum of `term(i)` over the indices below `n`.
pub open spec fn sum_below(n: int, term: spec_fn(int) -> int) -> int {
    sum(Seq::new(if n < 0 { 0 } else { n as nat }, term))
}

/// The indices below `n` for which `holds`.
pub open spec fn indices(n: int, holds: spec_fn(int) -> bool) -> Set<int> {
    Set::new(|i: int| 0 <= i < n && holds(i))
}

/// The empty sum is zero, and one more value adds that value.
pub proof fn law_sum(values: Seq<int>, value: int)
    ensures
        sum(Seq::empty()) == 0,
        sum(values.push(value)) == sum(values) + value,
{
    assert(values.push(value).drop_last() =~= values);
}

/// A sum over no index is zero, and one more index adds its term.
pub proof fn law_sum_below(n: int, term: spec_fn(int) -> int)
    ensures
        sum_below(0, term) == 0,
        0 <= n ==> sum_below(n + 1, term) == sum_below(n, term) + term(n),
{
    assert(Seq::new(0, term) =~= Seq::empty());
    if 0 <= n {
        assert(Seq::new((n + 1) as nat, term) =~= Seq::new(n as nat, term).push(term(n)));
        law_sum(Seq::new(n as nat, term), term(n));
    }
}

/// Sums with equal terms are equal.
pub proof fn lemma_sum_same(n: int, a: spec_fn(int) -> int, b: spec_fn(int) -> int)
    requires
        forall|i: int| 0 <= i < n ==> #[trigger] a(i) == b(i),
    ensures
        sum_below(n, a) == sum_below(n, b),
{
    let len: nat = if n < 0 { 0 } else { n as nat };
    assert(Seq::new(len, a) =~= Seq::new(len, b));
}

/// A sum of sums is the sum of both.
pub proof fn lemma_sum_add(n: int, a: spec_fn(int) -> int, b: spec_fn(int) -> int)
    ensures
        sum_below(n, |i: int| a(i) + b(i)) == sum_below(n, a) + sum_below(n, b),
    decreases n,
{
    let both = |i: int| a(i) + b(i);
    if n <= 0 {
        assert(Seq::new(0, a) =~= Seq::empty());
        assert(Seq::new(0, b) =~= Seq::empty());
        assert(Seq::new(0, both) =~= Seq::empty());
    } else {
        lemma_sum_add(n - 1, a, b);
        law_sum_below(n - 1, a);
        law_sum_below(n - 1, b);
        law_sum_below(n - 1, both);
    }
}

/// A sum with a single term.
pub proof fn lemma_sum_at(n: int, at: int, value: int)
    ensures
        sum_below(
            n,
            |i: int|
                if i == at {
                    value
                } else {
                    0
                },
        ) == (if 0 <= at < n {
            value
        } else {
            0
        }),
    decreases n,
{
    let term = |i: int|
        if i == at {
            value
        } else {
            0
        };
    if n <= 0 {
        assert(Seq::new(0, term) =~= Seq::empty());
    } else {
        lemma_sum_at(n - 1, at, value);
        law_sum_below(n - 1, term);
    }
}

/// Which indices are taken: those from 0 on that are below `n` and for which `holds`.
pub proof fn law_indices(n: int, holds: spec_fn(int) -> bool)
    ensures
        indices(n, holds).finite(),
        forall|i: int| #[trigger] indices(n, holds).contains(i) <==> 0 <= i < n && holds(i),
        n <= 0 ==> indices(n, holds).len() == 0,
        0 <= n ==> indices(n + 1, holds).len() == indices(n, holds).len() + (if holds(n) {
            1int
        } else {
            0
        }),
    decreases n,
{
    if n <= 0 {
        assert(indices(n, holds) =~= Set::empty());
    } else {
        law_indices(n - 1, holds);
    }
    if 0 <= n {
        if holds(n) {
            assert(indices(n + 1, holds) =~= indices(n, holds).insert(n));
        } else {
            assert(indices(n + 1, holds) =~= indices(n, holds));
        }
    }
    if 0 < n {
        if holds(n - 1) {
            assert(indices(n, holds) =~= indices(n - 1, holds).insert(n - 1));
        } else {
            assert(indices(n, holds) =~= indices(n - 1, holds));
        }
    }
}

/// The indices below `n` for which `holds`, in ascending order.
pub open spec fn listed(n: int, holds: spec_fn(int) -> bool) -> Seq<int> {
    Seq::new(if n < 0 { 0 } else { n as nat }, |i: int| i).filter(holds)
}

/// What is listed: the indices from 0 on that are below `n` and for which `holds`, each once and in
/// ascending order.
pub proof fn law_listed(n: int, holds: spec_fn(int) -> bool)
    ensures
        listed(0, holds).len() == 0,
        0 <= n ==> listed(n + 1, holds) == (if holds(n) {
            listed(n, holds).push(n)
        } else {
            listed(n, holds)
        }),
        forall|i: int| #[trigger] listed(n, holds).contains(i) <==> 0 <= i < n && holds(i),
        forall|i: int, j: int|
            0 <= i < j < listed(n, holds).len() ==> #[trigger] listed(n, holds)[i]
                < #[trigger] listed(n, holds)[j],
        listed(n, holds).len() == indices(n, holds).len(),
    decreases n,
{
    lemma_listed_step(0, holds);
    lemma_listed_step(n, holds);
    law_indices(0, holds);
    law_indices(n, holds);
    if n <= 0 {
        reveal(Seq::filter);
        assert(listed(n, holds) =~= Seq::empty());
    } else {
        lemma_listed_step(n - 1, holds);
        law_listed(n - 1, holds);
        law_indices(n - 1, holds);
        let before = listed(n - 1, holds);
        let all = listed(n, holds);
        assert forall|i: int| #[trigger] all.contains(i) <==> 0 <= i < n && holds(i) by {
            assert(before.contains(i) <==> 0 <= i < n - 1 && holds(i));
            if before.contains(i) {
                let k = choose|k: int| 0 <= k < before.len() && before[k] == i;
                assert(all[k] == i);
            }
            if i == n - 1 && holds(i) {
                assert(all[before.len() as int] == i);
            }
            if all.contains(i) {
                let k = choose|k: int| 0 <= k < all.len() && all[k] == i;
                if k < before.len() {
                    assert(before[k] == i);
                }
            }
        }
        assert forall|i: int, j: int| 0 <= i < j < all.len() implies #[trigger] all[i]
            < #[trigger] all[j] by {
            assert(before[i] == all[i]);
            assert(before.contains(before[i]));
            if j < before.len() {
                assert(before[j] == all[j]);
            }
        }
    }
}

proof fn lemma_listed_step(n: int, holds: spec_fn(int) -> bool)
    ensures
        listed(0, holds).len() == 0,
        0 <= n ==> listed(n + 1, holds) == (if holds(n) {
            listed(n, holds).push(n)
        } else {
            listed(n, holds)
        }),
{
    reveal(Seq::filter);
    if 0 <= n {
        let longer = Seq::new((n + 1) as nat, |i: int| i);
        assert(longer.drop_last() =~= Seq::new(n as nat, |i: int| i));
    }
}

/// Lists of the same indices are the same.
pub proof fn lemma_listed_same(n: int, a: spec_fn(int) -> bool, b: spec_fn(int) -> bool)
    requires
        forall|i: int| 0 <= i < n ==> #[trigger] a(i) == b(i),
    ensures
        listed(n, a) == listed(n, b),
    decreases n,
{
    if n <= 0 {
        law_listed(n, a);
        law_listed(n, b);
        assert(listed(n, a) =~= Seq::empty()) by {
            law_indices(n, a);
        }
        assert(listed(n, b) =~= Seq::empty()) by {
            law_indices(n, b);
        }
    } else {
        lemma_listed_same(n - 1, a, b);
        lemma_listed_step(n - 1, a);
        lemma_listed_step(n - 1, b);
    }
}

} // verus!
