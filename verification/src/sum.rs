//! Finite sums of field elements.
use crate::field::{
    lemma_plus_associates, lemma_plus_cancels, lemma_plus_commutes, lemma_plus_zero, lemma_times_distributes,
    lemma_times_zero, F128,
};
use vstd::prelude::*;

verus! {

/// The sum `f(0) + .. + f(n-1)`.
pub open spec fn sum(f: spec_fn(int) -> F128, n: int) -> F128
    decreases n,
{
    if n <= 0 {
        F128::zero()
    } else {
        sum(f, n - 1).plus(f(n - 1))
    }
}

/// Sums of equal terms are equal.
pub proof fn lemma_sum_ext(f: spec_fn(int) -> F128, g: spec_fn(int) -> F128, n: int)
    requires
        forall|i: int| 0 <= i < n ==> #[trigger] f(i) == g(i),
    ensures
        sum(f, n) == sum(g, n),
    decreases n,
{
    if n > 0 {
        lemma_sum_ext(f, g, n - 1);
        assert(f(n - 1) == g(n - 1));
    }
}

/// `(a + b) + (c + d) = (a + c) + (b + d)`.
pub proof fn lemma_plus_exchange(a: F128, b: F128, c: F128, d: F128)
    ensures
        a.plus(b).plus(c.plus(d)) == a.plus(c).plus(b.plus(d)),
{
    lemma_plus_associates(a, b, c.plus(d));
    lemma_plus_associates(b, c, d);
    lemma_plus_commutes(b, c);
    lemma_plus_associates(c, b, d);
    lemma_plus_associates(a, c, b.plus(d));
}

/// The sum of termwise sums is the sum of the sums.
pub proof fn lemma_sum_plus(
    f: spec_fn(int) -> F128,
    g: spec_fn(int) -> F128,
    h: spec_fn(int) -> F128,
    n: int,
)
    requires
        forall|i: int| 0 <= i < n ==> #[trigger] h(i) == f(i).plus(g(i)),
    ensures
        sum(h, n) == sum(f, n).plus(sum(g, n)),
    decreases n,
{
    if n > 0 {
        lemma_sum_plus(f, g, h, n - 1);
        assert(h(n - 1) == f(n - 1).plus(g(n - 1)));
        lemma_plus_exchange(sum(f, n - 1), sum(g, n - 1), f(n - 1), g(n - 1));
    } else {
        lemma_plus_zero(F128::zero());
    }
}

/// A common factor moves out of a sum.
pub proof fn lemma_sum_scale(c: F128, f: spec_fn(int) -> F128, g: spec_fn(int) -> F128, n: int)
    requires
        forall|i: int| 0 <= i < n ==> #[trigger] g(i) == c.times(f(i)),
    ensures
        sum(g, n) == c.times(sum(f, n)),
    decreases n,
{
    if n > 0 {
        lemma_sum_scale(c, f, g, n - 1);
        assert(g(n - 1) == c.times(f(n - 1)));
        lemma_times_distributes(c, sum(f, n - 1), f(n - 1));
    } else {
        lemma_times_zero(c);
    }
}

/// A sum over `0..2n` taken two terms at a time.
pub proof fn lemma_sum_pairs(f: spec_fn(int) -> F128, g: spec_fn(int) -> F128, n: int)
    requires
        forall|u: int| 0 <= u < n ==> #[trigger] g(u) == f(2 * u).plus(f(2 * u + 1)),
    ensures
        sum(f, 2 * n) == sum(g, n),
    decreases n,
{
    if n > 0 {
        lemma_sum_pairs(f, g, n - 1);
        assert(g(n - 1) == f(2 * (n - 1)).plus(f(2 * (n - 1) + 1)));
        assert(sum(f, 2 * n) == sum(f, 2 * n - 1).plus(f(2 * n - 1)));
        assert(sum(f, 2 * n - 1) == sum(f, 2 * n - 2).plus(f(2 * n - 2)));
        lemma_plus_associates(sum(f, 2 * n - 2), f(2 * n - 2), f(2 * n - 1));
    }
}

/// Changing one term changes the sum by the difference of the two terms.
pub proof fn lemma_sum_change(
    f: spec_fn(int) -> F128,
    g: spec_fn(int) -> F128,
    j: int,
    n: int,
)
    requires
        0 <= j < n,
        forall|i: int| 0 <= i < n && i != j ==> #[trigger] g(i) == f(i),
    ensures
        sum(g, n) == sum(f, n).plus(f(j).plus(g(j))),
    decreases n,
{
    let d = f(j).plus(g(j));
    let s = sum(f, n - 1);
    if j == n - 1 {
        lemma_sum_ext(g, f, n - 1);
        lemma_plus_associates(s, f(j), d);
        lemma_plus_cancels(f(j), g(j));
    } else {
        lemma_sum_change(f, g, j, n - 1);
        assert(g(n - 1) == f(n - 1));
        lemma_plus_associates(s, d, f(n - 1));
        lemma_plus_commutes(d, f(n - 1));
        lemma_plus_associates(s, f(n - 1), d);
    }
}

/// A sum of zeros is zero.
pub proof fn lemma_sum_of_zeros(f: spec_fn(int) -> F128, n: int)
    requires
        forall|i: int| 0 <= i < n ==> #[trigger] f(i) == (F128 { lo: 0, hi: 0 }),
    ensures
        sum(f, n) == (F128 { lo: 0, hi: 0 }),
    decreases n,
{
    if n > 0 {
        lemma_sum_of_zeros(f, n - 1);
        assert(f(n - 1) == F128::zero());
        lemma_plus_zero(F128::zero());
    }
}

} // verus!
