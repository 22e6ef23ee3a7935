//! The equality polynomial on the Boolean hypercube.
use crate::field::{
    lemma_plus_associates, lemma_plus_self, lemma_plus_zero, lemma_times_associates,
    lemma_times_distributes, lemma_times_one, F128,
};
use crate::sum::{lemma_sum_pairs, sum};
use vstd::arithmetic::power2::{lemma2_to64, lemma_pow2_unfold, pow2};
use vstd::prelude::*;

verus! {

/// `r` where the variable is one, `1 + r` where it is zero.
pub open spec fn eq_factor(r: F128, one: bool) -> F128 {
    if one {
        r
    } else {
        F128::one().plus(r)
    }
}

/// The equality polynomial of `r` at the vertex `x`: the product over `i` of
/// `r[i]` or `1 + r[i]`, as bit `i` of `x` is one or zero.
pub open spec fn eq_weight(r: Seq<F128>, x: int) -> F128
    decreases r.len(),
{
    if r.len() == 0 {
        F128::one()
    } else {
        eq_factor(r[0], x % 2 == 1).times(eq_weight(r.skip(1), x / 2))
    }
}

/// A further variable is the next higher bit of the vertex.
proof fn lemma_eq_weight_push(r: Seq<F128>, c: F128, x: int, one: bool)
    requires
        0 <= x < pow2(r.len()),
    ensures
        eq_weight(r.push(c), x + if one { pow2(r.len()) as int } else { 0 }) == eq_weight(
            r,
            x,
        ).times(eq_factor(c, one)),
    decreases r.len(),
{
    let n = r.len();
    let s = r.push(c);
    let top = if one { pow2(n) as int } else { 0 };
    if n == 0 {
        assert(pow2(0) == 1) by {
            lemma2_to64();
        }
        assert(((x + top) % 2 == 1) == one);
        assert(eq_weight(s.skip(1), (x + top) / 2) == F128::one());
        lemma_times_one(eq_factor(c, one));
    } else {
        let rest = r.skip(1);
        assert(s.skip(1) =~= rest.push(c));
        lemma_pow2_unfold(n);
        let half = if one { pow2((n - 1) as nat) as int } else { 0 };
        assert(top == 2 * half);
        assert((x + top) % 2 == x % 2 && (x + top) / 2 == x / 2 + half);
        lemma_eq_weight_push(rest, c, x / 2, one);
        lemma_times_associates(
            eq_factor(r[0], x % 2 == 1),
            eq_weight(rest, x / 2),
            eq_factor(c, one),
        );
    }
}

/// The table of the equality polynomial of `r` over the Boolean hypercube.
pub fn build_eq(r: &[F128]) -> (table: Vec<F128>)
    requires
        pow2(r@.len()) <= usize::MAX,
    ensures
        table@.len() == pow2(r@.len()),
        forall|x: int| 0 <= x < table@.len() ==> #[trigger] table@[x] == eq_weight(r@, x),
{
    let mut table: Vec<F128> = Vec::new();
    table.push(F128::one());
    let mut i: usize = 0;
    proof {
        lemma2_to64();
    }
    while i < r.len()
        invariant
            i <= r@.len(),
            table@.len() == pow2(i as nat),
            forall|x: int|
                0 <= x < table@.len() ==> #[trigger] table@[x] == eq_weight(r@.take(i as int), x),
        decreases r.len() - i,
    {
        let c = r[i];
        let size: usize = table.len();
        let mut j: usize = 0;
        let ghost head = r@.take(i as int);
        let ghost next = r@.take(i + 1);
        assert(next =~= head.push(c));
        while j < size
            invariant
                j <= size,
                table@.len() == size + j,
                size == pow2(head.len()),
                next == head.push(c),
                forall|x: int| j <= x < size ==> #[trigger] table@[x] == eq_weight(head, x),
                forall|x: int| 0 <= x < j ==> #[trigger] table@[x] == eq_weight(next, x),
                forall|x: int| size <= x < size + j ==> #[trigger] table@[x] == eq_weight(next, x),
            decreases size - j,
        {
            let w = table[j];
            let high = w * c;
            table[j] = w + high;
            table.push(high);
            proof {
                lemma_eq_weight_push(head, c, j as int, true);
                lemma_eq_weight_push(head, c, j as int, false);
                lemma_times_distributes(w, F128::one(), c);
                lemma_times_one(w);
            }
            j = j + 1;
        }
        proof {
            lemma_pow2_unfold((i + 1) as nat);
        }
        i = i + 1;
    }
    assert(r@.take(i as int) =~= r@);
    table
}

/// The weights of all vertices sum to one.
pub proof fn lemma_eq_weights_sum(r: Seq<F128>)
    ensures
        sum(|x: int| eq_weight(r, x), pow2(r.len()) as int) == F128::one(),
    decreases r.len(),
{
    let n = r.len();
    let f = |x: int| eq_weight(r, x);
    if n == 0 {
        lemma2_to64();
        assert(sum(f, 1) == sum(f, 0).plus(f(0)));
        lemma_plus_zero(F128::one());
    } else {
        let rest = r.skip(1);
        let g = |u: int| eq_weight(rest, u);
        let half = pow2((n - 1) as nat) as int;
        lemma_pow2_unfold(n);
        assert forall|u: int| 0 <= u < half implies #[trigger] g(u) == f(2 * u).plus(
            f(2 * u + 1),
        ) by {
            let low = eq_factor(r[0], false);
            let high = eq_factor(r[0], true);
            assert((2 * u) % 2 == 0 && (2 * u) / 2 == u);
            assert((2 * u + 1) % 2 == 1 && (2 * u + 1) / 2 == u);
            lemma_times_distributes(g(u), low, high);
            lemma_plus_associates(F128::one(), r[0], r[0]);
            lemma_plus_self(r[0]);
            lemma_plus_zero(F128::one());
            lemma_times_one(g(u));
        }
        lemma_sum_pairs(f, g, half);
        lemma_eq_weights_sum(rest);
    }
}

/// Setting the first variable multiplies the weight of the other variables by
/// `r[0]` at one and by `1 + r[0]` at zero; without variables the weight is one.
pub proof fn lemma_eq_weight_first(r: Seq<F128>, u: int)
    ensures
        r.len() == 0 ==> eq_weight(r, u) == (F128 { lo: 1, hi: 0 }),
        r.len() > 0 ==> eq_weight(r, 2 * u + 1) == r[0].times(eq_weight(r.skip(1), u)),
        r.len() > 0 ==> eq_weight(r, 2 * u) == (F128 { lo: 1, hi: 0 }).plus(r[0]).times(
            eq_weight(r.skip(1), u),
        ),
{
    assert((2 * u) % 2 == 0 && (2 * u) / 2 == u);
    assert((2 * u + 1) % 2 == 1 && (2 * u + 1) / 2 == u);
}

/// The same for a variable added last: it is the next higher bit of the vertex.
pub proof fn lemma_eq_weight_last(r: Seq<F128>, c: F128, x: int)
    requires
        0 <= x < pow2(r.len()),
    ensures
        eq_weight(r.push(c), x + pow2(r.len())) == eq_weight(r, x).times(c),
        eq_weight(r.push(c), x) == eq_weight(r, x).times((F128 { lo: 1, hi: 0 }).plus(c)),
{
    lemma_eq_weight_push(r, c, x, true);
    lemma_eq_weight_push(r, c, x, false);
}

} // verus!
