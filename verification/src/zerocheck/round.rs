//! What a round message says: the round polynomial and the sum-check identities.
use crate::field::{
    lemma_plus_associates, lemma_plus_cancels, lemma_plus_commutes, lemma_plus_self,
    lemma_plus_zero, lemma_times_associates, lemma_times_commutes, lemma_times_distributes,
    lemma_times_one, lemma_times_zero, F128,
};
use crate::sum::{
    lemma_plus_exchange, lemma_sum_ext, lemma_sum_pairs, lemma_sum_plus, lemma_sum_scale, sum,
};
use crate::zerocheck::eq::eq_weight;
use crate::zerocheck::multilinear::{
    fold_boolean, round_message, terms_at_infinity, terms_at_one,
};
use vstd::prelude::*;

verus! {

/// The terms of [`weighted_sum`].
pub open spec fn weighted_terms(a: Seq<F128>, b: Seq<F128>, r: Seq<F128>) -> spec_fn(int) -> F128 {
    |x: int| eq_weight(r, x).times(a[x].times(b[x]))
}

/// The sum of the products of the two tables' entries over the hypercube,
/// weighted by the equality polynomial of `r`.
pub open spec fn weighted_sum(a: Seq<F128>, b: Seq<F128>, r: Seq<F128>) -> F128 {
    sum(weighted_terms(a, b, r), a.len() as int)
}

/// The equality polynomial of one variable: `r * x + (1 + r) * (1 + x)`.
pub open spec fn eq_line(r: F128, x: F128) -> F128 {
    r.times(x).plus(F128::one().plus(r).times(F128::one().plus(x)))
}

/// The round polynomial at `x`: what the weighted sum of the two tables becomes
/// when the lowest variable is bound at `x`.
pub open spec fn round_polynomial(a: Seq<F128>, b: Seq<F128>, r: Seq<F128>, x: F128) -> F128 {
    eq_line(r[0], x).times(weighted_sum(fold_boolean(a, x), fold_boolean(b, x), r.skip(1)))
}

/// `c0 + c1 * x + c2 * x^2 + c3 * x^3`.
pub open spec fn cubic(c0: F128, c1: F128, c2: F128, c3: F128, x: F128) -> F128 {
    c0.plus(x.times(quadratic(c1, c2, c3, x)))
}

/// `c0 + c1 * x + c2 * x^2`.
pub open spec fn quadratic(c0: F128, c1: F128, c2: F128, x: F128) -> F128 {
    c0.plus(x.times(c1.plus(x.times(c2))))
}

/// The round polynomial is the cubic with these coefficients.
pub open spec fn has_coefficients(
    a: Seq<F128>,
    b: Seq<F128>,
    r: Seq<F128>,
    c0: F128,
    c1: F128,
    c2: F128,
    c3: F128,
) -> bool {
    forall|x: F128| #[trigger] round_polynomial(a, b, r, x) == cubic(c0, c1, c2, c3, x)
}

proof fn lemma_eq_line_at_zero(r: F128)
    ensures
        eq_line(r, F128::zero()) == F128::one().plus(r),
{
    lemma_times_zero(r);
    lemma_plus_zero(F128::one());
    lemma_times_one(F128::one().plus(r));
    lemma_plus_zero(F128::one().plus(r));
}

proof fn lemma_eq_line_at_one(r: F128)
    ensures
        eq_line(r, F128::one()) == r,
{
    lemma_times_one(r);
    lemma_plus_self(F128::one());
    lemma_times_zero(F128::one().plus(r));
    lemma_plus_zero(r);
}

/// `eq_line(r, x) = (1 + r) + x`.
proof fn lemma_eq_line_sum(r: F128, x: F128)
    ensures
        eq_line(r, x) == F128::one().plus(r).plus(x),
{
    let one = F128::one();
    let s = one.plus(r);
    let rx = r.times(x);
    lemma_times_distributes(s, one, x);
    lemma_times_one(s);
    lemma_times_distributes(x, one, r);
    lemma_times_one(x);
    // r x + (s + (x + r x))
    lemma_plus_commutes(x, rx);
    lemma_plus_associates(rx, s, rx.plus(x));
    lemma_plus_commutes(rx, s);
    lemma_plus_associates(s, rx, rx.plus(x));
    lemma_plus_cancels(rx, x);
}

proof fn lemma_fold_at_zero(t: Seq<F128>, u: int)
    requires
        0 <= u < t.len() / 2,
    ensures
        fold_boolean(t, F128::zero())[u] == t[2 * u],
{
    lemma_times_zero(t[2 * u + 1].plus(t[2 * u]));
    lemma_plus_zero(t[2 * u]);
}

proof fn lemma_fold_at_one(t: Seq<F128>, u: int)
    requires
        0 <= u < t.len() / 2,
    ensures
        fold_boolean(t, F128::one())[u] == t[2 * u + 1],
{
    lemma_times_one(t[2 * u + 1].plus(t[2 * u]));
    lemma_plus_commutes(t[2 * u + 1], t[2 * u]);
    lemma_plus_cancels(t[2 * u], t[2 * u + 1]);
}

/// The first component of the message is the round polynomial at one.
pub proof fn lemma_message_at_one(a: Seq<F128>, b: Seq<F128>, r: Seq<F128>)
    requires
        r.len() >= 1,
        b.len() == a.len(),
    ensures
        round_message(a, b, r).0 == round_polynomial(a, b, r, F128::one()),
{
    let rest = r.skip(1);
    let fa = fold_boolean(a, F128::one());
    let fb = fold_boolean(b, F128::one());
    let half = a.len() as int / 2;
    let f = terms_at_one(a, b, rest);
    let g = weighted_terms(fa, fb, rest);
    assert forall|u: int| 0 <= u < half implies #[trigger] f(u) == g(u) by {
        lemma_fold_at_one(a, u);
        lemma_fold_at_one(b, u);
    }
    lemma_sum_ext(f, g, half);
    lemma_eq_line_at_one(r[0]);
}

/// The round polynomial at zero and at one sums to the weighted sum that the
/// round starts from.
pub proof fn lemma_round_sum(a: Seq<F128>, b: Seq<F128>, r: Seq<F128>)
    requires
        r.len() >= 1,
        a.len() % 2 == 0,
        b.len() == a.len(),
    ensures
        round_polynomial(a, b, r, F128::zero()).plus(round_polynomial(a, b, r, F128::one()))
            == weighted_sum(a, b, r),
{
    let (zero, one) = (F128::zero(), F128::one());
    let rest = r.skip(1);
    let half = a.len() as int / 2;
    let s = one.plus(r[0]);
    let f0 = weighted_terms(fold_boolean(a, zero), fold_boolean(b, zero), rest);
    let f1 = weighted_terms(fold_boolean(a, one), fold_boolean(b, one), rest);
    let g0 = |u: int| s.times(f0(u));
    let g1 = |u: int| r[0].times(f1(u));
    let h = |u: int| g0(u).plus(g1(u));
    let f = weighted_terms(a, b, r);
    lemma_eq_line_at_zero(r[0]);
    lemma_eq_line_at_one(r[0]);
    lemma_sum_scale(s, f0, g0, half);
    lemma_sum_scale(r[0], f1, g1, half);
    lemma_sum_plus(g0, g1, h, half);
    assert forall|u: int| 0 <= u < half implies #[trigger] h(u) == f(2 * u).plus(f(2 * u + 1)) by {
        assert((2 * u) % 2 == 0 && (2 * u) / 2 == u);
        assert((2 * u + 1) % 2 == 1 && (2 * u + 1) / 2 == u);
        lemma_fold_at_zero(a, u);
        lemma_fold_at_zero(b, u);
        lemma_fold_at_one(a, u);
        lemma_fold_at_one(b, u);
        let e = eq_weight(rest, u);
        lemma_times_associates(s, e, a[2 * u].times(b[2 * u]));
        lemma_times_associates(r[0], e, a[2 * u + 1].times(b[2 * u + 1]));
    }
    lemma_sum_pairs(f, h, half);
}

/// The product of two lines is a quadratic.
proof fn lemma_line_product(a0: F128, a1: F128, b0: F128, b1: F128, x: F128)
    ensures
        a0.plus(x.times(a1)).times(b0.plus(x.times(b1))) == quadratic(
            a0.times(b0),
            a0.times(b1).plus(a1.times(b0)),
            a1.times(b1),
            x,
        ),
{
    let b = b0.plus(x.times(b1));
    let p = a0.times(b1);
    let q = a1.times(b0);
    let w = a1.times(b1);
    lemma_times_distributes(b, a0, x.times(a1));
    assert(a0.times(b) == a0.times(b0).plus(x.times(p))) by {
        lemma_times_distributes(a0, b0, x.times(b1));
        lemma_move_out(a0, x, b1);
    }
    assert(x.times(a1).times(b) == x.times(q.plus(x.times(w)))) by {
        lemma_times_associates(x, a1, b);
        lemma_times_distributes(a1, b0, x.times(b1));
        lemma_move_out(a1, x, b1);
    }
    lemma_plus_associates(a0.times(b0), x.times(p), x.times(q.plus(x.times(w))));
    lemma_times_distributes(x, p, q.plus(x.times(w)));
    lemma_plus_associates(p, q, x.times(w));
}

/// `c * (x * d) = x * (c * d)`.
proof fn lemma_move_out(c: F128, x: F128, d: F128)
    ensures
        c.times(x.times(d)) == x.times(c.times(d)),
{
    lemma_times_associates(c, x, d);
    lemma_times_commutes(c, x);
    lemma_times_associates(x, c, d);
}

proof fn lemma_scale_quadratic(c: F128, c0: F128, c1: F128, c2: F128, x: F128)
    ensures
        c.times(quadratic(c0, c1, c2, x)) == quadratic(c.times(c0), c.times(c1), c.times(c2), x),
{
    let inner = c1.plus(x.times(c2));
    lemma_times_distributes(c, c0, x.times(inner));
    lemma_move_out(c, x, inner);
    lemma_times_distributes(c, c1, x.times(c2));
    lemma_move_out(c, x, c2);
}

proof fn lemma_add_quadratics(
    c0: F128,
    c1: F128,
    c2: F128,
    d0: F128,
    d1: F128,
    d2: F128,
    x: F128,
)
    ensures
        quadratic(c0, c1, c2, x).plus(quadratic(d0, d1, d2, x)) == quadratic(
            c0.plus(d0),
            c1.plus(d1),
            c2.plus(d2),
            x,
        ),
{
    let p = c1.plus(x.times(c2));
    let q = d1.plus(x.times(d2));
    lemma_plus_exchange(c0, x.times(p), d0, x.times(q));
    lemma_times_distributes(x, p, q);
    lemma_plus_exchange(c1, x.times(c2), d1, x.times(d2));
    lemma_times_distributes(x, c2, d2);
}

/// A sum of quadratics is the quadratic of the sums.
proof fn lemma_sum_quadratics(
    f: spec_fn(int) -> F128,
    f0: spec_fn(int) -> F128,
    f1: spec_fn(int) -> F128,
    f2: spec_fn(int) -> F128,
    x: F128,
    n: int,
)
    requires
        forall|u: int| 0 <= u < n ==> #[trigger] f(u) == quadratic(f0(u), f1(u), f2(u), x),
    ensures
        sum(f, n) == quadratic(sum(f0, n), sum(f1, n), sum(f2, n), x),
    decreases n,
{
    if n > 0 {
        lemma_sum_quadratics(f, f0, f1, f2, x, n - 1);
        let k = n - 1;
        assert(f(k) == quadratic(f0(k), f1(k), f2(k), x));
        lemma_add_quadratics(sum(f0, k), sum(f1, k), sum(f2, k), f0(k), f1(k), f2(k), x);
    } else {
        lemma_times_zero(x);
        lemma_plus_zero(F128::zero());
    }
}

/// `(s + x)` times a quadratic is a cubic with the same leading coefficient.
proof fn lemma_line_times_quadratic(s: F128, c0: F128, c1: F128, c2: F128, x: F128)
    ensures
        s.plus(x).times(quadratic(c0, c1, c2, x)) == cubic(
            s.times(c0),
            c0.plus(s.times(c1)),
            c1.plus(s.times(c2)),
            c2,
            x,
        ),
{
    let q = quadratic(c0, c1, c2, x);
    let (d0, d1, d2) = (s.times(c0), s.times(c1), s.times(c2));
    let p = d1.plus(x.times(d2));
    let t = c1.plus(x.times(c2));
    lemma_times_distributes(q, s, x);
    lemma_scale_quadratic(s, c0, c1, c2, x);
    lemma_plus_associates(d0, x.times(p), x.times(q));
    lemma_times_distributes(x, p, q);
    // p + q, coefficient by coefficient
    lemma_plus_exchange(d1, x.times(d2), c0, x.times(t));
    lemma_plus_commutes(d1, c0);
    lemma_times_distributes(x, d2, t);
    lemma_plus_associates(d2, c1, x.times(c2));
    lemma_plus_commutes(d2, c1);
}

/// The round polynomial has degree at most three, and the second component of
/// the message is its coefficient of `x^3`.
pub proof fn lemma_message_at_infinity(a: Seq<F128>, b: Seq<F128>, r: Seq<F128>)
    requires
        r.len() >= 1,
        b.len() == a.len(),
    ensures
        exists|c0: F128, c1: F128, c2: F128|
            has_coefficients(a, b, r, c0, c1, c2, round_message(a, b, r).1),
{
    let rest = r.skip(1);
    let half = a.len() as int / 2;
    let f0 = |u: int| eq_weight(rest, u).times(a[2 * u].times(b[2 * u]));
    let f1 = |u: int|
        eq_weight(rest, u).times(
            a[2 * u].times(b[2 * u].plus(b[2 * u + 1])).plus(
                a[2 * u].plus(a[2 * u + 1]).times(b[2 * u]),
            ),
        );
    let f2 = terms_at_infinity(a, b, rest);
    let (q0, q1, q2) = (sum(f0, half), sum(f1, half), sum(f2, half));
    let s = F128::one().plus(r[0]);
    let c0 = s.times(q0);
    let c1 = q0.plus(s.times(q1));
    let c2 = q1.plus(s.times(q2));
    assert forall|x: F128| #[trigger] round_polynomial(a, b, r, x) == cubic(c0, c1, c2, q2, x) by {
        let f = weighted_terms(fold_boolean(a, x), fold_boolean(b, x), rest);
        assert forall|u: int| 0 <= u < half implies #[trigger] f(u) == quadratic(
            f0(u),
            f1(u),
            f2(u),
            x,
        ) by {
            let (a0, a1) = (a[2 * u], a[2 * u + 1]);
            let (b0, b1) = (b[2 * u], b[2 * u + 1]);
            lemma_plus_commutes(a1, a0);
            lemma_plus_commutes(b1, b0);
            let (ai, bi) = (a0.plus(a1), b0.plus(b1));
            lemma_line_product(a0, ai, b0, bi, x);
            lemma_scale_quadratic(
                eq_weight(rest, u),
                a0.times(b0),
                a0.times(bi).plus(ai.times(b0)),
                ai.times(bi),
                x,
            );
        }
        lemma_sum_quadratics(f, f0, f1, f2, x, half);
        lemma_eq_line_sum(r[0], x);
        lemma_line_times_quadratic(s, q0, q1, q2, x);
    }
    assert(has_coefficients(a, b, r, c0, c1, c2, round_message(a, b, r).1));
}

} // verus!
