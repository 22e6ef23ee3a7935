//! Multilinear polynomials as tables over the Boolean hypercube, and the
//! sum-check round on a pair of them.
//!
//! A table of `2^m` entries holds the values of a polynomial in `m` variables;
//! variable `i` is bit `i` of the index, and the lowest variable is bound first.
use crate::field::{
    lemma_accumulate, lemma_plus_associates, lemma_plus_cancels, lemma_plus_commutes,
    lemma_plus_zero, lemma_reduction_unique, lemma_times_associates, lemma_times_commutes,
    lemma_times_distributes, lemma_times_one, lemma_times_zero, lemma_zero_reduces, F128,
    F256Unreduced,
};
use crate::sum::{lemma_sum_change, lemma_sum_ext, lemma_sum_pairs, sum};
use crate::zerocheck::eq::{build_eq, eq_weight};
use crate::zerocheck::projective::{fold_pair_projective, fold_projective, twist};
use vstd::arithmetic::power2::{lemma2_to64, lemma_pow2_unfold, pow2};
use vstd::prelude::*;

verus! {

/// Binds the lowest variable at `r`: a pair `(a0, a1)` becomes
/// `a0 + r * (a1 + a0)`.
pub open spec fn fold_boolean(t: Seq<F128>, r: F128) -> Seq<F128> {
    Seq::new(
        t.len() / 2,
        |x: int| t[2 * x].plus(r.times(t[2 * x + 1].plus(t[2 * x]))),
    )
}

/// The tables have `2^m` entries with `m >= 2`, and `r_next` has a coordinate
/// for each variable but the one being bound.
pub open spec fn round_sizes(n: nat, r_next: nat) -> bool {
    r_next >= 1 && n == pow2(r_next + 1)
}

/// The terms of the round sum with the lowest variable at one.
pub open spec fn terms_at_one(a: Seq<F128>, b: Seq<F128>, r: Seq<F128>) -> spec_fn(int) -> F128 {
    |u: int| eq_weight(r, u).times(a[2 * u + 1].times(b[2 * u + 1]))
}

/// The terms of the round sum with the lowest variable at infinity: each factor
/// is replaced by its leading coefficient `a(0) + a(1)`.
pub open spec fn terms_at_infinity(a: Seq<F128>, b: Seq<F128>, r: Seq<F128>) -> spec_fn(
    int,
) -> F128 {
    |u: int|
        eq_weight(r, u).times(
            a[2 * u].plus(a[2 * u + 1]).times(b[2 * u].plus(b[2 * u + 1])),
        )
}

/// The round message of the tables `a` and `b` at the point `r`: the round
/// polynomial at one, and its leading coefficient.
///
/// The weight of the lowest variable is `r[0]` at one, and its leading
/// coefficient is one; the other variables are weighted by the equality
/// polynomial of `r[1..]`.
pub open spec fn round_message(a: Seq<F128>, b: Seq<F128>, r: Seq<F128>) -> (F128, F128) {
    let half = a.len() as int / 2;
    (
        r[0].times(sum(terms_at_one(a, b, r.skip(1)), half)),
        sum(terms_at_infinity(a, b, r.skip(1)), half),
    )
}

/// Binds the lowest variable of both tables at `r_fold`, writing the bound
/// tables to `a_out` and `b_out`, and returns their round message at `r_next`.
pub fn fold_and_compute_round_pair_into(
    a: &[F128],
    b: &[F128],
    a_out: &mut [F128],
    b_out: &mut [F128],
    r_fold: F128,
    r_next: &[F128],
) -> (message: (F128, F128))
    requires
        round_sizes(a@.len(), r_next@.len()),
        b@.len() == a@.len(),
        2 * old(a_out)@.len() == a@.len(),
        2 * old(b_out)@.len() == a@.len(),
    ensures
        final(a_out)@ == fold_boolean(a@, r_fold),
        final(b_out)@ == fold_boolean(b@, r_fold),
        forall|x: int|
            0 <= x < final(a_out)@.len() ==> #[trigger] final(a_out)@[x] == a@[2 * x].plus(
                r_fold.times(a@[2 * x + 1].plus(a@[2 * x])),
            ),
        forall|x: int|
            0 <= x < final(b_out)@.len() ==> #[trigger] final(b_out)@[x] == b@[2 * x].plus(
                r_fold.times(b@[2 * x + 1].plus(b@[2 * x])),
            ),
        message == round_message(fold_boolean(a@, r_fold), fold_boolean(b@, r_fold), r_next@),
{
    let n: usize = a.len();
    let ghost rest = r_next@.skip(1);
    let ghost fa = fold_boolean(a@, r_fold);
    let ghost fb = fold_boolean(b@, r_fold);
    proof {
        lemma_round_sizes(a@.len(), r_next@.len());
    }
    let tail = &r_next[1..r_next.len()];
    assert(tail@ =~= rest);
    let eq = build_eq(tail);
    let mut p1 = F256Unreduced::zero();
    let mut pinf = F256Unreduced::zero();
    let mut u: usize = 0;
    proof {
        lemma_zero_reduces();
    }
    while u < eq.len()
        invariant
            u <= eq@.len(),
            4 * eq@.len() == n,
            a@.len() == n,
            b@.len() == n,
            2 * a_out@.len() == n,
            2 * b_out@.len() == n,
            fa == fold_boolean(a@, r_fold),
            fb == fold_boolean(b@, r_fold),
            forall|x: int| 0 <= x < eq@.len() ==> #[trigger] eq@[x] == eq_weight(rest, x),
            forall|x: int| 0 <= x < 2 * u ==> #[trigger] a_out@[x] == fa[x],
            forall|x: int| 0 <= x < 2 * u ==> #[trigger] b_out@[x] == fb[x],
            p1.reduces_to(sum(terms_at_one(fa, fb, rest), u as int)),
            pinf.reduces_to(sum(terms_at_infinity(fa, fb, rest), u as int)),
        decreases eq.len() - u,
    {
        let eq_u = eq[u];
        let s: usize = 4 * u;
        let (a0, a1) = fold_pair_boolean(a, s, r_fold);
        let (b0, b1) = fold_pair_boolean(b, s, r_fold);
        let o: usize = 2 * u;
        a_out[o] = a0;
        a_out[o + 1] = a1;
        b_out[o] = b0;
        b_out[o + 1] = b1;
        let x1 = a1 * b1;
        let m1 = eq_u.mul_unreduced(x1);
        let xinf = (a0 + a1) * (b0 + b1);
        let minf = eq_u.mul_unreduced(xinf);
        proof {
            lemma_accumulate(p1, sum(terms_at_one(fa, fb, rest), u as int), m1, eq_u, x1);
            lemma_accumulate(pinf, sum(terms_at_infinity(fa, fb, rest), u as int), minf, eq_u, xinf);
        }
        p1 = p1 ^ m1;
        pinf = pinf ^ minf;
        u = u + 1;
    }
    assert(a_out@ =~= fa);
    assert(b_out@ =~= fb);
    let s1 = p1.reduce();
    let sinf = pinf.reduce();
    proof {
        lemma_reduction_unique(p1, s1, sum(terms_at_one(fa, fb, rest), u as int));
        lemma_reduction_unique(pinf, sinf, sum(terms_at_infinity(fa, fb, rest), u as int));
    }
    (r_next[0] * s1, sinf)
}

/// What the sizes of a round say of the table of weights.
pub proof fn lemma_round_sizes(n: nat, r_next: nat)
    requires
        round_sizes(n, r_next),
    ensures
        n == 4 * pow2((r_next - 1) as nat),
{
    lemma_pow2_unfold(r_next + 1);
    lemma_pow2_unfold(r_next);
}

/// Binds two adjacent pairs of values at `r`.
fn fold_pair_boolean(src: &[F128], s: usize, r: F128) -> (out: (F128, F128))
    requires
        s + 3 < src@.len(),
    ensures
        out.0 == src@[s as int].plus(r.times(src@[s + 1].plus(src@[s as int]))),
        out.1 == src@[s + 2].plus(r.times(src@[s + 3].plus(src@[s + 2]))),
{
    let a0 = src[s];
    let a1 = src[s + 1];
    let a2 = src[s + 2];
    let a3 = src[s + 3];
    (a0 + r * (a1 + a0), a2 + r * (a3 + a2))
}

/// One round on a pair of twisted tables, writing the bound and re-twisted
/// tables to `a_out` and `b_out`; returns the round message of the bound tables
/// at `r_next`.
pub fn fold_and_compute_round_pair_projective_into(
    a: &[F128],
    b: &[F128],
    a_out: &mut [F128],
    b_out: &mut [F128],
    r_fold: F128,
    r_next: &[F128],
) -> (message: (F128, F128))
    requires
        round_sizes(a@.len(), r_next@.len()),
        b@.len() == a@.len(),
        2 * old(a_out)@.len() == a@.len(),
        2 * old(b_out)@.len() == a@.len(),
    ensures
        final(a_out)@ == twist(fold_projective(a@, r_fold)),
        final(b_out)@ == twist(fold_projective(b@, r_fold)),
        forall|x: int|
            0 <= x < final(a_out)@.len() && x % 2 == 0 ==> #[trigger] final(a_out)@[x]
                == a@[2 * x].plus(r_fold.times(a@[2 * x + 1])),
        forall|x: int|
            0 <= x < final(a_out)@.len() && x % 2 == 1 ==> #[trigger] final(a_out)@[x]
                == a@[2 * x - 2].plus(r_fold.times(a@[2 * x - 1])).plus(
                a@[2 * x].plus(r_fold.times(a@[2 * x + 1])),
            ),
        forall|x: int|
            0 <= x < final(b_out)@.len() && x % 2 == 0 ==> #[trigger] final(b_out)@[x]
                == b@[2 * x].plus(r_fold.times(b@[2 * x + 1])),
        forall|x: int|
            0 <= x < final(b_out)@.len() && x % 2 == 1 ==> #[trigger] final(b_out)@[x]
                == b@[2 * x - 2].plus(r_fold.times(b@[2 * x - 1])).plus(
                b@[2 * x].plus(r_fold.times(b@[2 * x + 1])),
            ),
        message == round_message(fold_projective(a@, r_fold), fold_projective(b@, r_fold), r_next@),
{
    let n: usize = a.len();
    let ghost rest = r_next@.skip(1);
    let ghost fa = fold_projective(a@, r_fold);
    let ghost fb = fold_projective(b@, r_fold);
    proof {
        lemma_round_sizes(a@.len(), r_next@.len());
    }
    let tail = &r_next[1..r_next.len()];
    assert(tail@ =~= rest);
    let eq = build_eq(tail);
    let mut p1 = F256Unreduced::zero();
    let mut pinf = F256Unreduced::zero();
    let mut u: usize = 0;
    proof {
        lemma_zero_reduces();
    }
    while u < eq.len()
        invariant
            u <= eq@.len(),
            4 * eq@.len() == n,
            a@.len() == n,
            b@.len() == n,
            2 * a_out@.len() == n,
            2 * b_out@.len() == n,
            fa == fold_projective(a@, r_fold),
            fb == fold_projective(b@, r_fold),
            forall|x: int| 0 <= x < eq@.len() ==> #[trigger] eq@[x] == eq_weight(rest, x),
            forall|x: int| 0 <= x < 2 * u ==> #[trigger] a_out@[x] == twist(fa)[x],
            forall|x: int| 0 <= x < 2 * u ==> #[trigger] b_out@[x] == twist(fb)[x],
            p1.reduces_to(sum(terms_at_one(fa, fb, rest), u as int)),
            pinf.reduces_to(sum(terms_at_infinity(fa, fb, rest), u as int)),
        decreases eq.len() - u,
    {
        let eq_u = eq[u];
        let s: usize = 4 * u;
        let (a0, a1) = fold_pair_projective(a, s, r_fold);
        let (b0, b1) = fold_pair_projective(b, s, r_fold);
        let a_inf = a0 + a1;
        let b_inf = b0 + b1;
        let o: usize = 2 * u;
        a_out[o] = a0;
        a_out[o + 1] = a_inf;
        b_out[o] = b0;
        b_out[o + 1] = b_inf;
        let x1 = a1 * b1;
        let m1 = eq_u.mul_unreduced(x1);
        let xinf = a_inf * b_inf;
        let minf = eq_u.mul_unreduced(xinf);
        proof {
            lemma_accumulate(p1, sum(terms_at_one(fa, fb, rest), u as int), m1, eq_u, x1);
            lemma_accumulate(pinf, sum(terms_at_infinity(fa, fb, rest), u as int), minf, eq_u, xinf);
        }
        p1 = p1 ^ m1;
        pinf = pinf ^ minf;
        u = u + 1;
    }
    assert(a_out@ =~= twist(fa));
    assert(b_out@ =~= twist(fb));
    let s1 = p1.reduce();
    let sinf = pinf.reduce();
    proof {
        lemma_reduction_unique(p1, s1, sum(terms_at_one(fa, fb, rest), u as int));
        lemma_reduction_unique(pinf, sinf, sum(terms_at_infinity(fa, fb, rest), u as int));
    }
    (r_next[0] * s1, sinf)
}

/// The value at `point` of the multilinear polynomial with the table `t`: the
/// sum of its entries, weighted by the equality polynomial of `point`.
pub open spec fn evaluate(t: Seq<F128>, point: Seq<F128>) -> F128 {
    sum(|x: int| eq_weight(point, x).times(t[x]), t.len() as int)
}

/// `e * (t0 + r * (t1 + t0)) = ((1 + r) * e) * t0 + (r * e) * t1`.
proof fn lemma_weighted_pair(e: F128, r: F128, t0: F128, t1: F128)
    ensures
        e.times(t0.plus(r.times(t1.plus(t0)))) == F128::one().plus(r).times(e).times(t0).plus(
            r.times(e).times(t1),
        ),
{
    let x = e.times(t0);
    let y = r.times(e).times(t0);
    let z = r.times(e).times(t1);
    assert(e.times(r.times(t1.plus(t0))) == z.plus(y)) by {
        lemma_times_associates(e, r, t1.plus(t0));
        lemma_times_commutes(e, r);
        lemma_times_distributes(r.times(e), t1, t0);
    }
    lemma_times_distributes(e, t0, r.times(t1.plus(t0)));
    lemma_times_distributes(e, F128::one(), r);
    lemma_times_one(e);
    lemma_times_distributes(t0, e, r.times(e));
    lemma_plus_commutes(z, y);
    lemma_plus_associates(x, y, z);
}

/// Binding the lowest variable at the point's first coordinate leaves the value
/// at the point unchanged.
pub proof fn lemma_fold_keeps_value(t: Seq<F128>, point: Seq<F128>)
    requires
        point.len() >= 1,
        t.len() == pow2(point.len()),
    ensures
        evaluate(fold_boolean(t, point[0]), point.skip(1)) == evaluate(t, point),
{
    let half = pow2((point.len() - 1) as nat) as int;
    lemma_pow2_unfold(point.len());
    let rest = point.skip(1);
    let folded = fold_boolean(t, point[0]);
    let f = |x: int| eq_weight(point, x).times(t[x]);
    let g = |x: int| eq_weight(rest, x).times(folded[x]);
    assert forall|u: int| 0 <= u < half implies #[trigger] g(u) == f(2 * u).plus(f(2 * u + 1)) by {
        assert((2 * u) % 2 == 0 && (2 * u) / 2 == u);
        assert((2 * u + 1) % 2 == 1 && (2 * u + 1) / 2 == u);
        lemma_weighted_pair(eq_weight(rest, u), point[0], t[2 * u], t[2 * u + 1]);
    }
    lemma_sum_pairs(f, g, half);
}

/// The vertex of the `m`-dimensional hypercube with index `x`.
pub open spec fn vertex(m: nat, x: int) -> Seq<F128>
    decreases m,
{
    if m == 0 {
        Seq::empty()
    } else {
        seq![if x % 2 == 1 { F128::one() } else { F128::zero() }] + vertex((m - 1) as nat, x / 2)
    }
}

/// The polynomial takes the values of its table on the hypercube.
pub proof fn lemma_evaluate_at_vertex(t: Seq<F128>, m: nat, x: int)
    requires
        t.len() == pow2(m),
        0 <= x < t.len(),
    ensures
        evaluate(t, vertex(m, x)) == t[x],
    decreases m,
{
    let v = vertex(m, x);
    let f = |i: int| eq_weight(v, i).times(t[i]);
    if m == 0 {
        lemma2_to64();
        assert(sum(f, 1) == sum(f, 0).plus(f(0)));
        lemma_times_one(t[0]);
        lemma_plus_zero(t[0]);
    } else {
        let rest = vertex((m - 1) as nat, x / 2);
        lemma_vertex_len(m, x);
        assert(v.skip(1) =~= rest);
        lemma_pow2_unfold(m);
        lemma_fold_keeps_value(t, v);
        let folded = fold_boolean(t, v[0]);
        lemma_evaluate_at_vertex(folded, (m - 1) as nat, x / 2);
        let a0 = t[2 * (x / 2)];
        let a1 = t[2 * (x / 2) + 1];
        lemma_times_zero(a1.plus(a0));
        lemma_plus_zero(a0);
        lemma_times_one(a1.plus(a0));
        lemma_plus_commutes(a1, a0);
        lemma_plus_cancels(a0, a1);
    }
}

proof fn lemma_vertex_len(m: nat, x: int)
    ensures
        vertex(m, x).len() == m,
    decreases m,
{
    if m > 0 {
        lemma_vertex_len((m - 1) as nat, x / 2);
    }
}

/// Binding interpolates between the two values of a pair:
/// `(1 + r) * a0 + r * a1`, which is `a0` at zero and `a1` at one.
pub proof fn lemma_fold_boolean_pair(t: Seq<F128>, r: F128, x: int)
    ensures
        fold_boolean(t, r).len() == t.len() / 2,
        0 <= x < t.len() / 2 ==> fold_boolean(t, r)[x] == (F128 { lo: 1, hi: 0 }).plus(r).times(
            t[2 * x],
        ).plus(r.times(t[2 * x + 1])),
        0 <= x < t.len() / 2 ==> fold_boolean(t, F128 { lo: 0, hi: 0 })[x] == t[2 * x],
        0 <= x < t.len() / 2 ==> fold_boolean(t, F128 { lo: 1, hi: 0 })[x] == t[2 * x + 1],
{
    let (a0, a1) = (t[2 * x], t[2 * x + 1]);
    let one = F128::one();
    lemma_weighted_pair(one, r, a0, a1);
    lemma_times_one(a0.plus(r.times(a1.plus(a0))));
    lemma_times_one(one.plus(r));
    lemma_times_one(r);
    lemma_times_zero(a1.plus(a0));
    lemma_plus_zero(a0);
    lemma_times_one(a1.plus(a0));
    lemma_plus_commutes(a1, a0);
    lemma_plus_cancels(a0, a1);
}

/// The round message of two tables, entry by entry.
pub proof fn lemma_message_entries(a: Seq<F128>, b: Seq<F128>, r: Seq<F128>)
    ensures
        round_message(a, b, r).0 == r[0].times(
            sum(
                |u: int| eq_weight(r.skip(1), u).times(a[2 * u + 1].times(b[2 * u + 1])),
                a.len() as int / 2,
            ),
        ),
        round_message(a, b, r).1 == sum(
            |u: int|
                eq_weight(r.skip(1), u).times(
                    a[2 * u].plus(a[2 * u + 1]).times(b[2 * u].plus(b[2 * u + 1])),
                ),
            a.len() as int / 2,
        ),
{
    let rest = r.skip(1);
    let n = a.len() as int / 2;
    lemma_sum_ext(
        terms_at_one(a, b, rest),
        |u: int| eq_weight(r.skip(1), u).times(a[2 * u + 1].times(b[2 * u + 1])),
        n,
    );
    lemma_sum_ext(
        terms_at_infinity(a, b, rest),
        |u: int|
            eq_weight(r.skip(1), u).times(
                a[2 * u].plus(a[2 * u + 1]).times(b[2 * u].plus(b[2 * u + 1])),
            ),
        n,
    );
}

/// Changing one pair of the first table, from `(a0, a1)` to `(c0, c1)`, changes
/// the message by that pair's weighted products with the second table.
pub proof fn lemma_message_change(
    a: Seq<F128>,
    b: Seq<F128>,
    r: Seq<F128>,
    u: int,
    c0: F128,
    c1: F128,
)
    requires
        0 <= u < a.len() / 2,
        r.len() >= 1,
    ensures
        ({
            let w = eq_weight(r.skip(1), u);
            let (a0, a1) = (a[2 * u], a[2 * u + 1]);
            let (b0, b1) = (b[2 * u], b[2 * u + 1]);
            let before = round_message(a, b, r);
            let after = round_message(a.update(2 * u, c0).update(2 * u + 1, c1), b, r);
            &&& after.0 == before.0.plus(r[0].times(w.times(a1.plus(c1).times(b1))))
            &&& after.1 == before.1.plus(
                w.times(a0.plus(a1).plus(c0.plus(c1)).times(b0.plus(b1))),
            )
        }),
{
    let rest = r.skip(1);
    let w = eq_weight(rest, u);
    let (a0, a1) = (a[2 * u], a[2 * u + 1]);
    let (b0, b1) = (b[2 * u], b[2 * u + 1]);
    let c = a.update(2 * u, c0).update(2 * u + 1, c1);
    let n = a.len() as int / 2;
    let (f, g) = (terms_at_one(a, b, rest), terms_at_one(c, b, rest));
    assert forall|i: int| 0 <= i < n && i != u implies #[trigger] g(i) == f(i) by {}
    lemma_sum_change(f, g, u, n);
    lemma_times_distributes(b1, a1, c1);
    lemma_times_distributes(w, a1.times(b1), c1.times(b1));
    lemma_times_distributes(r[0], sum(f, n), f(u).plus(g(u)));
    let (p, q) = (terms_at_infinity(a, b, rest), terms_at_infinity(c, b, rest));
    assert forall|i: int| 0 <= i < n && i != u implies #[trigger] q(i) == p(i) by {}
    lemma_sum_change(p, q, u, n);
    let bi = b0.plus(b1);
    lemma_times_distributes(bi, a0.plus(a1), c0.plus(c1));
    lemma_times_distributes(w, a0.plus(a1).times(bi), c0.plus(c1).times(bi));
}

/// The two tables play the same part in the message.
pub proof fn lemma_message_symmetric(a: Seq<F128>, b: Seq<F128>, r: Seq<F128>)
    requires
        a.len() == b.len(),
    ensures
        round_message(a, b, r) == round_message(b, a, r),
{
    let rest = r.skip(1);
    let n = a.len() as int / 2;
    let (f, g) = (terms_at_one(a, b, rest), terms_at_one(b, a, rest));
    assert forall|u: int| 0 <= u < n implies #[trigger] f(u) == g(u) by {
        lemma_times_commutes(a[2 * u + 1], b[2 * u + 1]);
    }
    lemma_sum_ext(f, g, n);
    let (p, q) = (terms_at_infinity(a, b, rest), terms_at_infinity(b, a, rest));
    assert forall|u: int| 0 <= u < n implies #[trigger] p(u) == q(u) by {
        lemma_times_commutes(a[2 * u].plus(a[2 * u + 1]), b[2 * u].plus(b[2 * u + 1]));
    }
    lemma_sum_ext(p, q, n);
}

/// A round takes tables of every size `2^m` with `m >= 2`, and a point with
/// `m - 1` coordinates.
pub proof fn lemma_round_sizes_all(m: nat, n: nat, r_next: nat)
    ensures
        m >= 2 ==> round_sizes(pow2(m), (m - 1) as nat),
        round_sizes(n, r_next) ==> r_next >= 1 && n == pow2(r_next + 1),
{
}

} // verus!
