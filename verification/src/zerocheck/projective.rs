//! The projective form of the sum-check round.
//!
//! A table holds each adjacent pair in the monomial basis of the lowest
//! variable: `(c0, c1)` stands for `c0 + X * c1`, so `c0 = a(0)` and
//! `c1 = a(0) + a(1)`, the leading coefficient. Binding the variable at `r` is
//! then `c0 + r * c1`. The bound table holds values again; re-twisting its
//! lowest variable costs the one addition per pair that the round message needs
//! anyway.
use crate::field::{
    lemma_accumulate, lemma_plus_associates, lemma_plus_cancels, lemma_plus_commutes,
    lemma_plus_zero, lemma_reduction_unique, lemma_times_distributes, lemma_times_zero,
    lemma_zero_reduces, F128, F256Unreduced,
};
use crate::sum::{lemma_sum_ext, sum};
use crate::zerocheck::eq::{build_eq, eq_weight};
use crate::zerocheck::multilinear::{
    evaluate, fold_boolean, lemma_evaluate_at_vertex, lemma_fold_keeps_value, lemma_round_sizes,
    round_message, round_sizes, terms_at_infinity, terms_at_one, vertex,
};
use vstd::arithmetic::power2::{lemma2_to64, lemma_pow2_unfold, pow2};
use vstd::prelude::*;

verus! {

/// Changes the basis of the lowest variable: a pair `(a0, a1)` becomes
/// `(a0, a0 + a1)`.
pub open spec fn twist(t: Seq<F128>) -> Seq<F128> {
    Seq::new(
        t.len(),
        |i: int|
            if i % 2 == 0 {
                t[i]
            } else {
                t[i - 1].plus(t[i])
            },
    )
}

/// Binds the lowest variable of a twisted table at `r`: a pair `(c0, c1)`
/// becomes `c0 + r * c1`.
pub open spec fn fold_projective(t: Seq<F128>, r: F128) -> Seq<F128> {
    Seq::new(t.len() / 2, |x: int| t[2 * x].plus(r.times(t[2 * x + 1])))
}

/// Changes the basis of the lowest variable in place.
pub fn twist_lowest_in_place(a: &mut [F128])
    requires
        old(a)@.len() % 2 == 0,
    ensures
        final(a)@ == twist(old(a)@),
        forall|x: int|
            0 <= x < final(a)@.len() && x % 2 == 0 ==> #[trigger] final(a)@[x] == old(a)@[x],
        forall|x: int|
            0 <= x < final(a)@.len() && x % 2 == 1 ==> #[trigger] final(a)@[x] == old(a)@[x
                - 1].plus(old(a)@[x]),
{
    let n: usize = a.len();
    let mut i: usize = 0;
    let ghost orig = a@;
    while i < n
        invariant
            i <= n,
            i % 2 == 0,
            n % 2 == 0,
            n == orig.len(),
            a@.len() == n,
            forall|x: int| 0 <= x < i ==> #[trigger] a@[x] == twist(orig)[x],
            forall|x: int| i <= x < n ==> #[trigger] a@[x] == orig[x],
        decreases n - i,
    {
        a[i + 1] = a[i] + a[i + 1];
        i = i + 2;
    }
    assert(a@ =~= twist(orig));
}

/// Two products with the common factor `r`.
pub fn mul2(r: F128, x0: F128, x1: F128) -> (p: (F128, F128))
    ensures
        p.0 == r.times(x0),
        p.1 == r.times(x1),
{
    (r * x0, r * x1)
}

/// Binds two adjacent pairs of a twisted table at `r`. The odd slots are
/// already the coefficients `c1`.
pub fn fold_pair_projective(src: &[F128], s: usize, r: F128) -> (out: (F128, F128))
    requires
        s + 3 < src@.len(),
    ensures
        out.0 == src@[s as int].plus(r.times(src@[s + 1])),
        out.1 == src@[s + 2].plus(r.times(src@[s + 3])),
{
    let e0 = src[s];
    let c0 = src[s + 1];
    let e1 = src[s + 2];
    let c1 = src[s + 3];
    let prod = mul2(r, c0, c1);
    (e0 + prod.0, e1 + prod.1)
}

/// One round on a pair of twisted tables, in place: binds the lowest variable
/// at `r_fold`, twists the next one, and returns the round message of the bound
/// tables at `r_next`.
///
/// The write cursor stays behind the read cursor, so the input allocations are
/// reused.
pub fn fold_and_compute_round_pair_in_place(
    a: &mut Vec<F128>,
    b: &mut Vec<F128>,
    r_fold: F128,
    r_next: &[F128],
) -> (message: (F128, F128))
    requires
        round_sizes(old(a)@.len(), r_next@.len()),
        old(b)@.len() == old(a)@.len(),
    ensures
        final(a)@ == twist(fold_projective(old(a)@, r_fold)),
        final(b)@ == twist(fold_projective(old(b)@, r_fold)),
        forall|x: int|
            0 <= x < final(a)@.len() && x % 2 == 0 ==> #[trigger] final(a)@[x] == old(a)@[2
                * x].plus(r_fold.times(old(a)@[2 * x + 1])),
        forall|x: int|
            0 <= x < final(a)@.len() && x % 2 == 1 ==> #[trigger] final(a)@[x] == old(a)@[2 * x
                - 2].plus(r_fold.times(old(a)@[2 * x - 1])).plus(
                old(a)@[2 * x].plus(r_fold.times(old(a)@[2 * x + 1])),
            ),
        forall|x: int|
            0 <= x < final(b)@.len() && x % 2 == 0 ==> #[trigger] final(b)@[x] == old(b)@[2
                * x].plus(r_fold.times(old(b)@[2 * x + 1])),
        forall|x: int|
            0 <= x < final(b)@.len() && x % 2 == 1 ==> #[trigger] final(b)@[x] == old(b)@[2 * x
                - 2].plus(r_fold.times(old(b)@[2 * x - 1])).plus(
                old(b)@[2 * x].plus(r_fold.times(old(b)@[2 * x + 1])),
            ),
        message == round_message(
            fold_projective(old(a)@, r_fold),
            fold_projective(old(b)@, r_fold),
            r_next@,
        ),
{
    let n: usize = a.len();
    let ghost a_in = a@;
    let ghost b_in = b@;
    let ghost rest = r_next@.skip(1);
    let ghost fa = fold_projective(a_in, r_fold);
    let ghost fb = fold_projective(b_in, r_fold);
    proof {
        lemma_round_sizes(a@.len(), r_next@.len());
    }
    let tail = &r_next[1..r_next.len()];
    assert(tail@ =~= rest);
    let eq = build_eq(tail);
    let mut p1 = F256Unreduced::zero();
    let mut pinf = F256Unreduced::zero();
    let mut u: usize = 0;
    proof {
        lemma_zero_reduces();
    }
    while u < eq.len()
        invariant
            u <= eq@.len(),
            4 * eq@.len() == n,
            a@.len() == n,
            b@.len() == n,
            a_in.len() == n,
            b_in.len() == n,
            fa == fold_projective(a_in, r_fold),
            fb == fold_projective(b_in, r_fold),
            forall|x: int| 0 <= x < eq@.len() ==> #[trigger] eq@[x] == eq_weight(rest, x),
            forall|x: int| 0 <= x < 2 * u ==> #[trigger] a@[x] == twist(fa)[x],
            forall|x: int| 0 <= x < 2 * u ==> #[trigger] b@[x] == twist(fb)[x],
            forall|x: int| 4 * u <= x < n ==> #[trigger] a@[x] == a_in[x],
            forall|x: int| 4 * u <= x < n ==> #[trigger] b@[x] == b_in[x],
            p1.reduces_to(sum(terms_at_one(fa, fb, rest), u as int)),
            pinf.reduces_to(sum(terms_at_infinity(fa, fb, rest), u as int)),
        decreases eq.len() - u,
    {
        let eq_u = eq[u];
        let s: usize = 4 * u;
        let (a0, a1) = fold_pair_projective(a.as_slice(), s, r_fold);
        let (b0, b1) = fold_pair_projective(b.as_slice(), s, r_fold);
        let a_inf = a0 + a1;
        let b_inf = b0 + b1;
        let o: usize = 2 * u;
        a[o] = a0;
        a[o + 1] = a_inf;
        b[o] = b0;
        b[o + 1] = b_inf;
        let x1 = a1 * b1;
        let m1 = eq_u.mul_unreduced(x1);
        let xinf = a_inf * b_inf;
        let minf = eq_u.mul_unreduced(xinf);
        proof {
            lemma_accumulate(p1, sum(terms_at_one(fa, fb, rest), u as int), m1, eq_u, x1);
            lemma_accumulate(pinf, sum(terms_at_infinity(fa, fb, rest), u as int), minf, eq_u, xinf);
        }
        p1 = p1 ^ m1;
        pinf = pinf ^ minf;
        u = u + 1;
    }
    a.truncate(n / 2);
    b.truncate(n / 2);
    assert(a@ =~= twist(fa));
    assert(b@ =~= twist(fb));
    let s1 = p1.reduce();
    let sinf = pinf.reduce();
    proof {
        lemma_reduction_unique(p1, s1, sum(terms_at_one(fa, fb, rest), u as int));
        lemma_reduction_unique(pinf, sinf, sum(terms_at_infinity(fa, fb, rest), u as int));
    }
    (r_next[0] * s1, sinf)
}

/// Binds the last variable of a twisted table of two entries: `c0 + r * c1`.
pub fn final_bind_projective(a: &[F128], r: F128) -> (v: F128)
    requires
        a@.len() == 2,
    ensures
        v == a@[0].plus(r.times(a@[1])),
{
    a[0] + r * a[1]
}

/// Twisting twice is the identity.
pub proof fn lemma_twist_involution(t: Seq<F128>)
    ensures
        twist(twist(t)) == t,
{
    let tt = twist(twist(t));
    assert forall|i: int| 0 <= i < t.len() implies #[trigger] tt[i] == t[i] by {
        if i % 2 == 1 {
            assert(twist(t)[i] == t[i - 1].plus(t[i]));
            assert(twist(t)[i - 1] == t[i - 1]);
            lemma_plus_cancels(t[i - 1], t[i]);
        }
    }
    assert(tt =~= t);
}

/// Binding a twisted table gives the table of values that binding the untwisted
/// one gives.
pub proof fn lemma_projective_fold_matches(t: Seq<F128>, r: F128)
    ensures
        fold_projective(twist(t), r) == fold_boolean(t, r),
{
    assert forall|x: int| 0 <= x < t.len() / 2 implies #[trigger] fold_projective(twist(t), r)[x]
        == fold_boolean(t, r)[x] by {
        assert(twist(t)[2 * x + 1] == t[2 * x].plus(t[2 * x + 1]));
        lemma_plus_commutes(t[2 * x], t[2 * x + 1]);
    }
    assert(fold_projective(twist(t), r) =~= fold_boolean(t, r));
}

/// A projective round on twisted tables sends the message of the Boolean round
/// on the tables themselves, and leaves that round's tables, twisted.
pub proof fn lemma_projective_round_matches(
    a: Seq<F128>,
    b: Seq<F128>,
    r_fold: F128,
    r_next: Seq<F128>,
)
    ensures
        round_message(
            fold_projective(twist(a), r_fold),
            fold_projective(twist(b), r_fold),
            r_next,
        ) == round_message(fold_boolean(a, r_fold), fold_boolean(b, r_fold), r_next),
        twist(fold_projective(twist(a), r_fold)) == twist(fold_boolean(a, r_fold)),
        twist(fold_projective(twist(b), r_fold)) == twist(fold_boolean(b, r_fold)),
        twist(twist(fold_projective(twist(a), r_fold))) == fold_boolean(a, r_fold),
        twist(twist(fold_projective(twist(b), r_fold))) == fold_boolean(b, r_fold),
{
    lemma_projective_fold_matches(a, r_fold);
    lemma_projective_fold_matches(b, r_fold);
    lemma_twist_involution(fold_boolean(a, r_fold));
    lemma_twist_involution(fold_boolean(b, r_fold));
}

/// Binds every variable of a twisted table in turn: all but the last by a fold
/// and a re-twist, the last by the final binding.
pub open spec fn bind_all_projective(t: Seq<F128>, point: Seq<F128>) -> F128
    decreases point.len(),
{
    if point.len() <= 1 {
        t[0].plus(point[0].times(t[1]))
    } else {
        bind_all_projective(twist(fold_projective(t, point[0])), point.skip(1))
    }
}

/// The twisted form sustains itself: rounds on a twisted table, and the final
/// binding, give the value at the point of the table's multilinear polynomial.
pub proof fn lemma_bind_all_projective(t: Seq<F128>, point: Seq<F128>)
    requires
        point.len() >= 1,
        t.len() == pow2(point.len()),
    ensures
        bind_all_projective(twist(t), point) == evaluate(t, point),
    decreases point.len(),
{
    lemma_pow2_unfold(point.len());
    lemma_projective_fold_matches(t, point[0]);
    lemma_fold_keeps_value(t, point);
    let folded = fold_boolean(t, point[0]);
    if point.len() == 1 {
        lemma2_to64();
        assert(fold_projective(twist(t), point[0])[0] == folded[0]);
        lemma_evaluate_at_vertex(folded, 0, 0);
        assert(point.skip(1) =~= vertex(0, 0));
    } else {
        lemma_bind_all_projective(folded, point.skip(1));
    }
}

/// The twist keeps the first of each pair and replaces the second by the sum of
/// both; an entry without a partner is kept.
pub proof fn lemma_twist_pair(t: Seq<F128>, x: int)
    requires
        0 <= x,
    ensures
        twist(t).len() == t.len(),
        2 * x < t.len() ==> twist(t)[2 * x] == t[2 * x],
        2 * x + 1 < t.len() ==> twist(t)[2 * x + 1] == t[2 * x].plus(t[2 * x + 1]),
{
}

/// Binding a pair `(c0, c1)` is `c0 + r * c1`: at zero it gives `c0`, and moving
/// the challenge from `r` to `s` adds `(r + s) * c1`.
pub proof fn lemma_fold_projective_pair(t: Seq<F128>, r: F128, s: F128, x: int)
    ensures
        fold_projective(t, r).len() == t.len() / 2,
        0 <= x < t.len() / 2 ==> fold_projective(t, r)[x] == t[2 * x].plus(r.times(t[2 * x + 1])),
        0 <= x < t.len() / 2 ==> fold_projective(t, F128 { lo: 0, hi: 0 })[x] == t[2 * x],
        0 <= x < t.len() / 2 ==> fold_projective(t, s)[x] == fold_projective(t, r)[x].plus(
            r.plus(s).times(t[2 * x + 1]),
        ),
{
    let (c0, c1) = (t[2 * x], t[2 * x + 1]);
    let (p, q) = (r.times(c1), s.times(c1));
    lemma_times_zero(c1);
    lemma_plus_zero(c0);
    lemma_times_distributes(c1, r, s);
    lemma_plus_associates(c0, p, p.plus(q));
    lemma_plus_cancels(p, q);
}

/// A projective round on arbitrary tables, four input entries at a time. With
/// `e` and `f` the two bound values of a block, the block becomes `(e, e + f)`;
/// the message weights the products of the two tables' `f`, and of their
/// `e + f`.
pub proof fn lemma_round_blocks(
    a: Seq<F128>,
    b: Seq<F128>,
    r_fold: F128,
    r_next: Seq<F128>,
)
    requires
        a.len() % 4 == 0,
        b.len() == a.len(),
    ensures
        twist(fold_projective(a, r_fold)).len() == a.len() / 2,
        forall|u: int|
            0 <= u < a.len() / 4 ==> #[trigger] twist(fold_projective(a, r_fold))[2 * u]
                == a[4 * u].plus(r_fold.times(a[4 * u + 1])),
        forall|u: int|
            0 <= u < a.len() / 4 ==> #[trigger] twist(fold_projective(a, r_fold))[2 * u + 1]
                == a[4 * u].plus(r_fold.times(a[4 * u + 1])).plus(
                a[4 * u + 2].plus(r_fold.times(a[4 * u + 3])),
            ),
        round_message(fold_projective(a, r_fold), fold_projective(b, r_fold), r_next).0
            == r_next[0].times(
            sum(
                |u: int|
                    eq_weight(r_next.skip(1), u).times(
                        a[4 * u + 2].plus(r_fold.times(a[4 * u + 3])).times(
                            b[4 * u + 2].plus(r_fold.times(b[4 * u + 3])),
                        ),
                    ),
                a.len() as int / 4,
            ),
        ),
        round_message(fold_projective(a, r_fold), fold_projective(b, r_fold), r_next).1 == sum(
            |u: int|
                eq_weight(r_next.skip(1), u).times(
                    a[4 * u].plus(r_fold.times(a[4 * u + 1])).plus(
                        a[4 * u + 2].plus(r_fold.times(a[4 * u + 3])),
                    ).times(
                        b[4 * u].plus(r_fold.times(b[4 * u + 1])).plus(
                            b[4 * u + 2].plus(r_fold.times(b[4 * u + 3])),
                        ),
                    ),
                ),
            a.len() as int / 4,
        ),
{
    let rest = r_next.skip(1);
    let fa = fold_projective(a, r_fold);
    let fb = fold_projective(b, r_fold);
    let n = a.len() as int / 4;
    assert(fa.len() as int / 2 == n);
    lemma_sum_ext(
        terms_at_one(fa, fb, rest),
        |u: int|
            eq_weight(r_next.skip(1), u).times(
                a[4 * u + 2].plus(r_fold.times(a[4 * u + 3])).times(
                    b[4 * u + 2].plus(r_fold.times(b[4 * u + 3])),
                ),
            ),
        n,
    );
    lemma_sum_ext(
        terms_at_infinity(fa, fb, rest),
        |u: int|
            eq_weight(r_next.skip(1), u).times(
                a[4 * u].plus(r_fold.times(a[4 * u + 1])).plus(
                    a[4 * u + 2].plus(r_fold.times(a[4 * u + 3])),
                ).times(
                    b[4 * u].plus(r_fold.times(b[4 * u + 1])).plus(
                        b[4 * u + 2].plus(r_fold.times(b[4 * u + 3])),
                    ),
                ),
            ),
        n,
    );
}

} // verus!
