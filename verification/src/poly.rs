//! Polynomials over the two-element field, and congruence modulo
//! `x^128 + x^7 + x^2 + x + 1`.
//!
//! A polynomial is its coefficient function. Everything here is ghost: it is
//! the model that the executable arithmetic of [`crate::field`] is held to.
use vstd::prelude::*;

verus! {

/// A polynomial over the two-element field: `p(i)` is the coefficient of `x^i`.
pub type Poly = spec_fn(int) -> bool;

/// Only the coefficients of `x^0 .. x^(n-1)` can be nonzero.
pub open spec fn bounded(p: Poly, n: int) -> bool {
    forall|i: int| #[trigger] p(i) ==> 0 <= i < n
}

/// The sum `f(0) + .. + f(n-1)` in the two-element field.
pub open spec fn parity(f: spec_fn(int) -> bool, n: int) -> bool
    decreases n,
{
    if n <= 0 {
        false
    } else {
        parity(f, n - 1) != f(n - 1)
    }
}

/// The sum of two polynomials.
pub open spec fn poly_add(p: Poly, q: Poly) -> Poly {
    |i: int| p(i) != q(i)
}

/// The product of two polynomials: coefficient `k` is the sum of
/// `p(i) * q(k - i)` over `0 <= i <= k`.
pub open spec fn poly_mul(p: Poly, q: Poly) -> Poly {
    |k: int| parity(|i: int| p(i) && q(k - i), k + 1)
}

/// `x^128 + x^7 + x^2 + x + 1`.
pub open spec fn modulus() -> Poly {
    |i: int| i == 0 || i == 1 || i == 2 || i == 7 || i == 128
}

/// `x^d`.
pub open spec fn monomial(d: int) -> Poly {
    |i: int| i == d
}

/// `p` and `q` differ by `w` times the modulus.
pub open spec fn differ_by(p: Poly, q: Poly, w: Poly) -> bool {
    &&& exists|n: int| bounded(w, n)
    &&& forall|k: int| #[trigger] p(k) == (q(k) != poly_mul(w, modulus())(k))
}

/// `p` and `q` agree modulo `x^128 + x^7 + x^2 + x + 1`.
pub open spec fn congruent(p: Poly, q: Poly) -> bool {
    exists|w: Poly| differ_by(p, q, w)
}

proof fn lemma_parity_ext(f: spec_fn(int) -> bool, g: spec_fn(int) -> bool, n: int)
    requires
        forall|i: int| 0 <= i < n ==> #[trigger] f(i) == g(i),
    ensures
        parity(f, n) == parity(g, n),
    decreases n,
{
    if n > 0 {
        lemma_parity_ext(f, g, n - 1);
        assert(f(n - 1) == g(n - 1));
    }
}

proof fn lemma_parity_zero(f: spec_fn(int) -> bool, n: int)
    requires
        forall|i: int| 0 <= i < n ==> !#[trigger] f(i),
    ensures
        !parity(f, n),
    decreases n,
{
    if n > 0 {
        lemma_parity_zero(f, n - 1);
        assert(!f(n - 1));
    }
}

proof fn lemma_parity_add(
    f: spec_fn(int) -> bool,
    g: spec_fn(int) -> bool,
    h: spec_fn(int) -> bool,
    n: int,
)
    requires
        forall|i: int| 0 <= i < n ==> #[trigger] h(i) == (f(i) != g(i)),
    ensures
        parity(h, n) == (parity(f, n) != parity(g, n)),
    decreases n,
{
    if n > 0 {
        lemma_parity_add(f, g, h, n - 1);
        assert(h(n - 1) == (f(n - 1) != g(n - 1)));
    }
}

proof fn lemma_parity_scale(c: bool, f: spec_fn(int) -> bool, g: spec_fn(int) -> bool, n: int)
    requires
        forall|i: int| 0 <= i < n ==> #[trigger] g(i) == (c && f(i)),
    ensures
        parity(g, n) == (c && parity(f, n)),
    decreases n,
{
    if n > 0 {
        lemma_parity_scale(c, f, g, n - 1);
        assert(g(n - 1) == (c && f(n - 1)));
    }
}

proof fn lemma_parity_split(f: spec_fn(int) -> bool, m: int, n: int)
    requires
        0 <= m <= n,
    ensures
        parity(f, n) == (parity(f, m) != parity(|i: int| f(m + i), n - m)),
    decreases n,
{
    if m < n {
        lemma_parity_split(f, m, n - 1);
        let g = |i: int| f(m + i);
        assert(parity(g, n - m) == (parity(g, n - m - 1) != g(n - m - 1)));
    }
}

/// Terms outside the support do not count.
pub proof fn lemma_parity_support(f: spec_fn(int) -> bool, m: int, n: int)
    requires
        0 <= m,
        0 <= n,
        forall|i: int| m <= i || n <= i ==> !#[trigger] f(i),
    ensures
        parity(f, m) == parity(f, n),
{
    if m <= n {
        lemma_parity_split(f, m, n);
        lemma_parity_zero(|i: int| f(m + i), n - m);
    } else {
        lemma_parity_split(f, n, m);
        lemma_parity_zero(|i: int| f(n + i), m - n);
    }
}

proof fn lemma_parity_reverse(f: spec_fn(int) -> bool, n: int)
    requires
        0 <= n,
    ensures
        parity(|i: int| f(n - 1 - i), n) == parity(f, n),
    decreases n,
{
    if n > 0 {
        let g = |i: int| f(n - 1 - i);
        let tail = |i: int| g(1 + i);
        let shorter = |i: int| f(n - 2 - i);
        lemma_parity_split(g, 1, n);
        assert(parity(g, 1) == g(0)) by {
            reveal_with_fuel(parity, 2);
        }
        lemma_parity_ext(tail, shorter, n - 1);
        lemma_parity_reverse(f, n - 1);
        assert(shorter =~= (|i: int| f((n - 1) - 1 - i)));
    }
}

proof fn lemma_parity_swap(f: spec_fn(int, int) -> bool, m: int, n: int)
    requires
        0 <= m,
    ensures
        parity(|i: int| parity(|j: int| f(i, j), n), m) == parity(
            |j: int| parity(|i: int| f(i, j), m),
            n,
        ),
    decreases m,
{
    let rows = |i: int| parity(|j: int| f(i, j), n);
    let cols = |j: int| parity(|i: int| f(i, j), m);
    if m == 0 {
        assert forall|j: int| 0 <= j < n implies !#[trigger] cols(j) by {}
        lemma_parity_zero(cols, n);
    } else {
        lemma_parity_swap(f, m - 1, n);
        let shorter = |j: int| parity(|i: int| f(i, j), m - 1);
        let last = |j: int| f(m - 1, j);
        assert forall|j: int| 0 <= j < n implies #[trigger] cols(j) == (shorter(j) != last(j)) by {
            let col = |i: int| f(i, j);
            assert(parity(col, m) == (parity(col, m - 1) != col(m - 1)));
        }
        lemma_parity_add(shorter, last, cols, n);
        assert(parity(rows, m) == (parity(rows, m - 1) != rows(m - 1)));
    }
}

/// Multiplication of polynomials is commutative.
pub proof fn lemma_poly_mul_commutes(p: Poly, q: Poly, k: int)
    ensures
        poly_mul(p, q)(k) == poly_mul(q, p)(k),
{
    if k >= 0 {
        let f = |i: int| p(i) && q(k - i);
        let g = |i: int| q(i) && p(k - i);
        lemma_parity_reverse(f, k + 1);
        lemma_parity_ext(|i: int| f(k + 1 - 1 - i), g, k + 1);
    }
}

/// Multiplication of polynomials distributes over addition.
pub proof fn lemma_poly_mul_distributes(p: Poly, q: Poly, r: Poly, k: int)
    ensures
        poly_mul(p, poly_add(q, r))(k) == (poly_mul(p, q)(k) != poly_mul(p, r)(k)),
{
    lemma_parity_add(
        |i: int| p(i) && q(k - i),
        |i: int| p(i) && r(k - i),
        |i: int| p(i) && poly_add(q, r)(k - i),
        k + 1,
    );
}

/// Multiplication of polynomials is associative.
pub proof fn lemma_poly_mul_associates(p: Poly, q: Poly, r: Poly, k: int)
    requires
        forall|i: int| i < 0 ==> !#[trigger] q(i),
    ensures
        poly_mul(poly_mul(p, q), r)(k) == poly_mul(p, poly_mul(q, r))(k),
{
    let n = k + 1;
    let f = |i: int, j: int| p(i) && q(j - i) && r(k - j);
    // Coefficient k of (pq)r sums f over j, then over i.
    let left = |j: int| poly_mul(p, q)(j) && r(k - j);
    assert forall|j: int| 0 <= j < n implies #[trigger] left(j) == parity(|i: int| f(i, j), n) by {
        let inner = |i: int| p(i) && q(j - i);
        let tail = |i: int| inner(j + 1 + i);
        lemma_parity_split(inner, j + 1, n);
        assert forall|i: int| 0 <= i < n - (j + 1) implies !#[trigger] tail(i) by {
            assert(!q(j - (j + 1 + i)));
        }
        lemma_parity_zero(tail, n - (j + 1));
        lemma_parity_scale(r(k - j), inner, |i: int| f(i, j), n);
    }
    lemma_parity_ext(left, |j: int| parity(|i: int| f(i, j), n), n);
    // Coefficient k of p(qr) sums it over i, then over j.
    let right = |i: int| p(i) && poly_mul(q, r)(k - i);
    assert forall|i: int| 0 <= i < n implies #[trigger] right(i) == parity(|j: int| f(i, j), n) by {
        let inner = |j: int| q(j - i) && r(k - j);
        let shifted = |j: int| inner(i + j);
        lemma_parity_split(inner, i, n);
        assert forall|j: int| 0 <= j < i implies !#[trigger] inner(j) by {
            assert(!q(j - i));
        }
        lemma_parity_zero(inner, i);
        lemma_parity_ext(shifted, |j: int| q(j) && r((k - i) - j), n - i);
        lemma_parity_scale(p(i), inner, |j: int| f(i, j), n);
    }
    lemma_parity_ext(right, |i: int| parity(|j: int| f(i, j), n), n);
    if n >= 0 {
        lemma_parity_swap(f, n, n);
    }
}

/// Multiplication by `x^d` shifts the coefficients.
pub proof fn lemma_mul_monomial(d: int, q: Poly, k: int)
    requires
        0 <= d,
        forall|i: int| i < 0 ==> !#[trigger] q(i),
    ensures
        poly_mul(monomial(d), q)(k) == q(k - d),
{
    let f = |i: int| monomial(d)(i) && q(k - i);
    if d <= k {
        let tail = |i: int| f(d + 1 + i);
        lemma_parity_split(f, d + 1, k + 1);
        assert forall|i: int| 0 <= i < k - d implies !#[trigger] tail(i) by {}
        lemma_parity_zero(tail, k - d);
        assert forall|i: int| 0 <= i < d implies !#[trigger] f(i) by {}
        lemma_parity_zero(f, d);
        assert(parity(f, d + 1) == f(d));
    } else {
        assert forall|i: int| 0 <= i < k + 1 implies !#[trigger] f(i) by {}
        lemma_parity_zero(f, k + 1);
    }
}

/// Multiplication by the modulus, one coefficient written out.
pub proof fn lemma_mul_modulus(q: Poly, k: int)
    requires
        forall|i: int| i < 0 ==> !#[trigger] q(i),
    ensures
        poly_mul(q, modulus())(k) == ((((q(k) != q(k - 1)) != q(k - 2)) != q(k - 7)) != q(k - 128)),
{
    let m1 = poly_add(monomial(0), monomial(1));
    let m2 = poly_add(m1, monomial(2));
    let m3 = poly_add(m2, monomial(7));
    assert(modulus() =~= poly_add(m3, monomial(128)));
    lemma_poly_mul_distributes(q, m3, monomial(128), k);
    lemma_poly_mul_distributes(q, m2, monomial(7), k);
    lemma_poly_mul_distributes(q, m1, monomial(2), k);
    lemma_poly_mul_distributes(q, monomial(0), monomial(1), k);
    lemma_poly_mul_commutes(q, monomial(0), k);
    lemma_poly_mul_commutes(q, monomial(1), k);
    lemma_poly_mul_commutes(q, monomial(2), k);
    lemma_poly_mul_commutes(q, monomial(7), k);
    lemma_poly_mul_commutes(q, monomial(128), k);
    lemma_mul_monomial(0, q, k);
    lemma_mul_monomial(1, q, k);
    lemma_mul_monomial(2, q, k);
    lemma_mul_monomial(7, q, k);
    lemma_mul_monomial(128, q, k);
}

/// The degree of a product is at most the sum of its factors' degrees.
pub proof fn lemma_poly_mul_bounded(p: Poly, m: int, q: Poly, n: int)
    requires
        bounded(p, m),
        bounded(q, n),
    ensures
        bounded(poly_mul(p, q), m + n - 1),
{
    assert forall|k: int| #[trigger] poly_mul(p, q)(k) implies 0 <= k < m + n - 1 by {
        if k >= m + n - 1 {
            let f = |i: int| p(i) && q(k - i);
            assert forall|i: int| 0 <= i < k + 1 implies !#[trigger] f(i) by {
                if p(i) {
                    assert(!q(k - i));
                }
            }
            lemma_parity_zero(f, k + 1);
        }
    }
}

/// Polynomials with equal coefficients are congruent.
pub proof fn lemma_congruent_equal(p: Poly, q: Poly)
    requires
        forall|k: int| #[trigger] p(k) == q(k),
    ensures
        congruent(p, q),
{
    let w: Poly = |i: int| false;
    assert(bounded(w, 0));
    assert forall|k: int| #[trigger] p(k) == (q(k) != poly_mul(w, modulus())(k)) by {
        lemma_parity_zero(|i: int| w(i) && modulus()(k - i), k + 1);
    }
    assert(differ_by(p, q, w));
}

/// Congruence is symmetric.
pub proof fn lemma_congruent_symmetric(p: Poly, q: Poly)
    requires
        congruent(p, q),
    ensures
        congruent(q, p),
{
    let w = choose|w: Poly| differ_by(p, q, w);
    assert forall|k: int| #[trigger] q(k) == (p(k) != poly_mul(w, modulus())(k)) by {
        assert(p(k) == (q(k) != poly_mul(w, modulus())(k)));
    }
    assert(differ_by(q, p, w));
}

/// Congruent polynomials have congruent sums.
pub proof fn lemma_congruent_add(p: Poly, q: Poly, r: Poly, s: Poly)
    requires
        congruent(p, q),
        congruent(r, s),
    ensures
        congruent(poly_add(p, r), poly_add(q, s)),
{
    let w = choose|w: Poly| differ_by(p, q, w);
    let v = choose|v: Poly| differ_by(r, s, v);
    let sum = poly_add(w, v);
    let m = choose|n: int| bounded(w, n);
    let n = choose|n: int| bounded(v, n);
    assert(bounded(sum, if m < n { n } else { m }));
    assert forall|k: int| #[trigger] poly_add(p, r)(k) == (poly_add(q, s)(k) != poly_mul(
        sum,
        modulus(),
    )(k)) by {
        assert(p(k) == (q(k) != poly_mul(w, modulus())(k)));
        assert(r(k) == (s(k) != poly_mul(v, modulus())(k)));
        lemma_poly_mul_commutes(sum, modulus(), k);
        lemma_poly_mul_commutes(w, modulus(), k);
        lemma_poly_mul_commutes(v, modulus(), k);
        lemma_poly_mul_distributes(modulus(), w, v, k);
    }
    assert(differ_by(poly_add(p, r), poly_add(q, s), sum));
}

/// Congruence is transitive.
pub proof fn lemma_congruent_transitive(p: Poly, q: Poly, r: Poly)
    requires
        congruent(p, q),
        congruent(q, r),
    ensures
        congruent(p, r),
{
    lemma_congruent_add(p, q, q, r);
    let w = choose|w: Poly| differ_by(poly_add(p, q), poly_add(q, r), w);
    assert forall|k: int| #[trigger] p(k) == (r(k) != poly_mul(w, modulus())(k)) by {
        assert(poly_add(p, q)(k) == (poly_add(q, r)(k) != poly_mul(w, modulus())(k)));
    }
    assert(differ_by(p, r, w));
}

/// Congruent polynomials stay congruent under multiplication.
pub proof fn lemma_congruent_mul(p: Poly, q: Poly, s: Poly, n: int)
    requires
        congruent(p, q),
        bounded(s, n),
    ensures
        congruent(poly_mul(s, p), poly_mul(s, q)),
{
    let w = choose|w: Poly| differ_by(p, q, w);
    let m = choose|m: int| bounded(w, m);
    let v = poly_mul(s, w);
    lemma_poly_mul_bounded(s, n, w, m);
    let wm = poly_mul(w, modulus());
    assert forall|k: int| #[trigger] poly_mul(s, p)(k) == (poly_mul(s, q)(k) != poly_mul(
        v,
        modulus(),
    )(k)) by {
        let f = |i: int| s(i) && p(k - i);
        let g = |i: int| s(i) && poly_add(q, wm)(k - i);
        assert forall|i: int| 0 <= i < k + 1 implies #[trigger] f(i) == g(i) by {
            assert(p(k - i) == (q(k - i) != wm(k - i)));
        }
        lemma_parity_ext(f, g, k + 1);
        lemma_poly_mul_distributes(s, q, wm, k);
        lemma_poly_mul_associates(s, w, modulus(), k);
    }
    assert(differ_by(poly_mul(s, p), poly_mul(s, q), v));
}

/// A multiple of the modulus without a coefficient at `x^128` or above is the
/// multiple by zero.
proof fn lemma_small_multiple(w: Poly, n: int)
    requires
        bounded(w, n),
        forall|k: int| k >= 128 ==> !#[trigger] poly_mul(w, modulus())(k),
    ensures
        forall|i: int| !#[trigger] w(i),
    decreases n,
{
    if n > 0 {
        let k = n - 1 + 128;
        let f = |i: int| w(i) && modulus()(k - i);
        let tail = |i: int| f(n + i);
        lemma_parity_split(f, n, k + 1);
        assert forall|i: int| 0 <= i < k + 1 - n implies !#[trigger] tail(i) by {
            assert(!w(n + i));
        }
        lemma_parity_zero(tail, k + 1 - n);
        assert forall|i: int| 0 <= i < n - 1 implies !#[trigger] f(i) by {}
        lemma_parity_zero(f, n - 1);
        assert(parity(f, n) == f(n - 1));
        assert(!poly_mul(w, modulus())(k));
        assert(!w(n - 1));
        assert forall|i: int| #[trigger] w(i) implies 0 <= i < n - 1 by {}
        lemma_small_multiple(w, n - 1);
    }
}

/// Two congruent polynomials of degree below 128 are equal.
pub proof fn lemma_congruent_unique(p: Poly, q: Poly)
    requires
        congruent(p, q),
        bounded(p, 128),
        bounded(q, 128),
    ensures
        forall|i: int| #[trigger] p(i) == q(i),
{
    let w = choose|w: Poly| differ_by(p, q, w);
    let n = choose|n: int| bounded(w, n);
    assert forall|k: int| k >= 128 implies !#[trigger] poly_mul(w, modulus())(k) by {
        assert(p(k) == (q(k) != poly_mul(w, modulus())(k)));
    }
    lemma_small_multiple(w, n);
    assert forall|k: int| #[trigger] p(k) == q(k) by {
        lemma_parity_zero(|i: int| w(i) && modulus()(k - i), k + 1);
    }
}

/// Every polynomial is congruent to one of degree below 128.
pub proof fn lemma_residue_exists(p: Poly, n: int) -> (r: Poly)
    requires
        bounded(p, n),
    ensures
        bounded(r, 128),
        congruent(r, p),
    decreases n,
{
    if n <= 128 {
        lemma_congruent_equal(p, p);
        p
    } else {
        // Cancel the leading term with a multiple of the modulus.
        let w: Poly = |i: int| i == n - 129 && p(n - 1);
        assert(bounded(w, n - 128));
        let wm = poly_mul(w, modulus());
        let q = poly_add(p, wm);
        assert(differ_by(q, p, w));
        assert forall|i: int| #[trigger] modulus()(i) implies 0 <= i < 129 by {}
        lemma_poly_mul_bounded(w, n - 128, modulus(), 129);
        let f = |i: int| w(i) && modulus()(n - 1 - i);
        let tail = |i: int| f(n - 128 + i);
        lemma_parity_split(f, n - 128, n);
        assert forall|i: int| 0 <= i < 128 implies !#[trigger] tail(i) by {}
        lemma_parity_zero(tail, 128);
        assert forall|i: int| 0 <= i < n - 129 implies !#[trigger] f(i) by {}
        lemma_parity_zero(f, n - 129);
        assert(parity(f, n - 128) == f(n - 129));
        assert forall|i: int| #[trigger] q(i) implies 0 <= i < n - 1 by {
            if wm(i) {
                assert(0 <= i < (n - 128) + 129 - 1);
            }
        }
        let r = lemma_residue_exists(q, n - 1);
        lemma_congruent_transitive(r, q, p);
        r
    }
}

/// Polynomials are added coefficient by coefficient.
pub proof fn lemma_poly_add_coefficient(p: Poly, q: Poly, i: int)
    ensures
        poly_add(p, q)(i) <==> (p(i) && !q(i)) || (!p(i) && q(i)),
{
}

/// Flipping one term of a sum flips the sum.
pub proof fn lemma_parity_flip(
    f: spec_fn(int) -> bool,
    g: spec_fn(int) -> bool,
    j: int,
    n: int,
)
    requires
        0 <= j < n,
        forall|i: int| 0 <= i < n && i != j ==> #[trigger] g(i) == f(i),
        g(j) != f(j),
    ensures
        parity(g, n) != parity(f, n),
    decreases n,
{
    if j == n - 1 {
        lemma_parity_ext(g, f, n - 1);
    } else {
        lemma_parity_flip(f, g, j, n - 1);
        assert(g(n - 1) == f(n - 1));
    }
}

/// `x^d * x^e = x^(d + e)`.
pub proof fn lemma_powers_multiply(d: int, e: int, k: int)
    requires
        0 <= d,
        0 <= e,
    ensures
        poly_mul(|i: int| i == d, |i: int| i == e)(k) == (k == d + e),
{
    let q: Poly = |i: int| i == e;
    assert((|i: int| i == d) =~= monomial(d));
    assert forall|i: int| i < 0 implies !#[trigger] q(i) by {}
    lemma_mul_monomial(d, q, k);
}

/// `x^128` is congruent to `x^7 + x^2 + x + 1`.
pub proof fn lemma_top_power()
    ensures
        congruent(|i: int| i == 128, |i: int| i == 0 || i == 1 || i == 2 || i == 7),
{
    let p: Poly = |i: int| i == 128;
    let q: Poly = |i: int| i == 0 || i == 1 || i == 2 || i == 7;
    let w = monomial(0);
    assert(bounded(w, 1));
    assert forall|k: int| #[trigger] p(k) == (q(k) != poly_mul(w, modulus())(k)) by {
        assert forall|i: int| i < 0 implies !#[trigger] modulus()(i) by {}
        lemma_mul_monomial(0, modulus(), k);
    }
    assert(differ_by(p, q, w));
}

} // verus!
