//! Arithmetic in the binary field of `2^128` elements: polynomials over the
//! two-element field modulo `x^128 + x^7 + x^2 + x + 1`.
use crate::bits::{
    bit, lemma_bit_carry, lemma_bit_shl, lemma_bit_shr, lemma_bit_xor, lemma_bits_equal,
    lemma_word_of, word_of,
};
use crate::poly::{
    bounded, congruent, differ_by, lemma_congruent_add, lemma_congruent_equal,
    lemma_congruent_mul, lemma_congruent_symmetric, lemma_congruent_transitive,
    lemma_congruent_unique, lemma_mul_modulus, lemma_mul_monomial, lemma_parity_support,
    lemma_poly_mul_associates, lemma_poly_mul_bounded, lemma_poly_mul_commutes,
    lemma_poly_mul_distributes, lemma_residue_exists, lemma_top_power, modulus, monomial, parity,
    poly_add, poly_mul, Poly,
};
use vstd::prelude::*;
use vstd::std_specs::ops::{AddSpec, BitXorSpec, MulSpec};

verus! {

/// A field element: bit `i` of the 128-bit value `lo + 2^64 * hi` is the
/// coefficient of `x^i`.
#[derive(Clone, Copy, Debug, PartialEq, Eq, Structural)]
pub struct F128 {
    pub lo: u64,
    pub hi: u64,
}

impl View for F128 {
    type V = Poly;

    open spec fn view(&self) -> Poly {
        |i: int|
            if i < 64 {
                bit(self.lo, i)
            } else {
                bit(self.hi, i - 64)
            }
    }
}

impl F128 {
    /// The additive identity.
    #[verifier::allow_in_spec]
    pub fn zero() -> F128
        returns
            (F128 { lo: 0, hi: 0 }),
    {
        F128 { lo: 0, hi: 0 }
    }

    /// The multiplicative identity.
    #[verifier::allow_in_spec]
    pub fn one() -> F128
        returns
            (F128 { lo: 1, hi: 0 }),
    {
        F128 { lo: 1, hi: 0 }
    }

    /// The sum: coefficients are added in the two-element field.
    pub open spec fn plus(self, rhs: F128) -> F128 {
        F128 { lo: self.lo ^ rhs.lo, hi: self.hi ^ rhs.hi }
    }

    /// The product: the element that is congruent to the product of the two
    /// polynomials.
    #[verifier::opaque]
    pub open spec fn times(self, rhs: F128) -> F128 {
        choose|r: F128| #[trigger] congruent(r@, poly_mul(self@, rhs@))
    }
}

/// A polynomial of degree below 256: bit `i` of the 256-bit value
/// `lo + 2^128 * hi` is the coefficient of `x^i`.
///
/// Products are collected in this form and reduced once at the end.
#[derive(Clone, Copy, Debug, PartialEq, Eq, Structural)]
pub struct F256Unreduced {
    pub lo: F128,
    pub hi: F128,
}

impl View for F256Unreduced {
    type V = Poly;

    open spec fn view(&self) -> Poly {
        |i: int|
            if i < 128 {
                self.lo@(i)
            } else {
                self.hi@(i - 128)
            }
    }
}

impl F128 {
    /// Whether the coefficient of `x^i` is one.
    fn coefficient(self, i: u32) -> (b: bool)
        requires
            i < 128,
        ensures
            b == self@(i as int),
    {
        if i < 64 {
            (self.lo >> (i as u64)) & 1 == 1
        } else {
            (self.hi >> ((i - 64) as u64)) & 1 == 1
        }
    }

    /// The carry-less product, without reduction.
    pub fn mul_unreduced(self, rhs: F128) -> (r: F256Unreduced)
        ensures
            forall|k: int| #[trigger] r@(k) == poly_mul(self@, rhs@)(k),
    {
        let mut acc = F256Unreduced::zero();
        let mut shifted = F256Unreduced { lo: self, hi: F128::zero() };
        let mut i: u32 = 0;
        proof {
            assert forall|k: int| !#[trigger] acc@(k) by {
                lemma_zero_coefficients(k);
                lemma_zero_coefficients(k - 128);
            }
            assert forall|k: int| #[trigger] shifted@(k) == self@(k) by {
                lemma_zero_coefficients(k - 128);
            }
        }
        while i < 128
            invariant
                i <= 128,
                forall|k: int| #[trigger] shifted@(k) == self@(k - i),
                forall|k: int| #[trigger] acc@(k) == parity(|j: int| rhs@(j) && self@(k - j), i as int),
            decreases 128 - i,
        {
            let ghost before = acc;
            let ghost shift = shifted;
            if rhs.coefficient(i) {
                acc = acc ^ shifted;
            }
            shifted = shifted.shl_one();
            proof {
                assert forall|k: int| #[trigger] acc@(k) == parity(
                    |j: int| rhs@(j) && self@(k - j),
                    i + 1,
                ) by {
                    let f = |j: int| rhs@(j) && self@(k - j);
                    assert(parity(f, i + 1) == (parity(f, i as int) != f(i as int)));
                    assert(before@(k) == parity(f, i as int));
                    assert(shift@(k) == self@(k - i));
                    lemma_unreduced_plus(before, shift, k);
                }
                assert forall|k: int| #[trigger] shifted@(k) == self@(k - (i + 1)) by {
                    if 0 <= k < 256 {
                        assert(shift@(k - 1) == self@(k - 1 - i));
                    }
                }
            }
            i = i + 1;
        }
        proof {
            assert forall|k: int| #[trigger] acc@(k) == poly_mul(self@, rhs@)(k) by {
                lemma_product_coefficient(self, rhs, k);
            }
        }
        acc
    }
}

impl F256Unreduced {
    /// The zero polynomial.
    #[verifier::allow_in_spec]
    pub fn zero() -> F256Unreduced
        returns
            (F256Unreduced { lo: F128::zero(), hi: F128::zero() }),
    {
        F256Unreduced { lo: F128::zero(), hi: F128::zero() }
    }

    /// The sum: coefficients are added in the two-element field.
    pub open spec fn plus(self, rhs: F256Unreduced) -> F256Unreduced {
        F256Unreduced { lo: self.lo.plus(rhs.lo), hi: self.hi.plus(rhs.hi) }
    }

    /// This polynomial reduces to the element `v`.
    pub open spec fn reduces_to(self, v: F128) -> bool {
        congruent(self@, v@)
    }

    /// Multiplication by `x`, dropping the coefficient of `x^255`.
    fn shl_one(self) -> (r: F256Unreduced)
        ensures
            forall|k: int| #[trigger] r@(k) == (0 <= k < 256 && self@(k - 1)),
    {
        let r = F256Unreduced {
            lo: F128 { lo: self.lo.lo << 1u64, hi: (self.lo.hi << 1u64) ^ (self.lo.lo >> 63u64) },
            hi: F128 {
                lo: (self.hi.lo << 1u64) ^ (self.lo.hi >> 63u64),
                hi: (self.hi.hi << 1u64) ^ (self.hi.lo >> 63u64),
            },
        };
        proof {
            assert forall|k: int| #[trigger] r@(k) == (0 <= k < 256 && self@(k - 1)) by {
                if 0 <= k < 64 {
                    lemma_bit_shl(self.lo.lo, 1, k);
                } else if 64 <= k < 128 {
                    lemma_bit_carry(self.lo.hi, self.lo.lo, 1, k - 64);
                } else if 128 <= k < 192 {
                    lemma_bit_carry(self.hi.lo, self.lo.hi, 1, k - 128);
                } else if 192 <= k < 256 {
                    lemma_bit_carry(self.hi.hi, self.hi.lo, 1, k - 192);
                }
            }
        }
        r
    }

    /// The field element that this polynomial reduces to.
    pub fn reduce(self) -> (r: F128)
        ensures
            self.reduces_to(r),
    {
        // x^128 is congruent to x^7 + x^2 + x + 1. What multiplying the upper
        // half by that carries past x^127 is folded in once more.
        let top: u64 = self.hi.hi;
        let carry: u64 = ((top >> 63u64) ^ (top >> 62u64)) ^ (top >> 57u64);
        let low: u64 = self.hi.lo ^ carry;
        let r = F128 {
            lo: (((self.lo.lo ^ low) ^ (low << 1u64)) ^ (low << 2u64)) ^ (low << 7u64),
            hi: (((self.lo.hi ^ top) ^ ((top << 1u64) ^ (low >> 63u64))) ^ ((top << 2u64) ^ (low
                >> 62u64))) ^ ((top << 7u64) ^ (low >> 57u64)),
        };
        proof {
            lemma_reduce(self, r, carry);
            lemma_congruent_symmetric(r@, self@);
        }
        r
    }
}

impl core::ops::Add for F128 {
    type Output = F128;

    fn add(self, rhs: F128) -> (r: F128) {
        F128 { lo: self.lo ^ rhs.lo, hi: self.hi ^ rhs.hi }
    }
}

impl vstd::std_specs::ops::AddSpecImpl for F128 {
    open spec fn obeys_add_spec() -> bool {
        true
    }

    open spec fn add_req(self, rhs: F128) -> bool {
        true
    }

    open spec fn add_spec(self, rhs: F128) -> F128 {
        self.plus(rhs)
    }
}

impl core::ops::Mul for F128 {
    type Output = F128;

    fn mul(self, rhs: F128) -> (r: F128) {
        let product = self.mul_unreduced(rhs);
        let r = product.reduce();
        proof {
            lemma_congruent_symmetric(product@, r@);
            lemma_congruent_equal(product@, poly_mul(self@, rhs@));
            lemma_congruent_transitive(r@, product@, poly_mul(self@, rhs@));
            lemma_times_congruent(self, rhs);
            lemma_residue_unique(r, self.times(rhs), poly_mul(self@, rhs@));
        }
        r
    }
}

impl vstd::std_specs::ops::MulSpecImpl for F128 {
    open spec fn obeys_mul_spec() -> bool {
        true
    }

    open spec fn mul_req(self, rhs: F128) -> bool {
        true
    }

    open spec fn mul_spec(self, rhs: F128) -> F128 {
        self.times(rhs)
    }
}

impl core::ops::BitXor for F256Unreduced {
    type Output = F256Unreduced;

    fn bitxor(self, rhs: F256Unreduced) -> (r: F256Unreduced) {
        F256Unreduced { lo: self.lo + rhs.lo, hi: self.hi + rhs.hi }
    }
}

impl vstd::std_specs::ops::BitXorSpecImpl for F256Unreduced {
    open spec fn obeys_bitxor_spec() -> bool {
        true
    }

    open spec fn bitxor_req(self, rhs: F256Unreduced) -> bool {
        true
    }

    open spec fn bitxor_spec(self, rhs: F256Unreduced) -> F256Unreduced {
        self.plus(rhs)
    }
}

/// Elements with equal coefficients are equal.
pub proof fn lemma_coefficients_equal(a: F128, b: F128)
    requires
        forall|i: int| #[trigger] a@(i) == b@(i),
    ensures
        a == b,
{
    assert forall|i: int| 0 <= i < 64 implies #[trigger] bit(a.lo, i) == bit(b.lo, i) by {
        assert(a@(i) == b@(i));
    }
    lemma_bits_equal(a.lo, b.lo);
    assert forall|i: int| 0 <= i < 64 implies #[trigger] bit(a.hi, i) == bit(b.hi, i) by {
        assert(a@(i + 64) == b@(i + 64));
    }
    lemma_bits_equal(a.hi, b.hi);
}

/// The sum of two elements is the sum of their polynomials.
pub proof fn lemma_plus_is_poly_add(a: F128, b: F128, i: int)
    ensures
        a.plus(b)@(i) == poly_add(a@, b@)(i),
{
    lemma_bit_xor(a.lo, b.lo, i);
    lemma_bit_xor(a.hi, b.hi, i - 64);
}

/// Every polynomial of degree below 128 is an element.
proof fn lemma_element_of(p: Poly) -> (r: F128)
    requires
        bounded(p, 128),
    ensures
        forall|i: int| #[trigger] r@(i) == p(i),
{
    let upper = |i: int| p(i + 64);
    let r = F128 { lo: word_of(p, 64), hi: word_of(upper, 64) };
    assert forall|i: int| #[trigger] r@(i) == p(i) by {
        if 0 <= i < 64 {
            lemma_word_of(p, 64, i);
        } else if 64 <= i < 128 {
            lemma_word_of(upper, 64, i - 64);
        }
    }
    r
}

/// The product of two elements is congruent to the product of their
/// polynomials.
pub proof fn lemma_times_congruent(a: F128, b: F128)
    ensures
        congruent(a.times(b)@, poly_mul(a@, b@)),
{
    reveal(F128::times);
    lemma_poly_mul_bounded(a@, 128, b@, 128);
    let p = lemma_residue_exists(poly_mul(a@, b@), 255);
    let r = lemma_element_of(p);
    lemma_congruent_equal(r@, p);
    lemma_congruent_transitive(r@, p, poly_mul(a@, b@));
}

/// Two elements congruent to one polynomial are equal.
pub proof fn lemma_residue_unique(a: F128, b: F128, p: Poly)
    requires
        congruent(a@, p),
        congruent(b@, p),
    ensures
        a == b,
{
    lemma_congruent_symmetric(b@, p);
    lemma_congruent_transitive(a@, p, b@);
    lemma_congruent_unique(a@, b@);
    lemma_coefficients_equal(a, b);
}

/// Addition is commutative.
pub proof fn lemma_plus_commutes(a: F128, b: F128)
    ensures
        a.plus(b) == b.plus(a),
{
    assert forall|i: int| #[trigger] a.plus(b)@(i) == b.plus(a)@(i) by {
        lemma_plus_is_poly_add(a, b, i);
        lemma_plus_is_poly_add(b, a, i);
    }
    lemma_coefficients_equal(a.plus(b), b.plus(a));
}

/// Addition is associative.
pub proof fn lemma_plus_associates(a: F128, b: F128, c: F128)
    ensures
        a.plus(b).plus(c) == a.plus(b.plus(c)),
{
    let l = a.plus(b).plus(c);
    let r = a.plus(b.plus(c));
    assert forall|i: int| #[trigger] l@(i) == r@(i) by {
        lemma_plus_is_poly_add(a.plus(b), c, i);
        lemma_plus_is_poly_add(a, b, i);
        lemma_plus_is_poly_add(a, b.plus(c), i);
        lemma_plus_is_poly_add(b, c, i);
    }
    lemma_coefficients_equal(l, r);
}

/// Zero is the additive identity.
pub proof fn lemma_plus_zero(a: F128)
    ensures
        a.plus(F128::zero()) == a,
        F128::zero().plus(a) == a,
{
    let (lo, hi) = (a.lo, a.hi);
    assert(lo ^ 0 == lo && hi ^ 0 == hi) by (bit_vector);
    lemma_plus_commutes(a, F128::zero());
}

/// Every element is its own negative: addition and subtraction coincide.
pub proof fn lemma_plus_self(a: F128)
    ensures
        a.plus(a) == F128::zero(),
{
    let (lo, hi) = (a.lo, a.hi);
    assert(lo ^ lo == 0 && hi ^ hi == 0) by (bit_vector);
}

/// Adding the same element twice changes nothing.
pub proof fn lemma_plus_cancels(a: F128, b: F128)
    ensures
        a.plus(a.plus(b)) == b,
        a.plus(b).plus(b) == a,
{
    lemma_plus_associates(a, a, b);
    lemma_plus_associates(a, b, b);
    lemma_plus_self(a);
    lemma_plus_self(b);
    lemma_plus_zero(a);
    lemma_plus_zero(b);
}

/// Multiplication is commutative.
pub proof fn lemma_times_commutes(a: F128, b: F128)
    ensures
        a.times(b) == b.times(a),
{
    lemma_times_congruent(a, b);
    lemma_times_congruent(b, a);
    let p = poly_mul(a@, b@);
    let q = poly_mul(b@, a@);
    assert forall|k: int| #[trigger] q(k) == p(k) by {
        lemma_poly_mul_commutes(a@, b@, k);
    }
    lemma_congruent_equal(q, p);
    lemma_congruent_transitive(b.times(a)@, q, p);
    lemma_residue_unique(a.times(b), b.times(a), p);
}

/// Multiplication distributes over addition.
pub proof fn lemma_times_distributes(a: F128, b: F128, c: F128)
    ensures
        a.times(b.plus(c)) == a.times(b).plus(a.times(c)),
        b.plus(c).times(a) == b.times(a).plus(c.times(a)),
{
    let p = poly_mul(a@, b.plus(c)@);
    let q = poly_add(poly_mul(a@, b@), poly_mul(a@, c@));
    lemma_times_congruent(a, b.plus(c));
    lemma_times_congruent(a, b);
    lemma_times_congruent(a, c);
    lemma_congruent_add(a.times(b)@, poly_mul(a@, b@), a.times(c)@, poly_mul(a@, c@));
    let sum = a.times(b).plus(a.times(c));
    assert forall|k: int| #[trigger] sum@(k) == poly_add(a.times(b)@, a.times(c)@)(k) by {
        lemma_plus_is_poly_add(a.times(b), a.times(c), k);
    }
    lemma_congruent_equal(sum@, poly_add(a.times(b)@, a.times(c)@));
    lemma_congruent_transitive(sum@, poly_add(a.times(b)@, a.times(c)@), q);
    assert(b.plus(c)@ =~= poly_add(b@, c@)) by {
        assert forall|k: int| #[trigger] b.plus(c)@(k) == poly_add(b@, c@)(k) by {
            lemma_plus_is_poly_add(b, c, k);
        }
    }
    assert forall|k: int| #[trigger] q(k) == p(k) by {
        lemma_poly_mul_distributes(a@, b@, c@, k);
    }
    lemma_congruent_equal(q, p);
    lemma_congruent_transitive(sum@, q, p);
    lemma_residue_unique(a.times(b.plus(c)), sum, p);
    lemma_times_commutes(a, b.plus(c));
    lemma_times_commutes(a, b);
    lemma_times_commutes(a, c);
}

/// `a * (b * c)` is congruent to the product of the three polynomials.
proof fn lemma_triple_congruent(a: F128, b: F128, c: F128)
    ensures
        congruent(a.times(b.times(c))@, poly_mul(a@, poly_mul(b@, c@))),
{
    let d = b.times(c);
    lemma_times_congruent(b, c);
    lemma_times_congruent(a, d);
    lemma_congruent_mul(d@, poly_mul(b@, c@), a@, 128);
    lemma_congruent_transitive(
        a.times(d)@,
        poly_mul(a@, d@),
        poly_mul(a@, poly_mul(b@, c@)),
    );
}

/// Multiplication is associative.
pub proof fn lemma_times_associates(a: F128, b: F128, c: F128)
    ensures
        a.times(b).times(c) == a.times(b.times(c)),
{
    let l = c.times(a.times(b));
    let r = a.times(b.times(c));
    let p = poly_mul(c@, poly_mul(a@, b@));
    let q = poly_mul(a@, poly_mul(b@, c@));
    lemma_times_commutes(a.times(b), c);
    lemma_triple_congruent(c, a, b);
    lemma_triple_congruent(a, b, c);
    assert forall|k: int| #[trigger] p(k) == q(k) by {
        lemma_poly_mul_commutes(c@, poly_mul(a@, b@), k);
        lemma_poly_mul_associates(a@, b@, c@, k);
    }
    lemma_congruent_equal(p, q);
    lemma_congruent_transitive(l@, p, q);
    lemma_residue_unique(l, r, q);
}

/// One is the multiplicative identity.
pub proof fn lemma_times_one(a: F128)
    ensures
        a.times(F128::one()) == a,
        F128::one().times(a) == a,
{
    let one = F128::one();
    let p = poly_mul(one@, a@);
    assert forall|k: int| #[trigger] a@(k) == p(k) by {
        assert forall|i: int| #[trigger] one@(i) == (i == 0) by {
            if 0 <= i < 64 {
                let j = i as u64;
                assert((1u64 >> j) & 1 == 1 <==> j == 0) by (bit_vector)
                    requires
                        j < 64,
                ;
            } else if 64 <= i < 128 {
                let j = (i - 64) as u64;
                assert((0u64 >> j) & 1 == 0) by (bit_vector);
            }
        }
        assert(one@ =~= monomial(0));
        lemma_mul_monomial(0, a@, k);
    }
    lemma_congruent_equal(a@, p);
    lemma_times_congruent(one, a);
    lemma_residue_unique(one.times(a), a, p);
    lemma_times_commutes(one, a);
}

/// Zero absorbs multiplication.
pub proof fn lemma_times_zero(a: F128)
    ensures
        a.times(F128::zero()) == F128::zero(),
        F128::zero().times(a) == F128::zero(),
{
    lemma_times_distributes(a, F128::zero(), F128::zero());
    lemma_plus_self(F128::zero());
    lemma_plus_self(a.times(F128::zero()));
    lemma_times_commutes(a, F128::zero());
}

/// `parity` over the first 128 terms of a product is the whole coefficient.
proof fn lemma_product_coefficient(a: F128, b: F128, k: int)
    ensures
        parity(|j: int| b@(j) && a@(k - j), 128) == poly_mul(a@, b@)(k),
{
    lemma_poly_mul_commutes(a@, b@, k);
    let f = |j: int| b@(j) && a@(k - j);
    let n = k + 1;
    assert forall|j: int| n <= j || 128 <= j implies !#[trigger] f(j) by {
        if n <= j {
            assert(!a@(k - j));
        } else {
            assert(!b@(j));
        }
    }
    lemma_parity_support(f, if n < 0 { 0 } else { n }, 128);
}

/// Zero has no nonzero coefficient.
proof fn lemma_zero_coefficients(i: int)
    ensures
        !F128::zero()@(i),
{
    let j = if i < 64 { i as u64 } else { (i - 64) as u64 };
    assert((0u64 >> j) & 1 == 0) by (bit_vector);
}

/// The sum of two unreduced values is the sum of their polynomials.
pub proof fn lemma_unreduced_plus(a: F256Unreduced, b: F256Unreduced, i: int)
    ensures
        a.plus(b)@(i) == poly_add(a@, b@)(i),
{
    lemma_plus_is_poly_add(a.lo, b.lo, i);
    lemma_plus_is_poly_add(a.hi, b.hi, i - 128);
}

/// The value that `reduce` computes is congruent to its argument. The quotient
/// is the upper half plus the carry.
proof fn lemma_reduce(p: F256Unreduced, r: F128, carry: u64)
    requires
        carry == ((p.hi.hi >> 63u64) ^ (p.hi.hi >> 62u64)) ^ (p.hi.hi >> 57u64),
        r == ({
            let top = p.hi.hi;
            let low = p.hi.lo ^ carry;
            F128 {
                lo: (((p.lo.lo ^ low) ^ (low << 1u64)) ^ (low << 2u64)) ^ (low << 7u64),
                hi: (((p.lo.hi ^ top) ^ ((top << 1u64) ^ (low >> 63u64))) ^ ((top << 2u64) ^ (low
                    >> 62u64))) ^ ((top << 7u64) ^ (low >> 57u64)),
            }
        }),
    ensures
        congruent(r@, p@),
{
    let top = p.hi.hi;
    let low = p.hi.lo ^ carry;
    let q = F128 { lo: low, hi: top };
    let h = p.hi@;
    // The carry holds what the shifted upper half has past x^127.
    assert forall|i: int| 0 <= i < 64 implies #[trigger] bit(carry, i) == ((h(i + 127) != h(i + 126))
        != h(i + 121)) by {
        lemma_bit_shr(top, 63, i);
        lemma_bit_shr(top, 62, i);
        lemma_bit_shr(top, 57, i);
        lemma_bit_xor(top >> 63u64, top >> 62u64, i);
        lemma_bit_xor((top >> 63u64) ^ (top >> 62u64), top >> 57u64, i);
    }
    assert forall|i: int| #[trigger] q@(i) == (h(i) != (0 <= i < 64 && bit(carry, i))) by {
        lemma_bit_xor(p.hi.lo, carry, i);
    }
    assert forall|k: int| #[trigger] r@(k) == (p@(k) != poly_mul(q@, modulus())(k)) by {
        lemma_mul_modulus(q@, k);
        if 0 <= k < 64 {
            lemma_bit_shl(low, 1, k);
            lemma_bit_shl(low, 2, k);
            lemma_bit_shl(low, 7, k);
            lemma_bit_xor(p.lo.lo, low, k);
            lemma_bit_xor(p.lo.lo ^ low, low << 1u64, k);
            lemma_bit_xor((p.lo.lo ^ low) ^ (low << 1u64), low << 2u64, k);
            lemma_bit_xor(((p.lo.lo ^ low) ^ (low << 1u64)) ^ (low << 2u64), low << 7u64, k);
        } else if 64 <= k < 128 {
            let i = k - 64;
            let s1 = (top << 1u64) ^ (low >> 63u64);
            let s2 = (top << 2u64) ^ (low >> 62u64);
            let s7 = (top << 7u64) ^ (low >> 57u64);
            lemma_bit_carry(top, low, 1, i);
            lemma_bit_carry(top, low, 2, i);
            lemma_bit_carry(top, low, 7, i);
            lemma_bit_xor(p.lo.hi, top, i);
            lemma_bit_xor(p.lo.hi ^ top, s1, i);
            lemma_bit_xor((p.lo.hi ^ top) ^ s1, s2, i);
            lemma_bit_xor(((p.lo.hi ^ top) ^ s1) ^ s2, s7, i);
        } else if k >= 128 {
            assert(q@(k - 1) == h(k - 1));
            assert(q@(k - 2) == h(k - 2));
            assert(q@(k - 7) == h(k - 7));
            if k - 128 < 64 {
                assert(bit(carry, k - 128) == ((h(k - 1) != h(k - 2)) != h(k - 7)));
            }
        }
    }
    assert(bounded(q@, 128));
    assert(differ_by(r@, p@, q@));
}

/// Zero reduces to zero.
pub proof fn lemma_zero_reduces()
    ensures
        F256Unreduced::zero().reduces_to(F128::zero()),
{
    let z = F256Unreduced::zero();
    assert forall|k: int| #[trigger] z@(k) == F128::zero()@(k) by {
        lemma_zero_coefficients(k);
        lemma_zero_coefficients(k - 128);
    }
    lemma_congruent_equal(z@, F128::zero()@);
}

/// Reduction can be put off: adding an unreduced product adds the product.
pub proof fn lemma_accumulate(p: F256Unreduced, v: F128, m: F256Unreduced, a: F128, b: F128)
    requires
        p.reduces_to(v),
        forall|k: int| #[trigger] m@(k) == poly_mul(a@, b@)(k),
    ensures
        p.plus(m).reduces_to(v.plus(a.times(b))),
{
    let t = a.times(b);
    lemma_times_congruent(a, b);
    lemma_congruent_symmetric(t@, poly_mul(a@, b@));
    lemma_congruent_equal(m@, poly_mul(a@, b@));
    lemma_congruent_transitive(m@, poly_mul(a@, b@), t@);
    lemma_reductions_add(p, v, m, t);
}

/// Reduction is additive.
pub proof fn lemma_reductions_add(p: F256Unreduced, v: F128, q: F256Unreduced, w: F128)
    requires
        p.reduces_to(v),
        q.reduces_to(w),
    ensures
        p.plus(q).reduces_to(v.plus(w)),
{
    lemma_congruent_add(p@, v@, q@, w@);
    let l = p.plus(q);
    let r = v.plus(w);
    assert forall|k: int| #[trigger] l@(k) == poly_add(p@, q@)(k) by {
        lemma_unreduced_plus(p, q, k);
    }
    assert forall|k: int| #[trigger] poly_add(v@, w@)(k) == r@(k) by {
        lemma_plus_is_poly_add(v, w, k);
    }
    lemma_congruent_equal(l@, poly_add(p@, q@));
    lemma_congruent_equal(poly_add(v@, w@), r@);
    lemma_congruent_transitive(l@, poly_add(p@, q@), poly_add(v@, w@));
    lemma_congruent_transitive(l@, poly_add(v@, w@), r@);
}

/// A polynomial reduces to one element only.
pub proof fn lemma_reduction_unique(p: F256Unreduced, v: F128, w: F128)
    requires
        p.reduces_to(v),
        p.reduces_to(w),
    ensures
        v == w,
{
    lemma_congruent_symmetric(p@, v@);
    lemma_congruent_symmetric(p@, w@);
    lemma_residue_unique(v, w, p@);
}

/// The coefficients of an element are the bits of its two words.
pub proof fn lemma_coefficients_of(a: F128, j: u64)
    requires
        j < 64,
    ensures
        a@(j as int) == ((a.lo >> j) & 1 == 1),
        a@(j + 64) == ((a.hi >> j) & 1 == 1),
        forall|i: int| i < 0 || 128 <= i ==> !#[trigger] a@(i),
{
}

/// The coefficients of an unreduced value are the bits of its four words.
pub proof fn lemma_unreduced_coefficients_of(p: F256Unreduced, j: u64)
    requires
        j < 64,
    ensures
        p@(j as int) == ((p.lo.lo >> j) & 1 == 1),
        p@(j + 64) == ((p.lo.hi >> j) & 1 == 1),
        p@(j + 128) == ((p.hi.lo >> j) & 1 == 1),
        p@(j + 192) == ((p.hi.hi >> j) & 1 == 1),
        forall|i: int| i < 0 || 256 <= i ==> !#[trigger] p@(i),
{
}

/// Addition is exclusive or, word by word.
pub proof fn lemma_plus_words(a: F128, b: F128)
    ensures
        a.plus(b).lo == a.lo ^ b.lo,
        a.plus(b).hi == a.hi ^ b.hi,
{
}

/// Addition of unreduced values is exclusive or, word by word.
pub proof fn lemma_unreduced_plus_words(p: F256Unreduced, q: F256Unreduced)
    ensures
        p.plus(q).lo.lo == p.lo.lo ^ q.lo.lo,
        p.plus(q).lo.hi == p.lo.hi ^ q.lo.hi,
        p.plus(q).hi.lo == p.hi.lo ^ q.hi.lo,
        p.plus(q).hi.hi == p.hi.hi ^ q.hi.hi,
{
}

/// The operators compute the sum, the product and the unreduced sum.
pub proof fn lemma_operators(a: F128, b: F128, p: F256Unreduced, q: F256Unreduced)
    ensures
        <F128 as AddSpec>::obeys_add_spec(),
        <F128 as MulSpec>::obeys_mul_spec(),
        <F256Unreduced as BitXorSpec>::obeys_bitxor_spec(),
        a.add_req(b),
        a.mul_req(b),
        p.bitxor_req(q),
        a.add_spec(b) == (F128 { lo: a.lo ^ b.lo, hi: a.hi ^ b.hi }),
        a.mul_spec(b) == a.times(b),
        p.bitxor_spec(q).lo == p.lo.plus(q.lo),
        p.bitxor_spec(q).hi == p.hi.plus(q.hi),
{
}

/// `x^7 + x^2 + x + 1`, bit by bit.
proof fn lemma_low_modulus_bits(i: int)
    ensures
        (F128 { lo: 0x87, hi: 0 })@(i) == (i == 0 || i == 1 || i == 2 || i == 7),
{
    if 0 <= i < 64 {
        let j = i as u64;
        assert((0x87u64 >> j) & 1 == 1 <==> j == 0 || j == 1 || j == 2 || j == 7) by (bit_vector)
            requires
                j < 64,
        ;
    } else if 64 <= i < 128 {
        let j = (i - 64) as u64;
        assert((0u64 >> j) & 1 == 0) by (bit_vector);
    }
}

/// Multiplication by `x` is a shift by one, with `x^7 + x^2 + x + 1` added where
/// a bit is shifted out.
///
/// With the ring laws this fixes every product: an element is a sum of powers of
/// `x`.
pub proof fn lemma_times_x(a: F128)
    ensures
        (F128 { lo: 2, hi: 0 }).times(a).hi == (a.hi << 1u64) ^ (a.lo >> 63u64),
        a.hi >> 63u64 == 0 ==> (F128 { lo: 2, hi: 0 }).times(a).lo == a.lo << 1u64,
        a.hi >> 63u64 != 0 ==> (F128 { lo: 2, hi: 0 }).times(a).lo == (a.lo << 1u64) ^ 0x87,
{
    let x = F128 { lo: 2, hi: 0 };
    let c = F128 { lo: 0x87, hi: 0 };
    let shifted = F128 { lo: a.lo << 1u64, hi: (a.hi << 1u64) ^ (a.lo >> 63u64) };
    let out = a@(127);
    let r = if out {
        shifted.plus(c)
    } else {
        shifted
    };
    let p = poly_mul(x@, a@);
    assert forall|i: int| #[trigger] x@(i) == (i == 1) by {
        if 0 <= i < 64 {
            let j = i as u64;
            assert((2u64 >> j) & 1 == 1 <==> j == 1) by (bit_vector)
                requires
                    j < 64,
            ;
        } else if 64 <= i < 128 {
            let j = (i - 64) as u64;
            assert((0u64 >> j) & 1 == 0) by (bit_vector);
        }
    }
    assert(x@ =~= monomial(1));
    let w: Poly = |i: int| i == 0 && out;
    assert(bounded(w, 1));
    assert forall|k: int| #[trigger] r@(k) == (p(k) != poly_mul(w, modulus())(k)) by {
        lemma_mul_monomial(1, a@, k);
        lemma_mul_modulus(w, k);
        lemma_plus_is_poly_add(shifted, c, k);
        lemma_low_modulus_bits(k);
        if 0 <= k < 64 {
            lemma_bit_shl(a.lo, 1, k);
        } else if 64 <= k < 128 {
            lemma_bit_carry(a.hi, a.lo, 1, k - 64);
        }
    }
    assert(differ_by(r@, p, w));
    lemma_times_congruent(x, a);
    lemma_residue_unique(x.times(a), r, p);
    let (lo, hi) = (a.lo, a.hi);
    assert(hi >> 63u64 == 0 <==> (hi >> 63u64) & 1 != 1) by (bit_vector);
    let carried = shifted.hi;
    assert(carried ^ 0 == carried) by (bit_vector);
}

/// Reduction replaces `x^128` by `x^7 + x^2 + x + 1`: the upper half counts that
/// many times.
pub proof fn lemma_reduction_value(p: F256Unreduced)
    ensures
        p.reduces_to(p.lo.plus(p.hi.times(F128 { lo: 0x87, hi: 0 }))),
{
    let c = F128 { lo: 0x87, hi: 0 };
    let top: Poly = |i: int| i == 128;
    let low: Poly = |i: int| i == 0 || i == 1 || i == 2 || i == 7;
    let t = p.hi.times(c);
    lemma_top_power();
    assert(low =~= c@) by {
        assert forall|i: int| #[trigger] low(i) == c@(i) by {
            lemma_low_modulus_bits(i);
        }
    }
    let q = poly_mul(p.hi@, top);
    lemma_congruent_mul(top, c@, p.hi@, 128);
    lemma_times_congruent(p.hi, c);
    lemma_congruent_symmetric(t@, poly_mul(p.hi@, c@));
    lemma_congruent_transitive(q, poly_mul(p.hi@, c@), t@);
    lemma_congruent_equal(p.lo@, p.lo@);
    lemma_congruent_add(p.lo@, p.lo@, q, t@);
    assert forall|k: int| #[trigger] p@(k) == poly_add(p.lo@, q)(k) by {
        assert(top =~= monomial(128));
        lemma_poly_mul_commutes(p.hi@, top, k);
        lemma_mul_monomial(128, p.hi@, k);
    }
    lemma_congruent_equal(p@, poly_add(p.lo@, q));
    let v = p.lo.plus(t);
    assert forall|k: int| #[trigger] poly_add(p.lo@, t@)(k) == v@(k) by {
        lemma_plus_is_poly_add(p.lo, t, k);
    }
    lemma_congruent_equal(poly_add(p.lo@, t@), v@);
    lemma_congruent_transitive(p@, poly_add(p.lo@, q), poly_add(p.lo@, t@));
    lemma_congruent_transitive(p@, poly_add(p.lo@, t@), v@);
}

} // verus!
