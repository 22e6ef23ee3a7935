//! Single bits of 64-bit words.
use vstd::prelude::*;

verus! {

/// Bit `i` of a word; bits outside `0..64` are clear.
pub open spec fn bit(w: u64, i: int) -> bool {
    0 <= i < 64 && (w >> (i as u64)) & 1 == 1
}

/// The bits of a sum.
pub proof fn lemma_bit_xor(a: u64, b: u64, i: int)
    ensures
        bit(a ^ b, i) == (bit(a, i) != bit(b, i)),
{
    if 0 <= i < 64 {
        let j = i as u64;
        assert(((a ^ b) >> j) & 1 == 1 <==> ((a >> j) & 1 == 1) != ((b >> j) & 1 == 1))
            by (bit_vector)
            requires
                j < 64,
        ;
    }
}

/// The bits of a left shift.
pub proof fn lemma_bit_shl(w: u64, s: u64, i: int)
    requires
        s < 64,
        0 <= i < 64,
    ensures
        bit(w << s, i) == bit(w, i - s),
{
    let j = i as u64;
    if i >= s {
        let d = (i - s) as u64;
        assert(((w << s) >> j) & 1 == (w >> d) & 1) by (bit_vector)
            requires
                s < 64,
                j < 64,
                j == d + s,
        ;
    } else {
        assert(((w << s) >> j) & 1 == 0) by (bit_vector)
            requires
                s < 64,
                j < s,
        ;
    }
}

/// The bits of a right shift.
pub proof fn lemma_bit_shr(w: u64, s: u64, i: int)
    requires
        s < 64,
        0 <= i < 64,
    ensures
        bit(w >> s, i) == bit(w, i + s),
{
    let j = i as u64;
    if i + s < 64 {
        let d = (i + s) as u64;
        assert(((w >> s) >> j) & 1 == (w >> d) & 1) by (bit_vector)
            requires
                s < 64,
                j < 64,
                d == j + s,
                d < 64,
        ;
    } else {
        assert(((w >> s) >> j) & 1 == 0) by (bit_vector)
            requires
                s < 64,
                j < 64,
                j + s >= 64,
        ;
    }
}

/// Words that agree from bit `n` on are equal there.
proof fn lemma_high_bits_equal(a: u64, b: u64, n: int)
    requires
        0 <= n <= 63,
        forall|i: int| n <= i < 64 ==> #[trigger] bit(a, i) == bit(b, i),
    ensures
        a >> (n as u64) == b >> (n as u64),
    decreases 64 - n,
{
    let m = n as u64;
    assert(bit(a, n) == bit(b, n));
    if n == 63 {
        assert(a >> 63 == b >> 63) by (bit_vector)
            requires
                ((a >> 63) & 1 == 1) == ((b >> 63) & 1 == 1),
        ;
    } else {
        lemma_high_bits_equal(a, b, n + 1);
        let k = (n + 1) as u64;
        assert(a >> m == b >> m) by (bit_vector)
            requires
                m < 63,
                k == m + 1,
                a >> k == b >> k,
                ((a >> m) & 1 == 1) == ((b >> m) & 1 == 1),
        ;
    }
}

/// Words with equal bits are equal.
pub proof fn lemma_bits_equal(a: u64, b: u64)
    requires
        forall|i: int| 0 <= i < 64 ==> #[trigger] bit(a, i) == bit(b, i),
    ensures
        a == b,
{
    lemma_high_bits_equal(a, b, 0);
    assert(a == b) by (bit_vector)
        requires
            a >> 0u64 == b >> 0u64,
    ;
}

/// Bit `i` of `hi << s`, with the bits that `lo << s` carries out.
pub proof fn lemma_bit_carry(hi: u64, lo: u64, s: u64, i: int)
    requires
        0 < s < 64,
        0 <= i < 64,
    ensures
        bit((hi << s) ^ (lo >> (64 - s) as u64), i) == (if i >= s {
            bit(hi, i - s)
        } else {
            bit(lo, i - s + 64)
        }),
{
    lemma_bit_shl(hi, s, i);
    lemma_bit_shr(lo, (64 - s) as u64, i);
    lemma_bit_xor(hi << s, lo >> (64 - s) as u64, i);
}

/// The word whose bits `0..n` are `f`.
pub open spec fn word_of(f: spec_fn(int) -> bool, n: int) -> u64
    decreases n,
{
    if n <= 0 {
        0
    } else if f(n - 1) {
        word_of(f, n - 1) | (1u64 << ((n - 1) as u64))
    } else {
        word_of(f, n - 1)
    }
}

/// The bits of [`word_of`].
pub proof fn lemma_word_of(f: spec_fn(int) -> bool, n: int, i: int)
    requires
        0 <= n <= 64,
        0 <= i < 64,
    ensures
        bit(word_of(f, n), i) == (i < n && f(i)),
    decreases n,
{
    let j = i as u64;
    if n == 0 {
        assert((0u64 >> j) & 1 == 0) by (bit_vector);
    } else {
        lemma_word_of(f, n - 1, i);
        let m = (n - 1) as u64;
        let w = word_of(f, n - 1);
        assert(((w | (1u64 << m)) >> j) & 1 == 1 <==> (w >> j) & 1 == 1 || j == m) by (bit_vector)
            requires
                j < 64,
                m < 64,
        ;
    }
}

} // verus!
