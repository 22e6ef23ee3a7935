//! Fold kernels: whole-table folding of a twisted table, and the byte-table
//! fold of one row.
use crate::field::{lemma_plus_zero, F128};
use crate::sum::{lemma_sum_change, sum};
use crate::zerocheck::projective::{fold_projective, mul2};
use vstd::prelude::*;

verus! {

/// Entries per byte position in the table of a row fold.
pub const STRIDE: usize = 256;

/// Folds a twisted table into `dst`: each adjacent pair `(c0, c1)` of `src`
/// becomes `c0 + r * c1`.
///
/// This has the shape of the two-lane kernel: two products at a time, and one
/// more where the length is odd.
pub fn fold_projective_pairs_neon(src: &[F128], dst: &mut [F128], r: F128)
    requires
        src@.len() == 2 * old(dst)@.len(),
    ensures
        final(dst)@ == fold_projective(src@, r),
        forall|x: int|
            0 <= x < final(dst)@.len() ==> #[trigger] final(dst)@[x] == src@[2 * x].plus(
                r.times(src@[2 * x + 1]),
            ),
{
    let n: usize = dst.len();
    let total: usize = src.len();
    let lanes: usize = n - n % 2;
    let mut t: usize = 0;
    while t < lanes
        invariant
            t <= lanes,
            t % 2 == 0,
            lanes == n - n % 2,
            dst@.len() == n,
            total == 2 * n,
            src@.len() == total,
            forall|x: int| 0 <= x < t ==> #[trigger] dst@[x] == fold_projective(src@, r)[x],
        decreases lanes - t,
    {
        let s: usize = 2 * t;
        let prod = mul2(r, src[s + 1], src[s + 3]);
        dst[t] = src[s] + prod.0;
        dst[t + 1] = src[s + 2] + prod.1;
        t = t + 2;
    }
    if t < n {
        let s: usize = 2 * t;
        dst[t] = src[s] + r * src[s + 1];
    }
    assert(dst@ =~= fold_projective(src@, r));
}

/// The table entries that a row of bytes selects: entry `bytes[c]` of the
/// `c`-th run of [`STRIDE`] entries.
pub open spec fn row_terms(table: Seq<F128>, bytes: Seq<u8>) -> spec_fn(int) -> F128 {
    |c: int| table[STRIDE * c + bytes[c]]
}

/// The one-row fold for eight byte positions: the sum of the eight table entries
/// that the bytes select.
pub fn fold_one_row_neon_unchecked_8(table: &[F128], bytes: &[u8]) -> (v: F128)
    requires
        table@.len() >= 8 * STRIDE,
        bytes@.len() >= 8,
    ensures
        v == sum(row_terms(table@, bytes@), 8),
        v == table@[bytes@[0] as int].plus(table@[256 + bytes@[1]]).plus(
            table@[512 + bytes@[2]],
        ).plus(table@[768 + bytes@[3]]).plus(table@[1024 + bytes@[4]]).plus(
            table@[1280 + bytes@[5]],
        ).plus(table@[1536 + bytes@[6]]).plus(table@[1792 + bytes@[7]]),
{
    let mut acc = table[bytes[0] as usize];
    let mut c: usize = 1;
    proof {
        let f = row_terms(table@, bytes@);
        assert(sum(f, 1) == sum(f, 0).plus(f(0)));
        lemma_plus_zero(f(0));
    }
    while c < 8
        invariant
            1 <= c <= 8,
            table@.len() >= 8 * STRIDE,
            bytes@.len() >= 8,
            acc == sum(row_terms(table@, bytes@), c as int),
        decreases 8 - c,
    {
        acc = acc + table[c * STRIDE + bytes[c] as usize];
        c = c + 1;
    }
    proof {
        lemma_row_fold_entries(table@, bytes@);
    }
    acc
}

/// The row fold is one table entry for each of the eight bytes, added up.
pub proof fn lemma_row_fold_entries(table: Seq<F128>, bytes: Seq<u8>)
    ensures
        sum(row_terms(table, bytes), 8) == table[bytes[0] as int].plus(
            table[256 + bytes[1]],
        ).plus(table[512 + bytes[2]]).plus(table[768 + bytes[3]]).plus(
            table[1024 + bytes[4]],
        ).plus(table[1280 + bytes[5]]).plus(table[1536 + bytes[6]]).plus(table[1792 + bytes[7]]),
{
    let f = row_terms(table, bytes);
    reveal_with_fuel(sum, 9);
    lemma_plus_zero(f(0));
}

/// Changing byte `j` from `p` to `q` changes the row fold by the sum of the two
/// entries that they select, and by nothing else.
pub proof fn lemma_row_fold_change(table: Seq<F128>, bytes: Seq<u8>, j: int, q: u8)
    requires
        0 <= j < 8,
        8 <= bytes.len(),
    ensures
        sum(row_terms(table, bytes.update(j, q)), 8) == sum(row_terms(table, bytes), 8).plus(
            table[256 * j + bytes[j]].plus(table[256 * j + q]),
        ),
{
    let f = row_terms(table, bytes);
    let g = row_terms(table, bytes.update(j, q));
    lemma_sum_change(f, g, j, 8);
}

} // verus!
