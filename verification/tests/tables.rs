use flock_core::field::F128;
use flock_core::zerocheck::eq::build_eq;
use flock_core::zerocheck::kernels::{
    fold_one_row_neon_unchecked_8, fold_projective_pairs_neon, STRIDE,
};
use flock_core::zerocheck::multilinear::fold_and_compute_round_pair_into;
use flock_core::zerocheck::projective::{
    final_bind_projective, fold_and_compute_round_pair_in_place, twist_lowest_in_place,
};

fn small(x: u64) -> F128 {
    F128 { lo: x, hi: 0 }
}

fn elements(n: usize, seed: u64) -> Vec<F128> {
    let mut s = seed;
    let mut out = Vec::new();
    for _ in 0..n {
        s = s.wrapping_mul(6364136223846793005).wrapping_add(1442695040888963407);
        let lo = s ^ (s >> 29);
        s = s.wrapping_mul(6364136223846793005).wrapping_add(1442695040888963407);
        out.push(F128 { lo, hi: s ^ (s >> 31) });
    }
    out
}

/// The value at `point`, summed entry by entry.
fn evaluate(t: &[F128], point: &[F128]) -> F128 {
    let mut v = F128::zero();
    for (i, &e) in t.iter().enumerate() {
        let mut w = F128::one();
        for (k, &r) in point.iter().enumerate() {
            w = w * if (i >> k) & 1 == 1 { r } else { F128::one() + r };
        }
        v = v + w * e;
    }
    v
}

#[test]
fn eq_table_of_no_variables_is_one() {
    assert_eq!(build_eq(&[]), vec![F128::one()]);
}

#[test]
fn eq_table_of_two_variables() {
    let x = F128 { lo: 0xfedcba9876543210, hi: 0x0123456789abcdef };
    let y = F128 { lo: 0x8badf00d0badc0de, hi: 0xdeadbeefcafebabe };
    assert_eq!(
        build_eq(&[x, y]),
        vec![
            F128 { lo: 0x1bf149876930d422, hi: 0x1f624c482d1a246c },
            F128 { lo: 0x905cb98a629d14fd, hi: 0xc1cff2a7e7e49ed2 },
            F128 { lo: 0xe52df31f1f64e633, hi: 0x1e41092fa4b1e983 },
            F128 { lo: 0x6e80031214c926ed, hi: 0xc0ecb7c06e4f533d },
        ]
    );
}

#[test]
fn eq_table_orders_the_first_variable_lowest() {
    assert_eq!(
        build_eq(&[F128::one(), F128::zero()]),
        vec![F128::zero(), F128::one(), F128::zero(), F128::zero()]
    );
}

#[test]
fn eq_weights_sum_to_one() {
    let mut total = F128::zero();
    for w in build_eq(&elements(5, 3)) {
        total = total + w;
    }
    assert_eq!(total, F128::one());
}

#[test]
fn table_fold_of_even_and_odd_lengths() {
    for n in 0..6 {
        let src = elements(2 * n, 7 + n as u64);
        let r = small(0x1234567);
        let mut dst = vec![F128::one(); n];
        fold_projective_pairs_neon(&src, &mut dst, r);
        for t in 0..n {
            assert_eq!(dst[t], src[2 * t] + r * src[2 * t + 1]);
        }
    }
    let mut dst = vec![F128::zero(); 3];
    let src: Vec<F128> = (1..=6).map(small).collect();
    fold_projective_pairs_neon(&src, &mut dst, small(9));
    assert_eq!(dst, vec![small(1 ^ 18), small(3 ^ 36), small(5 ^ 54)]);
}

#[test]
fn row_fold_sums_one_entry_per_byte() {
    let table = elements(8 * STRIDE, 11);
    let bytes = [0u8, 255, 1, 128, 7, 64, 200, 33];
    let mut expected = F128::zero();
    for c in 0..8 {
        expected = expected + table[c * 256 + bytes[c] as usize];
    }
    assert_eq!(fold_one_row_neon_unchecked_8(&table, &bytes), expected);
}

#[test]
fn row_fold_reads_only_eight_positions() {
    let mut table = vec![F128::zero(); 9 * 256];
    table[3] = small(1);
    table[7 * 256 + 5] = small(2);
    table[8 * 256] = small(4);
    let bytes = [3u8, 0, 0, 0, 0, 0, 0, 5, 0];
    assert_eq!(fold_one_row_neon_unchecked_8(&table, &bytes), small(3));
}

#[test]
fn rounds_and_final_binding_evaluate_the_polynomial() {
    for m in 1..=5usize {
        let ta = elements(1 << m, 100 + m as u64);
        let tb = elements(1 << m, 200 + m as u64);
        let point = elements(m, 300 + m as u64);
        let mut a = ta.clone();
        let mut b = tb.clone();
        twist_lowest_in_place(&mut a);
        twist_lowest_in_place(&mut b);
        for k in 0..m - 1 {
            let r_next = elements(m - k - 1, 400 + k as u64);
            fold_and_compute_round_pair_in_place(&mut a, &mut b, point[k], &r_next);
        }
        assert_eq!(final_bind_projective(&a, point[m - 1]), evaluate(&ta, &point));
        assert_eq!(final_bind_projective(&b, point[m - 1]), evaluate(&tb, &point));
    }
}

#[test]
fn polynomial_takes_its_table_on_the_hypercube() {
    let t = elements(8, 5);
    for (i, &e) in t.iter().enumerate() {
        let mut a = t.clone();
        let mut b = t.clone();
        twist_lowest_in_place(&mut a);
        twist_lowest_in_place(&mut b);
        let bit = |k: usize| small(((i >> k) & 1) as u64);
        fold_and_compute_round_pair_in_place(&mut a, &mut b, bit(0), &elements(2, 1));
        fold_and_compute_round_pair_in_place(&mut a, &mut b, bit(1), &elements(1, 1));
        assert_eq!(final_bind_projective(&a, bit(2)), e);
    }
}

#[test]
fn message_is_the_round_polynomial_at_one_and_infinity() {
    let (ta, tb) = (elements(8, 21), elements(8, 22));
    let r_fold = small(0xabcdef);
    let r = elements(2, 23);
    let mut a = vec![F128::zero(); 4];
    let mut b = vec![F128::zero(); 4];
    let m = fold_and_compute_round_pair_into(&ta, &tb, &mut a, &mut b, r_fold, &r);
    let g = |x: F128| {
        let mut s = F128::zero();
        for u in 0..2 {
            let e = if u == 1 { r[1] } else { F128::one() + r[1] };
            let au = a[2 * u] + x * (a[2 * u + 1] + a[2 * u]);
            let bu = b[2 * u] + x * (b[2 * u + 1] + b[2 * u]);
            s = s + e * (au * bu);
        }
        (r[0] * x + (F128::one() + r[0]) * (F128::one() + x)) * s
    };
    assert_eq!(g(F128::one()), m.0);

    let mut claim = F128::zero();
    let weights = build_eq(&r);
    for x in 0..4 {
        claim = claim + weights[x] * (a[x] * b[x]);
    }
    assert_eq!(g(F128::zero()) + g(F128::one()), claim);

    // Squaring is additive, so over the plane spanned by v and w everything but
    // the cubic term sums to zero.
    let (v, w) = (small(2), small(5));
    let plane = g(F128::zero()) + g(v) + g(w) + g(v + w);
    assert_eq!(plane, m.1 * (v * (w * (v + w))));
}
