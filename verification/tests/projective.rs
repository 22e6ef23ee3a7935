use flock_core::field::F128;
use flock_core::zerocheck::multilinear::{
    fold_and_compute_round_pair_into, fold_and_compute_round_pair_projective_into,
};
use flock_core::zerocheck::projective::{
    final_bind_projective, fold_and_compute_round_pair_in_place, fold_pair_projective, mul2,
    twist_lowest_in_place,
};

struct Rng(u64);

impl Rng {
    fn new(seed: u64) -> Self {
        Self(seed)
    }
    fn next_u64(&mut self) -> u64 {
        self.0 = self.0.wrapping_add(0x9E37_79B9_7F4A_7C15);
        let mut z = self.0;
        z = (z ^ (z >> 30)).wrapping_mul(0xBF58_476D_1CE4_E5B9);
        z = (z ^ (z >> 27)).wrapping_mul(0x94D0_49BB_1331_11EB);
        z ^ (z >> 31)
    }
    fn f128(&mut self) -> F128 {
        F128 {
            lo: self.next_u64(),
            hi: self.next_u64(),
        }
    }
    fn vec(&mut self, n: usize) -> Vec<F128> {
        (0..n).map(|_| self.f128()).collect()
    }
}

fn small(x: u64) -> F128 {
    F128 { lo: x, hi: 0 }
}

fn smalls(xs: &[u64]) -> Vec<F128> {
    xs.iter().map(|&x| small(x)).collect()
}

#[test]
fn twist_is_an_involution() {
    let mut rng = Rng::new(1);
    let orig = rng.vec(16);
    let mut t = orig.clone();
    twist_lowest_in_place(&mut t);
    assert_ne!(t, orig, "twist should change the table");
    twist_lowest_in_place(&mut t);
    assert_eq!(t, orig, "twisting twice must be the identity in char 2");
}

#[test]
fn production_parallel_round_matches_boolean_round() {
    for log_n in 10..=12 {
        let n = 1usize << log_n;
        let mut rng = Rng::new(0xB16B_00B5 + log_n as u64);
        let a = rng.vec(n);
        let b = rng.vec(n);
        let r_fold = rng.f128();
        let mut r_next = vec![F128::one(); log_n - 1];
        r_next[1..].copy_from_slice(&rng.vec(log_n - 2));

        let mut ba = vec![F128::zero(); n / 2];
        let mut bb = vec![F128::zero(); n / 2];
        let m_base =
            fold_and_compute_round_pair_into(&a, &b, &mut ba, &mut bb, r_fold, &r_next);

        let mut ta = a.clone();
        let mut tb = b.clone();
        twist_lowest_in_place(&mut ta);
        twist_lowest_in_place(&mut tb);
        let mut pa = vec![F128::zero(); n / 2];
        let mut pb = vec![F128::zero(); n / 2];
        let m_projective = fold_and_compute_round_pair_projective_into(
            &ta, &tb, &mut pa, &mut pb, r_fold, &r_next,
        );

        assert_eq!(m_base, m_projective, "message mismatch at log_n={log_n}");
        twist_lowest_in_place(&mut pa);
        twist_lowest_in_place(&mut pb);
        assert_eq!(ba, pa, "a output mismatch at log_n={log_n}");
        assert_eq!(bb, pb, "b output mismatch at log_n={log_n}");
    }
}

#[test]
fn twist_adds_the_even_slot_to_the_odd_slot() {
    let mut t = smalls(&[1, 2, 12, 10]);
    twist_lowest_in_place(&mut t);
    assert_eq!(t, smalls(&[1, 3, 12, 6]));
    let mut empty: Vec<F128> = Vec::new();
    twist_lowest_in_place(&mut empty);
    assert_eq!(empty, Vec::new());
}

#[test]
fn mul2_gives_both_products() {
    assert_eq!(mul2(small(3), small(5), small(7)), (small(15), small(9)));
}

#[test]
fn fold_pair_binds_two_pairs_from_an_offset() {
    let src = smalls(&[99, 1, 2, 3, 4, 98]);
    assert_eq!(
        fold_pair_projective(&src, 1, small(9)),
        (small(1 ^ 18), small(3 ^ 36))
    );
}

#[test]
fn final_bind_is_c0_plus_r_times_c1() {
    let a = F128 { lo: 0xfedcba9876543210, hi: 0x0123456789abcdef };
    let b = F128 { lo: 0x8badf00d0badc0de, hi: 0xdeadbeefcafebabe };
    assert_eq!(
        final_bind_projective(&[a, small(3)], b),
        F128 { lo: 0x622aaa8f6aa273f5, hi: 0x62d58657d6a8022c }
    );
}

#[test]
fn smallest_round_in_place() {
    let mut a = smalls(&[1, 2, 3, 4]);
    let mut b = smalls(&[5, 6, 7, 8]);
    let m = fold_and_compute_round_pair_in_place(&mut a, &mut b, small(9), &smalls(&[5]));
    assert_eq!(a, smalls(&[19, 52]));
    assert_eq!(b, smalls(&[51, 124]));
    assert_eq!(m, (small(10297), small(2480)));
}

#[test]
fn smallest_boolean_round() {
    let a = smalls(&[1, 2, 3, 4]);
    let b = smalls(&[5, 6, 7, 8]);
    let mut a_out = vec![F128::zero(); 2];
    let mut b_out = vec![F128::zero(); 2];
    let m = fold_and_compute_round_pair_into(
        &a, &b, &mut a_out, &mut b_out, small(9), &smalls(&[5]),
    );
    assert_eq!(a_out, smalls(&[26, 60]));
    assert_eq!(b_out, smalls(&[30, 112]));
    assert_eq!(m, (small(9792), small(3236)));
}

#[test]
fn eight_entry_round_in_place() {
    let x = F128 { lo: 0xfedcba9876543210, hi: 0x0123456789abcdef };
    let y = F128 { lo: 0x8badf00d0badc0de, hi: 0xdeadbeefcafebabe };
    let top = F128 { lo: 0, hi: 1 << 63 };
    let mut a = vec![x, y, small(3), top, x + y, small(6), small(7), small(8)];
    let mut b = vec![
        y, small(1), small(2), x, small(5), F128 { lo: 0, hi: 1 << 36 }, small(9), y,
    ];
    let m = fold_and_compute_round_pair_in_place(&mut a, &mut b, x, &[y, x]);
    assert_eq!(
        m,
        (
            F128 { lo: 0xdb11448493244fe3, hi: 0xe399d3bdb5498a59 },
            F128 { lo: 0xc68aaecd4d18e2af, hi: 0x67eafa73898c50ae },
        )
    );
    assert_eq!(
        a,
        vec![
            F128 { lo: 0x905cb98a629d14fd, hi: 0xc1cff2a7e7e49ed2 },
            F128 { lo: 0xdb798d735647dfc6, hi: 0x8aeac65ed33e55ea },
            F128 { lo: 0x73bad5c448015eae, hi: 0xd94564d976addb31 },
            F128 { lo: 0x855f0107faa0ce29, hi: 0xd05f4fe53bf3b44e },
        ]
    );
    assert_eq!(
        b,
        vec![
            F128 { lo: 0x75714a957df9f2ce, hi: 0xdf8efb8843557751 },
            F128 { lo: 0x8101a4f7e1e174e7, hi: 0x8a5fb44b7eec50db },
            F128 { lo: 0x9b59670964a69f10, hi: 0x6543210964a69f26 },
            F128 { lo: 0xf5d9641b706fb9f4, hi: 0xa5af96c90ae9cc1b },
        ]
    );
}

#[test]
fn in_place_round_matches_the_round_into_buffers() {
    for log_n in 2..=6 {
        let n = 1usize << log_n;
        let mut rng = Rng::new(log_n as u64);
        let mut a = rng.vec(n);
        let mut b = rng.vec(n);
        let r_fold = rng.f128();
        let r_next = rng.vec(log_n - 1);
        let mut pa = vec![F128::one(); n / 2];
        let mut pb = vec![F128::one(); n / 2];
        let m_into = fold_and_compute_round_pair_projective_into(
            &a, &b, &mut pa, &mut pb, r_fold, &r_next,
        );
        let m = fold_and_compute_round_pair_in_place(&mut a, &mut b, r_fold, &r_next);
        assert_eq!(m, m_into);
        assert_eq!(a, pa);
        assert_eq!(b, pb);
    }
}
