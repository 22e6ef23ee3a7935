use flock_core::field::{F128, F256Unreduced};

fn x() -> F128 {
    F128 { lo: 0xfedcba9876543210, hi: 0x0123456789abcdef }
}

fn y() -> F128 {
    F128 { lo: 0x8badf00d0badc0de, hi: 0xdeadbeefcafebabe }
}

fn z() -> F128 {
    F128 { lo: 0x0f1e2d3c4b5a6978, hi: 0x8796a5b4c3d2e1f0 }
}

#[test]
fn addition_is_exclusive_or() {
    let s = F128 { lo: 0b1100, hi: 1 << 63 } + F128 { lo: 0b1010, hi: 1 };
    assert_eq!(s, F128 { lo: 0b0110, hi: (1 << 63) | 1 });
    assert_eq!(x() + x(), F128::zero());
}

#[test]
fn multiplication_wraps_at_the_modulus() {
    let top = F128 { lo: 0, hi: 1 << 63 };
    assert_eq!(top * F128 { lo: 2, hi: 0 }, F128 { lo: 0x87, hi: 0 });
    assert_eq!(F128 { lo: 1 << 63, hi: 0 } * F128 { lo: 2, hi: 0 }, F128 { lo: 0, hi: 1 });
}

#[test]
fn products_of_full_width() {
    assert_eq!(x() * y(), F128 { lo: 0x6e80031214c926ed, hi: 0xc0ecb7c06e4f533d });
    let ones = F128 { lo: u64::MAX, hi: u64::MAX };
    assert_eq!(ones * ones, F128 { lo: 0x555555555555402f, hi: 0x5555555555555555 });
}

#[test]
fn arithmetic_laws_on_values() {
    assert_eq!(x() * y(), y() * x());
    assert_eq!((x() * y()) * z(), x() * (y() * z()));
    assert_eq!(x() * (y() + z()), x() * y() + x() * z());
    assert_eq!(x() * F128::one(), x());
    assert_eq!(x() * F128::zero(), F128::zero());
    assert_eq!(x() + F128::zero(), x());
    assert_eq!(x() + (x() + y()), y());
}

#[test]
fn unreduced_product_keeps_both_halves() {
    assert_eq!(
        x().mul_unreduced(y()),
        F256Unreduced {
            lo: F128 { lo: 0x1ac1e4a0d85391e0, hi: 0xa0a7979c6bf5329d },
            hi: F128 { lo: 0xbaa25ce238cdf6ef, hi: 0x00c42fde8b6b5592 },
        }
    );
}

#[test]
fn reduction_of_full_width_values() {
    assert_eq!(
        F256Unreduced { lo: y(), hi: x() }.reduce(),
        F128 { lo: 0x1de799ff621856ae, hi: 0x48e7d71da34b2cce }
    );
    let ones = F128 { lo: u64::MAX, hi: u64::MAX };
    assert_eq!(
        F256Unreduced { lo: ones, hi: ones }.reduce(),
        F128 { lo: 0xffffffffffffc071, hi: 0xffffffffffffffff }
    );
    assert_eq!(F256Unreduced { lo: x(), hi: F128::zero() }.reduce(), x());
    assert_eq!(F256Unreduced::zero().reduce(), F128::zero());
}

#[test]
fn reduction_can_be_put_off() {
    let acc = F256Unreduced::zero() ^ x().mul_unreduced(y()) ^ y().mul_unreduced(z());
    assert_eq!(acc.reduce(), x() * y() + y() * z());
}
