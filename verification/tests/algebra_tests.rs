use crc_forge::error::Error;
use crc_forge::math::{Polynomial, PolynomialRepr};
use crc_forge::reverse::{reverse_u128, reverse_u32, reverse_u64};

fn p32(v: u32) -> Polynomial<u32> {
    Polynomial::from(PolynomialRepr::Normal(v))
}

fn p64(v: u64) -> Polynomial<u64> {
    Polynomial::from(PolynomialRepr::Normal(v))
}

fn p128(v: u128) -> Polynomial<u128> {
    Polynomial::from(PolynomialRepr::Normal(v))
}

#[test]
fn reverse_exact_values() {
    assert_eq!(reverse_u32(1), 0x8000_0000);
    assert_eq!(reverse_u32(0x04c11db7), 0xedb88320);
    assert_eq!(reverse_u32(0), 0);
    assert_eq!(reverse_u32(0xffff_ffff), 0xffff_ffff);
    assert_eq!(reverse_u64(1), 0x8000_0000_0000_0000);
    assert_eq!(reverse_u64(0x0123_4567_89ab_cdef), 0xf7b3_d591_e6a2_c480);
    assert_eq!(reverse_u128(1), 1u128 << 127);
    assert_eq!(reverse_u128(0x0123_4567_89ab_cdef), 0xf7b3_d591_e6a2_c480u128 << 64);
}

#[test]
fn reverse_twice_is_identity() {
    for v in [0u32, 1, 2, 0x8000_0000, 0x1234_5678, 0xdead_beef] {
        assert_eq!(reverse_u32(reverse_u32(v)), v);
        assert_eq!(reverse_u64(reverse_u64(v as u64 * 0x1_0001_0003)), v as u64 * 0x1_0001_0003);
        assert_eq!(reverse_u128(reverse_u128((v as u128) << 70 | 5)), (v as u128) << 70 | 5);
    }
}

#[test]
fn construction_in_both_bit_orders() {
    assert_eq!(p32(0x04c11db7).repr(), 0xedb88320);
    assert_eq!(Polynomial::from(PolynomialRepr::Reverse(0xedb88320u32)).repr(), 0xedb88320);
    assert!(p32(0x04c11db7) == Polynomial::from(PolynomialRepr::Reverse(0xedb88320u32)));
    assert_eq!(p64(1).repr(), 1u64 << 63);
    assert_eq!(p128(1).repr(), 1u128 << 127);
}

#[test]
fn widening_keeps_the_polynomial() {
    let a = p32(0x04c11db7);
    assert!(Polynomial::<u64>::from(a) == p64(0x04c11db7));
    assert!(Polynomial::<u128>::from(a) == p128(0x04c11db7));
    assert!(Polynomial::<u128>::from(p64(0x1_0000_0001)) == p128(0x1_0000_0001));
    assert_eq!(Polynomial::<u64>::from(a).repr(), 0xedb88320u64 << 32);
}

#[test]
fn narrowing_fails_on_high_terms() {
    assert!(Polynomial::<u32>::try_from(p64(0xffff_ffff)).unwrap() == p32(0xffff_ffff));
    assert!(matches!(
        Polynomial::<u32>::try_from(p64(0x1_0000_0000)),
        Err(Error::OverflowError(None))
    ));
    assert!(Polynomial::<u64>::try_from(p128(u64::MAX as u128)).unwrap() == p64(u64::MAX));
    assert!(matches!(
        Polynomial::<u64>::try_from(p128(1u128 << 64)),
        Err(Error::OverflowError(None))
    ));
    assert!(Polynomial::<u32>::try_from(p128(7)).unwrap() == p32(7));
    assert!(matches!(
        Polynomial::<u32>::try_from(p128(1u128 << 32)),
        Err(Error::OverflowError(None))
    ));
    assert!(matches!(
        Polynomial::<u32>::try_from(p128(1u128 << 127)),
        Err(Error::OverflowError(None))
    ));
}

#[test]
fn addition_is_its_own_inverse() {
    let a = p64(0x1234_5678_9abc_def0);
    let b = p64(0x0fed_cba9_8765_4321);
    assert!(a + b == b + a);
    assert!((a + b) + b == a);
    assert!(a + a == p64(0));
    assert!(a + p64(0) == a);
}

#[test]
fn multiplication_exact_values() {
    // (X + 1) * (X + 1) == X^2 + 1
    assert!(p32(3) * p32(3) == p64(5));
    assert!(p64(3) * p64(3) == p128(5));
    assert!(p64(3) * p32(3) == p128(5));
    assert!(p32(0) * p32(0xffff_ffff) == p64(0));
    assert!(p32(1) * p32(0xffff_ffff) == p64(0xffff_ffff));
    // X^63 * X^63 == X^126
    assert!(p64(1 << 63) * p64(1 << 63) == p128(1u128 << 126));
    // X^31 * X^31 == X^62
    assert!(p32(1 << 31) * p32(1 << 31) == p64(1 << 62));
}

#[test]
fn degree_of_edge_values() {
    assert_eq!(p32(0).deg(), 0);
    assert_eq!(p32(1).deg(), 0);
    assert_eq!(p32(2).deg(), 1);
    assert_eq!(p32(0x8000_0000).deg(), 31);
    assert_eq!(p64(0).deg(), 0);
    assert_eq!(p64(1 << 63).deg(), 63);
    assert_eq!(p64(0x1_04c1_1db7).deg(), 32);
    assert_eq!(p128(0).deg(), 0);
    assert_eq!(p128(1u128 << 127).deg(), 127);
    assert_eq!(p128(0x1_0000_0000_0000_0000).deg(), 64);
}

#[test]
fn division_identity_on_values() {
    let pairs: [(u64, u64); 6] = [
        (0x1234_1234_1237, 0x04c1_1db7),
        (0xffff_ffff_ffff_ffff, 0x1_04c1_1db7),
        (0x04c1_1db7, 0xffff_ffff_ffff),
        (0, 2),
        (1, 3),
        (0x8000_0000_0000_0000, 0x8000_0000_0000_0001),
    ];
    for (a, b) in pairs {
        let a = p64(a);
        let b = p64(b);
        let q = a / b;
        let r = a % b;
        assert!(Polynomial::<u64>::try_from(q * b).unwrap() + r == a);
        assert!(r.deg() < b.deg());
    }
}

#[test]
fn division_across_widths() {
    let a = p128(0x1234_5678_9abc_def0_1122_3344_5566_7788);
    let b = p32(0x04c11db7);
    assert!(a / b == p128(0x4401b22a424835e4f1b9a0e07));
    assert!(a % b == p32(0x2a72d8d));
    assert!((a % b).deg() < b.deg());
    assert!(p128(0x04c11db7) % p64(0x1_0000_0000) == p64(0x04c11db7));
    assert!(p64(0x1_04c1_1db7) % p128(0x1_0000_0000) == p128(0x04c11db7));
    assert!(p32(0x04c11db7) % p64(0x100) == p32(0xb7));
    assert!(p32(0x04c11db7) / p128(0x100) == p32(0x04c11d));
    assert!(p64(0x04c11db7) / p64(0x100) == p64(0x04c11d));
}

#[test]
fn inverse_of_one_is_one() {
    let m = p64(0x1_04c1_1db7);
    assert!(p64(1).inv_mod(m).unwrap() == p64(1));
    // congruent to one
    assert!(p64(0x1_04c1_1db6).inv_mod(m).unwrap() == p64(1));
}

#[test]
fn inverse_times_polynomial_is_one() {
    let m = p64(0x1_04c1_1db7);
    for a in [2u64, 3, 0x1_0000_0000, 0xdead_beef, 0xffff_ffff_ffff_ffff] {
        let a = p64(a);
        let inv = a.inv_mod(m).unwrap();
        assert!(inv.deg() < m.deg());
        assert!((a * inv) % m == p64(1));
    }
}

#[test]
fn inverse_fails_for_a_common_factor() {
    // (X + 1) divides both X^2 + 1 and X^3 + 1
    assert!(matches!(p64(5).inv_mod(p64(9)), Err(Error::NonInvertibleError)));
    // X divides both
    assert!(matches!(p64(2).inv_mod(p64(0x1_04c1_1db6)), Err(Error::NonInvertibleError)));
    // a multiple of the modulus
    assert!(matches!(p64(0x1_04c1_1db7).inv_mod(p64(0x1_04c1_1db7)), Err(Error::NonInvertibleError)));
    assert!(matches!(p64(0).inv_mod(p64(0x1_04c1_1db7)), Err(Error::NonInvertibleError)));
}

#[test]
fn text_of_polynomials() {
    assert_eq!(p32(0).fmt(), "0");
    assert_eq!(p32(1).fmt(), "X^0");
    assert_eq!(p64(0x1_0000_0000).fmt(), "X^32");
    assert_eq!(p128((1u128 << 127) | (1 << 100) | (1 << 10) | 1).fmt(), "X^127 + X^100 + X^10 + X^0");
    assert_eq!(p128(0x04c11db7).terms(), vec![26, 23, 22, 16, 12, 11, 10, 8, 7, 5, 4, 2, 1, 0]);
    assert_eq!(p128(0).terms(), Vec::<usize>::new());
}

#[test]
fn errors_from_outside_failures() {
    let int_error = u8::try_from(300u32).unwrap_err();
    assert!(matches!(Error::from(int_error), Error::OverflowError(Some(_))));
    let io_error = std::io::Error::new(std::io::ErrorKind::NotFound, "missing");
    assert!(matches!(Error::from(io_error), Error::IOError(_)));
}

#[test]
fn powers_modulo_a_polynomial() {
    let m = p64(0x1_04c1_1db7);
    // X^32 is congruent to the generator without its leading term
    assert!(p64(2).pow_mod(32, m) == p64(0x04c1_1db7));
    assert!(p64(2).pow_mod(0, m) == p64(1));
    assert!(p64(2).pow_mod(1, m) == p64(2));
    assert!(p64(0x100).pow_mod(4, m) == p64(0x04c1_1db7));
    assert!(p64(0).pow_mod(5, m) == p64(0));
    assert!(p64(0).pow_mod(0, m) == p64(1));
    // (X + 1)^2 == X^2 + 1
    assert!(p64(3).pow_mod(2, m) == p64(5));
    // a power times the power of the inverse is one
    let x = p64(2);
    let x_inv = x.inv_mod(m).unwrap();
    for e in [1usize, 7, 64, 1000, 123456] {
        assert!((x.pow_mod(e, m) * x_inv.pow_mod(e, m)) % m == p64(1));
    }
}
