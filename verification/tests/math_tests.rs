use crc_forge::math::{Polynomial, PolynomialRepr};

#[test]
pub fn test_simple_add() {
    let a = Polynomial::from(PolynomialRepr::Normal(0x04c11db7u32));
    let b = Polynomial::from(PolynomialRepr::Normal(0x12341234u32));
    assert!(a + b == Polynomial::from(PolynomialRepr::Normal(0x16f50f83)));

    let a: Polynomial<u128> = Polynomial::from(PolynomialRepr::Normal(0x04c11db7u32)).into();
    let b = Polynomial::from(PolynomialRepr::Normal(0x3429182a00424242u128));
    assert!(a + b == Polynomial::from(PolynomialRepr::Normal(0x3429182a04835ff5)));
}

#[test]
pub fn test_simple_mul() {
    let a = Polynomial::from(PolynomialRepr::Normal(0x04c11db7u32));
    let b = Polynomial::from(PolynomialRepr::Normal(0x100000000u64));
    assert!(a * b == Polynomial::from(PolynomialRepr::Normal(0x04c11db700000000u128)));

    let a = Polynomial::from(PolynomialRepr::Normal(0x04c11db7u32));
    let b = Polynomial::from(PolynomialRepr::Normal(0x3429182au32));
    assert!(a * b == Polynomial::from(PolynomialRepr::Normal(0xc78c9ba470a836)));
}

#[test]
pub fn test_simple_div() {
    let a = Polynomial::from(PolynomialRepr::Normal(0x04c11db7u32));
    let b = Polynomial::from(PolynomialRepr::Normal(0x12341234u32));
    assert!(a / b == Polynomial::from(PolynomialRepr::Normal(0)));

    let a = Polynomial::from(PolynomialRepr::Normal(0x123412341237u64));
    let b = Polynomial::from(PolynomialRepr::Normal(0x04c11db7u32));
    let c: Polynomial<u32> = (a / b).try_into().unwrap();
    let r = (c * b) + a;
    assert!(c == Polynomial::from(PolynomialRepr::Normal(0x44009)));
    assert!(r.deg() < b.deg());
}

#[test]
pub fn test_simple_rem() {
    let a = Polynomial::from(PolynomialRepr::Normal(0x04c11db7u32));
    let b = Polynomial::from(PolynomialRepr::Normal(0x12341234u32));
    assert!(a % b == a);

    let a = Polynomial::from(PolynomialRepr::Normal(0x123412341237u64));
    let b = Polynomial::from(PolynomialRepr::Normal(0x04c11db7u32));
    let r = a % b;
    let q = a / b;
    assert!(r.deg() < a.deg());
    assert!(a == Polynomial::<u64>::try_from(q * b).unwrap() + r.into());
    assert!(a % b == Polynomial::from(PolynomialRepr::Normal(0x14c2238)));
}

#[test]
pub fn test_degree() {
    let a = Polynomial::from(PolynomialRepr::Normal(0x04c11db7u32));
    assert_eq!(a.deg(), 26);
    let b = Polynomial::from(PolynomialRepr::Normal(0x12341234u32));
    assert_eq!(b.deg(), 28);
}

#[test]
pub fn test_debug() {
    let a = Polynomial::from(PolynomialRepr::Normal(0x04c11db7u32));
    assert_eq!(
        a.fmt(),
        "X^26 + X^23 + X^22 + X^16 + X^12 + X^11 + X^10 + X^8 + X^7 + X^5 + X^4 + X^2 + X^1 + X^0"
    );
}

#[test]
pub fn test_inv_mod() {
    let generator = Polynomial::from(PolynomialRepr::Normal(0x04c11db7u32));
    let xn = Polynomial::from(PolynomialRepr::Normal(0x100000000u64));
    let generator = xn + generator.into();
    let xn_inv = xn.inv_mod(generator).unwrap();
    assert!(xn_inv == Polynomial::from(PolynomialRepr::Normal(0xcbf1acda)));
    assert!((xn * xn_inv) % generator == Polynomial::from(PolynomialRepr::Normal(1)));
}
