use crc_forge::math::{Polynomial, PolynomialRepr};

#[test]
pub fn test_poly_invmod_simple() {
    let p: Polynomial<u64> = Polynomial::from(PolynomialRepr::Normal(0x04c11db7));
    let a: Polynomial<u64> = Polynomial::from(PolynomialRepr::Normal(0x2));

    println!("P = {}", p.fmt());
    println!("P = {:x}", p.0);
    println!("A = {}", a.fmt());
    println!("A = {:x}", a.0);

    println!("P/A = {}", (p / a).fmt());
    assert!(p / a == Polynomial::from(PolynomialRepr::Normal(0x02608edb)));

    let a_inv = a.inv_mod(p).unwrap();
    println!("A^-1 = {}", a_inv.fmt());
    let prod = a * a_inv;
    let prod = prod % p;
    println!("A^-1 * A mod P = {}", prod.fmt());
    assert!(prod == Polynomial::from(PolynomialRepr::Normal(1)));
}

#[test]
pub fn test_poly_invmod() {
    let generator: Polynomial<u64> = Polynomial::from(PolynomialRepr::Normal(0x04c11db7));
    let xn: Polynomial<u64> = Polynomial::from(PolynomialRepr::Normal(0x100000000));
    let xn_inv: Polynomial<u64> = Polynomial::from(PolynomialRepr::Normal(0xcbf1acda));

    println!("G = {}", generator.fmt());
    println!("G = {:x}", generator.0);
    println!("X^N = {}", xn.fmt());
    println!("X^N = {:x}", xn.0);
    println!("G + X^N = {}", (generator + xn).fmt());
    println!("G * X^N = {}", (generator * xn).fmt());

    let prod = Polynomial::<u64>::try_from(xn * xn_inv).unwrap();
    println!("X^N * (X^N)^-1 = {}", prod.fmt());
    let prod = prod % (generator + xn);
    println!("X^N * (X^N)^-1 mod (G + X^N) = {}", prod.fmt());
    assert!(prod == Polynomial::from(PolynomialRepr::Normal(1)));

    let xn_inv = xn.inv_mod(generator + xn);
    println!("(X^N)^-1 mod (G + X^N) = {}", xn_inv.as_ref().unwrap().fmt());
    assert!(xn_inv.unwrap() == Polynomial::from(PolynomialRepr::Normal(0xcbf1acda)));
}
