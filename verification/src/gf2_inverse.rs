//! Inverses modulo a polynomial, and powers.

use vstd::prelude::*;
use vstd::arithmetic::power2::{lemma_pow2_unfold, pow2};
use crate::gf2::{
    invertible, is_inverse, monomial, poly_add, poly_inverse, poly_mul, poly_pow, poly_rem,
};
use crate::gf2_div::{
    lemma_common_factor_not_invertible, lemma_rem_add, lemma_rem_bound, lemma_rem_mul,
    lemma_rem_mul_left, lemma_rem_mul_right, lemma_rem_one, lemma_rem_rem, lemma_rem_small,
};
use crate::gf2_ring::{
    lemma_add_comm, lemma_add_move, lemma_add_swap4, lemma_mul_assoc, lemma_mul_comm,
    lemma_mul_distrib_left, lemma_mul_distrib_right, lemma_mul_monomial, lemma_mul_one,
};

verus! {

/// One round of the extended Euclidean algorithm keeps the running
/// coefficient congruent to the remainder: if `vn * s` is congruent to `a`
/// and `vn1 * s` to `b`, and `a == q * b + r`, then
/// `(vn + (vn1 * q mod p)) * s` is congruent to `r`.
pub proof fn lemma_bezout_round(s: nat, p: nat, a: nat, b: nat, q: nat, r: nat, vn: nat, vn1: nat)
    requires
        p >= 1,
        a == poly_add(poly_mul(q, b), r),
        poly_rem(poly_mul(vn, s), p) == poly_rem(a, p),
        poly_rem(poly_mul(vn1, s), p) == poly_rem(b, p),
    ensures
        poly_rem(poly_mul(poly_add(vn, poly_rem(poly_mul(vn1, q), p)), s), p) == poly_rem(r, p),
{
    let prod = poly_rem(poly_mul(vn1, q), p);
    lemma_mul_distrib_left(vn, prod, s);
    lemma_rem_add(poly_mul(vn, s), poly_mul(prod, s), p);
    // prod * s == (vn1 * q) * s == q * (vn1 * s) == q * b, modulo p
    lemma_rem_mul_left(poly_mul(vn1, q), s, p);
    lemma_mul_comm(vn1, q);
    lemma_mul_assoc(q, vn1, s);
    lemma_rem_mul_right(q, poly_mul(vn1, s), p);
    lemma_rem_mul_right(q, b, p);
    assert(poly_rem(poly_mul(prod, s), p) == poly_rem(poly_mul(q, b), p));
    lemma_rem_add(a, poly_mul(q, b), p);
    lemma_add_move(poly_mul(q, b), r, a);
    lemma_add_comm(a, poly_mul(q, b));
}

/// One round of the Euclidean algorithm keeps a polynomial a combination
/// of the current pair: from `x == ca * a + cb * b` and `a == q * b + r`
/// follows `x == (ca * q + cb) * b + ca * r`.
pub proof fn lemma_cofactor_round(x: nat, ca: nat, cb: nat, a: nat, b: nat, q: nat, r: nat)
    requires
        x == poly_add(poly_mul(ca, a), poly_mul(cb, b)),
        a == poly_add(poly_mul(q, b), r),
    ensures
        x == poly_add(poly_mul(poly_add(poly_mul(ca, q), cb), b), poly_mul(ca, r)),
{
    lemma_mul_distrib_right(ca, poly_mul(q, b), r);
    lemma_mul_assoc(ca, q, b);
    lemma_mul_distrib_left(poly_mul(ca, q), cb, b);
    let t1 = poly_mul(poly_mul(ca, q), b);
    let t2 = poly_mul(ca, r);
    let t3 = poly_mul(cb, b);
    // (t1 + t2) + t3 == (t1 + t3) + t2
    lemma_add_swap4(t1, t2, t3, 0);
}

/// A remainder sequence that ends in zero after a polynomial `d` of
/// degree at least 1 shows that `s` has no inverse modulo `p`: `d`
/// divides both.
pub proof fn lemma_not_invertible(s: nat, p: nat, d: nat, cp: nat, cs: nat)
    requires
        p >= 2,
        d >= 2,
        p == poly_mul(cp, d),
        poly_rem(s, p) == poly_mul(cs, d),
    ensures
        !invertible(s, p),
{
    assert forall|r: nat| poly_rem(poly_mul(s, r), p) != 1 by {
        lemma_rem_mul_left(s, r, p);
        lemma_common_factor_not_invertible(d, cs, cp, r);
    }
}

/// A polynomial has at most one reduced inverse.
pub proof fn lemma_inverse_unique(a: nat, r1: nat, r2: nat, m: nat)
    requires
        m >= 2,
        is_inverse(a, r1, m),
        is_inverse(a, r2, m),
    ensures
        r1 == r2,
{
    // r1 == r1 * (a * r2) == (r1 * a) * r2 == r2, modulo m
    lemma_rem_mul_right(r1, poly_mul(a, r2), m);
    lemma_mul_one(r1);
    lemma_mul_assoc(r1, a, r2);
    lemma_mul_comm(r1, a);
    lemma_rem_mul_left(poly_mul(a, r1), r2, m);
    lemma_mul_one(r2);
    lemma_rem_small(r1, m);
    lemma_rem_small(r2, m);
}

/// A polynomial with an inverse has a reduced inverse.
pub proof fn lemma_inverse_exists(a: nat, m: nat)
    requires
        m >= 2,
        invertible(a, m),
    ensures
        is_inverse(a, poly_inverse(a, m), m),
{
    let r = choose|r: nat| poly_rem(poly_mul(a, r), m) == 1;
    lemma_rem_mul_right(a, r, m);
    lemma_rem_bound(r, m);
    assert(is_inverse(a, poly_rem(r, m), m));
}

/// A reduced inverse is the inverse.
pub proof fn lemma_inverse_is(a: nat, r: nat, m: nat)
    requires
        m >= 2,
        is_inverse(a, r, m),
    ensures
        poly_inverse(a, m) == r,
        invertible(a, m),
{
    lemma_inverse_unique(a, r, poly_inverse(a, m), m);
}

/// In an inverse, the polynomial may be replaced by its remainder.
pub proof fn lemma_inverse_of_rem(a: nat, m: nat)
    requires
        m >= 2,
    ensures
        invertible(a, m) <==> invertible(poly_rem(a, m), m),
        invertible(a, m) ==> poly_inverse(poly_rem(a, m), m) == poly_inverse(a, m),
{
    assert forall|r: nat|
        (poly_rem(poly_mul(a, r), m) == 1) == (#[trigger] poly_rem(
            poly_mul(poly_rem(a, m), r),
            m,
        ) == 1) by {
        lemma_rem_mul_left(a, r, m);
    }
    if invertible(a, m) {
        let r = choose|r: nat| poly_rem(poly_mul(a, r), m) == 1;
        assert(poly_rem(poly_mul(poly_rem(a, m), r), m) == 1);
        lemma_inverse_exists(a, m);
        let inv = poly_inverse(a, m);
        assert(poly_rem(poly_mul(poly_rem(a, m), inv), m) == 1);
        lemma_inverse_is(poly_rem(a, m), inv, m);
    }
    if invertible(poly_rem(a, m), m) {
        let r = choose|r: nat| poly_rem(poly_mul(poly_rem(a, m), r), m) == 1;
        assert(poly_rem(poly_mul(a, r), m) == 1);
    }
}

/// A power of a product is the product of the powers.
pub proof fn lemma_pow_mul(a: nat, b: nat, e: nat)
    ensures
        poly_pow(poly_mul(a, b), e) == poly_mul(poly_pow(a, e), poly_pow(b, e)),
    decreases e,
{
    if e == 0 {
        lemma_mul_one(1);
    } else {
        let n = (e - 1) as nat;
        lemma_pow_mul(a, b, n);
        let pa = poly_pow(a, n);
        let pb = poly_pow(b, n);
        // (a * b) * (pa * pb) == (a * pa) * (b * pb)
        lemma_mul_assoc(a, b, poly_mul(pa, pb));
        lemma_mul_assoc(b, pa, pb);
        lemma_mul_comm(b, pa);
        lemma_mul_assoc(pa, b, pb);
        lemma_mul_assoc(a, pa, poly_mul(b, pb));
    }
}

/// Exponents add under multiplication.
pub proof fn lemma_pow_add(b: nat, e1: nat, e2: nat)
    ensures
        poly_pow(b, e1 + e2) == poly_mul(poly_pow(b, e1), poly_pow(b, e2)),
    decreases e1,
{
    if e1 == 0 {
        lemma_mul_one(poly_pow(b, e2));
    } else {
        lemma_pow_add(b, (e1 - 1) as nat, e2);
        lemma_mul_assoc(b, poly_pow(b, (e1 - 1) as nat), poly_pow(b, e2));
        assert(((e1 - 1) as nat) + e2 == (e1 + e2 - 1) as nat);
    }
}

/// Every power of 1 is 1.
pub proof fn lemma_pow_one(e: nat)
    ensures
        poly_pow(1, e) == 1,
    decreases e,
{
    if e > 0 {
        lemma_pow_one((e - 1) as nat);
        lemma_mul_one(1);
    }
}

/// The powers of `X` are the monomials.
pub proof fn lemma_pow_x(e: nat)
    ensures
        poly_pow(2, e) == monomial(e),
    decreases e,
{
    vstd::arithmetic::power2::lemma2_to64();
    if e > 0 {
        lemma_pow_x((e - 1) as nat);
        lemma_pow2_unfold(e);
        assert(monomial(1) == 2);
        lemma_mul_monomial(pow2((e - 1) as nat), 1);
        let h = pow2((e - 1) as nat);
        let two = pow2(1);
        assert(h * two == 2 * h) by (nonlinear_arith)
            requires
                two == 2,
        ;
    }
}

/// In a power, the base may be replaced by its remainder.
pub proof fn lemma_rem_pow(b: nat, e: nat, m: nat)
    requires
        m >= 1,
    ensures
        poly_rem(poly_pow(b, e), m) == poly_rem(poly_pow(poly_rem(b, m), e), m),
    decreases e,
{
    if e > 0 {
        let n = (e - 1) as nat;
        lemma_rem_pow(b, n, m);
        lemma_rem_mul(b, poly_pow(b, n), m);
        lemma_rem_mul(poly_rem(b, m), poly_pow(poly_rem(b, m), n), m);
        lemma_rem_rem(b, m);
    }
}

/// Monomials multiply by adding their exponents.
pub proof fn lemma_monomial_mul(j: nat, k: nat)
    ensures
        poly_mul(monomial(j), monomial(k)) == monomial(j + k),
{
    lemma_mul_monomial(monomial(j), k);
    vstd::arithmetic::power2::lemma_pow2_adds(j, k);
}

/// A power of a monomial is the monomial of the product of the exponents.
pub proof fn lemma_pow_monomial(k: nat, e: nat)
    ensures
        poly_pow(monomial(k), e) == monomial(k * e),
    decreases e,
{
    if e == 0 {
        assert(k * 0 == 0);
        vstd::arithmetic::power2::lemma2_to64();
    } else {
        let n = (e - 1) as nat;
        lemma_pow_monomial(k, n);
        lemma_monomial_mul(k, k * n);
        assert(k + k * n == k * e) by (nonlinear_arith)
            requires
                n == e - 1,
        ;
    }
}

/// One round of square-and-multiply keeps `result * b^e` the same modulo
/// `m`: the exponent is halved, the base squared, and the result takes
/// the base along when the exponent was odd.
pub proof fn lemma_pow_round(result: nat, b: nat, e: nat, m: nat)
    requires
        m >= 1,
    ensures
        ({
            let r2 = if e % 2 == 1 {
                poly_rem(poly_mul(result, b), m)
            } else {
                result
            };
            let b2 = poly_rem(poly_mul(b, b), m);
            poly_rem(poly_mul(r2, poly_pow(b2, e / 2)), m) == poly_rem(
                poly_mul(result, poly_pow(b, e)),
                m,
            )
        }),
{
    let h = e / 2;
    let bb = poly_mul(b, b);
    let b2 = poly_rem(bb, m);
    let sq = poly_pow(bb, h);
    // b^(2h) == (b * b)^h
    lemma_pow_mul(b, b, h);
    lemma_pow_add(b, h, h);
    lemma_rem_pow(bb, h, m);
    if e % 2 == 1 {
        // b^e == b * b^(2h)
        assert(e == 1 + (h + h));
        lemma_pow_add(b, 1, h + h);
        assert(poly_pow(b, 1) == b) by {
            assert(poly_pow(b, 0) == 1);
            lemma_mul_one(b);
        }
        lemma_mul_assoc(result, b, sq);
        lemma_rem_mul(poly_mul(result, b), sq, m);
        lemma_rem_mul(poly_rem(poly_mul(result, b), m), poly_pow(b2, h), m);
        lemma_rem_rem(poly_mul(result, b), m);
    } else {
        assert(e == h + h);
        lemma_rem_mul_right(result, sq, m);
        lemma_rem_mul_right(result, poly_pow(b2, h), m);
    }
}

/// If `a` has an inverse modulo `m`, so has every power of `a`.
pub proof fn lemma_pow_invertible(a: nat, e: nat, m: nat)
    requires
        m >= 2,
        invertible(a, m),
    ensures
        invertible(poly_pow(a, e), m),
{
    let r = choose|r: nat| poly_rem(poly_mul(a, r), m) == 1;
    lemma_pow_mul(a, r, e);
    lemma_rem_pow(poly_mul(a, r), e, m);
    lemma_pow_one(e);
    lemma_rem_one(m);
    assert(poly_rem(poly_mul(poly_pow(a, e), poly_pow(r, e)), m) == 1);
}

/// If a product has an inverse modulo `m`, so has each factor.
pub proof fn lemma_factor_invertible(a: nat, b: nat, m: nat)
    requires
        m >= 2,
        invertible(poly_mul(a, b), m),
    ensures
        invertible(a, m),
        invertible(b, m),
{
    let r = choose|r: nat| poly_rem(poly_mul(poly_mul(a, b), r), m) == 1;
    lemma_mul_assoc(a, b, r);
    assert(poly_rem(poly_mul(a, poly_mul(b, r)), m) == 1);
    lemma_mul_comm(a, b);
    lemma_mul_assoc(b, a, r);
    assert(poly_rem(poly_mul(b, poly_mul(a, r)), m) == 1);
}

} // verus!
