//! The modular inverse of a polynomial.

use vstd::prelude::*;
use crate::bits::{
    lemma_pow2_128, lemma_reflect_involution, lemma_reflect_nonzero, lemma_reflect_zero,
    lemma_xor_poly64,
};
use crate::error::{CRCResult, Error};
use crate::gf2::{invertible, is_inverse, poly_add, poly_inverse, poly_mul, poly_rem};
use crate::gf2_div::{
    lemma_division_identity, lemma_rem_bound, lemma_rem_mul_left, lemma_rem_multiple, lemma_rem_one,
    lemma_rem_rem,
};
use crate::gf2_inverse::{
    lemma_bezout_round, lemma_cofactor_round, lemma_inverse_is, lemma_not_invertible,
};
use crate::gf2_ring::{lemma_deg_bounds, lemma_mul_comm, lemma_mul_one, lemma_mul_zero};
use crate::math::{Polynomial, PolynomialRepr};

verus! {

/// A 64-bit polynomial is zero, or one, exactly when its word is that of
/// zero, or of one.
proof fn lemma_zero_and_one(x: Polynomial<u64>, one: Polynomial<u64>)
    requires
        one@ == 1,
    ensures
        x.0 == 0 <==> x@ == 0,
        x == one <==> x@ == 1,
{
    lemma_pow2_128();
    lemma_reflect_zero(64);
    if x.0 != 0 {
        lemma_reflect_nonzero(x.0 as nat, 64);
    }
    lemma_reflect_involution(x.0 as nat, 64);
    lemma_reflect_involution(one.0 as nat, 64);
}

impl Polynomial<u64> {
    /// Try to compute modular inverse of given polynomial mod `p`, by the
    /// extended Euclidean algorithm. `p` must have degree at least 1.
    ///
    /// Succeeds exactly when an inverse exists, and then returns the one
    /// inverse that is reduced modulo `p`.
    pub fn inv_mod(self, p: Polynomial<u64>) -> (res: CRCResult<Polynomial<u64>>)
        requires
            p@ >= 2,
        ensures
            res is Ok <==> invertible(self@, p@),
            res matches Ok(inv) ==> is_inverse(self@, inv@, p@) && inv@ == poly_inverse(self@, p@),
            res matches Err(e) ==> e == Error::NonInvertibleError,
    {
        let one = Polynomial::from(PolynomialRepr::Normal(1u64));
        let mut a = p;

        // First get remainder by current polynomial to ensure `deg(self) < deg(p)`
        let mut b = self % a;

        // Then initialize sequence
        let mut vn = Polynomial::from(PolynomialRepr::Normal(0u64));
        let mut vn_1 = Polynomial::from(PolynomialRepr::Normal(1u64));

        // p == ca * a + cb * b and self mod p == cc * a + cd * b
        let ghost mut ca: nat = 1;
        let ghost mut cb: nat = 0;
        let ghost mut cc: nat = 0;
        let ghost mut cd: nat = 1;
        let ghost s = self@;
        let ghost b0 = b@;
        proof {
            lemma_zero_and_one(b, one);
            lemma_mul_one(p@);
            lemma_mul_one(b0);
            lemma_mul_one(s);
            lemma_mul_zero(p@);
            lemma_mul_zero(b0);
            lemma_mul_zero(s);
            lemma_rem_multiple(1, p@);
            lemma_rem_rem(s, p@);
            lemma_rem_bound(s, p@);
            lemma_deg_bounds(p@);
            lemma_rem_one(p@);
        }
        if b == one {
            // `self` is congruent to 1, which is its own inverse
            let inv = vn_1 % p;
            proof {
                lemma_rem_mul_left(s, 1, p@);
                assert(poly_rem(poly_mul(s, inv@), p@) == 1);
                lemma_inverse_is(s, inv@, p@);
            }
            return Ok(inv);
        }
        loop
            invariant
                p@ >= 2,
                one@ == 1,
                s == self@,
                b0 == poly_rem(s, p@),
                a@ >= 2,
                b@ < a@,
                b@ != 1,
                poly_rem(poly_mul(vn@, s), p@) == poly_rem(a@, p@),
                poly_rem(poly_mul(vn_1@, s), p@) == poly_rem(b@, p@),
                p@ == poly_add(poly_mul(ca, a@), poly_mul(cb, b@)),
                b0 == poly_add(poly_mul(cc, a@), poly_mul(cd, b@)),
            decreases b@,
        {
            proof {
                lemma_zero_and_one(b, one);
            }
            if b.repr() == 0 {
                proof {
                    lemma_mul_zero(cb);
                    lemma_mul_zero(cd);
                    lemma_not_invertible(s, p@, a@, ca, cc);
                }
                return Err(Error::NonInvertibleError);
            }
            // Compute euclidian division
            let q = a / b;
            let r = a % b;

            // Compute next term in sequence
            let tmp = vn_1;
            let prod = (vn_1 * q) % p;
            proof {
                lemma_division_identity(a@, b@);
                lemma_deg_bounds(b@);
                lemma_bezout_round(s, p@, a@, b@, q@, r@, vn@, vn_1@);
                lemma_cofactor_round(p@, ca, cb, a@, b@, q@, r@);
                lemma_cofactor_round(b0, cc, cd, a@, b@, q@, r@);
                lemma_xor_poly64(vn.0, prod.0);
                let na = poly_add(poly_mul(ca, q@), cb);
                let nc = poly_add(poly_mul(cc, q@), cd);
                cb = ca;
                ca = na;
                cd = cc;
                cc = nc;
                lemma_zero_and_one(r, one);
            }
            vn_1 = vn + prod;
            vn = tmp;

            // Remainder is 1: end euclide algorithm
            if r == one {
                let inv = vn_1 % p;
                proof {
                    lemma_rem_one(p@);
                    lemma_rem_bound(vn_1@, p@);
                    lemma_rem_mul_left(vn_1@, s, p@);
                    lemma_mul_comm(inv@, s);
                    assert(poly_rem(poly_mul(s, inv@), p@) == 1);
                    lemma_inverse_is(s, inv@, p@);
                }
                return Ok(inv);
            }
            // Update a and b
            a = b;
            b = r;
        }
    }
}

} // verus!
