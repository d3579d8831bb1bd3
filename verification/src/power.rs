//! Powers of a polynomial modulo another.

use vstd::prelude::*;
use crate::bits::lemma_pow2_128;
use crate::gf2::{leading_term, poly_mul, poly_pow, poly_rem};
use crate::gf2_div::{lemma_rem_bound, lemma_rem_small};
use crate::gf2_inverse::lemma_pow_round;
use crate::gf2_ring::{lemma_deg_bounds, lemma_mul_one};
use crate::math::{Polynomial, PolynomialRepr};

verus! {

impl Polynomial<u64> {
    /// The polynomial raised to the power `exp`, modulo `p`, by squaring
    /// the base and halving the exponent. `p` must have degree at least 1.
    pub fn pow_mod(self, exp: usize, p: Polynomial<u64>) -> (res: Polynomial<u64>)
        requires
            p@ >= 2,
        ensures
            res@ == poly_rem(poly_pow(self@, exp as nat), p@),
    {
        let mut result = Polynomial::<u64>::from(PolynomialRepr::Normal(1u64));
        let mut b = self;
        let mut e = exp;
        proof {
            lemma_pow2_128();
            lemma_deg_bounds(p@);
            vstd::arithmetic::power2::lemma_pow2_unfold(crate::gf2::poly_deg(p@));
            vstd::arithmetic::power2::lemma_pow2_pos(crate::gf2::poly_deg(p@ / 2));
            lemma_mul_one(poly_pow(self@, exp as nat));
        }
        while e > 0
            invariant
                p@ >= 2,
                poly_rem(poly_mul(result@, poly_pow(b@, e as nat)), p@) == poly_rem(
                    poly_pow(self@, exp as nat),
                    p@,
                ),
                result@ < leading_term(p@),
            decreases e,
        {
            proof {
                lemma_pow_round(result@, b@, e as nat, p@);
                lemma_rem_bound(poly_mul(result@, b@), p@);
            }
            if e % 2 == 1 {
                result = (result * b) % p;
            }
            b = (b * b) % p;
            e = e / 2;
        }
        proof {
            lemma_mul_one(result@);
            lemma_rem_small(result@, p@);
        }
        result
    }
}

} // verus!
