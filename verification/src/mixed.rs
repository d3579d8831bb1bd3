//! Products, quotients and remainders of polynomials of different widths.
//! Each widens its operands, runs the 64-bit product or the 128-bit
//! division, and narrows the result to the width that always holds it.

use vstd::prelude::*;
use vstd::arithmetic::power2::{lemma_pow2_strictly_increases, pow2};
use vstd::std_specs::ops::{DivSpecImpl, MulSpecImpl, RemSpecImpl};
use std::ops::{Div, Mul, Rem};
use crate::bits::{lemma_pow2_128, lemma_reflect_bound};
use crate::gf2::{poly_div, poly_mul, poly_rem};
use crate::gf2_div::{lemma_division_below, lemma_rem_bound};
use crate::gf2_ring::lemma_deg_bounds;
use crate::math::{
    lemma_mul_bound, lemma_polynomial128, lemma_polynomial32, lemma_polynomial64, Polynomial,
    polynomial128, polynomial32, polynomial64,
};

verus! {

/// A remainder fits in the width of the modulus.
proof fn lemma_rem_fits(a: nat, m: nat, k: nat)
    requires
        m >= 1,
        m < pow2(k),
    ensures
        poly_rem(a, m) < pow2(k),
{
    lemma_rem_bound(a, m);
    lemma_deg_bounds(m);
}

impl Mul<Polynomial<u32>> for Polynomial<u64> {
    type Output = Polynomial<u128>;

    /// The product of the two polynomials.
    fn mul(self, rhs: Polynomial<u32>) -> (res: Polynomial<u128>)
        ensures
            res@ == poly_mul(self@, rhs@),
    {
        let wide = self * Polynomial::<u64>::from(rhs);
        proof {
            lemma_pow2_128();
            lemma_polynomial128(wide, 0);
        }
        wide
    }
}

impl MulSpecImpl<Polynomial<u32>> for Polynomial<u64> {
    open spec fn obeys_mul_spec() -> bool {
        true
    }

    open spec fn mul_req(self, rhs: Polynomial<u32>) -> bool {
        true
    }

    open spec fn mul_spec(self, rhs: Polynomial<u32>) -> Polynomial<u128> {
        polynomial128(poly_mul(self@, rhs@))
    }
}

impl Mul<Polynomial<u32>> for Polynomial<u32> {
    type Output = Polynomial<u64>;

    /// The product of the two polynomials.
    fn mul(self, rhs: Polynomial<u32>) -> (res: Polynomial<u64>)
        ensures
            res@ == poly_mul(self@, rhs@),
    {
        let wide = Polynomial::<u64>::from(self) * Polynomial::<u64>::from(rhs);
        proof {
            lemma_pow2_128();
            lemma_reflect_bound(self.0 as nat, 32);
            lemma_reflect_bound(rhs.0 as nat, 32);
            lemma_mul_bound(self@, rhs@, 32, 32);
            lemma_pow2_strictly_increases(63, 64);
        }
        let res = Polynomial::<u64>::try_from(wide).unwrap();
        proof {
            lemma_polynomial64(res, 0);
        }
        res
    }
}

impl MulSpecImpl<Polynomial<u32>> for Polynomial<u32> {
    open spec fn obeys_mul_spec() -> bool {
        true
    }

    open spec fn mul_req(self, rhs: Polynomial<u32>) -> bool {
        true
    }

    open spec fn mul_spec(self, rhs: Polynomial<u32>) -> Polynomial<u64> {
        polynomial64(poly_mul(self@, rhs@))
    }
}

impl Mul<Polynomial<u64>> for Polynomial<u32> {
    type Output = Polynomial<u128>;

    /// The product of the two polynomials.
    fn mul(self, rhs: Polynomial<u64>) -> (res: Polynomial<u128>)
        ensures
            res@ == poly_mul(self@, rhs@),
    {
        let wide = Polynomial::<u64>::from(self) * rhs;
        proof {
            lemma_pow2_128();
            lemma_polynomial128(wide, 0);
        }
        wide
    }
}

impl MulSpecImpl<Polynomial<u64>> for Polynomial<u32> {
    open spec fn obeys_mul_spec() -> bool {
        true
    }

    open spec fn mul_req(self, rhs: Polynomial<u64>) -> bool {
        true
    }

    open spec fn mul_spec(self, rhs: Polynomial<u64>) -> Polynomial<u128> {
        polynomial128(poly_mul(self@, rhs@))
    }
}

impl Div<Polynomial<u64>> for Polynomial<u128> {
    type Output = Polynomial<u128>;

    /// The quotient of long division by `rhs`, which must have degree at
    /// least 1.
    fn div(self, rhs: Polynomial<u64>) -> (res: Polynomial<u128>)
        ensures
            res@ == poly_div(self@, rhs@),
    {
        let wide = self / Polynomial::<u128>::from(rhs);
        proof {
            lemma_pow2_128();
            lemma_polynomial128(wide, 0);
        }
        wide
    }
}

impl DivSpecImpl<Polynomial<u64>> for Polynomial<u128> {
    open spec fn obeys_div_spec() -> bool {
        true
    }

    open spec fn div_req(self, rhs: Polynomial<u64>) -> bool {
        rhs@ >= 2
    }

    open spec fn div_spec(self, rhs: Polynomial<u64>) -> Polynomial<u128> {
        polynomial128(poly_div(self@, rhs@))
    }
}

impl Div<Polynomial<u32>> for Polynomial<u128> {
    type Output = Polynomial<u128>;

    /// The quotient of long division by `rhs`, which must have degree at
    /// least 1.
    fn div(self, rhs: Polynomial<u32>) -> (res: Polynomial<u128>)
        ensures
            res@ == poly_div(self@, rhs@),
    {
        let wide = self / Polynomial::<u128>::from(rhs);
        proof {
            lemma_pow2_128();
            lemma_polynomial128(wide, 0);
        }
        wide
    }
}

impl DivSpecImpl<Polynomial<u32>> for Polynomial<u128> {
    open spec fn obeys_div_spec() -> bool {
        true
    }

    open spec fn div_req(self, rhs: Polynomial<u32>) -> bool {
        rhs@ >= 2
    }

    open spec fn div_spec(self, rhs: Polynomial<u32>) -> Polynomial<u128> {
        polynomial128(poly_div(self@, rhs@))
    }
}

impl Div<Polynomial<u128>> for Polynomial<u64> {
    type Output = Polynomial<u64>;

    /// The quotient of long division by `rhs`, which must have degree at
    /// least 1.
    fn div(self, rhs: Polynomial<u128>) -> (res: Polynomial<u64>)
        ensures
            res@ == poly_div(self@, rhs@),
    {
        let wide = Polynomial::<u128>::from(self) / rhs;
        proof {
            lemma_pow2_128();
            lemma_reflect_bound(self.0 as nat, 64);
            lemma_division_below(self@, rhs@, 64);
        }
        let res = Polynomial::<u64>::try_from(wide).unwrap();
        proof {
            lemma_polynomial64(res, 0);
        }
        res
    }
}

impl DivSpecImpl<Polynomial<u128>> for Polynomial<u64> {
    open spec fn obeys_div_spec() -> bool {
        true
    }

    open spec fn div_req(self, rhs: Polynomial<u128>) -> bool {
        rhs@ >= 2
    }

    open spec fn div_spec(self, rhs: Polynomial<u128>) -> Polynomial<u64> {
        polynomial64(poly_div(self@, rhs@))
    }
}

impl Div<Polynomial<u64>> for Polynomial<u64> {
    type Output = Polynomial<u64>;

    /// The quotient of long division by `rhs`, which must have degree at
    /// least 1.
    fn div(self, rhs: Polynomial<u64>) -> (res: Polynomial<u64>)
        ensures
            res@ == poly_div(self@, rhs@),
    {
        let wide = Polynomial::<u128>::from(self) / Polynomial::<u128>::from(rhs);
        proof {
            lemma_pow2_128();
            lemma_reflect_bound(self.0 as nat, 64);
            lemma_division_below(self@, rhs@, 64);
        }
        let res = Polynomial::<u64>::try_from(wide).unwrap();
        proof {
            lemma_polynomial64(res, 0);
        }
        res
    }
}

impl DivSpecImpl<Polynomial<u64>> for Polynomial<u64> {
    open spec fn obeys_div_spec() -> bool {
        true
    }

    open spec fn div_req(self, rhs: Polynomial<u64>) -> bool {
        rhs@ >= 2
    }

    open spec fn div_spec(self, rhs: Polynomial<u64>) -> Polynomial<u64> {
        polynomial64(poly_div(self@, rhs@))
    }
}

impl Div<Polynomial<u32>> for Polynomial<u64> {
    type Output = Polynomial<u64>;

    /// The quotient of long division by `rhs`, which must have degree at
    /// least 1.
    fn div(self, rhs: Polynomial<u32>) -> (res: Polynomial<u64>)
        ensures
            res@ == poly_div(self@, rhs@),
    {
        let wide = Polynomial::<u128>::from(self) / Polynomial::<u128>::from(rhs);
        proof {
            lemma_pow2_128();
            lemma_reflect_bound(self.0 as nat, 64);
            lemma_division_below(self@, rhs@, 64);
        }
        let res = Polynomial::<u64>::try_from(wide).unwrap();
        proof {
            lemma_polynomial64(res, 0);
        }
        res
    }
}

impl DivSpecImpl<Polynomial<u32>> for Polynomial<u64> {
    open spec fn obeys_div_spec() -> bool {
        true
    }

    open spec fn div_req(self, rhs: Polynomial<u32>) -> bool {
        rhs@ >= 2
    }

    open spec fn div_spec(self, rhs: Polynomial<u32>) -> Polynomial<u64> {
        polynomial64(poly_div(self@, rhs@))
    }
}

impl Div<Polynomial<u128>> for Polynomial<u32> {
    type Output = Polynomial<u32>;

    /// The quotient of long division by `rhs`, which must have degree at
    /// least 1.
    fn div(self, rhs: Polynomial<u128>) -> (res: Polynomial<u32>)
        ensures
            res@ == poly_div(self@, rhs@),
    {
        let wide = Polynomial::<u128>::from(self) / rhs;
        proof {
            lemma_pow2_128();
            lemma_reflect_bound(self.0 as nat, 32);
            lemma_division_below(self@, rhs@, 32);
        }
        let res = Polynomial::<u32>::try_from(wide).unwrap();
        proof {
            lemma_polynomial32(res, 0);
        }
        res
    }
}

impl DivSpecImpl<Polynomial<u128>> for Polynomial<u32> {
    open spec fn obeys_div_spec() -> bool {
        true
    }

    open spec fn div_req(self, rhs: Polynomial<u128>) -> bool {
        rhs@ >= 2
    }

    open spec fn div_spec(self, rhs: Polynomial<u128>) -> Polynomial<u32> {
        polynomial32(poly_div(self@, rhs@))
    }
}

impl Div<Polynomial<u64>> for Polynomial<u32> {
    type Output = Polynomial<u32>;

    /// The quotient of long division by `rhs`, which must have degree at
    /// least 1.
    fn div(self, rhs: Polynomial<u64>) -> (res: Polynomial<u32>)
        ensures
            res@ == poly_div(self@, rhs@),
    {
        let wide = Polynomial::<u128>::from(self) / Polynomial::<u128>::from(rhs);
        proof {
            lemma_pow2_128();
            lemma_reflect_bound(self.0 as nat, 32);
            lemma_division_below(self@, rhs@, 32);
        }
        let res = Polynomial::<u32>::try_from(wide).unwrap();
        proof {
            lemma_polynomial32(res, 0);
        }
        res
    }
}

impl DivSpecImpl<Polynomial<u64>> for Polynomial<u32> {
    open spec fn obeys_div_spec() -> bool {
        true
    }

    open spec fn div_req(self, rhs: Polynomial<u64>) -> bool {
        rhs@ >= 2
    }

    open spec fn div_spec(self, rhs: Polynomial<u64>) -> Polynomial<u32> {
        polynomial32(poly_div(self@, rhs@))
    }
}

impl Div<Polynomial<u32>> for Polynomial<u32> {
    type Output = Polynomial<u32>;

    /// The quotient of long division by `rhs`, which must have degree at
    /// least 1.
    fn div(self, rhs: Polynomial<u32>) -> (res: Polynomial<u32>)
        ensures
            res@ == poly_div(self@, rhs@),
    {
        let wide = Polynomial::<u128>::from(self) / Polynomial::<u128>::from(rhs);
        proof {
            lemma_pow2_128();
            lemma_reflect_bound(self.0 as nat, 32);
            lemma_division_below(self@, rhs@, 32);
        }
        let res = Polynomial::<u32>::try_from(wide).unwrap();
        proof {
            lemma_polynomial32(res, 0);
        }
        res
    }
}

impl DivSpecImpl<Polynomial<u32>> for Polynomial<u32> {
    open spec fn obeys_div_spec() -> bool {
        true
    }

    open spec fn div_req(self, rhs: Polynomial<u32>) -> bool {
        rhs@ >= 2
    }

    open spec fn div_spec(self, rhs: Polynomial<u32>) -> Polynomial<u32> {
        polynomial32(poly_div(self@, rhs@))
    }
}

impl Rem<Polynomial<u128>> for Polynomial<u64> {
    type Output = Polynomial<u128>;

    /// The remainder of long division by `modulo`, which must have degree
    /// at least 1.
    fn rem(self, modulo: Polynomial<u128>) -> (res: Polynomial<u128>)
        ensures
            res@ == poly_rem(self@, modulo@),
    {
        let wide = Polynomial::<u128>::from(self) % modulo;
        proof {
            lemma_pow2_128();
            lemma_polynomial128(wide, 0);
        }
        wide
    }
}

impl RemSpecImpl<Polynomial<u128>> for Polynomial<u64> {
    open spec fn obeys_rem_spec() -> bool {
        true
    }

    open spec fn rem_req(self, modulo: Polynomial<u128>) -> bool {
        modulo@ >= 2
    }

    open spec fn rem_spec(self, modulo: Polynomial<u128>) -> Polynomial<u128> {
        polynomial128(poly_rem(self@, modulo@))
    }
}

impl Rem<Polynomial<u128>> for Polynomial<u32> {
    type Output = Polynomial<u128>;

    /// The remainder of long division by `modulo`, which must have degree
    /// at least 1.
    fn rem(self, modulo: Polynomial<u128>) -> (res: Polynomial<u128>)
        ensures
            res@ == poly_rem(self@, modulo@),
    {
        let wide = Polynomial::<u128>::from(self) % modulo;
        proof {
            lemma_pow2_128();
            lemma_polynomial128(wide, 0);
        }
        wide
    }
}

impl RemSpecImpl<Polynomial<u128>> for Polynomial<u32> {
    open spec fn obeys_rem_spec() -> bool {
        true
    }

    open spec fn rem_req(self, modulo: Polynomial<u128>) -> bool {
        modulo@ >= 2
    }

    open spec fn rem_spec(self, modulo: Polynomial<u128>) -> Polynomial<u128> {
        polynomial128(poly_rem(self@, modulo@))
    }
}

impl Rem<Polynomial<u64>> for Polynomial<u128> {
    type Output = Polynomial<u64>;

    /// The remainder of long division by `modulo`, which must have degree
    /// at least 1.
    fn rem(self, modulo: Polynomial<u64>) -> (res: Polynomial<u64>)
        ensures
            res@ == poly_rem(self@, modulo@),
    {
        let wide = self % Polynomial::<u128>::from(modulo);
        proof {
            lemma_pow2_128();
            lemma_reflect_bound(modulo.0 as nat, 64);
            lemma_rem_fits(self@, modulo@, 64);
        }
        let res = Polynomial::<u64>::try_from(wide).unwrap();
        proof {
            lemma_polynomial64(res, 0);
        }
        res
    }
}

impl RemSpecImpl<Polynomial<u64>> for Polynomial<u128> {
    open spec fn obeys_rem_spec() -> bool {
        true
    }

    open spec fn rem_req(self, modulo: Polynomial<u64>) -> bool {
        modulo@ >= 2
    }

    open spec fn rem_spec(self, modulo: Polynomial<u64>) -> Polynomial<u64> {
        polynomial64(poly_rem(self@, modulo@))
    }
}

impl Rem<Polynomial<u64>> for Polynomial<u64> {
    type Output = Polynomial<u64>;

    /// The remainder of long division by `modulo`, which must have degree
    /// at least 1.
    fn rem(self, modulo: Polynomial<u64>) -> (res: Polynomial<u64>)
        ensures
            res@ == poly_rem(self@, modulo@),
    {
        let wide = Polynomial::<u128>::from(self) % Polynomial::<u128>::from(modulo);
        proof {
            lemma_pow2_128();
            lemma_reflect_bound(modulo.0 as nat, 64);
            lemma_rem_fits(self@, modulo@, 64);
        }
        let res = Polynomial::<u64>::try_from(wide).unwrap();
        proof {
            lemma_polynomial64(res, 0);
        }
        res
    }
}

impl RemSpecImpl<Polynomial<u64>> for Polynomial<u64> {
    open spec fn obeys_rem_spec() -> bool {
        true
    }

    open spec fn rem_req(self, modulo: Polynomial<u64>) -> bool {
        modulo@ >= 2
    }

    open spec fn rem_spec(self, modulo: Polynomial<u64>) -> Polynomial<u64> {
        polynomial64(poly_rem(self@, modulo@))
    }
}

impl Rem<Polynomial<u64>> for Polynomial<u32> {
    type Output = Polynomial<u32>;

    /// The remainder of long division by `modulo`, which must have degree
    /// at least 1.
    fn rem(self, modulo: Polynomial<u64>) -> (res: Polynomial<u32>)
        ensures
            res@ == poly_rem(self@, modulo@),
    {
        let wide = Polynomial::<u128>::from(self) % Polynomial::<u128>::from(modulo);
        proof {
            lemma_pow2_128();
            lemma_reflect_bound(self.0 as nat, 32);
            lemma_division_below(self@, modulo@, 32);
        }
        let res = Polynomial::<u32>::try_from(wide).unwrap();
        proof {
            lemma_polynomial32(res, 0);
        }
        res
    }
}

impl RemSpecImpl<Polynomial<u64>> for Polynomial<u32> {
    open spec fn obeys_rem_spec() -> bool {
        true
    }

    open spec fn rem_req(self, modulo: Polynomial<u64>) -> bool {
        modulo@ >= 2
    }

    open spec fn rem_spec(self, modulo: Polynomial<u64>) -> Polynomial<u32> {
        polynomial32(poly_rem(self@, modulo@))
    }
}

impl Rem<Polynomial<u32>> for Polynomial<u128> {
    type Output = Polynomial<u32>;

    /// The remainder of long division by `modulo`, which must have degree
    /// at least 1.
    fn rem(self, modulo: Polynomial<u32>) -> (res: Polynomial<u32>)
        ensures
            res@ == poly_rem(self@, modulo@),
    {
        let wide = self % Polynomial::<u128>::from(modulo);
        proof {
            lemma_pow2_128();
            lemma_reflect_bound(modulo.0 as nat, 32);
            lemma_rem_fits(self@, modulo@, 32);
        }
        let res = Polynomial::<u32>::try_from(wide).unwrap();
        proof {
            lemma_polynomial32(res, 0);
        }
        res
    }
}

impl RemSpecImpl<Polynomial<u32>> for Polynomial<u128> {
    open spec fn obeys_rem_spec() -> bool {
        true
    }

    open spec fn rem_req(self, modulo: Polynomial<u32>) -> bool {
        modulo@ >= 2
    }

    open spec fn rem_spec(self, modulo: Polynomial<u32>) -> Polynomial<u32> {
        polynomial32(poly_rem(self@, modulo@))
    }
}

impl Rem<Polynomial<u32>> for Polynomial<u64> {
    type Output = Polynomial<u32>;

    /// The remainder of long division by `modulo`, which must have degree
    /// at least 1.
    fn rem(self, modulo: Polynomial<u32>) -> (res: Polynomial<u32>)
        ensures
            res@ == poly_rem(self@, modulo@),
    {
        let wide = Polynomial::<u128>::from(self) % Polynomial::<u128>::from(modulo);
        proof {
            lemma_pow2_128();
            lemma_reflect_bound(modulo.0 as nat, 32);
            lemma_rem_fits(self@, modulo@, 32);
        }
        let res = Polynomial::<u32>::try_from(wide).unwrap();
        proof {
            lemma_polynomial32(res, 0);
        }
        res
    }
}

impl RemSpecImpl<Polynomial<u32>> for Polynomial<u64> {
    open spec fn obeys_rem_spec() -> bool {
        true
    }

    open spec fn rem_req(self, modulo: Polynomial<u32>) -> bool {
        modulo@ >= 2
    }

    open spec fn rem_spec(self, modulo: Polynomial<u32>) -> Polynomial<u32> {
        polynomial32(poly_rem(self@, modulo@))
    }
}

impl Rem<Polynomial<u32>> for Polynomial<u32> {
    type Output = Polynomial<u32>;

    /// The remainder of long division by `modulo`, which must have degree
    /// at least 1.
    fn rem(self, modulo: Polynomial<u32>) -> (res: Polynomial<u32>)
        ensures
            res@ == poly_rem(self@, modulo@),
    {
        let wide = Polynomial::<u128>::from(self) % Polynomial::<u128>::from(modulo);
        proof {
            lemma_pow2_128();
            lemma_reflect_bound(modulo.0 as nat, 32);
            lemma_rem_fits(self@, modulo@, 32);
        }
        let res = Polynomial::<u32>::try_from(wide).unwrap();
        proof {
            lemma_polynomial32(res, 0);
        }
        res
    }
}

impl RemSpecImpl<Polynomial<u32>> for Polynomial<u32> {
    open spec fn obeys_rem_spec() -> bool {
        true
    }

    open spec fn rem_req(self, modulo: Polynomial<u32>) -> bool {
        modulo@ >= 2
    }

    open spec fn rem_spec(self, modulo: Polynomial<u32>) -> Polynomial<u32> {
        polynomial32(poly_rem(self@, modulo@))
    }
}

} // verus!
