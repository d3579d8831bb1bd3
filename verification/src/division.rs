//! Quotient and remainder of polynomial division.

use vstd::prelude::*;
use vstd::arithmetic::power2::{lemma2_to64, lemma_pow2_pos, lemma_pow2_unfold, pow2};
use vstd::std_specs::ops::{DivSpecImpl, RemSpecImpl};
use std::ops::{Div, Rem};
use crate::bits::{
    lemma_pow2_128, lemma_reflect_bound, lemma_reflect_involution, lemma_reflect_push,
    lemma_reflect_widen, lemma_shl_is_mul, lemma_shr_is_div, lemma_xor_is_add, poly128, reflect,
};
use crate::gf2::{leading_term, poly_deg, poly_div, poly_rem};
use crate::gf2_div::lemma_rem_small;
use crate::gf2_ring::lemma_deg_below;
use crate::math::{lemma_low_bit, Polynomial, polynomial128, PolynomialRepr};
use crate::schoolbook::{lemma_division_round, lemma_modulus_bits};

verus! {

/// What the division loops know of the modulus before their first round:
/// its degree `d` lies in `1..128`, and its reflected word moved down by
/// `128 - d` holds it without the leading term.
proof fn lemma_division_start(self_bits: u128, modulo: Polynomial<u128>, modulo_bits: u128)
    requires
        modulo@ >= 2,
        modulo_bits == modulo.0 >> ((128 - poly_deg(modulo@)) as u32),
    ensures
        1 <= poly_deg(modulo@) < 128,
        modulo_bits < pow2(poly_deg(modulo@)),
        modulo@ == pow2(poly_deg(modulo@)) + reflect(modulo_bits as nat, poly_deg(modulo@)),
        reflect(self_bits as nat % pow2(poly_deg(modulo@)), poly_deg(modulo@)) == poly_rem(
            reflect(self_bits as nat % pow2(poly_deg(modulo@)), poly_deg(modulo@)),
            modulo@,
        ),
        poly_div(reflect(self_bits as nat % pow2(poly_deg(modulo@)), poly_deg(modulo@)), modulo@)
            == 0,
{
    let d = poly_deg(modulo@);
    lemma_pow2_128();
    lemma_reflect_bound(modulo.0 as nat, 128);
    lemma_deg_below(modulo@, 128);
    let steps = (128 - d) as u32;
    lemma_shr_is_div(modulo.0, steps);
    lemma_modulus_bits(modulo.0 as nat, d, 128);
    // the reversal of d bits of the word fits in d bits
    let m = modulo_bits as nat;
    lemma_pow2_pos(d);
    lemma_pow2_pos(steps as nat);
    vstd::arithmetic::power2::lemma_pow2_adds(steps as nat, d);
    assert(m < pow2(d)) by {
        let a = pow2(steps as nat);
        let b = pow2(d);
        let x = modulo.0 as nat;
        vstd::arithmetic::div_mod::lemma_fundamental_div_mod(x as int, a as int);
        vstd::arithmetic::div_mod::lemma_mod_bound(x as int, a as int);
        assert(m < b) by (nonlinear_arith)
            requires
                x == a * m + x % a,
                x % a >= 0,
                x < a * b,
                a > 0,
        ;
    }
    let a0 = reflect(self_bits as nat % pow2(d), d);
    lemma_reflect_bound(self_bits as nat % pow2(d), d);
    crate::gf2_ring::lemma_deg_unique(modulo@, d);
    assert(leading_term(modulo@) == pow2(d));
    lemma_rem_small(a0, modulo@);
}

/// What the division loops have reached after their last round.
proof fn lemma_division_end(self_bits: u128, cur: u128, d: nat)
    requires
        1 <= d < 128,
        cur as nat / pow2(d) == self_bits as nat / pow2(128),
    ensures
        cur < pow2(d),
        cur * pow2((128 - d) as nat) < pow2(128),
        poly128((cur << ((128 - d) as u32))) == reflect(cur as nat % pow2(d), d),
        reflect(self_bits as nat % pow2(128), 128) == poly128(self_bits),
{
    lemma_pow2_128();
    lemma_pow2_pos(d);
    vstd::arithmetic::div_mod::lemma_basic_div(self_bits as int, pow2(128) as int);
    vstd::arithmetic::div_mod::lemma_small_mod(self_bits as nat, pow2(128));
    vstd::arithmetic::div_mod::lemma_fundamental_div_mod(cur as int, pow2(d) as int);
    vstd::arithmetic::div_mod::lemma_mod_bound(cur as int, pow2(d) as int);
    let p = pow2(d);
    let q = cur as nat / p;
    assert(p * q == 0) by (nonlinear_arith)
        requires
            q == 0,
    ;
    vstd::arithmetic::div_mod::lemma_small_mod(cur as nat, pow2(d));
    lemma_reflect_widen(cur as nat, d, 128);
    lemma_shl_is_mul(cur, (128 - d) as u32);
}

impl Rem<Polynomial<u128>> for Polynomial<u128> {
    type Output = Polynomial<u128>;

    /// The remainder of long division by `modulo`, which must have degree
    /// at least 1.
    fn rem(self, modulo: Polynomial<u128>) -> (res: Polynomial<u128>)
        ensures
            res@ == poly_rem(self@, modulo@),
    {
        let mut self_bits: u128 = self.repr();
        let modulo_deg = modulo.deg();
        proof {
            lemma_pow2_128();
            lemma_reflect_bound(modulo.0 as nat, 128);
            lemma_deg_below(modulo@, 128);
        }
        // Number of check steps to perform
        let steps: u32 = 128 - modulo_deg;
        // Remove the highest degree term (it is shifted anyway)
        let modulo_bits = modulo.repr() >> steps;
        let ghost d = modulo_deg as nat;
        let ghost mut seen: nat = reflect(self.0 as nat % pow2(d), d);
        proof {
            lemma_division_start(self_bits, modulo, modulo_bits);
        }
        for t in 0..steps
            invariant
                steps == 128 - d,
                1 <= d < 128,
                d == poly_deg(modulo@),
                modulo_bits < pow2(d),
                modulo@ == pow2(d) + reflect(modulo_bits as nat, d),
                seen == reflect(self.0 as nat % pow2(d + t as nat), d + t as nat),
                reflect(self_bits as nat % pow2(d), d) == poly_rem(seen, modulo@),
                self_bits as nat / pow2(d) == self.0 as nat / pow2(d + t as nat),
        {
            proof {
                lemma_low_bit(self_bits);
                lemma_division_round(self_bits as nat, modulo_bits as nat, d, modulo@, seen);
                lemma_xor_is_add(self_bits >> 1, modulo_bits);
                lemma_reflect_push(self.0 as nat, d + t as nat);
                crate::schoolbook::lemma_shift_once_more(self.0 as nat, d + t as nat);
                crate::schoolbook::lemma_shift_once_more(self_bits as nat, d);
                seen = 2 * seen + (self_bits as nat / pow2(d)) % 2;
            }
            let div = self_bits & 1;
            self_bits >>= 1;
            if div == 1 {
                self_bits ^= modulo_bits;
            }
        }
        proof {
            lemma_division_end(self.0, self_bits, d);
            lemma_reflect_involution((self_bits << steps) as nat, 128);
        }
        // Shift back number of steps
        // Obtained polynomial is in reverse representation
        Polynomial(self_bits << steps)
    }
}

/// Appending a bit to a number that ends in zero.
proof fn lemma_set_low_bit(x: u128)
    by (bit_vector)
    requires
        x < 0x8000_0000_0000_0000_0000_0000_0000_0000,
    ensures
        x << 1 == 2 * x,
        (x << 1) ^ 1 == 2 * x + 1,
{
}

impl Div<Polynomial<u128>> for Polynomial<u128> {
    type Output = Polynomial<u128>;

    /// The quotient of long division by `rhs`, which must have degree at
    /// least 1.
    fn div(self, rhs: Polynomial<u128>) -> (res: Polynomial<u128>)
        ensures
            res@ == poly_div(self@, rhs@),
    {
        let mut res: u128 = 0;
        let mut self_bits = self.repr();
        let rhs_deg = rhs.deg();
        proof {
            lemma_pow2_128();
            lemma_reflect_bound(rhs.0 as nat, 128);
            lemma_deg_below(rhs@, 128);
        }
        // Number of check steps to perform
        let steps: u32 = 128 - rhs_deg;
        // Remove highest degree term (it is shifted anyway)
        let rhs_bits = rhs.repr() >> steps;
        let ghost d = rhs_deg as nat;
        let ghost mut seen: nat = reflect(self.0 as nat % pow2(d), d);
        proof {
            lemma_division_start(self_bits, rhs, rhs_bits);
            lemma2_to64();
        }
        for t in 0..steps
            invariant
                steps == 128 - d,
                1 <= d < 128,
                d == poly_deg(rhs@),
                rhs_bits < pow2(d),
                rhs@ == pow2(d) + reflect(rhs_bits as nat, d),
                seen == reflect(self.0 as nat % pow2(d + t as nat), d + t as nat),
                reflect(self_bits as nat % pow2(d), d) == poly_rem(seen, rhs@),
                self_bits as nat / pow2(d) == self.0 as nat / pow2(d + t as nat),
                res == poly_div(seen, rhs@),
                res < pow2(t as nat),
        {
            proof {
                lemma_low_bit(self_bits);
                lemma_division_round(self_bits as nat, rhs_bits as nat, d, rhs@, seen);
                lemma_xor_is_add(self_bits >> 1, rhs_bits);
                lemma_reflect_push(self.0 as nat, d + t as nat);
                crate::schoolbook::lemma_shift_once_more(self.0 as nat, d + t as nat);
                crate::schoolbook::lemma_shift_once_more(self_bits as nat, d);
                seen = 2 * seen + (self_bits as nat / pow2(d)) % 2;
                lemma_pow2_unfold((t + 1) as nat);
                lemma_pow2_128();
                if t < 127 {
                    vstd::arithmetic::power2::lemma_pow2_strictly_increases(t as nat, 127);
                }
                lemma_set_low_bit(res);
            }
            res <<= 1;
            let div = self_bits & 1;
            self_bits >>= 1;
            if div == 1 {
                res ^= 1;
                self_bits ^= rhs_bits;
            }
        }
        // Obtained polynomial is in normal representation
        let quotient = Polynomial::from(PolynomialRepr::Normal(res));
        proof {
            lemma_pow2_128();
            vstd::arithmetic::div_mod::lemma_small_mod(self.0 as nat, pow2(128));
            lemma_reflect_involution(quotient.0 as nat, 128);
        }
        quotient
    }
}

impl DivSpecImpl<Polynomial<u128>> for Polynomial<u128> {
    open spec fn obeys_div_spec() -> bool {
        true
    }

    open spec fn div_req(self, rhs: Polynomial<u128>) -> bool {
        rhs@ >= 2
    }

    open spec fn div_spec(self, rhs: Polynomial<u128>) -> Polynomial<u128> {
        polynomial128(poly_div(self@, rhs@))
    }
}

impl RemSpecImpl<Polynomial<u128>> for Polynomial<u128> {
    open spec fn obeys_rem_spec() -> bool {
        true
    }

    open spec fn rem_req(self, modulo: Polynomial<u128>) -> bool {
        modulo@ >= 2
    }

    open spec fn rem_spec(self, modulo: Polynomial<u128>) -> Polynomial<u128> {
        polynomial128(poly_rem(self@, modulo@))
    }
}

} // verus!
