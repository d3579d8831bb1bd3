//! Polynomials over GF(2) in machine words of 32, 64 and 128 bits.

use vstd::prelude::*;
use vstd::arithmetic::power2::{lemma2_to64, lemma_pow2_pos, lemma_pow2_unfold, pow2};
use vstd::std_specs::convert::{FromSpecImpl, TryFromSpecImpl};
use vstd::std_specs::ops::{AddSpecImpl, BitXorSpec, MulSpecImpl};
use std::ops::{Add, Mul};
use crate::bits::{
    lemma_pow2_128, lemma_reflect_bound, lemma_reflect_involution, lemma_reflect_narrow,
    lemma_reflect_widen, poly128, poly32, poly64, reflect,
};
use crate::error::Error;
use crate::gf2::{poly_deg, poly_mul};
use crate::gf2_ring::{lemma_deg_below, lemma_deg_bounds, lemma_mul_degree, lemma_mul_zero};
use crate::schoolbook::{lemma_degree_from_lowest_bit, lemma_mul_round, lemma_shift_once_more};
pub use crate::reverse::{reverse_u128, reverse_u32, reverse_u64};

verus! {

/// A polynomial can either be in normal or reverse representation.
pub enum PolynomialRepr<T> {
    /// Normal polynomial representation (MSB is term of highest degree in polynomial)
    Normal(T),
    /// Reverse polynomial representation (LSB is term of highest degree in polynomial)
    Reverse(T),
}

/// A polynomial with internal representation in reverse order: bit `i` of
/// the word is the coefficient of `X^(W - 1 - i)`, for a word of `W` bits.
#[derive(Copy, Clone, PartialEq, Eq, Structural)]
pub struct Polynomial<T>(pub T);

impl<T> Polynomial<T> where T: Copy {
    /// The word that holds the coefficients, highest degree in bit 0.
    pub fn repr(&self) -> (res: T)
        ensures
            res == self.0,
    {
        self.0
    }
}

impl View for Polynomial<u32> {
    type V = nat;

    /// The polynomial as a number: binary digit `k` is the coefficient of `X^k`.
    open spec fn view(&self) -> nat {
        poly32(self.0)
    }
}

impl View for Polynomial<u64> {
    type V = nat;

    /// The polynomial as a number: binary digit `k` is the coefficient of `X^k`.
    open spec fn view(&self) -> nat {
        poly64(self.0)
    }
}

impl View for Polynomial<u128> {
    type V = nat;

    /// The polynomial as a number: binary digit `k` is the coefficient of `X^k`.
    open spec fn view(&self) -> nat {
        poly128(self.0)
    }
}

/// The 32-bit polynomial with the coefficients of `p`, for `p` below `X^32`.
pub open spec fn polynomial32(p: nat) -> Polynomial<u32> {
    Polynomial(reflect(p, 32) as u32)
}

/// The 64-bit polynomial with the coefficients of `p`, for `p` below `X^64`.
pub open spec fn polynomial64(p: nat) -> Polynomial<u64> {
    Polynomial(reflect(p, 64) as u64)
}

/// The 128-bit polynomial with the coefficients of `p`, for `p` below `X^128`.
pub open spec fn polynomial128(p: nat) -> Polynomial<u128> {
    Polynomial(reflect(p, 128) as u128)
}

impl From<PolynomialRepr<u32>> for Polynomial<u32> {
    /// Builds a polynomial from its coefficients in either bit order.
    fn from(repr: PolynomialRepr<u32>) -> (res: Self)
        ensures
            repr matches PolynomialRepr::Normal(val) ==> res@ == val as nat,
            repr matches PolynomialRepr::Reverse(val) ==> res.0 == val,
    {
        match repr {
            PolynomialRepr::Normal(val) => {
                proof {
                    lemma_pow2_128();
                    lemma_reflect_involution(val as nat, 32);
                }
                Self(reverse_u32(val))
            },
            PolynomialRepr::Reverse(val) => Self(val),
        }
    }
}

impl FromSpecImpl<PolynomialRepr<u32>> for Polynomial<u32> {
    open spec fn obeys_from_spec() -> bool {
        true
    }

    open spec fn from_spec(repr: PolynomialRepr<u32>) -> Self {
        match repr {
            PolynomialRepr::Normal(val) => polynomial32(val as nat),
            PolynomialRepr::Reverse(val) => Polynomial(val),
        }
    }
}

impl From<PolynomialRepr<u64>> for Polynomial<u64> {
    /// Builds a polynomial from its coefficients in either bit order.
    fn from(repr: PolynomialRepr<u64>) -> (res: Self)
        ensures
            repr matches PolynomialRepr::Normal(val) ==> res@ == val as nat,
            repr matches PolynomialRepr::Reverse(val) ==> res.0 == val,
    {
        match repr {
            PolynomialRepr::Normal(val) => {
                proof {
                    lemma_pow2_128();
                    lemma_reflect_involution(val as nat, 64);
                }
                Self(reverse_u64(val))
            },
            PolynomialRepr::Reverse(val) => Self(val),
        }
    }
}

impl FromSpecImpl<PolynomialRepr<u64>> for Polynomial<u64> {
    open spec fn obeys_from_spec() -> bool {
        true
    }

    open spec fn from_spec(repr: PolynomialRepr<u64>) -> Self {
        match repr {
            PolynomialRepr::Normal(val) => polynomial64(val as nat),
            PolynomialRepr::Reverse(val) => Polynomial(val),
        }
    }
}

impl From<PolynomialRepr<u128>> for Polynomial<u128> {
    /// Builds a polynomial from its coefficients in either bit order.
    fn from(repr: PolynomialRepr<u128>) -> (res: Self)
        ensures
            repr matches PolynomialRepr::Normal(val) ==> res@ == val as nat,
            repr matches PolynomialRepr::Reverse(val) ==> res.0 == val,
    {
        match repr {
            PolynomialRepr::Normal(val) => {
                proof {
                    lemma_pow2_128();
                    lemma_reflect_involution(val as nat, 128);
                }
                Self(reverse_u128(val))
            },
            PolynomialRepr::Reverse(val) => Self(val),
        }
    }
}

impl FromSpecImpl<PolynomialRepr<u128>> for Polynomial<u128> {
    open spec fn obeys_from_spec() -> bool {
        true
    }

    open spec fn from_spec(repr: PolynomialRepr<u128>) -> Self {
        match repr {
            PolynomialRepr::Normal(val) => polynomial128(val as nat),
            PolynomialRepr::Reverse(val) => Polynomial(val),
        }
    }
}

/// A 32-bit polynomial is the word built from its coefficients, and the
/// polynomial of a word built from coefficients below `X^32` has those
/// coefficients.
pub proof fn lemma_polynomial32(p: Polynomial<u32>, n: nat)
    ensures
        p@ < pow2(32),
        polynomial32(p@) == p,
        n < pow2(32) ==> polynomial32(n)@ == n,
{
    lemma_pow2_128();
    lemma_reflect_involution(p.0 as nat, 32);
    lemma_reflect_bound(p.0 as nat, 32);
    if n < pow2(32) {
        lemma_reflect_involution(n, 32);
        lemma_reflect_bound(n, 32);
    }
}

/// A 64-bit polynomial is the word built from its coefficients, and the
/// polynomial of a word built from coefficients below `X^64` has those
/// coefficients.
pub proof fn lemma_polynomial64(p: Polynomial<u64>, n: nat)
    ensures
        p@ < pow2(64),
        polynomial64(p@) == p,
        n < pow2(64) ==> polynomial64(n)@ == n,
{
    lemma_pow2_128();
    lemma_reflect_involution(p.0 as nat, 64);
    lemma_reflect_bound(p.0 as nat, 64);
    if n < pow2(64) {
        lemma_reflect_involution(n, 64);
        lemma_reflect_bound(n, 64);
    }
}

/// A 128-bit polynomial is the word built from its coefficients, and the
/// polynomial of a word built from coefficients below `X^128` has those
/// coefficients.
pub proof fn lemma_polynomial128(p: Polynomial<u128>, n: nat)
    ensures
        p@ < pow2(128),
        polynomial128(p@) == p,
        n < pow2(128) ==> polynomial128(n)@ == n,
{
    lemma_pow2_128();
    lemma_reflect_involution(p.0 as nat, 128);
    lemma_reflect_bound(p.0 as nat, 128);
    if n < pow2(128) {
        lemma_reflect_involution(n, 128);
        lemma_reflect_bound(n, 128);
    }
}

impl TryFrom<Polynomial<u128>> for Polynomial<u64> {
    type Error = Error;

    /// Narrows a polynomial to 64 bits. Fails when a coefficient from
    /// `X^64` up is set.
    fn try_from(value: Polynomial<u128>) -> (res: Result<Self, Error>)
        ensures
            value@ < pow2(64) <==> res is Ok,
            res matches Ok(p) ==> p@ == value@,
            res matches Err(e) ==> e == Error::OverflowError(None),
    {
        let bits = value.repr();
        proof {
            lemma_pow2_128();
            lemma_reflect_narrow(bits as nat, 64, 128);
            assert(bits & 0xffffffffffffffff == bits % 0x10000000000000000) by (bit_vector);
            assert(bits >> 64 == bits / 0x10000000000000000) by (bit_vector);
            lemma_reflect_involution((bits / 0x10000000000000000) as nat, 64);
        }
        if bits & 0xffffffffffffffff != 0 {
            return Err(Error::OverflowError(None));
        }
        Ok(Polynomial((bits >> 64) as u64))
    }
}

impl TryFromSpecImpl<Polynomial<u128>> for Polynomial<u64> {
    open spec fn obeys_try_from_spec() -> bool {
        true
    }

    open spec fn try_from_spec(value: Polynomial<u128>) -> Result<Self, Error> {
        if value@ < pow2(64) {
            Ok(polynomial64(value@))
        } else {
            Err(Error::OverflowError(None))
        }
    }
}

impl TryFrom<Polynomial<u128>> for Polynomial<u32> {
    type Error = Error;

    /// Narrows a polynomial to 32 bits. Fails when a coefficient from
    /// `X^32` up is set.
    fn try_from(value: Polynomial<u128>) -> (res: Result<Self, Error>)
        ensures
            value@ < pow2(32) <==> res is Ok,
            res matches Ok(p) ==> p@ == value@,
            res matches Err(e) ==> e == Error::OverflowError(None),
    {
        let bits = value.repr();
        proof {
            lemma_pow2_128();
            lemma_reflect_narrow(bits as nat, 32, 128);
            assert(bits & 0xffffffffffffffffffffffff == bits % 0x1000000000000000000000000) by (bit_vector);
            assert(bits >> 96 == bits / 0x1000000000000000000000000) by (bit_vector);
            lemma_reflect_involution((bits / 0x1000000000000000000000000) as nat, 32);
        }
        if bits & 0xffffffffffffffffffffffff != 0 {
            return Err(Error::OverflowError(None));
        }
        Ok(Polynomial((bits >> 96) as u32))
    }
}

impl TryFromSpecImpl<Polynomial<u128>> for Polynomial<u32> {
    open spec fn obeys_try_from_spec() -> bool {
        true
    }

    open spec fn try_from_spec(value: Polynomial<u128>) -> Result<Self, Error> {
        if value@ < pow2(32) {
            Ok(polynomial32(value@))
        } else {
            Err(Error::OverflowError(None))
        }
    }
}

impl TryFrom<Polynomial<u64>> for Polynomial<u32> {
    type Error = Error;

    /// Narrows a polynomial to 32 bits. Fails when a coefficient from
    /// `X^32` up is set.
    fn try_from(value: Polynomial<u64>) -> (res: Result<Self, Error>)
        ensures
            value@ < pow2(32) <==> res is Ok,
            res matches Ok(p) ==> p@ == value@,
            res matches Err(e) ==> e == Error::OverflowError(None),
    {
        let bits = value.repr();
        proof {
            lemma_pow2_128();
            lemma_reflect_narrow(bits as nat, 32, 64);
            assert(bits & 0xffffffff == bits % 0x100000000) by (bit_vector);
            assert(bits >> 32 == bits / 0x100000000) by (bit_vector);
            lemma_reflect_involution((bits / 0x100000000) as nat, 32);
        }
        if bits & 0xffffffff != 0 {
            return Err(Error::OverflowError(None));
        }
        Ok(Polynomial((bits >> 32) as u32))
    }
}

impl TryFromSpecImpl<Polynomial<u64>> for Polynomial<u32> {
    open spec fn obeys_try_from_spec() -> bool {
        true
    }

    open spec fn try_from_spec(value: Polynomial<u64>) -> Result<Self, Error> {
        if value@ < pow2(32) {
            Ok(polynomial32(value@))
        } else {
            Err(Error::OverflowError(None))
        }
    }
}

impl From<Polynomial<u64>> for Polynomial<u128> {
    /// Widens a polynomial to 128 bits; the coefficients stay as they are.
    fn from(value: Polynomial<u64>) -> (res: Self)
        ensures
            res@ == value@,
    {
        let bits = value.repr();
        proof {
            lemma_pow2_128();
            lemma_reflect_widen(bits as nat, 64, 128);
            assert((bits as u128) << 64 == (bits as u128) * 0x10000000000000000) by (bit_vector);
            lemma_reflect_involution((bits as nat) * pow2(64), 128);
        }
        Self(u128::from(bits) << 64)
    }
}

impl FromSpecImpl<Polynomial<u64>> for Polynomial<u128> {
    open spec fn obeys_from_spec() -> bool {
        true
    }

    open spec fn from_spec(value: Polynomial<u64>) -> Self {
        polynomial128(value@)
    }
}

impl From<Polynomial<u32>> for Polynomial<u64> {
    /// Widens a polynomial to 64 bits; the coefficients stay as they are.
    fn from(value: Polynomial<u32>) -> (res: Self)
        ensures
            res@ == value@,
    {
        let bits = value.repr();
        proof {
            lemma_pow2_128();
            lemma_reflect_widen(bits as nat, 32, 64);
            assert((bits as u64) << 32 == (bits as u64) * 0x100000000) by (bit_vector);
            lemma_reflect_involution((bits as nat) * pow2(32), 64);
        }
        Self(u64::from(bits) << 32)
    }
}

impl FromSpecImpl<Polynomial<u32>> for Polynomial<u64> {
    open spec fn obeys_from_spec() -> bool {
        true
    }

    open spec fn from_spec(value: Polynomial<u32>) -> Self {
        polynomial64(value@)
    }
}

impl From<Polynomial<u32>> for Polynomial<u128> {
    /// Widens a polynomial to 128 bits; the coefficients stay as they are.
    fn from(value: Polynomial<u32>) -> (res: Self)
        ensures
            res@ == value@,
    {
        Self::from(Polynomial::<u64>::from(value))
    }
}

impl FromSpecImpl<Polynomial<u32>> for Polynomial<u128> {
    open spec fn obeys_from_spec() -> bool {
        true
    }

    open spec fn from_spec(value: Polynomial<u32>) -> Self {
        polynomial128(value@)
    }
}

impl<T> Add<Polynomial<T>> for Polynomial<T> where T: std::ops::BitXor<T, Output = T>, T: Copy {
    type Output = Polynomial<T>;

    fn add(self, rhs: Polynomial<T>) -> (res: Polynomial<T>) {
        Polynomial(self.repr() ^ rhs.repr())
    }
}

impl<T> AddSpecImpl<Polynomial<T>> for Polynomial<T> where T: std::ops::BitXor<T, Output = T>, T: Copy {
    open spec fn obeys_add_spec() -> bool {
        T::obeys_bitxor_spec()
    }

    open spec fn add_req(self, rhs: Polynomial<T>) -> bool {
        self.0.bitxor_req(rhs.0)
    }

    open spec fn add_spec(self, rhs: Polynomial<T>) -> Polynomial<T> {
        Polynomial(self.0.bitxor_spec(rhs.0))
    }
}

/// The lowest bit of a word and the word without it, as arithmetic.
pub proof fn lemma_low_bit(x: u128)
    by (bit_vector)
    ensures
        x & 1 == x % 2,
        x >> 1 == x / 2,
{
}

/// The degree of the polynomial that the low `width` bits of `bits` hold
/// in reflected form.
fn degree_of_bits(bits: u128, width: u32) -> (res: u32)
    requires
        1 <= width <= 128,
        bits < pow2(width as nat),
    ensures
        res == poly_deg(reflect(bits as nat, width as nat)),
        res < width,
{
    let mut self_bits = bits;
    let maxdeg = width - 1;
    proof {
        lemma2_to64();
        assert(bits as nat / 1 == bits);
    }
    for i in 0..width
        invariant
            maxdeg == width - 1,
            1 <= width <= 128,
            bits < pow2(width as nat),
            self_bits == bits as nat / pow2(i as nat),
            bits as nat % pow2(i as nat) == 0,
    {
        proof {
            lemma_low_bit(self_bits);
            lemma_shift_once_more(bits as nat, i as nat);
        }
        if self_bits & 1 == 1 {
            proof {
                lemma_degree_from_lowest_bit(bits as nat, i as nat, width as nat);
            }
            return maxdeg - i;
        }
        self_bits >>= 1;
    }
    proof {
        vstd::arithmetic::div_mod::lemma_small_mod(bits as nat, pow2(width as nat));
        crate::bits::lemma_reflect_zero(width as nat);
    }
    0
}

impl Polynomial<u32> {
    /// The degree of the polynomial; 0 for the zero polynomial.
    pub fn deg(self) -> (res: u32)
        ensures
            res == poly_deg(self@),
            res < 32,
    {
        proof {
            lemma_pow2_128();
        }
        degree_of_bits(self.repr() as u128, 32)
    }
}

impl Polynomial<u64> {
    /// The degree of the polynomial; 0 for the zero polynomial.
    pub fn deg(self) -> (res: u32)
        ensures
            res == poly_deg(self@),
            res < 64,
    {
        proof {
            lemma_pow2_128();
        }
        degree_of_bits(self.repr() as u128, 64)
    }
}

impl Polynomial<u128> {
    /// The degree of the polynomial; 0 for the zero polynomial.
    pub fn deg(self) -> (res: u32)
        ensures
            res == poly_deg(self@),
            res < 128,
    {
        proof {
            lemma_pow2_128();
        }
        degree_of_bits(self.repr(), 128)
    }
}

/// A product of polynomials below `X^j` and `X^k` lies below
/// `X^(j + k - 1)`.
pub proof fn lemma_mul_bound(a: nat, b: nat, j: nat, k: nat)
    requires
        a < pow2(j),
        b < pow2(k),
        j >= 1,
        k >= 1,
    ensures
        poly_mul(a, b) < pow2((j + k - 1) as nat),
{
    lemma_pow2_pos((j + k - 1) as nat);
    lemma_mul_zero(a);
    lemma_mul_zero(b);
    if a >= 1 && b >= 1 {
        lemma_mul_degree(a, b);
        lemma_deg_below(a, j);
        lemma_deg_below(b, k);
        let p = poly_mul(a, b);
        lemma_deg_bounds(p);
        let e = poly_deg(p);
        lemma_pow2_unfold(e + 1);
        if e + 1 < j + k - 1 {
            vstd::arithmetic::power2::lemma_pow2_strictly_increases(e + 1, (j + k - 1) as nat);
        }
    }
}

impl Mul<Polynomial<u64>> for Polynomial<u64> {
    type Output = Polynomial<u128>;

    /// The product of two polynomials, by adding a shifted copy of the
    /// right factor for each coefficient of the left one.
    fn mul(self, rhs: Polynomial<u64>) -> (res: Polynomial<u128>)
        ensures
            res@ == poly_mul(self@, rhs@),
    {
        let mut self_bits = self.repr();
        let mut res_bits = 0u128;
        let rhs_bits = rhs.repr();
        let ghost mut ahi: nat = 0;
        proof {
            lemma2_to64();
            lemma_pow2_128();
            crate::bits::lemma_reflect_zero(128);
            lemma_mul_zero(rhs@);
            assert(poly_mul(0, rhs@) * pow2(64) == 0) by (nonlinear_arith)
                requires
                    poly_mul(0, rhs@) == 0,
            ;
            assert(self.0 as nat / 1 == self.0);
            assert(self.0 as nat % 1 == 0);
        }
        let mut i: u32 = 64;
        while i > 0
            invariant
                i <= 64,
                rhs_bits == rhs.0,
                self_bits == self.0 as nat / pow2((64 - i) as nat),
                ahi == reflect(self.0 as nat % pow2((64 - i) as nat), (64 - i) as nat),
                poly128(res_bits) == poly_mul(ahi, rhs@) * pow2(i as nat),
            decreases i,
        {
            i -= 1;
            let ghost j = (63 - i) as nat;
            let ghost bit = (self_bits % 2) as nat;
            let ghost old_sum = poly128(res_bits);
            let term: u128 = u128::from(rhs_bits) << (64 - i);
            proof {
                lemma_pow2_128();
                lemma_low_bit(self_bits as u128);
                lemma_shift_once_more(self.0 as nat, j);
                crate::bits::lemma_reflect_push(self.0 as nat, j);
                // the shifted copy of the right factor holds rhs * X^i
                let s = (64 - i) as nat;
                lemma_pow2_pos(s);
                vstd::arithmetic::power2::lemma_pow2_adds(64, s);
                if s < 64 {
                    vstd::arithmetic::power2::lemma_pow2_strictly_increases(64 + s, 128);
                }
                assert(rhs_bits * pow2(s) < pow2(64) * pow2(s)) by (nonlinear_arith)
                    requires
                        rhs_bits < pow2(64),
                        pow2(s) > 0,
                ;
                crate::bits::lemma_shl_is_mul(rhs_bits as u128, (64 - i) as u32);
                crate::bits::lemma_reflect_shifted(rhs_bits as nat, 64, s, 128);
                lemma_mul_round(ahi, bit, rhs@, i as nat, old_sum, poly128(term));
                crate::bits::lemma_xor_poly128(res_bits, term);
                ahi = 2 * ahi + bit;
            }
            if self_bits & 1 == 1 {
                res_bits ^= term;
            }
            self_bits >>= 1;
        }
        proof {
            lemma2_to64();
            vstd::arithmetic::div_mod::lemma_small_mod(self.0 as nat, pow2(64));
            let m = poly_mul(ahi, rhs@);
            let one = pow2(0);
            assert(m * one == m) by (nonlinear_arith)
                requires
                    one == 1,
            ;
            lemma_pow2_128();
            lemma_reflect_involution(res_bits as nat, 128);
        }
        Polynomial(res_bits)
    }
}

impl MulSpecImpl<Polynomial<u64>> for Polynomial<u64> {
    open spec fn obeys_mul_spec() -> bool {
        true
    }

    open spec fn mul_req(self, rhs: Polynomial<u64>) -> bool {
        true
    }

    open spec fn mul_spec(self, rhs: Polynomial<u64>) -> Polynomial<u128> {
        polynomial128(poly_mul(self@, rhs@))
    }
}

} // verus!
