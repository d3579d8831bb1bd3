//! Bit reversal, and what the bitwise operations on machine words do to
//! the polynomials that the words stand for.

use vstd::prelude::*;
use vstd::arithmetic::power2::{
    lemma2_to64, lemma_pow2_adds, lemma_pow2_pos, lemma_pow2_unfold, pow2,
};
use vstd::arithmetic::div_mod::{
    lemma_basic_div, lemma_fundamental_div_mod, lemma_mod_bound, lemma_small_mod,
};
use crate::gf2::poly_add;
use crate::gf2_ring::{lemma_add_split, lemma_halves};

verus! {

/// The `w`-bit reversal of `v`: binary digit `i` of `v` becomes digit
/// `w - 1 - i` of the result, for `i < w`. Digits of `v` from `w` up are
/// ignored.
pub open spec fn reflect(v: nat, w: nat) -> nat
    decreases w,
{
    if w == 0 {
        0
    } else {
        reflect(v / 2, (w - 1) as nat) + if v % 2 == 1 {
            pow2((w - 1) as nat)
        } else {
            0
        }
    }
}

/// A reversal over `w` bits fits in `w` bits.
pub proof fn lemma_reflect_bound(v: nat, w: nat)
    ensures
        reflect(v, w) < pow2(w),
    decreases w,
{
    lemma_pow2_pos(w);
    if w > 0 {
        lemma_pow2_unfold(w);
        lemma_reflect_bound(v / 2, (w - 1) as nat);
    }
}

/// Zero reversed is zero.
pub proof fn lemma_reflect_zero(w: nat)
    ensures
        reflect(0, w) == 0,
    decreases w,
{
    if w > 0 {
        lemma_reflect_zero((w - 1) as nat);
    }
}

/// Reversal over `w1 + w2` bits reverses the low `w1` bits into the high
/// part and the next `w2` bits into the low part.
pub proof fn lemma_reflect_split(v: nat, w1: nat, w2: nat)
    ensures
        reflect(v, w1 + w2) == reflect(v % pow2(w1), w1) * pow2(w2) + reflect(v / pow2(w1), w2),
    decreases w1,
{
    if w1 == 0 {
        lemma2_to64();
        assert(reflect(v % pow2(0), 0) * pow2(w2) == 0) by (nonlinear_arith)
            requires
                reflect(v % pow2(0), 0) == 0,
        ;
    } else {
        let h = pow2((w1 - 1) as nat);
        lemma_pow2_unfold(w1);
        lemma_pow2_pos((w1 - 1) as nat);
        lemma_reflect_split(v / 2, (w1 - 1) as nat, w2);
        lemma_halves(v, h);
        lemma_pow2_adds((w1 - 1) as nat, w2);
        let lo = v % pow2(w1);
        let a = reflect(lo / 2, (w1 - 1) as nat);
        let shifted = pow2(w2);
        assert(reflect(lo, w1) == a + if v % 2 == 1 {
            h
        } else {
            0
        });
        assert(reflect(v, w1 + w2) == reflect(v / 2, ((w1 - 1) + w2) as nat) + if v % 2 == 1 {
            pow2(((w1 - 1) + w2) as nat)
        } else {
            0
        });
        if v % 2 == 1 {
            assert((a + h) * shifted == a * shifted + h * shifted) by (nonlinear_arith);
        }
    }
}

/// Reversing twice over the same width restores a number that fits.
pub proof fn lemma_reflect_involution(v: nat, w: nat)
    requires
        v < pow2(w),
    ensures
        reflect(reflect(v, w), w) == v,
    decreases w,
{
    lemma2_to64();
    if w > 0 {
        let h = pow2((w - 1) as nat);
        lemma_pow2_unfold(w);
        lemma_pow2_pos((w - 1) as nat);
        let inner = reflect(v / 2, (w - 1) as nat);
        let r = reflect(v, w);
        lemma_reflect_bound(v / 2, (w - 1) as nat);
        lemma_reflect_involution(v / 2, (w - 1) as nat);
        lemma_reflect_split(r, (w - 1) as nat, 1);
        let top: nat = if v % 2 == 1 {
            1
        } else {
            0
        };
        assert(r == top * h + inner) by (nonlinear_arith)
            requires
                r == inner + if v % 2 == 1 {
                    h
                } else {
                    0
                },
                top == if v % 2 == 1 {
                    1nat
                } else {
                    0nat
                },
        ;
        vstd::arithmetic::div_mod::lemma_fundamental_div_mod_converse(
            r as int,
            h as int,
            top as int,
            inner as int,
        );
        assert(reflect(top, 1) == top) by {
            assert(reflect(top / 2, 0) == 0);
        }
        let back = reflect(inner, (w - 1) as nat);
        let two = pow2(1);
        assert(back * two == 2 * back) by (nonlinear_arith)
            requires
                two == 2,
        ;
        assert(((w - 1) as nat) + 1 == w);
    }
}

/// The reversal of a sum of polynomials is the sum of the reversals.
pub proof fn lemma_reflect_add(a: nat, b: nat, w: nat)
    ensures
        reflect(poly_add(a, b), w) == poly_add(reflect(a, w), reflect(b, w)),
    decreases w,
{
    if w > 0 {
        let h = pow2((w - 1) as nat);
        lemma_pow2_pos((w - 1) as nat);
        crate::gf2_ring::lemma_add_unfold(a, b);
        lemma_reflect_add(a / 2, b / 2, (w - 1) as nat);
        let ra = reflect(a / 2, (w - 1) as nat);
        let rb = reflect(b / 2, (w - 1) as nat);
        lemma_reflect_bound(a / 2, (w - 1) as nat);
        lemma_reflect_bound(b / 2, (w - 1) as nat);
        let x = reflect(a, w);
        let y = reflect(b, w);
        let ta: nat = if a % 2 == 1 {
            1
        } else {
            0
        };
        let tb: nat = if b % 2 == 1 {
            1
        } else {
            0
        };
        assert(x == ta * h + ra && y == tb * h + rb) by (nonlinear_arith)
            requires
                x == ra + if a % 2 == 1 {
                    h
                } else {
                    0
                },
                y == rb + if b % 2 == 1 {
                    h
                } else {
                    0
                },
                ta == if a % 2 == 1 {
                    1nat
                } else {
                    0nat
                },
                tb == if b % 2 == 1 {
                    1nat
                } else {
                    0nat
                },
        ;
        vstd::arithmetic::div_mod::lemma_fundamental_div_mod_converse(
            x as int,
            h as int,
            ta as int,
            ra as int,
        );
        vstd::arithmetic::div_mod::lemma_fundamental_div_mod_converse(
            y as int,
            h as int,
            tb as int,
            rb as int,
        );
        lemma_add_split(x, y, (w - 1) as nat);
        let s = poly_add(x, y);
        lemma_fundamental_div_mod(s as int, h as int);
        assert(poly_add(ta, tb) == (a % 2 + b % 2) % 2) by {
            crate::gf2_ring::lemma_add_self(1);
        }
        let t = poly_add(ta, tb);
        assert(h * t == if t == 1 {
            h
        } else {
            0
        }) by (nonlinear_arith)
            requires
                t == 0 || t == 1,
        ;
    }
}

/// The polynomial that a 32-bit word holds in reflected form: bit `i` of
/// the word is the coefficient of `X^(31 - i)`.
pub open spec fn poly32(r: u32) -> nat {
    reflect(r as nat, 32)
}

/// The polynomial that a 64-bit word holds in reflected form: bit `i` of
/// the word is the coefficient of `X^(63 - i)`.
pub open spec fn poly64(r: u64) -> nat {
    reflect(r as nat, 64)
}

/// The polynomial that a 128-bit word holds in reflected form: bit `i` of
/// the word is the coefficient of `X^(127 - i)`.
pub open spec fn poly128(r: u128) -> nat {
    reflect(r as nat, 128)
}

/// A reversal is zero only of a number whose low `w` bits are zero.
pub proof fn lemma_reflect_nonzero(v: nat, w: nat)
    requires
        v < pow2(w),
        v != 0,
    ensures
        reflect(v, w) != 0,
{
    lemma_reflect_involution(v, w);
    lemma_reflect_zero(w);
}

/// Reversing one more bit appends that bit below the reversal so far.
pub proof fn lemma_reflect_push(v: nat, j: nat)
    ensures
        reflect(v % pow2(j + 1), j + 1) == 2 * reflect(v % pow2(j), j) + (v / pow2(j)) % 2,
{
    let h = pow2(j);
    lemma_pow2_pos(j);
    lemma_pow2_unfold(j + 1);
    lemma2_to64();
    let x = v % pow2(j + 1);
    lemma_reflect_split(x, j, 1);
    // x % h == v % h and x / h == (v / h) % 2
    vstd::arithmetic::div_mod::lemma_mod_mod(v as int, h as int, 2);
    assert(h * 2 == pow2(j + 1)) by (nonlinear_arith)
        requires
            pow2(j + 1) == 2 * h,
    ;
    assert(x % h == v % h);
    vstd::arithmetic::div_mod::lemma_mod_breakdown(v as int, h as int, 2);
    let bit = (v / h) % 2;
    lemma_mod_bound(v as int, h as int);
    assert(x == h * bit + v % h);
    assert(x == bit * h + v % h) by (nonlinear_arith)
        requires
            x == h * bit + v % h,
    ;
    vstd::arithmetic::div_mod::lemma_fundamental_div_mod_converse(
        x as int,
        h as int,
        bit as int,
        (v % h) as int,
    );
    assert(reflect(bit, 1) == bit) by {
        assert(reflect(bit / 2, 0) == 0);
    }
    let low = reflect(v % h, j);
    let two = pow2(1);
    assert(low * two == 2 * low) by (nonlinear_arith)
        requires
            two == 2,
    ;
}

/// Bit `j` of a word of `w` bits is digit `w - 1 - j` of its reversal.
pub proof fn lemma_reflect_bit(v: nat, w: nat, j: nat)
    requires
        j < w,
    ensures
        (reflect(v, w) / pow2((w - 1 - j) as nat)) % 2 == (v / pow2(j)) % 2,
{
    let rest = (w - 1 - j) as nat;
    let a = reflect(v % pow2(j + 1), j + 1);
    let b = reflect(v / pow2(j + 1), rest);
    lemma_pow2_pos(rest);
    lemma_pow2_pos(j + 1);
    lemma_reflect_split(v, j + 1, rest);
    assert((j + 1) + rest == w);
    lemma_reflect_bound(v / pow2(j + 1), rest);
    vstd::arithmetic::div_mod::lemma_fundamental_div_mod_converse(
        reflect(v, w) as int,
        pow2(rest) as int,
        a as int,
        b as int,
    );
    lemma_reflect_push(v, j);
    let low = reflect(v % pow2(j), j);
    let bit = (v / pow2(j)) % 2;
    assert(reflect(v, w) / pow2(rest) == a);
    assert(a == 2 * low + bit);
    assert(a % 2 == bit) by {
        lemma_pow2_pos(j);
        assert(0 <= bit < 2);
    }
}

/// A number that fits in `w0` bits, moved up by `s` bits inside a word of
/// `w` bits, stands for the same coefficients moved down by the room that
/// is left above it.
pub proof fn lemma_reflect_shifted(v: nat, w0: nat, s: nat, w: nat)
    requires
        v < pow2(w0),
        s + w0 <= w,
    ensures
        reflect(v * pow2(s), w) == reflect(v, w0) * pow2((w - w0 - s) as nat),
{
    let x = v * pow2(s);
    let rest = (w - w0 - s) as nat;
    lemma_pow2_pos(s);
    lemma_pow2_pos(w0);
    lemma_reflect_split(x, s, (w - s) as nat);
    vstd::arithmetic::div_mod::lemma_fundamental_div_mod_converse(
        x as int,
        pow2(s) as int,
        v as int,
        0,
    );
    lemma_reflect_zero(s);
    assert(reflect(0, s) * pow2((w - s) as nat) == 0) by (nonlinear_arith)
        requires
            reflect(0, s) == 0,
    ;
    assert(reflect(x, w) == reflect(v, (w - s) as nat));
    lemma_reflect_split(v, w0, rest);
    lemma_small_mod(v, pow2(w0));
    lemma_basic_div(v as int, pow2(w0) as int);
    lemma_reflect_zero(rest);
}

/// The exclusive or of two words is the sum of the polynomials that their
/// binary digits spell.
pub proof fn lemma_xor_is_add(a: u128, b: u128)
    ensures
        (a ^ b) as nat == poly_add(a as nat, b as nat),
    decreases a + b,
{
    lemma_xor_halves(a, b);
    if a != 0 && b != 0 {
        lemma_xor_is_add(a / 2, b / 2);
    }
}

proof fn lemma_xor_halves(a: u128, b: u128)
    by (bit_vector)
    ensures
        (a ^ b) / 2 == (a / 2) ^ (b / 2),
        (a ^ b) % 2 == (a % 2 + b % 2) % 2,
        a == 0 ==> a ^ b == b,
        b == 0 ==> a ^ b == a,
{
}

/// The exclusive or of two reflected 128-bit words holds the sum of their
/// polynomials.
pub proof fn lemma_xor_poly128(a: u128, b: u128)
    ensures
        poly128(a ^ b) == poly_add(poly128(a), poly128(b)),
{
    lemma_xor_is_add(a, b);
    lemma_reflect_add(a as nat, b as nat, 128);
}

/// The exclusive or of two reflected 64-bit words holds the sum of their
/// polynomials.
pub proof fn lemma_xor_poly64(a: u64, b: u64)
    ensures
        poly64(a ^ b) == poly_add(poly64(a), poly64(b)),
{
    assert((a ^ b) as u128 == (a as u128) ^ (b as u128)) by (bit_vector);
    lemma_xor_is_add(a as u128, b as u128);
    lemma_reflect_add(a as nat, b as nat, 64);
}

/// The exclusive or of two reflected 32-bit words holds the sum of their
/// polynomials.
pub proof fn lemma_xor_poly32(a: u32, b: u32)
    ensures
        poly32(a ^ b) == poly_add(poly32(a), poly32(b)),
{
    assert((a ^ b) as u128 == (a as u128) ^ (b as u128)) by (bit_vector);
    lemma_xor_is_add(a as u128, b as u128);
    lemma_reflect_add(a as nat, b as nat, 32);
}

/// Shifting a 128-bit word left multiplies it by a power of two, as long
/// as the product fits.
pub proof fn lemma_shl_is_mul(x: u128, s: u32)
    requires
        s < 128,
        x * pow2(s as nat) < pow2(128),
    ensures
        (x << s) == x * pow2(s as nat),
    decreases s,
{
    lemma2_to64();
    if s == 0 {
        assert(x << 0u32 == x) by (bit_vector);
        assert(x * pow2(0) == x) by (nonlinear_arith)
            requires
                pow2(0) == 1,
        ;
    } else {
        let t = (s - 1) as u32;
        let h = pow2(t as nat);
        lemma_pow2_unfold(s as nat);
        lemma_pow2_unfold(128);
        lemma_pow2_pos(t as nat);
        assert(x * pow2(s as nat) == 2 * (x * h)) by (nonlinear_arith)
            requires
                pow2(s as nat) == 2 * h,
        ;
        assert(x * h >= 0) by (nonlinear_arith)
            requires
                h > 0,
        ;
        lemma_shl_is_mul(x, t);
        let y = x << t;
        assert(y < 0x8000_0000_0000_0000_0000_0000_0000_0000) by {
            lemma_pow2_128();
        }
        assert(x << s == 2 * y) by (bit_vector)
            requires
                y == x << t,
                s == t + 1,
                s < 128,
                y < 0x8000_0000_0000_0000_0000_0000_0000_0000u128,
        ;
    }
}

/// A reflected word of `w0` bits, moved to the top of a word of `w` bits,
/// holds the same polynomial.
pub proof fn lemma_reflect_widen(v: nat, w0: nat, w: nat)
    requires
        v < pow2(w0),
        w0 <= w,
    ensures
        reflect(v * pow2((w - w0) as nat), w) == reflect(v, w0),
        v * pow2((w - w0) as nat) < pow2(w),
{
    lemma_reflect_shifted(v, w0, (w - w0) as nat, w);
    lemma2_to64();
    let x = reflect(v, w0);
    let one = pow2(0);
    assert(x * one == x) by (nonlinear_arith)
        requires
            one == 1,
    ;
    lemma_pow2_adds(w0, (w - w0) as nat);
    let a = pow2(w0);
    let b = pow2((w - w0) as nat);
    lemma_pow2_pos((w - w0) as nat);
    assert(v * b < a * b) by (nonlinear_arith)
        requires
            v < a,
            b > 0,
    ;
}

/// A reflected word of `w` bits holds a polynomial below `X^w0` exactly
/// when its low `w - w0` bits are zero; its top `w0` bits then hold the
/// same polynomial.
pub proof fn lemma_reflect_narrow(x: nat, w0: nat, w: nat)
    requires
        w0 <= w,
    ensures
        x % pow2((w - w0) as nat) == 0 <==> reflect(x, w) < pow2(w0),
        x % pow2((w - w0) as nat) == 0 ==> reflect(x / pow2((w - w0) as nat), w0) == reflect(x, w),
{
    let s = (w - w0) as nat;
    let low = x % pow2(s);
    let top = reflect(low, s);
    let p = pow2(w0);
    lemma_pow2_pos(s);
    lemma_pow2_pos(w0);
    lemma_reflect_split(x, s, w0);
    lemma_reflect_bound(x / pow2(s), w0);
    lemma_mod_bound(x as int, pow2(s) as int);
    if low == 0 {
        lemma_reflect_zero(s);
        assert(top * p == 0) by (nonlinear_arith)
            requires
                top == 0,
        ;
    } else {
        lemma_reflect_nonzero(low, s);
        assert(top * p >= p) by (nonlinear_arith)
            requires
                top >= 1,
                p > 0,
        ;
    }
}

/// Shifting a 128-bit word right divides it by a power of two.
pub proof fn lemma_shr_is_div(x: u128, s: u32)
    requires
        s < 128,
    ensures
        (x >> s) == x as nat / pow2(s as nat),
    decreases s,
{
    lemma2_to64();
    if s == 0 {
        assert(x >> 0u32 == x) by (bit_vector);
        assert(x as nat / 1 == x);
    } else {
        let t = (s - 1) as u32;
        lemma_shr_is_div(x, t);
        lemma_pow2_pos(t as nat);
        lemma_pow2_unfold(s as nat);
        let y = x >> t;
        assert(x >> s == y / 2) by (bit_vector)
            requires
                y == x >> t,
                s == t + 1,
                s < 128,
        ;
        vstd::arithmetic::div_mod::lemma_div_denominator(x as int, pow2(t as nat) as int, 2);
        assert(pow2(t as nat) * 2 == pow2(s as nat));
    }
}

/// The value of `2^128`, `2^127`, `2^96` and `2^64`.
pub proof fn lemma_pow2_128()
    ensures
        pow2(128) == 0x1_0000_0000_0000_0000_0000_0000_0000_0000,
        pow2(127) == 0x8000_0000_0000_0000_0000_0000_0000_0000,
        pow2(96) == 0x1_0000_0000_0000_0000_0000_0000,
        pow2(64) == 0x1_0000_0000_0000_0000,
        pow2(32) == 0x1_0000_0000,
{
    lemma2_to64();
    lemma_pow2_adds(64, 64);
    lemma_pow2_adds(64, 32);
    lemma_pow2_unfold(128);
}

} // verus!
