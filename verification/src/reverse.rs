//! Reversal of the bit order of a machine word.

use vstd::prelude::*;
use vstd::arithmetic::power2::{lemma2_to64, lemma_pow2_unfold, pow2};
use vstd::arithmetic::div_mod::{lemma_basic_div, lemma_small_mod};
use crate::bits::{lemma_pow2_128, lemma_reflect_split, lemma_reflect_zero, reflect};

verus! {

/// The reversal of a 32-bit word by swapping neighbours, then pairs, then
/// nibbles, bytes and halves.
spec fn swapped32(n: u32) -> u32 {
    let a = ((n >> 1) & 0x5555_5555) | ((n & 0x5555_5555) << 1);
    let b = ((a >> 2) & 0x3333_3333) | ((a & 0x3333_3333) << 2);
    let c = ((b >> 4) & 0xf0f_0f0f) | ((b & 0xf0f_0f0f) << 4);
    let d = ((c >> 8) & 0xff_00ff) | ((c & 0xff_00ff) << 8);
    (d >> 16) | (d << 16)
}

/// The word with its low `i` and its high `i` bits set.
spec fn ends32(i: u32) -> u32 {
    !(0xffff_ffffu32 << i) | !(0xffff_ffffu32 >> i)
}

proof fn lemma_swapped32_step(n: u32, res: u32, i: u32)
    by (bit_vector)
    requires
        i < 16,
        res == swapped32(n) & ends32(i),
    ensures
        (res | (((n >> (31 - i) as u32) & 1) << i)) | (((n >> i) & 1) << (31 - i) as u32)
            == swapped32(n) & ends32((i + 1) as u32),
{
}

proof fn lemma_swapped32_ends(n: u32)
    by (bit_vector)
    ensures
        swapped32(n) & ends32(0) == 0,
        swapped32(n) & ends32(16) == swapped32(n),
        swapped32(0) == 0,
        swapped32(n) == (swapped32(n / 2) / 2) + (if n % 2 == 1 {
            0x8000_0000u32
        } else {
            0u32
        }),
        swapped32(n / 2) % 2 == 0,
{
}

proof fn lemma_swapped32_is_reflect(n: u32)
    ensures
        swapped32(n) == reflect(n as nat, 32),
    decreases n,
{
    lemma_swapped32_ends(n);
    lemma2_to64();
    lemma_pow2_128();
    lemma_pow2_unfold(32);
    lemma_pow2_unfold(31);
    if n == 0 {
        lemma_reflect_zero(32);
    } else {
        let h = n / 2;
        lemma_swapped32_is_reflect(h);
        // h fits in 31 bits, so its reversal over 32 bits is twice the one over 31
        lemma_reflect_split(h as nat, 31, 1);
        lemma_small_mod(h as nat, pow2(31));
        lemma_basic_div(h as int, pow2(31) as int);
        let x = reflect(h as nat, 31);
        let two = pow2(1);
        assert(x * two == 2 * x) by (nonlinear_arith)
            requires
                two == 2,
        ;
        lemma_reflect_zero(1);
    }
}

/// Reverses the order of the 32 bits of `n`.
pub fn reverse_u32(n: u32) -> (res: u32)
    ensures
        res == reflect(n as nat, 32),
{
    let mut res = 0u32;
    proof {
        lemma_swapped32_ends(n);
    }
    for i in 0u32..16u32
        invariant
            res == swapped32(n) & ends32(i),
    {
        proof {
            lemma_swapped32_step(n, res, i);
        }
        res |= ((n >> (31 - i)) & 1) << i;
        res |= ((n >> i) & 1) << (31 - i);
    }
    proof {
        lemma_swapped32_ends(n);
        lemma_swapped32_is_reflect(n);
    }
    res
}

/// The reversal of a 64-bit word by swapping neighbours, then pairs,
/// nibbles, bytes and so on up to the two halves.
spec fn swapped64(n: u64) -> u64 {
    let a = ((n >> 1) & 0x5555_5555_5555_5555) | ((n & 0x5555_5555_5555_5555) << 1);
    let b = ((a >> 2) & 0x3333_3333_3333_3333) | ((a & 0x3333_3333_3333_3333) << 2);
    let c = ((b >> 4) & 0xf0f_0f0f_0f0f_0f0f) | ((b & 0xf0f_0f0f_0f0f_0f0f) << 4);
    let d = ((c >> 8) & 0xff_00ff_00ff_00ff) | ((c & 0xff_00ff_00ff_00ff) << 8);
    let e = ((d >> 16) & 0xffff_0000_ffff) | ((d & 0xffff_0000_ffff) << 16);
    (e >> 32) | (e << 32)
}

/// The word with its low `i` and its high `i` bits set.
spec fn ends64(i: u64) -> u64 {
    !(0xffff_ffff_ffff_ffffu64 << i) | !(0xffff_ffff_ffff_ffffu64 >> i)
}

proof fn lemma_swapped64_step(n: u64, res: u64, i: u64)
    by (bit_vector)
    requires
        i < 32,
        res == swapped64(n) & ends64(i),
    ensures
        (res | (((n >> (63 - i) as u64) & 1) << i)) | (((n >> i) & 1) << (63 - i) as u64)
            == swapped64(n) & ends64((i + 1) as u64),
{
}

proof fn lemma_swapped64_ends(n: u64)
    by (bit_vector)
    ensures
        swapped64(n) & ends64(0) == 0,
        swapped64(n) & ends64(32) == swapped64(n),
        swapped64(0) == 0,
        swapped64(n) == (swapped64(n / 2) / 2) + (if n % 2 == 1 {
            0x8000_0000_0000_0000u64
        } else {
            0u64
        }),
        swapped64(n / 2) % 2 == 0,
{
}

proof fn lemma_swapped64_is_reflect(n: u64)
    ensures
        swapped64(n) == reflect(n as nat, 64),
    decreases n,
{
    lemma_swapped64_ends(n);
    lemma2_to64();
    lemma_pow2_128();
    lemma_pow2_unfold(64);
    lemma_pow2_unfold(63);
    if n == 0 {
        lemma_reflect_zero(64);
    } else {
        let h = n / 2;
        lemma_swapped64_is_reflect(h);
        // h fits in 63 bits, so its reversal over 64 bits is twice the one over 63
        lemma_reflect_split(h as nat, 63, 1);
        lemma_small_mod(h as nat, pow2(63));
        lemma_basic_div(h as int, pow2(63) as int);
        let x = reflect(h as nat, 63);
        let two = pow2(1);
        assert(x * two == 2 * x) by (nonlinear_arith)
            requires
                two == 2,
        ;
        lemma_reflect_zero(1);
    }
}

/// Reverses the order of the 64 bits of `n`.
pub fn reverse_u64(n: u64) -> (res: u64)
    ensures
        res == reflect(n as nat, 64),
{
    let mut res = 0u64;
    proof {
        lemma_swapped64_ends(n);
    }
    for i in 0u64..32u64
        invariant
            res == swapped64(n) & ends64(i),
    {
        proof {
            lemma_swapped64_step(n, res, i);
        }
        res |= ((n >> (63 - i)) & 1) << i;
        res |= ((n >> i) & 1) << (63 - i);
    }
    proof {
        lemma_swapped64_ends(n);
        lemma_swapped64_is_reflect(n);
    }
    res
}

/// The reversal of a 128-bit word by swapping neighbours, then pairs,
/// nibbles, bytes and so on up to the two halves.
spec fn swapped128(n: u128) -> u128 {
    let a = ((n >> 1) & 0x5555_5555_5555_5555_5555_5555_5555_5555) | ((n & 0x5555_5555_5555_5555_5555_5555_5555_5555) << 1);
    let b = ((a >> 2) & 0x3333_3333_3333_3333_3333_3333_3333_3333) | ((a & 0x3333_3333_3333_3333_3333_3333_3333_3333) << 2);
    let c = ((b >> 4) & 0xf0f_0f0f_0f0f_0f0f_0f0f_0f0f_0f0f_0f0f) | ((b & 0xf0f_0f0f_0f0f_0f0f_0f0f_0f0f_0f0f_0f0f) << 4);
    let d = ((c >> 8) & 0xff_00ff_00ff_00ff_00ff_00ff_00ff_00ff) | ((c & 0xff_00ff_00ff_00ff_00ff_00ff_00ff_00ff) << 8);
    let e = ((d >> 16) & 0xffff_0000_ffff_0000_ffff_0000_ffff) | ((d & 0xffff_0000_ffff_0000_ffff_0000_ffff) << 16);
    let f = ((e >> 32) & 0xffff_ffff_0000_0000_ffff_ffff) | ((e & 0xffff_ffff_0000_0000_ffff_ffff) << 32);
    (f >> 64) | (f << 64)
}

/// The word with its low `i` and its high `i` bits set.
spec fn ends128(i: u128) -> u128 {
    !(0xffff_ffff_ffff_ffff_ffff_ffff_ffff_ffffu128 << i) | !(0xffff_ffff_ffff_ffff_ffff_ffff_ffff_ffffu128 >> i)
}

proof fn lemma_swapped128_step(n: u128, res: u128, i: u128)
    by (bit_vector)
    requires
        i < 64,
        res == swapped128(n) & ends128(i),
    ensures
        (res | (((n >> (127 - i) as u128) & 1) << i)) | (((n >> i) & 1) << (127 - i) as u128)
            == swapped128(n) & ends128((i + 1) as u128),
{
}

proof fn lemma_swapped128_ends(n: u128)
    by (bit_vector)
    ensures
        swapped128(n) & ends128(0) == 0,
        swapped128(n) & ends128(64) == swapped128(n),
        swapped128(0) == 0,
        swapped128(n) == (swapped128(n / 2) / 2) + (if n % 2 == 1 {
            0x8000_0000_0000_0000_0000_0000_0000_0000u128
        } else {
            0u128
        }),
        swapped128(n / 2) % 2 == 0,
{
}

proof fn lemma_swapped128_is_reflect(n: u128)
    ensures
        swapped128(n) == reflect(n as nat, 128),
    decreases n,
{
    lemma_swapped128_ends(n);
    lemma2_to64();
    lemma_pow2_128();
    lemma_pow2_unfold(128);
    lemma_pow2_unfold(127);
    if n == 0 {
        lemma_reflect_zero(128);
    } else {
        let h = n / 2;
        lemma_swapped128_is_reflect(h);
        // h fits in 127 bits, so its reversal over 128 bits is twice the one over 127
        lemma_reflect_split(h as nat, 127, 1);
        lemma_small_mod(h as nat, pow2(127));
        lemma_basic_div(h as int, pow2(127) as int);
        let x = reflect(h as nat, 127);
        let two = pow2(1);
        assert(x * two == 2 * x) by (nonlinear_arith)
            requires
                two == 2,
        ;
        lemma_reflect_zero(1);
    }
}

/// Reverses the order of the 128 bits of `n`.
pub fn reverse_u128(n: u128) -> (res: u128)
    ensures
        res == reflect(n as nat, 128),
{
    let mut res = 0u128;
    proof {
        lemma_swapped128_ends(n);
    }
    for i in 0u128..64u128
        invariant
            res == swapped128(n) & ends128(i),
    {
        proof {
            lemma_swapped128_step(n, res, i);
        }
        res |= ((n >> (127 - i)) & 1) << i;
        res |= ((n >> i) & 1) << (127 - i);
    }
    proof {
        lemma_swapped128_ends(n);
        lemma_swapped128_is_reflect(n);
    }
    res
}

} // verus!
