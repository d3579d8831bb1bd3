//! The bit-serial CRC32 of the textbooks, and its agreement with the
//! remainder of polynomial division.
//!
//! The register starts at the initial value. Each byte of the message is
//! added to the low byte of the register, and the register then moves
//! down by one bit eight times, the reflected generator being added
//! whenever a set bit leaves. The final value is added at the end.

use vstd::prelude::*;
use vstd::arithmetic::power2::{lemma2_to64, lemma_pow2_unfold, pow2};
use crate::bits::{
    lemma_pow2_128, lemma_reflect_bound, lemma_reflect_involution, lemma_reflect_zero,
    lemma_xor_is_add, lemma_xor_poly32, poly32, reflect,
};
use crate::crc_model::{
    byte_poly, CRC32Properties, crc_dividend, crc_spec, generator_poly, lemma_bit_round,
    lemma_generator, lemma_register_bytes, lemma_register_words, lemma_stream_push, message_poly,
    table_entry,
};
use crate::forge_model::lemma_dividend_concat;
use crate::gf2::{monomial, poly_add, poly_mul, poly_rem};
use crate::gf2_div::{lemma_rem_add, lemma_rem_small};
use crate::gf2_ring::{lemma_mul_distrib_left, lemma_mul_monomial, lemma_mul_zero};

verus! {

/// The generator without its leading term, in the bit order of the
/// register.
pub open spec fn reflected_generator(g: u32) -> u32 {
    reflect(g as nat, 32) as u32
}

/// The register after one bit.
pub open spec fn serial_bit(reg: u32, gr: u32) -> u32 {
    if reg & 1 == 1 {
        (reg >> 1) ^ gr
    } else {
        reg >> 1
    }
}

/// The register after `k` bits.
pub open spec fn serial_bits(reg: u32, gr: u32, k: nat) -> u32
    decreases k,
{
    if k == 0 {
        reg
    } else {
        serial_bit(serial_bits(reg, gr, (k - 1) as nat), gr)
    }
}

/// The register after one byte of the message.
pub open spec fn serial_byte(reg: u32, gr: u32, b: u8) -> u32 {
    serial_bits(reg ^ (b as u32), gr, 8)
}

/// The register after the bytes of `d`.
pub open spec fn serial_register(init: u32, gr: u32, d: Seq<u8>) -> u32
    decreases d.len(),
{
    if d.len() == 0 {
        init
    } else {
        serial_byte(serial_register(init, gr, d.drop_last()), gr, d.last())
    }
}

/// The checksum of `d` by the bit-serial algorithm.
pub open spec fn serial_crc(props: CRC32Properties, d: Seq<u8>) -> u32 {
    serial_register(props.init_xor, reflected_generator(props.g), d) ^ props.final_xor
}

/// The reflected generator holds the generator's polynomial.
pub proof fn lemma_reflected_generator(g: u32)
    ensures
        poly32(reflected_generator(g)) == g,
{
    lemma_pow2_128();
    lemma_reflect_bound(g as nat, 32);
    lemma_reflect_involution(g as nat, 32);
}

/// `k` bits of the bit-serial algorithm multiply the register's
/// polynomial by `X^k` modulo the generator.
pub proof fn lemma_serial_bits(reg: u32, g: u32, x: nat, k: nat)
    requires
        poly32(reg) == poly_rem(x, generator_poly(g)),
    ensures
        poly32(serial_bits(reg, reflected_generator(g), k)) == poly_rem(
            x * pow2(k),
            generator_poly(g),
        ),
    decreases k,
{
    let gr = reflected_generator(g);
    lemma2_to64();
    if k == 0 {
        assert(x * pow2(0) == x) by (nonlinear_arith)
            requires
                pow2(0) == 1,
        ;
    } else {
        let n = (k - 1) as nat;
        let c = serial_bits(reg, gr, n);
        lemma_serial_bits(reg, g, x, n);
        lemma_reflected_generator(g);
        lemma_bit_round(c, gr, g, x * pow2(n));
        lemma_register_words(c, 0);
        lemma_xor_is_add((c >> 1) as u128, gr as u128);
        lemma_pow2_unfold(k);
        let p = pow2(n);
        assert(2 * (x * p) == x * (2 * p)) by (nonlinear_arith);
    }
}

/// One byte of the bit-serial algorithm takes the remainder of a dividend
/// to that of the dividend with the byte appended.
pub proof fn lemma_serial_byte(reg: u32, g: u32, b: u8, dv: nat)
    requires
        poly32(reg) == poly_rem(dv, generator_poly(g)),
    ensures
        poly32(serial_byte(reg, reflected_generator(g), b)) == poly_rem(
            poly_add(poly_mul(dv, monomial(8)), poly_mul(byte_poly(b), monomial(32))),
            generator_poly(g),
        ),
{
    let m = generator_poly(g);
    let bp = byte_poly(b);
    lemma2_to64();
    lemma_pow2_128();
    lemma_generator(g);
    // the byte, added to the low byte of the register, is bp * X^24
    lemma_register_bytes(b as nat, 0);
    vstd::arithmetic::div_mod::lemma_small_mod(b as nat, 256);
    vstd::arithmetic::div_mod::lemma_basic_div(b as int, 256);
    lemma_reflect_zero(24);
    let shifted = bp * pow2(24);
    assert(poly32(b as u32) == shifted);
    lemma_xor_poly32(reg, b as u32);
    lemma_reflect_bound(b as nat, 32);
    // the register then holds the remainder of dv + bp * X^24
    let x = poly_add(dv, shifted);
    lemma_rem_add(dv, shifted, m);
    lemma_rem_small(shifted, m);
    lemma_serial_bits(reg ^ (b as u32), g, x, 8);
    // (dv + bp * X^24) * X^8 == dv * X^8 + bp * X^32
    lemma_mul_monomial(x, 8);
    lemma_mul_distrib_left(dv, shifted, monomial(8));
    lemma_mul_monomial(shifted, 8);
    lemma_mul_monomial(bp, 32);
    assert((bp * pow2(24)) * pow2(8) == bp * pow2(32)) by (nonlinear_arith)
        requires
            pow2(24) == 0x100_0000,
            pow2(8) == 0x100,
            pow2(32) == 0x1_0000_0000,
    ;
}

/// The register of the bit-serial algorithm holds the remainder of the
/// dividend of the bytes read so far.
pub proof fn lemma_serial_register(init: u32, g: u32, d: Seq<u8>)
    ensures
        poly32(serial_register(init, reflected_generator(g), d)) == poly_rem(
            crc_dividend(init, d),
            generator_poly(g),
        ),
    decreases d.len(),
{
    let m = generator_poly(g);
    lemma2_to64();
    lemma_pow2_128();
    lemma_generator(g);
    if d.len() == 0 {
        // the dividend of the empty message is the initial value
        lemma_mul_zero(monomial(32));
        lemma_mul_monomial(poly32(init), 0);
        assert(poly32(init) * pow2(0) == poly32(init)) by (nonlinear_arith)
            requires
                pow2(0) == 1,
        ;
        lemma_reflect_bound(init as nat, 32);
        lemma_rem_small(poly32(init), m);
    } else {
        let rest = d.drop_last();
        let b = d.last();
        lemma_serial_register(init, g, rest);
        let reg = serial_register(init, reflected_generator(g), rest);
        lemma_serial_byte(reg, g, b, crc_dividend(init, rest));
        let one = seq![b];
        assert(rest + one =~= d);
        lemma_dividend_concat(init, rest, one);
        lemma_stream_push(0, Seq::<u8>::empty(), b);
        assert(one =~= Seq::<u8>::empty().push(b));
        assert(message_poly(one) == byte_poly(b));
    }
}

/// The checksum, defined as a remainder of polynomial division, is the
/// checksum that the bit-serial algorithm computes, for every message and
/// all parameters.
pub proof fn lemma_serial_crc(props: CRC32Properties, d: Seq<u8>)
    ensures
        crc_spec(props, d) == serial_crc(props, d),
{
    let gr = reflected_generator(props.g);
    let reg = serial_register(props.init_xor, gr, d);
    lemma_serial_register(props.init_xor, props.g, d);
    lemma_xor_poly32(reg, props.final_xor);
    lemma_pow2_128();
    lemma_reflect_involution((reg ^ props.final_xor) as nat, 32);
}

/// The entry of the lookup table for a byte is what eight bits of the
/// bit-serial algorithm make of the byte.
pub proof fn lemma_serial_table(g: u32, i: u8)
    ensures
        poly32(serial_bits(i as u32, reflected_generator(g), 8)) == table_entry(g, i),
{
    let m = generator_poly(g);
    let bp = byte_poly(i);
    lemma2_to64();
    lemma_pow2_128();
    lemma_generator(g);
    lemma_register_bytes(i as nat, 0);
    vstd::arithmetic::div_mod::lemma_small_mod(i as nat, 256);
    vstd::arithmetic::div_mod::lemma_basic_div(i as int, 256);
    lemma_reflect_zero(24);
    let x = bp * pow2(24);
    assert(poly32(i as u32) == x);
    lemma_reflect_bound(i as nat, 32);
    lemma_rem_small(x, m);
    lemma_serial_bits(i as u32, g, x, 8);
    lemma_mul_monomial(bp, 32);
    assert((bp * pow2(24)) * pow2(8) == bp * pow2(32)) by (nonlinear_arith)
        requires
            pow2(24) == 0x100_0000,
            pow2(8) == 0x100,
            pow2(32) == 0x1_0000_0000,
    ;
}

} // verus!
