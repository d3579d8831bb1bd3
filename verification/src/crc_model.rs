//! What a CRC is, as a remainder of polynomial division.
//!
//! A message is read as a polynomial over GF(2): its first byte holds the
//! coefficients of highest degree, and within each byte bit 0 is the
//! highest of its eight. The checksum of the message is the remainder of
//! that polynomial times `X^32`, with the initial value added to its top
//! 32 coefficients, divided by the generator; the final value is added to
//! the remainder.

use vstd::prelude::*;
use vstd::arithmetic::power2::{lemma2_to64, lemma_pow2_adds, pow2};
use crate::bits::{
    lemma_pow2_128, lemma_reflect_add, lemma_reflect_bound, lemma_reflect_split, poly32, reflect,
};
use crate::gf2::{leading_term, monomial, poly_add, poly_deg, poly_mul, poly_rem};
use crate::gf2_div::{lemma_rem_add, lemma_rem_mul_left, lemma_rem_small};
use crate::gf2_ring::{lemma_add_disjoint, lemma_deg_unique, lemma_mul_monomial};
use crate::schoolbook::lemma_division_round;

verus! {

/// The parameters of a CRC32: the generator polynomial without its leading
/// term `X^32`, bit 31 being the coefficient of `X^31`, and the values
/// that the register is combined with before and after the division.
#[derive(Clone, Copy, Debug, PartialEq, Eq, Structural)]
pub struct CRC32Properties {
    /// The generator, without `X^32`, in normal bit order.
    pub g: u32,
    /// Added to the register before the first byte.
    pub init_xor: u32,
    /// Added to the register after the last byte.
    pub final_xor: u32,
}

impl Default for CRC32Properties {
    /// The CRC32 of zip and Ethernet.
    fn default() -> (res: Self)
        ensures
            res == (CRC32Properties { g: 0x04c11db7, init_xor: 0xffffffff, final_xor: 0xffffffff }),
    {
        CRC32Properties { g: 0x04c11db7, init_xor: 0xffffffff, final_xor: 0xffffffff }
    }
}

/// The full generator polynomial `X^32 + g`.
pub open spec fn generator_poly(g: u32) -> nat {
    pow2(32) + g as nat
}

/// The polynomial of degree below 8 that a byte of a message holds.
pub open spec fn byte_poly(b: u8) -> nat {
    reflect(b as nat, 8)
}

/// The polynomial `acc` followed by the bytes of `d`:
/// `acc * X^(8 * len(d))` plus the polynomial of the bytes.
pub open spec fn stream_poly(acc: nat, d: Seq<u8>) -> nat
    decreases d.len(),
{
    if d.len() == 0 {
        acc
    } else {
        256 * stream_poly(acc, d.drop_last()) + byte_poly(d.last())
    }
}

/// The polynomial that a message holds.
pub open spec fn message_poly(d: Seq<u8>) -> nat {
    stream_poly(0, d)
}

/// The entry of the lookup table for the byte `i`: the remainder of the
/// byte's polynomial times `X^32`.
pub open spec fn table_entry(g: u32, i: u8) -> nat {
    poly_rem(poly_mul(byte_poly(i), monomial(32)), generator_poly(g))
}

/// The register after the bytes of `d` have gone through it, starting
/// from `init`: the remainder of the register's polynomial followed by
/// the bytes, as a reflected word.
pub open spec fn remainder_spec(g: u32, d: Seq<u8>, init: u32) -> u32 {
    reflect(poly_rem(stream_poly(poly32(init), d), generator_poly(g)), 32) as u32
}

/// What is divided by the generator to get the checksum of `d`: the
/// message times `X^32`, with the initial value added to its first four
/// bytes.
pub open spec fn crc_dividend(init_xor: u32, d: Seq<u8>) -> nat {
    poly_add(
        poly_mul(message_poly(d), monomial(32)),
        poly_mul(poly32(init_xor), monomial(8 * d.len())),
    )
}

/// The checksum of `d` as a polynomial.
pub open spec fn crc_poly(props: CRC32Properties, d: Seq<u8>) -> nat {
    poly_add(
        poly_rem(crc_dividend(props.init_xor, d), generator_poly(props.g)),
        poly32(props.final_xor),
    )
}

/// The checksum of `d`: its polynomial as a reflected word.
pub open spec fn crc_spec(props: CRC32Properties, d: Seq<u8>) -> u32 {
    reflect(crc_poly(props, d), 32) as u32
}

/// The four bytes of a register, lowest byte first: the bytes of a
/// message that hold the register's polynomial.
pub open spec fn le_bytes_spec(reg: u32) -> Seq<u8> {
    seq![
        (reg % 256) as u8,
        ((reg / 0x100) % 256) as u8,
        ((reg / 0x1_0000) % 256) as u8,
        (reg / 0x100_0000) as u8,
    ]
}

/// As bytes of a message, the bytes of a register hold its polynomial.
pub proof fn lemma_le_bytes(reg: u32)
    ensures
        le_bytes_spec(reg).len() == 4,
        message_poly(le_bytes_spec(reg)) == poly32(reg),
{
    let b0 = (reg % 256) as u8;
    let b1 = ((reg / 0x100) % 256) as u8;
    let b2 = ((reg / 0x1_0000) % 256) as u8;
    let b3 = (reg / 0x100_0000) as u8;
    lemma2_to64();
    lemma_pow2_128();
    let r = reg as nat;
    lemma_reflect_split(r, 8, 24);
    lemma_reflect_split(r / 256, 8, 16);
    lemma_reflect_split(r / 256 / 256, 8, 8);
    assert(r / 256 / 256 == r / 0x1_0000);
    assert(r / 0x1_0000 / 256 == r / 0x100_0000);
    vstd::arithmetic::div_mod::lemma_small_mod(r / 0x100_0000, 256);
    let r0 = byte_poly(b0);
    let r1 = byte_poly(b1);
    let r2 = byte_poly(b2);
    let r3 = byte_poly(b3);
    let pow24 = pow2(24);
    let pow16 = pow2(16);
    let pow8 = pow2(8);
    assert(poly32(reg) == r0 * pow24 + (r1 * pow16 + (r2 * pow8 + r3)));
    assert(r0 * pow24 + (r1 * pow16 + (r2 * pow8 + r3)) == 256 * (256 * (256 * r0 + r1) + r2) + r3)
        by (nonlinear_arith)
        requires
            pow24 == 0x100_0000,
            pow16 == 0x1_0000,
            pow8 == 0x100,
    ;
    let e = Seq::<u8>::empty();
    lemma_stream_push(0, e, b0);
    lemma_stream_push(0, e.push(b0), b1);
    lemma_stream_push(0, e.push(b0).push(b1), b2);
    lemma_stream_push(0, e.push(b0).push(b1).push(b2), b3);
    assert(le_bytes_spec(reg) =~= e.push(b0).push(b1).push(b2).push(b3));
}

/// The bit-wise and byte-wise operations on the register, as arithmetic.
pub proof fn lemma_register_words(reg: u32, b: u8)
    by (bit_vector)
    ensures
        (reg >> 8) | ((b as u32) << 24) == reg / 256 + (b as u32) * 0x100_0000,
        reg & 0xff == reg % 256,
        reg & 1 == reg % 2,
        reg >> 1 == reg / 2,
        reg >> 8 == reg / 256,
        reg >> 16 == reg / 0x1_0000,
        reg >> 24 == reg / 0x100_0000,
        (reg >> 8) & 0xff == (reg / 256) % 256,
        (reg >> 16) & 0xff == (reg / 0x1_0000) % 256,
        (reg >> 24) & 0xff == reg / 0x100_0000,
{
}

/// The generator has degree 32.
pub proof fn lemma_generator(g: u32)
    ensures
        generator_poly(g) >= 2,
        poly_deg(generator_poly(g)) == 32,
        leading_term(generator_poly(g)) == pow2(32),
{
    lemma_pow2_128();
    lemma_deg_unique(generator_poly(g), 32);
}

/// A byte more at the end of the stream.
pub proof fn lemma_stream_push(acc: nat, d: Seq<u8>, b: u8)
    ensures
        stream_poly(acc, d.push(b)) == 256 * stream_poly(acc, d) + byte_poly(b),
{
    assert(d.push(b).drop_last() =~= d);
}

/// The stream is the start value moved up by the length of the bytes,
/// plus the bytes' own polynomial, which stays below that.
pub proof fn lemma_stream_split(acc: nat, d: Seq<u8>)
    ensures
        stream_poly(acc, d) == acc * pow2(8 * d.len()) + message_poly(d),
        message_poly(d) < pow2(8 * d.len()),
    decreases d.len(),
{
    lemma2_to64();
    if d.len() == 0 {
        assert(acc * pow2(0) == acc) by (nonlinear_arith)
            requires
                pow2(0) == 1,
        ;
    } else {
        let rest = d.drop_last();
        lemma_stream_split(acc, rest);
        lemma_reflect_bound(d.last() as nat, 8);
        let p = pow2(8 * rest.len());
        lemma_pow2_adds(8 * rest.len(), 8);
        assert(8 * rest.len() + 8 == 8 * d.len());
        assert(pow2(8 * d.len()) == p * 256);
        assert(acc * (p * 256) == 256 * (acc * p)) by (nonlinear_arith);
    }
}

/// Messages of one length that hold the same polynomial are the same.
pub proof fn lemma_message_unique(a: Seq<u8>, b: Seq<u8>)
    requires
        a.len() == b.len(),
        message_poly(a) == message_poly(b),
    ensures
        a == b,
    decreases a.len(),
{
    if a.len() > 0 {
        lemma2_to64();
        lemma_reflect_bound(a.last() as nat, 8);
        lemma_reflect_bound(b.last() as nat, 8);
        crate::bits::lemma_reflect_involution(a.last() as nat, 8);
        crate::bits::lemma_reflect_involution(b.last() as nat, 8);
        lemma_message_unique(a.drop_last(), b.drop_last());
        assert(a =~= a.drop_last().push(a.last()));
        assert(b =~= b.drop_last().push(b.last()));
    } else {
        assert(a =~= b);
    }
}

/// Reading two runs of bytes one after the other is reading their
/// concatenation.
pub proof fn lemma_stream_concat(acc: nat, d1: Seq<u8>, d2: Seq<u8>)
    ensures
        stream_poly(acc, d1 + d2) == stream_poly(stream_poly(acc, d1), d2),
    decreases d2.len(),
{
    if d2.len() == 0 {
        assert(d1 + d2 =~= d1);
    } else {
        lemma_stream_concat(acc, d1, d2.drop_last());
        assert((d1 + d2).drop_last() =~= d1 + d2.drop_last());
        assert((d1 + d2).last() == d2.last());
    }
}

/// A polynomial moved up by a byte, with coefficients below `X^8` added.
pub proof fn lemma_byte_shift(x: nat, r: nat)
    requires
        r < 256,
    ensures
        256 * x + r == poly_add(poly_mul(x, monomial(8)), r),
{
    lemma2_to64();
    lemma_mul_monomial(x, 8);
    lemma_add_disjoint(x, r, 8);
}

/// The remainder after one more byte depends on the stream so far only
/// through its remainder.
pub proof fn lemma_rem_next_byte(x: nat, r: nat, m: nat)
    requires
        m >= 1,
        r < 256,
    ensures
        poly_rem(256 * x + r, m) == poly_rem(256 * poly_rem(x, m) + r, m),
{
    lemma_byte_shift(x, r);
    lemma_byte_shift(poly_rem(x, m), r);
    lemma_rem_add(poly_mul(x, monomial(8)), r, m);
    lemma_rem_add(poly_mul(poly_rem(x, m), monomial(8)), r, m);
    lemma_rem_mul_left(x, monomial(8), m);
}

/// Where the bytes of a reflected 32-bit register sit in its polynomial:
/// the low byte holds the top eight coefficients.
pub proof fn lemma_register_bytes(reg: nat, b: nat)
    requires
        reg < pow2(32),
        b < 256,
    ensures
        reflect(reg, 32) == reflect(reg % 256, 8) * pow2(24) + reflect(reg / 256, 24),
        reflect(reg / 256, 24) < pow2(24),
        reflect(reg / 256 + b * pow2(24), 32) == 256 * reflect(reg / 256, 24) + reflect(b, 8),
{
    lemma2_to64();
    lemma_reflect_split(reg, 8, 24);
    lemma_reflect_bound(reg / 256, 24);
    let w = reg / 256 + b * pow2(24);
    let h = reg / 256;
    assert(h < pow2(24));
    lemma_reflect_split(w, 24, 8);
    assert(w == b * pow2(24) + h);
    vstd::arithmetic::div_mod::lemma_fundamental_div_mod_converse(
        w as int,
        pow2(24) as int,
        b as int,
        h as int,
    );
    let x = reflect(h, 24);
    let pow8 = pow2(8);
    assert(x * pow8 == 256 * x) by (nonlinear_arith)
        requires
            pow8 == 256,
    ;
}

/// One bit of the generator's division, on a reflected register: the
/// register moves down by one bit, and the reflected generator is added
/// when the bit that left was set.
pub proof fn lemma_bit_round(c: u32, gr: u32, g: u32, x: nat)
    requires
        poly32(gr) == g,
        poly32(c) == poly_rem(x, generator_poly(g)),
    ensures
        ({
            let c2 = if c % 2 == 1 {
                poly_add((c / 2) as nat, gr as nat)
            } else {
                (c / 2) as nat
            };
            &&& c2 < pow2(32)
            &&& reflect(c2, 32) == poly_rem(2 * x, generator_poly(g))
        }),
{
    lemma_pow2_128();
    let m = generator_poly(g);
    let sb = c as nat;
    vstd::arithmetic::div_mod::lemma_small_mod(sb, pow2(32));
    vstd::arithmetic::div_mod::lemma_basic_div(sb as int, pow2(32) as int);
    lemma_division_round(sb, gr as nat, 32, m, x);
    let c2 = if c % 2 == 1 {
        poly_add((c / 2) as nat, gr as nat)
    } else {
        (c / 2) as nat
    };
    crate::gf2_ring::lemma_add_bound((c / 2) as nat, gr as nat, 32);
    vstd::arithmetic::div_mod::lemma_small_mod(c2, pow2(32));
    assert((sb / pow2(32)) % 2 == 0);
}

/// One byte through the lookup table, on a reflected register: the
/// register moves down by a byte, the new byte comes in at the top, and
/// the table entry of the byte that left is added.
pub proof fn lemma_byte_round(reg: u32, b: u8, entry: u32, g: u32, x: nat)
    requires
        poly32(reg) == poly_rem(x, generator_poly(g)),
        poly32(entry) == table_entry(g, (reg % 256) as u8),
    ensures
        reg / 256 + b * pow2(24) < pow2(32),
        reflect(poly_add((reg / 256 + b * pow2(24)) as nat, entry as nat), 32) == poly_rem(
            256 * x + byte_poly(b),
            generator_poly(g),
        ),
{
    lemma_pow2_128();
    lemma2_to64();
    let m = generator_poly(g);
    lemma_generator(g);
    let w = (reg / 256 + b * pow2(24)) as nat;
    let hi = reflect(reg as nat % 256, 8);
    let lo = reflect(reg as nat / 256, 24);
    let rb = byte_poly(b);
    lemma_register_bytes(reg as nat, b as nat);
    lemma_reflect_bound(b as nat, 8);
    lemma_reflect_bound(reg as nat % 256, 8);
    lemma_reflect_add(w, entry as nat, 32);
    // 256 * poly32(reg) + rb == hi * X^32 + (256 * lo + rb)
    let rest = 256 * lo + rb;
    assert(rest < pow2(32));
    assert(256 * (hi * pow2(24)) == hi * pow2(32)) by (nonlinear_arith)
        requires
            pow2(32) == 256 * pow2(24),
    ;
    lemma_add_disjoint(hi, rest, 32);
    lemma_mul_monomial(hi, 32);
    lemma_rem_add(poly_mul(hi, monomial(32)), rest, m);
    lemma_rem_small(rest, m);
    lemma_rem_next_byte(x, rb, m);
    crate::gf2_ring::lemma_add_comm(rest, poly32(entry));
}

} // verus!
