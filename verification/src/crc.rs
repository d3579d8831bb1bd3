//! The CRC32 engine: the lookup table, checksums, and the patches that
//! force a checksum.

use vstd::prelude::*;
use vstd::arithmetic::power2::{lemma2_to64, lemma_pow2_adds, pow2};
use crate::bit_serial::{
    lemma_serial_crc, lemma_serial_table, reflected_generator, serial_bits, serial_crc,
};
use crate::bits::{
    lemma_pow2_128, lemma_reflect_bound, lemma_reflect_involution, lemma_reflect_zero,
    lemma_xor_is_add, lemma_xor_poly32, lemma_xor_poly64, poly32, reflect,
};
use crate::crc_model::{
    byte_poly, CRC32Properties, crc_dividend, crc_poly, crc_spec, generator_poly, le_bytes_spec,
    lemma_bit_round, lemma_byte_round, lemma_generator, lemma_le_bytes, lemma_register_bytes,
    lemma_register_words, lemma_rem_next_byte, lemma_stream_concat, lemma_stream_push,
    lemma_stream_split, message_poly, remainder_spec, stream_poly, table_entry,
};
use crate::error::{CRCResult, Error};
use crate::forge_model::{
    inserted_poly, inserted_spec, lemma_generator_invertible, lemma_inserted_round_trip,
    lemma_monomial_invertible, lemma_suffix_round_trip, lemma_suffix_word, suffix_poly, suffix_spec,
    suffix_word,
};
use crate::gf2::{invertible, is_inverse, monomial, poly_add, poly_inverse, poly_mul, poly_rem};
use crate::gf2_div::{lemma_rem_bound, lemma_rem_small};
use crate::gf2_inverse::{lemma_inverse_is, lemma_inverse_of_rem, lemma_pow_monomial};
use crate::gf2_ring::{
    lemma_add_assoc, lemma_add_bound, lemma_add_cancel, lemma_add_disjoint, lemma_mul_monomial,
};
use crate::math::{Polynomial, PolynomialRepr};

verus! {

/// The four bytes that spell a reflected register, lowest byte first. As
/// bytes of a message they hold the register's polynomial.
pub fn le_bytes(reg: u32) -> (res: [u8; 4])
    ensures
        res@ == le_bytes_spec(reg),
        message_poly(res@) == poly32(reg),
{
    let b0 = (reg & 0xff) as u8;
    let b1 = ((reg >> 8) & 0xff) as u8;
    let b2 = ((reg >> 16) & 0xff) as u8;
    let b3 = ((reg >> 24) & 0xff) as u8;
    let res = [b0, b1, b2, b3];
    proof {
        lemma_register_words(reg, 0);
        lemma_le_bytes(reg);
        assert(res@ =~= le_bytes_spec(reg));
    }
    res
}

/// Builds the lookup table of the generator `g`: for each byte, eight
/// rounds of the bit-serial division on the reflected register.
fn build_table(g: u32) -> (table: Vec<u32>)
    ensures
        table@.len() == 256,
        forall|i: int| 0 <= i < 256 ==> poly32(#[trigger] table@[i]) == table_entry(g, i as u8),
{
    let gr = crate::reverse::reverse_u32(g);
    let mut table: Vec<u32> = Vec::new();
    proof {
        lemma_pow2_128();
        lemma_reflect_involution(g as nat, 32);
    }
    for i in 0u32..256u32
        invariant
            poly32(gr) == g,
            table@.len() == i,
            forall|j: int| 0 <= j < i ==> poly32(#[trigger] table@[j]) == table_entry(g, j as u8),
    {
        let mut c: u32 = i;
        let ghost mut x: nat = poly32(i);
        proof {
            lemma2_to64();
            lemma_pow2_128();
            lemma_generator(g);
            lemma_reflect_bound(i as nat, 32);
            lemma_rem_small(x, generator_poly(g));
            assert(x * pow2(0) == x) by (nonlinear_arith)
                requires
                    pow2(0) == 1,
            ;
        }
        for k in 0u32..8u32
            invariant
                poly32(gr) == g,
                poly32(c) == poly_rem(x, generator_poly(g)),
                x == poly32(i) * pow2(k as nat),
        {
            proof {
                lemma_bit_round(c, gr, g, x);
                lemma_register_words(c, 0);
                lemma_xor_is_add((c >> 1) as u128, gr as u128);
                vstd::arithmetic::power2::lemma_pow2_unfold((k + 1) as nat);
                let p = pow2(k as nat);
                let a = poly32(i);
                assert(2 * (a * p) == a * (2 * p)) by (nonlinear_arith);
                x = 2 * x;
            }
            c = if c & 1 == 1 {
                (c >> 1) ^ gr
            } else {
                c >> 1
            };
        }
        proof {
            // poly32(i) * X^8 == byte_poly(i) * X^32
            lemma2_to64();
            lemma_register_bytes(i as nat, 0);
            vstd::arithmetic::div_mod::lemma_small_mod(i as nat, 256);
            vstd::arithmetic::div_mod::lemma_basic_div(i as int, 256);
            lemma_reflect_zero(24);
            let b = byte_poly(i as u8);
            assert(poly32(i) == b * pow2(24));
            assert((b * pow2(24)) * pow2(8) == b * pow2(32)) by (nonlinear_arith)
                requires
                    pow2(24) == 0x100_0000,
                    pow2(8) == 0x100,
                    pow2(32) == 0x1_0000_0000,
            ;
            lemma_mul_monomial(b, 32);
        }
        table.push(c);
    }
    table
}

/// A CRC32 with its lookup table and the inverse of `X^32`, ready to
/// compute checksums and to forge them.
pub struct CRC32 {
    props: CRC32Properties,
    /// The full generator `X^32 + g`.
    generator: Polynomial<u64>,
    /// For each byte, the remainder of its polynomial times `X^32`.
    table: Vec<u32>,
    /// The inverse of `X^32` modulo the generator.
    xn_inv: Polynomial<u64>,
}

impl CRC32 {
    #[verifier::type_invariant]
    spec fn well_formed(&self) -> bool {
        &&& self.table@.len() == 256
        &&& forall|i: int|
            0 <= i < 256 ==> poly32(#[trigger] self.table@[i]) == table_entry(self.props.g, i as u8)
        &&& self.generator@ == generator_poly(self.props.g)
        &&& is_inverse(monomial(32), self.xn_inv@, generator_poly(self.props.g))
    }

    /// The parameters that the engine was built with.
    pub closed spec fn properties(&self) -> CRC32Properties {
        self.props
    }

    /// Builds the engine for the given parameters: the lookup table and the
    /// inverse of `X^32` modulo the full generator. Fails when `X^32` has
    /// no inverse, which is when the generator lacks the term `X^0`.
    pub fn new(props: CRC32Properties) -> (res: CRCResult<CRC32>)
        ensures
            res is Ok <==> invertible(monomial(32), generator_poly(props.g)),
            res is Ok <==> props.g % 2 == 1,
            res matches Ok(crc) ==> crc.properties() == props,
            res matches Err(e) ==> e == Error::NonInvertibleError,
    {
        proof {
            lemma_generator_invertible(props.g);
        }
        let g = Polynomial::<u32>::from(PolynomialRepr::Normal(props.g));
        let xn = Polynomial::<u64>::from(PolynomialRepr::Normal(0x1_0000_0000u64));
        let g_wide = Polynomial::<u64>::from(g);
        let generator = xn + g_wide;
        proof {
            lemma_pow2_128();
            lemma_generator(props.g);
            lemma_xor_poly64(xn.0, g_wide.0);
            lemma_add_disjoint(1, props.g as nat, 32);
            assert(1 * pow2(32) == pow2(32)) by (nonlinear_arith);
        }
        let xn_inv = xn.inv_mod(generator)?;
        let table = build_table(props.g);
        Ok(CRC32 { props, generator, table, xn_inv })
    }

    /// The parameters that the engine was built with.
    pub fn props(&self) -> (res: CRC32Properties)
        ensures
            res == self.properties(),
    {
        self.props
    }

    /// The lookup table: entry `i` holds, in reflected form, the remainder
    /// of the polynomial of the byte `i` times `X^32`, which is what eight
    /// bits of the bit-serial algorithm make of the byte.
    pub fn table(&self) -> (res: &Vec<u32>)
        ensures
            res@.len() == 256,
            forall|i: int|
                0 <= i < 256 ==> poly32(#[trigger] res@[i]) == table_entry(
                    self.properties().g,
                    i as u8,
                ),
            forall|i: int|
                0 <= i < 256 ==> #[trigger] res@[i] == serial_bits(
                    i as u32,
                    reflected_generator(self.properties().g),
                    8,
                ),
    {
        proof {
            use_type_invariant(self);
            lemma_pow2_128();
            assert forall|i: int| 0 <= i < 256 implies #[trigger] self.table@[i] == serial_bits(
                i as u32,
                reflected_generator(self.props.g),
                8,
            ) by {
                let entry = serial_bits(i as u32, reflected_generator(self.props.g), 8);
                lemma_serial_table(self.props.g, i as u8);
                lemma_reflect_involution(entry as nat, 32);
                lemma_reflect_involution(self.table@[i] as nat, 32);
            }
        }
        &self.table
    }

    /// The inverse of `X^32` modulo the full generator.
    pub fn xn_inv(&self) -> (res: Polynomial<u64>)
        ensures
            res@ == poly_inverse(monomial(32), generator_poly(self.properties().g)),
            is_inverse(monomial(32), res@, generator_poly(self.properties().g)),
    {
        proof {
            use_type_invariant(self);
            lemma_generator(self.props.g);
            lemma_inverse_is(monomial(32), self.xn_inv@, generator_poly(self.props.g));
        }
        self.xn_inv
    }

    /// One byte through the lookup table.
    fn step(&self, reg: u32, byte: u8) -> (res: u32)
        ensures
            poly32(res) == poly_rem(
                256 * poly32(reg) + byte_poly(byte),
                generator_poly(self.props.g),
            ),
    {
        proof {
            use_type_invariant(self);
            lemma_pow2_128();
            lemma_register_words(reg, byte);
            lemma_generator(self.props.g);
            lemma_reflect_bound(reg as nat, 32);
            lemma_rem_small(poly32(reg), generator_poly(self.props.g));
        }
        let index = (reg & 0xff) as usize;
        let entry = self.table[index];
        let moved = (reg >> 8) | ((byte as u32) << 24);
        proof {
            lemma2_to64();
            lemma_byte_round(reg, byte, entry, self.props.g, poly32(reg));
            lemma_xor_is_add(moved as u128, entry as u128);
        }
        moved ^ entry
    }

    /// The register after the bytes `data[from..to]` have gone through it.
    fn remainder_of_range(&self, data: &[u8], from: usize, to: usize, init: u32) -> (res: u32)
        requires
            from <= to <= data@.len(),
        ensures
            res == remainder_spec(self.props.g, data@.subrange(from as int, to as int), init),
    {
        let mut reg = init;
        let ghost m = generator_poly(self.props.g);
        proof {
            lemma_pow2_128();
            lemma_generator(self.props.g);
            lemma_reflect_bound(init as nat, 32);
            lemma_rem_small(poly32(init), m);
        }
        for i in from..to
            invariant
                from <= to <= data@.len(),
                m == generator_poly(self.props.g),
                m >= 2,
                poly32(reg) == poly_rem(
                    stream_poly(poly32(init), data@.subrange(from as int, i as int)),
                    m,
                ),
        {
            proof {
                let seen = data@.subrange(from as int, i as int);
                assert(data@.subrange(from as int, i + 1) =~= seen.push(data@[i as int]));
                lemma_stream_push(poly32(init), seen, data@[i as int]);
                lemma2_to64();
                lemma_reflect_bound(data@[i as int] as nat, 8);
                lemma_rem_next_byte(stream_poly(poly32(init), seen), byte_poly(data@[i as int]), m);
            }
            reg = self.step(reg, data[i]);
        }
        proof {
            lemma_reflect_involution(reg as nat, 32);
        }
        reg
    }

    /// The register after the bytes of `data` have gone through it,
    /// starting from `initial_register`: the remainder of the register's
    /// polynomial followed by the bytes, without the initial and final
    /// values of the checksum.
    pub fn fast_rem(&self, data: &[u8], initial_register: u32) -> (res: u32)
        ensures
            res == remainder_spec(self.properties().g, data@, initial_register),
    {
        proof {
            assert(data@.subrange(0, data@.len() as int) =~= data@);
        }
        self.remainder_of_range(data, 0, data.len(), initial_register)
    }

    /// The checksum of `data`.
    ///
    /// The register is filled from the first four bytes of the message,
    /// padded with zero bytes, and combined with the initial value. Every
    /// further byte, and four zero bytes after the last, go through the
    /// lookup table. The final value is added at the end.
    ///
    /// The result is the remainder of the message's dividend with the
    /// final value added, which is the checksum that the bit-serial
    /// algorithm computes.
    pub fn checksum(&self, data: &[u8]) -> (res: u32)
        ensures
            res == crc_spec(self.properties(), data@),
            res == serial_crc(self.properties(), data@),
    {
        proof {
            lemma_serial_crc(self.props, data@);
        }
        let n = data.len();
        let ghost padded = data@ + seq![0u8, 0u8, 0u8, 0u8];
        let ghost m = generator_poly(self.props.g);
        let mut reg: u32 = 0;
        proof {
            lemma2_to64();
            lemma_reflect_zero(32);
            assert(padded.subrange(0, 0) =~= Seq::<u8>::empty());
        }
        for i in 0usize..4usize
            invariant
                n == data@.len(),
                padded == data@ + seq![0u8, 0u8, 0u8, 0u8],
                poly32(reg) == message_poly(padded.subrange(0, i as int)),
                poly32(reg) < pow2((8 * i) as nat),
        {
            let byte = if i < n {
                data[i]
            } else {
                0u8
            };
            proof {
                let seen = padded.subrange(0, i as int);
                assert(padded.subrange(0, i + 1) =~= seen.push(byte));
                lemma_stream_push(0, seen, byte);
                lemma_pow2_128();
                lemma2_to64();
                lemma_register_words(reg, byte);
                lemma_register_bytes(reg as nat, byte as nat);
                lemma_reflect_bound(byte as nat, 8);
                // the low byte of the register is still empty
                let hi = reflect(reg as nat % 256, 8);
                let lo = reflect(reg as nat / 256, 24);
                assert(hi == 0) by (nonlinear_arith)
                    requires
                        hi * pow2(24) + lo < pow2((8 * i) as nat),
                        pow2((8 * i) as nat) <= pow2(24),
                        hi >= 0,
                        lo >= 0,
                ;
                assert(hi * pow2(24) == 0) by (nonlinear_arith)
                    requires
                        hi == 0,
                ;
                lemma_pow2_adds((8 * i) as nat, 8);
            }
            reg = (reg >> 8) | ((byte as u32) << 24);
        }
        let ghost head = padded.subrange(0, 4);
        let ghost start = poly_add(message_poly(head), poly32(self.props.init_xor));
        proof {
            use_type_invariant(self);
            lemma_xor_poly32(reg, self.props.init_xor);
            lemma_generator(self.props.g);
            lemma_pow2_128();
            lemma_reflect_bound((reg ^ self.props.init_xor) as nat, 32);
            lemma_rem_small(start, m);
        }
        reg ^= self.props.init_xor;
        let ghost mut rest: Seq<u8> = Seq::empty();
        if n > 4 {
            reg = self.remainder_of_range(data, 4, n, reg);
            proof {
                rest = data@.subrange(4, n as int);
                lemma_reflect_bound(
                    poly_rem(stream_poly(start, rest), m),
                    32,
                );
                lemma_rem_bound(stream_poly(start, rest), m);
                lemma_reflect_involution(poly_rem(stream_poly(start, rest), m), 32);
            }
        }
        let zeros = if n < 4 {
            n
        } else {
            4
        };
        for k in 0..zeros
            invariant
                m == generator_poly(self.props.g),
                m >= 2,
                poly32(reg) == poly_rem(stream_poly(start, rest), m),
                rest.len() == (if n > 4 {
                    n - 4
                } else {
                    0
                }) + k,
                rest =~= padded.subrange(4, 4 + rest.len() as int),
                zeros <= 4,
                zeros <= n,
                n == data@.len(),
                padded == data@ + seq![0u8, 0u8, 0u8, 0u8],
        {
            proof {
                lemma_stream_push(start, rest, 0u8);
                lemma2_to64();
                lemma_reflect_zero(8);
                lemma_rem_next_byte(stream_poly(start, rest), byte_poly(0u8), m);
                rest = rest.push(0u8);
            }
            reg = self.step(reg, 0);
        }
        proof {
            // head followed by rest is the padded message
            assert(rest.len() == n);
            assert(head + rest =~= padded);
            lemma_checksum_dividend(self.props.init_xor, data@, head, rest);
            lemma_xor_poly32(reg, self.props.final_xor);
            lemma_reflect_involution((reg ^ self.props.final_xor) as nat, 32);
        }
        reg ^ self.props.final_xor
    }

    /// The polynomial of the four bytes that, appended to `data`, bring
    /// its checksum to `target_crc`: `((C' + F) * xn_inv) mod G + C + F`,
    /// with `C` the checksum of `data`, `C'` the target and `F` the final
    /// value.
    fn suffix_polynomial(&self, data: &[u8], target_crc: u32) -> (s: Polynomial<u32>)
        ensures
            s@ == suffix_poly(
                poly_rem(crc_dividend(self.props.init_xor, data@), generator_poly(self.props.g)),
                poly32(target_crc),
                poly32(self.props.final_xor),
                self.xn_inv@,
                generator_poly(self.props.g),
            ),
    {
        let c = Polynomial::<u32>::from(PolynomialRepr::Reverse(self.checksum(data)));
        let t = Polynomial::<u32>::from(PolynomialRepr::Reverse(target_crc));
        let f = Polynomial::<u32>::from(PolynomialRepr::Reverse(self.props.final_xor));
        let ghost m = generator_poly(self.props.g);
        let ghost r = poly_rem(crc_dividend(self.props.init_xor, data@), m);
        proof {
            use_type_invariant(self);
            lemma_pow2_128();
            lemma_generator(self.props.g);
            lemma_rem_bound(crc_dividend(self.props.init_xor, data@), m);
            lemma_reflect_bound(self.props.final_xor as nat, 32);
            lemma_add_bound(r, f@, 32);
            lemma_reflect_involution(crc_poly(self.props, data@), 32);
            lemma_reflect_bound(crc_poly(self.props, data@), 32);
            lemma_xor_poly32(t.0, f.0);
        }
        let product = (t + f) * self.xn_inv;
        let reduced = product % self.generator;
        proof {
            lemma_rem_bound(product@, m);
        }
        let u = Polynomial::<u32>::try_from(reduced).unwrap();
        let with_checksum = u + c;
        proof {
            lemma_xor_poly32(u.0, c.0);
            lemma_xor_poly32(with_checksum.0, f.0);
            // (u + c) + f == u + (r + f + f) == u + r
            lemma_add_assoc(u@, c@, f@);
            lemma_add_cancel(r, f@);
        }
        with_checksum + f
    }

    /// Four bytes that, appended to `data`, bring its checksum to
    /// `target_crc`.
    pub fn compute_suffix(&self, data: &[u8], target_crc: u32) -> (res: [u8; 4])
        ensures
            res@ == suffix_spec(self.properties(), data@, target_crc),
            crc_spec(self.properties(), data@ + res@) == target_crc,
    {
        let s = self.suffix_polynomial(data, target_crc);
        let res = le_bytes(s.repr());
        proof {
            use_type_invariant(self);
            let m = generator_poly(self.props.g);
            lemma_generator(self.props.g);
            lemma_pow2_128();
            lemma_inverse_is(monomial(32), self.xn_inv@, m);
            lemma_reflect_involution(s.0 as nat, 32);
            lemma_suffix_round_trip(self.props, data@, target_crc);
        }
        res
    }

    /// Four bytes that, inserted into `data` so that its last `offset`
    /// bytes come after them, bring its checksum to `target_crc`.
    ///
    /// Fails with `OutOfBoundsError` when `offset` is more than the length
    /// of `data`.
    pub fn compute_inserted(&self, data: &[u8], offset: usize, target_crc: u32) -> (res: CRCResult<
        [u8; 4],
    >)
        ensures
            res is Ok <==> offset <= data@.len(),
            res matches Err(e) ==> e == Error::OutOfBoundsError,
            res matches Ok(patch) ==> patch@ == inserted_spec(
                self.properties(),
                data@,
                offset as nat,
                target_crc,
            ),
            res matches Ok(patch) ==> crc_spec(
                self.properties(),
                data@.subrange(0, data@.len() - offset) + patch@ + data@.subrange(
                    data@.len() - offset,
                    data@.len() as int,
                ),
            ) == target_crc,
    {
        let n = data.len();
        if offset > n {
            return Err(Error::OutOfBoundsError);
        }
        let end_offset = n - offset;
        let ghost m = generator_poly(self.props.g);
        let ghost tail = data@.subrange(end_offset as int, n as int);
        let ghost k = 8 * tail.len();
        proof {
            use_type_invariant(self);
            lemma_pow2_128();
            lemma2_to64();
            lemma_generator(self.props.g);
            lemma_reflect_zero(32);
        }
        // The raw remainder of the bytes that come after the patch
        let tail_rem = Polynomial::<u32>::from(
            PolynomialRepr::Reverse(self.remainder_of_range(data, end_offset, n, 0)),
        );
        proof {
            lemma_rem_bound(message_poly(tail), m);
            lemma_reflect_involution(poly_rem(message_poly(tail), m), 32);
            lemma_reflect_bound(poly_rem(message_poly(tail), m), 32);
        }
        // X^M and its inverse, for the M bits that come after the patch
        let x8 = Polynomial::<u64>::from(PolynomialRepr::Normal(0x100u64));
        let xm = x8.pow_mod(offset, self.generator);
        proof {
            lemma_pow_monomial(8, offset as nat);
            lemma_inverse_is(monomial(32), self.xn_inv@, m);
            lemma_monomial_invertible(k, m);
            lemma_inverse_of_rem(monomial(k), m);
        }
        // every monomial has an inverse where `X^32` has one
        let xm_inv = xm.inv_mod(self.generator).unwrap();
        proof {
            lemma_inverse_is(xm@, xm_inv@, m);
        }
        // The patch that would do after the last byte
        let s = self.suffix_polynomial(data, target_crc);
        // 1 + X^32 modulo the generator
        let one = Polynomial::<u32>::from(PolynomialRepr::Normal(1u32));
        let g = Polynomial::<u32>::from(PolynomialRepr::Normal(self.props.g));
        let scale = one + g;
        proof {
            lemma_xor_poly32(one.0, g.0);
        }
        let moved = (tail_rem * scale) % self.generator;
        let s_wide = Polynomial::<u64>::from(s);
        let combined = s_wide + moved;
        proof {
            lemma_xor_poly64(s_wide.0, moved.0);
        }
        let reduced = (combined * xm_inv) % self.generator;
        proof {
            lemma_rem_bound(poly_mul(combined@, xm_inv@), m);
        }
        let patch = Polynomial::<u32>::try_from(reduced).unwrap();
        let res = le_bytes(patch.repr());
        proof {
            assert(tail =~= data@.subrange(data@.len() - offset, data@.len() as int));
            lemma_suffix_word(self.props, data@, target_crc);
            assert(patch@ == inserted_poly(
                poly32(suffix_word(self.props, data@, target_crc)),
                poly_rem(message_poly(tail), m),
                self.props.g as nat,
                poly_inverse(monomial(k), m),
                m,
            ));
            lemma_reflect_involution(patch.0 as nat, 32);
            lemma_inserted_round_trip(self.props, data@, offset as nat, target_crc);
        }
        Ok(res)
    }
}

/// The register's polynomial after the first four bytes of the padded
/// message and the initial value, followed by the rest of the padded
/// message, is the dividend of the checksum.
proof fn lemma_checksum_dividend(init_xor: u32, d: Seq<u8>, head: Seq<u8>, rest: Seq<u8>)
    requires
        head.len() == 4,
        rest.len() == d.len(),
        head + rest == d + seq![0u8, 0u8, 0u8, 0u8],
    ensures
        stream_poly(poly_add(message_poly(head), poly32(init_xor)), rest) == crc_dividend(
            init_xor,
            d,
        ),
{
    let i = poly32(init_xor);
    let mh = message_poly(head);
    let mr = message_poly(rest);
    let n8 = 8 * d.len();
    let xn = monomial(n8);
    let zeros = seq![0u8, 0u8, 0u8, 0u8];
    lemma2_to64();
    // the stream is (mh + i) * xn + mr, as polynomials
    lemma_stream_split(poly_add(mh, i), rest);
    lemma_add_disjoint(poly_add(mh, i), mr, n8);
    lemma_mul_monomial(poly_add(mh, i), n8);
    crate::gf2_ring::lemma_mul_distrib_left(mh, i, xn);
    // mh * xn + mr is the padded message
    lemma_stream_concat(0, head, rest);
    lemma_stream_split(mh, rest);
    lemma_add_disjoint(mh, mr, n8);
    lemma_mul_monomial(mh, n8);
    // the padded message is the message times X^32
    lemma_stream_concat(0, d, zeros);
    lemma_stream_split(message_poly(d), zeros);
    lemma_zero_bytes();
    lemma_mul_monomial(message_poly(d), 32);
    assert(8 * zeros.len() == 32);
    // regroup: (a + b) + c == (a + c) + b
    let a = poly_mul(mh, xn);
    let b = poly_mul(i, xn);
    lemma_add_assoc(a, b, mr);
    crate::gf2_ring::lemma_add_comm(b, mr);
    lemma_add_assoc(a, mr, b);
}

/// Four zero bytes hold the zero polynomial.
proof fn lemma_zero_bytes()
    ensures
        message_poly(seq![0u8, 0u8, 0u8, 0u8]) == 0,
{
    let e = Seq::<u8>::empty();
    lemma_reflect_zero(8);
    lemma_stream_push(0, e, 0u8);
    lemma_stream_push(0, e.push(0u8), 0u8);
    lemma_stream_push(0, e.push(0u8).push(0u8), 0u8);
    lemma_stream_push(0, e.push(0u8).push(0u8).push(0u8), 0u8);
    assert(seq![0u8, 0u8, 0u8, 0u8] =~= e.push(0u8).push(0u8).push(0u8).push(0u8));
}

} // verus!
