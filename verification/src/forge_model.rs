//! Why the patches reach their target: the algebra behind the forging.

use vstd::prelude::*;
use vstd::arithmetic::power2::{lemma2_to64, pow2};
use crate::bits::{lemma_pow2_128, lemma_reflect_bound, lemma_reflect_involution, poly32, reflect};
use crate::crc_model::{
    CRC32Properties, crc_dividend, crc_spec, generator_poly, le_bytes_spec, lemma_generator,
    lemma_le_bytes, lemma_stream_concat, lemma_stream_split, message_poly,
};
use crate::gf2::{invertible, is_inverse, monomial, poly_add, poly_inverse, poly_mul, poly_rem};
use crate::gf2_inverse::{
    lemma_factor_invertible, lemma_inverse_exists, lemma_monomial_mul, lemma_pow_invertible,
    lemma_pow_x,
};
use crate::gf2_div::{
    lemma_rem_add, lemma_rem_add_congruent, lemma_rem_bound, lemma_rem_mul_congruent,
    lemma_rem_mul_left, lemma_rem_mul_right, lemma_rem_multiple, lemma_rem_rem, lemma_rem_small,
};
use crate::gf2_ring::{
    lemma_add_assoc, lemma_add_bound, lemma_add_cancel, lemma_add_comm, lemma_add_disjoint,
    lemma_mul_assoc, lemma_mul_comm, lemma_mul_distrib_left, lemma_mul_distrib_right,
    lemma_mul_monomial, lemma_mul_one,
};

verus! {

/// The dividend of a message followed by more bytes, from the dividend of
/// the message: `D(d1 ++ d2) == D(d1) * X^(8 * len(d2)) + M(d2) * X^32`.
pub proof fn lemma_dividend_concat(init_xor: u32, d1: Seq<u8>, d2: Seq<u8>)
    ensures
        crc_dividend(init_xor, d1 + d2) == poly_add(
            poly_mul(crc_dividend(init_xor, d1), monomial(8 * d2.len())),
            poly_mul(message_poly(d2), monomial(32)),
        ),
{
    let i = poly32(init_xor);
    let m1 = message_poly(d1);
    let m2 = message_poly(d2);
    let xk = monomial(8 * d2.len());
    let x32 = monomial(32);
    let xn = monomial(8 * d1.len());
    // M(d1 ++ d2) == M(d1) * xk + M(d2)
    lemma_stream_concat(0, d1, d2);
    lemma_stream_split(m1, d2);
    lemma_add_disjoint(m1, m2, 8 * d2.len());
    lemma_mul_monomial(m1, 8 * d2.len());
    let m = message_poly(d1 + d2);
    assert(m == poly_add(poly_mul(m1, xk), m2));
    // M * x32 == (m1 * x32) * xk + m2 * x32
    lemma_mul_distrib_left(poly_mul(m1, xk), m2, x32);
    lemma_mul_assoc(m1, xk, x32);
    lemma_mul_comm(xk, x32);
    lemma_mul_assoc(m1, x32, xk);
    // i * X^(8 * (n1 + n2)) == (i * xn) * xk
    lemma_monomial_mul(8 * d1.len(), 8 * d2.len());
    assert(8 * d1.len() + 8 * d2.len() == 8 * (d1 + d2).len());
    lemma_mul_assoc(i, xn, xk);
    // regroup
    let a = poly_mul(poly_mul(m1, x32), xk);
    let b = poly_mul(m2, x32);
    let c = poly_mul(poly_mul(i, xn), xk);
    lemma_mul_distrib_left(poly_mul(m1, x32), poly_mul(i, xn), xk);
    lemma_add_assoc(a, b, c);
    lemma_add_comm(b, c);
    lemma_add_assoc(a, c, b);
}

/// The polynomial of four bytes appended to a message that reaches the
/// target: with `r` the remainder of the message's dividend and `xi` the
/// inverse of `X^32`, it is `(t + f) * xi mod G + r`.
pub open spec fn suffix_poly(r: nat, t: nat, f: nat, xi: nat, m: nat) -> nat {
    poly_add(poly_rem(poly_mul(poly_add(t, f), xi), m), r)
}

/// Appending the suffix polynomial to a dividend with remainder `r` gives a
/// dividend with remainder `t + f`.
pub proof fn lemma_suffix_reaches(dv: nat, t: nat, f: nat, xi: nat, m: nat)
    requires
        m >= 2,
        poly_rem(poly_mul(monomial(32), xi), m) == 1,
        poly_add(t, f) < crate::gf2::leading_term(m),
    ensures
        poly_rem(
            poly_add(
                poly_mul(dv, monomial(32)),
                poly_mul(suffix_poly(poly_rem(dv, m), t, f, xi, m), monomial(32)),
            ),
            m,
        ) == poly_add(t, f),
{
    let x32 = monomial(32);
    let r = poly_rem(dv, m);
    let tf = poly_add(t, f);
    let u = poly_rem(poly_mul(tf, xi), m);
    let s = poly_add(u, r);
    // dv * x32 + s * x32 == (dv + s) * x32
    lemma_mul_distrib_left(dv, s, x32);
    // (dv + s) mod m == r + (u + r) == u
    lemma_rem_add(dv, s, m);
    lemma_rem_bound(dv, m);
    lemma_rem_bound(poly_mul(tf, xi), m);
    lemma_add_bound(u, r, crate::gf2::poly_deg(m));
    lemma_rem_small(s, m);
    lemma_add_cancel(u, r);
    assert(poly_rem(poly_add(dv, s), m) == u);
    // ((dv + s) * x32) mod m == (u * x32) mod m == (tf * xi * x32) mod m
    lemma_rem_mul_left(poly_add(dv, s), x32, m);
    lemma_rem_mul_left(poly_mul(tf, xi), x32, m);
    lemma_mul_assoc(tf, xi, x32);
    lemma_mul_comm(xi, x32);
    lemma_rem_mul_right(tf, poly_mul(x32, xi), m);
    lemma_mul_one(tf);
    lemma_rem_small(tf, m);
}

/// The suffix polynomial fits in four bytes.
pub proof fn lemma_suffix_bound(r: nat, t: nat, f: nat, xi: nat, g: u32)
    requires
        r < pow2(32),
    ensures
        suffix_poly(r, t, f, xi, generator_poly(g)) < pow2(32),
{
    let m = generator_poly(g);
    lemma_generator(g);
    lemma_rem_bound(poly_mul(poly_add(t, f), xi), m);
    lemma_add_bound(poly_rem(poly_mul(poly_add(t, f), xi), m), r, 32);
}

/// The register that holds the polynomial of the forged suffix: with `C`
/// the checksum of `d`, `C'` the target, `F` the final value and `xn_inv`
/// the inverse of `X^32`, it is `((C' + F) * xn_inv) mod G + C + F`, where
/// `C + F` is the remainder of the dividend of `d`.
pub open spec fn suffix_word(props: CRC32Properties, d: Seq<u8>, target_crc: u32) -> u32 {
    let m = generator_poly(props.g);
    reflect(
        suffix_poly(
            poly_rem(crc_dividend(props.init_xor, d), m),
            poly32(target_crc),
            poly32(props.final_xor),
            poly_inverse(monomial(32), m),
            m,
        ),
        32,
    ) as u32
}

/// The four bytes that, appended to `d`, bring its checksum to
/// `target_crc`.
pub open spec fn suffix_spec(props: CRC32Properties, d: Seq<u8>, target_crc: u32) -> Seq<u8> {
    le_bytes_spec(suffix_word(props, d, target_crc))
}

/// The register that holds the polynomial of the inserted patch: with `S`
/// the polynomial of the forged suffix of `d`, `T` the polynomial of the
/// last `offset` bytes of `d` and `M` their length in bits, it is
/// `((S + T * (1 + X^32)) * (X^M)^-1) mod G`.
pub open spec fn inserted_word(
    props: CRC32Properties,
    d: Seq<u8>,
    offset: nat,
    target_crc: u32,
) -> u32 {
    let m = generator_poly(props.g);
    let tail = d.subrange(d.len() - offset, d.len() as int);
    reflect(
        inserted_poly(
            poly32(suffix_word(props, d, target_crc)),
            poly_rem(message_poly(tail), m),
            props.g as nat,
            poly_inverse(monomial(8 * offset), m),
            m,
        ),
        32,
    ) as u32
}

/// The four bytes that, inserted into `d` before its last `offset` bytes,
/// bring its checksum to `target_crc`.
pub open spec fn inserted_spec(
    props: CRC32Properties,
    d: Seq<u8>,
    offset: nat,
    target_crc: u32,
) -> Seq<u8> {
    le_bytes_spec(inserted_word(props, d, offset, target_crc))
}

/// The polynomial of four bytes inserted before a tail that reaches the
/// same remainder as the suffix polynomial `s` appended to the whole
/// message: with `sr` the remainder of the tail, `g` the generator below
/// `X^32` and `y` the inverse of the monomial of the tail's length, it is
/// `(s + sr * (1 + g)) * y mod G`.
pub open spec fn inserted_poly(s: nat, sr: nat, g: nat, y: nat, m: nat) -> nat {
    poly_rem(poly_mul(poly_add(s, poly_rem(poly_mul(sr, poly_add(1, g)), m)), y), m)
}

/// A patch inserted before a tail of `k` bits leaves the remainder that
/// the suffix polynomial `s` leaves when appended after the tail.
///
/// `dp` is the dividend of the bytes before the patch, `su` the polynomial
/// of the tail, `g` the generator below `X^32`.
pub proof fn lemma_inserted_reaches(dp: nat, su: nat, k: nat, s: nat, g: u32, y: nat)
    requires
        poly_rem(poly_mul(monomial(k), y), generator_poly(g)) == 1,
    ensures
        ({
            let m = generator_poly(g);
            let tp = inserted_poly(s, poly_rem(su, m), g as nat, y, m);
            let whole = poly_add(poly_mul(dp, monomial(k)), poly_mul(su, monomial(32)));
            poly_rem(
                poly_add(
                    poly_mul(
                        poly_add(poly_mul(dp, monomial(32)), poly_mul(tp, monomial(32))),
                        monomial(k),
                    ),
                    poly_mul(su, monomial(32)),
                ),
                m,
            ) == poly_rem(poly_add(poly_mul(whole, monomial(32)), poly_mul(s, monomial(32))), m)
        }),
{
    let m = generator_poly(g);
    lemma_generator(g);
    lemma_pow2_128();
    let x32 = monomial(32);
    let xk = monomial(k);
    let sr = poly_rem(su, m);
    let one_g = poly_add(1, g as nat);
    let v = poly_rem(poly_mul(sr, one_g), m);
    let w = poly_add(s, v);
    let tp = poly_rem(poly_mul(w, y), m);
    let whole = poly_add(poly_mul(dp, xk), poly_mul(su, x32));
    let one_x = poly_add(1, x32);
    // 1 + g is congruent to 1 + X^32
    assert(poly_rem(one_g, m) == poly_rem(one_x, m)) by {
        // X^32 == 1 * G + g
        lemma_mul_one(m);
        lemma_add_disjoint(1, g as nat, 32);
        assert(1 * pow2(32) == pow2(32)) by (nonlinear_arith);
        assert(m == poly_add(x32, g as nat));
        lemma_add_cancel(x32, g as nat);
        assert(x32 == poly_add(m, g as nat));
        lemma_rem_add(m, g as nat, m);
        lemma_rem_multiple(1, m);
        assert(poly_rem(x32, m) == poly_rem(g as nat, m));
        lemma_rem_add(1, g as nat, m);
        lemma_rem_add(1, x32, m);
    }
    // v is congruent to su * (1 + X^32) == su + su * X^32
    let sx = poly_mul(su, x32);
    assert(poly_rem(v, m) == poly_rem(poly_add(su, sx), m)) by {
        lemma_rem_rem(poly_mul(sr, one_g), m);
        lemma_rem_mul_left(su, one_g, m);
        lemma_rem_mul_congruent(one_g, one_x, su, m);
        lemma_mul_distrib_right(su, 1, x32);
        lemma_mul_one(su);
    }
    // tp * xk is congruent to w, which is congruent to s + su + su * X^32
    let z = poly_add(s, poly_add(su, sx));
    assert(poly_rem(poly_mul(tp, xk), m) == poly_rem(z, m)) by {
        lemma_rem_mul_left(poly_mul(w, y), xk, m);
        lemma_mul_assoc(w, y, xk);
        lemma_mul_comm(y, xk);
        lemma_rem_mul_right(w, poly_mul(xk, y), m);
        lemma_mul_one(w);
        lemma_rem_add_congruent(v, poly_add(su, sx), s, m);
    }
    // left side: ((dp + tp) * x32) * xk + sx == (dp * xk + tp * xk) * x32 + sx
    let lhs = poly_add(
        poly_mul(poly_add(poly_mul(dp, x32), poly_mul(tp, x32)), xk),
        poly_mul(su, x32),
    );
    let dk = poly_mul(dp, xk);
    let tk = poly_mul(tp, xk);
    assert(lhs == poly_add(poly_mul(poly_add(dk, tk), x32), sx)) by {
        lemma_mul_distrib_left(dp, tp, x32);
        lemma_mul_assoc(poly_add(dp, tp), x32, xk);
        lemma_mul_comm(x32, xk);
        lemma_mul_assoc(poly_add(dp, tp), xk, x32);
        lemma_mul_distrib_left(dp, tp, xk);
    }
    // replace tp * xk by z under the remainder
    let lhs2 = poly_add(poly_mul(poly_add(dk, z), x32), sx);
    assert(poly_rem(lhs, m) == poly_rem(lhs2, m)) by {
        lemma_rem_add_congruent(tk, z, dk, m);
        lemma_rem_mul_congruent(poly_add(dk, tk), poly_add(dk, z), x32, m);
        lemma_rem_add_congruent(
            poly_mul(poly_add(dk, tk), x32),
            poly_mul(poly_add(dk, z), x32),
            sx,
            m,
        );
    }
    // (dk + s + su + sx) * x32 + sx == (dk + sx) * x32 + s * x32 , as polynomials
    let rhs = poly_add(poly_mul(whole, x32), poly_mul(s, x32));
    assert(lhs2 == rhs) by {
        // dk + z == (dk + sx) + (s + su)
        lemma_add_comm(su, sx);
        lemma_add_assoc(s, sx, su);
        lemma_add_comm(s, sx);
        lemma_add_assoc(sx, s, su);
        assert(z == poly_add(sx, poly_add(s, su)));
        lemma_add_assoc(dk, sx, poly_add(s, su));
        assert(poly_add(dk, z) == poly_add(whole, poly_add(s, su)));
        lemma_mul_distrib_left(whole, poly_add(s, su), x32);
        lemma_mul_distrib_left(s, su, x32);
        // whole * x32 + (s * x32 + sx) + sx
        lemma_add_assoc(poly_mul(whole, x32), poly_add(poly_mul(s, x32), sx), sx);
        lemma_add_cancel(poly_mul(s, x32), sx);
    }
}

/// The checksum reaches the target once the suffix polynomial stands
/// after a dividend `whole`.
pub proof fn lemma_target_reached(props: CRC32Properties, whole: nat, target_crc: u32, xi: nat)
    requires
        is_inverse(monomial(32), xi, generator_poly(props.g)),
    ensures
        ({
            let m = generator_poly(props.g);
            let f = poly32(props.final_xor);
            let s = suffix_poly(poly_rem(whole, m), poly32(target_crc), f, xi, m);
            reflect(
                poly_add(
                    poly_rem(poly_add(poly_mul(whole, monomial(32)), poly_mul(s, monomial(32))), m),
                    f,
                ),
                32,
            ) == target_crc
        }),
{
    let m = generator_poly(props.g);
    let f = poly32(props.final_xor);
    let t = poly32(target_crc);
    lemma_pow2_128();
    lemma_generator(props.g);
    lemma_reflect_bound(props.final_xor as nat, 32);
    lemma_reflect_bound(target_crc as nat, 32);
    lemma_add_bound(t, f, 32);
    lemma_suffix_reaches(whole, t, f, xi, m);
    lemma_add_cancel(t, f);
    lemma_reflect_involution(target_crc as nat, 32);
}

/// The register of the forged suffix holds the suffix polynomial.
pub proof fn lemma_suffix_word(props: CRC32Properties, d: Seq<u8>, target_crc: u32)
    ensures
        poly32(suffix_word(props, d, target_crc)) == suffix_poly(
            poly_rem(crc_dividend(props.init_xor, d), generator_poly(props.g)),
            poly32(target_crc),
            poly32(props.final_xor),
            poly_inverse(monomial(32), generator_poly(props.g)),
            generator_poly(props.g),
        ),
{
    let m = generator_poly(props.g);
    let r = poly_rem(crc_dividend(props.init_xor, d), m);
    let s = suffix_poly(
        r,
        poly32(target_crc),
        poly32(props.final_xor),
        poly_inverse(monomial(32), m),
        m,
    );
    lemma_pow2_128();
    lemma_generator(props.g);
    lemma_rem_bound(crc_dividend(props.init_xor, d), m);
    lemma_suffix_bound(
        r,
        poly32(target_crc),
        poly32(props.final_xor),
        poly_inverse(monomial(32), m),
        props.g,
    );
    lemma_reflect_bound(s, 32);
    lemma_reflect_involution(s, 32);
}

/// Round trip of the forged suffix: appended to the message, it brings
/// the checksum to the target, whatever the message and the target.
pub proof fn lemma_suffix_round_trip(props: CRC32Properties, d: Seq<u8>, target_crc: u32)
    requires
        invertible(monomial(32), generator_poly(props.g)),
    ensures
        suffix_spec(props, d, target_crc).len() == 4,
        crc_spec(props, d + suffix_spec(props, d, target_crc)) == target_crc,
{
    let m = generator_poly(props.g);
    let xi = poly_inverse(monomial(32), m);
    let whole = crc_dividend(props.init_xor, d);
    lemma_generator(props.g);
    lemma_inverse_exists(monomial(32), m);
    lemma_suffix_word(props, d, target_crc);
    lemma_le_bytes(suffix_word(props, d, target_crc));
    lemma_dividend_concat(props.init_xor, d, suffix_spec(props, d, target_crc));
    lemma_target_reached(props, whole, target_crc, xi);
}

/// Only one run of four bytes brings the checksum to a given value: two
/// runs that give the same checksum after the same message are the same.
pub proof fn lemma_suffix_unique(props: CRC32Properties, d: Seq<u8>, s1: Seq<u8>, s2: Seq<u8>)
    requires
        invertible(monomial(32), generator_poly(props.g)),
        s1.len() == 4,
        s2.len() == 4,
        crc_spec(props, d + s1) == crc_spec(props, d + s2),
    ensures
        s1 == s2,
{
    let m = generator_poly(props.g);
    let f = poly32(props.final_xor);
    let x32 = monomial(32);
    let xi = poly_inverse(x32, m);
    let dv = poly_mul(crc_dividend(props.init_xor, d), x32);
    let m1 = message_poly(s1);
    let m2 = message_poly(s2);
    let t1 = poly_mul(m1, x32);
    let t2 = poly_mul(m2, x32);
    let r1 = poly_rem(crc_dividend(props.init_xor, d + s1), m);
    let r2 = poly_rem(crc_dividend(props.init_xor, d + s2), m);
    lemma_generator(props.g);
    lemma_pow2_128();
    lemma_inverse_exists(x32, m);
    // equal checksums are equal remainders
    lemma_rem_bound(crc_dividend(props.init_xor, d + s1), m);
    lemma_rem_bound(crc_dividend(props.init_xor, d + s2), m);
    lemma_reflect_bound(props.final_xor as nat, 32);
    lemma_add_bound(r1, f, 32);
    lemma_add_bound(r2, f, 32);
    lemma_reflect_involution(poly_add(r1, f), 32);
    lemma_reflect_involution(poly_add(r2, f), 32);
    lemma_reflect_bound(poly_add(r1, f), 32);
    lemma_reflect_bound(poly_add(r2, f), 32);
    lemma_add_cancel(r1, f);
    lemma_add_cancel(r2, f);
    assert(r1 == r2);
    // the dividends differ by (m1 + m2) * X^32
    lemma_dividend_concat(props.init_xor, d, s1);
    lemma_dividend_concat(props.init_xor, d, s2);
    assert(8 * s1.len() == 32 && 8 * s2.len() == 32);
    lemma_rem_add(dv, t1, m);
    lemma_rem_add(dv, t2, m);
    lemma_add_cancel(poly_rem(t1, m), poly_rem(dv, m));
    lemma_add_cancel(poly_rem(t2, m), poly_rem(dv, m));
    assert(poly_rem(t1, m) == poly_rem(t2, m));
    // multiplied by the inverse of X^32, the polynomials of the runs agree
    lemma_rem_mul_congruent(t1, t2, xi, m);
    lemma_mul_assoc(m1, x32, xi);
    lemma_mul_assoc(m2, x32, xi);
    lemma_rem_mul_right(m1, poly_mul(x32, xi), m);
    lemma_rem_mul_right(m2, poly_mul(x32, xi), m);
    lemma_mul_one(m1);
    lemma_mul_one(m2);
    lemma_stream_split(0, s1);
    lemma_stream_split(0, s2);
    lemma_rem_small(m1, m);
    lemma_rem_small(m2, m);
    crate::crc_model::lemma_message_unique(s1, s2);
}

/// Forging the checksum that a message already has leaves it as it is.
pub proof fn lemma_suffix_identity(props: CRC32Properties, d: Seq<u8>)
    requires
        invertible(monomial(32), generator_poly(props.g)),
    ensures
        crc_spec(props, d + suffix_spec(props, d, crc_spec(props, d))) == crc_spec(props, d),
{
    lemma_suffix_round_trip(props, d, crc_spec(props, d));
}

/// `X^32` has an inverse modulo the full generator exactly when the
/// generator has the term `X^0`.
pub proof fn lemma_generator_invertible(g: u32)
    ensures
        invertible(monomial(32), generator_poly(g)) <==> g % 2 == 1,
{
    let m = generator_poly(g);
    lemma_generator(g);
    lemma_pow2_128();
    lemma2_to64();
    let h = m / 2;
    if g % 2 == 1 {
        // X * h == G + 1, so h inverts X
        crate::gf2_ring::lemma_mul_double_left(1, h);
        lemma_mul_one(h);
        assert(poly_mul(2, h) == 2 * h);
        crate::gf2_ring::lemma_add_unfold(m, 1);
        crate::gf2_ring::lemma_add_zero(m / 2);
        assert(poly_add(m, 1) == 2 * h);
        lemma_rem_add(m, 1, m);
        lemma_mul_one(m);
        lemma_rem_multiple(1, m);
        crate::gf2_div::lemma_rem_one(m);
        assert(poly_rem(poly_mul(2, h), m) == 1);
        assert(invertible(2, m));
        lemma_pow_invertible(2, 32, m);
        lemma_pow_x(32);
    } else {
        // X divides both X^32 and G
        crate::gf2_ring::lemma_mul_double_left(1, h);
        lemma_mul_one(h);
        crate::gf2_ring::lemma_mul_comm(2, h);
        assert(m == poly_mul(h, 2));
        lemma_mul_monomial(2, 31);
        crate::gf2_ring::lemma_mul_comm(monomial(31), 2);
        vstd::arithmetic::power2::lemma_pow2_unfold(32);
        assert(2 * pow2(31) == monomial(32));
        assert(monomial(32) == poly_mul(monomial(31), 2));
        assert forall|r: nat| poly_rem(poly_mul(monomial(32), r), m) != 1 by {
            crate::gf2_div::lemma_common_factor_not_invertible(2, monomial(31), h, r);
        }
    }
}

/// If `X^32` has an inverse modulo `m`, so has every monomial.
pub proof fn lemma_monomial_invertible(k: nat, m: nat)
    requires
        m >= 2,
        invertible(monomial(32), m),
    ensures
        invertible(monomial(k), m),
{
    lemma2_to64();
    lemma_monomial_mul(1, 31);
    lemma_factor_invertible(monomial(1), monomial(31), m);
    assert(monomial(1) == 2);
    lemma_pow_invertible(2, k, m);
    lemma_pow_x(k);
}

/// The checksum reaches the target once the inserted polynomial stands
/// between `head` and `tail`.
pub proof fn lemma_inserted_target(
    props: CRC32Properties,
    head: Seq<u8>,
    tail: Seq<u8>,
    patch: Seq<u8>,
    target_crc: u32,
)
    requires
        patch.len() == 4,
        invertible(monomial(32), generator_poly(props.g)),
        message_poly(patch) == poly32(
            inserted_word(props, head + tail, tail.len(), target_crc),
        ),
    ensures
        crc_spec(props, head + patch + tail) == target_crc,
{
    let m = generator_poly(props.g);
    let init = props.init_xor;
    let d = head + tail;
    let k = 8 * tail.len();
    let xi = poly_inverse(monomial(32), m);
    let y = poly_inverse(monomial(k), m);
    let dp = crc_dividend(init, head);
    let whole = crc_dividend(init, d);
    let s = suffix_poly(poly_rem(whole, m), poly32(target_crc), poly32(props.final_xor), xi, m);
    lemma_generator(props.g);
    lemma_pow2_128();
    lemma_inverse_exists(monomial(32), m);
    lemma_monomial_invertible(k, m);
    lemma_inverse_exists(monomial(k), m);
    lemma_suffix_word(props, d, target_crc);
    assert(d.subrange(d.len() - tail.len(), d.len() as int) =~= tail);
    let tp = inserted_poly(s, poly_rem(message_poly(tail), m), props.g as nat, y, m);
    lemma_rem_bound(
        poly_mul(
            poly_add(
                s,
                poly_rem(poly_mul(poly_rem(message_poly(tail), m), poly_add(1, props.g as nat)), m),
            ),
            y,
        ),
        m,
    );
    lemma_reflect_bound(tp, 32);
    lemma_reflect_involution(tp, 32);
    assert(message_poly(patch) == tp);
    lemma_dividend_concat(init, head, tail);
    lemma_dividend_concat(init, head, patch);
    lemma_dividend_concat(init, head + patch, tail);
    assert(8 * patch.len() == 32);
    lemma_inserted_reaches(dp, message_poly(tail), k, s, props.g, y);
    lemma_target_reached(props, whole, target_crc, xi);
}

/// Round trip of the inserted patch: spliced into the message before its
/// last `offset` bytes, it brings the checksum to the target, whatever the
/// message, the target and the offset within the message.
pub proof fn lemma_inserted_round_trip(
    props: CRC32Properties,
    d: Seq<u8>,
    offset: nat,
    target_crc: u32,
)
    requires
        invertible(monomial(32), generator_poly(props.g)),
        offset <= d.len(),
    ensures
        inserted_spec(props, d, offset, target_crc).len() == 4,
        crc_spec(
            props,
            d.subrange(0, d.len() - offset) + inserted_spec(props, d, offset, target_crc)
                + d.subrange(d.len() - offset, d.len() as int),
        ) == target_crc,
{
    let head = d.subrange(0, d.len() - offset);
    let tail = d.subrange(d.len() - offset, d.len() as int);
    assert(head + tail =~= d);
    lemma_le_bytes(inserted_word(props, d, offset, target_crc));
    lemma_inserted_target(props, head, tail, inserted_spec(props, d, offset, target_crc), target_crc);
}

/// A patch inserted after the last byte is the forged suffix.
pub proof fn lemma_inserted_at_end(props: CRC32Properties, d: Seq<u8>, target_crc: u32)
    ensures
        inserted_spec(props, d, 0, target_crc) == suffix_spec(props, d, target_crc),
{
    let m = generator_poly(props.g);
    let tail = d.subrange(d.len() - 0, d.len() as int);
    let s = poly32(suffix_word(props, d, target_crc));
    lemma_generator(props.g);
    lemma_pow2_128();
    lemma2_to64();
    // the tail is empty and holds the zero polynomial
    assert(tail =~= Seq::<u8>::empty());
    assert(message_poly(tail) == 0);
    crate::gf2_ring::lemma_mul_zero(poly_add(1, props.g as nat));
    // the inverse of X^0 is 1
    lemma_mul_one(1);
    crate::gf2_div::lemma_rem_one(m);
    assert(8 * 0 == 0);
    assert(is_inverse(monomial(0), 1, m));
    crate::gf2_inverse::lemma_inverse_is(monomial(0), 1, m);
    lemma_mul_one(s);
    lemma_reflect_bound(suffix_word(props, d, target_crc) as nat, 32);
    lemma_rem_small(s, m);
    assert(inserted_poly(s, 0, props.g as nat, 1, m) == s);
    lemma_reflect_involution(suffix_word(props, d, target_crc) as nat, 32);
}

} // verus!
