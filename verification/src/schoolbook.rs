//! What one round of each bit-serial loop does to the polynomial that a
//! reflected word holds.

use vstd::prelude::*;
use vstd::arithmetic::power2::{lemma_pow2_pos, lemma_pow2_unfold, pow2};
use vstd::arithmetic::div_mod::{
    lemma_basic_div, lemma_div_denominator, lemma_fundamental_div_mod,
    lemma_fundamental_div_mod_converse, lemma_mod_breakdown, lemma_small_mod,
};
use crate::bits::{
    lemma_reflect_add, lemma_reflect_bound, lemma_reflect_push, lemma_reflect_split,
    lemma_reflect_zero, reflect,
};
use crate::gf2::{leading_term, poly_add, poly_deg, poly_div, poly_mul, poly_reduce, poly_rem};
use crate::gf2_ring::{
    lemma_add_comm, lemma_add_self, lemma_add_shift, lemma_add_split, lemma_deg_bounds,
    lemma_deg_unique, lemma_halves, lemma_mul_double_left,
};

verus! {

/// Dropping one more low bit.
pub proof fn lemma_shift_once_more(x: nat, j: nat)
    ensures
        (x / pow2(j)) / 2 == x / pow2(j + 1),
        x % pow2(j) == 0 && (x / pow2(j)) % 2 == 0 ==> x % pow2(j + 1) == 0,
{
    lemma_pow2_pos(j);
    lemma_pow2_unfold(j + 1);
    lemma_div_denominator(x as int, pow2(j) as int, 2);
    lemma_mod_breakdown(x as int, pow2(j) as int, 2);
    let h = pow2(j);
    assert(h * 2 == pow2(j + 1)) by (nonlinear_arith)
        requires
            pow2(j + 1) == 2 * h,
    ;
    let b = (x / h) % 2;
    assert(h * b == 0 <== b == 0) by (nonlinear_arith);
}

/// The degree of the polynomial in a reflected word of `w` bits whose
/// lowest set bit is bit `i`.
pub proof fn lemma_degree_from_lowest_bit(v: nat, i: nat, w: nat)
    requires
        i < w,
        v % pow2(i) == 0,
        (v / pow2(i)) % 2 == 1,
    ensures
        poly_deg(reflect(v, w)) == w - 1 - i,
{
    let rest = (w - i) as nat;
    let odd = v / pow2(i);
    lemma_pow2_pos(i);
    lemma_reflect_split(v, i, rest);
    lemma_reflect_zero(i);
    let z = reflect(0, i);
    let p = pow2(rest);
    assert(z * p == 0) by (nonlinear_arith)
        requires
            z == 0,
    ;
    assert(reflect(v, w) == reflect(odd, rest));
    lemma_reflect_bound(odd / 2, (rest - 1) as nat);
    lemma_deg_unique(reflect(odd, rest), (rest - 1) as nat);
}

/// One round of the multiplication loop: the next coefficient of the left
/// factor joins the part already multiplied.
pub proof fn lemma_mul_round(ahi: nat, bit: nat, b: nat, i: nat, old_sum: nat, term: nat)
    requires
        bit <= 1,
        old_sum == poly_mul(ahi, b) * pow2(i + 1),
        term == b * pow2(i),
    ensures
        poly_mul(2 * ahi + bit, b) * pow2(i) == if bit == 1 {
            poly_add(old_sum, term)
        } else {
            old_sum
        },
{
    let m = poly_mul(ahi, b);
    let p = pow2(i);
    lemma_pow2_unfold(i + 1);
    lemma_mul_double_left(ahi, b);
    assert(m * pow2(i + 1) == (2 * m) * p) by (nonlinear_arith)
        requires
            pow2(i + 1) == 2 * p,
    ;
    if bit == 1 {
        lemma_add_shift(b, 2 * m, i);
        lemma_add_comm(old_sum, term);
    }
}

/// The modulus of degree `d`, without its leading term, sits in the low
/// `d` bits of its reflected word moved down by `w - d`.
pub proof fn lemma_modulus_bits(mr: nat, d: nat, w: nat)
    requires
        d < w,
        reflect(mr, w) >= 1,
        poly_deg(reflect(mr, w)) == d,
    ensures
        reflect(mr, w) == pow2(d) + reflect(mr / pow2((w - d) as nat), d),
        reflect(mr / pow2((w - d) as nat), d) < pow2(d),
{
    let s = (w - d) as nat;
    let m = reflect(mr, w);
    let k = reflect(mr % pow2(s), s);
    let low = reflect(mr / pow2(s), d);
    let p = pow2(d);
    lemma_pow2_pos(s);
    lemma_pow2_pos(d);
    lemma_reflect_split(mr, s, d);
    lemma_reflect_bound(mr / pow2(s), d);
    lemma_deg_bounds(m);
    assert(k == 1) by (nonlinear_arith)
        requires
            m == k * p + low,
            low < p,
            p <= m < 2 * p,
    ;
    assert(k * p == p) by (nonlinear_arith)
        requires
            k == 1,
    ;
}

/// One round of long division on a reflected word `sb` whose low `d` bits
/// hold the remainder so far and whose higher bits hold the coefficients
/// still to come. `mb` is the modulus without its leading term.
pub proof fn lemma_division_round(sb: nat, mb: nat, d: nat, m: nat, a: nat)
    requires
        d >= 1,
        mb < pow2(d),
        m == pow2(d) + reflect(mb, d),
        reflect(sb % pow2(d), d) == poly_rem(a, m),
    ensures
        poly_deg(m) == d,
        ({
            let next = (sb / pow2(d)) % 2;
            let sb2 = if sb % 2 == 1 {
                poly_add(sb / 2, mb)
            } else {
                sb / 2
            };
            &&& reflect(sb2 % pow2(d), d) == poly_rem(2 * a + next, m)
            &&& sb2 / pow2(d) == sb / pow2(d + 1)
            &&& poly_div(2 * a + next, m) == 2 * poly_div(a, m) + sb % 2
        }),
{
    let p = pow2(d);
    let h = pow2((d - 1) as nat);
    let y = reflect(mb, d);
    lemma_pow2_pos(d);
    lemma_pow2_pos((d - 1) as nat);
    lemma_pow2_unfold(d);
    lemma_reflect_bound(mb, d);
    lemma_deg_unique(m, d);
    let next = (sb / p) % 2;
    let bit = sb % 2;
    let r = poly_rem(a, m);
    let sb1 = sb / 2;
    let w1 = sb1 % p;
    let x = reflect(w1, d);
    // the remainder so far, read from the word
    let lo = sb % p;
    lemma_halves(sb, h);
    assert(lo / 2 == sb1 % h && lo % 2 == bit);
    assert(r == reflect(sb1 % h, (d - 1) as nat) + if bit == 1 {
        h
    } else {
        0
    });
    // the window after the shift
    lemma_reflect_push(sb1, (d - 1) as nat);
    lemma_div_denominator(sb as int, 2, h as int);
    assert(2 * h == p);
    assert(sb1 / h == sb / p) by {
        assert(2 * h == p);
        assert(sb / (2 * h) == sb / p);
    }
    assert(x == 2 * reflect(sb1 % h, (d - 1) as nat) + next);
    lemma_reflect_bound(sb1 % h, (d - 1) as nat);
    let t = 2 * r + next;
    assert(leading_term(m) == p);
    let sb2 = if bit == 1 {
        poly_add(sb1, mb)
    } else {
        sb1
    };
    lemma_shift_once_more(sb, d);
    lemma_div_denominator(sb as int, 2, p as int);
    assert(2 * p == p * 2) by (nonlinear_arith);
    assert(sb1 / p == sb / pow2(d + 1)) by {
        lemma_pow2_unfold(d + 1);
        assert(sb / (2 * p) == sb / pow2(d + 1));
    }
    if bit == 1 {
        assert(t == p + x);
        // t + m == x + y: the leading terms cancel
        lemma_add_split(t, m, d);
        lemma_fundamental_div_mod_converse(t as int, p as int, 1, x as int);
        lemma_fundamental_div_mod_converse(m as int, p as int, 1, y as int);
        lemma_add_self(1);
        lemma_fundamental_div_mod(poly_add(t, m) as int, p as int);
        assert(p * 0 == 0);
        assert(poly_add(t, m) == poly_add(x, y));
        // the same sum, read from the word
        lemma_add_split(sb1, mb, d);
        lemma_small_mod(mb, p);
        lemma_basic_div(mb as int, p as int);
        lemma_reflect_add(w1, mb, d);
        assert(poly_reduce(t, m) == poly_add(x, y));
    } else {
        assert(t == x);
        assert(t < p);
        assert(poly_reduce(t, m) == t);
    }
    assert(reflect(sb2 % p, d) == poly_reduce(t, m));
    let a2 = 2 * a + next;
    if a2 == 0 {
        assert(a == 0 && next == 0);
        assert(r == 0);
        assert(bit == 0);
    } else {
        assert(a2 / 2 == a && a2 % 2 == next);
    }
}

} // verus!
