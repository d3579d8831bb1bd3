//! Division with remainder of polynomials over GF(2), and arithmetic
//! modulo a polynomial.

use vstd::prelude::*;
use vstd::arithmetic::power2::{lemma_pow2_pos, lemma_pow2_unfold, pow2};
use crate::gf2::{leading_term, poly_add, poly_deg, poly_div, poly_mul, poly_reduce, poly_rem};
use crate::gf2_ring::{
    lemma_add_assoc, lemma_add_bound, lemma_add_cancel, lemma_add_comm, lemma_add_double,
    lemma_add_move, lemma_add_same_degree, lemma_add_self, lemma_add_swap4, lemma_deg_bounds,
    lemma_mul_assoc, lemma_mul_comm, lemma_mul_degree, lemma_mul_distrib_left,
    lemma_mul_double_left, lemma_mul_zero,
};

verus! {

/// One reduction step brings a polynomial below `2 * X^deg(m)` below
/// `X^deg(m)`.
pub proof fn lemma_reduce_bound(t: nat, m: nat)
    requires
        m >= 1,
        t < 2 * leading_term(m),
    ensures
        poly_reduce(t, m) < leading_term(m),
{
    if t >= leading_term(m) {
        lemma_deg_bounds(m);
        lemma_add_same_degree(t, m, poly_deg(m));
    }
}

/// The remainder lies below the leading term of the divisor.
pub proof fn lemma_rem_bound(a: nat, m: nat)
    requires
        m >= 1,
    ensures
        poly_rem(a, m) < leading_term(m),
    decreases a,
{
    lemma_pow2_pos(poly_deg(m));
    if a != 0 {
        lemma_rem_bound(a / 2, m);
        lemma_reduce_bound(2 * poly_rem(a / 2, m) + a % 2, m);
    }
}

/// A polynomial below the leading term of the divisor is its own
/// remainder, with quotient zero.
pub proof fn lemma_rem_small(a: nat, m: nat)
    requires
        a < leading_term(m),
    ensures
        poly_rem(a, m) == a,
        poly_div(a, m) == 0,
    decreases a,
{
    if a != 0 {
        lemma_rem_small(a / 2, m);
    }
}

/// Quotient and remainder have no coefficient above those of the
/// dividend.
pub proof fn lemma_division_below(a: nat, m: nat, k: nat)
    requires
        m >= 1,
        a < pow2(k),
    ensures
        poly_div(a, m) < pow2(k),
        poly_rem(a, m) < pow2(k),
    decreases a,
{
    lemma_pow2_pos(k);
    if a != 0 {
        assert(k > 0) by {
            if k == 0 {
                vstd::arithmetic::power2::lemma2_to64();
            }
        }
        lemma_pow2_unfold(k);
        lemma_division_below(a / 2, m, (k - 1) as nat);
        lemma_rem_bound(a / 2, m);
        lemma_rem_bound(a, m);
        let t = 2 * poly_rem(a / 2, m) + a % 2;
        if t >= leading_term(m) {
            assert(poly_rem(a, m) < t);
        }
    }
}

/// Dividend = quotient * divisor + remainder, and the remainder lies
/// below the leading term of the divisor: its degree is less than that of
/// a divisor of degree at least 1.
pub proof fn lemma_division_identity(a: nat, m: nat)
    requires
        m >= 1,
    ensures
        a == poly_add(poly_mul(poly_div(a, m), m), poly_rem(a, m)),
        poly_rem(a, m) < leading_term(m),
        m >= 2 ==> poly_deg(poly_rem(a, m)) < poly_deg(m),
    decreases a,
{
    lemma_rem_bound(a, m);
    if m >= 2 {
        crate::gf2_ring::lemma_deg_below(poly_rem(a, m), poly_deg(m));
    }
    if a == 0 {
        lemma_mul_zero(m);
    } else {
        let h = a / 2;
        let q = poly_div(h, m);
        let r = poly_rem(h, m);
        let t = 2 * r + a % 2;
        lemma_division_identity(h, m);
        let p = poly_mul(q, m);
        // a == 2 * (p + r) + a % 2 == 2 * p + t
        assert(a == poly_add(2 * p, t)) by {
            lemma_add_double(p, r);
        }
        lemma_mul_double_left(q, m);
        if t >= leading_term(m) {
            // (m + 2p) + (t + m) == 2p + t
            lemma_add_comm(m, 2 * p);
            lemma_add_comm(t, m);
            lemma_add_assoc(2 * p, m, poly_add(m, t));
            lemma_add_cancel(t, m);
        }
    }
}

/// Only one quotient and one remainder below the divisor's leading term
/// satisfy the division identity.
pub proof fn lemma_division_unique(a: nat, m: nat, q: nat, r: nat)
    requires
        m >= 1,
        r < leading_term(m),
        a == poly_add(poly_mul(q, m), r),
    ensures
        q == poly_div(a, m),
        r == poly_rem(a, m),
{
    let q0 = poly_div(a, m);
    let r0 = poly_rem(a, m);
    lemma_division_identity(a, m);
    let dq = poly_add(q, q0);
    let dr = poly_add(r, r0);
    // (q + q0) * m == r + r0
    assert(poly_mul(dq, m) == dr) by {
        lemma_mul_distrib_left(q, q0, m);
        lemma_add_swap4(poly_mul(q, m), r, poly_mul(q0, m), r0);
        lemma_add_self(a);
        lemma_add_move(poly_add(poly_mul(q, m), poly_mul(q0, m)), dr, 0);
    }
    lemma_add_bound(r, r0, poly_deg(m));
    if dq != 0 {
        lemma_mul_degree(dq, m);
        lemma_deg_bounds(poly_mul(dq, m));
        let k = poly_deg(dq) + poly_deg(m);
        if poly_deg(dq) > 0 {
            vstd::arithmetic::power2::lemma_pow2_strictly_increases(poly_deg(m), k);
        }
        assert(false);
    }
    lemma_mul_zero(m);
    assert(dr == 0);
    lemma_add_move(q, q0, 0);
    lemma_add_move(r, r0, 0);
}

/// The remainder of a sum is the sum of the remainders.
pub proof fn lemma_rem_add(a: nat, b: nat, m: nat)
    requires
        m >= 1,
    ensures
        poly_rem(poly_add(a, b), m) == poly_add(poly_rem(a, m), poly_rem(b, m)),
{
    let qa = poly_div(a, m);
    let qb = poly_div(b, m);
    let ra = poly_rem(a, m);
    let rb = poly_rem(b, m);
    lemma_division_identity(a, m);
    lemma_division_identity(b, m);
    lemma_add_bound(ra, rb, poly_deg(m));
    lemma_mul_distrib_left(qa, qb, m);
    lemma_add_swap4(poly_mul(qa, m), ra, poly_mul(qb, m), rb);
    lemma_division_unique(poly_add(a, b), m, poly_add(qa, qb), poly_add(ra, rb));
}

/// A multiple of the divisor leaves no remainder.
pub proof fn lemma_rem_multiple(q: nat, m: nat)
    requires
        m >= 1,
    ensures
        poly_rem(poly_mul(q, m), m) == 0,
        poly_rem(poly_mul(m, q), m) == 0,
        poly_div(poly_mul(q, m), m) == q,
{
    lemma_pow2_pos(poly_deg(m));
    lemma_mul_comm(q, m);
    lemma_division_unique(poly_mul(q, m), m, q, 0);
}

/// Taking the remainder twice is taking it once.
pub proof fn lemma_rem_rem(a: nat, m: nat)
    requires
        m >= 1,
    ensures
        poly_rem(poly_rem(a, m), m) == poly_rem(a, m),
{
    lemma_rem_bound(a, m);
    lemma_rem_small(poly_rem(a, m), m);
}

/// Adding a multiple of the divisor does not change the remainder.
pub proof fn lemma_rem_add_multiple(a: nat, q: nat, m: nat)
    requires
        m >= 1,
    ensures
        poly_rem(poly_add(a, poly_mul(q, m)), m) == poly_rem(a, m),
        poly_rem(poly_add(poly_mul(q, m), a), m) == poly_rem(a, m),
{
    lemma_rem_add(a, poly_mul(q, m), m);
    lemma_rem_multiple(q, m);
    lemma_add_comm(a, poly_mul(q, m));
}

/// In a product, a factor may be replaced by its remainder.
pub proof fn lemma_rem_mul_left(a: nat, b: nat, m: nat)
    requires
        m >= 1,
    ensures
        poly_rem(poly_mul(a, b), m) == poly_rem(poly_mul(poly_rem(a, m), b), m),
{
    let q = poly_div(a, m);
    let r = poly_rem(a, m);
    lemma_division_identity(a, m);
    // a * b == (q * m) * b + r * b == (q * b) * m + r * b
    lemma_mul_distrib_left(poly_mul(q, m), r, b);
    lemma_mul_assoc(q, m, b);
    lemma_mul_comm(m, b);
    lemma_mul_assoc(q, b, m);
    lemma_rem_add_multiple(poly_mul(r, b), poly_mul(q, b), m);
}

/// In a product, a factor may be replaced by its remainder.
pub proof fn lemma_rem_mul_right(a: nat, b: nat, m: nat)
    requires
        m >= 1,
    ensures
        poly_rem(poly_mul(a, b), m) == poly_rem(poly_mul(a, poly_rem(b, m)), m),
{
    lemma_mul_comm(a, b);
    lemma_mul_comm(a, poly_rem(b, m));
    lemma_rem_mul_left(b, a, m);
}

/// In a product, both factors may be replaced by their remainders.
pub proof fn lemma_rem_mul(a: nat, b: nat, m: nat)
    requires
        m >= 1,
    ensures
        poly_rem(poly_mul(a, b), m) == poly_rem(poly_mul(poly_rem(a, m), poly_rem(b, m)), m),
{
    lemma_rem_mul_left(a, b, m);
    lemma_rem_mul_right(poly_rem(a, m), b, m);
}

/// Polynomials with equal remainders stay so when multiplied by the
/// same factor.
pub proof fn lemma_rem_mul_congruent(a: nat, b: nat, c: nat, m: nat)
    requires
        m >= 1,
        poly_rem(a, m) == poly_rem(b, m),
    ensures
        poly_rem(poly_mul(a, c), m) == poly_rem(poly_mul(b, c), m),
        poly_rem(poly_mul(c, a), m) == poly_rem(poly_mul(c, b), m),
{
    lemma_rem_mul_left(a, c, m);
    lemma_rem_mul_left(b, c, m);
    lemma_mul_comm(a, c);
    lemma_mul_comm(b, c);
}

/// Polynomials with equal remainders stay so when the same polynomial
/// is added.
pub proof fn lemma_rem_add_congruent(a: nat, b: nat, c: nat, m: nat)
    requires
        m >= 1,
        poly_rem(a, m) == poly_rem(b, m),
    ensures
        poly_rem(poly_add(a, c), m) == poly_rem(poly_add(b, c), m),
        poly_rem(poly_add(c, a), m) == poly_rem(poly_add(c, b), m),
{
    lemma_rem_add(a, c, m);
    lemma_rem_add(b, c, m);
    lemma_add_comm(a, c);
    lemma_add_comm(b, c);
}

/// A divisor of degree at least 1 leaves 1 as it is.
pub proof fn lemma_rem_one(m: nat)
    requires
        m >= 2,
    ensures
        poly_rem(1, m) == 1,
{
    lemma_pow2_unfold(poly_deg(m));
    lemma_pow2_pos(poly_deg(m / 2));
    lemma_rem_small(1, m);
}

/// A polynomial of degree at least 1 divides no polynomial that is
/// congruent to 1 modulo one of its multiples.
pub proof fn lemma_common_factor_not_invertible(d: nat, u: nat, v: nat, r: nat)
    requires
        d >= 2,
        poly_mul(v, d) >= 2,
    ensures
        poly_rem(poly_mul(poly_mul(u, d), r), poly_mul(v, d)) != 1,
{
    let a = poly_mul(u, d);
    let m = poly_mul(v, d);
    let x = poly_mul(a, r);
    if poly_rem(x, m) == 1 {
        let q = poly_div(x, m);
        lemma_division_identity(x, m);
        // 1 == x + q * m == (u * r + q * v) * d
        lemma_add_move(poly_mul(q, m), 1, x);
        lemma_mul_assoc(q, v, d);
        lemma_mul_assoc(u, d, r);
        lemma_mul_comm(d, r);
        lemma_mul_assoc(u, r, d);
        let c = poly_add(poly_mul(poly_mul(u, r), d), poly_mul(poly_mul(q, v), d));
        lemma_mul_distrib_left(poly_mul(u, r), poly_mul(q, v), d);
        let w = poly_add(poly_mul(u, r), poly_mul(q, v));
        assert(poly_mul(w, d) == 1);
        lemma_mul_zero(d);
        assert(w >= 1);
        lemma_mul_degree(w, d);
        assert(poly_deg(d) >= 1);
        assert(false);
    }
}

} // verus!
