//! Addition and multiplication of polynomials over GF(2) form a
//! commutative ring; degrees add under multiplication.

use vstd::prelude::*;
use vstd::arithmetic::power2::{lemma_pow2_pos, lemma_pow2_unfold, pow2};
use crate::gf2::{leading_term, monomial, poly_add, poly_deg, poly_mul};

verus! {

/// Doubling a number appends a zero coefficient; the halves come back.
pub proof fn lemma_add_unfold(a: nat, b: nat)
    ensures
        poly_add(a, b) / 2 == poly_add(a / 2, b / 2),
        poly_add(a, b) % 2 == (a % 2 + b % 2) % 2,
    decreases a + b,
{
    if a != 0 && b != 0 {
    } else if a == 0 {
        assert(poly_add(0, b / 2) == b / 2);
    } else {
        assert(poly_add(a / 2, 0) == a / 2);
    }
}

/// Zero is the identity of addition.
pub proof fn lemma_add_zero(a: nat)
    ensures
        poly_add(a, 0) == a,
        poly_add(0, a) == a,
{
}

/// Addition is commutative.
pub proof fn lemma_add_comm(a: nat, b: nat)
    ensures
        poly_add(a, b) == poly_add(b, a),
    decreases a + b,
{
    if a != 0 && b != 0 {
        lemma_add_comm(a / 2, b / 2);
    }
}

/// Addition is associative.
pub proof fn lemma_add_assoc(a: nat, b: nat, c: nat)
    ensures
        poly_add(poly_add(a, b), c) == poly_add(a, poly_add(b, c)),
    decreases a + b + c,
{
    if a == 0 || b == 0 || c == 0 {
    } else {
        lemma_add_assoc(a / 2, b / 2, c / 2);
        lemma_add_unfold(a, b);
        lemma_add_unfold(b, c);
        lemma_add_unfold(poly_add(a, b), c);
        lemma_add_unfold(a, poly_add(b, c));
    }
}

/// Every polynomial is its own negative.
pub proof fn lemma_add_self(a: nat)
    ensures
        poly_add(a, a) == 0,
    decreases a,
{
    if a != 0 {
        lemma_add_self(a / 2);
    }
}

/// Adding the same polynomial twice changes nothing.
pub proof fn lemma_add_cancel(a: nat, b: nat)
    ensures
        poly_add(poly_add(a, b), b) == a,
        poly_add(b, poly_add(b, a)) == a,
        poly_add(poly_add(b, a), b) == a,
        poly_add(b, poly_add(a, b)) == a,
{
    lemma_add_assoc(a, b, b);
    lemma_add_self(b);
    lemma_add_comm(a, b);
    lemma_add_comm(b, poly_add(b, a));
    lemma_add_comm(b, poly_add(a, b));
}

/// If `a + b == c` then `a == c + b`.
pub proof fn lemma_add_move(a: nat, b: nat, c: nat)
    requires
        poly_add(a, b) == c,
    ensures
        a == poly_add(c, b),
        b == poly_add(c, a),
        b == poly_add(a, c),
{
    lemma_add_cancel(a, b);
    lemma_add_cancel(b, a);
    lemma_add_comm(a, b);
    lemma_add_comm(a, c);
}

/// Sums of polynomials below `X^k` stay below `X^k`.
pub proof fn lemma_add_bound(a: nat, b: nat, k: nat)
    requires
        a < pow2(k),
        b < pow2(k),
    ensures
        poly_add(a, b) < pow2(k),
    decreases k,
{
    if k == 0 {
        vstd::arithmetic::power2::lemma2_to64();
    } else {
        lemma_pow2_unfold(k);
        lemma_add_bound(a / 2, b / 2, (k - 1) as nat);
        lemma_add_unfold(a, b);
    }
}

/// Two polynomials of the same degree `k` cancel their leading terms.
pub proof fn lemma_add_same_degree(a: nat, b: nat, k: nat)
    requires
        pow2(k) <= a < 2 * pow2(k),
        pow2(k) <= b < 2 * pow2(k),
    ensures
        poly_add(a, b) < pow2(k),
    decreases k,
{
    if k == 0 {
        vstd::arithmetic::power2::lemma2_to64();
        lemma_add_self(1);
    } else {
        lemma_pow2_unfold(k);
        lemma_add_same_degree(a / 2, b / 2, (k - 1) as nat);
        lemma_add_unfold(a, b);
    }
}

/// Adding a polynomial below `X^k` to one of degree `k` keeps the degree.
pub proof fn lemma_add_keeps_degree(a: nat, b: nat, k: nat)
    requires
        pow2(k) <= a < 2 * pow2(k),
        b < pow2(k),
    ensures
        pow2(k) <= poly_add(a, b) < 2 * pow2(k),
    decreases k,
{
    if k == 0 {
        vstd::arithmetic::power2::lemma2_to64();
    } else {
        lemma_pow2_unfold(k);
        lemma_add_keeps_degree(a / 2, b / 2, (k - 1) as nat);
        lemma_add_unfold(a, b);
    }
}

/// Multiplying both summands by `X` multiplies the sum by `X`.
pub proof fn lemma_add_double(a: nat, b: nat)
    ensures
        poly_add(2 * a, 2 * b) == 2 * poly_add(a, b),
        poly_add(2 * a + 1, 2 * b) == 2 * poly_add(a, b) + 1,
        poly_add(2 * a, 2 * b + 1) == 2 * poly_add(a, b) + 1,
        poly_add(2 * a + 1, 2 * b + 1) == 2 * poly_add(a, b),
{
    lemma_add_unfold(2 * a, 2 * b);
    lemma_add_unfold(2 * a + 1, 2 * b);
    lemma_add_unfold(2 * a, 2 * b + 1);
    lemma_add_unfold(2 * a + 1, 2 * b + 1);
}

/// Multiplying both summands by `X^k` multiplies the sum by `X^k`.
pub proof fn lemma_add_shift(a: nat, b: nat, k: nat)
    ensures
        poly_add(a * pow2(k), b * pow2(k)) == poly_add(a, b) * pow2(k),
    decreases k,
{
    if k == 0 {
        vstd::arithmetic::power2::lemma2_to64();
    } else {
        let h = pow2((k - 1) as nat);
        lemma_pow2_unfold(k);
        lemma_add_shift(a, b, (k - 1) as nat);
        assert(a * pow2(k) == 2 * (a * h)) by (nonlinear_arith)
            requires
                pow2(k) == 2 * h,
        ;
        assert(b * pow2(k) == 2 * (b * h)) by (nonlinear_arith)
            requires
                pow2(k) == 2 * h,
        ;
        assert(poly_add(a, b) * pow2(k) == 2 * (poly_add(a, b) * h)) by (nonlinear_arith)
            requires
                pow2(k) == 2 * h,
        ;
        lemma_add_double(a * h, b * h);
    }
}

/// A polynomial below `X^k` and a multiple of `X^k` share no coefficient:
/// their polynomial sum is their sum as numbers.
pub proof fn lemma_add_disjoint(hi: nat, lo: nat, k: nat)
    requires
        lo < pow2(k),
    ensures
        poly_add(hi * pow2(k), lo) == hi * pow2(k) + lo,
        poly_add(lo, hi * pow2(k)) == hi * pow2(k) + lo,
    decreases k,
{
    lemma_add_comm(hi * pow2(k), lo);
    if k == 0 {
        vstd::arithmetic::power2::lemma2_to64();
    } else {
        let h = pow2((k - 1) as nat);
        lemma_pow2_unfold(k);
        lemma_add_disjoint(hi, lo / 2, (k - 1) as nat);
        assert(hi * pow2(k) == 2 * (hi * h)) by (nonlinear_arith)
            requires
                pow2(k) == 2 * h,
        ;
        lemma_add_unfold(hi * pow2(k), lo);
    }
}

/// Addition acts on the part above `X^k` and the part below it separately.
pub proof fn lemma_add_split(a: nat, b: nat, k: nat)
    ensures
        poly_add(a, b) / pow2(k) == poly_add(a / pow2(k), b / pow2(k)),
        poly_add(a, b) % pow2(k) == poly_add(a % pow2(k), b % pow2(k)),
    decreases k,
{
    lemma_pow2_pos(k);
    if k == 0 {
        vstd::arithmetic::power2::lemma2_to64();
    } else {
        let h = pow2((k - 1) as nat);
        lemma_pow2_unfold(k);
        lemma_pow2_pos((k - 1) as nat);
        lemma_add_split(a / 2, b / 2, (k - 1) as nat);
        lemma_add_unfold(a, b);
        let s = poly_add(a, b);
        lemma_halves(a, h);
        lemma_halves(b, h);
        lemma_halves(s, h);
        lemma_add_unfold(a % pow2(k), b % pow2(k));
        let lo = poly_add(a % pow2(k), b % pow2(k));
        lemma_add_bound(a % pow2(k), b % pow2(k), k);
        assert(lo / 2 == (s / 2) % h);
        assert(lo % 2 == s % 2);
    }
}

/// Division and remainder by `2 * h` through the half of the number.
pub proof fn lemma_halves(x: nat, h: nat)
    requires
        h > 0,
    ensures
        x / (2 * h) == (x / 2) / h,
        x % (2 * h) == 2 * ((x / 2) % h) + x % 2,
        (x % (2 * h)) / 2 == (x / 2) % h,
        (x % (2 * h)) % 2 == x % 2,
{
    vstd::arithmetic::div_mod::lemma_div_denominator(x as int, 2, h as int);
    vstd::arithmetic::div_mod::lemma_fundamental_div_mod(x as int, (2 * h) as int);
    vstd::arithmetic::div_mod::lemma_fundamental_div_mod((x / 2) as int, h as int);
    vstd::arithmetic::div_mod::lemma_mod_bound(x as int, (2 * h) as int);
    vstd::arithmetic::div_mod::lemma_mod_bound((x / 2) as int, h as int);
    let q = (x / 2) / h;
    assert((2 * h) * q == 2 * (h * q)) by (nonlinear_arith);
}

/// Four summands may be regrouped crosswise.
pub proof fn lemma_add_swap4(x: nat, y: nat, z: nat, w: nat)
    ensures
        poly_add(poly_add(x, y), poly_add(z, w)) == poly_add(poly_add(x, z), poly_add(y, w)),
{
    lemma_add_assoc(x, y, poly_add(z, w));
    lemma_add_assoc(y, z, w);
    lemma_add_comm(y, z);
    lemma_add_assoc(z, y, w);
    lemma_add_assoc(x, z, poly_add(y, w));
}

/// A number is its even part plus its lowest coefficient.
pub proof fn lemma_add_low_bit(a: nat)
    ensures
        a == poly_add(2 * (a / 2), a % 2),
        a == poly_add(a % 2, 2 * (a / 2)),
{
    lemma_add_unfold(2 * (a / 2), a % 2);
    lemma_add_comm(2 * (a / 2), a % 2);
}

/// Zero annihilates.
pub proof fn lemma_mul_zero(a: nat)
    ensures
        poly_mul(a, 0) == 0,
        poly_mul(0, a) == 0,
    decreases a,
{
    if a != 0 {
        lemma_mul_zero(a / 2);
    }
}

/// One is the identity of multiplication.
pub proof fn lemma_mul_one(a: nat)
    ensures
        poly_mul(a, 1) == a,
        poly_mul(1, a) == a,
    decreases a,
{
    assert(poly_mul(1, a) == a) by {
        assert(poly_mul(0, a) == 0);
        assert(1nat / 2 == 0);
    }
    if a != 0 {
        lemma_mul_one(a / 2);
        lemma_add_low_bit(a);
    }
}

/// Multiplication by `X` on the left.
pub proof fn lemma_mul_double_left(a: nat, b: nat)
    ensures
        poly_mul(2 * a, b) == 2 * poly_mul(a, b),
        poly_mul(2 * a + 1, b) == poly_add(b, 2 * poly_mul(a, b)),
{
    assert((2 * a) / 2 == a);
    assert((2 * a + 1) / 2 == a);
    if a == 0 {
        assert(poly_mul(0, b) == 0);
    }
}

/// Multiplication by `X` on the right.
pub proof fn lemma_mul_double_right(a: nat, b: nat)
    ensures
        poly_mul(a, 2 * b) == 2 * poly_mul(a, b),
    decreases a,
{
    if a != 0 {
        lemma_mul_double_right(a / 2, b);
        if a % 2 == 1 {
            lemma_add_double(b, poly_mul(a / 2, b));
        } else {
            lemma_add_double(0, poly_mul(a / 2, b));
        }
    }
}

/// Multiplication distributes over addition on the right.
pub proof fn lemma_mul_distrib_right(a: nat, b: nat, c: nat)
    ensures
        poly_mul(a, poly_add(b, c)) == poly_add(poly_mul(a, b), poly_mul(a, c)),
    decreases a,
{
    if a != 0 {
        let h = a / 2;
        lemma_mul_distrib_right(h, b, c);
        lemma_add_double(poly_mul(h, b), poly_mul(h, c));
        if a % 2 == 1 {
            lemma_add_swap4(b, 2 * poly_mul(h, b), c, 2 * poly_mul(h, c));
        } else {
            lemma_add_swap4(0, 2 * poly_mul(h, b), 0, 2 * poly_mul(h, c));
        }
    }
}

/// Multiplication is commutative.
pub proof fn lemma_mul_comm(a: nat, b: nat)
    ensures
        poly_mul(a, b) == poly_mul(b, a),
    decreases a,
{
    lemma_mul_zero(b);
    if a != 0 {
        let h = a / 2;
        lemma_mul_comm(h, b);
        lemma_add_low_bit(a);
        lemma_mul_distrib_right(b, a % 2, 2 * h);
        lemma_mul_double_right(b, h);
        lemma_mul_one(b);
    }
}

/// Multiplication distributes over addition on the left.
pub proof fn lemma_mul_distrib_left(a: nat, b: nat, c: nat)
    ensures
        poly_mul(poly_add(a, b), c) == poly_add(poly_mul(a, c), poly_mul(b, c)),
{
    lemma_mul_comm(poly_add(a, b), c);
    lemma_mul_distrib_right(c, a, b);
    lemma_mul_comm(c, a);
    lemma_mul_comm(c, b);
}

/// Multiplication is associative.
pub proof fn lemma_mul_assoc(a: nat, b: nat, c: nat)
    ensures
        poly_mul(poly_mul(a, b), c) == poly_mul(a, poly_mul(b, c)),
    decreases a,
{
    lemma_mul_zero(c);
    if a != 0 {
        let h = a / 2;
        lemma_mul_assoc(h, b, c);
        let lo: nat = if a % 2 == 1 {
            b
        } else {
            0
        };
        lemma_mul_distrib_left(lo, 2 * poly_mul(h, b), c);
        lemma_mul_double_left(poly_mul(h, b), c);
    }
}

/// Multiplication by the monomial `X^k` shifts the coefficients up by `k`.
pub proof fn lemma_mul_monomial(a: nat, k: nat)
    ensures
        poly_mul(a, monomial(k)) == a * pow2(k),
        poly_mul(monomial(k), a) == a * pow2(k),
    decreases k,
{
    lemma_mul_comm(a, monomial(k));
    if k == 0 {
        vstd::arithmetic::power2::lemma2_to64();
        lemma_mul_one(a);
    } else {
        let h = pow2((k - 1) as nat);
        lemma_pow2_unfold(k);
        lemma_mul_monomial(a, (k - 1) as nat);
        lemma_mul_double_right(a, h);
        assert(a * pow2(k) == 2 * (a * h)) by (nonlinear_arith)
            requires
                pow2(k) == 2 * h,
        ;
    }
}

/// A nonzero polynomial lies between its leading term and twice that.
pub proof fn lemma_deg_bounds(a: nat)
    requires
        a >= 1,
    ensures
        leading_term(a) <= a < 2 * leading_term(a),
    decreases a,
{
    if a <= 1 {
        vstd::arithmetic::power2::lemma2_to64();
    } else {
        lemma_deg_bounds(a / 2);
        lemma_pow2_unfold(poly_deg(a));
    }
}

/// The degree is the one exponent `k` with `X^k <= a < X^(k+1)`.
pub proof fn lemma_deg_unique(a: nat, k: nat)
    requires
        pow2(k) <= a < 2 * pow2(k),
    ensures
        poly_deg(a) == k,
    decreases k,
{
    lemma_pow2_pos(k);
    if k == 0 {
        vstd::arithmetic::power2::lemma2_to64();
    } else {
        lemma_pow2_unfold(k);
        lemma_deg_unique(a / 2, (k - 1) as nat);
    }
}

/// A polynomial below `X^k` has degree below `k`, for `k > 0`.
pub proof fn lemma_deg_below(a: nat, k: nat)
    requires
        a < pow2(k),
        k > 0,
    ensures
        poly_deg(a) < k,
    decreases k,
{
    lemma_pow2_unfold(k);
    if a > 1 {
        if k == 1 {
            vstd::arithmetic::power2::lemma2_to64();
        } else {
            lemma_deg_below(a / 2, (k - 1) as nat);
        }
    }
}

/// Degrees add under multiplication, and a product of nonzero polynomials
/// is nonzero.
pub proof fn lemma_mul_degree(a: nat, b: nat)
    requires
        a >= 1,
        b >= 1,
    ensures
        poly_mul(a, b) >= 1,
        poly_deg(poly_mul(a, b)) == poly_deg(a) + poly_deg(b),
    decreases a,
{
    if a == 1 {
        lemma_mul_one(b);
    } else {
        let h = a / 2;
        lemma_mul_degree(h, b);
        let p = poly_mul(h, b);
        let k = poly_deg(a) + poly_deg(b);
        lemma_deg_bounds(p);
        lemma_deg_bounds(b);
        lemma_pow2_unfold(k);
        let lo: nat = if a % 2 == 1 {
            b
        } else {
            0
        };
        assert(lo < pow2(k)) by {
            lemma_pow2_pos(k);
            if poly_deg(b) + 1 < k {
                vstd::arithmetic::power2::lemma_pow2_strictly_increases(poly_deg(b) + 1, k);
            }
            lemma_pow2_unfold(poly_deg(b) + 1);
        }
        lemma_add_keeps_degree(2 * p, lo, k);
        lemma_add_comm(2 * p, lo);
        lemma_deg_unique(poly_mul(a, b), k);
        lemma_pow2_pos(k);
    }
}

} // verus!
