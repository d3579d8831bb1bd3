//! Polynomials over GF(2) as natural numbers.
//!
//! A polynomial is the natural number whose binary digit `k` is the
//! coefficient of `X^k`. Every polynomial has exactly one such number, so
//! equality of numbers is equality of polynomials. The functions here are
//! the mathematical model that the contracts of the executable arithmetic
//! are stated over.

use vstd::prelude::*;
use vstd::arithmetic::power2::pow2;

verus! {

/// The sum of two polynomials: coefficients are added modulo 2, without
/// carries. In characteristic 2 this is also the difference.
pub open spec fn poly_add(a: nat, b: nat) -> nat
    decreases a + b,
{
    if a == 0 {
        b
    } else if b == 0 {
        a
    } else {
        2 * poly_add(a / 2, b / 2) + (a % 2 + b % 2) % 2
    }
}

/// The product of two polynomials.
pub open spec fn poly_mul(a: nat, b: nat) -> nat
    decreases a,
{
    if a == 0 {
        0
    } else {
        poly_add(
            if a % 2 == 1 {
                b
            } else {
                0
            },
            2 * poly_mul(a / 2, b),
        )
    }
}

/// The degree of a polynomial: the position of its highest nonzero
/// coefficient. The zero polynomial has degree 0 by convention.
pub open spec fn poly_deg(a: nat) -> nat
    decreases a,
{
    if a <= 1 {
        0
    } else {
        1 + poly_deg(a / 2)
    }
}

/// The monomial `X^k`.
pub open spec fn monomial(k: nat) -> nat {
    pow2(k)
}

/// The leading term of a nonzero polynomial `m`.
pub open spec fn leading_term(m: nat) -> nat {
    pow2(poly_deg(m))
}

/// One step of long division by `m`: cancels the coefficient of
/// `X^deg(m)` in `t` when it is set.
pub open spec fn poly_reduce(t: nat, m: nat) -> nat {
    if t >= leading_term(m) {
        poly_add(t, m)
    } else {
        t
    }
}

/// The remainder of `a` divided by `m`, by long division from the highest
/// coefficient of `a` down. For `m != 0` it is the one polynomial `r` below
/// the leading term of `m` with `a == q * m + r` for some `q`
/// (`lemma_division_identity`, `lemma_division_unique`).
pub open spec fn poly_rem(a: nat, m: nat) -> nat
    decreases a,
{
    if a == 0 {
        0
    } else {
        poly_reduce(2 * poly_rem(a / 2, m) + a % 2, m)
    }
}

/// The quotient of `a` divided by `m`.
pub open spec fn poly_div(a: nat, m: nat) -> nat
    decreases a,
{
    if a == 0 {
        0
    } else {
        2 * poly_div(a / 2, m) + if 2 * poly_rem(a / 2, m) + a % 2 >= leading_term(m) {
            1nat
        } else {
            0nat
        }
    }
}

/// `b` raised to the power `e`.
pub open spec fn poly_pow(b: nat, e: nat) -> nat
    decreases e,
{
    if e == 0 {
        1
    } else {
        poly_mul(b, poly_pow(b, (e - 1) as nat))
    }
}

/// `a` has an inverse modulo `m`: some polynomial multiplies it to 1.
pub open spec fn invertible(a: nat, m: nat) -> bool {
    exists|r: nat| poly_rem(poly_mul(a, r), m) == 1
}

/// `r` is reduced modulo `m` and inverts `a`.
pub open spec fn is_inverse(a: nat, r: nat, m: nat) -> bool {
    r < leading_term(m) && poly_rem(poly_mul(a, r), m) == 1
}

/// The reduced inverse of `a` modulo `m`, where `a` has an inverse; there
/// is only one (`lemma_inverse_unique`).
pub open spec fn poly_inverse(a: nat, m: nat) -> nat {
    choose|r: nat| is_inverse(a, r, m)
}

} // verus!
