//! Polynomials as text: `X^26 + X^23 + X^0`.

use vstd::prelude::*;
use vstd::arithmetic::power2::{lemma2_to64, pow2};
use vstd::string::StringExecFns;
use crate::bits::lemma_reflect_bit;
use crate::math::{lemma_low_bit, Polynomial};
use crate::schoolbook::lemma_shift_once_more;

verus! {

/// The polynomial `p` has the term `X^k`.
pub open spec fn has_term(p: nat, k: nat) -> bool {
    (p / pow2(k)) % 2 == 1
}

/// The exponents from `lo` up to, not including, `hi` of the terms of `p`,
/// highest first.
pub open spec fn poly_terms(p: nat, lo: nat, hi: nat) -> Seq<usize>
    decreases hi - lo,
{
    if lo >= hi {
        Seq::empty()
    } else {
        poly_terms(p, lo + 1, hi) + if has_term(p, lo) {
            seq![lo as usize]
        } else {
            Seq::empty()
        }
    }
}

/// The character of a decimal digit.
pub open spec fn digit_char(d: nat) -> char {
    if d == 0 {
        '0'
    } else if d == 1 {
        '1'
    } else if d == 2 {
        '2'
    } else if d == 3 {
        '3'
    } else if d == 4 {
        '4'
    } else if d == 5 {
        '5'
    } else if d == 6 {
        '6'
    } else if d == 7 {
        '7'
    } else if d == 8 {
        '8'
    } else {
        '9'
    }
}

/// A number in decimal, without leading zeros.
pub open spec fn decimal_text(n: nat) -> Seq<char>
    decreases n,
{
    if n < 10 {
        seq![digit_char(n)]
    } else {
        decimal_text(n / 10).push(digit_char(n % 10))
    }
}

/// The text of the term `X^k`.
pub open spec fn term_text(k: nat) -> Seq<char> {
    seq!['X', '^'] + decimal_text(k)
}

/// The terms with the given exponents, in their order, joined by ` + `.
pub open spec fn terms_text(terms: Seq<usize>) -> Seq<char>
    decreases terms.len(),
{
    if terms.len() == 0 {
        Seq::empty()
    } else if terms.len() == 1 {
        term_text(terms[0] as nat)
    } else {
        terms_text(terms.drop_last()) + seq![' ', '+', ' '] + term_text(terms.last() as nat)
    }
}

/// The text of a polynomial below `X^128`: its terms from the highest
/// degree down, or `0` for the zero polynomial.
pub open spec fn poly_text(p: nat) -> Seq<char> {
    let terms = poly_terms(p, 0, 128);
    if terms.len() == 0 {
        seq!['0']
    } else {
        terms_text(terms)
    }
}

/// The text of one decimal digit.
fn digit_text(d: usize) -> (res: &'static str)
    requires
        d < 10,
    ensures
        res@ == seq![digit_char(d as nat)],
{
    proof {
        reveal_strlit("0");
        reveal_strlit("1");
        reveal_strlit("2");
        reveal_strlit("3");
        reveal_strlit("4");
        reveal_strlit("5");
        reveal_strlit("6");
        reveal_strlit("7");
        reveal_strlit("8");
        reveal_strlit("9");
    }
    let res = if d == 0 {
        "0"
    } else if d == 1 {
        "1"
    } else if d == 2 {
        "2"
    } else if d == 3 {
        "3"
    } else if d == 4 {
        "4"
    } else if d == 5 {
        "5"
    } else if d == 6 {
        "6"
    } else if d == 7 {
        "7"
    } else if d == 8 {
        "8"
    } else {
        "9"
    };
    assert(res@ =~= seq![digit_char(d as nat)]);
    res
}

/// Appends `n` in decimal to `text`.
fn append_decimal(text: &mut String, n: usize)
    ensures
        final(text)@ == old(text)@ + decimal_text(n as nat),
    decreases n,
{
    if n >= 10 {
        append_decimal(text, n / 10);
    }
    text.append(digit_text(n % 10));
    proof {
        if n >= 10 {
            assert(text@ =~= old(text)@ + decimal_text((n / 10) as nat).push(
                digit_char((n % 10) as nat),
            ));
        } else {
            assert(text@ =~= old(text)@ + seq![digit_char(n as nat)]);
        }
    }
}

/// The terms with the given exponents as text.
fn join_terms(terms: &Vec<usize>) -> (res: String)
    ensures
        res@ == terms_text(terms@),
{
    let mut text = String::new();
    let n = terms.len();
    proof {
        assert(terms@.take(0) =~= Seq::<usize>::empty());
    }
    for i in 0..n
        invariant
            n == terms@.len(),
            text@ == terms_text(terms@.take(i as int)),
    {
        let ghost done = terms@.take(i as int);
        let ghost next = terms@.take(i + 1);
        proof {
            reveal_strlit(" + ");
            reveal_strlit("X^");
            assert(next.drop_last() =~= done);
            assert(next.last() == terms@[i as int]);
        }
        if i > 0 {
            text.append(" + ");
        }
        text.append("X^");
        append_decimal(&mut text, terms[i]);
        proof {
            let term = term_text(terms@[i as int] as nat);
            if i == 0 {
                assert(done.len() == 0);
                assert(text@ =~= term);
                assert(next.len() == 1);
                assert(next[0] == terms@[i as int]);
            } else {
                assert(text@ =~= terms_text(done) + seq![' ', '+', ' '] + term);
                assert(next.len() > 1);
            }
        }
    }
    proof {
        assert(terms@.take(n as int) =~= terms@);
    }
    text
}

impl Polynomial<u128> {
    /// The exponents of the terms of the polynomial, highest first.
    pub fn terms(&self) -> (res: Vec<usize>)
        ensures
            res@ == poly_terms(self@, 0, 128),
    {
        let mut bits = self.repr();
        let mut terms = Vec::<usize>::new();
        let mut i: usize = 128;
        proof {
            lemma2_to64();
            assert(self.0 as nat / 1 == self.0);
        }
        while i > 0
            invariant
                i <= 128,
                bits == self.0 as nat / pow2((128 - i) as nat),
                terms@ == poly_terms(self@, i as nat, 128),
            decreases i,
        {
            i -= 1;
            proof {
                lemma_low_bit(bits);
                lemma_reflect_bit(self.0 as nat, 128, (127 - i) as nat);
                lemma_shift_once_more(self.0 as nat, (127 - i) as nat);
                assert(has_term(self@, i as nat) <==> bits & 1 == 1);
            }
            let coef = bits & 1;
            if coef == 1 {
                terms.push(i);
            }
            bits >>= 1;
        }
        terms
    }

    /// The polynomial as text: its terms from the highest degree down,
    /// joined by ` + `, or `0` for the zero polynomial.
    pub fn fmt(&self) -> (res: String)
        ensures
            res@ == poly_text(self@),
    {
        let terms = self.terms();
        if terms.len() == 0 {
            proof {
                reveal_strlit("0");
            }
            let mut text = String::new();
            text.append("0");
            proof {
                assert(text@ =~= seq!['0']);
            }
            text
        } else {
            join_terms(&terms)
        }
    }
}

impl Polynomial<u64> {
    /// The polynomial as text: its terms from the highest degree down,
    /// joined by ` + `, or `0` for the zero polynomial.
    pub fn fmt(&self) -> (res: String)
        ensures
            res@ == poly_text(self@),
    {
        Polynomial::<u128>::from(*self).fmt()
    }
}

impl Polynomial<u32> {
    /// The polynomial as text: its terms from the highest degree down,
    /// joined by ` + `, or `0` for the zero polynomial.
    pub fn fmt(&self) -> (res: String)
        ensures
            res@ == poly_text(self@),
    {
        Polynomial::<u128>::from(*self).fmt()
    }
}

} // verus!
