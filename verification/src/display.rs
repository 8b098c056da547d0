//! Polynomials as text, with the variables numbered from one.

use crate::field::{decimal, digit_char, field_text, FieldElement};
use crate::multivariate::{Monomial, MultivariatePolynomial, Polynomial, Term};
use vstd::prelude::*;
use vstd::string::*;

verus! {

/// One power as text: `X_3` for the variable of index 2 with the exponent
/// one, `X_3 ^ 2` with the exponent two.
pub open spec fn power_text(power: (usize, usize)) -> Seq<char> {
    "X_"@ + decimal((power.0 + 1) as nat) + if power.1 == 1 {
        Seq::<char>::empty()
    } else {
        " ^ "@ + decimal(power.1 as nat)
    }
}

/// The powers of a term as text, with ` * ` between them.
pub open spec fn powers_text(exps: Seq<(usize, usize)>) -> Seq<char>
    decreases exps.len(),
{
    if exps.len() == 0 {
        Seq::<char>::empty()
    } else if exps.len() == 1 {
        power_text(exps[0])
    } else {
        powers_text(exps.drop_last()) + " * "@ + power_text(exps.last())
    }
}

/// A term as text: the coefficient alone where the term has no variable,
/// else the coefficient, unless it is one, and the powers.
pub open spec fn term_text(term: Monomial) -> Seq<char> {
    if term.exponents.len() == 0 {
        field_text(term.coefficient)
    } else if term.coefficient == 1 {
        powers_text(term.exponents)
    } else {
        field_text(term.coefficient) + " * "@ + powers_text(term.exponents)
    }
}

/// The terms as text, with ` + ` between them.
pub open spec fn terms_text(terms: Seq<Monomial>) -> Seq<char>
    decreases terms.len(),
{
    if terms.len() == 0 {
        Seq::<char>::empty()
    } else if terms.len() == 1 {
        term_text(terms[0])
    } else {
        terms_text(terms.drop_last()) + " + "@ + term_text(terms.last())
    }
}

/// A polynomial as a line of text that starts with `g = `.
pub open spec fn polynomial_text(g: Polynomial) -> Seq<char> {
    "g = "@ + terms_text(g.terms) + "\n"@
}

/// The text of one decimal digit.
fn digit_text(d: u8) -> (r: &'static str)
    requires
        d < 10,
    ensures
        r@ == seq![digit_char(d as nat)],
{
    proof {
        reveal_strlit("0");
        reveal_strlit("1");
        reveal_strlit("2");
        reveal_strlit("3");
        reveal_strlit("4");
        reveal_strlit("5");
        reveal_strlit("6");
        reveal_strlit("7");
        reveal_strlit("8");
        reveal_strlit("9");
    }
    let r = if d == 0 {
        "0"
    } else if d == 1 {
        "1"
    } else if d == 2 {
        "2"
    } else if d == 3 {
        "3"
    } else if d == 4 {
        "4"
    } else if d == 5 {
        "5"
    } else if d == 6 {
        "6"
    } else if d == 7 {
        "7"
    } else if d == 8 {
        "8"
    } else {
        "9"
    };
    r
}

/// Appends the decimal digits of `n`.
fn push_decimal(out: &mut String, n: u128)
    ensures
        final(out)@ == old(out)@ + decimal(n as nat),
    decreases n,
{
    if n >= 10 {
        push_decimal(out, n / 10);
    }
    out.append(digit_text((n % 10) as u8));
}

/// Appends one power.
fn push_power(out: &mut String, var: usize, exp: usize)
    ensures
        final(out)@ == old(out)@ + power_text((var, exp)),
{
    out.append("X_");
    push_decimal(out, var as u128 + 1);
    if exp != 1 {
        out.append(" ^ ");
        push_decimal(out, exp as u128);
    }
}

/// The term as text, as it stands in a printed polynomial.
pub fn print_term(term: &Term) -> (r: String)
    requires
        term.coefficient.wf(),
    ensures
        r@ == term_text(term@),
{
    let n = term.exponents.len();
    if n == 0 {
        return term.coefficient.to_string();
    }
    let mut out = String::new();
    let one = FieldElement::from_u64(1);
    proof {
        if term.coefficient@ == 1 {
            FieldElement::lemma_view_injective(term.coefficient, one);
        }
    }
    if term.coefficient != one {
        out = term.coefficient.to_string();
        out.append(" * ");
    }
    let ghost head = out@;
    let ghost exps = term.exponents@;
    let mut k: usize = 0;
    while k < n
        invariant
            k <= n,
            n == term.exponents.len(),
            exps == term.exponents@,
            out@ == head + powers_text(exps.take(k as int)),
        decreases n - k,
    {
        let (var, exp) = term.exponents[k];
        if k > 0 {
            out.append(" * ");
        }
        push_power(&mut out, var, exp);
        proof {
            let now = exps.take(k + 1);
            assert(now.drop_last() =~= exps.take(k as int));
        }
        k = k + 1;
    }
    proof {
        assert(exps.take(n as int) =~= exps);
    }
    out
}

/// The polynomial as a line of text: `g = `, the terms with ` + ` between
/// them, and the end of the line.
pub fn print_mvpoly(poly: &MultivariatePolynomial) -> (r: String)
    requires
        poly@.wf(),
    ensures
        r@ == polynomial_text(poly@),
{
    let mut out = String::from_str("g = ");
    let ghost terms = poly@.terms;
    let n = poly.terms.len();
    let mut t: usize = 0;
    while t < n
        invariant
            t <= n,
            n == poly.terms.len(),
            terms == poly@.terms,
            poly@.wf(),
            out@ == "g = "@ + terms_text(terms.take(t as int)),
        decreases n - t,
    {
        let term = &poly.terms[t];
        proof {
            assert(terms[t as int] == term@);
        }
        if t > 0 {
            out.append(" + ");
        }
        let text = print_term(term);
        out.append(text.as_str());
        proof {
            let now = terms.take(t + 1);
            assert(now.drop_last() =~= terms.take(t as int));
        }
        t = t + 1;
    }
    out.append("\n");
    proof {
        assert(terms.take(n as int) =~= terms);
    }
    out
}

} // verus!
