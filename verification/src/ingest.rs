//! Reading a polynomial from a line of text, and bringing a list of terms
//! into the normal form in which `ark_poly` holds a polynomial.

use crate::field::FieldElement;
use crate::lexing::{parse_unsigned, pieces_view, split, split_spec, unsigned_spec};
use crate::multivariate::{Monomial, MultivariatePolynomial, Polynomial, Term};
use ark_bls12_381::Fr;
use ark_ff::{BigInt, PrimeField};
use ark_poly::polynomial::multivariate::{SparsePolynomial, SparseTerm, Term as SparseTermOps};
use ark_poly::polynomial::DenseMVPolynomial;
use vstd::prelude::*;
use vstd::slice::slice_to_vec;
use vstd::string::*;

verus! {

/// Why a text or a list of terms gives no polynomial.
#[derive(Debug, Clone, Copy, PartialEq, Eq, Structural)]
pub enum InputError {
    /// A factor that is no number has no underscore, so no index.
    MissingIndex,
    /// What follows the underscore of a variable is no number from one on.
    InvalidIndex,
    /// A variable with an exponent other than zero has an index that the
    /// number of variables does not allow.
    VariableOutOfRange,
    /// The exponents of one term add up to more than the machine can count.
    ExponentOverflow,
    /// The terms in their normal form are not in the form that this
    /// library works on.
    NotNormalized,
}

/// A term as it is read: the coefficient and the pairs of a variable's
/// index and an exponent, in the order of the text.
pub type RawTerm = (FieldElement, Vec<(usize, usize)>);

/// What a list of raw terms holds.
pub open spec fn raw_view(terms: Seq<RawTerm>) -> Seq<(nat, Seq<(usize, usize)>)> {
    Seq::new(terms.len(), |i: int| (terms[i].0@, terms[i].1@))
}

/// The sum of the exponents of a list of pairs.
pub open spec fn total_power(exps: Seq<(usize, usize)>) -> nat
    decreases exps.len(),
{
    if exps.len() == 0 {
        0
    } else {
        total_power(exps.drop_last()) + exps.last().1 as nat
    }
}

/// Every variable that has an exponent other than zero has an index below `num_vars`.
pub open spec fn powers_in_range(exps: Seq<(usize, usize)>, num_vars: usize) -> bool {
    forall|k: int| 0 <= k < exps.len() && (#[trigger] exps[k]).1 != 0 ==> exps[k].0 < num_vars
}

/// The terms that `ark_poly` holds for a polynomial in `num_vars` variables
/// made from these terms: each term with its pairs in the order of the
/// variables, one pair for each variable and none with the exponent zero;
/// the terms in the order of `ark_poly`, equal ones added up, and none
/// with the coefficient zero.
pub uninterp spec fn ark_normal_form(num_vars: usize, terms: Seq<(nat, Seq<(usize, usize)>)>) -> Seq<
    (nat, Seq<(usize, usize)>),
>;

/// `SparsePolynomial::from_coefficients_vec` of `ark_poly`, on terms made
/// with `SparseTerm::new`: the terms of the polynomial that it builds.
/// The inputs on which it asserts or on which an addition of exponents
/// could overflow are left out.
#[verifier::external_body]
fn ark_from_coefficients_vec(num_vars: usize, terms: &Vec<RawTerm>) -> (r: Vec<RawTerm>)
    requires
        forall|i: int|
            0 <= i < terms@.len() ==> (#[trigger] terms@[i]).0.wf() && total_power(terms@[i].1@) <= usize::MAX
                && powers_in_range(terms@[i].1@, num_vars),
    ensures
        raw_view(r@) == ark_normal_form(num_vars, raw_view(terms@)),
{
    let input = terms.iter().map(
        |t| (Fr::from_bigint(BigInt::new(t.0.limbs())).unwrap(), SparseTerm::new(t.1.clone())),
    ).collect();
    let p = SparsePolynomial::from_coefficients_vec(num_vars, input);
    p.terms.iter().map(|t| (FieldElement::from_limbs(t.0.into_bigint().0).unwrap(), t.1.to_vec())).collect()
}

/// The terms that a list of raw terms stands for.
pub open spec fn monomials_of(terms: Seq<(nat, Seq<(usize, usize)>)>) -> Seq<Monomial> {
    Seq::new(terms.len(), |i: int| Monomial { coefficient: terms[i].0, exponents: terms[i].1 })
}

/// What becomes of a list of raw terms: an error where a variable is out
/// of range or the exponents of a term overflow, else the polynomial of
/// the terms in their normal form, where that is well formed.
pub open spec fn assemble_spec(num_vars: usize, raw: Seq<(nat, Seq<(usize, usize)>)>) -> Result<
    Polynomial,
    InputError,
> {
    if exists|i: int| 0 <= i < raw.len() && !powers_in_range((#[trigger] raw[i]).1, num_vars) {
        Err(InputError::VariableOutOfRange)
    } else if exists|i: int| 0 <= i < raw.len() && total_power((#[trigger] raw[i]).1) > usize::MAX {
        Err(InputError::ExponentOverflow)
    } else {
        let g = Polynomial { num_vars: num_vars as nat, terms: monomials_of(ark_normal_form(num_vars, raw)) };
        if g.wf() {
            Ok(g)
        } else {
            Err(InputError::NotNormalized)
        }
    }
}

/// The result is the polynomial or the error that `expected` names.
pub open spec fn outcome_is(r: Result<MultivariatePolynomial, InputError>, expected: Result<Polynomial, InputError>) -> bool {
    match expected {
        Ok(g) => r is Ok && r->Ok_0@ == g,
        Err(e) => r == Err::<MultivariatePolynomial, InputError>(e),
    }
}

/// Whether every variable with an exponent other than zero is below `num_vars`.
fn check_range(exps: &Vec<(usize, usize)>, num_vars: usize) -> (ok: bool)
    ensures
        ok == powers_in_range(exps@, num_vars),
{
    let mut k: usize = 0;
    while k < exps.len()
        invariant
            k <= exps.len(),
            forall|j: int| 0 <= j < k && (#[trigger] exps@[j]).1 != 0 ==> exps@[j].0 < num_vars,
        decreases exps.len() - k,
    {
        if exps[k].1 != 0 && exps[k].0 >= num_vars {
            return false;
        }
        k = k + 1;
    }
    true
}

/// Whether the exponents add up to a number that the machine can count.
fn check_total(exps: &Vec<(usize, usize)>) -> (ok: bool)
    ensures
        ok == (total_power(exps@) <= usize::MAX),
{
    let mut total: usize = 0;
    let mut k: usize = 0;
    while k < exps.len()
        invariant
            k <= exps.len(),
            total as nat == total_power(exps@.take(k as int)),
        decreases exps.len() - k,
    {
        proof {
            assert(exps@.take(k + 1).drop_last() =~= exps@.take(k as int));
            lemma_total_power_grows(exps@, k + 1);
        }
        if exps[k].1 > usize::MAX - total {
            return false;
        }
        total = total + exps[k].1;
        k = k + 1;
    }
    proof {
        assert(exps@.take(k as int) =~= exps@);
    }
    true
}

/// The exponents of a longer list add up to at least as much.
proof fn lemma_total_power_grows(exps: Seq<(usize, usize)>, k: int)
    requires
        0 <= k <= exps.len(),
    ensures
        total_power(exps.take(k)) <= total_power(exps),
    decreases exps.len() - k,
{
    if k < exps.len() {
        lemma_total_power_grows(exps, k + 1);
        assert(exps.take(k + 1).drop_last() =~= exps.take(k));
    } else {
        assert(exps.take(k) =~= exps);
    }
}

/// A copy of the pairs.
fn copy_pairs(pairs: &Vec<(usize, usize)>) -> (r: Vec<(usize, usize)>)
    ensures
        r@ == pairs@,
{
    let mut r: Vec<(usize, usize)> = Vec::new();
    let mut k: usize = 0;
    while k < pairs.len()
        invariant
            k <= pairs.len(),
            r@ == pairs@.take(k as int),
        decreases pairs.len() - k,
    {
        r.push(pairs[k]);
        k = k + 1;
    }
    r
}

/// The polynomial in `num_vars` variables of these terms, brought into the
/// normal form of `ark_poly`: within a term the variables are put in
/// order, and the terms are put in order and equal ones added up.
pub fn from_coefficients_vec(num_vars: usize, terms: Vec<RawTerm>) -> (r: Result<MultivariatePolynomial, InputError>)
    requires
        forall|i: int| 0 <= i < terms@.len() ==> (#[trigger] terms@[i]).0.wf(),
    ensures
        outcome_is(r, assemble_spec(num_vars, raw_view(terms@))),
{
    let ghost raw = raw_view(terms@);
    let mut i: usize = 0;
    while i < terms.len()
        invariant
            i <= terms.len(),
            raw == raw_view(terms@),
            forall|j: int| 0 <= j < i ==> powers_in_range((#[trigger] raw[j]).1, num_vars),
        decreases terms.len() - i,
    {
        if !check_range(&terms[i].1, num_vars) {
            proof {
                assert(!powers_in_range(raw[i as int].1, num_vars));
            }
            return Err(InputError::VariableOutOfRange);
        }
        i = i + 1;
    }
    let mut i: usize = 0;
    while i < terms.len()
        invariant
            i <= terms.len(),
            raw == raw_view(terms@),
            forall|j: int| 0 <= j < raw.len() ==> powers_in_range((#[trigger] raw[j]).1, num_vars),
            forall|j: int| 0 <= j < i ==> total_power((#[trigger] raw[j]).1) <= usize::MAX,
        decreases terms.len() - i,
    {
        if !check_total(&terms[i].1) {
            proof {
                assert(total_power(raw[i as int].1) > usize::MAX);
            }
            return Err(InputError::ExponentOverflow);
        }
        i = i + 1;
    }
    proof {
        assert forall|j: int| 0 <= j < terms@.len() implies (#[trigger] terms@[j]).0.wf() && total_power(
            terms@[j].1@,
        ) <= usize::MAX && powers_in_range(terms@[j].1@, num_vars) by {
            assert(raw[j].1 == terms@[j].1@);
        }
    }
    let normal = ark_from_coefficients_vec(num_vars, &terms);
    let ghost listed = raw_view(normal@);
    let mut ordered: Vec<Term> = Vec::new();
    let mut i: usize = 0;
    while i < normal.len()
        invariant
            i <= normal.len(),
            listed == raw_view(normal@),
            ordered@.len() == i,
            forall|j: int| 0 <= j < i ==> (#[trigger] ordered@[j])@ == monomials_of(listed)[j],
        decreases normal.len() - i,
    {
        let exponents = copy_pairs(&normal[i].1);
        ordered.push(Term { coefficient: normal[i].0, exponents });
        i = i + 1;
    }
    let ghost g = Polynomial { num_vars: num_vars as nat, terms: monomials_of(listed) };
    proof {
        assert(crate::multivariate::polynomial_of(num_vars, ordered@).terms =~= g.terms);
    }
    match MultivariatePolynomial::new(num_vars, ordered) {
        Some(p) => Ok(p),
        None => Err(InputError::NotNormalized),
    }
}

/// The text ` + `, which stands between two terms.
pub open spec fn sep_plus() -> Seq<u8> {
    seq![32u8, 43u8, 32u8]
}

/// The text ` * `, which stands between two factors of a term.
pub open spec fn sep_times() -> Seq<u8> {
    seq![32u8, 42u8, 32u8]
}

/// The text ` ^ `, which stands between a variable and its exponent.
pub open spec fn sep_power() -> Seq<u8> {
    seq![32u8, 94u8, 32u8]
}

/// The underscore, which stands between the name of a variable and its index.
pub open spec fn sep_index() -> Seq<u8> {
    seq![95u8]
}

/// What a factor that is no number stands for: the variable whose index,
/// counted from one, follows the first underscore, with the exponent that
/// follows ` ^ `, or with the exponent one where none follows or what
/// follows is no number.
pub open spec fn factor_spec(p: Seq<u8>) -> Result<(usize, usize), InputError> {
    let pieces = split_spec(p, sep_power());
    let exponent = if pieces.len() > 1 && unsigned_spec(pieces[1], usize::MAX as nat) is Some {
        unsigned_spec(pieces[1], usize::MAX as nat)->0
    } else {
        1
    };
    let name = split_spec(pieces[0], sep_index());
    if name.len() < 2 {
        Err(InputError::MissingIndex)
    } else {
        match unsigned_spec(name[1], usize::MAX as nat) {
            None => Err(InputError::InvalidIndex),
            Some(index) => if index == 0 {
                Err(InputError::InvalidIndex)
            } else {
                Ok(((index - 1) as usize, exponent as usize))
            },
        }
    }
}

/// The pairs that the factors of a term stand for, in their order. A
/// factor that is a number stands for none. The first factor that stands
/// for no variable gives its error.
pub open spec fn factors_spec(parts: Seq<Seq<u8>>) -> Result<Seq<(usize, usize)>, InputError>
    decreases parts.len(),
{
    if parts.len() == 0 {
        Ok(Seq::empty())
    } else {
        match factors_spec(parts.drop_last()) {
            Err(e) => Err(e),
            Ok(powers) => if unsigned_spec(parts.last(), u32::MAX as nat) is Some {
                Ok(powers)
            } else {
                match factor_spec(parts.last()) {
                    Err(e) => Err(e),
                    Ok(power) => Ok(powers.push(power)),
                }
            },
        }
    }
}

/// What the text of one term stands for. Its factors stand between ` * `.
/// A first factor that is a number is the coefficient, which is one where
/// the first factor is none. A number alone is a constant term, written
/// with the one pair `(0, 0)`.
pub open spec fn term_spec(t: Seq<u8>) -> Result<(nat, Seq<(usize, usize)>), InputError> {
    let parts = split_spec(t, sep_times());
    let first = unsigned_spec(parts[0], u32::MAX as nat);
    if first is Some && parts.len() < 2 {
        Ok((first->0, seq![(0usize, 0usize)]))
    } else {
        match factors_spec(parts) {
            Err(e) => Err(e),
            Ok(powers) => Ok((
                if first is Some {
                    first->0
                } else {
                    1
                },
                powers,
            )),
        }
    }
}

/// The raw terms that a list of texts stands for; the first text that
/// stands for no term gives its error.
pub open spec fn terms_spec(texts: Seq<Seq<u8>>) -> Result<Seq<(nat, Seq<(usize, usize)>)>, InputError>
    decreases texts.len(),
{
    if texts.len() == 0 {
        Ok(Seq::empty())
    } else {
        match terms_spec(texts.drop_last()) {
            Err(e) => Err(e),
            Ok(terms) => match term_spec(texts.last()) {
                Err(e) => Err(e),
                Ok(term) => Ok(terms.push(term)),
            },
        }
    }
}

/// The polynomial in `num_vars` variables that a line of text stands for:
/// its terms stand between ` + `, and the polynomial is made of them as
/// `from_coefficients_vec` makes it.
pub open spec fn parse_spec(num_vars: usize, text: Seq<u8>) -> Result<Polynomial, InputError> {
    match terms_spec(split_spec(text, sep_plus())) {
        Err(e) => Err(e),
        Ok(raw) => assemble_spec(num_vars, raw),
    }
}

/// An error among the first factors is the error of the whole list.
proof fn lemma_factors_error(parts: Seq<Seq<u8>>, k: int)
    requires
        0 <= k <= parts.len(),
        factors_spec(parts.take(k)) is Err,
    ensures
        factors_spec(parts) == factors_spec(parts.take(k)),
    decreases parts.len() - k,
{
    if k < parts.len() {
        assert(parts.take(k + 1).drop_last() =~= parts.take(k));
        lemma_factors_error(parts, k + 1);
    } else {
        assert(parts.take(k) =~= parts);
    }
}

/// An error among the first terms is the error of the whole list.
proof fn lemma_terms_error(texts: Seq<Seq<u8>>, k: int)
    requires
        0 <= k <= texts.len(),
        terms_spec(texts.take(k)) is Err,
    ensures
        terms_spec(texts) == terms_spec(texts.take(k)),
    decreases texts.len() - k,
{
    if k < texts.len() {
        assert(texts.take(k + 1).drop_last() =~= texts.take(k));
        lemma_terms_error(texts, k + 1);
    } else {
        assert(texts.take(k) =~= texts);
    }
}

/// Reads a factor that is no number.
fn parse_factor(p: &Vec<u8>) -> (r: Result<(usize, usize), InputError>)
    ensures
        r == factor_spec(p@),
{
    let power: Vec<u8> = vec![32u8, 94u8, 32u8];
    let underscore: Vec<u8> = vec![95u8];
    proof {
        assert(underscore@ =~= sep_index());
    }
    let pieces = split(p, &power);
    let mut exponent: usize = 1;
    if pieces.len() > 1 {
        match parse_unsigned(&pieces[1], usize::MAX as u64) {
            Some(e) => {
                exponent = e as usize;
            },
            None => {},
        }
    }
    let name = split(&pieces[0], &underscore);
    if name.len() < 2 {
        return Err(InputError::MissingIndex);
    }
    match parse_unsigned(&name[1], usize::MAX as u64) {
        None => Err(InputError::InvalidIndex),
        Some(index) => {
            if index == 0 {
                Err(InputError::InvalidIndex)
            } else {
                Ok(((index - 1) as usize, exponent))
            }
        },
    }
}

/// Reads one term.
fn parse_term(t: &Vec<u8>) -> (r: Result<RawTerm, InputError>)
    ensures
        match term_spec(t@) {
            Ok(term) => r is Ok && r->Ok_0.0.wf() && (r->Ok_0.0@, r->Ok_0.1@) == term,
            Err(e) => r == Err::<RawTerm, InputError>(e),
        },
{
    let times: Vec<u8> = vec![32u8, 42u8, 32u8];
    let parts = split(t, &times);
    let ghost texts = pieces_view(parts@);
    let first = parse_unsigned(&parts[0], u32::MAX as u64);
    if first.is_some() && parts.len() < 2 {
        let mut constant: Vec<(usize, usize)> = Vec::new();
        constant.push((0, 0));
        return Ok((FieldElement::from_u64(first.unwrap()), constant));
    }
    let coefficient: u64 = match first {
        Some(c) => c,
        None => 1,
    };
    let mut powers: Vec<(usize, usize)> = Vec::new();
    let mut k: usize = 0;
    while k < parts.len()
        invariant
            k <= parts.len(),
            texts == pieces_view(parts@),
            texts == split_spec(t@, sep_times()),
            !(unsigned_spec(texts[0], u32::MAX as nat) is Some && texts.len() < 2),
            factors_spec(texts.take(k as int)) == Ok::<Seq<(usize, usize)>, InputError>(powers@),
        decreases parts.len() - k,
    {
        proof {
            assert(texts.take(k + 1).drop_last() =~= texts.take(k as int));
        }
        if parse_unsigned(&parts[k], u32::MAX as u64).is_none() {
            match parse_factor(&parts[k]) {
                Err(e) => {
                    proof {
                        lemma_factors_error(texts, k + 1);
                    }
                    return Err(e);
                },
                Ok(power) => {
                    powers.push(power);
                },
            }
        }
        k = k + 1;
    }
    proof {
        assert(texts.take(k as int) =~= texts);
    }
    Ok((FieldElement::from_u64(coefficient), powers))
}

/// Reads the terms of a line of text, in the order of the text and as
/// they are written.
pub fn parse_terms(text: &str) -> (r: Result<Vec<RawTerm>, InputError>)
    ensures
        match terms_spec(split_spec(text.spec_bytes(), sep_plus())) {
            Ok(terms) => r is Ok && raw_view(r->Ok_0@) == terms && forall|i: int|
                0 <= i < r->Ok_0@.len() ==> (#[trigger] r->Ok_0@[i]).0.wf(),
            Err(e) => r == Err::<Vec<RawTerm>, InputError>(e),
        },
{
    let bytes = slice_to_vec(text.as_bytes());
    let plus: Vec<u8> = vec![32u8, 43u8, 32u8];
    let pieces = split(&bytes, &plus);
    let ghost texts = pieces_view(pieces@);
    let mut terms: Vec<RawTerm> = Vec::new();
    let mut k: usize = 0;
    proof {
        assert(raw_view(terms@) =~= Seq::empty());
    }
    while k < pieces.len()
        invariant
            k <= pieces.len(),
            texts == pieces_view(pieces@),
            texts == split_spec(text.spec_bytes(), sep_plus()),
            terms_spec(texts.take(k as int)) == Ok::<Seq<(nat, Seq<(usize, usize)>)>, InputError>(
                raw_view(terms@),
            ),
            forall|i: int| 0 <= i < terms@.len() ==> (#[trigger] terms@[i]).0.wf(),
        decreases pieces.len() - k,
    {
        proof {
            assert(texts.take(k + 1).drop_last() =~= texts.take(k as int));
        }
        match parse_term(&pieces[k]) {
            Err(e) => {
                proof {
                    lemma_terms_error(texts, k + 1);
                }
                return Err(e);
            },
            Ok(term) => {
                let ghost before = raw_view(terms@);
                let ghost added = (term.0@, term.1@);
                terms.push(term);
                proof {
                    assert(raw_view(terms@) =~= before.push(added));
                }
            },
        }
        k = k + 1;
    }
    proof {
        assert(texts.take(k as int) =~= texts);
    }
    Ok(terms)
}

/// Reads a polynomial in `num_vars` variables from a line of text such as
/// `2 * X_1 ^ 3 + X_1 * X_3 + X_2 * X_3`.
pub fn parse_polynomial(num_vars: usize, text: &str) -> (r: Result<MultivariatePolynomial, InputError>)
    ensures
        outcome_is(r, parse_spec(num_vars, text.spec_bytes())),
{
    match parse_terms(text) {
        Err(e) => Err(e),
        Ok(terms) => from_coefficients_vec(num_vars, terms),
    }
}

} // verus!
