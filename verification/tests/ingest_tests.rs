use ark_bls12_381::Fr;
use ark_ff::PrimeField;
use ark_poly::polynomial::multivariate::{SparsePolynomial, SparseTerm, Term as ArkTerm};
use ark_poly::polynomial::DenseMVPolynomial;
use sumcheck::{
    degj, from_coefficients_vec, parse_polynomial, parse_terms, print_mvpoly, verify, FieldElement, InputError,
    MultivariatePolynomial,
};

fn fe(x: u64) -> FieldElement {
    FieldElement::from_u64(x)
}

fn minus_one() -> FieldElement {
    FieldElement::from_limbs([
        0xffffffff00000000,
        0x53bda402fffe5bfe,
        0x3339d80809a1d805,
        0x73eda753299d7d48,
    ])
    .unwrap()
}

fn listed(g: &MultivariatePolynomial) -> Vec<(FieldElement, Vec<(usize, usize)>)> {
    g.terms.iter().map(|t| (t.coefficient, t.exponents.clone())).collect()
}

fn ark_listed(num_vars: usize, terms: &[(u64, Vec<(usize, usize)>)]) -> Vec<(FieldElement, Vec<(usize, usize)>)> {
    let p: SparsePolynomial<Fr, SparseTerm> = SparsePolynomial::from_coefficients_vec(
        num_vars,
        terms.iter().map(|(c, e)| (Fr::from(*c), SparseTerm::new(e.clone()))).collect(),
    );
    p.terms()
        .iter()
        .map(|(c, t)| (FieldElement::from_limbs(c.into_bigint().0).unwrap(), t.to_vec()))
        .collect()
}

fn error_of(r: Result<MultivariatePolynomial, InputError>) -> InputError {
    match r {
        Ok(_) => panic!("a polynomial where an error was expected"),
        Err(e) => e,
    }
}

#[test]
fn from_coefficients_vec_orders_the_variables_of_a_term() {
    let g = from_coefficients_vec(3, vec![(fe(5), vec![(2, 1), (0, 4)])]).unwrap();
    assert_eq!(listed(&g), vec![(fe(5), vec![(0, 4), (2, 1)])]);
}

#[test]
fn from_coefficients_vec_adds_up_a_repeated_variable() {
    let g = from_coefficients_vec(3, vec![(fe(5), vec![(1, 2), (0, 1), (1, 3)])]).unwrap();
    assert_eq!(listed(&g), vec![(fe(5), vec![(0, 1), (1, 5)])]);
    assert_eq!(degj(&g), vec![1, 5, 0]);
}

#[test]
fn from_coefficients_vec_drops_exponents_of_zero() {
    let g = from_coefficients_vec(1, vec![(fe(5), vec![(0, 0)]), (fe(2), vec![(7, 0), (0, 1)])]).unwrap();
    assert_eq!(listed(&g), vec![(fe(5), vec![]), (fe(2), vec![(0, 1)])]);
}

#[test]
fn from_coefficients_vec_adds_up_equal_terms() {
    let g = from_coefficients_vec(
        2,
        vec![(fe(5), vec![(0, 1), (1, 1)]), (fe(1), vec![(1, 2)]), (fe(7), vec![(1, 1), (0, 1)])],
    )
    .unwrap();
    assert_eq!(listed(&g).len(), 2);
    assert!(listed(&g).contains(&(fe(12), vec![(0, 1), (1, 1)])));
    assert!(listed(&g).contains(&(fe(1), vec![(1, 2)])));
}

#[test]
fn from_coefficients_vec_drops_terms_that_cancel() {
    let g = from_coefficients_vec(
        2,
        vec![(fe(1), vec![(0, 1)]), (minus_one(), vec![(0, 1)]), (fe(0), vec![(1, 1)]), (fe(3), vec![])],
    )
    .unwrap();
    assert_eq!(listed(&g), vec![(fe(3), vec![])]);
}

#[test]
fn from_coefficients_vec_of_nothing() {
    let g = from_coefficients_vec(0, vec![]).unwrap();
    assert_eq!(g.num_vars, 0);
    assert!(g.terms.is_empty());
}

#[test]
fn from_coefficients_vec_lists_terms_as_ark_poly_does() {
    let terms = vec![
        (2u64, vec![(0usize, 3usize)]),
        (1, vec![(0, 1), (2, 1)]),
        (1, vec![(1, 1), (2, 1)]),
        (9, vec![]),
        (4, vec![(2, 1), (1, 1)]),
        (6, vec![(1, 1), (1, 1), (0, 1)]),
    ];
    let g = from_coefficients_vec(3, terms.iter().map(|(c, e)| (fe(*c), e.clone())).collect()).unwrap();
    assert_eq!(g.num_vars, 3);
    assert_eq!(listed(&g), ark_listed(3, &terms));
}

#[test]
fn from_coefficients_vec_rejects_a_variable_out_of_range() {
    assert_eq!(error_of(from_coefficients_vec(3, vec![(fe(1), vec![(3, 1)])])), InputError::VariableOutOfRange);
    assert_eq!(error_of(from_coefficients_vec(0, vec![(fe(1), vec![(0, 1)])])), InputError::VariableOutOfRange);
    assert_eq!(
        error_of(from_coefficients_vec(2, vec![(fe(1), vec![(0, 1)]), (fe(1), vec![(1, 1), (usize::MAX, 2)])])),
        InputError::VariableOutOfRange
    );
}

#[test]
fn from_coefficients_vec_rejects_exponents_that_overflow() {
    assert_eq!(
        error_of(from_coefficients_vec(2, vec![(fe(1), vec![(0, usize::MAX), (1, 1)])])),
        InputError::ExponentOverflow
    );
    assert_eq!(
        error_of(from_coefficients_vec(2, vec![(fe(1), vec![(0, usize::MAX), (0, 1)])])),
        InputError::ExponentOverflow
    );
    assert!(from_coefficients_vec(2, vec![(fe(1), vec![(0, usize::MAX - 1), (1, 1)])]).is_ok());
    // a variable out of range is reported first
    assert_eq!(
        error_of(from_coefficients_vec(1, vec![(fe(1), vec![(0, usize::MAX), (1, 1)])])),
        InputError::VariableOutOfRange
    );
}

#[test]
fn parse_terms_of_the_example() {
    let terms = parse_terms("2 * X_1 ^ 3 + X_1 * X_3 + X_2 * X_3").unwrap();
    assert_eq!(
        terms,
        vec![(fe(2), vec![(0, 3)]), (fe(1), vec![(0, 1), (2, 1)]), (fe(1), vec![(1, 1), (2, 1)])]
    );
}

#[test]
fn parse_terms_of_a_constant() {
    assert_eq!(parse_terms("5").unwrap(), vec![(fe(5), vec![(0, 0)])]);
    assert_eq!(parse_terms("+5").unwrap(), vec![(fe(5), vec![(0, 0)])]);
    assert_eq!(parse_terms("4294967295").unwrap(), vec![(fe(4294967295), vec![(0, 0)])]);
    assert_eq!(parse_terms("X_1 + 0").unwrap(), vec![(fe(1), vec![(0, 1)]), (fe(0), vec![(0, 0)])]);
}

#[test]
fn parse_terms_keeps_the_order_and_the_repeats_of_the_text() {
    assert_eq!(parse_terms("X_3 * X_1 * X_3 ^ 2").unwrap(), vec![(fe(1), vec![(2, 1), (0, 1), (2, 2)])]);
}

#[test]
fn parse_terms_passes_over_a_number_that_is_not_first() {
    assert_eq!(parse_terms("3 * 4").unwrap(), vec![(fe(3), vec![])]);
    assert_eq!(parse_terms("X_1 * 3").unwrap(), vec![(fe(1), vec![(0, 1)])]);
    assert_eq!(parse_terms("2 * X_1 * 7 * X_2").unwrap(), vec![(fe(2), vec![(0, 1), (1, 1)])]);
}

#[test]
fn parse_terms_reads_an_exponent_that_is_no_number_as_one() {
    assert_eq!(parse_terms("X_2 ^ x").unwrap(), vec![(fe(1), vec![(1, 1)])]);
    assert_eq!(parse_terms("X_2 ^ ").unwrap(), vec![(fe(1), vec![(1, 1)])]);
    assert_eq!(parse_terms("X_2 ^ 0").unwrap(), vec![(fe(1), vec![(1, 0)])]);
    assert_eq!(parse_terms("X_2 ^ 3 ^ 9").unwrap(), vec![(fe(1), vec![(1, 3)])]);
}

#[test]
fn parse_terms_takes_any_name_before_the_underscore() {
    assert_eq!(parse_terms("Y_2").unwrap(), vec![(fe(1), vec![(1, 1)])]);
    assert_eq!(parse_terms("_2").unwrap(), vec![(fe(1), vec![(1, 1)])]);
    assert_eq!(parse_terms("X_2_9").unwrap(), vec![(fe(1), vec![(1, 1)])]);
    assert_eq!(parse_terms("Ω_1").unwrap(), vec![(fe(1), vec![(0, 1)])]);
}

#[test]
fn parse_terms_reports_a_missing_index() {
    assert_eq!(parse_terms("X"), Err(InputError::MissingIndex));
    assert_eq!(parse_terms(""), Err(InputError::MissingIndex));
    assert_eq!(parse_terms("X_1 + "), Err(InputError::MissingIndex));
    assert_eq!(parse_terms("2 * X1"), Err(InputError::MissingIndex));
    assert_eq!(parse_terms("4294967296"), Err(InputError::MissingIndex));
    assert_eq!(parse_terms("2*X_1"), Ok(vec![(fe(1), vec![(0, 1)])]));
}

#[test]
fn parse_terms_reports_an_invalid_index() {
    assert_eq!(parse_terms("X_a"), Err(InputError::InvalidIndex));
    assert_eq!(parse_terms("X_"), Err(InputError::InvalidIndex));
    assert_eq!(parse_terms("X_0"), Err(InputError::InvalidIndex));
    assert_eq!(parse_terms("X_1 + X_-1"), Err(InputError::InvalidIndex));
    assert_eq!(parse_terms("X_1^2"), Err(InputError::InvalidIndex));
}

#[test]
fn parse_terms_reports_the_first_error() {
    assert_eq!(parse_terms("X_a + X"), Err(InputError::InvalidIndex));
    assert_eq!(parse_terms("X + X_a"), Err(InputError::MissingIndex));
    assert_eq!(parse_terms("X_1 * Y * X_b"), Err(InputError::MissingIndex));
}

#[test]
fn parse_polynomial_of_the_example() {
    let g = parse_polynomial(3, "2 * X_1 ^ 3 + X_1 * X_3 + X_2 * X_3").unwrap();
    assert_eq!(g.num_vars, 3);
    assert_eq!(
        listed(&g),
        ark_listed(3, &[(2, vec![(0, 3)]), (1, vec![(0, 1), (2, 1)]), (1, vec![(1, 1), (2, 1)])])
    );
    assert_eq!(g.evaluate(&vec![fe(2), fe(3), fe(5)]), fe(41));
    assert_eq!(degj(&g), vec![3, 1, 1]);
    assert!(verify(&g, fe(12)));
    assert!(!verify(&g, fe(11)));
}

#[test]
fn parse_polynomial_with_a_constant() {
    let g = parse_polynomial(2, "X_1 * X_2 + 5").unwrap();
    // 5 at four points and the product at one
    assert!(verify(&g, fe(21)));
    assert_eq!(g.evaluate(&vec![fe(3), fe(4)]), fe(17));
}

#[test]
fn parse_polynomial_prints_as_it_was_normalised() {
    let g = parse_polynomial(2, "X_2 * X_1").unwrap();
    assert_eq!(print_mvpoly(&g), "g = X_1 * X_2\n");
    let g = parse_polynomial(2, "3 * X_1 + 4 * X_1").unwrap();
    assert_eq!(print_mvpoly(&g), "g = 7 * X_1\n");
}

#[test]
fn parse_polynomial_reports_errors() {
    assert_eq!(error_of(parse_polynomial(3, "X_4")), InputError::VariableOutOfRange);
    assert_eq!(error_of(parse_polynomial(3, "X_1 + X")), InputError::MissingIndex);
    assert_eq!(error_of(parse_polynomial(3, "X_1 + X_x")), InputError::InvalidIndex);
    assert_eq!(
        error_of(parse_polynomial(3, "X_1 ^ 18446744073709551615 * X_1")),
        if usize::BITS == 64 { InputError::ExponentOverflow } else { InputError::InvalidIndex }
    );
    assert!(parse_polynomial(0, "7").is_ok());
}

#[test]
fn terms_in_normal_form_are_in_the_form_of_the_library() {
    let normal = ark_listed(4, &[(3, vec![(3, 2), (1, 1), (3, 1)]), (1, vec![(0, 1)]), (8, vec![])]);
    let terms: Vec<sumcheck::Term> =
        normal.into_iter().map(|(c, e)| sumcheck::Term::new(c, e).unwrap()).collect();
    assert!(MultivariatePolynomial::new(4, terms).is_some());
}
