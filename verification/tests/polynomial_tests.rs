use ark_bls12_381::Fr;
use ark_ff::{BigInt, PrimeField};
use ark_poly::polynomial::multivariate::{SparsePolynomial, SparseTerm, Term as ArkTerm};
use ark_poly::polynomial::univariate::SparsePolynomial as ArkUnivariate;
use ark_poly::polynomial::{DenseMVPolynomial, Polynomial};
use sumcheck::{degj, get_rand, FieldElement, MultivariatePolynomial, Term, UnivariatePolynomial};

fn fe(x: u64) -> FieldElement {
    FieldElement::from_u64(x)
}

fn to_fr(a: &FieldElement) -> Fr {
    Fr::from_bigint(BigInt::new(a.limbs())).unwrap()
}

fn from_fr(a: Fr) -> FieldElement {
    FieldElement::from_limbs(a.into_bigint().0).unwrap()
}

fn example() -> MultivariatePolynomial {
    MultivariatePolynomial::new(
        3,
        vec![
            Term::new(fe(2), vec![(0, 3)]).unwrap(),
            Term::new(fe(1), vec![(0, 1), (2, 1)]).unwrap(),
            Term::new(fe(1), vec![(1, 1), (2, 1)]).unwrap(),
        ],
    )
    .unwrap()
}

fn ark_example() -> SparsePolynomial<Fr, SparseTerm> {
    SparsePolynomial::from_coefficients_vec(
        3,
        vec![
            (Fr::from(2u64), SparseTerm::new(vec![(0, 3)])),
            (Fr::from(1u64), SparseTerm::new(vec![(0, 1), (2, 1)])),
            (Fr::from(1u64), SparseTerm::new(vec![(1, 1), (2, 1)])),
        ],
    )
}

fn uni(entries: &[(usize, u64)]) -> UnivariatePolynomial {
    UnivariatePolynomial::new(entries.iter().map(|(d, c)| (*d, fe(*c))).collect()).unwrap()
}

#[test]
fn term_new_accepts_ordered_positive_exponents() {
    assert!(Term::new(fe(3), vec![]).is_some());
    assert!(Term::new(fe(3), vec![(0, 1)]).is_some());
    assert!(Term::new(fe(0), vec![(1, 2), (4, 1), (9, 7)]).is_some());
    let t = Term::new(fe(3), vec![(1, 2), (4, 1)]).unwrap();
    assert_eq!(t.coefficient, fe(3));
    assert_eq!(t.exponents, vec![(1, 2), (4, 1)]);
}

#[test]
fn term_new_rejects_other_lists() {
    assert!(Term::new(fe(3), vec![(0, 0)]).is_none());
    assert!(Term::new(fe(3), vec![(2, 1), (0, 1)]).is_none());
    assert!(Term::new(fe(3), vec![(1, 1), (1, 2)]).is_none());
    assert!(Term::new(fe(3), vec![(0, 1), (1, 0)]).is_none());
    assert!(Term::new(fe(3), vec![(0, 1), (2, 1), (1, 1)]).is_none());
}

#[test]
fn polynomial_new_checks_the_variables() {
    let t = || Term::new(fe(1), vec![(0, 1), (2, 1)]).unwrap();
    assert!(MultivariatePolynomial::new(3, vec![t()]).is_some());
    assert!(MultivariatePolynomial::new(2, vec![t()]).is_none());
    assert!(MultivariatePolynomial::new(0, vec![]).is_some());
    assert!(MultivariatePolynomial::new(0, vec![Term::new(fe(5), vec![]).unwrap()]).is_some());
    let bad = Term { coefficient: fe(1), exponents: vec![(1, 1), (0, 1)] };
    assert!(MultivariatePolynomial::new(3, vec![t(), bad]).is_none());
    let g = MultivariatePolynomial::new(3, vec![t()]).unwrap();
    assert_eq!(g.num_vars(), 3);
    assert_eq!(g.terms().len(), 1);
}

#[test]
fn polynomial_is_wf_looks_at_every_term() {
    let mut g = example();
    assert!(g.is_wf());
    g.terms[1].exponents.push((1, 1));
    assert!(!g.is_wf());
    let mut h = example();
    h.num_vars = 2;
    assert!(!h.is_wf());
    let mut k = example();
    k.terms[2].exponents[1].1 = 0;
    assert!(!k.is_wf());
}

#[test]
fn term_evaluate_example() {
    let t = Term::new(fe(5), vec![(0, 2), (2, 3)]).unwrap();
    // 5 * 2^2 * 3^3
    assert_eq!(t.evaluate(&vec![fe(2), fe(100), fe(3)]), fe(540));
    let c = Term::new(fe(9), vec![]).unwrap();
    assert_eq!(c.evaluate(&vec![]), fe(9));
}

#[test]
fn evaluate_example_polynomial() {
    let g = example();
    assert_eq!(g.evaluate(&vec![fe(2), fe(3), fe(5)]), fe(41));
    assert_eq!(g.evaluate(&vec![fe(0), fe(0), fe(0)]), fe(0));
    assert_eq!(g.evaluate(&vec![fe(1), fe(1), fe(1)]), fe(4));
    assert_eq!(g.evaluate(&vec![fe(7), fe(11), fe(13)]), fe(920));
    // coordinates past the variables are not looked at
    assert_eq!(g.evaluate(&vec![fe(2), fe(3), fe(5), fe(77)]), fe(41));
}

#[test]
fn evaluate_empty_polynomial_is_zero() {
    let g = MultivariatePolynomial::new(2, vec![]).unwrap();
    assert_eq!(g.evaluate(&vec![fe(4), fe(5)]), fe(0));
}

#[test]
fn hypercube_sum_of_example_is_twelve() {
    let g = example();
    let mut total = fe(0);
    for a in 0..2u64 {
        for b in 0..2u64 {
            for c in 0..2u64 {
                total = total.add(&g.evaluate(&vec![fe(a), fe(b), fe(c)]));
            }
        }
    }
    assert_eq!(total, fe(12));
}

#[test]
fn evaluate_agrees_with_ark_poly() {
    let g = example();
    let h = ark_example();
    for _ in 0..32 {
        let point: Vec<FieldElement> = (0..3).map(|_| get_rand().unwrap()).collect();
        let ark_point: Vec<Fr> = point.iter().map(to_fr).collect();
        assert_eq!(g.evaluate(&point), from_fr(h.evaluate(&ark_point)));
    }
}

#[test]
fn degj_example() {
    assert_eq!(degj(&example()), vec![3, 1, 1]);
}

#[test]
fn degj_takes_the_largest_exponent() {
    let g = MultivariatePolynomial::new(
        4,
        vec![
            Term::new(fe(1), vec![(0, 2), (3, 5)]).unwrap(),
            Term::new(fe(1), vec![(0, 7), (1, 1)]).unwrap(),
            Term::new(fe(0), vec![(3, 9)]).unwrap(),
            Term::new(fe(4), vec![]).unwrap(),
        ],
    )
    .unwrap();
    assert_eq!(degj(&g), vec![7, 1, 0, 9]);
    assert_eq!(degj(&MultivariatePolynomial::new(2, vec![]).unwrap()), vec![0, 0]);
    assert_eq!(degj(&MultivariatePolynomial::new(0, vec![]).unwrap()), Vec::<usize>::new());
}

#[test]
fn degj_agrees_with_exhaustive_scan_of_ark_terms() {
    let h = ark_example();
    let mut expected = vec![0usize; h.num_vars()];
    for (_, term) in h.terms() {
        for (var, exp) in term.iter() {
            expected[*var] = expected[*var].max(*exp);
        }
    }
    assert_eq!(degj(&example()), expected);
}

#[test]
fn clone_keeps_the_polynomial() {
    let g = example();
    let h = g.clone();
    assert_eq!(h.num_vars, 3);
    assert_eq!(h.terms.len(), 3);
    for (a, b) in g.terms.iter().zip(h.terms.iter()) {
        assert_eq!(a.coefficient, b.coefficient);
        assert_eq!(a.exponents, b.exponents);
    }
}

#[test]
fn univariate_new_accepts_only_the_canonical_form() {
    assert!(UnivariatePolynomial::new(vec![]).is_some());
    assert!(UnivariatePolynomial::new(vec![(0, fe(1)), (3, fe(8))]).is_some());
    assert!(UnivariatePolynomial::new(vec![(3, fe(8)), (0, fe(1))]).is_none());
    assert!(UnivariatePolynomial::new(vec![(1, fe(8)), (1, fe(1))]).is_none());
    assert!(UnivariatePolynomial::new(vec![(0, fe(0))]).is_none());
    assert!(UnivariatePolynomial::new(vec![(0, fe(1)), (2, fe(0))]).is_none());
}

#[test]
fn univariate_zero_and_monomial() {
    assert!(UnivariatePolynomial::zero().coeffs.is_empty());
    assert_eq!(UnivariatePolynomial::zero().degree(), 0);
    assert_eq!(UnivariatePolynomial::zero().evaluate(&fe(5)), fe(0));
    let m = UnivariatePolynomial::monomial(3, fe(8));
    assert_eq!(m.coeffs, vec![(3, fe(8))]);
    assert_eq!(m.degree(), 3);
    assert_eq!(m.evaluate(&fe(2)), fe(64));
    assert!(UnivariatePolynomial::monomial(3, fe(0)).coeffs.is_empty());
}

#[test]
fn univariate_evaluate_example() {
    // 8 X^3 + 2 X + 1
    let p = uni(&[(0, 1), (1, 2), (3, 8)]);
    assert_eq!(p.evaluate(&fe(0)), fe(1));
    assert_eq!(p.evaluate(&fe(1)), fe(11));
    assert_eq!(p.evaluate(&fe(7)), fe(2759));
    assert_eq!(p.degree(), 3);
}

#[test]
fn univariate_add_merges_by_degree() {
    let a = uni(&[(0, 1), (2, 5), (7, 1)]);
    let b = uni(&[(1, 4), (2, 6), (9, 2)]);
    let s = a.add(&b);
    assert_eq!(s.coeffs, vec![(0, fe(1)), (1, fe(4)), (2, fe(11)), (7, fe(1)), (9, fe(2))]);
    assert_eq!(s.degree(), 9);
    assert_eq!(b.add(&a).coeffs, s.coeffs);
    assert_eq!(a.add(&UnivariatePolynomial::zero()).coeffs, a.coeffs);
    assert_eq!(UnivariatePolynomial::zero().add(&a).coeffs, a.coeffs);
}

#[test]
fn univariate_add_drops_a_sum_of_zero() {
    let minus_one = FieldElement::from_limbs([
        0xffffffff00000000,
        0x53bda402fffe5bfe,
        0x3339d80809a1d805,
        0x73eda753299d7d48,
    ])
    .unwrap();
    let a = UnivariatePolynomial::new(vec![(0, fe(3)), (4, fe(1))]).unwrap();
    let b = UnivariatePolynomial::new(vec![(4, minus_one)]).unwrap();
    let s = a.add(&b);
    assert_eq!(s.coeffs, vec![(0, fe(3))]);
    assert_eq!(s.degree(), 0);
}

#[test]
fn univariate_agrees_with_ark_poly() {
    for _ in 0..16 {
        let a = UnivariatePolynomial::new(vec![(0, get_rand().unwrap()), (3, get_rand().unwrap())]).unwrap();
        let b = UnivariatePolynomial::new(vec![(1, get_rand().unwrap()), (3, get_rand().unwrap())]).unwrap();
        let ark_a = ArkUnivariate::from_coefficients_vec(a.coeffs.iter().map(|(d, c)| (*d, to_fr(c))).collect());
        let ark_b = ArkUnivariate::from_coefficients_vec(b.coeffs.iter().map(|(d, c)| (*d, to_fr(c))).collect());
        let s = a.add(&b);
        let ark_s = ark_a + ark_b;
        let x = get_rand().unwrap();
        assert_eq!(s.evaluate(&x), from_fr(ark_s.evaluate(&to_fr(&x))));
        assert_eq!(s.degree(), ark_s.degree());
        let listed: Vec<(usize, FieldElement)> = ark_s.iter().map(|(d, c)| (*d, from_fr(*c))).collect();
        assert_eq!(s.coeffs, listed);
    }
}

#[test]
fn univariate_clone_keeps_the_entries() {
    let a = uni(&[(0, 1), (2, 5)]);
    assert_eq!(a.clone().coeffs, a.coeffs);
}
