//! The sum-check protocol over the scalar field of BLS12-381.
//!
//! A prover claims that a multivariate polynomial sums to a given value over
//! the boolean hypercube; a verifier checks the claim round by round from
//! univariate polynomials and random challenges.
//!
//! - `field`: the field elements; `ark_ff` does the arithmetic.
//! - `hypercube`: the points of the hypercube by their numbers.
//! - `multivariate`, `univariate`: the polynomials.
//! - `prover`: the polynomial of each round.
//! - `protocol`: the checks of the verifier and a whole run.
//! - `lexing`, `ingest`, `display`: polynomials from and to text.

pub mod display;
pub mod field;
pub mod hypercube;
pub mod ingest;
pub mod lexing;
pub mod multivariate;
pub mod protocol;
pub mod prover;
pub mod univariate;

pub use display::{print_mvpoly, print_term};
pub use field::{get_rand, FieldElement};
pub use hypercube::n_to_vec;
pub use ingest::{from_coefficients_vec, parse_polynomial, parse_terms, InputError, RawTerm};
pub use multivariate::{degj, MVPoly, MultivariatePolynomial, Term};
pub use protocol::{check_final, check_round, run_sumcheck, verify, RejectReason, VerificationResult};
pub use prover::{Prover, MAX_VARS};
pub use univariate::{UVPoly, UnivariatePolynomial};
