//! The prover: it binds the verifier's challenges one by one and answers
//! each round with the univariate polynomial of that round.

use crate::field::{all_wf, fadd, fmul, fpow, lemma_fadd_laws, lemma_fmul_laws, values, FieldElement};
use crate::hypercube::{
    bits_be, expansion_len, lemma_bit_width_bound, lemma_bits_leading, lemma_bits_shape, n_to_vec,
};
use crate::multivariate::{
    lemma_eval_agrees, monomial_eval, terms_eval, variables_below, MultivariatePolynomial, Polynomial, Term,
};
use crate::univariate::UnivariatePolynomial;
use vstd::arithmetic::power2::*;
use vstd::prelude::*;

verus! {

/// The largest number of variables for which the prover enumerates the hypercube.
pub const MAX_VARS: usize = 32;

/// The point that gives the values `bound` to the first variables, `x` to
/// the next one and `suffix` to those after it.
pub open spec fn assignment(bound: Seq<nat>, x: nat, suffix: Seq<nat>) -> Seq<nat> {
    bound.push(x) + suffix
}

/// The degree that a restricted term has in the variable left open.
pub open spec fn pivot_degree(exponent: Option<usize>) -> nat {
    match exponent {
        Some(e) => e as nat,
        None => 0,
    }
}

/// The sum of the values of `g` at the points `pre + bits_be(n, k)` for the
/// numbers `n` below `m`: the points that the prover visits one after the
/// other.
pub open spec fn range_sum(g: Polynomial, pre: Seq<nat>, k: nat, m: nat) -> nat
    decreases m,
{
    if m == 0 {
        0
    } else {
        fadd(range_sum(g, pre, k, (m - 1) as nat), g.eval(pre + bits_be((m - 1) as nat, k)))
    }
}

/// Below `2^(k-1)` the leading digit is zero.
proof fn lemma_range_sum_low(g: Polynomial, pre: Seq<nat>, k: nat, m: nat)
    requires
        k >= 1,
        m <= pow2((k - 1) as nat),
    ensures
        range_sum(g, pre, k, m) == range_sum(g, pre.push(0), (k - 1) as nat, m),
    decreases m,
{
    if m > 0 {
        let n = (m - 1) as nat;
        lemma_range_sum_low(g, pre, k, n);
        lemma_bits_leading(n, 0, k);
        assert(pre + (seq![0nat] + bits_be(n, (k - 1) as nat)) =~= pre.push(0) + bits_be(n, (k - 1) as nat));
    }
}

/// From `2^(k-1)` on the leading digit is one.
proof fn lemma_range_sum_high(g: Polynomial, pre: Seq<nat>, k: nat, m: nat)
    requires
        k >= 1,
        m <= pow2((k - 1) as nat),
    ensures
        range_sum(g, pre, k, pow2((k - 1) as nat) + m) == fadd(
            range_sum(g, pre, k, pow2((k - 1) as nat)),
            range_sum(g, pre.push(1), (k - 1) as nat, m),
        ),
    decreases m,
{
    let half = pow2((k - 1) as nat);
    let low = range_sum(g, pre, k, half);
    if !(m == 0) {
        let n = (m - 1) as nat;
        lemma_range_sum_high(g, pre, k, n);
        lemma_bits_leading(n, 1, k);
        assert(pre + (seq![1nat] + bits_be(n, (k - 1) as nat)) =~= pre.push(1) + bits_be(n, (k - 1) as nat));
        let value = g.eval(pre.push(1) + bits_be(n, (k - 1) as nat));
        lemma_fadd_laws(low, range_sum(g, pre.push(1), (k - 1) as nat, n), value);
    }
}

/// Visiting the points by their numbers gives the sum over the hypercube:
/// the values of `g` at `pre` followed by the binary expansion of each
/// number below `2^k` add up to the sum of `g` over all boolean values of
/// the `k` variables that `pre` leaves open.
pub proof fn lemma_range_sum_total(g: Polynomial, pre: Seq<nat>, k: nat)
    requires
        pre.len() + k == g.num_vars,
    ensures
        range_sum(g, pre, k, pow2(k)) == g.partial_sum(pre),
    decreases k,
{
    lemma2_to64();
    if k == 0 {
        assert(range_sum(g, pre, 0, 0) == 0);
    } else {
        let half = pow2((k - 1) as nat);
        lemma_pow2_unfold(k);
        lemma_range_sum_high(g, pre, k, half);
        lemma_range_sum_low(g, pre, k, half);
        lemma_range_sum_total(g, pre.push(0), (k - 1) as nat);
        lemma_range_sum_total(g, pre.push(1), (k - 1) as nat);
    }
}

/// One more pair of a term folded into the coefficient, or kept as the
/// power of the variable left open.
proof fn lemma_restrict_step(
    tc: nat,
    exps: Seq<(usize, usize)>,
    i: int,
    point: Seq<nat>,
    pivot: nat,
    c: nat,
    d: nat,
    x: nat,
)
    requires
        0 <= i < exps.len(),
        point[pivot as int] == x,
        fmul(c, fpow(x, d)) == fmul(tc, monomial_eval(exps.take(i), point)),
        exps[i].0 == pivot ==> d == 0,
    ensures
        exps[i].0 == pivot ==> fmul(c, fpow(x, exps[i].1 as nat)) == fmul(
            tc,
            monomial_eval(exps.take(i + 1), point),
        ),
        exps[i].0 != pivot ==> fmul(fmul(fpow(point[exps[i].0 as int], exps[i].1 as nat), c), fpow(x, d))
            == fmul(tc, monomial_eval(exps.take(i + 1), point)),
{
    let before = monomial_eval(exps.take(i), point);
    let factor = fpow(point[exps[i].0 as int], exps[i].1 as nat);
    assert(exps.take(i + 1).drop_last() =~= exps.take(i));
    lemma_fmul_laws(tc, before, factor);
    if exps[i].0 == pivot {
        // c * 1 == tc * before, so c * x^e == (tc * before) * x^e
        lemma_fmul_laws(c, 1, factor);
    } else {
        // (f * c) * x^d == f * (c * x^d) == f * (tc * before) == tc * (before * f)
        lemma_fmul_laws(factor, c, fpow(x, d));
    }
}

/// The prover of one run of the protocol: the polynomial, and the
/// challenges bound so far, in the order in which they came.
#[derive(Debug, Clone)]
pub struct Prover {
    pub g: MultivariatePolynomial,
    pub r_vec: Vec<FieldElement>,
}

/// Two to the power `k`.
fn two_pow(k: usize) -> (r: usize)
    requires
        k < 32,
    ensures
        r == pow2(k as nat),
{
    let mut r: usize = 1;
    let mut i: usize = 0;
    proof {
        lemma2_to64();
    }
    while i < k
        invariant
            i <= k,
            k < 32,
            r == pow2(i as nat),
        decreases k - i,
    {
        proof {
            lemma2_to64();
        }
        r = r * 2;
        i = i + 1;
    }
    r
}

impl Prover {
    /// A prover for `g` that has bound no challenge yet.
    pub fn new(g: &MultivariatePolynomial) -> (r: Prover)
        ensures
            r.g@ == g@,
            r.r_vec@ == Seq::<FieldElement>::empty(),
    {
        Prover { g: g.clone(), r_vec: Vec::new() }
    }

    /// The polynomial is well formed and the bound challenges are field elements.
    pub open spec fn wf(self) -> bool {
        &&& self.g@.wf()
        &&& all_wf(self.r_vec@)
    }

    /// Restricts one term: the challenges bound so far go to the first
    /// variables and `point` to the variables after the next one, which is
    /// left open. Gives the coefficient that this folds the term into and,
    /// where the open variable occurs in the term, its exponent there.
    pub fn eval_term(&self, term: &Term, point: &Vec<FieldElement>) -> (r: (FieldElement, Option<usize>))
        requires
            all_wf(self.r_vec@),
            all_wf(point@),
            term@.wf(),
            variables_below(term@.exponents, (self.r_vec.len() + 1 + point.len()) as nat),
        ensures
            r.0.wf(),
            match r.1 {
                Some(e) => exists|k: int|
                    0 <= k < term@.exponents.len() && #[trigger] term@.exponents[k] == (self.r_vec.len(), e),
                None => forall|k: int|
                    0 <= k < term@.exponents.len() ==> (#[trigger] term@.exponents[k]).0 != self.r_vec.len(),
            },
            forall|x: nat|
                fmul(r.0@, fpow(x, pivot_degree(r.1))) == term@.eval(
                    #[trigger] assignment(values(self.r_vec@), x, values(point@)),
                ),
    {
        let pivot = self.r_vec.len();
        let mut fixed: Option<usize> = None;
        let mut coeff = term.coefficient;
        let mut i: usize = 0;
        let ghost exps = term@.exponents;
        let ghost bound = values(self.r_vec@);
        let ghost suffix = values(point@);
        while i < term.exponents.len()
            invariant
                i <= term.exponents.len(),
                pivot == self.r_vec.len(),
                exps == term@.exponents,
                bound == values(self.r_vec@),
                suffix == values(point@),
                all_wf(self.r_vec@),
                all_wf(point@),
                term@.wf(),
                variables_below(exps, (pivot + 1 + point.len()) as nat),
                coeff.wf(),
                match fixed {
                    Some(e) => exists|k: int| 0 <= k < i && #[trigger] exps[k] == (pivot, e),
                    None => forall|k: int| 0 <= k < i ==> (#[trigger] exps[k]).0 != pivot,
                },
                forall|x: nat|
                    fmul(coeff@, fpow(x, pivot_degree(fixed))) == fmul(
                        term@.coefficient,
                        monomial_eval(exps.take(i as int), #[trigger] assignment(bound, x, suffix)),
                    ),
            decreases term.exponents.len() - i,
        {
            let (var, exp) = term.exponents[i];
            let ghost old_coeff = coeff@;
            let ghost old_degree = pivot_degree(fixed);
            proof {
                if var == pivot {
                    // the variables before this one are smaller, so the open
                    // variable has not been met yet
                    if fixed is Some {
                        let k = choose|k: int| 0 <= k < i && #[trigger] exps[k] == (pivot, fixed->0);
                    }
                }
            }
            if var == pivot {
                fixed = Some(exp);
            } else if var < pivot {
                coeff = self.r_vec[var].pow(exp as u64).mul(&coeff);
            } else {
                coeff = point[var - pivot - 1].pow(exp as u64).mul(&coeff);
            }
            proof {
                assert forall|x: nat|
                    fmul(coeff@, fpow(x, pivot_degree(fixed))) == fmul(
                        term@.coefficient,
                        monomial_eval(exps.take(i + 1), #[trigger] assignment(bound, x, suffix)),
                    ) by {
                    let p = assignment(bound, x, suffix);
                    lemma_restrict_step(term@.coefficient, exps, i as int, p, pivot as nat, old_coeff, old_degree, x);
                }
            }
            i = i + 1;
        }
        proof {
            assert(exps.take(i as int) =~= exps);
        }
        (coeff, fixed)
    }

    /// The polynomial in the open variable that `g` becomes when the
    /// challenges bound so far go to the first variables and `points` to
    /// the variables after the open one.
    pub fn eval_gj(&self, points: Vec<FieldElement>) -> (r: UnivariatePolynomial)
        requires
            self.wf(),
            all_wf(points@),
            self.g@.num_vars <= self.r_vec.len() + 1 + points.len(),
        ensures
            r.wf(),
            forall|x: nat|
                r.eval(x) == self.g@.eval(#[trigger] assignment(values(self.r_vec@), x, values(points@))),
            forall|m: nat| #[trigger] self.g@.exponent_bound(self.r_vec.len() as nat, m) ==> r.degree_spec() <= m,
    {
        let mut sum_poly = UnivariatePolynomial::zero();
        let mut t: usize = 0;
        let ghost terms = self.g@.terms;
        let ghost bound = values(self.r_vec@);
        let ghost suffix = values(points@);
        let ghost pivot = self.r_vec.len() as nat;
        while t < self.g.terms.len()
            invariant
                t <= self.g.terms.len(),
                terms == self.g@.terms,
                bound == values(self.r_vec@),
                suffix == values(points@),
                pivot == self.r_vec.len(),
                self.wf(),
                all_wf(points@),
                self.g@.num_vars <= self.r_vec.len() + 1 + points.len(),
                sum_poly.wf(),
                forall|x: nat|
                    sum_poly.eval(x) == terms_eval(terms.take(t as int), #[trigger] assignment(bound, x, suffix)),
                forall|m: nat| #[trigger] self.g@.exponent_bound(pivot, m) ==> sum_poly.degree_spec() <= m,
            decreases self.g.terms.len() - t,
        {
            let term = &self.g.terms[t];
            proof {
                assert(terms[t as int] == term@);
            }
            let (coeff_eval, fixed_term) = self.eval_term(term, &points);
            let degree = match fixed_term {
                None => 0,
                Some(e) => e,
            };
            let curr = UnivariatePolynomial::monomial(degree, coeff_eval);
            let next = sum_poly.add(&curr);
            proof {
                assert(terms.take(t + 1).drop_last() =~= terms.take(t as int));
                assert forall|m: nat| #[trigger] self.g@.exponent_bound(pivot, m) implies next.degree_spec()
                    <= m by {
                    if fixed_term is Some {
                        let k = choose|k: int|
                            0 <= k < term@.exponents.len() && #[trigger] term@.exponents[k] == (
                                self.r_vec.len(),
                                fixed_term->0,
                            );
                    }
                }
            }
            sum_poly = next;
            t = t + 1;
        }
        proof {
            assert(terms.take(t as int) =~= terms);
        }
        sum_poly
    }

    /// The polynomial of the next round. A challenge, where one is given,
    /// is first bound to the variable that was open in the round before.
    /// The result is `g` with the bound challenges in its first variables,
    /// summed over all boolean values of the variables after the open one.
    pub fn obtain_unipoly(&mut self, r: Option<FieldElement>) -> (p: UnivariatePolynomial)
        requires
            old(self).wf(),
            r is Some ==> r->0.wf(),
            old(self).g.num_vars <= MAX_VARS,
            old(self).r_vec.len() + (if r is Some {
                1nat
            } else {
                0nat
            }) < old(self).g.num_vars,
        ensures
            final(self).g == old(self).g,
            final(self).r_vec@ == (match r {
                Some(c) => old(self).r_vec@.push(c),
                None => old(self).r_vec@,
            }),
            final(self).wf(),
            p.wf(),
            forall|x: nat| p.eval(x) == final(self).g@.partial_sum(#[trigger] values(final(self).r_vec@).push(x)),
            forall|m: nat| #[trigger]
                final(self).g@.exponent_bound(final(self).r_vec.len() as nat, m) ==> p.degree_spec() <= m,
    {
        if let Some(rr) = r {
            self.r_vec.push(rr);
        }
        let v = self.g.num_vars - self.r_vec.len();
        let k: usize = v - 1;
        let count = two_pow(k);
        let mut sum_poly = UnivariatePolynomial::zero();
        let mut n: usize = 0;
        let ghost bound = values(self.r_vec@);
        let ghost g = self.g@;
        while n < count
            invariant
                n <= count,
                count == pow2(k as nat),
                k < 32,
                self.r_vec.len() + 1 + k == self.g.num_vars,
                bound == values(self.r_vec@),
                g == self.g@,
                self.wf(),
                sum_poly.wf(),
                forall|x: nat| sum_poly.eval(x) == range_sum(g, #[trigger] bound.push(x), k as nat, n as nat),
                forall|m: nat| #[trigger] g.exponent_bound(self.r_vec.len() as nat, m) ==> sum_poly.degree_spec() <= m,
            decreases count - n,
        {
            let points = n_to_vec(n, k);
            proof {
                lemma_bits_shape(n as nat, expansion_len(n as nat, k as nat));
            }
            let part = self.eval_gj(points);
            let next = sum_poly.add(&part);
            proof {
                let bits = values(points@);
                assert forall|x: nat| next.eval(x) == range_sum(g, #[trigger] bound.push(x), k as nat, (n + 1) as nat) by {
                    let pre = bound.push(x);
                    assert(assignment(bound, x, bits) == pre + bits);
                    if k >= 1 {
                        lemma_bit_width_bound(n as nat, k as nat);
                    } else {
                        lemma2_to64();
                        assert forall|i: int| 0 <= i < g.num_vars implies (pre + bits)[i] == pre[i] by {}
                        lemma_eval_agrees(g, pre + bits, pre + bits_be(0, 0));
                    }
                }
            }
            sum_poly = next;
            n = n + 1;
        }
        proof {
            assert forall|x: nat| sum_poly.eval(x) == self.g@.partial_sum(#[trigger] values(self.r_vec@).push(x)) by {
                lemma_range_sum_total(g, bound.push(x), k as nat);
            }
        }
        sum_poly
    }
}

} // verus!
