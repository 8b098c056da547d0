//! Sparse multivariate polynomials over the field: terms, evaluation at a
//! point, the sum over the boolean hypercube and the degree of each variable.

use crate::field::{all_wf, fadd, fmul, fpow, modulus, values, FieldElement};
use vstd::prelude::*;

verus! {

/// What a term is: a coefficient and the exponents of its variables, as
/// pairs of a variable's index and its exponent.
pub struct Monomial {
    pub coefficient: nat,
    pub exponents: Seq<(usize, usize)>,
}

/// What a polynomial is: the number of its variables and its terms, whose
/// sum it stands for.
pub struct Polynomial {
    pub num_vars: nat,
    pub terms: Seq<Monomial>,
}

/// The variables come in strictly increasing order, so none occurs twice,
/// and every exponent is positive.
pub open spec fn exponents_wf(exps: Seq<(usize, usize)>) -> bool {
    &&& forall|k: int| 0 <= k < exps.len() ==> (#[trigger] exps[k]).1 > 0
    &&& forall|j: int, k: int| 0 <= j < k < exps.len() ==> (#[trigger] exps[j]).0 < (#[trigger] exps[k]).0
}

/// Every variable of the list has an index below `bound`.
pub open spec fn variables_below(exps: Seq<(usize, usize)>, bound: nat) -> bool {
    forall|k: int| 0 <= k < exps.len() ==> (#[trigger] exps[k]).0 < bound
}

/// The product of the powers `point[v]^e` over the pairs `(v, e)` of the list.
pub open spec fn monomial_eval(exps: Seq<(usize, usize)>, point: Seq<nat>) -> nat
    decreases exps.len(),
{
    if exps.len() == 0 {
        1
    } else {
        fmul(
            monomial_eval(exps.drop_last(), point),
            fpow(point[exps.last().0 as int], exps.last().1 as nat),
        )
    }
}

/// The sum of the values of the terms at `point`.
pub open spec fn terms_eval(terms: Seq<Monomial>, point: Seq<nat>) -> nat
    decreases terms.len(),
{
    if terms.len() == 0 {
        0
    } else {
        fadd(terms_eval(terms.drop_last(), point), terms.last().eval(point))
    }
}

impl Monomial {
    /// The coefficient is a least residue and the exponents are in order.
    pub open spec fn wf(self) -> bool {
        self.coefficient < modulus() && exponents_wf(self.exponents)
    }

    /// The value of the term at `point`.
    pub open spec fn eval(self, point: Seq<nat>) -> nat {
        fmul(self.coefficient, monomial_eval(self.exponents, point))
    }
}

impl Polynomial {
    /// Every term is well formed and names only variables of the polynomial.
    pub open spec fn wf(self) -> bool {
        forall|t: int|
            0 <= t < self.terms.len() ==> (#[trigger] self.terms[t]).wf() && variables_below(
                self.terms[t].exponents,
                self.num_vars,
            )
    }

    /// The value of the polynomial at `point`.
    pub open spec fn eval(self, point: Seq<nat>) -> nat {
        terms_eval(self.terms, point)
    }

    /// The sum of the polynomial over all boolean values of the variables
    /// that `prefix` leaves open; `prefix` fixes the first variables.
    pub open spec fn partial_sum(self, prefix: Seq<nat>) -> nat
        decreases self.num_vars - prefix.len(),
    {
        if prefix.len() >= self.num_vars {
            self.eval(prefix)
        } else {
            fadd(self.partial_sum(prefix.push(0)), self.partial_sum(prefix.push(1)))
        }
    }

    /// The sum of the polynomial over the boolean hypercube.
    pub open spec fn hypercube_sum(self) -> nat {
        self.partial_sum(Seq::empty())
    }

    /// No term has the variable `var` with an exponent above `m`.
    pub open spec fn exponent_bound(self, var: nat, m: nat) -> bool {
        forall|t: int, k: int|
            0 <= t < self.terms.len() && 0 <= k < self.terms[t].exponents.len() && (
            #[trigger] self.terms[t].exponents[k]).0 == var ==> self.terms[t].exponents[k].1 <= m
    }

    /// `m` is the largest exponent with which `var` occurs in a term, zero
    /// where it occurs in none.
    pub open spec fn is_max_exponent(self, var: nat, m: nat) -> bool {
        &&& self.exponent_bound(var, m)
        &&& m == 0 || exists|t: int, k: int|
            0 <= t < self.terms.len() && 0 <= k < self.terms[t].exponents.len() && (
            #[trigger] self.terms[t].exponents[k]) == (var as usize, m as usize)
    }
}

/// The value of a list of powers depends only on the coordinates that it names.
pub proof fn lemma_monomial_eval_agrees(exps: Seq<(usize, usize)>, p: Seq<nat>, q: Seq<nat>)
    requires
        forall|k: int| 0 <= k < exps.len() ==> p[(#[trigger] exps[k]).0 as int] == q[exps[k].0 as int],
    ensures
        monomial_eval(exps, p) == monomial_eval(exps, q),
    decreases exps.len(),
{
    if exps.len() > 0 {
        let head = exps.drop_last();
        lemma_monomial_eval_agrees(head, p, q);
    }
}

/// Two points that agree on the variables of a polynomial give it the same value.
pub proof fn lemma_eval_agrees(g: Polynomial, p: Seq<nat>, q: Seq<nat>)
    requires
        g.wf(),
        forall|v: int| 0 <= v < g.num_vars ==> p[v] == q[v],
    ensures
        g.eval(p) == g.eval(q),
    decreases g.terms.len(),
{
    if g.terms.len() > 0 {
        let rest = Polynomial { num_vars: g.num_vars, terms: g.terms.drop_last() };
        lemma_eval_agrees(rest, p, q);
        let last = g.terms.last();
        lemma_monomial_eval_agrees(last.exponents, p, q);
    }
}

/// The value of a polynomial is a least residue.
pub proof fn lemma_eval_reduced(g: Polynomial, point: Seq<nat>)
    ensures
        g.eval(point) < modulus(),
{
}

/// A sum over the hypercube is a least residue.
pub proof fn lemma_partial_sum_reduced(g: Polynomial, prefix: Seq<nat>)
    ensures
        g.partial_sum(prefix) < modulus(),
{
}

/// One term of a polynomial: a coefficient times a product of powers of variables.
#[derive(Debug)]
pub struct Term {
    pub coefficient: FieldElement,
    pub exponents: Vec<(usize, usize)>,
}

/// A polynomial in `num_vars` variables, the sum of its terms.
#[derive(Debug)]
pub struct MultivariatePolynomial {
    pub num_vars: usize,
    pub terms: Vec<Term>,
}

/// A short name for the polynomial under test.
pub type MVPoly = MultivariatePolynomial;

impl View for Term {
    type V = Monomial;

    open spec fn view(&self) -> Monomial {
        Monomial { coefficient: self.coefficient@, exponents: self.exponents@ }
    }
}

impl View for MultivariatePolynomial {
    type V = Polynomial;

    open spec fn view(&self) -> Polynomial {
        polynomial_of(self.num_vars, self.terms@)
    }
}

/// The polynomial that `num_vars` and a list of terms stand for.
pub open spec fn polynomial_of(num_vars: usize, terms: Seq<Term>) -> Polynomial {
    Polynomial { num_vars: num_vars as nat, terms: Seq::new(terms.len(), |t: int| terms[t]@) }
}

/// Whether the pairs name variables in strictly increasing order, each with
/// a positive exponent.
fn check_exponents(exps: &Vec<(usize, usize)>) -> (ok: bool)
    ensures
        ok == exponents_wf(exps@),
{
    let mut k: usize = 0;
    while k < exps.len()
        invariant
            k <= exps.len(),
            exponents_wf(exps@.take(k as int)),
        decreases exps.len() - k,
    {
        let bad = exps[k].1 == 0 || (k > 0 && exps[k - 1].0 >= exps[k].0);
        if bad {
            return false;
        }
        proof {
            let now = exps@.take(k + 1);
            assert forall|i: int, j: int| 0 <= i < j < now.len() implies (#[trigger] now[i]).0 < (
            #[trigger] now[j]).0 by {
                if j < k {
                } else if i < k - 1 {
                    assert(exps@.take(k as int)[k - 1] == now[k - 1]);
                }
            }
            assert forall|i: int| 0 <= i < now.len() implies (#[trigger] now[i]).1 > 0 by {}
        }
        k = k + 1;
    }
    proof {
        assert(exps@.take(k as int) =~= exps@);
    }
    true
}

/// Whether every variable of the pairs has an index below `bound`.
fn check_variables(exps: &Vec<(usize, usize)>, bound: usize) -> (ok: bool)
    ensures
        ok == variables_below(exps@, bound as nat),
{
    let mut k: usize = 0;
    while k < exps.len()
        invariant
            k <= exps.len(),
            forall|i: int| 0 <= i < k ==> (#[trigger] exps@[i]).0 < bound,
        decreases exps.len() - k,
    {
        if exps[k].0 >= bound {
            return false;
        }
        k = k + 1;
    }
    true
}

impl Term {
    /// The term with this coefficient and these exponents, where the
    /// exponents are well formed; `None` where they are not.
    pub fn new(coefficient: FieldElement, exponents: Vec<(usize, usize)>) -> (r: Option<Term>)
        requires
            coefficient.wf(),
        ensures
            r is Some <==> exponents_wf(exponents@),
            r is Some ==> r->0@ == (Monomial { coefficient: coefficient@, exponents: exponents@ }),
            r is Some ==> r->0@.wf(),
    {
        if check_exponents(&exponents) {
            Some(Term { coefficient, exponents })
        } else {
            None
        }
    }

    /// The value of the term at `point`.
    pub fn evaluate(&self, point: &Vec<FieldElement>) -> (r: FieldElement)
        requires
            self.coefficient.wf(),
            all_wf(point@),
            variables_below(self.exponents@, point.len() as nat),
        ensures
            r.wf(),
            r@ == self@.eval(values(point@)),
    {
        let mut product = FieldElement::from_u64(1);
        let mut k: usize = 0;
        let ghost exps = self.exponents@;
        while k < self.exponents.len()
            invariant
                k <= self.exponents.len(),
                exps == self.exponents@,
                all_wf(point@),
                variables_below(exps, point.len() as nat),
                product.wf(),
                product@ == monomial_eval(exps.take(k as int), values(point@)),
            decreases self.exponents.len() - k,
        {
            let (var, exp) = self.exponents[k];
            proof {
                assert(exps.take(k + 1).drop_last() =~= exps.take(k as int));
            }
            let power = point[var].pow(exp as u64);
            product = product.mul(&power);
            k = k + 1;
        }
        proof {
            assert(exps.take(k as int) =~= exps);
        }
        self.coefficient.mul(&product)
    }
}

impl Clone for Term {
    fn clone(&self) -> (r: Term)
        ensures
            r@ == self@,
    {
        let mut exponents: Vec<(usize, usize)> = Vec::new();
        let mut k: usize = 0;
        while k < self.exponents.len()
            invariant
                k <= self.exponents.len(),
                exponents@ == self.exponents@.take(k as int),
            decreases self.exponents.len() - k,
        {
            exponents.push(self.exponents[k]);
            k = k + 1;
        }
        proof {
            assert(exponents@ =~= self.exponents@);
        }
        Term { coefficient: self.coefficient, exponents }
    }
}

impl MultivariatePolynomial {
    /// Whether every term is well formed and names only variables of the polynomial.
    pub fn is_wf(&self) -> (ok: bool)
        ensures
            ok == self@.wf(),
    {
        let ghost model = self@;
        let mut t: usize = 0;
        while t < self.terms.len()
            invariant
                t <= self.terms.len(),
                model == self@,
                forall|i: int|
                    0 <= i < t ==> (#[trigger] model.terms[i]).wf() && variables_below(
                        model.terms[i].exponents,
                        model.num_vars,
                    ),
            decreases self.terms.len() - t,
        {
            let term = &self.terms[t];
            let good = term.coefficient.is_wf() && check_exponents(&term.exponents)
                && check_variables(&term.exponents, self.num_vars);
            if !good {
                proof {
                    assert(!(model.terms[t as int].wf() && variables_below(
                        model.terms[t as int].exponents,
                        model.num_vars,
                    )));
                }
                return false;
            }
            t = t + 1;
        }
        true
    }

    /// The polynomial in `num_vars` variables with these terms, where every
    /// term is well formed and names only variables below `num_vars`;
    /// `None` where one is not.
    pub fn new(num_vars: usize, terms: Vec<Term>) -> (r: Option<MultivariatePolynomial>)
        ensures
            r is Some <==> polynomial_of(num_vars, terms@).wf(),
            r is Some ==> r->0@ == polynomial_of(num_vars, terms@),
    {
        let g = MultivariatePolynomial { num_vars, terms };
        if g.is_wf() {
            Some(g)
        } else {
            None
        }
    }

    /// The number of variables.
    pub fn num_vars(&self) -> (n: usize)
        ensures
            n == self@.num_vars,
    {
        self.num_vars
    }

    /// The terms.
    pub fn terms(&self) -> (r: &Vec<Term>)
        ensures
            r@.len() == self@.terms.len(),
            forall|t: int| 0 <= t < r@.len() ==> (#[trigger] r@[t])@ == self@.terms[t],
    {
        &self.terms
    }

    /// The value of the polynomial at `point`, which gives a value to every variable.
    pub fn evaluate(&self, point: &Vec<FieldElement>) -> (r: FieldElement)
        requires
            self@.wf(),
            all_wf(point@),
            point.len() >= self.num_vars,
        ensures
            r.wf(),
            r@ == self@.eval(values(point@)),
    {
        let mut total = FieldElement::from_u64(0);
        let mut t: usize = 0;
        let ghost terms = self@.terms;
        while t < self.terms.len()
            invariant
                t <= self.terms.len(),
                terms == self@.terms,
                self@.wf(),
                all_wf(point@),
                point.len() >= self.num_vars,
                total.wf(),
                total@ == terms_eval(terms.take(t as int), values(point@)),
            decreases self.terms.len() - t,
        {
            let term = &self.terms[t];
            proof {
                assert(terms[t as int] == term@);
                assert(terms.take(t + 1).drop_last() =~= terms.take(t as int));
            }
            let value = term.evaluate(point);
            total = total.add(&value);
            t = t + 1;
        }
        proof {
            assert(terms.take(t as int) =~= terms);
        }
        total
    }
}

impl Clone for MultivariatePolynomial {
    fn clone(&self) -> (r: MultivariatePolynomial)
        ensures
            r@ == self@,
    {
        let mut terms: Vec<Term> = Vec::new();
        let mut t: usize = 0;
        while t < self.terms.len()
            invariant
                t <= self.terms.len(),
                terms@.len() == t,
                forall|i: int| 0 <= i < t ==> (#[trigger] terms@[i])@ == self.terms@[i]@,
            decreases self.terms.len() - t,
        {
            terms.push(self.terms[t].clone());
            t = t + 1;
        }
        let r = MultivariatePolynomial { num_vars: self.num_vars, terms };
        proof {
            assert(r@.terms =~= self@.terms);
        }
        r
    }
}

/// The pair `k2` of term `t2` comes before the pair `k` of term `t`.
spec fn seen(t2: int, k2: int, t: int, k: int) -> bool {
    t2 < t || (t2 == t && k2 < k)
}

/// `deg` holds, for each variable, the largest exponent among the pairs
/// that come before the pair `k` of term `t`.
spec fn max_so_far(g: Polynomial, deg: Seq<usize>, t: int, k: int) -> bool {
    &&& deg.len() == g.num_vars
    &&& forall|t2: int, k2: int|
        0 <= t2 < g.terms.len() && 0 <= k2 < g.terms[t2].exponents.len() && seen(t2, k2, t, k) ==> (
        #[trigger] g.terms[t2].exponents[k2]).1 <= deg[g.terms[t2].exponents[k2].0 as int]
    &&& forall|j: int|
        0 <= j < deg.len() ==> #[trigger] deg[j] == 0 || exists|t2: int, k2: int|
            0 <= t2 < g.terms.len() && 0 <= k2 < g.terms[t2].exponents.len() && seen(t2, k2, t, k) && (
            #[trigger] g.terms[t2].exponents[k2]) == (j as usize, deg[j])
}

/// The degree of the polynomial in each of its variables: for every
/// variable the largest exponent with which it occurs in a term, zero
/// where it occurs in none.
pub fn degj(g: &MultivariatePolynomial) -> (deg: Vec<usize>)
    requires
        g@.wf(),
    ensures
        deg@.len() == g@.num_vars,
        forall|j: int| 0 <= j < deg@.len() ==> g@.is_max_exponent(j as nat, #[trigger] deg@[j] as nat),
{
    let mut deg: Vec<usize> = Vec::new();
    let mut j: usize = 0;
    while j < g.num_vars
        invariant
            j <= g.num_vars,
            deg@.len() == j,
            forall|i: int| 0 <= i < j ==> #[trigger] deg@[i] == 0,
        decreases g.num_vars - j,
    {
        deg.push(0);
        j = j + 1;
    }
    let mut t: usize = 0;
    while t < g.terms.len()
        invariant
            t <= g.terms.len(),
            g@.wf(),
            max_so_far(g@, deg@, t as int, 0),
        decreases g.terms.len() - t,
    {
        let term = &g.terms[t];
        let mut k: usize = 0;
        while k < term.exponents.len()
            invariant
                t < g.terms.len(),
                k <= term.exponents.len(),
                g@.terms[t as int] == term@,
                g@.wf(),
                max_so_far(g@, deg@, t as int, k as int),
            decreases term.exponents.len() - k,
        {
            let (var, exp) = term.exponents[k];
            let ghost before = deg@;
            if deg[var] < exp {
                deg.set(var, exp);
            }
            proof {
                assert(deg@ =~= before.update(
                    var as int,
                    if before[var as int] >= exp {
                        before[var as int]
                    } else {
                        exp
                    },
                ));
            }
            k = k + 1;
        }
        t = t + 1;
    }
    deg
}

} // verus!
