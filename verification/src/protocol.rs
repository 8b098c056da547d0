//! The verifier: the checks of each round, the final check against the
//! polynomial itself, and a whole run of the protocol.

use crate::field::{all_wf, fadd, get_rand, values, FieldElement};
use crate::multivariate::{degj, MultivariatePolynomial, Polynomial};
use crate::prover::{Prover, MAX_VARS};
use crate::univariate::{sparse_degree, sparse_eval, UnivariatePolynomial};
use vstd::prelude::*;

verus! {

/// Why a run was rejected, with the number of the round where that is one
/// of the rounds of polynomials. Rounds are counted from one.
#[derive(Debug, Clone, Copy, PartialEq, Eq, Structural)]
pub enum RejectReason {
    /// The polynomial of this round does not sum to the value expected of it.
    SumMismatch(usize),
    /// The polynomial of this round has a higher degree than the variable
    /// of the round has in the polynomial under test.
    DegreeViolation(usize),
    /// The last polynomial and the polynomial under test differ at the challenges.
    FinalOracleMismatch,
}

/// How a run ended.
#[derive(Debug, Clone, Copy, PartialEq, Eq, Structural)]
pub enum VerificationResult {
    Accepted,
    Rejected(RejectReason),
}

/// What the verifier makes of the polynomial of one round: it has to take
/// the values at zero and at one that sum to `expected`, and its degree may
/// not exceed `bound`. The sum is looked at first.
pub open spec fn round_verdict(round: usize, expected: nat, poly: Seq<(nat, nat)>, bound: usize) -> Option<
    RejectReason,
> {
    if fadd(sparse_eval(poly, 0), sparse_eval(poly, 1)) != expected {
        Some(RejectReason::SumMismatch(round))
    } else if sparse_degree(poly) > bound {
        Some(RejectReason::DegreeViolation(round))
    } else {
        None
    }
}

/// What the verifier makes of the last polynomial: at the last challenge it
/// has to take the value that `g` takes at all the challenges.
pub open spec fn final_verdict(poly: Seq<(nat, nat)>, g: Polynomial, challenges: Seq<nat>) -> VerificationResult {
    if sparse_eval(poly, challenges.last()) == g.eval(challenges) {
        VerificationResult::Accepted
    } else {
        VerificationResult::Rejected(RejectReason::FinalOracleMismatch)
    }
}

/// How a run against the honest prover ends: the claim is accepted where
/// it is the sum of `g` over the hypercube, and any other claim fails the
/// sum of the first round.
pub open spec fn honest_verdict(g: Polynomial, claimed_sum: nat) -> VerificationResult {
    if claimed_sum == g.hypercube_sum() {
        VerificationResult::Accepted
    } else {
        VerificationResult::Rejected(RejectReason::SumMismatch(1))
    }
}

/// The honest polynomial of a round passes the check of that round: a
/// polynomial that takes at every `x` the sum of `g` over the hypercube
/// behind `prefix` and `x`, and whose degree is within `bound`, sums to
/// the sum of `g` behind `prefix` alone, which is what the round before
/// leaves to be expected.
pub proof fn lemma_honest_round_passes(
    g: Polynomial,
    prefix: Seq<nat>,
    poly: Seq<(nat, nat)>,
    round: usize,
    bound: usize,
)
    requires
        prefix.len() < g.num_vars,
        forall|x: nat| sparse_eval(poly, x) == g.partial_sum(#[trigger] prefix.push(x)),
        sparse_degree(poly) <= bound,
    ensures
        round_verdict(round, g.partial_sum(prefix), poly, bound) is None,
{
}

/// A claim other than the sum of `g` over the hypercube fails the sum of
/// the first round against the honest polynomial of that round, whatever
/// the bound on the degree.
pub proof fn lemma_false_claim_fails(g: Polynomial, claimed_sum: nat, poly: Seq<(nat, nat)>, bound: usize)
    requires
        g.num_vars >= 1,
        forall|x: nat| sparse_eval(poly, x) == g.partial_sum(#[trigger] Seq::<nat>::empty().push(x)),
        claimed_sum != g.hypercube_sum(),
    ensures
        round_verdict(1, claimed_sum, poly, bound) == Some(RejectReason::SumMismatch(1)),
{
    let empty = Seq::<nat>::empty();
}

/// The honest polynomial of the last round passes the final check: at the
/// last challenge it takes the value of `g` at all the challenges.
pub proof fn lemma_honest_final_passes(g: Polynomial, challenges: Seq<nat>, poly: Seq<(nat, nat)>)
    requires
        challenges.len() == g.num_vars,
        challenges.len() >= 1,
        forall|x: nat| sparse_eval(poly, x) == g.partial_sum(#[trigger] challenges.drop_last().push(x)),
    ensures
        final_verdict(poly, g, challenges) == VerificationResult::Accepted,
{
    let before = challenges.drop_last();
    assert(before.push(challenges.last()) =~= challenges);
}

/// The check of one round on the polynomial that the prover sent: `None`
/// where it passes, the reason where it does not.
pub fn check_round(round: usize, expected: &FieldElement, poly: &UnivariatePolynomial, bound: usize) -> (r:
    Option<RejectReason>)
    requires
        expected.wf(),
        poly.wf(),
    ensures
        r == round_verdict(round, expected@, poly@, bound),
{
    let at_zero = poly.evaluate(&FieldElement::from_u64(0));
    let at_one = poly.evaluate(&FieldElement::from_u64(1));
    let sum = at_zero.add(&at_one);
    proof {
        if sum@ == expected@ {
            FieldElement::lemma_view_injective(sum, *expected);
        }
    }
    if sum != *expected {
        Some(RejectReason::SumMismatch(round))
    } else if poly.degree() > bound {
        Some(RejectReason::DegreeViolation(round))
    } else {
        None
    }
}

/// The final check: the last polynomial of the prover at the last
/// challenge against `g` itself at all the challenges.
pub fn check_final(poly: &UnivariatePolynomial, g: &MultivariatePolynomial, challenges: &Vec<FieldElement>) -> (r:
    VerificationResult)
    requires
        poly.wf(),
        g@.wf(),
        all_wf(challenges@),
        challenges.len() >= g.num_vars,
        challenges.len() >= 1,
    ensures
        r == final_verdict(poly@, g@, values(challenges@)),
{
    let left = poly.evaluate(&challenges[challenges.len() - 1]);
    let right = g.evaluate(challenges);
    proof {
        if left@ == right@ {
            FieldElement::lemma_view_injective(left, right);
        }
    }
    if left == right {
        VerificationResult::Accepted
    } else {
        VerificationResult::Rejected(RejectReason::FinalOracleMismatch)
    }
}

/// Runs the protocol on the claim that `g` sums to `claimed_sum` over the
/// boolean hypercube, against the honest prover and with the given
/// challenges, one for each variable in the order of the rounds.
///
/// Whatever the challenges are, a true claim is accepted and a false one
/// is rejected in the first round.
pub fn run_sumcheck(g: &MultivariatePolynomial, claimed_sum: FieldElement, challenges: &Vec<FieldElement>) -> (result:
    VerificationResult)
    requires
        g@.wf(),
        1 <= g.num_vars <= MAX_VARS,
        claimed_sum.wf(),
        all_wf(challenges@),
        challenges.len() == g.num_vars,
    ensures
        result == honest_verdict(g@, claimed_sum@),
{
    let v = g.num_vars;
    let deg = degj(g);
    let mut prover = Prover::new(g);
    let g_1 = prover.obtain_unipoly(None);
    proof {
        let empty = Seq::<nat>::empty();
        assert(values(prover.r_vec@) =~= empty);
        assert(prover.g@.exponent_bound(prover.r_vec.len() as nat, deg@[0] as nat));
    }
    match check_round(1, &claimed_sum, &g_1, deg[0]) {
        Some(reason) => {
            return VerificationResult::Rejected(reason);
        },
        None => {},
    }
    let mut g_jm1 = g_1;
    let mut j: usize = 1;
    proof {
        assert(prover.r_vec@ =~= challenges@.take(0));
    }
    while j < v
        invariant
            1 <= j <= v,
            v == g.num_vars,
            v <= MAX_VARS,
            challenges.len() == v,
            all_wf(challenges@),
            g@.wf(),
            prover.g@ == g@,
            prover.wf(),
            prover.r_vec@ == challenges@.take(j - 1),
            g_jm1.wf(),
            forall|x: nat| g_jm1.eval(x) == g@.partial_sum(#[trigger] values(challenges@.take(j - 1)).push(x)),
            claimed_sum@ == g@.hypercube_sum(),
            deg@.len() == v,
            forall|i: int| 0 <= i < v ==> g@.is_max_exponent(i as nat, #[trigger] deg@[i] as nat),
        decreases v - j,
    {
        let r = challenges[j - 1];
        let ghost before = values(challenges@.take(j - 1));
        let expected = g_jm1.evaluate(&r);
        let g_j = prover.obtain_unipoly(Some(r));
        proof {
            let bound = values(challenges@.take(j as int));
            assert(prover.r_vec@ =~= challenges@.take(j as int));
            assert(bound =~= before.push(r@));
            assert(prover.g@.exponent_bound(prover.r_vec.len() as nat, deg@[j as int] as nat));
        }
        match check_round(j + 1, &expected, &g_j, deg[j]) {
            Some(reason) => {
                return VerificationResult::Rejected(reason);
            },
            None => {},
        }
        g_jm1 = g_j;
        j = j + 1;
    }
    let r = challenges[v - 1];
    prover.r_vec.push(r);
    proof {
        assert(prover.r_vec@ =~= challenges@);
        assert(values(challenges@).drop_last() =~= values(challenges@.take(v - 1)));
        lemma_honest_final_passes(g@, values(challenges@), g_jm1@);
    }
    check_final(&g_jm1, &prover.g, &prover.r_vec)
}

/// Runs the protocol on the claim that `g` sums to `c_1` over the boolean
/// hypercube, with challenges drawn at random: whether the claim is accepted.
pub fn verify(g: &MultivariatePolynomial, c_1: FieldElement) -> (accepted: bool)
    requires
        g@.wf(),
        1 <= g.num_vars <= MAX_VARS,
        c_1.wf(),
    ensures
        accepted == (c_1@ == g@.hypercube_sum()),
{
    let mut challenges: Vec<FieldElement> = Vec::new();
    while challenges.len() < g.num_vars
        invariant
            challenges.len() <= g.num_vars,
            all_wf(challenges@),
        decreases g.num_vars - challenges.len(),
    {
        let r = get_rand();
        challenges.push(r.unwrap());
    }
    match run_sumcheck(g, c_1, &challenges) {
        VerificationResult::Accepted => true,
        VerificationResult::Rejected(_) => false,
    }
}

} // verus!
