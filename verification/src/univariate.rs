//! Sparse univariate polynomials over the field: the messages of the prover.

use crate::field::{fadd, fmul, fpow, lemma_fadd_laws, lemma_fmul_distributes, modulus, FieldElement};
use vstd::prelude::*;

verus! {

/// The entries are in strictly increasing order of degree, and every
/// coefficient is a least residue other than zero.
pub open spec fn sparse_wf(entries: Seq<(nat, nat)>) -> bool {
    &&& forall|k: int| 0 <= k < entries.len() ==> 0 < (#[trigger] entries[k]).1 < modulus()
    &&& forall|j: int, k: int|
        0 <= j < k < entries.len() ==> (#[trigger] entries[j]).0 < (#[trigger] entries[k]).0
}

/// The sum of `c * x^d` over the entries `(d, c)`.
pub open spec fn sparse_eval(entries: Seq<(nat, nat)>, x: nat) -> nat
    decreases entries.len(),
{
    if entries.len() == 0 {
        0
    } else {
        fadd(sparse_eval(entries.drop_last(), x), fmul(entries.last().1, fpow(x, entries.last().0)))
    }
}

/// The coefficient that the entries give to the degree `d`: zero where no
/// entry has that degree.
pub open spec fn sparse_coefficient(entries: Seq<(nat, nat)>, d: nat) -> nat
    decreases entries.len(),
{
    if entries.len() == 0 {
        0
    } else if entries.last().0 == d {
        entries.last().1
    } else {
        sparse_coefficient(entries.drop_last(), d)
    }
}

/// The degree of the last entry, zero where there is none.
pub open spec fn sparse_degree(entries: Seq<(nat, nat)>) -> nat {
    if entries.len() == 0 {
        0
    } else {
        entries.last().0
    }
}

/// The entries that a list of pairs of a degree and a field element stands for.
pub open spec fn entries_of(coeffs: Seq<(usize, FieldElement)>) -> Seq<(nat, nat)> {
    Seq::new(coeffs.len(), |k: int| (coeffs[k].0 as nat, coeffs[k].1@))
}

/// A degree that no entry has gets the coefficient zero.
pub proof fn lemma_coefficient_absent(entries: Seq<(nat, nat)>, d: nat)
    requires
        forall|k: int| 0 <= k < entries.len() ==> (#[trigger] entries[k]).0 != d,
    ensures
        sparse_coefficient(entries, d) == 0,
    decreases entries.len(),
{
    if entries.len() > 0 {
        let head = entries.drop_last();
        assert forall|k: int| 0 <= k < head.len() implies (#[trigger] head[k]).0 != d by {}
        lemma_coefficient_absent(head, d);
    }
}

/// In a well-formed polynomial the coefficient of the degree of an entry is
/// that entry's.
pub proof fn lemma_coefficient_present(entries: Seq<(nat, nat)>, k: int)
    requires
        sparse_wf(entries),
        0 <= k < entries.len(),
    ensures
        sparse_coefficient(entries, entries[k].0) == entries[k].1,
    decreases entries.len(),
{
    let n = entries.len() - 1;
    if k < n {
        let head = entries.drop_last();
        assert(sparse_wf(head));
        lemma_coefficient_present(head, k);
    }
}

/// The degree of a well-formed polynomial is the largest degree with a
/// coefficient other than zero: every higher degree has the coefficient
/// zero, and the degree itself has not, unless the polynomial is zero.
pub proof fn lemma_degree_is_largest(entries: Seq<(nat, nat)>)
    requires
        sparse_wf(entries),
    ensures
        forall|d: nat| d > sparse_degree(entries) ==> sparse_coefficient(entries, d) == 0,
        entries.len() > 0 ==> sparse_coefficient(entries, sparse_degree(entries)) != 0,
        entries.len() == 0 ==> forall|d: nat| sparse_coefficient(entries, d) == 0,
{
    assert forall|d: nat| d > sparse_degree(entries) implies sparse_coefficient(entries, d) == 0 by {
        lemma_coefficient_absent(entries, d);
    }
}

/// Appending an entry adds its term to the value.
pub proof fn lemma_push_eval(entries: Seq<(nat, nat)>, entry: (nat, nat), x: nat)
    ensures
        sparse_eval(entries.push(entry), x) == fadd(sparse_eval(entries, x), fmul(entry.1, fpow(x, entry.0))),
{
    assert(entries.push(entry).drop_last() =~= entries);
}

/// Appending an entry sets the coefficient of its degree and leaves the others.
pub proof fn lemma_push_coefficient(entries: Seq<(nat, nat)>, entry: (nat, nat), d: nat)
    ensures
        sparse_coefficient(entries.push(entry), d) == if entry.0 == d {
            entry.1
        } else {
            sparse_coefficient(entries, d)
        },
{
    assert(entries.push(entry).drop_last() =~= entries);
}

/// A prefix of a well-formed polynomial has no entry of the degree of a
/// later entry.
proof fn lemma_prefix_lacks(entries: Seq<(nat, nat)>, i: int)
    requires
        sparse_wf(entries),
        0 <= i < entries.len(),
    ensures
        sparse_coefficient(entries.take(i), entries[i].0) == 0,
{
    let head = entries.take(i);
    lemma_coefficient_absent(head, entries[i].0);
}

/// The larger of two numbers.
pub open spec fn larger(a: nat, b: nat) -> nat {
    if a >= b {
        a
    } else {
        b
    }
}

/// What holds of the merged entries `r` once `i` entries of `a` and `j`
/// entries of `b` have been taken: `r` is well formed and is the sum of
/// the two prefixes, and every degree in it is below those still to come.
spec fn merge_inv(a: Seq<(nat, nat)>, b: Seq<(nat, nat)>, r: Seq<(nat, nat)>, i: int, j: int) -> bool {
    &&& 0 <= i <= a.len()
    &&& 0 <= j <= b.len()
    &&& sparse_wf(a)
    &&& sparse_wf(b)
    &&& sparse_wf(r)
    &&& forall|k: int|
        0 <= k < r.len() ==> (i < a.len() ==> (#[trigger] r[k]).0 < a[i].0) && (j < b.len() ==> r[k].0
            < b[j].0)
    &&& i < a.len() ==> forall|k: int| 0 <= k < j ==> (#[trigger] b[k]).0 < a[i].0
    &&& j < b.len() ==> forall|k: int| 0 <= k < i ==> (#[trigger] a[k]).0 < b[j].0
    &&& forall|x: nat| #[trigger]
        sparse_eval(r, x) == fadd(sparse_eval(a.take(i), x), sparse_eval(b.take(j), x))
    &&& forall|d: nat| #[trigger]
        sparse_coefficient(r, d) == fadd(sparse_coefficient(a.take(i), d), sparse_coefficient(b.take(j), d))
    &&& forall|k: int|
        0 <= k < r.len() ==> (#[trigger] r[k]).0 <= larger(sparse_degree(a), sparse_degree(b))
}

/// Taking the next entry of `a`, where its degree is below that of the
/// next entry of `b` or `b` is used up.
proof fn lemma_merge_left(a: Seq<(nat, nat)>, b: Seq<(nat, nat)>, r: Seq<(nat, nat)>, i: int, j: int)
    requires
        merge_inv(a, b, r, i, j),
        i < a.len(),
        j < b.len() ==> a[i].0 < b[j].0,
    ensures
        merge_inv(a, b, r.push(a[i]), i + 1, j),
{
    let entry = a[i];
    let next = r.push(entry);
    assert(a.take(i + 1) =~= a.take(i).push(entry));
    assert(sparse_wf(next)) by {
        assert forall|k: int| 0 <= k < next.len() implies 0 < (#[trigger] next[k]).1 < modulus() by {}
        assert forall|k: int, l: int| 0 <= k < l < next.len() implies (#[trigger] next[k]).0 < (
        #[trigger] next[l]).0 by {}
    }
    assert forall|k: int| 0 <= k < next.len() implies (i + 1 < a.len() ==> (#[trigger] next[k]).0 < a[i
        + 1].0) && (j < b.len() ==> next[k].0 < b[j].0) by {}
    assert forall|k: int| 0 <= k < next.len() implies (#[trigger] next[k]).0 <= larger(
        sparse_degree(a),
        sparse_degree(b),
    ) by {}
    assert forall|x: nat| #[trigger]
        sparse_eval(next, x) == fadd(sparse_eval(a.take(i + 1), x), sparse_eval(b.take(j), x)) by {
        let term = fmul(entry.1, fpow(x, entry.0));
        let ea = sparse_eval(a.take(i), x);
        let eb = sparse_eval(b.take(j), x);
        lemma_push_eval(r, entry, x);
        lemma_push_eval(a.take(i), entry, x);
        lemma_fadd_laws(ea, term, eb);
    }
    assert forall|d: nat| #[trigger]
        sparse_coefficient(next, d) == fadd(
            sparse_coefficient(a.take(i + 1), d),
            sparse_coefficient(b.take(j), d),
        ) by {
        lemma_push_coefficient(r, entry, d);
        lemma_push_coefficient(a.take(i), entry, d);
        assert(sparse_coefficient(r, d) == fadd(
            sparse_coefficient(a.take(i), d),
            sparse_coefficient(b.take(j), d),
        ));
        if d == entry.0 {
            let head = b.take(j);
            lemma_coefficient_absent(head, d);
        }
    }
}

/// Taking the next entry of both, where the two have the same degree: the
/// sum of the coefficients is appended unless it is zero.
proof fn lemma_merge_both(a: Seq<(nat, nat)>, b: Seq<(nat, nat)>, r: Seq<(nat, nat)>, i: int, j: int)
    requires
        merge_inv(a, b, r, i, j),
        i < a.len(),
        j < b.len(),
        a[i].0 == b[j].0,
    ensures
        fadd(a[i].1, b[j].1) != 0 ==> merge_inv(a, b, r.push((a[i].0, fadd(a[i].1, b[j].1))), i + 1, j + 1),
        fadd(a[i].1, b[j].1) == 0 ==> merge_inv(a, b, r, i + 1, j + 1),
{
    let degree = a[i].0;
    let sum = fadd(a[i].1, b[j].1);
    let entry = (degree, sum);
    let next = if sum != 0 {
        r.push(entry)
    } else {
        r
    };
    assert(a.take(i + 1) =~= a.take(i).push(a[i]));
    assert(b.take(j + 1) =~= b.take(j).push(b[j]));
    assert(sparse_wf(next));
    assert forall|x: nat| #[trigger]
        sparse_eval(next, x) == fadd(sparse_eval(a.take(i + 1), x), sparse_eval(b.take(j + 1), x)) by {
        let power = fpow(x, degree);
        let ta = fmul(a[i].1, power);
        let tb = fmul(b[j].1, power);
        let ea = sparse_eval(a.take(i), x);
        let eb = sparse_eval(b.take(j), x);
        lemma_push_eval(a.take(i), a[i], x);
        lemma_push_eval(b.take(j), b[j], x);
        lemma_fmul_distributes(power, a[i].1, b[j].1);
        // (ea + ta) + (eb + tb) == (ea + eb) + (ta + tb)
        lemma_fadd_laws(ea, ta, fadd(eb, tb));
        lemma_fadd_laws(ta, eb, tb);
        lemma_fadd_laws(eb, ta, tb);
        lemma_fadd_laws(ea, eb, fadd(ta, tb));
        if sum != 0 {
            lemma_push_eval(r, entry, x);
        }
    }
    assert forall|d: nat| #[trigger]
        sparse_coefficient(next, d) == fadd(
            sparse_coefficient(a.take(i + 1), d),
            sparse_coefficient(b.take(j + 1), d),
        ) by {
        lemma_push_coefficient(a.take(i), a[i], d);
        lemma_push_coefficient(b.take(j), b[j], d);
        assert(sparse_coefficient(r, d) == fadd(
            sparse_coefficient(a.take(i), d),
            sparse_coefficient(b.take(j), d),
        ));
        if sum != 0 {
            lemma_push_coefficient(r, entry, d);
        }
        if d == degree {
            lemma_prefix_lacks(a, i);
            lemma_prefix_lacks(b, j);
        }
    }
}

/// A univariate polynomial, held as the pairs of a degree and its coefficient.
#[derive(Debug)]
pub struct UnivariatePolynomial {
    pub coeffs: Vec<(usize, FieldElement)>,
}

/// A short name for the polynomial of a round.
pub type UVPoly = UnivariatePolynomial;

impl View for UnivariatePolynomial {
    type V = Seq<(nat, nat)>;

    open spec fn view(&self) -> Seq<(nat, nat)> {
        entries_of(self.coeffs@)
    }
}

impl UnivariatePolynomial {
    /// The entries are in strictly increasing order of degree and hold no zero.
    pub open spec fn wf(self) -> bool {
        sparse_wf(self@)
    }

    /// The value of the polynomial at `x`.
    pub open spec fn eval(self, x: nat) -> nat {
        sparse_eval(self@, x)
    }

    /// The coefficient of the degree `d`.
    pub open spec fn coefficient(self, d: nat) -> nat {
        sparse_coefficient(self@, d)
    }

    /// The degree of the polynomial; zero for the zero polynomial.
    pub open spec fn degree_spec(self) -> nat {
        sparse_degree(self@)
    }

    /// The zero polynomial.
    pub fn zero() -> (r: UnivariatePolynomial)
        ensures
            r.wf(),
            r@ == Seq::<(nat, nat)>::empty(),
    {
        let r = UnivariatePolynomial { coeffs: Vec::new() };
        r
    }

    /// The polynomial `coefficient * X^degree`: one entry, or none where the
    /// coefficient is zero.
    pub fn monomial(degree: usize, coefficient: FieldElement) -> (r: UnivariatePolynomial)
        requires
            coefficient.wf(),
        ensures
            r.wf(),
            r@ == if coefficient@ == 0 {
                Seq::<(nat, nat)>::empty()
            } else {
                seq![(degree as nat, coefficient@)]
            },
            forall|x: nat| #[trigger] r.eval(x) == fmul(coefficient@, fpow(x, degree as nat)),
            r.degree_spec() <= degree,
    {
        let mut coeffs: Vec<(usize, FieldElement)> = Vec::new();
        if !coefficient.is_zero() {
            coeffs.push((degree, coefficient));
        }
        let r = UnivariatePolynomial { coeffs };
        proof {
            assert forall|x: nat| #[trigger] r.eval(x) == fmul(coefficient@, fpow(x, degree as nat)) by {
                let term = fmul(coefficient@, fpow(x, degree as nat));
                if coefficient@ != 0 {
                    assert(sparse_eval(r@.drop_last(), x) == 0);
                }
            }
        }
        r
    }

    /// The degree: that of the last entry, zero for the zero polynomial.
    pub fn degree(&self) -> (d: usize)
        ensures
            d == self.degree_spec(),
    {
        let n = self.coeffs.len();
        if n == 0 {
            0
        } else {
            self.coeffs[n - 1].0
        }
    }

    /// The value of the polynomial at `x`.
    pub fn evaluate(&self, x: &FieldElement) -> (r: FieldElement)
        requires
            self.wf(),
            x.wf(),
        ensures
            r.wf(),
            r@ == self.eval(x@),
    {
        let mut total = FieldElement::from_u64(0);
        let mut k: usize = 0;
        while k < self.coeffs.len()
            invariant
                k <= self.coeffs.len(),
                self.wf(),
                x.wf(),
                total.wf(),
                total@ == sparse_eval(self@.take(k as int), x@),
            decreases self.coeffs.len() - k,
        {
            let (degree, coefficient) = self.coeffs[k];
            proof {
                assert(self@[k as int] == (degree as nat, coefficient@));
                assert(self@.take(k + 1).drop_last() =~= self@.take(k as int));
            }
            let power = x.pow(degree as u64);
            let term = coefficient.mul(&power);
            total = total.add(&term);
            k = k + 1;
        }
        proof {
            assert(self@.take(k as int) =~= self@);
        }
        total
    }

    /// The polynomial with these entries, where they are in strictly
    /// increasing order of degree and hold no zero coefficient; `None` where
    /// they are not.
    pub fn new(coeffs: Vec<(usize, FieldElement)>) -> (r: Option<UnivariatePolynomial>)
        ensures
            r is Some <==> sparse_wf(entries_of(coeffs@)),
            r is Some ==> r->0@ == entries_of(coeffs@),
    {
        let ghost entries = entries_of(coeffs@);
        let mut k: usize = 0;
        while k < coeffs.len()
            invariant
                k <= coeffs.len(),
                entries == entries_of(coeffs@),
                sparse_wf(entries.take(k as int)),
            decreases coeffs.len() - k,
        {
            let good = coeffs[k].1.is_wf() && !coeffs[k].1.is_zero() && (k == 0 || coeffs[k - 1].0
                < coeffs[k].0);
            if !good {
                proof {
                    if 0 < entries[k as int].1 < modulus() {
                        assert(entries[k - 1] == (coeffs@[k - 1].0 as nat, coeffs@[k - 1].1@));
                    }
                }
                return None;
            }
            proof {
                let before = entries.take(k as int);
                let now = entries.take(k + 1);
                assert forall|i: int, j: int| 0 <= i < j < now.len() implies (#[trigger] now[i]).0 < (
                #[trigger] now[j]).0 by {
                    if j < k {
                    } else if i < k - 1 {
                        assert(before[k - 1] == now[k - 1]);
                    }
                }
            }
            k = k + 1;
        }
        proof {
            assert(entries.take(k as int) =~= entries);
        }
        Some(UnivariatePolynomial { coeffs })
    }

    /// The sum of two polynomials: each degree gets the sum of its two
    /// coefficients, and a degree whose sum is zero gets no entry.
    pub fn add(&self, other: &UnivariatePolynomial) -> (r: UnivariatePolynomial)
        requires
            self.wf(),
            other.wf(),
        ensures
            r.wf(),
            forall|d: nat| #[trigger] r.coefficient(d) == fadd(self.coefficient(d), other.coefficient(d)),
            forall|x: nat| #[trigger] r.eval(x) == fadd(self.eval(x), other.eval(x)),
            r.degree_spec() <= larger(self.degree_spec(), other.degree_spec()),
    {
        let mut out: Vec<(usize, FieldElement)> = Vec::new();
        let mut i: usize = 0;
        let mut j: usize = 0;
        let ghost a = self@;
        let ghost b = other@;
        while i < self.coeffs.len() || j < other.coeffs.len()
            invariant
                a == self@,
                b == other@,
                merge_inv(a, b, entries_of(out@), i as int, j as int),
            decreases self.coeffs.len() - i + other.coeffs.len() - j,
        {
            let ghost r = entries_of(out@);
            let take_left = j == other.coeffs.len() || (i < self.coeffs.len() && self.coeffs[i].0
                < other.coeffs[j].0);
            let take_right = i == self.coeffs.len() || (j < other.coeffs.len() && other.coeffs[j].0
                < self.coeffs[i].0);
            if take_left {
                proof {
                    lemma_merge_left(a, b, r, i as int, j as int);
                }
                out.push(self.coeffs[i]);
                proof {
                    assert(entries_of(out@) =~= r.push(a[i as int]));
                }
                i = i + 1;
            } else if take_right {
                proof {
                    lemma_merge_left(b, a, r, j as int, i as int);
                }
                out.push(other.coeffs[j]);
                proof {
                    assert(entries_of(out@) =~= r.push(b[j as int]));
                }
                j = j + 1;
            } else {
                let degree = self.coeffs[i].0;
                proof {
                    lemma_merge_both(a, b, r, i as int, j as int);
                }
                let sum = self.coeffs[i].1.add(&other.coeffs[j].1);
                if !sum.is_zero() {
                    out.push((degree, sum));
                    proof {
                        assert(entries_of(out@) =~= r.push((a[i as int].0, fadd(a[i as int].1, b[j as int].1))));
                    }
                }
                i = i + 1;
                j = j + 1;
            }
        }
        let r = UnivariatePolynomial { coeffs: out };
        proof {
            assert(a.take(i as int) =~= a);
            assert(b.take(j as int) =~= b);
        }
        r
    }
}

impl Clone for UnivariatePolynomial {
    fn clone(&self) -> (r: UnivariatePolynomial)
        ensures
            r@ == self@,
    {
        let mut coeffs: Vec<(usize, FieldElement)> = Vec::new();
        let mut k: usize = 0;
        while k < self.coeffs.len()
            invariant
                k <= self.coeffs.len(),
                coeffs@ == self.coeffs@.take(k as int),
            decreases self.coeffs.len() - k,
        {
            coeffs.push(self.coeffs[k]);
            k = k + 1;
        }
        UnivariatePolynomial { coeffs }
    }
}

} // verus!
