//! Elements of the scalar field of BLS12-381 and the arithmetic on them.
//!
//! The arithmetic itself is done by `ark_ff`; this module states what each
//! operation computes as arithmetic modulo the field's order.

use ark_bls12_381::Fr;
use ark_ff::{BigInt, Field, PrimeField};
use rand::Rng;
use vstd::arithmetic::div_mod::*;
use vstd::prelude::*;

verus! {

/// The order of the field: a prime of 255 bits.
pub open spec fn modulus() -> nat {
    0x73eda753299d7d483339d80809a1d80553bda402fffe5bfeffffffff00000001nat
}

/// Sum of two residues.
pub open spec fn fadd(a: nat, b: nat) -> nat {
    (a + b) % modulus()
}

/// Product of two residues.
pub open spec fn fmul(a: nat, b: nat) -> nat {
    (a * b) % modulus()
}

/// `b` raised to the power `e`, reduced. The empty product is one, also for `b == 0`.
pub open spec fn fpow(b: nat, e: nat) -> nat
    decreases e,
{
    if e == 0 {
        1
    } else {
        fmul(b, fpow(b, (e - 1) as nat))
    }
}

/// Sums, products and powers are least residues.
pub proof fn lemma_reduced(a: nat, b: nat)
    ensures
        fadd(a, b) < modulus(),
        fmul(a, b) < modulus(),
        fpow(a, b) < modulus(),
{
}

/// Addition is commutative and associative, with zero as its unit.
pub proof fn lemma_fadd_laws(a: nat, b: nat, c: nat)
    ensures
        fadd(a, b) == fadd(b, a),
        fadd(fadd(a, b), c) == fadd(a, fadd(b, c)),
        a < modulus() ==> fadd(a, 0) == a && fadd(0, a) == a,
{
    if a < modulus() {
        lemma_small_mod(a, modulus());
    }
}

/// Multiplication is commutative and associative, with one as its unit and
/// zero as its absorbing element.
pub proof fn lemma_fmul_laws(a: nat, b: nat, c: nat)
    ensures
        fmul(a, b) == fmul(b, a),
        fmul(fmul(a, b), c) == fmul(a, fmul(b, c)),
        fmul(a, 0) == 0 && fmul(0, a) == 0,
        a < modulus() ==> fmul(a, 1) == a && fmul(1, a) == a,
{
    let m = modulus() as int;
    lemma_mul_mod_noop_left((a * b) as int, c as int, m);
    lemma_mul_mod_noop_right(a as int, (b * c) as int, m);
    assert((a * b) * c == a * (b * c)) by (nonlinear_arith);
}

/// Multiplication distributes over addition.
pub proof fn lemma_fmul_distributes(a: nat, b: nat, c: nat)
    ensures
        fmul(a, fadd(b, c)) == fadd(fmul(a, b), fmul(a, c)),
        fmul(fadd(b, c), a) == fadd(fmul(b, a), fmul(c, a)),
{
    let m = modulus() as int;
    lemma_mul_mod_noop_right(a as int, (b + c) as int, m);
    assert(a * (b + c) == a * b + a * c) by (nonlinear_arith);
    lemma_add_mod_noop((a * b) as int, (a * c) as int, m);
    lemma_fmul_laws(a, b, 0);
    lemma_fmul_laws(a, c, 0);
}

/// The decimal digit that stands for `d`, for `d` below ten.
pub open spec fn digit_char(d: nat) -> char {
    if d == 0 {
        '0'
    } else if d == 1 {
        '1'
    } else if d == 2 {
        '2'
    } else if d == 3 {
        '3'
    } else if d == 4 {
        '4'
    } else if d == 5 {
        '5'
    } else if d == 6 {
        '6'
    } else if d == 7 {
        '7'
    } else if d == 8 {
        '8'
    } else {
        '9'
    }
}

/// The decimal digits of `n`, without leading zeros; zero is written `0`.
pub open spec fn decimal(n: nat) -> Seq<char>
    decreases n,
{
    if n < 10 {
        seq![digit_char(n)]
    } else {
        decimal(n / 10).push(digit_char(n % 10))
    }
}

/// How a field element with the least residue `c` is written: in decimal
/// without leading zeros, so that zero is written as the empty text.
pub open spec fn field_text(c: nat) -> Seq<char> {
    if c == 0 {
        Seq::empty()
    } else {
        decimal(c)
    }
}

/// A field element, held as the four 64-bit limbs of its least residue,
/// least significant limb first.
#[derive(Clone, Copy, Debug, PartialEq, Eq, Structural)]
pub struct FieldElement {
    l0: u64,
    l1: u64,
    l2: u64,
    l3: u64,
}

/// The integer that four 64-bit limbs spell, least significant limb first.
pub open spec fn limbs_value(l0: u64, l1: u64, l2: u64, l3: u64) -> nat {
    (l0 as nat) + (l1 as nat) * 0x1_0000_0000_0000_0000nat + (l2 as nat)
        * 0x1_0000_0000_0000_0000_0000_0000_0000_0000nat + (l3 as nat)
        * 0x1_0000_0000_0000_0000_0000_0000_0000_0000_0000_0000_0000_0000nat
}

impl View for FieldElement {
    type V = nat;

    /// The integer that the limbs spell.
    closed spec fn view(&self) -> nat {
        limbs_value(self.l0, self.l1, self.l2, self.l3)
    }
}

/// The values of a sequence of field elements.
pub open spec fn values(s: Seq<FieldElement>) -> Seq<nat> {
    Seq::new(s.len(), |i: int| s[i]@)
}

/// Every element of the sequence is a least residue.
pub open spec fn all_wf(s: Seq<FieldElement>) -> bool {
    forall|i: int| 0 <= i < s.len() ==> (#[trigger] s[i]).wf()
}

/// `Fr::from(u64)` followed by `into_bigint`: the element whose least residue
/// is `x` itself, since every `u64` is below the field's order.
#[verifier::external_body]
fn fr_from_u64(x: u64) -> (r: FieldElement)
    ensures
        r.wf(),
        r@ == x as nat,
{
    let c = Fr::from(x).into_bigint().0;
    FieldElement { l0: c[0], l1: c[1], l2: c[2], l3: c[3] }
}

/// `+` of `Fr`: the sum modulo the field's order. `from_bigint` takes a least
/// residue and `into_bigint` gives one back.
#[verifier::external_body]
fn fr_add(a: &FieldElement, b: &FieldElement) -> (r: FieldElement)
    requires
        a.wf(),
        b.wf(),
    ensures
        r.wf(),
        r@ == fadd(a@, b@),
{
    let x = Fr::from_bigint(BigInt::new([a.l0, a.l1, a.l2, a.l3])).unwrap();
    let y = Fr::from_bigint(BigInt::new([b.l0, b.l1, b.l2, b.l3])).unwrap();
    let c = (x + y).into_bigint().0;
    FieldElement { l0: c[0], l1: c[1], l2: c[2], l3: c[3] }
}

/// `*` of `Fr`: the product modulo the field's order.
#[verifier::external_body]
fn fr_mul(a: &FieldElement, b: &FieldElement) -> (r: FieldElement)
    requires
        a.wf(),
        b.wf(),
    ensures
        r.wf(),
        r@ == fmul(a@, b@),
{
    let x = Fr::from_bigint(BigInt::new([a.l0, a.l1, a.l2, a.l3])).unwrap();
    let y = Fr::from_bigint(BigInt::new([b.l0, b.l1, b.l2, b.l3])).unwrap();
    let c = (x * y).into_bigint().0;
    FieldElement { l0: c[0], l1: c[1], l2: c[2], l3: c[3] }
}

/// `Field::pow` of `Fr` with a one-limb exponent: `a` raised to `e` modulo the
/// field's order, one for `e == 0`.
#[verifier::external_body]
fn fr_pow(a: &FieldElement, e: u64) -> (r: FieldElement)
    requires
        a.wf(),
    ensures
        r.wf(),
        r@ == fpow(a@, e as nat),
{
    let x = Fr::from_bigint(BigInt::new([a.l0, a.l1, a.l2, a.l3])).unwrap();
    let c = x.pow([e]).into_bigint().0;
    FieldElement { l0: c[0], l1: c[1], l2: c[2], l3: c[3] }
}

/// `Display` of `Fr`: the least residue in decimal, with the leading zeros
/// taken off, which leaves nothing of zero.
#[verifier::external_body]
fn fr_to_string(a: &FieldElement) -> (r: String)
    requires
        a.wf(),
    ensures
        r@ == field_text(a@),
{
    let x = Fr::from_bigint(BigInt::new([a.l0, a.l1, a.l2, a.l3])).unwrap();
    format!("{}", x)
}

/// `Rng::gen` of `rand`'s thread-local generator, for `Fr`: some element of
/// the field. Nothing is said of which one.
#[verifier::external_body]
pub fn get_rand() -> (r: Option<FieldElement>)
    ensures
        r is Some,
        r->0.wf(),
{
    let c = rand::thread_rng().gen::<Fr>().into_bigint().0;
    Some(FieldElement { l0: c[0], l1: c[1], l2: c[2], l3: c[3] })
}

impl FieldElement {
    /// The limbs spell a least residue: an integer below the field's order.
    pub open spec fn wf(self) -> bool {
        self@ < modulus()
    }

    /// The element that stands for the integer `x`.
    pub fn from_u64(x: u64) -> (r: FieldElement)
        ensures
            r.wf(),
            r@ == x as nat,
    {
        fr_from_u64(x)
    }

    /// The sum of two elements.
    pub fn add(&self, other: &FieldElement) -> (r: FieldElement)
        requires
            self.wf(),
            other.wf(),
        ensures
            r.wf(),
            r@ == fadd(self@, other@),
    {
        fr_add(self, other)
    }

    /// The product of two elements.
    pub fn mul(&self, other: &FieldElement) -> (r: FieldElement)
        requires
            self.wf(),
            other.wf(),
        ensures
            r.wf(),
            r@ == fmul(self@, other@),
    {
        fr_mul(self, other)
    }

    /// The element raised to the power `e`.
    pub fn pow(&self, e: u64) -> (r: FieldElement)
        requires
            self.wf(),
        ensures
            r.wf(),
            r@ == fpow(self@, e as nat),
    {
        fr_pow(self, e)
    }

    /// The element with these limbs, least significant first, where they
    /// spell an integer below the field's order; `None` where they do not.
    pub fn from_limbs(limbs: [u64; 4]) -> (r: Option<FieldElement>)
        ensures
            r is Some <==> limbs_value(limbs[0], limbs[1], limbs[2], limbs[3]) < modulus(),
            r is Some ==> r->0.wf() && r->0@ == limbs_value(limbs[0], limbs[1], limbs[2], limbs[3]),
    {
        let e = FieldElement { l0: limbs[0], l1: limbs[1], l2: limbs[2], l3: limbs[3] };
        if e.is_wf() {
            Some(e)
        } else {
            None
        }
    }

    /// The four limbs of the element, least significant first.
    pub fn limbs(&self) -> (r: [u64; 4])
        ensures
            limbs_value(r[0], r[1], r[2], r[3]) == self@,
    {
        [self.l0, self.l1, self.l2, self.l3]
    }

    /// Whether the limbs spell a least residue.
    pub fn is_wf(&self) -> (b: bool)
        ensures
            b == self.wf(),
    {
        if self.l3 != 0x73eda753299d7d48 {
            self.l3 < 0x73eda753299d7d48
        } else if self.l2 != 0x3339d80809a1d805 {
            self.l2 < 0x3339d80809a1d805
        } else if self.l1 != 0x53bda402fffe5bfe {
            self.l1 < 0x53bda402fffe5bfe
        } else {
            self.l0 < 0xffffffff00000001
        }
    }

    /// The element as text: its least residue in decimal, and the empty
    /// text for zero.
    pub fn to_string(&self) -> (r: String)
        requires
            self.wf(),
        ensures
            r@ == field_text(self@),
    {
        fr_to_string(self)
    }

    /// Whether the element is the field's zero.
    pub fn is_zero(&self) -> (b: bool)
        ensures
            b == (self@ == 0),
    {
        self.l0 == 0 && self.l1 == 0 && self.l2 == 0 && self.l3 == 0
    }

    /// Two elements with the same value have the same limbs, so `==` on
    /// elements decides equality in the field.
    pub proof fn lemma_view_injective(a: FieldElement, b: FieldElement)
        requires
            a@ == b@,
        ensures
            a == b,
    {
    }
}

} // verus!
