//! The points of the boolean hypercube, numbered by their binary expansions.

use crate::field::{all_wf, values, FieldElement};
use vstd::arithmetic::div_mod::*;
use vstd::arithmetic::power2::*;
use vstd::bits::*;
use vstd::prelude::*;

verus! {

/// The number of binary digits of `i`; zero is written with one digit.
pub open spec fn bit_width(i: nat) -> nat
    decreases i,
{
    if i < 2 {
        1
    } else {
        1 + bit_width(i / 2)
    }
}

/// The `len` low binary digits of `i`, most significant first.
pub open spec fn bits_be(i: nat, len: nat) -> Seq<nat>
    decreases len,
{
    if len == 0 {
        Seq::empty()
    } else {
        bits_be(i / 2, (len - 1) as nat).push(i % 2)
    }
}

/// The number that a sequence of binary digits spells, most significant first.
pub open spec fn from_bits_be(b: Seq<nat>) -> nat
    decreases b.len(),
{
    if b.len() == 0 {
        0
    } else {
        2 * from_bits_be(b.drop_last()) + b.last()
    }
}

/// Every entry is zero or one.
pub open spec fn is_boolean(b: Seq<nat>) -> bool {
    forall|k: int| 0 <= k < b.len() ==> #[trigger] b[k] <= 1
}

/// The length of the vector that `n_to_vec` gives for `i` and `n`: `n`, or
/// the number of digits of `i` where that is more.
pub open spec fn expansion_len(i: nat, n: nat) -> nat {
    if n >= bit_width(i) {
        n
    } else {
        bit_width(i)
    }
}

/// An expansion has as many digits as were asked for, each zero or one.
pub proof fn lemma_bits_shape(i: nat, len: nat)
    ensures
        bits_be(i, len).len() == len,
        is_boolean(bits_be(i, len)),
    decreases len,
{
    if len > 0 {
        lemma_bits_shape(i / 2, (len - 1) as nat);
    }
}

/// A number has at most `len` digits exactly when it is below `2^len`, for a positive `len`.
pub proof fn lemma_bit_width_bound(i: nat, len: nat)
    requires
        len >= 1,
    ensures
        bit_width(i) <= len <==> i < pow2(len),
    decreases len,
{
    lemma2_to64();
    if len == 1 {
        if i >= 2 {
            assert(bit_width(i) == 1 + bit_width(i / 2));
        }
    } else {
        lemma_pow2_unfold(len);
        if i >= 2 {
            lemma_bit_width_bound(i / 2, (len - 1) as nat);
        } else {
            lemma_pow2_strictly_increases(1, len);
        }
    }
}

/// Reading an expansion back gives the number it was made from: for every
/// `i` below `2^len`, the digits of `i` spell `i`.
pub proof fn lemma_bits_round_trip(i: nat, len: nat)
    requires
        i < pow2(len),
    ensures
        from_bits_be(bits_be(i, len)) == i,
    decreases len,
{
    lemma2_to64();
    if len > 0 {
        lemma_pow2_unfold(len);
        lemma_bits_round_trip(i / 2, (len - 1) as nat);
        let b = bits_be(i, len);
        assert(b.drop_last() =~= bits_be(i / 2, (len - 1) as nat));
    }
}

/// Two different numbers below `2^len` have different expansions.
pub proof fn lemma_bits_distinct(i: nat, j: nat, len: nat)
    requires
        i < pow2(len),
        j < pow2(len),
        i != j,
    ensures
        bits_be(i, len) != bits_be(j, len),
{
    lemma_bits_round_trip(i, len);
    lemma_bits_round_trip(j, len);
}

/// Every boolean vector is the expansion of a number below `2^len`, namely
/// of the number that it spells.
pub proof fn lemma_bits_onto(b: Seq<nat>)
    requires
        is_boolean(b),
    ensures
        from_bits_be(b) < pow2(b.len()),
        bits_be(from_bits_be(b), b.len()) == b,
    decreases b.len(),
{
    lemma2_to64();
    if b.len() > 0 {
        let head = b.drop_last();
        lemma_bits_onto(head);
        lemma_pow2_unfold(b.len());
    }
}

/// The leading digit splits the numbers below `2^len` into two halves: the
/// expansion of `n + bit * 2^(len-1)` is `bit` followed by the shorter
/// expansion of `n`.
pub proof fn lemma_bits_leading(n: nat, bit: nat, len: nat)
    requires
        len >= 1,
        n < pow2((len - 1) as nat),
        bit <= 1,
    ensures
        bits_be(n + bit * pow2((len - 1) as nat), len) == seq![bit] + bits_be(n, (len - 1) as nat),
    decreases len,
{
    lemma2_to64();
    let half = pow2((len - 1) as nat);
    if len == 1 {
        assert(bit * half == bit) by (nonlinear_arith)
            requires
                half == 1,
        ;
    } else {
        lemma_pow2_unfold((len - 1) as nat);
        let quarter = pow2((len - 2) as nat);
        assert(bit * half == 2 * (bit * quarter)) by (nonlinear_arith)
            requires
                half == 2 * quarter,
        ;
        lemma_bits_leading(n / 2, bit, (len - 1) as nat);
    }
}

/// The number of binary digits of `i`.
fn bit_length(i: usize) -> (w: usize)
    ensures
        w == bit_width(i as nat),
        1 <= w <= 64,
{
    let mut w: usize = 1;
    let mut x: usize = i;
    proof {
        lemma2_to64();
        assert((x as nat) * pow2(0) <= i as nat) by (nonlinear_arith)
            requires
                x == i,
                pow2(0) == 1,
        ;
    }
    while x >= 2
        invariant
            1 <= w <= 64,
            bit_width(i as nat) == (w - 1) + bit_width(x as nat),
            (x as nat) * pow2((w - 1) as nat) <= i as nat,
        decreases x,
    {
        proof {
            lemma2_to64();
            lemma_pow2_unfold(w as nat);
            let p = pow2((w - 1) as nat);
            let h = (x / 2) as nat;
            assert(h * (2 * p) <= (x as nat) * p) by (nonlinear_arith)
                requires
                    2 * h <= x as nat,
            ;
            if w >= 64 {
                assert(pow2(64) <= h * pow2(64)) by (nonlinear_arith)
                    requires
                        h >= 1,
                ;
            }
        }
        x = x / 2;
        w = w + 1;
    }
    w
}

/// The point of the hypercube with number `i`: the binary expansion of `i`
/// as field elements, most significant digit first, padded with zeros on
/// the left to `n` entries. A number of more than `n` digits is written
/// out in full.
pub fn n_to_vec(i: usize, n: usize) -> (r: Vec<FieldElement>)
    ensures
        all_wf(r@),
        values(r@) == bits_be(i as nat, expansion_len(i as nat, n as nat)),
{
    let w = bit_length(i);
    let len: usize = if n >= w {
        n
    } else {
        w
    };
    let mut r: Vec<FieldElement> = Vec::new();
    let mut k: usize = 0;
    proof {
        lemma_pow2_pos(len as nat);
    }
    while k < len
        invariant
            k <= len,
            len >= bit_width(i as nat),
            len >= 1,
            all_wf(r@),
            values(r@) == bits_be((i as nat) / pow2((len - k) as nat), k as nat),
        decreases len - k,
    {
        let pos: usize = len - 1 - k;
        let digit: u64 = if pos >= 64 {
            0
        } else {
            ((i as u64) >> (pos as u64)) & 1
        };
        proof {
            lemma_pow2_pos(pos as nat);
            lemma_pow2_unfold((pos + 1) as nat);
            lemma_div_denominator(i as int, pow2(pos as nat) as int, 2);
            if pos >= 64 {
                lemma2_to64();
                if pos > 64 {
                    lemma_pow2_strictly_increases(64, pos as nat);
                }
                lemma_basic_div(i as int, pow2(pos as nat) as int);
            } else {
                let x = i as u64;
                let s = pos as u64;
                lemma_u64_shr_is_div(x, s);
                assert((x >> s) & 1 == (x >> s) % 2) by (bit_vector);
            }
        }
        r.push(FieldElement::from_u64(digit));
        k = k + 1;
    }
    proof {
        lemma2_to64();
        assert((i as nat) / pow2(0) == i as nat);
    }
    r
}

} // verus!
