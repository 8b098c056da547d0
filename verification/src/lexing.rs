//! Cutting a text at a separator and reading unsigned numbers, on bytes.

use vstd::prelude::*;

verus! {

/// `sep` stands in `s` at the position `i`.
pub open spec fn occurs_at(s: Seq<u8>, i: int, sep: Seq<u8>) -> bool {
    0 <= i && i + sep.len() <= s.len() && s.subrange(i, i + sep.len()) == sep
}

/// The first position at or after `from` where `sep` stands in `s`; the
/// length of `s` where there is none.
pub open spec fn first_match(s: Seq<u8>, sep: Seq<u8>, from: int) -> int
    decreases s.len() - from,
{
    if from < 0 || sep.len() == 0 || from + sep.len() > s.len() {
        s.len() as int
    } else if occurs_at(s, from, sep) {
        from
    } else {
        first_match(s, sep, from + 1)
    }
}

/// The pieces into which the occurrences of `sep` cut the part of `s`
/// from `from` on. The occurrences are taken from the left and do not
/// overlap; two in a row have an empty piece between them. An empty `sep`
/// cuts nowhere.
pub open spec fn split_from(s: Seq<u8>, sep: Seq<u8>, from: int) -> Seq<Seq<u8>>
    decreases s.len() - from,
{
    let at = first_match(s, sep, from);
    if 0 <= from <= at && at + sep.len() <= s.len() && sep.len() > 0 {
        seq![s.subrange(from, at)] + split_from(s, sep, at + sep.len())
    } else {
        seq![s.subrange(from, s.len() as int)]
    }
}

/// The pieces into which the occurrences of `sep` cut `s`.
pub open spec fn split_spec(s: Seq<u8>, sep: Seq<u8>) -> Seq<Seq<u8>> {
    split_from(s, sep, 0)
}

/// The byte is a decimal digit.
pub open spec fn is_digit(b: u8) -> bool {
    48 <= b <= 57
}

/// Every byte is a decimal digit.
pub open spec fn all_digits(s: Seq<u8>) -> bool {
    forall|k: int| 0 <= k < s.len() ==> is_digit(#[trigger] s[k])
}

/// The number that decimal digits spell.
pub open spec fn digits_value(s: Seq<u8>) -> nat
    decreases s.len(),
{
    if s.len() == 0 {
        0
    } else {
        10 * digits_value(s.drop_last()) + (s.last() - 48) as nat
    }
}

/// The text without a plus sign at its start.
pub open spec fn unsigned_body(s: Seq<u8>) -> Seq<u8> {
    if s.len() > 0 && s[0] == 43 {
        s.subrange(1, s.len() as int)
    } else {
        s
    }
}

/// The number that a text spells, where it is one that does not exceed
/// `max`: decimal digits, at least one, with or without a plus sign before
/// them. Any other text spells none.
pub open spec fn unsigned_spec(s: Seq<u8>, max: nat) -> Option<nat> {
    let body = unsigned_body(s);
    if body.len() > 0 && all_digits(body) && digits_value(body) <= max {
        Some(digits_value(body))
    } else {
        None
    }
}

/// The pieces of a sequence of byte vectors.
pub open spec fn pieces_view(v: Seq<Vec<u8>>) -> Seq<Seq<u8>> {
    Seq::new(v.len(), |i: int| v[i]@)
}

/// The first match is at or after `from`, within `s`, and `sep` stands there.
proof fn lemma_first_match(s: Seq<u8>, sep: Seq<u8>, from: int)
    requires
        0 <= from <= s.len(),
        sep.len() > 0,
    ensures
        from <= first_match(s, sep, from) <= s.len(),
        first_match(s, sep, from) < s.len() ==> occurs_at(s, first_match(s, sep, from), sep),
        forall|i: int| from <= i < first_match(s, sep, from) ==> !#[trigger] occurs_at(s, i, sep),
    decreases s.len() - from,
{
    if from + sep.len() > s.len() {
    } else if !occurs_at(s, from, sep) {
        lemma_first_match(s, sep, from + 1);
    }
}

/// A longer run of digits spells at least as much as its start.
proof fn lemma_digits_grow(s: Seq<u8>, k: int)
    requires
        0 <= k <= s.len(),
    ensures
        digits_value(s.take(k)) <= digits_value(s),
    decreases s.len() - k,
{
    if k < s.len() {
        lemma_digits_grow(s, k + 1);
        assert(s.take(k + 1).drop_last() =~= s.take(k));
    } else {
        assert(s.take(k) =~= s);
    }
}

/// Whether `sep` stands in `s` at the position `i`.
fn matches_at(s: &Vec<u8>, i: usize, sep: &Vec<u8>) -> (r: bool)
    requires
        i + sep.len() <= s.len(),
    ensures
        r == occurs_at(s@, i as int, sep@),
{
    let mut k: usize = 0;
    while k < sep.len()
        invariant
            k <= sep.len(),
            i + sep.len() <= s.len(),
            forall|j: int| 0 <= j < k ==> s@[i + j] == sep@[j],
        decreases sep.len() - k,
    {
        if s[i + k] != sep[k] {
            return false;
        }
        k = k + 1;
    }
    proof {
        assert(s@.subrange(i as int, i + sep.len()) =~= sep@);
    }
    true
}

/// The first position at or after `from` where `sep` stands in `s`.
fn find(s: &Vec<u8>, sep: &Vec<u8>, from: usize) -> (r: usize)
    requires
        from <= s.len(),
        sep.len() > 0,
    ensures
        r == first_match(s@, sep@, from as int),
{
    let mut i: usize = from;
    while i <= s.len() && sep.len() <= s.len() - i
        invariant
            from <= i <= s.len(),
            sep.len() > 0,
            first_match(s@, sep@, from as int) == first_match(s@, sep@, i as int),
        decreases s.len() - i,
    {
        if matches_at(s, i, sep) {
            return i;
        }
        i = i + 1;
    }
    s.len()
}

/// The bytes of `s` from `from` up to `to`.
fn copy_range(s: &Vec<u8>, from: usize, to: usize) -> (r: Vec<u8>)
    requires
        from <= to <= s.len(),
    ensures
        r@ == s@.subrange(from as int, to as int),
{
    let mut r: Vec<u8> = Vec::new();
    let mut i: usize = from;
    while i < to
        invariant
            from <= i <= to <= s.len(),
            r@ == s@.subrange(from as int, i as int),
        decreases to - i,
    {
        r.push(s[i]);
        i = i + 1;
    }
    r
}

/// Cuts `s` at the occurrences of `sep`. An empty `sep` cuts nowhere.
pub fn split(s: &Vec<u8>, sep: &Vec<u8>) -> (r: Vec<Vec<u8>>)
    ensures
        pieces_view(r@) == split_spec(s@, sep@),
        r.len() >= 1,
{
    let mut pieces: Vec<Vec<u8>> = Vec::new();
    if sep.len() == 0 {
        pieces.push(copy_range(s, 0, s.len()));
        proof {
            assert(pieces_view(pieces@) =~= seq![s@.subrange(0, s.len() as int)]);
        }
        return pieces;
    }
    let mut from: usize = 0;
    loop
        invariant
            sep.len() > 0,
            from <= s.len(),
            split_spec(s@, sep@) == pieces_view(pieces@) + split_from(s@, sep@, from as int),
        decreases s.len() - from,
    {
        let at = find(s, sep, from);
        let ghost before = pieces_view(pieces@);
        proof {
            lemma_first_match(s@, sep@, from as int);
        }
        if at < s.len() {
            pieces.push(copy_range(s, from, at));
            proof {
                assert(before + (seq![s@.subrange(from as int, at as int)] + split_from(
                    s@,
                    sep@,
                    at + sep.len(),
                )) =~= pieces_view(pieces@) + split_from(s@, sep@, at + sep.len()));
            }
            from = at + sep.len();
        } else {
            pieces.push(copy_range(s, from, s.len()));
            return pieces;
        }
    }
}

/// Reads an unsigned number that does not exceed `max`.
pub fn parse_unsigned(s: &Vec<u8>, max: u64) -> (r: Option<u64>)
    ensures
        r is Some <==> unsigned_spec(s@, max as nat) is Some,
        r is Some ==> r->0 as nat == unsigned_spec(s@, max as nat)->0,
{
    let start: usize = if s.len() > 0 && s[0] == 43 {
        1
    } else {
        0
    };
    let ghost body = unsigned_body(s@);
    if start == s.len() {
        return None;
    }
    let mut value: u64 = 0;
    let mut i: usize = start;
    while i < s.len()
        invariant
            start <= i <= s.len(),
            start <= 1,
            body == s@.subrange(start as int, s.len() as int),
            body == unsigned_body(s@),
            all_digits(body.take(i - start)),
            value as nat == digits_value(body.take(i - start)),
            value <= max,
        decreases s.len() - i,
    {
        let b = s[i];
        let ghost k = i - start;
        proof {
            assert(body.take(k + 1).drop_last() =~= body.take(k));
            lemma_digits_grow(body, k + 1);
        }
        if b < 48 || b > 57 {
            return None;
        }
        let digit = (b - 48) as u64;
        if digit > max {
            return None;
        }
        if value > (max - digit) / 10 {
            proof {
                // ten times the value and the digit are more than `max`
                assert(10 * value + digit > max) by (nonlinear_arith)
                    requires
                        value > (max - digit) / 10,
                        digit <= max,
                {
                }
            }
            return None;
        }
        proof {
            assert(10 * value + digit <= max) by (nonlinear_arith)
                requires
                    value <= (max - digit) / 10,
                    digit <= max,
            {
            }
        }
        value = 10 * value + digit;
        i = i + 1;
    }
    proof {
        assert(body.take(i - start) =~= body);
    }
    Some(value)
}

} // verus!
