//! Conversions between `str`/`String` and sequences of `char`, and the
//! scalar-value check used when building a `char` from an integer.

use vstd::prelude::*;
use vstd::utf8::encode_utf8;

use crate::utf8::{
    char_start, lemma_char_start_bounds, lemma_char_start_is_boundary, lemma_encode_subrange,
    lemma_encode_utf8_injective,
};

verus! {

/// Whether `v` is a Unicode scalar value (a code point that is not a surrogate).
pub open spec fn is_scalar_value(v: u32) -> bool {
    v <= 0x10FFFF && !(0xD800 <= v && v <= 0xDFFF)
}

/// `char::from_u32`: `Some` exactly for Unicode scalar values, carrying that value.
#[verifier::external_body]
fn std_char_from_u32(v: u32) -> (r: Option<char>)
    ensures
        r == (if is_scalar_value(v) { Some(v as char) } else { None::<char> }),
{
    char::from_u32(v)
}

/// Build a `char` from a code point, or `None` when `v` is not a scalar value.
pub fn char_from_u32(v: u32) -> (r: Option<char>)
    ensures
        r == (if is_scalar_value(v) { Some(v as char) } else { None::<char> }),
        r matches Some(c) ==> c as u32 == v,
{
    let r = std_char_from_u32(v);
    proof {
        if is_scalar_value(v) {
            assert((v as char) as u32 == v);
        }
    }
    r
}

/// The characters of `s`, in order.
pub fn str_chars(s: &str) -> (r: Vec<char>)
    ensures
        r@ == s@,
{
    let mut out: Vec<char> = Vec::new();
    for ch in it: s.chars()
        invariant
            out@ == it.seq().take(it.index() as int),
            it.seq() == s@,
        ensures
            out@ == s@,
    {
        out.push(ch);
    }
    out
}

/// `String::push`: appends one character.
#[verifier::external_body]
pub(crate) fn string_push(s: &mut String, c: char)
    ensures
        final(s)@ == old(s)@.push(c),
{
    s.push(c);
}

/// `String::push_str`: appends a string slice.
#[verifier::external_body]
pub(crate) fn string_push_str(s: &mut String, t: &str)
    ensures
        final(s)@ == old(s)@ + t@,
{
    s.push_str(t);
}

/// `String::with_capacity`: an empty string with room for `n` bytes.
#[verifier::external_body]
pub(crate) fn string_with_capacity(n: usize) -> (r: String)
    ensures
        r@ == Seq::<char>::empty(),
{
    String::with_capacity(n)
}

/// `str == str`: the two strings hold the same characters.
#[verifier::external_body]
pub(crate) fn str_eq(a: &str, b: &str) -> (r: bool)
    ensures
        r == (a@ == b@),
{
    a == b
}

/// Append the characters `i..j` of `input`, given by their byte offsets
/// `a` and `b`, to `out`.
pub(crate) fn push_str_range(input: &str, a: usize, b: usize, out: &mut String, Ghost(i): Ghost<int>, Ghost(j): Ghost<int>)
    requires
        0 <= i <= j <= input@.len(),
        a == char_start(input@, i),
        b == char_start(input@, j),
    ensures
        final(out)@ == old(out)@ + input@.subrange(i, j),
{
    let ghost sq = input@;
    proof {
        lemma_char_start_is_boundary(sq, i);
        lemma_char_start_bounds(sq, j);
        lemma_char_start_bounds(sq, i);
        lemma_encode_subrange(sq, i, sq.len() as int);
        lemma_char_start_bounds(sq, sq.len() as int);
    }
    let (_head, tail) = input.split_at(a);
    proof {
        assert(encode_utf8(tail@) == encode_utf8(sq.subrange(i, sq.len() as int)));
        lemma_encode_utf8_injective(tail@, sq.subrange(i, sq.len() as int));
        let t = sq.subrange(i, sq.len() as int);
        lemma_encode_subrange(sq, i, j);
        assert(t.take(j - i) =~= sq.subrange(i, j));
        assert(char_start(t, j - i) == b - a);
        lemma_char_start_is_boundary(t, j - i);
        lemma_encode_subrange(t, 0, j - i);
        lemma_char_start_bounds(t, 0);
        assert(t.subrange(0, j - i) =~= sq.subrange(i, j));
    }
    let (mid, _rest) = tail.split_at(b - a);
    proof {
        let t = sq.subrange(i, sq.len() as int);
        assert(encode_utf8(mid@) == encode_utf8(sq.subrange(i, j)));
        lemma_encode_utf8_injective(mid@, sq.subrange(i, j));
    }
    string_push_str(out, mid);
}

} // verus!
