//! UTS #39 confusable skeleton mapping.
//!
//! Implements the skeleton algorithm from UTS #39 Section 4:
//! `skeleton(input) = NFD(confusable_map(NFD(input)))`
//!
//! Two strings are confusable if they produce the same skeleton.

use vstd::prelude::*;

use std::borrow::Cow;

use crate::normalizer::{normalized, Form};
use crate::tables;
use crate::text::{string_push, string_with_capacity};

verus! {

/// What the confusable mapping gives for `c`: the skeleton `unicode_security`
/// computes for the one-character string `c` (its decomposition with each
/// character replaced by its UTS #39 prototype, default-ignorable
/// characters dropped), or `c` itself when that skeleton is empty, so
/// default-ignorable characters are kept unchanged. The lookup guarantees
/// that every character of that skeleton is its own skeleton and
/// decomposes canonically to itself.
pub open spec fn spec_confusable_map_char(c: char) -> Seq<char> {
    let m = tables::skeleton_of(seq![c]);
    if m.len() == 0 || !tables::skeleton_is_final(c) {
        seq![c]
    } else {
        m
    }
}

/// The confusable mapping applied to every character of `s`.
pub open spec fn spec_confusable_map(s: Seq<char>) -> Seq<char>
    decreases s.len(),
{
    if s.len() == 0 {
        Seq::empty()
    } else {
        spec_confusable_map(s.drop_last()) + spec_confusable_map_char(s.last())
    }
}

/// Canonical decomposition (NFD) of `s`, as the normalizer computes it.
pub open spec fn nfd_of_str(s: Seq<char>) -> Seq<char> {
    normalized(Form::Nfd, s)
}

/// Map-then-decompose, repeated from `cur` until it reaches a fixed point or
/// `fuel` more passes have run.
pub open spec fn skeleton_iter(cur: Seq<char>, fuel: nat) -> Seq<char>
    decreases fuel,
{
    if fuel == 0 {
        cur
    } else {
        let next = nfd_of_str(spec_confusable_map(cur));
        if next == cur {
            next
        } else {
            skeleton_iter(next, (fuel - 1) as nat)
        }
    }
}

/// The UTS #39 skeleton of `s`: NFD, then at most eight passes of
/// map-then-NFD, stopping at the first fixed point.
pub open spec fn spec_skeleton(s: Seq<char>) -> Seq<char> {
    if s.len() == 0 {
        Seq::empty()
    } else {
        skeleton_iter(nfd_of_str(s), 8)
    }
}

/// `x` is its own confusable mapping and decomposes canonically to itself.
pub open spec fn fixed_prototype(x: char) -> bool {
    spec_confusable_map_char(x) == seq![x] && crate::decompose::is_decomposed_char(
        x,
        tables::DecompForm::Canonical,
    )
}

/// Mapping a string of characters that decompose canonically to themselves
/// gives characters that are their own mapping and decompose to themselves.
proof fn lemma_map_gives_fixed(t: Seq<char>)
    requires
        forall|i: int|
            0 <= i < t.len() ==> crate::decompose::is_decomposed_char(
                #[trigger] t[i],
                tables::DecompForm::Canonical,
            ),
    ensures
        forall|i: int|
            0 <= i < spec_confusable_map(t).len() ==> fixed_prototype(
                #[trigger] spec_confusable_map(t)[i],
            ),
    decreases t.len(),
{
    if t.len() > 0 {
        let d = t.drop_last();
        assert forall|i: int| 0 <= i < d.len() implies crate::decompose::is_decomposed_char(
            #[trigger] d[i],
            tables::DecompForm::Canonical,
        ) by {
            assert(d[i] == t[i]);
        }
        lemma_map_gives_fixed(d);
        let c = t.last();
        assert(t[t.len() - 1] == c);
        let a = spec_confusable_map(d);
        let b = spec_confusable_map_char(c);
        let m = tables::skeleton_of(seq![c]);
        assert forall|j: int| 0 <= j < b.len() implies fixed_prototype(#[trigger] b[j]) by {
            if m.len() == 0 || !tables::skeleton_is_final(c) {
                assert(b[j] == c);
            } else {
                let x = m[j];
                assert(b[j] == x);
                assert(tables::skeleton_of(seq![x]) == seq![x]);
                assert(tables::final_decomposed_char(x, tables::DecompForm::Canonical));
                assert(tables::skeleton_is_final(x)) by {
                    assert(tables::skeleton_of(seq![x])[0] == x);
                }
                crate::quick_check::lemma_final_is_own_decomposition(x, tables::DecompForm::Canonical);
            }
        }
        assert forall|i: int| 0 <= i < spec_confusable_map(t).len() implies fixed_prototype(
            #[trigger] spec_confusable_map(t)[i],
        ) by {
            if i < a.len() {
                assert(spec_confusable_map(t)[i] == a[i]);
            } else {
                assert(spec_confusable_map(t)[i] == b[i - a.len()]);
            }
        }
    }
}

/// Mapping a string of characters that are their own mapping gives it back.
proof fn lemma_map_of_fixed(t: Seq<char>)
    requires
        forall|i: int| 0 <= i < t.len() ==> fixed_prototype(#[trigger] t[i]),
    ensures
        spec_confusable_map(t) == t,
    decreases t.len(),
{
    if t.len() > 0 {
        let d = t.drop_last();
        assert forall|i: int| 0 <= i < d.len() implies fixed_prototype(#[trigger] d[i]) by {
            assert(d[i] == t[i]);
        }
        lemma_map_of_fixed(d);
        assert(fixed_prototype(t[t.len() - 1]));
        assert(t =~= d + seq![t.last()]);
    }
}

/// The skeleton is idempotent: the skeleton of a skeleton is the skeleton
/// itself, and a skeleton is in NFD. One pass of map-then-NFD reaches characters that are their own
/// prototypes, so the second pass, and the skeleton of the result, change
/// nothing.
pub proof fn lemma_skeleton_idempotent(s: Seq<char>)
    ensures
        spec_skeleton(spec_skeleton(s)) == spec_skeleton(s),
        nfd_of_str(spec_skeleton(s)) == spec_skeleton(s),
{
    if s.len() == 0 {
        crate::normalizer::lemma_empty_is_normalized(Form::Nfd);
    } else {
        let t0 = nfd_of_str(s);
        crate::normalizer::lemma_decomposed_output(Form::Nfd, s);
        lemma_map_gives_fixed(t0);
        let u = spec_confusable_map(t0);
        let pred = |x: char| fixed_prototype(x);
        assert forall|i: int| 0 <= i < u.len() implies crate::decompose::is_decomposed_char(
            #[trigger] u[i],
            tables::DecompForm::Canonical,
        ) && pred(u[i]) by {
            assert(fixed_prototype(u[i]));
        }
        crate::normalizer::lemma_decomposed_chars_kept(Form::Nfd, u, pred);
        let t1 = nfd_of_str(u);
        assert forall|i: int| 0 <= i < t1.len() implies fixed_prototype(#[trigger] t1[i]) by {
            assert(pred(t1[i]));
        }
        lemma_map_of_fixed(t1);
        crate::normalizer::lemma_decomposed_output(Form::Nfd, u);
        assert(nfd_of_str(t1) == t1);
        assert(skeleton_iter(t1, 7) == t1);
        assert(skeleton_iter(t0, 8) == t1);
        assert(spec_skeleton(s) == t1);
        if t1.len() > 0 {
            assert(skeleton_iter(t1, 8) == t1);
        }
    }
}

/// The confusable mapping of a character is the whole skeleton
/// `unicode_security` gives for the one-character string, every character of
/// it in order, or the character itself when that skeleton is empty.
pub proof fn lemma_map_char_is_table_skeleton(c: char)
    requires
        tables::skeleton_is_final(c),
    ensures
        tables::skeleton_of(seq![c]).len() > 0 ==> spec_confusable_map_char(c) == tables::skeleton_of(
            seq![c],
        ),
        tables::skeleton_of(seq![c]).len() == 0 ==> spec_confusable_map_char(c) == seq![c],
{
}

/// Apply the confusable mapping to a single character.
///
/// Pushes the mapped character(s) to `out`. If the character has no
/// confusable mapping, it is pushed unchanged.
pub fn confusable_map_char(c: char, out: &mut String)
    ensures
        final(out)@ == old(out)@ + spec_confusable_map_char(c),
        tables::skeleton_of(seq![c]).len() > 0 ==> final(out)@ == old(out)@ + tables::skeleton_of(
            seq![c],
        ),
        tables::skeleton_of(seq![c]).len() == 0 ==> final(out)@ == old(out)@.push(c),
{
    let mapped = tables::lookup_confusable(c);
    if mapped.len() == 0 {
        string_push(out, c);
        return;
    }
    let mut i: usize = 0;
    while i < mapped.len()
        invariant
            i <= mapped@.len(),
            mapped@ == tables::skeleton_of(seq![c]),
            mapped@.len() > 0,
            out@ == old(out)@ + mapped@.take(i as int),
        decreases mapped.len() - i,
    {
        string_push(out, mapped[i]);
        proof {
            assert(mapped@.take(i + 1) =~= mapped@.take(i as int).push(mapped@[i as int]));
        }
        i += 1;
    }
    proof {
        assert(mapped@.take(mapped@.len() as int) =~= mapped@);
    }
}

/// The characters of a normalization result, as an owned `String`.
fn into_owned_string(c: Cow<'_, str>) -> (r: String)
    ensures
        r@ == c@,
{
    match c {
        Cow::Borrowed(b) => b.to_owned(),
        Cow::Owned(o) => o,
    }
}

/// One pass of the confusable mapping over `current`, followed by NFD.
fn map_then_nfd(current: &String) -> (r: String)
    ensures
        r@ == nfd_of_str(spec_confusable_map(current@)),
{
    let mut mapped = string_with_capacity(current.as_str().len());
    let ghost s = current@;
    assert(s.take(s.len() as int) =~= s);
    assert(s.take(0) =~= Seq::<char>::empty());
    for ch in it: current.as_str().chars()
        invariant
            it.seq() == s,
            s == current@,
            s.take(s.len() as int) == s,
            mapped@ == spec_confusable_map(s.take(it.index() as int)),
    {
        let ghost i = it.index() as int;
        proof {
            assert(s.take(i + 1).drop_last() =~= s.take(i));
            assert(s.take(i + 1).last() == ch);
        }
        confusable_map_char(ch, &mut mapped);
    }
    into_owned_string(crate::nfd().normalize(mapped.as_str()))
}

/// Compute the UTS #39 skeleton of a string.
///
/// The skeleton algorithm: `NFD(confusable_map(NFD(input)))`, iterated
/// to a fixed point. Iteration is required because some confusable
/// expansions produce characters that themselves have confusable
/// mappings; a small iteration cap (eight passes) guards against
/// pathological inputs.
///
/// Two strings are confusable (visually similar) if and only if
/// `skeleton(a) == skeleton(b)`.
pub fn skeleton(input: &str) -> (r: String)
    ensures
        r@ == spec_skeleton(input@),
        spec_skeleton(r@) == r@,
        nfd_of_str(r@) == r@,
{
    proof {
        lemma_skeleton_idempotent(input@);
    }
    if input.is_empty() {
        return String::new();
    }
    // Start from NFD(input); subsequent passes operate on the previous output.
    let mut current: String = into_owned_string(crate::nfd().normalize(input));
    let mut pass: usize = 0;
    while pass < 8
        invariant
            pass <= 8,
            input@.len() > 0,
            skeleton_iter(current@, (8 - pass) as nat) == spec_skeleton(input@),
            spec_skeleton(spec_skeleton(input@)) == spec_skeleton(input@),
            nfd_of_str(spec_skeleton(input@)) == spec_skeleton(input@),
        decreases 8 - pass,
    {
        let next = map_then_nfd(&current);
        if next == current {
            return next;
        }
        current = next;
        pass += 1;
    }
    current
}

/// Whether `a` and `b` have the same skeleton.
pub open spec fn spec_are_confusable(a: Seq<char>, b: Seq<char>) -> bool {
    spec_skeleton(a) == spec_skeleton(b)
}

/// Check whether two strings are confusable (have the same skeleton).
pub fn are_confusable(a: &str, b: &str) -> (r: bool)
    ensures
        r == spec_are_confusable(a@, b@),
{
    skeleton(a) == skeleton(b)
}

/// Every string is confusable with itself.
pub proof fn lemma_confusable_reflexive(a: Seq<char>)
    ensures
        spec_are_confusable(a, a),
{
}

/// Being confusable is symmetric.
pub proof fn lemma_confusable_symmetric(a: Seq<char>, b: Seq<char>)
    requires
        spec_are_confusable(a, b),
    ensures
        spec_are_confusable(b, a),
{
}

/// Being confusable is transitive.
pub proof fn lemma_confusable_transitive(a: Seq<char>, b: Seq<char>, c: Seq<char>)
    requires
        spec_are_confusable(a, b),
        spec_are_confusable(b, c),
    ensures
        spec_are_confusable(a, c),
{
}

} // verus!
