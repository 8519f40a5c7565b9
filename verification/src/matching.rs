//! Fused normalization pipeline for case-insensitive, confusable-aware matching.
//!
//! Pipeline: **NFKC → CaseFold → Confusable Skeleton** (NFD → confusable_map → NFD)
//! **→ CaseFold**, iterated to a fixed point.
//!
//! Two strings that produce the same [`normalize_for_matching`] output are
//! equivalent for matching purposes: they share the same compatibility
//! decomposition, the same case folding, and the same confusable prototype.

use vstd::prelude::*;

use std::borrow::Cow;

use crate::casefold::{self, spec_casefold, CaseFoldMode};
use crate::confusable::{self, spec_skeleton};
use crate::normalizer::{normalized, Form};
use crate::text::str_eq;

verus! {

/// Options for the matching normalization pipeline.
#[derive(Clone, Copy, Debug, PartialEq, Eq, Structural)]
pub struct MatchingOptions {
    /// Case folding mode. Defaults to [`CaseFoldMode::Standard`].
    pub case_fold: CaseFoldMode,
}

impl Default for MatchingOptions {
    fn default() -> (r: Self)
        ensures
            r.case_fold == CaseFoldMode::Standard,
    {
        MatchingOptions { case_fold: CaseFoldMode::Standard }
    }
}

/// One pass of the pipeline: NFKC, case folding, skeleton, case folding.
pub open spec fn spec_one_pass(s: Seq<char>, mode: CaseFoldMode) -> Seq<char> {
    spec_casefold(spec_skeleton(spec_casefold(normalized(Form::Nfkc, s), mode)), mode)
}

/// Passes repeated from `cur` until a fixed point or `fuel` more passes.
pub open spec fn matching_iter(cur: Seq<char>, fuel: nat, mode: CaseFoldMode) -> Seq<char>
    decreases fuel,
{
    if fuel == 0 {
        cur
    } else {
        let next = spec_one_pass(cur, mode);
        if next == cur {
            cur
        } else {
            matching_iter(next, (fuel - 1) as nat, mode)
        }
    }
}

/// The matching form of `s`: empty for the empty string; otherwise one pass,
/// then at most three more until the result stops changing.
pub open spec fn spec_normalize_for_matching(s: Seq<char>, mode: CaseFoldMode) -> Seq<char> {
    if s.len() == 0 {
        Seq::empty()
    } else {
        matching_iter(spec_one_pass(s, mode), 3, mode)
    }
}

/// Whether `a` and `b` have the same matching form.
pub open spec fn spec_matches_normalized(a: Seq<char>, b: Seq<char>, mode: CaseFoldMode) -> bool {
    spec_normalize_for_matching(a, mode) == spec_normalize_for_matching(b, mode)
}

/// The UTF-16 code units of one character.
pub open spec fn utf16_of_char(c: char) -> Seq<u16> {
    let v = c as u32;
    if v < 0x10000 {
        seq![v as u16]
    } else {
        seq![
            (0xD800 + (((v - 0x10000) as u32) >> 10u32)) as u16,
            (0xDC00 + (((v - 0x10000) as u32) & 0x3FFu32)) as u16,
        ]
    }
}

/// The UTF-16 encoding of a character sequence.
pub open spec fn utf16_of(s: Seq<char>) -> Seq<u16>
    decreases s.len(),
{
    if s.len() == 0 {
        Seq::empty()
    } else {
        utf16_of(s.drop_last()) + utf16_of_char(s.last())
    }
}

/// The characters of a case-folding result, as an owned `String`.
fn cow_into_owned(c: Cow<'_, str>) -> (r: String)
    ensures
        r@ == c@,
{
    match c {
        Cow::Borrowed(b) => b.to_owned(),
        Cow::Owned(o) => o,
    }
}

/// Normalize input for matching: NFKC → CaseFold → Confusable Skeleton.
///
/// Returns a canonical matching form where:
/// - Compatibility equivalents are unified (NFKC)
/// - Case differences are eliminated (Unicode case folding)
/// - Visually confusable characters map to the same prototype (UTS #39 skeleton)
///
/// Two strings produce the same result if and only if they should be
/// treated as equivalent for keyword detection and anti-spoofing.
pub fn normalize_for_matching(input: &str, opts: &MatchingOptions) -> (r: String)
    ensures
        r@ == spec_normalize_for_matching(input@, opts.case_fold),
        spec_casefold(r@, opts.case_fold) == r@,
{
    proof {
        lemma_matching_form_is_folded(input@, opts.case_fold);
    }
    if input.is_empty() {
        return String::new();
    }
    // Iterate the full pipeline to a fixed point. Each `one_pass` is a
    // NFKC → casefold → skeleton → casefold chain.
    let mode = opts.case_fold;
    let mut current = one_pass(input, opts);
    let mut round: usize = 0;
    while round < 3
        invariant
            round <= 3,
            mode == opts.case_fold,
            input@.len() > 0,
            matching_iter(current@, (3 - round) as nat, mode) == spec_normalize_for_matching(
                input@,
                mode,
            ),
        decreases 3 - round,
    {
        let next = one_pass(current.as_str(), opts);
        if next == current {
            return current;
        }
        current = next;
        round += 1;
    }
    current
}

/// Single pass of the matching pipeline: NFKC → casefold → skeleton → casefold.
///
/// The NFKC-first ordering matters: NFKC canonically composes before
/// casefold, hiding code points like U+0345 (COMBINING GREEK YPOGEGRAMMENI)
/// inside precomposed starters (e.g. U+1F80 `ᾀ`).
pub fn one_pass(input: &str, opts: &MatchingOptions) -> (r: String)
    ensures
        r@ == spec_one_pass(input@, opts.case_fold),
{
    let nfkc = crate::nfkc().normalize(input);
    let nfkc_s = cow_into_owned(nfkc);
    let folded = cow_into_owned(casefold::casefold(nfkc_s.as_str(), opts.case_fold));
    let skel = confusable::skeleton(folded.as_str());
    let final_folded = casefold::casefold(skel.as_str(), opts.case_fold);
    cow_into_owned(final_folded)
}

/// Reference implementation of the matching pipeline, preserved for parity
/// testing against any alternative composition order.
pub fn normalize_for_matching_legacy(input: &str, opts: &MatchingOptions) -> (r: String)
    ensures
        r@ == spec_normalize_for_matching(input@, opts.case_fold),
{
    if input.is_empty() {
        return String::new();
    }
    let mode = opts.case_fold;
    let mut current = one_pass_legacy(input, opts);
    let mut round: usize = 0;
    while round < 3
        invariant
            round <= 3,
            mode == opts.case_fold,
            input@.len() > 0,
            matching_iter(current@, (3 - round) as nat, mode) == spec_normalize_for_matching(
                input@,
                mode,
            ),
        decreases 3 - round,
    {
        let next = one_pass_legacy(current.as_str(), opts);
        if next == current {
            return current;
        }
        current = next;
        round += 1;
    }
    current
}

/// Single legacy pass: NFKC → casefold → skeleton → casefold.
pub fn one_pass_legacy(input: &str, opts: &MatchingOptions) -> (r: String)
    ensures
        r@ == spec_one_pass(input@, opts.case_fold),
{
    let nfkc = cow_into_owned(crate::nfkc().normalize(input));
    let folded = cow_into_owned(casefold::casefold(nfkc.as_str(), opts.case_fold));
    let skel = confusable::skeleton(folded.as_str());
    cow_into_owned(casefold::casefold(skel.as_str(), opts.case_fold))
}

/// Append the UTF-16 code units of `c` to `out`.
fn push_utf16(c: char, out: &mut Vec<u16>)
    ensures
        final(out)@ == old(out)@ + utf16_of_char(c),
{
    let v = c as u32;
    if v < 0x10000 {
        out.push(v as u16);
        assert(out@ =~= old(out)@ + utf16_of_char(c));
    } else {
        let w = v - 0x10000;
        assert(v <= 0x10FFFF);
        assert(w >> 10u32 <= 0x3FF) by (bit_vector)
            requires
                w <= 0xFFFFF,
        ;
        assert(w & 0x3FFu32 <= 0x3FF) by (bit_vector);
        out.push((0xD800 + (w >> 10)) as u16);
        out.push((0xDC00 + (w & 0x3FF)) as u16);
        assert(out@ =~= old(out)@ + utf16_of_char(c));
    }
}

/// Normalize input for matching and encode the result as UTF-16.
///
/// Useful for interoperability with systems that use UTF-16 keyword tables.
pub fn normalize_for_matching_utf16(input: &str, opts: &MatchingOptions) -> (r: Vec<u16>)
    ensures
        r@ == utf16_of(spec_normalize_for_matching(input@, opts.case_fold)),
{
    let s = normalize_for_matching(input, opts);
    let mut out: Vec<u16> = Vec::new();
    let ghost cs = s@;
    assert(cs.take(cs.len() as int) =~= cs);
    assert(cs.take(0) =~= Seq::<char>::empty());
    for ch in it: s.as_str().chars()
        invariant
            it.seq() == cs,
            cs.take(cs.len() as int) == cs,
            out@ == utf16_of(cs.take(it.index() as int)),
    {
        let ghost i = it.index() as int;
        proof {
            assert(cs.take(i + 1).drop_last() =~= cs.take(i));
            assert(cs.take(i + 1).last() == ch);
        }
        push_utf16(ch, &mut out);
    }
    out
}

/// Check whether two strings match after full normalization.
///
/// Returns `true` if both strings produce the same matching form after
/// NFKC normalization, case folding, and confusable skeleton mapping.
pub fn matches_normalized(a: &str, b: &str, opts: &MatchingOptions) -> (r: bool)
    ensures
        r == spec_matches_normalized(a@, b@, opts.case_fold),
{
    // Fast path: identical strings always match.
    if str_eq(a, b) {
        return true;
    }
    normalize_for_matching(a, opts) == normalize_for_matching(b, opts)
}

/// Normalizing for matching is idempotent once the passes have converged:
/// when the matching form is a fixed point of one pass (the loop stopped
/// because a pass changed nothing), normalizing it again gives it back.
pub proof fn lemma_matching_idempotent_when_converged(s: Seq<char>, mode: CaseFoldMode)
    requires
        spec_one_pass(spec_normalize_for_matching(s, mode), mode) == spec_normalize_for_matching(
            s,
            mode,
        ),
    ensures
        spec_normalize_for_matching(spec_normalize_for_matching(s, mode), mode)
            == spec_normalize_for_matching(s, mode),
{
    let r = spec_normalize_for_matching(s, mode);
    if r.len() > 0 {
        assert(matching_iter(spec_one_pass(r, mode), 3, mode) == r);
    }
}

/// The passes from a pass's output end at a pass's output.
proof fn lemma_matching_iter_is_pass_output(x: Seq<char>, fuel: nat, mode: CaseFoldMode)
    ensures
        exists|y: Seq<char>| matching_iter(spec_one_pass(x, mode), fuel, mode) == spec_one_pass(y, mode),
    decreases fuel,
{
    let cur = spec_one_pass(x, mode);
    if fuel == 0 || spec_one_pass(cur, mode) == cur {
        assert(matching_iter(cur, fuel, mode) == spec_one_pass(x, mode));
    } else {
        lemma_matching_iter_is_pass_output(cur, (fuel - 1) as nat, mode);
    }
}

/// No case difference remains in the matching form: folding it changes
/// nothing.
pub proof fn lemma_matching_form_is_folded(s: Seq<char>, mode: CaseFoldMode)
    ensures
        spec_casefold(spec_normalize_for_matching(s, mode), mode) == spec_normalize_for_matching(
            s,
            mode,
        ),
{
    if s.len() == 0 {
        assert(spec_casefold(Seq::<char>::empty(), mode) =~= Seq::<char>::empty());
    } else {
        lemma_matching_iter_is_pass_output(s, 3, mode);
        let y = choose|y: Seq<char>| matching_iter(spec_one_pass(s, mode), 3, mode) == spec_one_pass(
            y,
            mode,
        );
        casefold::lemma_casefold_idempotent(
            spec_skeleton(spec_casefold(normalized(Form::Nfkc, y), mode)),
            mode,
        );
    }
}

/// Every string matches itself.
pub proof fn lemma_matches_reflexive(a: Seq<char>, mode: CaseFoldMode)
    ensures
        spec_matches_normalized(a, a, mode),
{
}

/// Matching is symmetric.
pub proof fn lemma_matches_symmetric(a: Seq<char>, b: Seq<char>, mode: CaseFoldMode)
    requires
        spec_matches_normalized(a, b, mode),
    ensures
        spec_matches_normalized(b, a, mode),
{
}

/// Matching is transitive.
pub proof fn lemma_matches_transitive(
    a: Seq<char>,
    b: Seq<char>,
    c: Seq<char>,
    mode: CaseFoldMode,
)
    requires
        spec_matches_normalized(a, b, mode),
        spec_matches_normalized(b, c, mode),
    ensures
        spec_matches_normalized(a, c, mode),
{
}

} // verus!
