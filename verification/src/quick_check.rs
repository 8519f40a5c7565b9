//! Quick-check for normalization forms (UAX#15 Section 9).
//!
//! Code-point range fast paths avoid data lookups for the vast majority of
//! characters; every other character is checked for canonical ordering and
//! for its quick-check property.

use vstd::prelude::*;
use vstd::utf8::encode_utf8;

use crate::normalizer::{spec_is_normalized, Form};
use crate::simd::{self, bit_set, lemma_clear_lowest_bit, lemma_zero_bits};
use crate::tables;
use crate::utf8::{
    self, char_start, lemma_char_bytes_in_string, lemma_char_position, lemma_char_start_bounds,
    lemma_lead_byte_is_char_start, lemma_scalar_bytes,
};
use crate::text::str_eq;

use std::borrow::Cow;

verus! {

/// Result of a quick-check test.
#[derive(Debug, Clone, Copy, PartialEq, Eq, Structural)]
pub enum IsNormalized {
    /// The string is definitely in the target normalization form.
    Yes,
    /// The string is definitely *not* in the target normalization form.
    No,
    /// The string *might* not be normalized; a full check is required.
    Maybe,
}

/// The quick-check value (0=Yes, 1=Maybe, 2=No) as an [`IsNormalized`].
pub open spec fn spec_qc_value_to_result(v: u8) -> IsNormalized {
    if v == 0 {
        IsNormalized::Yes
    } else if v == 1 {
        IsNormalized::Maybe
    } else {
        IsNormalized::No
    }
}

/// Convert a QC value (0=Y, 1=M, 2=N) to IsNormalized.
pub fn qc_value_to_result(v: u8) -> (r: IsNormalized)
    ensures
        r == spec_qc_value_to_result(v),
{
    match v {
        0 => IsNormalized::Yes,
        1 => IsNormalized::Maybe,
        _ => IsNormalized::No,
    }
}

/// CJK Unified Ideographs (BMP blocks).
pub open spec fn spec_is_cjk_unified(cp: u32) -> bool {
    (0x4E00 <= cp <= 0x9FFF) || (0x3400 <= cp <= 0x4DBF)
}

/// Check if a code point is a CJK Unified Ideograph (CCC=0, QC=Yes for all forms).
pub fn is_cjk_unified(cp: u32) -> (r: bool)
    ensures
        r == spec_is_cjk_unified(cp),
{
    (0x4E00 <= cp && cp <= 0x9FFF) || (0x3400 <= cp && cp <= 0x4DBF)
}

/// Supplementary code points treated as safe for every form.
pub open spec fn spec_is_supp_safe(cp: u32) -> bool {
    if cp >= 0x20000 {
        !(0x2F800 <= cp <= 0x2FA1F)
    } else {
        0x1F252 <= cp <= 0x1FBEF
    }
}

/// Check if a supplementary code point (cp >= 0x10000) is safe for all
/// normalization forms (CCC=0 and QC=Yes). Returns false only for narrow
/// exception ranges that may have decompositions or non-zero CCC.
pub fn is_supp_safe(cp: u32) -> (r: bool)
    ensures
        r == spec_is_supp_safe(cp),
{
    if cp >= 0x20000 {
        return !(0x2F800 <= cp && cp <= 0x2FA1F);
    }
    0x1F252 <= cp && cp <= 0x1FBEF
}

/// Hiragana and Katakana code points treated as safe for the composing forms.
pub open spec fn spec_is_kana(cp: u32) -> bool {
    (0x3041 <= cp < 0x3099) || cp == 0x309D || cp == 0x309E || (0x30A0 <= cp <= 0x30FE)
}

/// Check if a code point is Hiragana or Katakana (CCC=0, QC=Yes for NFC/NFKC).
/// Excludes: combining marks U+3099-309A (CCC>0), NFKC-decomposing U+309B-309C,
/// U+309F, U+30FF.
pub fn is_kana(cp: u32) -> (r: bool)
    ensures
        r == spec_is_kana(cp),
{
    (0x3041 <= cp && cp < 0x3099) || cp == 0x309D || cp == 0x309E || (0x30A0 <= cp && cp <= 0x30FE)
}

/// The code point ranges a form's quick check accepts without a lookup.
pub struct QcParams {
    /// Every code point below this is safe.
    pub safe_below: u32,
    /// Hangul syllables are safe.
    pub hangul_safe: bool,
    /// Hiragana/Katakana are safe.
    pub kana_safe: bool,
    /// U+00C0..U+00FF are safe.
    pub latin1_upper_safe: bool,
}

/// A character the quick check accepts (class 0, quick-check Yes) by range alone.
pub open spec fn spec_is_safe(cp: u32, p: QcParams) -> bool {
    cp < p.safe_below || (p.latin1_upper_safe && 0xC0 <= cp < 0x100) || spec_is_cjk_unified(cp)
        || (p.hangul_safe && 0xAC00 <= cp <= 0xD7A3) || (p.kana_safe && spec_is_kana(cp)) || (cp
        >= 0x10000 && spec_is_supp_safe(cp))
}

/// The code points whose quick-check value for `form` is Yes by range, as
/// the data tables show.
pub open spec fn qc_yes_by_range(form: Form, cp: u32) -> bool {
    match form {
        Form::Nfc => tables::nfc_yes_by_range(cp),
        Form::Nfd => tables::nfd_yes_by_range(cp),
        Form::Nfkc => tables::nfkc_yes_by_range(cp),
        Form::Nfkd => tables::nfkd_yes_by_range(cp),
    }
}

/// The quick-check property (0=Yes, 1=Maybe, 2=No) of `c` for `form`, as
/// the data reports it; the lookups guarantee that a No is only ever
/// reported for a character that does not decompose to itself in the
/// form's decomposition, and, for the decomposition-only forms, always for
/// one that does not; for the composing forms, U+00C0..U+00FF are Yes.
pub open spec fn spec_qc_of_char(form: Form, c: char) -> u8 {
    let q = match form {
        Form::Nfc => tables::is_nfc_quick_of(seq![c]),
        Form::Nfd => tables::is_nfd_quick_of(seq![c]),
        Form::Nfkc => tables::is_nfkc_quick_of(seq![c]),
        Form::Nfkd => tables::is_nfkd_quick_of(seq![c]),
    };
    if qc_yes_by_range(form, c as u32) || (form.spec_composes() && 0xC0 <= c as u32 && (c as u32)
        < 0x100) {
        0
    } else if q >= 2 && crate::decompose::is_decomposed_char(c, form.spec_decomp_form()) {
        1
    } else if !form.spec_composes() && q < 2 && !crate::decompose::is_decomposed_char(
        c,
        form.spec_decomp_form(),
    ) {
        2
    } else {
        q
    }
}

/// A quick-check No for `c` means that `c` does not decompose to itself in
/// the form's decomposition.
pub open spec fn qc_no_means_decomposes(form: Form, c: char) -> bool {
    spec_qc_of_char(form, c) >= 2 ==> !crate::decompose::is_decomposed_char(
        c,
        form.spec_decomp_form(),
    )
}

/// Every character's quick-check No means it does not decompose to itself.
pub proof fn lemma_qc_no_means_decomposes(form: Form, c: char)
    ensures
        qc_no_means_decomposes(form, c),
{
}

/// A character that does not map to itself by range and whose decomposition
/// in the data is not itself does not decompose to itself.
proof fn lemma_not_own_decomposition(c: char, df: tables::DecompForm)
    requires
        !crate::decompose::spec_maps_to_itself(c as u32),
        tables::decomposition_of(c, df) != seq![c],
    ensures
        !crate::decompose::is_decomposed_char(c, df),
{
    if crate::hangul::spec_is_hangul_syllable(c) {
        assert(crate::hangul::hangul_decomposition(c).len() >= 2);
    } else if crate::decompose::is_decomposed_char(c, df) {
        let d = tables::decomposition_of(c, df);
        assert(crate::decompose::decomposition_entries(c, df) == crate::decompose::with_classes(d));
        assert(d =~= seq![c]);
    }
}

/// A character the data decomposes to itself, and that is no syllable,
/// decomposes to itself.
pub proof fn lemma_final_is_own_decomposition(c: char, df: tables::DecompForm)
    requires
        tables::final_decomposed_char(c, df),
    ensures
        crate::decompose::is_decomposed_char(c, df),
{
    if !crate::decompose::spec_maps_to_itself(c as u32) {
        let d = tables::decomposition_of(c, df);
        assert(tables::final_decomposed_char(tables::data_decomposition_of(c, df)[0], df));
        assert(d =~= seq![c]);
        assert(crate::decompose::decomposition_entries(c, df) == crate::decompose::with_classes(d));
    }
}

/// Look up the quick-check property (0=Yes, 1=Maybe, 2=No) of `c` for `form`.
pub fn lookup_qc(form: Form, c: char) -> (r: u8)
    ensures
        r == spec_qc_of_char(form, c),
{
    let r = match form {
        Form::Nfc => tables::lookup_nfc_qc(c),
        Form::Nfd => tables::lookup_nfd_qc(c),
        Form::Nfkc => tables::lookup_nfkc_qc(c),
        Form::Nfkd => tables::lookup_nfkd_qc(c),
    };
    proof {
        if r >= 2 {
            lemma_not_own_decomposition(c, form.spec_decomp_form());
        } else if !form.spec_composes() {
            lemma_final_is_own_decomposition(c, form.spec_decomp_form());
        }
    }
    r
}

/// One character `c` through the quick check, from class `last` and answer
/// `result`: ASCII and range-safe characters reset the class; any other
/// character is checked for canonical order and for its quick-check value.
pub open spec fn qc_char_step(form: Form, p: QcParams, last: u8, result: IsNormalized, c: char) -> (
    u8,
    IsNormalized,
) {
    let cp = c as u32;
    if cp <= 0x7F || spec_is_safe(cp, p) {
        (0, result)
    } else {
        let ccc = tables::canonical_combining_class_of(c);
        let q = spec_qc_value_to_result(spec_qc_of_char(form, c));
        if ccc != 0 && last > ccc {
            (last, IsNormalized::No)
        } else if q == IsNormalized::No {
            (last, IsNormalized::No)
        } else if q == IsNormalized::Maybe {
            (ccc, IsNormalized::Maybe)
        } else {
            (ccc, result)
        }
    }
}

/// The running state of the quick check over `s`: the class of the last
/// character and the answer so far (No is final).
pub open spec fn qc_state(form: Form, p: QcParams, s: Seq<char>) -> (u8, IsNormalized)
    decreases s.len(),
{
    if s.len() == 0 {
        (0, IsNormalized::Yes)
    } else {
        let prev = qc_state(form, p, s.drop_last());
        if prev.1 == IsNormalized::No {
            prev
        } else {
            qc_char_step(form, p, prev.0, prev.1, s.last())
        }
    }
}

/// One character through the quick check by looking it up: its class from
/// the class data and its quick-check value from the quick-check data.
pub open spec fn qc_lookup_step(form: Form, last: u8, result: IsNormalized, c: char) -> (
    u8,
    IsNormalized,
) {
    let ccc = tables::canonical_combining_class_of(c);
    let q = spec_qc_value_to_result(spec_qc_of_char(form, c));
    if ccc != 0 && last > ccc {
        (last, IsNormalized::No)
    } else if q == IsNormalized::No {
        (last, IsNormalized::No)
    } else if q == IsNormalized::Maybe {
        (ccc, IsNormalized::Maybe)
    } else {
        (ccc, result)
    }
}

/// The quick check over `s` that looks every character up (No is final).
pub open spec fn qc_lookup_state(form: Form, s: Seq<char>) -> (u8, IsNormalized)
    decreases s.len(),
{
    if s.len() == 0 {
        (0, IsNormalized::Yes)
    } else {
        let prev = qc_lookup_state(form, s.drop_last());
        if prev.1 == IsNormalized::No {
            prev
        } else {
            qc_lookup_step(form, prev.0, prev.1, s.last())
        }
    }
}

/// Every code point the quick check of `form` accepts by its range is a
/// starter (class 0) whose quick-check value for `form` is Yes, so the
/// range shortcut answers what looking it up answers.
pub proof fn lemma_range_accepted_is_plain(form: Form, c: char, last: u8, result: IsNormalized)
    requires
        (c as u32) <= 0x7F || spec_is_safe(c as u32, qc_params(form)),
    ensures
        tables::canonical_combining_class_of(c) == 0,
        spec_qc_of_char(form, c) == 0,
        qc_char_step(form, qc_params(form), last, result, c) == qc_lookup_step(form, last, result, c),
{
    assert(qc_yes_by_range(form, c as u32));
    assert(tables::class_zero_by_range(c));
}

/// A code point the quick check of a composing form (NFC, NFKC) accepts by
/// its range composes with nothing before it: no character and it have a
/// composite.
pub proof fn lemma_range_accepted_composes_with_nothing(fc: Form, a: char, b: char)
    requires
        fc.spec_composes(),
        (b as u32) <= 0x7F || spec_is_safe(b as u32, qc_params(fc)),
    ensures
        crate::compose::spec_compose(a, b) is None,
{
    assert(tables::nfc_yes_by_range(b as u32));
    if crate::hangul::spec_compose_hangul(a, b) is Some {
        crate::hangul::lemma_compose_hangul_decomposition(a, b);
    }
}

/// The range shortcuts never change the quick check: its running state, and
/// so its answer, is that of looking every character up.
pub proof fn lemma_quick_check_is_lookup(form: Form, s: Seq<char>)
    ensures
        qc_state(form, qc_params(form), s) == qc_lookup_state(form, s),
        spec_quick_check(form, s) == qc_lookup_state(form, s).1,
    decreases s.len(),
{
    if s.len() > 0 {
        lemma_quick_check_is_lookup(form, s.drop_last());
        let prev = qc_state(form, qc_params(form), s.drop_last());
        let c = s.last();
        if (c as u32) <= 0x7F || spec_is_safe(c as u32, qc_params(form)) {
            lemma_range_accepted_is_plain(form, c, prev.0, prev.1);
        }
    }
}

/// The quick check answers from the characters' own quick-check values and
/// classes: Yes only when every character's value is Yes (0), and No
/// whenever some character's value is No (2) or a mark follows one of a
/// higher class; otherwise (some value Maybe) it answers Maybe.
pub proof fn lemma_quick_check_answer(form: Form, s: Seq<char>)
    ensures
        spec_quick_check(form, s) == IsNormalized::Yes ==> forall|i: int|
            0 <= i < s.len() ==> spec_qc_of_char(form, #[trigger] s[i]) == 0,
        spec_quick_check(form, s) != IsNormalized::No ==> forall|i: int|
            0 <= i < s.len() ==> spec_qc_of_char(form, #[trigger] s[i]) == 0 || spec_qc_of_char(
                form,
                s[i],
            ) == 1,
        spec_quick_check(form, s) == IsNormalized::Maybe ==> exists|i: int|
            0 <= i < s.len() && spec_qc_of_char(form, #[trigger] s[i]) == 1,
    decreases s.len(),
{
    lemma_quick_check_is_lookup(form, s);
    if s.len() > 0 {
        let t = s.drop_last();
        lemma_quick_check_answer(form, t);
        lemma_quick_check_is_lookup(form, t);
        let c = s.last();
        assert(s[s.len() - 1] == c);
        let prev = qc_lookup_state(form, t);
        assert forall|i: int| 0 <= i < t.len() implies s[i] == t[i] by {}
        if spec_quick_check(form, s) == IsNormalized::Maybe && prev.1 == IsNormalized::Maybe {
            let j = choose|j: int| 0 <= j < t.len() && spec_qc_of_char(form, #[trigger] t[j]) == 1;
            assert(s[j] == t[j]);
        }
    }
}

/// The answer of the quick check with range parameters `p`.
pub open spec fn spec_quick_check_with(form: Form, p: QcParams, s: Seq<char>) -> IsNormalized {
    qc_state(form, p, s).1
}

/// The range parameters each form's quick check uses.
pub open spec fn qc_params(form: Form) -> QcParams {
    match form {
        Form::Nfc => QcParams {
            safe_below: 0x300,
            hangul_safe: true,
            kana_safe: true,
            latin1_upper_safe: true,
        },
        Form::Nfd => QcParams {
            safe_below: 0xC0,
            hangul_safe: false,
            kana_safe: false,
            latin1_upper_safe: false,
        },
        Form::Nfkc => QcParams {
            safe_below: 0xA0,
            hangul_safe: true,
            kana_safe: true,
            latin1_upper_safe: true,
        },
        Form::Nfkd => QcParams {
            safe_below: 0xA0,
            hangul_safe: false,
            kana_safe: false,
            latin1_upper_safe: false,
        },
    }
}

/// The quick check of `form` on `s`.
pub open spec fn spec_quick_check(form: Form, s: Seq<char>) -> IsNormalized {
    spec_quick_check_with(form, qc_params(form), s)
}

/// The quick check that resolves every range shortcut except U+00C0..U+00FF
/// through the general path.
pub open spec fn spec_quick_check_oracle(form: Form, s: Seq<char>) -> IsNormalized {
    let p = qc_params(form);
    spec_quick_check_with(
        form,
        QcParams {
            safe_below: p.safe_below,
            hangul_safe: p.hangul_safe,
            kana_safe: p.kana_safe,
            latin1_upper_safe: false,
        },
        s,
    )
}

/// Once the quick check has answered No on a prefix, it answers No on the
/// whole string.
pub proof fn lemma_no_is_final(form: Form, p: QcParams, s: Seq<char>, k: int)
    requires
        0 <= k <= s.len(),
        qc_state(form, p, s.take(k)).1 == IsNormalized::No,
    ensures
        qc_state(form, p, s).1 == IsNormalized::No,
    decreases s.len() - k,
{
    if k == s.len() {
        assert(s.take(k) =~= s);
    } else {
        assert(s.take(k + 1).drop_last() =~= s.take(k));
        lemma_no_is_final(form, p, s, k + 1);
    }
}

/// Every character of `s` is ASCII or in a range the parameters mark safe.
pub open spec fn all_range_safe(s: Seq<char>, p: QcParams) -> bool {
    forall|i: int| 0 <= i < s.len() ==> (#[trigger] s[i] as u32) <= 0x7F || spec_is_safe(s[i] as u32, p)
}

/// A string made only of ASCII and range-safe characters passes the quick
/// check with Yes.
pub proof fn lemma_all_safe_is_yes(form: Form, p: QcParams, s: Seq<char>)
    requires
        all_range_safe(s, p),
    ensures
        qc_state(form, p, s) == (0u8, IsNormalized::Yes),
    decreases s.len(),
{
    if s.len() > 0 {
        let t = s.drop_last();
        assert forall|i: int| 0 <= i < t.len() implies (#[trigger] t[i] as u32) <= 0x7F || spec_is_safe(t[i] as u32, p) by {
            assert(t[i] == s[i]);
        }
        lemma_all_safe_is_yes(form, p, t);
        assert(s[s.len() - 1] == s.last());
    }
}

/// The oracle quick check and the quick check give the same answer on every
/// string.
pub proof fn lemma_oracle_agrees(form: Form, s: Seq<char>)
    ensures
        spec_quick_check_oracle(form, s) == spec_quick_check(form, s),
    decreases s.len(),
{
    let p = qc_params(form);
    let q = QcParams {
        safe_below: p.safe_below,
        hangul_safe: p.hangul_safe,
        kana_safe: p.kana_safe,
        latin1_upper_safe: false,
    };
    lemma_qc_state_latin1_flag(form, p, q, s);
}

/// Two parameter sets that differ only in the U+00C0..U+00FF flag give the
/// same running state.
proof fn lemma_qc_state_latin1_flag(form: Form, p: QcParams, q: QcParams, s: Seq<char>)
    requires
        p.latin1_upper_safe ==> form.spec_composes(),
        q.latin1_upper_safe ==> form.spec_composes(),
        p.safe_below == q.safe_below,
        p.hangul_safe == q.hangul_safe,
        p.kana_safe == q.kana_safe,
    ensures
        qc_state(form, p, s) == qc_state(form, q, s),
    decreases s.len(),
{
    if s.len() > 0 {
        let t = s.drop_last();
        lemma_qc_state_latin1_flag(form, p, q, t);
        let c = s.last();
        if 0xC0 <= (c as u32) && (c as u32) < 0x100 && form.spec_composes() {
            assert(tables::canonical_combining_class_of(c) == 0);
            assert(spec_qc_of_char(form, c) == 0);
            assert(s.last() == c);
        } else {
            assert(spec_is_safe(c as u32, p) == spec_is_safe(c as u32, q));
        }
    }
}

/// Check one character: returns the new class and answer.
fn check_char(ch: char, form: Form, p: &QcParams, last_ccc: u8, result: IsNormalized) -> (r: (
    u8,
    IsNormalized,
))
    ensures
        r == qc_char_step(form, *p, last_ccc, result, ch),
{
    let cp = ch as u32;
    // Fast path: ASCII and known-safe code point ranges (CCC=0 and QC=Yes).
    if cp <= 0x7F || cp < p.safe_below || (p.latin1_upper_safe && 0x00C0 <= cp && cp < 0x0100)
        || is_cjk_unified(cp) || (p.hangul_safe && 0xAC00 <= cp && cp <= 0xD7A3) || (p.kana_safe
        && is_kana(cp)) || (cp >= 0x10000 && is_supp_safe(cp)) {
        return (0, result);
    }
    let ccc = tables::lookup_ccc(ch);
    // CCC must be non-decreasing among non-zero values.
    if ccc != 0 && last_ccc > ccc {
        return (last_ccc, IsNormalized::No);
    }
    match qc_value_to_result(lookup_qc(form, ch)) {
        IsNormalized::No => (last_ccc, IsNormalized::No),
        IsNormalized::Maybe => (ccc, IsNormalized::Maybe),
        IsNormalized::Yes => (ccc, result),
    }
}

/// Scalar quick-check over the characters of `input`.
pub fn quick_check_scalar(input: &str, form: Form, p: &QcParams) -> (r: IsNormalized)
    ensures
        r == spec_quick_check_with(form, *p, input@),
{
    let mut last_ccc: u8 = 0;
    let mut result = IsNormalized::Yes;
    let ghost s = input@;
    assert(s.take(s.len() as int) =~= s);
    for ch in it: input.chars()
        invariant
            it.seq() == s,
            s == input@,
            s.take(s.len() as int) == s,
            (last_ccc, result) == qc_state(form, *p, s.take(it.index() as int)),
            result != IsNormalized::No,
    {
        let ghost i = it.index() as int;
        proof {
            assert(s.take(i + 1).drop_last() =~= s.take(i));
            assert(s.take(i + 1).last() == ch);
        }
        let (c, r) = check_char(ch, form, p, last_ccc, result);
        if r == IsNormalized::No {
            proof {
                lemma_no_is_final(form, *p, s, i + 1);
            }
            return IsNormalized::No;
        }
        last_ccc = c;
        result = r;
    }
    result
}

/// Characters whose encodings start in a run of bytes below `bound` are
/// passed over by the quick check: each resets the class to 0 and keeps the
/// answer.
proof fn lemma_advance_safe(form: Form, p: QcParams, s: Seq<char>, k: int, hi: int, bound: u8) -> (k2: int)
    requires
        0 <= k <= s.len(),
        0xC0 <= bound <= 0xE0,
        (bound - 0xC0) * 64 <= p.safe_below,
        qc_state(form, p, s.take(k)).1 != IsNormalized::No,
        forall|i: int|
            char_start(s, k) <= i < hi && i < encode_utf8(s).len() ==> #[trigger] encode_utf8(s)[i]
                < bound,
    ensures
        k <= k2 <= s.len(),
        k2 == s.len() || char_start(s, k2) >= hi,
        k2 > k ==> char_start(s, k2 - 1) < hi,
        k2 > k ==> qc_state(form, p, s.take(k2)) == (0u8, qc_state(form, p, s.take(k)).1),
        k2 == k ==> qc_state(form, p, s.take(k2)) == qc_state(form, p, s.take(k)),
    decreases s.len() - k,
{
    if k == s.len() || char_start(s, k) >= hi {
        k
    } else {
        lemma_char_start_bounds(s, k);
        lemma_char_position(s, k);
        lemma_char_bytes_in_string(s, k);
        lemma_scalar_bytes(s[k]);
        let lead = encode_utf8(s)[char_start(s, k)];
        assert(lead < bound);
        let cp = s[k] as u32;
        assert(cp <= 0x7F || cp < p.safe_below) by {
            if lead >= 0x80 {
                assert(cp < (lead - 0xC0 + 1) * 64);
                assert((lead - 0xC0 + 1) * 64 <= (bound - 0xC0) * 64) by (nonlinear_arith)
                    requires
                        lead < bound,
                        lead >= 0xC2,
                ;
            }
        }
        assert(s.take(k + 1).drop_last() =~= s.take(k));
        assert(s.take(k + 1).last() == s[k]);
        let k2 = lemma_advance_safe(form, p, s, k + 1, hi, bound);
        k2
    }
}

/// Generic quick-check implementation.
///
/// For inputs of at least 64 bytes, 64-byte chunks are scanned for bytes at
/// or above `simd_bound`; chunks without one are skipped in bulk, and in the
/// others only the characters that start at a flagged byte are inspected.
/// Shorter inputs go through [`quick_check_scalar`]. Returns as soon as a
/// definitive No is found.
///
/// Every character whose leading byte is below `simd_bound` must be safe for
/// the form (below `p.safe_below`), which the `requires` states.
pub fn quick_check_impl(input: &str, form: Form, p: &QcParams, simd_bound: u8) -> (r: IsNormalized)
    requires
        0xC0 <= simd_bound <= 0xE0,
        (simd_bound - 0xC0) * 64 <= p.safe_below,
    ensures
        r == spec_quick_check_with(form, *p, input@),
{
    let bytes = input.as_bytes();
    let len = bytes.len();
    if len < 64 {
        return quick_check_scalar(input, form, p);
    }
    let ghost s = input@;
    let ghost blen = bytes@.len() as int;
    assert(bytes@ == encode_utf8(s));
    proof {
        lemma_char_start_bounds(s, s.len() as int);
        assert(s.take(0) =~= Seq::<char>::empty());
        assert(s.take(s.len() as int) =~= s);
    }
    let mut last_ccc: u8 = 0;
    let mut result = IsNormalized::Yes;
    // Byte offset past the last character examined.
    let mut processed_up_to: usize = 0;
    let mut pos: usize = 0;
    let ghost mut k: int = 0;

    // Chunk loop: skip chunks where all bytes < simd_bound in bulk.
    while len - pos >= 64
        invariant
            bytes@ == encode_utf8(s),
            s == input@,
            len == bytes@.len(),
            blen == len,
            s.take(s.len() as int) == s,
            char_start(s, s.len() as int) == blen,
            0xC0 <= simd_bound <= 0xE0,
            (simd_bound - 0xC0) * 64 <= p.safe_below,
            pos <= processed_up_to <= pos + 3,
            processed_up_to <= len,
            0 <= k <= s.len(),
            char_start(s, k) >= processed_up_to,
            k > 0 ==> char_start(s, k - 1) < processed_up_to,
            char_start(s, k) > processed_up_to ==> last_ccc == 0,
            (last_ccc, result) == qc_state(form, *p, s.take(k)),
            result != IsNormalized::No,
        decreases len - pos,
    {
        let chunk_end = pos + 64;
        let chunk = vstd::slice::slice_subrange(bytes, pos, chunk_end);
        let mask = simd::scan_chunk(chunk, simd_bound);
        proof {
            assert forall|i: int| pos <= i < chunk_end && !bit_set(mask, (i - pos) as u64) implies #[trigger] bytes@[i] < simd_bound by {
                assert(chunk@[i - pos] == bytes@[i]);
            }
        }
        if mask == 0 {
            // All bytes < simd_bound: the characters starting in this chunk
            // are ASCII or known-safe; the class resets to 0.
            proof {
                assert forall|i: int| pos <= i < chunk_end implies #[trigger] bytes@[i] < simd_bound by {
                    lemma_zero_bits((i - pos) as u64);
                    assert(chunk@[i - pos] == bytes@[i]);
                }
                let k2 = lemma_advance_safe(form, *p, s, k, chunk_end as int, simd_bound);
                k = k2;
            }
            last_ccc = 0;
            processed_up_to = chunk_end;
            pos = chunk_end;
            continue;
        }
        // Walk set bits: each is the leading byte of a character to inspect.
        let chunk_start = pos;
        let mut chunk_mask = mask;
        let ghost mut lo: int = 0;
        while chunk_mask != 0
            invariant
                bytes@ == encode_utf8(s),
                s == input@,
                len == bytes@.len(),
                blen == len,
                s.take(s.len() as int) == s,
                char_start(s, s.len() as int) == blen,
                0xC0 <= simd_bound <= 0xE0,
                (simd_bound - 0xC0) * 64 <= p.safe_below,
                chunk_start == pos,
                chunk_end == pos + 64,
                chunk_end <= len,
                forall|i: int| pos <= i < chunk_end && !bit_set(mask, (i - pos) as u64) ==> #[trigger] bytes@[i] < simd_bound,
                forall|i: u64| i < 64 ==> (bit_set(mask, i) ==> #[trigger] bytes@[pos + i] >= simd_bound),
                0 <= lo <= 64,
                forall|i: u64| i < 64 ==> (#[trigger] bit_set(chunk_mask, i) <==> (bit_set(mask, i) && i >= lo)),
                forall|i: u64| i < 64 && i < lo && #[trigger] bit_set(mask, i) ==> pos + i < processed_up_to,
                pos <= processed_up_to <= chunk_end + 3,
                processed_up_to <= len,
                0 <= k <= s.len(),
                char_start(s, k) >= processed_up_to,
                k > 0 ==> char_start(s, k - 1) < processed_up_to,
                char_start(s, k) > processed_up_to ==> last_ccc == 0,
                (last_ccc, result) == qc_state(form, *p, s.take(k)),
                result != IsNormalized::No,
            decreases chunk_mask,
        {
            proof {
                lemma_clear_lowest_bit(chunk_mask);
            }
            let tz = chunk_mask.trailing_zeros();
            let bit_pos = tz as usize;
            let ghost t = tz as u64;
            let ghost lo_old = lo;
            let ghost cm_old = chunk_mask;
            chunk_mask = chunk_mask & (chunk_mask - 1);
            let byte_pos = chunk_start + bit_pos;
            proof {
                assert(bit_set(cm_old, t));
                assert(bit_set(mask, t) && t >= lo_old);
                assert forall|i: u64| lo_old <= i < t implies !#[trigger] bit_set(mask, i) by {
                    assert(!bit_set(cm_old, i));
                }
                assert forall|i: u64| i < 64 implies (#[trigger] bit_set(chunk_mask, i) <==> (
                bit_set(mask, i) && i >= t + 1)) by {
                    assert(bit_set(chunk_mask, i) <==> (bit_set(cm_old, i) && i != t));
                }
                lo = t + 1;
            }
            // Skip bytes already covered by a previous multi-byte decode.
            if byte_pos < processed_up_to {
                continue;
            }
            proof {
                // Every byte from the next character's start up to this one
                // is below the bound: flagged bytes before it are behind us.
                assert forall|i: int|
                    char_start(s, k) <= i < byte_pos && i < blen implies #[trigger] bytes@[i]
                    < simd_bound by {
                    let j = (i - pos) as u64;
                    if bit_set(mask, j) {
                        if j < lo_old {
                            assert(pos + j < processed_up_to);
                        } else {
                            assert(!bit_set(mask, j));
                        }
                    }
                }
                let k2 = lemma_advance_safe(form, *p, s, k, byte_pos as int, simd_bound);
                assert(bytes@[pos + t] >= simd_bound);
                lemma_lead_byte_is_char_start(s, k2, byte_pos as int);
                if k2 == k && byte_pos > processed_up_to {
                    assert(char_start(s, k) > processed_up_to);
                    assert(last_ccc == 0);
                }
                assert(qc_state(form, *p, s.take(k2)).1 == result);
                assert(byte_pos > processed_up_to ==> qc_state(form, *p, s.take(k2)).0 == 0);
                if k2 > k {
                    lemma_char_start_bounds(s, k2 - 1);
                }
                assert(byte_pos == processed_up_to ==> k2 == k);
                k = k2;
            }
            // Gap before this leading byte: safe characters, class 0.
            if byte_pos > processed_up_to {
                last_ccc = 0;
            }
            assert((last_ccc, result) == qc_state(form, *p, s.take(k)));
            proof {
                lemma_char_position(s, k);
                lemma_scalar_bytes(s[k]);
            }
            let (ch, width) = utf8::decode_char_at(bytes, byte_pos);
            proof {
                vstd::utf8::char_u32_cast(ch, ch as u32);
                vstd::utf8::char_u32_cast(s[k], s[k] as u32);
                assert(ch == s[k]);
                assert(s.take(k + 1).drop_last() =~= s.take(k));
                assert(s.take(k + 1).last() == s[k]);
            }
            processed_up_to = byte_pos + width;
            let (c, r) = check_char(ch, form, p, last_ccc, result);
            if r == IsNormalized::No {
                proof {
                    lemma_no_is_final(form, *p, s, k + 1);
                }
                return IsNormalized::No;
            }
            last_ccc = c;
            result = r;
            proof {
                k = k + 1;
            }
        }
        proof {
            assert forall|i: int| processed_up_to <= i < chunk_end implies #[trigger] bytes@[i]
                < simd_bound by {
                let j = (i - pos) as u64;
                if bit_set(mask, j) {
                    if j >= lo {
                        assert(bit_set(chunk_mask, j));
                        lemma_zero_bits(j);
                    } else {
                        assert(pos + j < processed_up_to);
                    }
                }
            }
        }
        // Trailing safe bytes in this chunk after the last flagged character.
        if processed_up_to < chunk_end {
            proof {
                let k2 = lemma_advance_safe(form, *p, s, k, chunk_end as int, simd_bound);
                k = k2;
            }
            last_ccc = 0;
            processed_up_to = chunk_end;
        }
        pos = chunk_end;
    }

    // Scalar tail for the bytes after the last full chunk.
    let mut tail_pos = processed_up_to;
    while tail_pos < len
        invariant
            bytes@ == encode_utf8(s),
            s == input@,
            len == bytes@.len(),
            blen == len,
            s.take(s.len() as int) == s,
            char_start(s, s.len() as int) == blen,
            tail_pos <= len,
            0 <= k <= s.len(),
            char_start(s, k) >= tail_pos,
            k > 0 ==> char_start(s, k - 1) < tail_pos,
            char_start(s, k) > tail_pos ==> last_ccc == 0,
            (last_ccc, result) == qc_state(form, *p, s.take(k)),
            result != IsNormalized::No,
        decreases len - tail_pos,
    {
        let b = bytes[tail_pos];
        if b < 0x80 {
            // ASCII: CCC=0, QC=Yes for all forms.
            proof {
                lemma_lead_byte_is_char_start(s, k, tail_pos as int);
                lemma_char_bytes_in_string(s, k);
                lemma_char_position(s, k);
                lemma_scalar_bytes(s[k]);
                assert(s.take(k + 1).drop_last() =~= s.take(k));
                assert(s.take(k + 1).last() == s[k]);
                k = k + 1;
            }
            last_ccc = 0;
            tail_pos += 1;
            continue;
        }
        // Continuation bytes of a character that crossed the chunk/tail
        // boundary: its leading byte was below the bound, so it is safe.
        if utf8::is_continuation_byte(b) {
            proof {
                lemma_char_start_bounds(s, k);
                if k < s.len() && char_start(s, k) == tail_pos {
                    lemma_char_bytes_in_string(s, k);
                }
            }
            tail_pos += 1;
            continue;
        }
        // Leading byte of a non-ASCII character.
        proof {
            lemma_lead_byte_is_char_start(s, k, tail_pos as int);
            lemma_char_position(s, k);
            lemma_scalar_bytes(s[k]);
        }
        let (ch, width) = utf8::decode_char_at(bytes, tail_pos);
        proof {
            vstd::utf8::char_u32_cast(ch, ch as u32);
            vstd::utf8::char_u32_cast(s[k], s[k] as u32);
            assert(ch == s[k]);
            assert(s.take(k + 1).drop_last() =~= s.take(k));
            assert(s.take(k + 1).last() == s[k]);
        }
        let (c, r) = check_char(ch, form, p, last_ccc, result);
        if r == IsNormalized::No {
            proof {
                lemma_no_is_final(form, *p, s, k + 1);
            }
            return IsNormalized::No;
        }
        last_ccc = c;
        result = r;
        tail_pos += width;
        proof {
            k = k + 1;
        }
    }
    proof {
        lemma_char_start_bounds(s, k);
    }
    result
}

/// The oracle quick check: the same scan with the U+00C0..U+00FF shortcut
/// switched off, so that every flagged byte goes through the decode and
/// lookup path. Used to cross-check the shortcut.
pub fn quick_check_impl_oracle(input: &str, form: Form, p: &QcParams, simd_bound: u8) -> (r:
    IsNormalized)
    requires
        0xC0 <= simd_bound <= 0xE0,
        (simd_bound - 0xC0) * 64 <= p.safe_below,
    ensures
        r == spec_quick_check_with(
            form,
            (QcParams {
                safe_below: p.safe_below,
                hangul_safe: p.hangul_safe,
                kana_safe: p.kana_safe,
                latin1_upper_safe: false,
            }),
            input@,
        ),
{
    let q = QcParams {
        safe_below: p.safe_below,
        hangul_safe: p.hangul_safe,
        kana_safe: p.kana_safe,
        latin1_upper_safe: false,
    };
    quick_check_impl(input, form, &q, simd_bound)
}

/// Quick-check whether `input` is in NFC.
pub fn quick_check_nfc(input: &str) -> (r: IsNormalized)
    ensures
        r == spec_quick_check(Form::Nfc, input@),
{
    let p = QcParams { safe_below: 0x0300, hangul_safe: true, kana_safe: true, latin1_upper_safe: true };
    quick_check_impl(input, Form::Nfc, &p, 0xCC)
}

/// Quick-check whether `input` is in NFD.
pub fn quick_check_nfd(input: &str) -> (r: IsNormalized)
    ensures
        r == spec_quick_check(Form::Nfd, input@),
{
    let p = QcParams {
        safe_below: 0x00C0,
        hangul_safe: false,
        kana_safe: false,
        latin1_upper_safe: false,
    };
    quick_check_impl(input, Form::Nfd, &p, 0xC3)
}

/// Quick-check whether `input` is in NFKC.
pub fn quick_check_nfkc(input: &str) -> (r: IsNormalized)
    ensures
        r == spec_quick_check(Form::Nfkc, input@),
{
    let p = QcParams { safe_below: 0x00A0, hangul_safe: true, kana_safe: true, latin1_upper_safe: true };
    quick_check_impl(input, Form::Nfkc, &p, 0xC0)
}

/// Quick-check whether `input` is in NFKD.
pub fn quick_check_nfkd(input: &str) -> (r: IsNormalized)
    ensures
        r == spec_quick_check(Form::Nfkd, input@),
{
    let p = QcParams {
        safe_below: 0x00A0,
        hangul_safe: false,
        kana_safe: false,
        latin1_upper_safe: false,
    };
    quick_check_impl(input, Form::Nfkd, &p, 0xC0)
}

/// Oracle NFC quick-check: the U+00C0..U+00FF range goes through the lookup path.
pub fn quick_check_nfc_oracle(input: &str) -> (r: IsNormalized)
    ensures
        r == spec_quick_check_oracle(Form::Nfc, input@),
{
    let p = QcParams { safe_below: 0x0300, hangul_safe: true, kana_safe: true, latin1_upper_safe: true };
    quick_check_impl_oracle(input, Form::Nfc, &p, 0xCC)
}

/// Oracle NFD quick-check: the U+00C0..U+00FF range goes through the lookup path.
pub fn quick_check_nfd_oracle(input: &str) -> (r: IsNormalized)
    ensures
        r == spec_quick_check_oracle(Form::Nfd, input@),
{
    let p = QcParams {
        safe_below: 0x00C0,
        hangul_safe: false,
        kana_safe: false,
        latin1_upper_safe: false,
    };
    quick_check_impl_oracle(input, Form::Nfd, &p, 0xC3)
}

/// Oracle NFKC quick-check: the U+00C0..U+00FF range goes through the lookup path.
pub fn quick_check_nfkc_oracle(input: &str) -> (r: IsNormalized)
    ensures
        r == spec_quick_check_oracle(Form::Nfkc, input@),
{
    let p = QcParams { safe_below: 0x00A0, hangul_safe: true, kana_safe: true, latin1_upper_safe: true };
    quick_check_impl_oracle(input, Form::Nfkc, &p, 0xC0)
}

/// Oracle NFKD quick-check: the U+00C0..U+00FF range goes through the lookup path.
pub fn quick_check_nfkd_oracle(input: &str) -> (r: IsNormalized)
    ensures
        r == spec_quick_check_oracle(Form::Nfkd, input@),
{
    let p = QcParams {
        safe_below: 0x00A0,
        hangul_safe: false,
        kana_safe: false,
        latin1_upper_safe: false,
    };
    quick_check_impl_oracle(input, Form::Nfkd, &p, 0xC0)
}

/// Definitive NFC check: the quick check's Yes and No are final; on Maybe
/// the input is normalized and compared.
pub fn is_normalized_nfc(input: &str) -> (r: bool)
    ensures
        r == spec_is_normalized(Form::Nfc, input@),
{
    match quick_check_nfc(input) {
        IsNormalized::Yes => true,
        IsNormalized::No => false,
        IsNormalized::Maybe => {
            let n = crate::nfc().normalize(input);
            match n {
                Cow::Borrowed(b) => str_eq(b, input),
                Cow::Owned(o) => str_eq(o.as_str(), input),
            }
        },
    }
}

/// Definitive NFD check: the quick check's Yes and No are final; on Maybe
/// the input is normalized and compared.
pub fn is_normalized_nfd(input: &str) -> (r: bool)
    ensures
        r == spec_is_normalized(Form::Nfd, input@),
{
    match quick_check_nfd(input) {
        IsNormalized::Yes => true,
        IsNormalized::No => false,
        IsNormalized::Maybe => {
            let n = crate::nfd().normalize(input);
            match n {
                Cow::Borrowed(b) => str_eq(b, input),
                Cow::Owned(o) => str_eq(o.as_str(), input),
            }
        },
    }
}

/// Definitive NFKC check: the quick check's Yes and No are final; on Maybe
/// the input is normalized and compared.
pub fn is_normalized_nfkc(input: &str) -> (r: bool)
    ensures
        r == spec_is_normalized(Form::Nfkc, input@),
{
    match quick_check_nfkc(input) {
        IsNormalized::Yes => true,
        IsNormalized::No => false,
        IsNormalized::Maybe => {
            let n = crate::nfkc().normalize(input);
            match n {
                Cow::Borrowed(b) => str_eq(b, input),
                Cow::Owned(o) => str_eq(o.as_str(), input),
            }
        },
    }
}

/// Definitive NFKD check: the quick check's Yes and No are final; on Maybe
/// the input is normalized and compared.
pub fn is_normalized_nfkd(input: &str) -> (r: bool)
    ensures
        r == spec_is_normalized(Form::Nfkd, input@),
{
    match quick_check_nfkd(input) {
        IsNormalized::Yes => true,
        IsNormalized::No => false,
        IsNormalized::Maybe => {
            let n = crate::nfkd().normalize(input);
            match n {
                Cow::Borrowed(b) => str_eq(b, input),
                Cow::Owned(o) => str_eq(o.as_str(), input),
            }
        },
    }
}

} // verus!
