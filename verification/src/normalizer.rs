//! Single-pass normalizer implementations (NFC, NFD, NFKC, NFKD).
//!
//! Each character is decomposed, its combining marks are collected behind the
//! current starter, and the accumulated run is flushed in canonical order,
//! with canonical composition for NFC/NFKC.

use vstd::prelude::*;
use vstd::utf8::encode_utf8;

use std::borrow::Cow;

use crate::ccc::{ccc_sorted, entry, lemma_sort_sorted_is_identity, sort_by_ccc, CccBuffer, CharAndCcc};
use crate::compose::{self, composed_sequence, spec_compose};
use crate::decompose::{
    self, decomposed_class, decomposition_entries, final_entry, fully_decomposes, is_decomposed_char,
    DecompForm,
};
use crate::hangul;
use crate::tables;
use crate::quick_check::{self, spec_quick_check, IsNormalized};
use crate::simd::{self, bit_set, lemma_clear_lowest_bit, lemma_zero_bits};
use crate::text::{push_str_range, str_eq, string_push, string_push_str, string_with_capacity};
use crate::utf8::{
    self, char_start, lemma_find_char, lemma_lead_byte_is_char_start, lemma_char_bytes_in_string, lemma_char_position, lemma_scalar_bytes,
    lemma_char_start_bounds,
};

verus! {

// ---------------------------------------------------------------------------
// Form enum
// ---------------------------------------------------------------------------

/// Unicode normalization form.
#[derive(Clone, Copy, Debug, PartialEq, Eq, Structural)]
pub enum Form {
    /// Canonical Decomposition, followed by Canonical Composition (NFC).
    Nfc,
    /// Canonical Decomposition (NFD).
    Nfd,
    /// Compatibility Decomposition, followed by Canonical Composition (NFKC).
    Nfkc,
    /// Compatibility Decomposition (NFKD).
    Nfkd,
}

impl Form {
    /// Whether the form recomposes after decomposing.
    pub open spec fn spec_composes(self) -> bool {
        self == Form::Nfc || self == Form::Nfkc
    }

    /// The decomposition mapping the form applies.
    pub open spec fn spec_decomp_form(self) -> DecompForm {
        match self {
            Form::Nfc | Form::Nfd => DecompForm::Canonical,
            Form::Nfkc | Form::Nfkd => DecompForm::Compatible,
        }
    }

    /// The passthrough byte bound for this form.
    ///
    /// Any byte below this value is either ASCII or a continuation byte; the
    /// first byte of U+00C0 (the first precomposed Latin letter) is 0xC3.
    pub fn passthrough_bound(self) -> (r: u8)
        ensures
            r == 0xC0,
    {
        match self {
            Form::Nfc | Form::Nfkc => 0xC0,
            Form::Nfd | Form::Nfkd => 0xC0,
        }
    }

    /// Whether this form applies canonical composition after decomposition.
    pub fn composes(self) -> (r: bool)
        ensures
            r == self.spec_composes(),
    {
        matches!(self, Form::Nfc | Form::Nfkc)
    }

    /// Which decomposition form to use.
    pub fn decomp_form(self) -> (r: DecompForm)
        ensures
            r == self.spec_decomp_form(),
    {
        match self {
            Form::Nfc | Form::Nfd => DecompForm::Canonical,
            Form::Nfkc | Form::Nfkd => DecompForm::Compatible,
        }
    }

    /// Estimated output capacity for a given input length: the input length
    /// for the composing forms, one and a half times it for the others.
    pub fn estimated_capacity(self, input_len: usize) -> (r: usize)
        requires
            self.spec_composes() || input_len + input_len / 2 <= usize::MAX,
        ensures
            r == (if self.spec_composes() {
                input_len as int
            } else {
                input_len + input_len / 2
            }),
    {
        match self {
            Form::Nfc | Form::Nfkc => input_len,
            Form::Nfd | Form::Nfkd => input_len + input_len / 2,
        }
    }

    /// Run quick_check for this normalization form.
    pub fn quick_check(self, input: &str) -> (r: IsNormalized)
        ensures
            r == spec_quick_check(self, input@),
    {
        match self {
            Form::Nfc => quick_check::quick_check_nfc(input),
            Form::Nfd => quick_check::quick_check_nfd(input),
            Form::Nfkc => quick_check::quick_check_nfkc(input),
            Form::Nfkd => quick_check::quick_check_nfkd(input),
        }
    }
}

// ---------------------------------------------------------------------------
// The model of the pipeline
// ---------------------------------------------------------------------------

/// The characters of a sequence of entries.
pub open spec fn entry_chars(s: Seq<CharAndCcc>) -> Seq<char> {
    Seq::new(s.len(), |i: int| s[i].ch)
}

/// What flushing a starter and its (unsorted) combining marks emits: the
/// marks in canonical order behind the starter, composed when `composes`.
pub open spec fn flush_output(starter: Option<char>, marks: Seq<CharAndCcc>, composes: bool) -> Seq<
    char,
> {
    match starter {
        None => entry_chars(sort_by_ccc(marks)),
        Some(s) => if marks.len() == 0 {
            seq![s]
        } else if composes {
            composed_sequence(s, sort_by_ccc(marks))
        } else {
            seq![s] + entry_chars(sort_by_ccc(marks))
        },
    }
}

/// One entry fed to the accumulation state: the new starter, the new marks
/// and what was emitted.
///
/// A starter first tries to compose with the previous starter (composing
/// forms, no marks in between); otherwise it flushes the run and starts a
/// new one. A combining mark is buffered.
pub open spec fn feed_step(
    starter: Option<char>,
    marks: Seq<CharAndCcc>,
    e: CharAndCcc,
    composes: bool,
) -> (Option<char>, Seq<CharAndCcc>, Seq<char>) {
    if e.ccc == 0 {
        if composes && marks.len() == 0 && starter is Some && spec_compose(starter->0, e.ch) is Some {
            (Some(spec_compose(starter->0, e.ch)->0), marks, Seq::empty())
        } else {
            (Some(e.ch), Seq::empty(), flush_output(starter, marks, composes))
        }
    } else {
        (starter, marks.push(e), Seq::empty())
    }
}

/// Feed a sequence of entries, left to right.
pub open spec fn feed_entries(
    starter: Option<char>,
    marks: Seq<CharAndCcc>,
    es: Seq<CharAndCcc>,
    composes: bool,
) -> (Option<char>, Seq<CharAndCcc>, Seq<char>)
    decreases es.len(),
{
    if es.len() == 0 {
        (starter, marks, Seq::empty())
    } else {
        let prev = feed_entries(starter, marks, es.drop_last(), composes);
        let step = feed_step(prev.0, prev.1, es.last(), composes);
        (step.0, step.1, prev.2 + step.2)
    }
}

/// One input character through the pipeline: CJK unified ideographs start a
/// new run directly; every other character is decomposed and its entries fed.
pub open spec fn process_char_spec(
    starter: Option<char>,
    marks: Seq<CharAndCcc>,
    ch: char,
    form: Form,
) -> (Option<char>, Seq<CharAndCcc>, Seq<char>) {
    if ch as u32 >= 0x3400 && quick_check::spec_is_cjk_unified(ch as u32) {
        (Some(ch), Seq::empty(), flush_output(starter, marks, form.spec_composes()))
    } else {
        feed_entries(
            starter,
            marks,
            decomposition_entries(ch, form.spec_decomp_form()),
            form.spec_composes(),
        )
    }
}

/// The state and output after the characters of `s`.
pub open spec fn run_chars(form: Form, s: Seq<char>) -> (Option<char>, Seq<CharAndCcc>, Seq<char>)
    decreases s.len(),
{
    if s.len() == 0 {
        (None, Seq::empty(), Seq::empty())
    } else {
        let prev = run_chars(form, s.drop_last());
        let step = process_char_spec(prev.0, prev.1, s.last(), form);
        (step.0, step.1, prev.2 + step.2)
    }
}

/// The pipeline's output for `s`: every character processed, then the last
/// run flushed.
pub open spec fn spec_normalize(form: Form, s: Seq<char>) -> Seq<char> {
    let r = run_chars(form, s);
    r.2 + flush_output(r.0, r.1, form.spec_composes())
}

/// What normalizing `s` to `form` gives: `s` itself when it is empty or the
/// quick check answers Yes, the pipeline's output otherwise.
pub open spec fn normalized(form: Form, s: Seq<char>) -> Seq<char> {
    if s.len() == 0 || spec_quick_check(form, s) == IsNormalized::Yes {
        s
    } else {
        spec_normalize(form, s)
    }
}

/// The definitive check: Yes and No from the quick check are final; on Maybe
/// the string is normalized and compared.
pub open spec fn spec_is_normalized(form: Form, s: Seq<char>) -> bool {
    match spec_quick_check(form, s) {
        IsNormalized::Yes => true,
        IsNormalized::No => false,
        IsNormalized::Maybe => normalized(form, s) == s,
    }
}

/// Characters the chunk loop copies through without running them through the
/// accumulation state: ASCII, and, for the decomposition-only forms, any
/// character that decomposes to itself as a starter.
pub open spec fn passable(c: char, form: Form) -> bool {
    (c as u32) < 0x80 || (!form.spec_composes() && decomposition_entries(c, form.spec_decomp_form())
        == seq![entry(c, 0)])
}

/// A passable character flushes the current run and becomes the new starter.
pub proof fn lemma_passable_step(starter: Option<char>, marks: Seq<CharAndCcc>, c: char, form: Form)
    requires
        passable(c, form),
    ensures
        process_char_spec(starter, marks, c, form) == (
            Some(c),
            Seq::<CharAndCcc>::empty(),
            flush_output(starter, marks, form.spec_composes()),
        ),
{
    let es = decomposition_entries(c, form.spec_decomp_form());
    if !(c as u32 >= 0x3400 && quick_check::spec_is_cjk_unified(c as u32)) {
        assert(es == seq![entry(c, 0)]);
        assert(es.drop_last() =~= Seq::<CharAndCcc>::empty());
        assert(es.last() == entry(c, 0));
        assert(feed_entries(starter, marks, es.drop_last(), form.spec_composes()) == (
            starter,
            marks,
            Seq::<char>::empty(),
        ));
        let fl = flush_output(starter, marks, form.spec_composes());
        assert(Seq::<char>::empty() + fl =~= fl);
    }
}

/// Running a stretch of passable characters `s[k..k2]`: the run before it is
/// flushed, every character of the stretch but the last is emitted, and the
/// last becomes the starter.
pub proof fn lemma_pass_segment(form: Form, s: Seq<char>, k: int, k2: int)
    requires
        0 <= k < k2 <= s.len(),
        forall|j: int| k <= j < k2 ==> passable(#[trigger] s[j], form),
    ensures
        run_chars(form, s.take(k2)) == (
            Some(s[k2 - 1]),
            Seq::<CharAndCcc>::empty(),
            run_chars(form, s.take(k)).2 + flush_output(
                run_chars(form, s.take(k)).0,
                run_chars(form, s.take(k)).1,
                form.spec_composes(),
            ) + s.subrange(k, k2 - 1),
        ),
    decreases k2 - k,
{
    let r = run_chars(form, s.take(k));
    let fl = flush_output(r.0, r.1, form.spec_composes());
    assert(s.take(k2).drop_last() =~= s.take(k2 - 1));
    assert(s.take(k2).last() == s[k2 - 1]);
    if k2 == k + 1 {
        lemma_passable_step(r.0, r.1, s[k], form);
        assert(r.2 + fl + s.subrange(k, k) =~= r.2 + fl);
    } else {
        lemma_pass_segment(form, s, k, k2 - 1);
        lemma_passable_step(Some(s[k2 - 2]), Seq::<CharAndCcc>::empty(), s[k2 - 1], form);
        assert(flush_output(Some(s[k2 - 2]), Seq::<CharAndCcc>::empty(), form.spec_composes())
            =~= seq![s[k2 - 2]]);
        assert(r.2 + fl + s.subrange(k, k2 - 2) + seq![s[k2 - 2]] =~= r.2 + fl + s.subrange(
            k,
            k2 - 1,
        ));
    }
}

/// In the decomposition-only forms, a run whose starter was already emitted
/// flushes to the same characters minus that starter.
pub proof fn lemma_flush_without_starter(x: char, marks: Seq<CharAndCcc>)
    ensures
        flush_output(Some(x), marks, false) == seq![x] + flush_output(None, marks, false),
{
    if marks.len() == 0 {
        assert(sort_by_ccc(marks) =~= marks);
        assert(entry_chars(marks) =~= Seq::<char>::empty());
        assert(seq![x] + Seq::<char>::empty() =~= seq![x]);
    }
}

/// In the decomposition-only forms, feeding entries to a state whose
/// starter was already emitted gives the same marks and the same
/// characters minus that starter (or, with no new starter, the same
/// output and the starter still pending).
pub proof fn lemma_feed_without_starter(x: char, marks: Seq<CharAndCcc>, es: Seq<CharAndCcc>)
    ensures
        ({
            let a = feed_entries(Some(x), marks, es, false);
            let b = feed_entries(None, marks, es, false);
            &&& a.1 == b.1
            &&& (a.0 == b.0 && a.2 == seq![x] + b.2) || (a.0 == Some(x) && b.0 is None && a.2
                == Seq::<char>::empty() && b.2 == Seq::<char>::empty())
        }),
    decreases es.len(),
{
    if es.len() > 0 {
        lemma_feed_without_starter(x, marks, es.drop_last());
        let pa = feed_entries(Some(x), marks, es.drop_last(), false);
        let pb = feed_entries(None, marks, es.drop_last(), false);
        let e = es.last();
        if pa.0 == pb.0 {
            assert(seq![x] + pb.2 + feed_step(pb.0, pb.1, e, false).2 =~= seq![x] + (pb.2
                + feed_step(pb.0, pb.1, e, false).2));
        } else if e.ccc == 0 {
            lemma_flush_without_starter(x, pa.1);
            assert(pa.2 + flush_output(Some(x), pa.1, false) =~= seq![x] + (pb.2 + flush_output(
                None,
                pb.1,
                false,
            )));
        } else {
            assert(pa.2 + Seq::<char>::empty() =~= Seq::<char>::empty());
        }
    }
}

/// The state of the chunk loop matches the model after `k` characters: the
/// same marks, and either the same starter and output, or (decomposition-only
/// forms) the model's starter already emitted to the output.
pub open spec fn state_matches(
    form: Form,
    s: Seq<char>,
    out0: Seq<char>,
    k: int,
    starter: Option<char>,
    marks: Seq<CharAndCcc>,
    out: Seq<char>,
) -> bool {
    let r = run_chars(form, s.take(k));
    &&& marks == r.1
    &&& ((starter == r.0 && out == out0 + r.2) || (!form.spec_composes() && starter is None && r.0
        is Some && out == out0 + r.2.push(r.0->0)))
}

/// Processing one character keeps the match between the loop's state and
/// the model (decomposition-only forms, starter already emitted).
pub proof fn lemma_process_without_starter(x: char, marks: Seq<CharAndCcc>, c: char, form: Form)
    requires
        !form.spec_composes(),
    ensures
        ({
            let a = process_char_spec(Some(x), marks, c, form);
            let b = process_char_spec(None, marks, c, form);
            &&& a.1 == b.1
            &&& (a.0 == b.0 && a.2 == seq![x] + b.2) || (a.0 == Some(x) && b.0 is None && a.2
                == Seq::<char>::empty() && b.2 == Seq::<char>::empty())
        }),
{
    if c as u32 >= 0x3400 && quick_check::spec_is_cjk_unified(c as u32) {
        lemma_flush_without_starter(x, marks);
    } else {
        lemma_feed_without_starter(x, marks, decomposition_entries(c, form.spec_decomp_form()));
    }
}

/// Every entry of `m` is a combining mark (class above 0).
pub open spec fn all_marks(m: Seq<CharAndCcc>) -> bool {
    forall|i: int| 0 <= i < m.len() ==> (#[trigger] m[i]).ccc > 0
}

/// Feeding entries keeps the buffer to combining marks only.
pub proof fn lemma_feed_keeps_marks(
    starter: Option<char>,
    marks: Seq<CharAndCcc>,
    es: Seq<CharAndCcc>,
    composes: bool,
)
    requires
        all_marks(marks),
    ensures
        all_marks(feed_entries(starter, marks, es, composes).1),
    decreases es.len(),
{
    if es.len() > 0 {
        lemma_feed_keeps_marks(starter, marks, es.drop_last(), composes);
        let prev = feed_entries(starter, marks, es.drop_last(), composes);
        let e = es.last();
        if e.ccc != 0 {
            assert forall|i: int| 0 <= i < prev.1.push(e).len() implies (#[trigger] prev.1.push(
                e,
            )[i]).ccc > 0 by {
                if i < prev.1.len() {
                    assert(prev.1.push(e)[i] == prev.1[i]);
                }
            }
        }
    }
}

/// Whatever the input, the pipeline's buffer behind the current starter only
/// ever holds combining marks (class above 0): starters are never reordered.
pub proof fn lemma_buffer_holds_only_marks(form: Form, s: Seq<char>)
    ensures
        all_marks(run_chars(form, s).1),
    decreases s.len(),
{
    if s.len() > 0 {
        lemma_buffer_holds_only_marks(form, s.drop_last());
        let prev = run_chars(form, s.drop_last());
        let ch = s.last();
        if !(ch as u32 >= 0x3400 && quick_check::spec_is_cjk_unified(ch as u32)) {
            lemma_feed_keeps_marks(
                prev.0,
                prev.1,
                decomposition_entries(ch, form.spec_decomp_form()),
                form.spec_composes(),
            );
        }
    }
}

/// Every character of `s` has a complete decomposition.
pub proof fn lemma_all_fully_decompose(s: Seq<char>, df: DecompForm)
    ensures
        forall|i: int| 0 <= i < s.len() ==> #[trigger] fully_decomposes(s[i], df),
{
    assert forall|i: int| 0 <= i < s.len() implies #[trigger] fully_decomposes(s[i], df) by {
        decompose::lemma_fully_decomposes(s[i], df);
    }
}

/// The definitive check agrees with normalization: a string the check
/// accepts is left unchanged by normalization, and, unless the quick check
/// answers No, a string that normalization leaves unchanged is accepted.
pub proof fn lemma_is_normalized_iff_unchanged(form: Form, s: Seq<char>)
    ensures
        spec_is_normalized(form, s) ==> normalized(form, s) == s,
        spec_quick_check(form, s) != IsNormalized::No ==> (spec_is_normalized(form, s) <==> normalized(
            form,
            s,
        ) == s),
{
}

/// The empty string is in every normalization form.
pub proof fn lemma_empty_is_normalized(form: Form)
    ensures
        spec_quick_check(form, Seq::<char>::empty()) == IsNormalized::Yes,
        normalized(form, Seq::<char>::empty()) == Seq::<char>::empty(),
        spec_is_normalized(form, Seq::<char>::empty()),
{
    reveal_with_fuel(quick_check::qc_state, 1);
}

/// A string made only of ASCII and of characters in the ranges the quick
/// check of `form` knows to be safe is reported Yes, is left unchanged by
/// normalization, and is accepted by the definitive check. In particular
/// every ASCII string is in every normalization form.
pub proof fn lemma_range_safe_strings_are_normalized(form: Form, s: Seq<char>)
    requires
        quick_check::all_range_safe(s, quick_check::qc_params(form)),
    ensures
        spec_quick_check(form, s) == IsNormalized::Yes,
        normalized(form, s) == s,
        spec_is_normalized(form, s),
{
    quick_check::lemma_all_safe_is_yes(form, quick_check::qc_params(form), s);
}

// ---------------------------------------------------------------------------
// The decomposed normal form
// ---------------------------------------------------------------------------

/// The character at `i > 0` is a starter or has a class no lower than the
/// character before it.
pub open spec fn ordered_at(t: Seq<char>, i: int, df: DecompForm) -> bool {
    decomposed_class(t[i], df) == 0 || decomposed_class(t[i - 1], df) <= decomposed_class(t[i], df)
}

/// `t` is in the decomposed normal form of `df` (NFD for canonical, NFKD
/// for compatibility decomposition): every character decomposes to itself,
/// and no combining mark follows a mark of a higher class.
pub open spec fn in_decomposed_form(t: Seq<char>, df: DecompForm) -> bool {
    &&& forall|i: int| 0 <= i < t.len() ==> #[trigger] is_decomposed_char(t[i], df)
    &&& forall|i: int| 0 < i < t.len() ==> #[trigger] ordered_at(t, i, df)
}

/// Processing a character that decomposes to itself is one feed step with
/// its own entry (decomposition-only forms).
proof fn lemma_process_decomposed_char(
    starter: Option<char>,
    marks: Seq<CharAndCcc>,
    c: char,
    form: Form,
)
    requires
        !form.spec_composes(),
        is_decomposed_char(c, form.spec_decomp_form()),
    ensures
        process_char_spec(starter, marks, c, form) == feed_step(
            starter,
            marks,
            entry(c, decomposed_class(c, form.spec_decomp_form())),
            false,
        ),
{
    let df = form.spec_decomp_form();
    let es = decomposition_entries(c, df);
    assert(es =~= seq![entry(c, decomposed_class(c, df))]);
    if c as u32 >= 0x3400 && quick_check::spec_is_cjk_unified(c as u32) {
        assert(decomposed_class(c, df) == 0);
    } else {
        lemma_feed_one(starter, marks, entry(c, decomposed_class(c, df)), false);
    }
}

/// The characters of a sequence of entries, one entry more.
proof fn lemma_entry_chars_push(m: Seq<CharAndCcc>, e: CharAndCcc)
    ensures
        entry_chars(m.push(e)) == entry_chars(m).push(e.ch),
{
    assert(entry_chars(m.push(e)) =~= entry_chars(m).push(e.ch));
}

/// Running the pipeline over a prefix of a string in decomposed form: what
/// was emitted and what a flush would emit together give the prefix back,
/// and the pending marks are in class order, the last one being the
/// prefix's last character.
proof fn lemma_run_decomposed_prefix(form: Form, t: Seq<char>, k: int)
    requires
        !form.spec_composes(),
        in_decomposed_form(t, form.spec_decomp_form()),
        0 <= k <= t.len(),
    ensures
        ({
            let df = form.spec_decomp_form();
            let r = run_chars(form, t.take(k));
            &&& r.2 + flush_output(r.0, r.1, false) == t.take(k)
            &&& ccc_sorted(r.1)
            &&& r.1.len() > 0 ==> k > 0 && r.1.last().ccc == decomposed_class(t[k - 1], df)
        }),
    decreases k,
{
    let df = form.spec_decomp_form();
    if k == 0 {
        assert(t.take(0) =~= Seq::<char>::empty());
        assert(entry_chars(sort_by_ccc(Seq::<CharAndCcc>::empty())) =~= Seq::<char>::empty());
        assert(Seq::<char>::empty() + Seq::<char>::empty() =~= t.take(0));
    } else {
        lemma_run_decomposed_prefix(form, t, k - 1);
        let p = run_chars(form, t.take(k - 1));
        let c = t[k - 1];
        assert(t.take(k).drop_last() =~= t.take(k - 1));
        assert(t.take(k).last() == c);
        assert(is_decomposed_char(c, df));
        let cl = decomposed_class(c, df);
        lemma_process_decomposed_char(p.0, p.1, c, form);
        let e = entry(c, cl);
        let r = run_chars(form, t.take(k));
        assert(t.take(k) =~= t.take(k - 1).push(c));
        if cl == 0 {
            assert(r == (Some(c), Seq::<CharAndCcc>::empty(), p.2 + flush_output(p.0, p.1, false)));
            assert(flush_output(Some(c), Seq::<CharAndCcc>::empty(), false) == seq![c]);
            assert(r.2 + flush_output(r.0, r.1, false) =~= t.take(k));
        } else {
            assert(r == (p.0, p.1.push(e), p.2 + Seq::<char>::empty()));
            assert(p.2 + Seq::<char>::empty() =~= p.2);
            if p.1.len() > 0 {
                assert(ordered_at(t, k - 1, df));
            }
            let m = p.1.push(e);
            assert(ccc_sorted(m)) by {
                assert forall|i: int, j: int| 0 <= i <= j < m.len() implies m[i].ccc <= m[j].ccc by {
                    if j == m.len() - 1 && i < j {
                        assert(m[i] == p.1[i]);
                        assert(p.1[i].ccc <= p.1.last().ccc);
                    }
                }
            }
            lemma_sort_sorted_is_identity(p.1);
            lemma_sort_sorted_is_identity(m);
            lemma_entry_chars_push(p.1, e);
            match p.0 {
                Some(x) => {
                    if p.1.len() == 0 {
                        assert(entry_chars(Seq::<CharAndCcc>::empty()) =~= Seq::<char>::empty());
                        assert(Seq::<CharAndCcc>::empty().push(e) =~= seq![e]);
                        assert(entry_chars(seq![e]) =~= seq![c]);
                        assert(flush_output(p.0, p.1, false) == seq![x]);
                        assert(flush_output(r.0, r.1, false) =~= seq![x, c]);
                    } else {
                        assert(flush_output(r.0, r.1, false) =~= flush_output(p.0, p.1, false).push(c));
                    }
                },
                None => {
                    assert(flush_output(r.0, r.1, false) =~= flush_output(p.0, p.1, false).push(c));
                },
            }
            assert(r.2 + flush_output(r.0, r.1, false) =~= (p.2 + flush_output(p.0, p.1, false)).push(c));
        }
    }
}

/// A string already in the decomposed normal form of a decomposition-only
/// form is its own normalization: the pipeline gives it back, and so does
/// normalizing it.
pub proof fn lemma_decomposed_form_is_fixed_point(form: Form, t: Seq<char>)
    requires
        !form.spec_composes(),
        in_decomposed_form(t, form.spec_decomp_form()),
    ensures
        spec_normalize(form, t) == t,
        normalized(form, t) == t,
{
    lemma_run_decomposed_prefix(form, t, t.len() as int);
    assert(t.take(t.len() as int) =~= t);
}

/// What the decomposition-only pipeline holds after a prefix: an output in
/// decomposed form, a final starter (only once something was emitted, or
/// none at all), and final combining marks.
pub open spec fn decomposed_state(
    out: Seq<char>,
    starter: Option<char>,
    marks: Seq<CharAndCcc>,
    df: DecompForm,
) -> bool {
    &&& in_decomposed_form(out, df)
    &&& starter is None ==> out.len() == 0
    &&& starter matches Some(x) ==> final_entry(entry(x, 0), df)
    &&& forall|i: int| 0 <= i < marks.len() ==> (#[trigger] marks[i]).ccc > 0 && final_entry(marks[i], df)
}

/// Two strings in decomposed form joined where the second starts with a
/// starter or a class no lower than the first one's last: the result is in
/// decomposed form.
proof fn lemma_concat_decomposed(a: Seq<char>, b: Seq<char>, df: DecompForm)
    requires
        in_decomposed_form(a, df),
        in_decomposed_form(b, df),
        a.len() == 0 || b.len() == 0 || decomposed_class(b[0], df) == 0 || decomposed_class(
            a.last(),
            df,
        ) <= decomposed_class(b[0], df),
    ensures
        in_decomposed_form(a + b, df),
{
    let ab = a + b;
    assert forall|i: int| 0 <= i < ab.len() implies #[trigger] is_decomposed_char(ab[i], df) by {
        if i < a.len() {
            assert(is_decomposed_char(a[i], df));
        } else {
            assert(is_decomposed_char(b[i - a.len()], df));
        }
    }
    assert forall|i: int| 0 < i < ab.len() implies #[trigger] ordered_at(ab, i, df) by {
        if i < a.len() {
            assert(ordered_at(a, i, df));
        } else if i > a.len() {
            assert(ordered_at(b, i - a.len(), df));
        }
    }
}

/// Flushing a pipeline state in decomposed form keeps the output in
/// decomposed form.
proof fn lemma_flush_decomposed(
    out: Seq<char>,
    starter: Option<char>,
    marks: Seq<CharAndCcc>,
    df: DecompForm,
)
    requires
        decomposed_state(out, starter, marks, df),
    ensures
        in_decomposed_form(out + flush_output(starter, marks, false), df),
{
    broadcast use vstd::seq_lib::group_to_multiset_ensures;

    let srt = sort_by_ccc(marks);
    crate::ccc::lemma_sort_by_ccc_is_stable_sort(marks);
    assert forall|i: int| 0 <= i < srt.len() implies (#[trigger] srt[i]).ccc > 0 && final_entry(
        srt[i],
        df,
    ) by {
        assert(srt.to_multiset().count(srt[i]) > 0);
        assert(marks.to_multiset().count(srt[i]) > 0);
        assert(marks.contains(srt[i]));
        let j = choose|j: int| 0 <= j < marks.len() && marks[j] == srt[i];
        assert(marks[j].ccc > 0 && final_entry(marks[j], df));
    }
    let chs = entry_chars(srt);
    assert(in_decomposed_form(chs, df)) by {
        assert forall|i: int| 0 <= i < chs.len() implies #[trigger] is_decomposed_char(chs[i], df) by {
            assert(final_entry(srt[i], df));
        }
        assert forall|i: int| 0 < i < chs.len() implies #[trigger] ordered_at(chs, i, df) by {
            assert(final_entry(srt[i], df));
            assert(final_entry(srt[i - 1], df));
        }
    }
    match starter {
        Some(x) => {
            assert(final_entry(entry(x, 0), df));
            let sx = seq![x];
            assert(in_decomposed_form(sx, df)) by {
                assert forall|i: int| 0 <= i < sx.len() implies #[trigger] is_decomposed_char(
                    sx[i],
                    df,
                ) by {}
            }
            if marks.len() == 0 {
                lemma_concat_decomposed(out, sx, df);
            } else {
                assert(final_entry(srt[0], df));
                lemma_concat_decomposed(sx, chs, df);
                lemma_concat_decomposed(out, sx + chs, df);
            }
        },
        None => {
            assert(out + chs =~= chs);
        },
    }
}

/// Feeding final entries to a decomposition-only pipeline state in
/// decomposed form keeps it in decomposed form.
proof fn lemma_feed_decomposed(
    out: Seq<char>,
    starter: Option<char>,
    marks: Seq<CharAndCcc>,
    es: Seq<CharAndCcc>,
    df: DecompForm,
)
    requires
        decomposed_state(out, starter, marks, df),
        forall|j: int| 0 <= j < es.len() ==> #[trigger] final_entry(es[j], df),
    ensures
        ({
            let r = feed_entries(starter, marks, es, false);
            decomposed_state(out + r.2, r.0, r.1, df)
        }),
    decreases es.len(),
{
    if es.len() == 0 {
        assert(out + Seq::<char>::empty() =~= out);
    } else {
        let d = es.drop_last();
        assert forall|j: int| 0 <= j < d.len() implies #[trigger] final_entry(d[j], df) by {
            assert(final_entry(es[j], df));
        }
        lemma_feed_decomposed(out, starter, marks, d, df);
        let p = feed_entries(starter, marks, d, false);
        let e = es.last();
        assert(final_entry(es[es.len() - 1], df));
        let o = out + p.2;
        if e.ccc == 0 {
            lemma_flush_decomposed(o, p.0, p.1, df);
            assert(out + (p.2 + flush_output(p.0, p.1, false)) =~= o + flush_output(p.0, p.1, false));
            assert(entry(e.ch, 0) == e);
            if p.0 is None {
                assert(flush_output(p.0, p.1, false).len() == p.1.len()) by {
                    crate::ccc::lemma_sort_by_ccc_is_stable_sort(p.1);
                }
            }
        } else {
            assert(out + (p.2 + Seq::<char>::empty()) =~= o);
            let m = p.1.push(e);
            assert forall|i: int| 0 <= i < m.len() implies (#[trigger] m[i]).ccc > 0 && final_entry(
                m[i],
                df,
            ) by {
                if i < p.1.len() {
                    assert(m[i] == p.1[i]);
                }
            }
        }
    }
}

/// The decomposition-only pipeline's output is in decomposed normal form.
pub proof fn lemma_pipeline_output_is_decomposed(form: Form, s: Seq<char>)
    requires
        !form.spec_composes(),
    ensures
        in_decomposed_form(spec_normalize(form, s), form.spec_decomp_form()),
{
    lemma_all_fully_decompose(s, form.spec_decomp_form());
    let df = form.spec_decomp_form();
    lemma_run_decomposed_state(form, s, s.len() as int);
    assert(s.take(s.len() as int) =~= s);
    let r = run_chars(form, s);
    lemma_flush_decomposed(r.2, r.0, r.1, df);
}

/// The pipeline state after each prefix is in decomposed form.
proof fn lemma_run_decomposed_state(form: Form, s: Seq<char>, k: int)
    requires
        !form.spec_composes(),
        0 <= k <= s.len(),
    ensures
        ({
            let r = run_chars(form, s.take(k));
            decomposed_state(r.2, r.0, r.1, form.spec_decomp_form())
        }),
    decreases k,
{
    lemma_all_fully_decompose(s, form.spec_decomp_form());
    let df = form.spec_decomp_form();
    if k == 0 {
        assert(s.take(0) =~= Seq::<char>::empty());
        let e = Seq::<char>::empty();
        assert(in_decomposed_form(e, df));
    } else {
        lemma_run_decomposed_state(form, s, k - 1);
        let p = run_chars(form, s.take(k - 1));
        let c = s[k - 1];
        assert(s.take(k).drop_last() =~= s.take(k - 1));
        assert(s.take(k).last() == c);
        assert(fully_decomposes(c, df));
        if c as u32 >= 0x3400 && quick_check::spec_is_cjk_unified(c as u32) {
            let es = seq![entry(c, 0)];
            assert(decomposition_entries(c, df) == es);
            assert(final_entry(es[0], df));
            assert forall|j: int| 0 <= j < es.len() implies #[trigger] final_entry(es[j], df) by {}
            lemma_feed_one(p.0, p.1, entry(c, 0), false);
            lemma_feed_decomposed(p.2, p.0, p.1, es, df);
        } else {
            let es = decomposition_entries(c, df);
            lemma_feed_decomposed(p.2, p.0, p.1, es, df);
        }
    }
}

/// Normalizing to a decomposition-only form (NFD, NFKD) is idempotent: the
/// output is in decomposed normal form and normalizing it again gives it
/// back.
pub proof fn lemma_decomposition_only_normalization_is_idempotent(form: Form, s: Seq<char>)
    requires
        !form.spec_composes(),
    ensures
        in_decomposed_form(spec_normalize(form, s), form.spec_decomp_form()),
        spec_normalize(form, spec_normalize(form, s)) == spec_normalize(form, s),
        normalized(form, normalized(form, s)) == normalized(form, s),
{
    lemma_all_fully_decompose(s, form.spec_decomp_form());
    lemma_pipeline_output_is_decomposed(form, s);
    lemma_decomposed_form_is_fixed_point(form, spec_normalize(form, s));
}

/// The class the quick check carries after the first `k` characters of `s`:
/// that of the last one, or 0 when it was accepted by range (or there is
/// none).
pub open spec fn qc_last_class(form: Form, s: Seq<char>, k: int) -> u8 {
    if k == 0 || (s[k - 1] as u32) <= 0x7F || quick_check::spec_is_safe(
        s[k - 1] as u32,
        quick_check::qc_params(form),
    ) {
        0
    } else {
        crate::tables::canonical_combining_class_of(s[k - 1])
    }
}

/// A character that decomposes to itself carries its own class, and is no
/// quick-check No.
proof fn lemma_decomposed_char_accepted(form: Form, c: char)
    requires
        is_decomposed_char(c, form.spec_decomp_form()),
    ensures
        decomposed_class(c, form.spec_decomp_form()) == crate::tables::canonical_combining_class_of(c),
        quick_check::spec_qc_of_char(form, c) < 2,
{
    lemma_decomposed_char_class(c, form.spec_decomp_form());
}

/// A character that decomposes to itself carries its own combining class.
pub proof fn lemma_decomposed_char_class(c: char, df: DecompForm)
    requires
        is_decomposed_char(c, df),
    ensures
        decomposed_class(c, df) == crate::tables::canonical_combining_class_of(c),
{
    if hangul::spec_is_hangul_syllable(c) {
        assert(hangul::hangul_decomposition(c).len() >= 2);
        assert(decomposition_entries(c, df).len() >= 2);
    } else if !decompose::spec_maps_to_itself(c as u32) {
        let d = crate::tables::decomposition_of(c, df);
        assert(decomposition_entries(c, df) == decompose::with_classes(d));
        assert(d.len() == 1);
        assert(d =~= seq![c]);
    }
}

/// On a string in decomposed form, the quick check of a decomposition-only
/// form never reaches No, and tracks the class of the last character.
proof fn lemma_quick_check_on_decomposed(form: Form, s: Seq<char>, k: int)
    requires
        !form.spec_composes(),
        in_decomposed_form(s, form.spec_decomp_form()),
        0 <= k <= s.len(),
    ensures
        quick_check::qc_state(form, quick_check::qc_params(form), s.take(k)).1 != IsNormalized::No,
        quick_check::qc_state(form, quick_check::qc_params(form), s.take(k)).0 == qc_last_class(
            form,
            s,
            k,
        ),
    decreases k,
{
    let p = quick_check::qc_params(form);
    let df = form.spec_decomp_form();
    if k == 0 {
        assert(s.take(0) =~= Seq::<char>::empty());
    } else {
        lemma_quick_check_on_decomposed(form, s, k - 1);
        assert(s.take(k).drop_last() =~= s.take(k - 1));
        assert(s.take(k).last() == s[k - 1]);
        let c = s[k - 1];
        let cp = c as u32;
        let prev = quick_check::qc_state(form, p, s.take(k - 1));
        let st = quick_check::qc_state(form, p, s.take(k));
        assert(st == quick_check::qc_char_step(form, p, prev.0, prev.1, c));
        if !(cp <= 0x7F || quick_check::spec_is_safe(cp, p)) {
            assert(is_decomposed_char(c, df));
            lemma_decomposed_char_accepted(form, c);
            let ccc = crate::tables::canonical_combining_class_of(c);
            let v = quick_check::spec_qc_of_char(form, c);
            assert(v < 2);
            if k >= 2 {
                let b = s[k - 2];
                if !((b as u32) <= 0x7F || quick_check::spec_is_safe(b as u32, p)) {
                    assert(is_decomposed_char(b, df));
                    lemma_decomposed_char_accepted(form, b);
                    assert(ordered_at(s, k - 1, df));
                    assert(prev.0 == crate::tables::canonical_combining_class_of(b));
                }
            }
            assert(!(ccc != 0 && prev.0 > ccc));
        }
    }
}

/// A code point the quick check of a decomposition-only form accepts by
/// range decomposes to itself with class 0.
proof fn lemma_range_safe_is_decomposed(form: Form, c: char)
    requires
        !form.spec_composes(),
        (c as u32) <= 0x7F || quick_check::spec_is_safe(c as u32, quick_check::qc_params(form)),
    ensures
        is_decomposed_char(c, form.spec_decomp_form()),
        decomposed_class(c, form.spec_decomp_form()) == 0,
{
    let df = form.spec_decomp_form();
    if !decompose::spec_maps_to_itself(c as u32) {
        assert(form == Form::Nfd);
        let d = crate::tables::decomposition_of(c, df);
        assert(d =~= seq![c]);
        assert(decomposition_entries(c, df) == decompose::with_classes(d));
    }
}

/// On a decomposition-only form, a prefix the quick check has not answered
/// No is in decomposed form, and the quick check carries the class of its
/// last character.
proof fn lemma_quick_check_not_no_prefix(form: Form, s: Seq<char>, k: int)
    requires
        !form.spec_composes(),
        0 <= k <= s.len(),
        quick_check::qc_state(form, quick_check::qc_params(form), s.take(k)).1 != IsNormalized::No,
    ensures
        in_decomposed_form(s.take(k), form.spec_decomp_form()),
        quick_check::qc_state(form, quick_check::qc_params(form), s.take(k)).0 == qc_last_class(
            form,
            s,
            k,
        ),
        k > 0 ==> qc_last_class(form, s, k) == decomposed_class(s[k - 1], form.spec_decomp_form()),
    decreases k,
{
    let p = quick_check::qc_params(form);
    let df = form.spec_decomp_form();
    if k == 0 {
        assert(s.take(0) =~= Seq::<char>::empty());
    } else {
        assert(s.take(k).drop_last() =~= s.take(k - 1));
        assert(s.take(k).last() == s[k - 1]);
        let prev = quick_check::qc_state(form, p, s.take(k - 1));
        let st = quick_check::qc_state(form, p, s.take(k));
        assert(prev.1 != IsNormalized::No);
        lemma_quick_check_not_no_prefix(form, s, k - 1);
        assert(st == quick_check::qc_char_step(form, p, prev.0, prev.1, s[k - 1]));
        let c = s[k - 1];
        let cp = c as u32;
        if cp <= 0x7F || quick_check::spec_is_safe(cp, p) {
            lemma_range_safe_is_decomposed(form, c);
        } else {
            assert(is_decomposed_char(c, df));
            lemma_decomposed_char_class(c, df);
        }
        let t = s.take(k);
        let u = s.take(k - 1);
        assert forall|i: int| 0 <= i < t.len() implies #[trigger] is_decomposed_char(t[i], df) by {
            if i < k - 1 {
                assert(t[i] == u[i]);
            }
        }
        assert forall|i: int| 0 < i < t.len() implies #[trigger] ordered_at(t, i, df) by {
            if i < k - 1 {
                assert(t[i] == u[i] && t[i - 1] == u[i - 1]);
                assert(ordered_at(u, i, df));
            } else {
                assert(t[i - 1] == s[k - 2]);
            }
        }
    }
}

/// In a decomposition-only form (NFD, NFKD), a string the quick check does
/// not answer No is in decomposed normal form: normalization leaves it
/// unchanged and the definitive check accepts it. In particular a
/// quick-check Yes is sound.
pub proof fn lemma_quick_check_not_no_is_decomposed(form: Form, s: Seq<char>)
    requires
        !form.spec_composes(),
        spec_quick_check(form, s) != IsNormalized::No,
    ensures
        in_decomposed_form(s, form.spec_decomp_form()),
        spec_normalize(form, s) == s,
        normalized(form, s) == s,
        spec_is_normalized(form, s),
{
    assert(s.take(s.len() as int) =~= s);
    lemma_quick_check_not_no_prefix(form, s, s.len() as int);
    lemma_decomposed_form_is_fixed_point(form, s);
    lemma_decomposed_form_passes_check(form, s);
}

/// In a decomposition-only form, normalizing is running the pipeline: the
/// quick-check shortcut never changes the answer.
pub proof fn lemma_normalized_is_pipeline(form: Form, s: Seq<char>)
    requires
        !form.spec_composes(),
    ensures
        normalized(form, s) == spec_normalize(form, s),
{
    if s.len() == 0 || spec_quick_check(form, s) == IsNormalized::Yes {
        if s.len() == 0 {
            lemma_empty_is_normalized(form);
        }
        lemma_quick_check_not_no_is_decomposed(form, s);
    }
}

/// Flushing keeps a property that the pending starter and every pending
/// mark's character have.
proof fn lemma_flush_keeps(st: Option<char>, m: Seq<CharAndCcc>, pred: spec_fn(char) -> bool)
    requires
        st matches Some(x) ==> pred(x),
        forall|i: int| 0 <= i < m.len() ==> pred(#[trigger] m[i].ch),
    ensures
        forall|i: int|
            0 <= i < flush_output(st, m, false).len() ==> pred(#[trigger] flush_output(st, m, false)[i]),
{
    broadcast use vstd::seq_lib::group_to_multiset_ensures;

    let sm = sort_by_ccc(m);
    crate::ccc::lemma_sort_by_ccc_is_stable_sort(m);
    assert forall|i: int| 0 <= i < sm.len() implies pred(#[trigger] sm[i].ch) by {
        assert(sm.to_multiset().count(sm[i]) > 0);
        assert(m.contains(sm[i]));
        let j = choose|j: int| 0 <= j < m.len() && m[j] == sm[i];
        assert(pred(m[j].ch));
    }
    let fl = flush_output(st, m, false);
    assert forall|i: int| 0 <= i < fl.len() implies pred(#[trigger] fl[i]) by {
        match st {
            None => {
                assert(fl[i] == sm[i].ch);
            },
            Some(x) => {
                if m.len() > 0 && i > 0 {
                    assert(fl[i] == entry_chars(sm)[i - 1]);
                    assert(entry_chars(sm)[i - 1] == sm[i - 1].ch);
                }
            },
        }
    }
}

/// Running a decomposition-only pipeline over characters that decompose to
/// themselves keeps a property they all have: every character in its state
/// has it.
proof fn lemma_run_keeps(form: Form, u: Seq<char>, k: int, pred: spec_fn(char) -> bool)
    requires
        !form.spec_composes(),
        0 <= k <= u.len(),
        forall|i: int|
            0 <= i < u.len() ==> is_decomposed_char(#[trigger] u[i], form.spec_decomp_form()) && pred(
                u[i],
            ),
    ensures
        ({
            let r = run_chars(form, u.take(k));
            &&& r.0 matches Some(x) ==> pred(x)
            &&& forall|i: int| 0 <= i < r.1.len() ==> pred(#[trigger] r.1[i].ch)
            &&& forall|i: int| 0 <= i < r.2.len() ==> pred(#[trigger] r.2[i])
        }),
    decreases k,
{
    let df = form.spec_decomp_form();
    if k == 0 {
        assert(u.take(0) =~= Seq::<char>::empty());
    } else {
        lemma_run_keeps(form, u, k - 1, pred);
        assert(u.take(k).drop_last() =~= u.take(k - 1));
        assert(u.take(k).last() == u[k - 1]);
        let c = u[k - 1];
        assert(is_decomposed_char(c, df) && pred(c));
        let prev = run_chars(form, u.take(k - 1));
        lemma_process_decomposed_char(prev.0, prev.1, c, form);
        let e = entry(c, decomposed_class(c, df));
        let r = run_chars(form, u.take(k));
        if e.ccc == 0 {
            lemma_flush_keeps(prev.0, prev.1, pred);
            let fl = flush_output(prev.0, prev.1, false);
            assert(r.2 == prev.2 + fl);
            assert forall|i: int| 0 <= i < r.2.len() implies pred(#[trigger] r.2[i]) by {
                if i < prev.2.len() {
                    assert(r.2[i] == prev.2[i]);
                } else {
                    assert(r.2[i] == fl[i - prev.2.len()]);
                }
            }
        } else {
            assert(r.2 =~= prev.2);
            assert forall|i: int| 0 <= i < r.1.len() implies pred(#[trigger] r.1[i].ch) by {
                if i < prev.1.len() {
                    assert(r.1[i] == prev.1[i]);
                }
            }
        }
    }
}

/// Normalizing characters that decompose to themselves to a
/// decomposition-only form only reorders them: every character of the
/// output has any property that all the input's characters have.
pub proof fn lemma_decomposed_chars_kept(form: Form, u: Seq<char>, pred: spec_fn(char) -> bool)
    requires
        !form.spec_composes(),
        forall|i: int|
            0 <= i < u.len() ==> is_decomposed_char(#[trigger] u[i], form.spec_decomp_form()) && pred(
                u[i],
            ),
    ensures
        forall|i: int| 0 <= i < normalized(form, u).len() ==> pred(#[trigger] normalized(form, u)[i]),
{
    if u.len() > 0 && spec_quick_check(form, u) != IsNormalized::Yes {
        lemma_run_keeps(form, u, u.len() as int, pred);
        assert(u.take(u.len() as int) =~= u);
        let r = run_chars(form, u);
        lemma_flush_keeps(r.0, r.1, pred);
        let fl = flush_output(r.0, r.1, false);
        let t = normalized(form, u);
        assert(t == r.2 + fl);
        assert forall|i: int| 0 <= i < t.len() implies pred(#[trigger] t[i]) by {
            if i < r.2.len() {
                assert(t[i] == r.2[i]);
            } else {
                assert(t[i] == fl[i - r.2.len()]);
            }
        }
    }
}

/// The output of a decomposition-only form is in its decomposed form and is
/// left unchanged by normalizing it again.
pub proof fn lemma_decomposed_output(form: Form, s: Seq<char>)
    requires
        !form.spec_composes(),
    ensures
        in_decomposed_form(normalized(form, s), form.spec_decomp_form()),
        normalized(form, normalized(form, s)) == normalized(form, s),
{
    lemma_normalized_is_pipeline(form, s);
    lemma_decomposition_only_normalization_is_idempotent(form, s);
    lemma_decomposed_form_is_fixed_point(form, normalized(form, s));
}

/// A string in the decomposed form of a decomposition-only form passes the
/// definitive check.
pub proof fn lemma_decomposed_form_passes_check(form: Form, t: Seq<char>)
    requires
        !form.spec_composes(),
        in_decomposed_form(t, form.spec_decomp_form()),
    ensures
        spec_quick_check(form, t) != IsNormalized::No,
        spec_is_normalized(form, t),
{
    lemma_quick_check_on_decomposed(form, t, t.len() as int);
    assert(t.take(t.len() as int) =~= t);
    lemma_decomposed_form_is_fixed_point(form, t);
}

/// In a decomposition-only form, a quick-check No is sound: the string is
/// changed by normalization.
pub proof fn lemma_quick_check_no_means_change(form: Form, s: Seq<char>)
    requires
        !form.spec_composes(),
    ensures
        spec_quick_check(form, s) == IsNormalized::No ==> normalized(form, s) != s,
{
    lemma_all_fully_decompose(s, form.spec_decomp_form());
    if spec_quick_check(form, s) == IsNormalized::No && normalized(form, s) == s {
        lemma_pipeline_output_is_decomposed(form, s);
        lemma_decomposed_form_passes_check(form, s);
    }
}

/// In a decomposition-only form, the output of normalization passes the
/// definitive check.
pub proof fn lemma_normalized_output_passes_check(form: Form, s: Seq<char>)
    requires
        !form.spec_composes(),
    ensures
        spec_is_normalized(form, normalized(form, s)),
{
    lemma_all_fully_decompose(s, form.spec_decomp_form());
    if spec_quick_check(form, s) != IsNormalized::Yes && s.len() > 0 {
        lemma_pipeline_output_is_decomposed(form, s);
        lemma_decomposed_form_passes_check(form, normalized(form, s));
    }
}

// ---------------------------------------------------------------------------
// Composition over the decomposed stream
// ---------------------------------------------------------------------------

/// The entries the pipeline feeds for the characters of `s`: the
/// decompositions of its characters, in order.
pub open spec fn entry_stream(s: Seq<char>, df: DecompForm) -> Seq<CharAndCcc>
    decreases s.len(),
{
    if s.len() == 0 {
        Seq::empty()
    } else {
        entry_stream(s.drop_last(), df) + decomposition_entries(s.last(), df)
    }
}

/// Each character of `t` with the class its decomposition carries.
pub open spec fn char_entries(t: Seq<char>, df: DecompForm) -> Seq<CharAndCcc> {
    Seq::new(t.len(), |j: int| entry(t[j], decomposed_class(t[j], df)))
}

/// Two pipeline states agree up to the order of their pending marks: same
/// starter, same output, and the same marks once put in canonical order.
pub open spec fn same_up_to_mark_order(
    a: (Option<char>, Seq<CharAndCcc>, Seq<char>),
    b: (Option<char>, Seq<CharAndCcc>, Seq<char>),
) -> bool {
    a.0 == b.0 && a.2 == b.2 && sort_by_ccc(a.1) == sort_by_ccc(b.1)
}

/// Feeding `es` from the state `a`, keeping the output emitted before.
pub open spec fn feed_from(
    a: (Option<char>, Seq<CharAndCcc>, Seq<char>),
    es: Seq<CharAndCcc>,
    composes: bool,
) -> (Option<char>, Seq<CharAndCcc>, Seq<char>) {
    let r = feed_entries(a.0, a.1, es, composes);
    (r.0, r.1, a.2 + r.2)
}

/// Feeding a concatenation feeds its two parts in turn.
proof fn lemma_feed_concat(
    a: (Option<char>, Seq<CharAndCcc>, Seq<char>),
    x: Seq<CharAndCcc>,
    y: Seq<CharAndCcc>,
    composes: bool,
)
    ensures
        feed_from(a, x + y, composes) == feed_from(feed_from(a, x, composes), y, composes),
    decreases y.len(),
{
    if y.len() == 0 {
        assert(x + y =~= x);
        let p = feed_from(a, x, composes);
        assert(p.2 + Seq::<char>::empty() =~= p.2);
    } else {
        lemma_feed_concat(a, x, y.drop_last(), composes);
        assert((x + y).drop_last() =~= x + y.drop_last());
        assert((x + y).last() == y.last());
        let r = feed_entries(a.0, a.1, x + y.drop_last(), composes);
        let st = feed_step(r.0, r.1, y.last(), composes);
        let p = feed_from(a, x, composes);
        let q = feed_entries(p.0, p.1, y.drop_last(), composes);
        assert(a.2 + r.2 == p.2 + q.2);
        assert(r.0 == q.0 && r.1 == q.1);
        assert(a.2 + (r.2 + st.2) =~= (a.2 + r.2) + st.2);
        assert(p.2 + (q.2 + st.2) =~= (p.2 + q.2) + st.2);
    }
}

/// Sorting is determined by the sorted marks: pushing a mark onto equally
/// sorting buffers keeps them equally sorting, and lengths agree.
proof fn lemma_sort_push(m: Seq<CharAndCcc>, e: CharAndCcc)
    ensures
        sort_by_ccc(m.push(e)) == crate::ccc::insert_by_ccc(sort_by_ccc(m), e),
{
    assert(m.push(e).drop_last() =~= m);
    assert(m.push(e).last() == e);
}

/// Flushing depends on the pending marks only through their canonical order.
proof fn lemma_flush_up_to_order(st: Option<char>, m1: Seq<CharAndCcc>, m2: Seq<CharAndCcc>, c: bool)
    requires
        sort_by_ccc(m1) == sort_by_ccc(m2),
    ensures
        flush_output(st, m1, c) == flush_output(st, m2, c),
        m1.len() == m2.len(),
{
    crate::ccc::lemma_sort_by_ccc_is_stable_sort(m1);
    crate::ccc::lemma_sort_by_ccc_is_stable_sort(m2);
}

/// One feed step keeps two states that agree up to mark order in agreement.
proof fn lemma_step_up_to_order(
    a: (Option<char>, Seq<CharAndCcc>, Seq<char>),
    b: (Option<char>, Seq<CharAndCcc>, Seq<char>),
    e: CharAndCcc,
    composes: bool,
)
    requires
        same_up_to_mark_order(a, b),
    ensures
        same_up_to_mark_order(
            feed_from(a, seq![e], composes),
            feed_from(b, seq![e], composes),
        ),
{
    lemma_feed_one(a.0, a.1, e, composes);
    lemma_feed_one(b.0, b.1, e, composes);
    lemma_flush_up_to_order(a.0, a.1, b.1, composes);
    if e.ccc != 0 {
        lemma_sort_push(a.1, e);
        lemma_sort_push(b.1, e);
    }
}

/// Feeding the same entries keeps two states that agree up to mark order in
/// agreement.
proof fn lemma_feed_up_to_order(
    a: (Option<char>, Seq<CharAndCcc>, Seq<char>),
    b: (Option<char>, Seq<CharAndCcc>, Seq<char>),
    es: Seq<CharAndCcc>,
    composes: bool,
)
    requires
        same_up_to_mark_order(a, b),
    ensures
        same_up_to_mark_order(feed_from(a, es, composes), feed_from(b, es, composes)),
    decreases es.len(),
{
    if es.len() == 0 {
        assert(a.2 + Seq::<char>::empty() =~= a.2);
        assert(b.2 + Seq::<char>::empty() =~= b.2);
    } else {
        let d = es.drop_last();
        lemma_feed_up_to_order(a, b, d, composes);
        assert(d + seq![es.last()] =~= es);
        lemma_feed_concat(a, d, seq![es.last()], composes);
        lemma_feed_concat(b, d, seq![es.last()], composes);
        lemma_step_up_to_order(
            feed_from(a, d, composes),
            feed_from(b, d, composes),
            es.last(),
            composes,
        );
    }
}

/// Feeding only combining marks appends them to the pending marks.
proof fn lemma_feed_marks(st: Option<char>, m: Seq<CharAndCcc>, es: Seq<CharAndCcc>, composes: bool)
    requires
        forall|i: int| 0 <= i < es.len() ==> (#[trigger] es[i]).ccc > 0,
    ensures
        feed_entries(st, m, es, composes) == (st, m + es, Seq::<char>::empty()),
    decreases es.len(),
{
    if es.len() == 0 {
        assert(m + es =~= m);
    } else {
        lemma_feed_marks(st, m, es.drop_last(), composes);
        assert(es[es.len() - 1].ccc > 0);
        assert((m + es.drop_last()).push(es.last()) =~= m + es);
    }
}

/// Feeding a starter and then marks, or the starter and the same marks in
/// canonical order, gives states that agree up to mark order.
proof fn lemma_run_up_to_order(
    a: (Option<char>, Seq<CharAndCcc>, Seq<char>),
    st: Option<char>,
    m: Seq<CharAndCcc>,
    composes: bool,
)
    requires
        forall|i: int| 0 <= i < m.len() ==> (#[trigger] m[i]).ccc > 0,
        st is None ==> a.1.len() == 0,
    ensures
        same_up_to_mark_order(
            feed_from(a, starter_entries(st) + m, composes),
            feed_from(a, starter_entries(st) + sort_by_ccc(m), composes),
        ),
{
    crate::ccc::lemma_sort_by_ccc_is_stable_sort(m);
    let sm = sort_by_ccc(m);
    assert forall|i: int| 0 <= i < sm.len() implies (#[trigger] sm[i]).ccc > 0 by {
        broadcast use vstd::seq_lib::group_to_multiset_ensures;
        assert(sm.to_multiset().count(sm[i]) > 0);
        assert(m.contains(sm[i]));
    }
    lemma_sort_sorted_is_identity(sm);
    lemma_feed_concat(a, starter_entries(st), m, composes);
    lemma_feed_concat(a, starter_entries(st), sm, composes);
    let b = feed_from(a, starter_entries(st), composes);
    match st {
        Some(x) => {
            lemma_feed_one(a.0, a.1, entry(x, 0), composes);
            assert(b.1.len() == 0);
        },
        None => {
            assert(starter_entries(st) =~= Seq::<CharAndCcc>::empty());
            assert(a.2 + Seq::<char>::empty() =~= a.2);
        },
    }
    lemma_feed_marks(b.0, b.1, m, composes);
    lemma_feed_marks(b.0, b.1, sm, composes);
    assert(b.1 + m =~= m);
    assert(b.1 + sm =~= sm);
    assert(b.2 + Seq::<char>::empty() =~= b.2);
}

/// The entry of a pending starter, if there is one.
pub open spec fn starter_entries(st: Option<char>) -> Seq<CharAndCcc> {
    match st {
        Some(x) => seq![entry(x, 0)],
        None => Seq::empty(),
    }
}

/// The characters of a concatenation, with their classes.
proof fn lemma_char_entries_concat(a: Seq<char>, b: Seq<char>, df: DecompForm)
    ensures
        char_entries(a + b, df) == char_entries(a, df) + char_entries(b, df),
{
    assert(char_entries(a + b, df) =~= char_entries(a, df) + char_entries(b, df));
}

/// Final entries are given back by their characters.
proof fn lemma_char_entries_of_final(m: Seq<CharAndCcc>, df: DecompForm)
    requires
        forall|i: int| 0 <= i < m.len() ==> #[trigger] final_entry(m[i], df),
    ensures
        char_entries(entry_chars(m), df) == m,
{
    assert forall|i: int| 0 <= i < m.len() implies #[trigger] char_entries(entry_chars(m), df)[i] == m[i] by {
        assert(final_entry(m[i], df));
    }
    assert(char_entries(entry_chars(m), df) =~= m);
}

/// What a decomposition-only flush emits, read back as entries: the starter
/// (class 0) and the marks in canonical order.
proof fn lemma_flush_entries(out: Seq<char>, st: Option<char>, m: Seq<CharAndCcc>, df: DecompForm)
    requires
        decomposed_state(out, st, m, df),
    ensures
        char_entries(flush_output(st, m, false), df) == starter_entries(st) + sort_by_ccc(m),
{
    broadcast use vstd::seq_lib::group_to_multiset_ensures;

    crate::ccc::lemma_sort_by_ccc_is_stable_sort(m);
    let sm = sort_by_ccc(m);
    assert forall|i: int| 0 <= i < sm.len() implies #[trigger] final_entry(sm[i], df) by {
        assert(sm.to_multiset().count(sm[i]) > 0);
        assert(m.contains(sm[i]));
        let j = choose|j: int| 0 <= j < m.len() && m[j] == sm[i];
        assert(final_entry(m[j], df));
    }
    lemma_char_entries_of_final(sm, df);
    match st {
        Some(x) => {
            assert(final_entry(entry(x, 0), df));
            assert(char_entries(seq![x], df) =~= seq![entry(x, 0)]);
            if m.len() == 0 {
                assert(sm.len() == 0);
                assert(seq![entry(x, 0)] + sm =~= seq![entry(x, 0)]);
            } else {
                lemma_char_entries_concat(seq![x], entry_chars(sm), df);
            }
        },
        None => {
            assert(starter_entries(st) + sm =~= sm);
        },
    }
}

/// Every entry of the stream of `s` is final.
proof fn lemma_entry_stream_final(s: Seq<char>, df: DecompForm)
    ensures
        forall|j: int|
            0 <= j < entry_stream(s, df).len() ==> #[trigger] final_entry(entry_stream(s, df)[j], df),
    decreases s.len(),
{
    lemma_all_fully_decompose(s, df);
    if s.len() > 0 {
        let d = s.drop_last();
        assert forall|i: int| 0 <= i < d.len() implies #[trigger] fully_decomposes(d[i], df) by {
            assert(fully_decomposes(s[i], df));
        }
        lemma_entry_stream_final(d, df);
        assert(fully_decomposes(s[s.len() - 1], df));
        let a = entry_stream(d, df);
        let b = decomposition_entries(s.last(), df);
        assert forall|j: int| 0 <= j < (a + b).len() implies #[trigger] final_entry((a + b)[j], df) by {
            if j < a.len() {
                assert(final_entry(a[j], df));
            } else {
                assert(final_entry(b[j - a.len()], df));
            }
        }
    }
}

/// The pipeline state after `s` is what feeding its entry stream gives.
proof fn lemma_run_is_feed(form: Form, s: Seq<char>)
    ensures
        run_chars(form, s) == feed_entries(
            None,
            Seq::<CharAndCcc>::empty(),
            entry_stream(s, form.spec_decomp_form()),
            form.spec_composes(),
        ),
    decreases s.len(),
{
    let df = form.spec_decomp_form();
    let c = form.spec_composes();
    if s.len() == 0 {
    } else {
        let d = s.drop_last();
        lemma_run_is_feed(form, d);
        let ch = s.last();
        let es = decomposition_entries(ch, df);
        let a = (None::<char>, Seq::<CharAndCcc>::empty(), Seq::<char>::empty());
        lemma_feed_concat(a, entry_stream(d, df), es, c);
        assert(Seq::<char>::empty() + feed_entries(None, Seq::<CharAndCcc>::empty(), entry_stream(d, df), c).2
            =~= feed_entries(None, Seq::<CharAndCcc>::empty(), entry_stream(d, df), c).2);
        assert(Seq::<char>::empty() + feed_entries(None, Seq::<CharAndCcc>::empty(), entry_stream(s, df), c).2
            =~= feed_entries(None, Seq::<CharAndCcc>::empty(), entry_stream(s, df), c).2);
        let prev = run_chars(form, d);
        if ch as u32 >= 0x3400 && quick_check::spec_is_cjk_unified(ch as u32) {
            assert(es == seq![entry(ch, 0)]);
            lemma_feed_one(prev.0, prev.1, entry(ch, 0), c);
        }
    }
}

/// The entry stream of a string in decomposed form is its characters with
/// their classes.
proof fn lemma_entry_stream_of_decomposed(t: Seq<char>, df: DecompForm)
    requires
        in_decomposed_form(t, df),
    ensures
        entry_stream(t, df) == char_entries(t, df),
    decreases t.len(),
{
    if t.len() > 0 {
        let d = t.drop_last();
        assert(in_decomposed_form(d, df)) by {
            assert forall|i: int| 0 <= i < d.len() implies #[trigger] is_decomposed_char(d[i], df) by {
                assert(is_decomposed_char(t[i], df));
            }
            assert forall|i: int| 0 < i < d.len() implies #[trigger] ordered_at(d, i, df) by {
                assert(ordered_at(t, i, df));
            }
        }
        lemma_entry_stream_of_decomposed(d, df);
        let c = t.last();
        assert(is_decomposed_char(t[t.len() - 1], df));
        assert(decomposition_entries(c, df) =~= seq![entry(c, decomposed_class(c, df))]);
        assert(char_entries(t, df) =~= char_entries(d, df) + seq![entry(c, decomposed_class(c, df))]);
    }
}

/// The empty pipeline state.
pub open spec fn start_state() -> (Option<char>, Seq<CharAndCcc>, Seq<char>) {
    (None, Seq::<CharAndCcc>::empty(), Seq::<char>::empty())
}

/// Feeding a prefix of a stream of final entries: the decomposition-only
/// pipeline is in decomposed form, and the composing pipeline agrees, up to
/// mark order, with composing what the decomposition-only pipeline emitted
/// followed by its pending run.
proof fn lemma_compose_after_decompose_prefix(x: Seq<CharAndCcc>, df: DecompForm, k: int)
    requires
        forall|j: int| 0 <= j < x.len() ==> #[trigger] final_entry(x[j], df),
        0 <= k <= x.len(),
    ensures
        ({
            let d = feed_from(start_state(), x.take(k), false);
            let c = feed_from(start_state(), x.take(k), true);
            &&& decomposed_state(d.2, d.0, d.1, df)
            &&& same_up_to_mark_order(
                c,
                feed_from(
                    start_state(),
                    char_entries(d.2, df) + starter_entries(d.0) + d.1,
                    true,
                ),
            )
        }),
    decreases k,
{
    let z = start_state();
    let xk = x.take(k);
    assert forall|j: int| 0 <= j < xk.len() implies #[trigger] final_entry(xk[j], df) by {
        assert(final_entry(x[j], df));
    }
    lemma_feed_decomposed(Seq::<char>::empty(), None, Seq::<CharAndCcc>::empty(), xk, df);
    if k == 0 {
        assert(xk =~= Seq::<CharAndCcc>::empty());
        let d = feed_from(z, xk, false);
        assert(d.2 =~= Seq::<char>::empty());
        assert(char_entries(d.2, df) + starter_entries(d.0) + d.1 =~= Seq::<CharAndCcc>::empty());
    } else {
        lemma_compose_after_decompose_prefix(x, df, k - 1);
        let e = x[k - 1];
        let xp = x.take(k - 1);
        assert(xk =~= xp + seq![e]);
        lemma_feed_concat(z, xp, seq![e], false);
        lemma_feed_concat(z, xp, seq![e], true);
        let dp = feed_from(z, xp, false);
        let cp = feed_from(z, xp, true);
        let p = char_entries(dp.2, df);
        let pend = starter_entries(dp.0) + dp.1;
        let tp = feed_from(z, p + starter_entries(dp.0) + dp.1, true);
        lemma_step_up_to_order(cp, tp, e, true);
        lemma_feed_concat(z, p + starter_entries(dp.0) + dp.1, seq![e], true);
        lemma_feed_one(dp.0, dp.1, e, false);
        let d = feed_from(z, xk, false);
        let c = feed_from(z, xk, true);
        if e.ccc != 0 {
            assert(d.0 == dp.0);
            assert(d.1 == dp.1.push(e));
            assert(d.2 =~= dp.2);
            assert(p + starter_entries(dp.0) + dp.1 + seq![e] =~= char_entries(d.2, df)
                + starter_entries(d.0) + d.1);
        } else {
            assert(entry(e.ch, 0) == e);
            assert(d.0 == Some(e.ch));
            assert(d.1 =~= Seq::<CharAndCcc>::empty());
            let fl = flush_output(dp.0, dp.1, false);
            assert(d.2 =~= dp.2 + fl);
            lemma_flush_entries(dp.2, dp.0, dp.1, df);
            lemma_char_entries_concat(dp.2, fl, df);
            let sm = sort_by_ccc(dp.1);
            // Compose over the run with its marks in either order.
            let a = feed_from(z, p, true);
            if dp.0 is None {
                assert(dp.2.len() == 0);
                assert(p =~= Seq::<CharAndCcc>::empty());
                assert(a == feed_from(z, Seq::<CharAndCcc>::empty(), true));
                assert(Seq::<char>::empty() + Seq::<char>::empty() =~= Seq::<char>::empty());
            }
            lemma_run_up_to_order(a, dp.0, dp.1, true);
            assert(p + starter_entries(dp.0) + dp.1 =~= p + (starter_entries(dp.0) + dp.1));
            assert(p + starter_entries(dp.0) + sm =~= p + (starter_entries(dp.0) + sm));
            lemma_feed_concat(z, p, starter_entries(dp.0) + dp.1, true);
            lemma_feed_concat(z, p, starter_entries(dp.0) + sm, true);
            let u1 = feed_from(z, p + starter_entries(dp.0) + dp.1, true);
            let u2 = feed_from(z, p + starter_entries(dp.0) + sm, true);
            lemma_step_up_to_order(u1, u2, e, true);
            lemma_feed_concat(z, p + starter_entries(dp.0) + sm, seq![e], true);
            assert(char_entries(d.2, df) + starter_entries(d.0) + d.1 =~= p + starter_entries(dp.0)
                + sm + seq![e]);
        }
    }
}

/// Composing (NFC, NFKC) the output of the matching decomposition-only form
/// (NFD, NFKD) gives what composing the input gives.
pub proof fn lemma_compose_after_decompose(fc: Form, fd: Form, s: Seq<char>)
    requires
        fc.spec_composes(),
        !fd.spec_composes(),
        fc.spec_decomp_form() == fd.spec_decomp_form(),
    ensures
        spec_normalize(fc, spec_normalize(fd, s)) == spec_normalize(fc, s),
{
    lemma_all_fully_decompose(s, fd.spec_decomp_form());
    let df = fd.spec_decomp_form();
    let z = start_state();
    let x = entry_stream(s, df);
    lemma_entry_stream_final(s, df);
    lemma_compose_after_decompose_prefix(x, df, x.len() as int);
    assert(x.take(x.len() as int) =~= x);
    lemma_run_is_feed(fd, s);
    lemma_run_is_feed(fc, s);
    let d = feed_from(z, x, false);
    let c = feed_from(z, x, true);
    let rd = run_chars(fd, s);
    let rc = run_chars(fc, s);
    assert(d.2 =~= rd.2);
    assert(c.2 =~= rc.2);
    let u = spec_normalize(fd, s);
    lemma_pipeline_output_is_decomposed(fd, s);
    lemma_entry_stream_of_decomposed(u, df);
    let fl = flush_output(d.0, d.1, false);
    lemma_flush_entries(d.2, d.0, d.1, df);
    lemma_char_entries_concat(d.2, fl, df);
    let p = char_entries(d.2, df);
    let sm = sort_by_ccc(d.1);
    assert(char_entries(u, df) =~= p + starter_entries(d.0) + sm);
    let a = feed_from(z, p, true);
    if d.0 is None {
        assert(p =~= Seq::<CharAndCcc>::empty());
        assert(Seq::<char>::empty() + Seq::<char>::empty() =~= Seq::<char>::empty());
    }
    lemma_run_up_to_order(a, d.0, d.1, true);
    assert(p + starter_entries(d.0) + d.1 =~= p + (starter_entries(d.0) + d.1));
    assert(p + starter_entries(d.0) + sm =~= p + (starter_entries(d.0) + sm));
    lemma_feed_concat(z, p, starter_entries(d.0) + d.1, true);
    lemma_feed_concat(z, p, starter_entries(d.0) + sm, true);
    lemma_run_is_feed(fc, u);
    let ru = run_chars(fc, u);
    let fu = feed_from(z, char_entries(u, df), true);
    assert(fu.2 =~= ru.2);
    lemma_flush_up_to_order(fu.0, fu.1, c.1, true);
}

// ---------------------------------------------------------------------------
// Composition keeps the decomposition
// ---------------------------------------------------------------------------

/// Composing `a` with `b` yields a character whose decomposition is that of
/// `a` followed by that of `b`.
pub open spec fn composition_respects_decomposition(a: char, b: char, df: DecompForm) -> bool {
    spec_compose(a, b) matches Some(p) ==> decomposition_entries(p, df) == decomposition_entries(a, df)
        + decomposition_entries(b, df)
}

/// Every composition keeps the decomposition: a Hangul syllable composed
/// from `L V` or `LV T` decomposes to those jamo, and a composite of the
/// table decomposes to the decomposition of its pair.
pub proof fn lemma_composition_respects_decomposition(a: char, b: char, df: DecompForm)
    ensures
        composition_respects_decomposition(a, b, df),
{
    if spec_compose(a, b) is Some && hangul::spec_compose_hangul(a, b) is Some {
        hangul::lemma_compose_hangul_decomposition(a, b);
        let p = spec_compose(a, b)->0;
        assert(decomposition_entries(p, df) =~= decomposition_entries(a, df)
            + decomposition_entries(b, df));
    }
}

/// The entries of `combining` that composition onto `starter` keeps, in order.
pub open spec fn kept_entries(starter: char, combining: Seq<CharAndCcc>) -> Seq<CharAndCcc>
    decreases combining.len(),
{
    if combining.len() == 0 {
        Seq::empty()
    } else {
        let (cur, kept, last) = compose::compose_state(starter, combining.drop_last());
        let e = combining.last();
        if !compose::blocked(last, e.ccc) && spec_compose(cur, e.ch) is Some {
            kept_entries(starter, combining.drop_last())
        } else {
            kept_entries(starter, combining.drop_last()).push(e)
        }
    }
}

/// The entries of `combining` that composition onto `starter` absorbs, in order.
pub open spec fn composed_entries(starter: char, combining: Seq<CharAndCcc>) -> Seq<CharAndCcc>
    decreases combining.len(),
{
    if combining.len() == 0 {
        Seq::empty()
    } else {
        let (cur, kept, last) = compose::compose_state(starter, combining.drop_last());
        let e = combining.last();
        if !compose::blocked(last, e.ccc) && spec_compose(cur, e.ch) is Some {
            composed_entries(starter, combining.drop_last()).push(e)
        } else {
            composed_entries(starter, combining.drop_last())
        }
    }
}

/// Composing a starter with marks in canonical order: the kept characters
/// are the kept entries, the composed starter decomposes to the starter's
/// decomposition followed by the absorbed entries, and the absorbed and kept
/// entries together put back in canonical order are the marks.
proof fn lemma_compose_state_entries(starter: char, m: Seq<CharAndCcc>, df: DecompForm)
    requires
        ccc_sorted(m),
        forall|i: int| 0 <= i < m.len() ==> (#[trigger] m[i]).ccc > 0 && final_entry(m[i], df),
    ensures
        ({
            let (cur, kept, last) = compose::compose_state(starter, m);
            let k = kept_entries(starter, m);
            let c = composed_entries(starter, m);
            &&& kept == entry_chars(k)
            &&& decomposition_entries(cur, df) == decomposition_entries(starter, df) + c
            &&& sort_by_ccc(c + k) == m
            &&& ccc_sorted(k)
            &&& last == (if k.len() == 0 { None::<u8> } else { Some(k.last().ccc) })
            &&& forall|i: int| 0 <= i < k.len() ==> (#[trigger] k[i]).ccc > 0 && final_entry(k[i], df)
            &&& forall|i: int| 0 <= i < c.len() ==> (#[trigger] c[i]).ccc > 0 && final_entry(c[i], df)
        }),
    decreases m.len(),
{
    broadcast use vstd::seq_lib::group_to_multiset_ensures;

    if m.len() == 0 {
        assert(entry_chars(Seq::<CharAndCcc>::empty()) =~= Seq::<char>::empty());
        assert(decomposition_entries(starter, df) + Seq::<CharAndCcc>::empty() =~= decomposition_entries(
            starter,
            df,
        ));
        assert(Seq::<CharAndCcc>::empty() + Seq::<CharAndCcc>::empty() =~= m);
    } else {
        let m0 = m.drop_last();
        let e = m.last();
        assert(ccc_sorted(m0));
        assert forall|i: int| 0 <= i < m0.len() implies (#[trigger] m0[i]).ccc > 0 && final_entry(
            m0[i],
            df,
        ) by {
            assert(m[i] == m0[i]);
        }
        lemma_compose_state_entries(starter, m0, df);
        assert(e.ccc > 0 && final_entry(m[m.len() - 1], df));
        let (cur0, kept0, last0) = compose::compose_state(starter, m0);
        let k0 = kept_entries(starter, m0);
        let c0 = composed_entries(starter, m0);
        // Every entry of m0 (hence of k0 and c0) has a class at most e's.
        crate::ccc::lemma_sort_by_ccc_is_stable_sort(c0 + k0);
        assert forall|i: int| 0 <= i < k0.len() implies (#[trigger] k0[i]).ccc <= e.ccc by {
            assert((c0 + k0)[c0.len() + i] == k0[i]);
            assert((c0 + k0).to_multiset().count(k0[i]) > 0);
            assert(m0.contains(k0[i]));
            let j = choose|j: int| 0 <= j < m0.len() && m0[j] == k0[i];
            assert(m[j] == m0[j]);
        }
        assert forall|i: int| 0 <= i < m0.len() implies (#[trigger] m0[i]).ccc <= e.ccc by {
            assert(m[i] == m0[i]);
        }
        crate::ccc::lemma_insert_at_end(m0, e);
        let mp = m0.push(e);
        assert(mp =~= m);
        assert(entry(e.ch, e.ccc) == e);
        assert(decomposition_entries(e.ch, df) == seq![e]) by {
            assert(final_entry(e, df));
            assert(decomposition_entries(e.ch, df) =~= seq![entry(e.ch, decomposed_class(e.ch, df))]);
        }
        if !compose::blocked(last0, e.ccc) && spec_compose(cur0, e.ch) is Some {
            // Absorbed: every kept entry so far has a lower class.
            assert forall|i: int| 0 <= i < k0.len() implies (#[trigger] k0[i]).ccc < e.ccc by {
                assert(k0[i].ccc <= k0.last().ccc);
            }
            lemma_composition_respects_decomposition(cur0, e.ch, df);
            crate::ccc::lemma_sort_move_past_lower(c0, e, k0);
            assert(c0.push(e) + k0 =~= c0 + seq![e] + k0);
            assert((c0 + k0).push(e) =~= c0 + k0 + seq![e]);
            assert(sort_by_ccc((c0 + k0).push(e)) == crate::ccc::insert_by_ccc(sort_by_ccc(c0 + k0), e))
                by {
                assert((c0 + k0).push(e).drop_last() =~= c0 + k0);
            }
            assert(decomposition_entries(starter, df) + c0 + seq![e] =~= decomposition_entries(
                starter,
                df,
            ) + c0.push(e));
        } else {
            assert(sort_by_ccc((c0 + k0).push(e)) == crate::ccc::insert_by_ccc(sort_by_ccc(c0 + k0), e))
                by {
                assert((c0 + k0).push(e).drop_last() =~= c0 + k0);
            }
            assert(c0 + k0.push(e) =~= (c0 + k0).push(e));
            lemma_entry_chars_push(k0, e);
            let k = k0.push(e);
            assert forall|i: int, j: int| 0 <= i <= j < k.len() implies k[i].ccc <= k[j].ccc by {
                if j == k.len() - 1 && i < j {
                    assert(k[i] == k0[i]);
                }
            }
        }
    }
}


/// The entry stream of a concatenation is the concatenation of the streams.
proof fn lemma_entry_stream_concat(a: Seq<char>, b: Seq<char>, df: DecompForm)
    ensures
        entry_stream(a + b, df) == entry_stream(a, df) + entry_stream(b, df),
    decreases b.len(),
{
    if b.len() == 0 {
        assert(a + b =~= a);
        assert(entry_stream(a, df) + Seq::<CharAndCcc>::empty() =~= entry_stream(a, df));
    } else {
        lemma_entry_stream_concat(a, b.drop_last(), df);
        assert((a + b).drop_last() =~= a + b.drop_last());
        assert((a + b).last() == b.last());
        assert(entry_stream(a, df) + entry_stream(b.drop_last(), df) + decomposition_entries(b.last(), df)
            =~= entry_stream(a, df) + (entry_stream(b.drop_last(), df) + decomposition_entries(
            b.last(),
            df,
        )));
    }
}

/// The entry stream of one character is its decomposition.
proof fn lemma_entry_stream_one(c: char, df: DecompForm)
    ensures
        entry_stream(seq![c], df) == decomposition_entries(c, df),
{
    assert(seq![c].drop_last() =~= Seq::<char>::empty());
    assert(entry_stream(seq![c].drop_last(), df) == Seq::<CharAndCcc>::empty());
    assert(seq![c].last() == c);
    assert(Seq::<CharAndCcc>::empty() + decomposition_entries(c, df) =~= decomposition_entries(c, df));
}

/// The characters of final entries stream back to those entries.
proof fn lemma_entry_stream_of_final(k: Seq<CharAndCcc>, df: DecompForm)
    requires
        forall|i: int| 0 <= i < k.len() ==> #[trigger] final_entry(k[i], df),
    ensures
        entry_stream(entry_chars(k), df) == k,
    decreases k.len(),
{
    if k.len() > 0 {
        let d = k.drop_last();
        assert forall|i: int| 0 <= i < d.len() implies #[trigger] final_entry(d[i], df) by {
            assert(final_entry(k[i], df));
        }
        lemma_entry_stream_of_final(d, df);
        let ch = entry_chars(k);
        assert(ch.drop_last() =~= entry_chars(d));
        assert(ch.last() == k.last().ch);
        assert(final_entry(k[k.len() - 1], df));
        assert(decomposition_entries(k.last().ch, df) =~= seq![k.last()]);
        assert(d + seq![k.last()] =~= k);
    }
}

/// Feeding entries that end with a starter leaves no pending marks.
proof fn lemma_feed_ends_with_starter(
    st: Option<char>,
    m: Seq<CharAndCcc>,
    es: Seq<CharAndCcc>,
    composes: bool,
)
    requires
        es.len() > 0,
        es.last().ccc == 0,
    ensures
        feed_entries(st, m, es, composes).1.len() == 0,
{
}

/// The characters the composing pipeline has pending for its starter.
pub open spec fn pending_stream(st: Option<char>, df: DecompForm) -> Seq<CharAndCcc> {
    match st {
        Some(c) => decomposition_entries(c, df),
        None => Seq::empty(),
    }
}

/// A composing pipeline state over final entries: nothing emitted before a
/// starter, a starter that decomposes into final starters, final pending
/// marks, and an output of characters whose decompositions are complete.
pub open spec fn composing_state_ok(
    c: (Option<char>, Seq<CharAndCcc>, Seq<char>),
    df: DecompForm,
) -> bool {
    &&& c.0 is None ==> c.2.len() == 0
    &&& c.0 matches Some(x) ==> decomposition_entries(x, df).len() > 0 && forall|j: int|
        0 <= j < decomposition_entries(x, df).len() ==> (#[trigger] decomposition_entries(x, df)[j]).ccc
            == 0 && final_entry(decomposition_entries(x, df)[j], df)
    &&& forall|i: int| 0 <= i < c.1.len() ==> (#[trigger] c.1[i]).ccc > 0 && final_entry(c.1[i], df)
    &&& forall|i: int| 0 <= i < c.2.len() ==> #[trigger] fully_decomposes(c.2[i], df)
}

/// Flushing a composing state and decomposing what it emits gives, up to
/// mark order, the pending starter's decomposition followed by the pending
/// marks; and every emitted character's decomposition is complete.
proof fn lemma_compose_flush_stream(
    a: (Option<char>, Seq<CharAndCcc>, Seq<char>),
    c: (Option<char>, Seq<CharAndCcc>, Seq<char>),
    df: DecompForm,
)
    requires
        composing_state_ok(c, df),
        c.0 is None ==> a.1.len() == 0,
    ensures
        same_up_to_mark_order(
            feed_from(a, pending_stream(c.0, df) + c.1, false),
            feed_from(a, entry_stream(flush_output(c.0, c.1, true), df), false),
        ),
        forall|i: int|
            0 <= i < flush_output(c.0, c.1, true).len() ==> #[trigger] fully_decomposes(
                flush_output(c.0, c.1, true)[i],
                df,
            ),
{
    broadcast use vstd::seq_lib::group_to_multiset_ensures;

    let m = c.1;
    let sm = sort_by_ccc(m);
    crate::ccc::lemma_sort_by_ccc_is_stable_sort(m);
    assert forall|i: int| 0 <= i < sm.len() implies (#[trigger] sm[i]).ccc > 0 && final_entry(
        sm[i],
        df,
    ) by {
        assert(sm.to_multiset().count(sm[i]) > 0);
        assert(m.contains(sm[i]));
        let j = choose|j: int| 0 <= j < m.len() && m[j] == sm[i];
        assert(m[j].ccc > 0 && final_entry(m[j], df));
    }
    let fl = flush_output(c.0, m, true);
    match c.0 {
        None => {
            lemma_entry_stream_of_final(sm, df);
            lemma_run_up_to_order(a, None, m, false);
            assert(starter_entries(None) + m =~= pending_stream(c.0, df) + m);
            assert(starter_entries(None) + sm =~= sm);
            assert forall|i: int| 0 <= i < fl.len() implies #[trigger] fully_decomposes(fl[i], df) by {
                assert(final_entry(sm[i], df));
                assert(decomposition_entries(sm[i].ch, df) =~= seq![sm[i]]);
            }
        },
        Some(x) => {
            let dx = decomposition_entries(x, df);
            assert(fully_decomposes(x, df)) by {
                assert forall|j: int| 0 <= j < dx.len() implies #[trigger] final_entry(dx[j], df) by {
                    assert(dx[j].ccc == 0 && final_entry(dx[j], df));
                }
            }
            if m.len() == 0 {
                assert(fl == seq![x]);
                lemma_entry_stream_one(x, df);
                assert(dx + m =~= dx);
            } else {
                lemma_sort_sorted_is_identity(sm);
                lemma_compose_state_entries(x, sm, df);
                let (cur, kept, last) = compose::compose_state(x, sm);
                let k = kept_entries(x, sm);
                let cm = composed_entries(x, sm);
                assert(fl == seq![cur] + kept);
                lemma_entry_stream_concat(seq![cur], kept, df);
                lemma_entry_stream_one(cur, df);
                lemma_entry_stream_of_final(k, df);
                let es = entry_stream(fl, df);
                assert(es =~= dx + (cm + k));
                // Feed the starter's decomposition, then the marks in either order.
                lemma_feed_concat(a, dx, m, false);
                lemma_feed_concat(a, dx, cm + k, false);
                let b = feed_from(a, dx, false);
                assert(dx[dx.len() - 1].ccc == 0);
                lemma_feed_ends_with_starter(a.0, a.1, dx, false);
                assert forall|i: int| 0 <= i < (cm + k).len() implies (#[trigger] (cm + k)[i]).ccc > 0 by {
                    if i < cm.len() {
                        assert(cm[i].ccc > 0);
                    } else {
                        assert(k[i - cm.len()].ccc > 0);
                    }
                }
                lemma_feed_marks(b.0, b.1, m, false);
                lemma_feed_marks(b.0, b.1, cm + k, false);
                assert(b.1 + m =~= m);
                assert(b.1 + (cm + k) =~= cm + k);
                assert(b.2 + Seq::<char>::empty() =~= b.2);
                assert(fully_decomposes(cur, df)) by {
                    let dc = decomposition_entries(cur, df);
                    assert(dc == dx + cm);
                    assert forall|j: int| 0 <= j < dc.len() implies #[trigger] final_entry(dc[j], df) by {
                        if j < dx.len() {
                            assert(final_entry(dx[j], df));
                        } else {
                            assert(final_entry(cm[j - dx.len()], df));
                        }
                    }
                }
                assert forall|i: int| 0 <= i < fl.len() implies #[trigger] fully_decomposes(fl[i], df) by {
                    if i > 0 {
                        assert(fl[i] == k[i - 1].ch);
                        assert(final_entry(k[i - 1], df));
                        assert(decomposition_entries(k[i - 1].ch, df) =~= seq![k[i - 1]]);
                    }
                }
            }
        },
    }
}

/// Feeding a prefix of a stream of final entries: the composing state is
/// well formed, and the decomposition-only pipeline agrees, up to mark
/// order, with decomposing what the composing pipeline emitted followed by
/// its pending starter and marks.
#[verifier::spinoff_prover]
#[verifier::rlimit(80)]
proof fn lemma_decompose_after_compose_prefix(x: Seq<CharAndCcc>, df: DecompForm, k: int)
    requires
        forall|j: int| 0 <= j < x.len() ==> #[trigger] final_entry(x[j], df),
        0 <= k <= x.len(),
    ensures
        ({
            let c = feed_from(start_state(), x.take(k), true);
            let d = feed_from(start_state(), x.take(k), false);
            &&& composing_state_ok(c, df)
            &&& same_up_to_mark_order(
                d,
                feed_from(
                    start_state(),
                    entry_stream(c.2, df) + pending_stream(c.0, df) + c.1,
                    false,
                ),
            )
        }),
    decreases k,
{
    let z = start_state();
    if k == 0 {
        assert(x.take(0) =~= Seq::<CharAndCcc>::empty());
        let c = feed_from(z, x.take(0), true);
        assert(c.2 =~= Seq::<char>::empty());
        assert(entry_stream(c.2, df) + pending_stream(c.0, df) + c.1 =~= Seq::<CharAndCcc>::empty());
    } else {
        lemma_decompose_after_compose_prefix(x, df, k - 1);
        let e = x[k - 1];
        assert(final_entry(e, df));
        let xp = x.take(k - 1);
        assert(x.take(k) =~= xp + seq![e]);
        lemma_feed_concat(z, xp, seq![e], false);
        lemma_feed_concat(z, xp, seq![e], true);
        let cp = feed_from(z, xp, true);
        let dp = feed_from(z, xp, false);
        let rp = entry_stream(cp.2, df) + pending_stream(cp.0, df) + cp.1;
        let tp = feed_from(z, rp, false);
        lemma_step_up_to_order(dp, tp, e, false);
        lemma_feed_concat(z, rp, seq![e], false);
        lemma_feed_one(cp.0, cp.1, e, true);
        let c = feed_from(z, x.take(k), true);
        assert(decomposition_entries(e.ch, df) =~= seq![e]) by {
            assert(decomposition_entries(e.ch, df) =~= seq![entry(e.ch, decomposed_class(e.ch, df))]);
        }
        assert(entry(e.ch, e.ccc) == e);
        if e.ccc != 0 {
            assert(c.0 == cp.0 && c.1 == cp.1.push(e));
            assert(c.2 =~= cp.2);
            assert(rp + seq![e] =~= entry_stream(c.2, df) + pending_stream(c.0, df) + c.1);
            assert forall|i: int| 0 <= i < c.1.len() implies (#[trigger] c.1[i]).ccc > 0 && final_entry(
                c.1[i],
                df,
            ) by {
                if i < cp.1.len() {
                    assert(c.1[i] == cp.1[i]);
                }
            }
        } else if cp.1.len() == 0 && cp.0 is Some && spec_compose(cp.0->0, e.ch) is Some {
            let a0 = cp.0->0;
            let p = spec_compose(a0, e.ch)->0;
            lemma_composition_respects_decomposition(a0, e.ch, df);
            assert(c.0 == Some(p) && c.1 == cp.1);
            assert(c.2 =~= cp.2);
            assert(decomposition_entries(p, df) == decomposition_entries(a0, df) + seq![e]);
            assert(rp + seq![e] =~= entry_stream(c.2, df) + pending_stream(c.0, df) + c.1);
            let dp0 = decomposition_entries(p, df);
            assert forall|j: int| 0 <= j < dp0.len() implies (#[trigger] dp0[j]).ccc == 0 && final_entry(
                dp0[j],
                df,
            ) by {
                if j < decomposition_entries(a0, df).len() {
                    assert(dp0[j] == decomposition_entries(a0, df)[j]);
                }
            }
        } else {
            let fl = flush_output(cp.0, cp.1, true);
            assert(c.0 == Some(e.ch));
            assert(c.1 =~= Seq::<CharAndCcc>::empty());
            assert(c.2 =~= cp.2 + fl);
            let a = feed_from(z, entry_stream(cp.2, df), false);
            if cp.0 is None {
                assert(cp.2.len() == 0);
                assert(cp.2 =~= Seq::<char>::empty());
                assert(entry_stream(cp.2, df) =~= Seq::<CharAndCcc>::empty());
                assert(Seq::<char>::empty() + Seq::<char>::empty() =~= Seq::<char>::empty());
            }
            lemma_compose_flush_stream(a, cp, df);
            let u1 = feed_from(a, pending_stream(cp.0, df) + cp.1, false);
            let u2 = feed_from(a, entry_stream(fl, df), false);
            lemma_step_up_to_order(u1, u2, e, false);
            assert(rp =~= entry_stream(cp.2, df) + (pending_stream(cp.0, df) + cp.1));
            lemma_feed_concat(z, entry_stream(cp.2, df), pending_stream(cp.0, df) + cp.1, false);
            lemma_feed_concat(z, entry_stream(cp.2, df), entry_stream(fl, df), false);
            lemma_entry_stream_concat(cp.2, fl, df);
            let r2 = entry_stream(cp.2, df) + entry_stream(fl, df);
            lemma_feed_concat(z, r2, seq![e], false);
            assert(entry_stream(c.2, df) + pending_stream(c.0, df) + c.1 =~= r2 + seq![e]);
            assert forall|i: int| 0 <= i < c.2.len() implies #[trigger] fully_decomposes(c.2[i], df) by {
                if i < cp.2.len() {
                    assert(c.2[i] == cp.2[i]);
                } else {
                    assert(c.2[i] == fl[i - cp.2.len()]);
                }
            }
        }
    }
}

/// Decomposing (NFD, NFKD) the output of the matching composing form (NFC,
/// NFKC) gives what decomposing the input gives, and every character of the
/// composed output has a complete decomposition.
pub proof fn lemma_decompose_after_compose(fc: Form, fd: Form, s: Seq<char>)
    requires
        fc.spec_composes(),
        !fd.spec_composes(),
        fc.spec_decomp_form() == fd.spec_decomp_form(),
    ensures
        spec_normalize(fd, spec_normalize(fc, s)) == spec_normalize(fd, s),
        forall|i: int|
            0 <= i < spec_normalize(fc, s).len() ==> #[trigger] fully_decomposes(
                spec_normalize(fc, s)[i],
                fd.spec_decomp_form(),
            ),
{
    lemma_all_fully_decompose(s, fd.spec_decomp_form());
    let df = fd.spec_decomp_form();
    let z = start_state();
    let x = entry_stream(s, df);
    lemma_entry_stream_final(s, df);
    lemma_decompose_after_compose_prefix(x, df, x.len() as int);
    assert(x.take(x.len() as int) =~= x);
    lemma_run_is_feed(fd, s);
    lemma_run_is_feed(fc, s);
    let c = feed_from(z, x, true);
    let d = feed_from(z, x, false);
    let rc = run_chars(fc, s);
    let rd = run_chars(fd, s);
    assert(c.2 =~= rc.2);
    assert(d.2 =~= rd.2);
    let fl = flush_output(c.0, c.1, true);
    let t = spec_normalize(fc, s);
    assert(t == c.2 + fl);
    let a = feed_from(z, entry_stream(c.2, df), false);
    if c.0 is None {
        assert(c.2 =~= Seq::<char>::empty());
        assert(entry_stream(c.2, df) =~= Seq::<CharAndCcc>::empty());
        assert(Seq::<char>::empty() + Seq::<char>::empty() =~= Seq::<char>::empty());
    }
    lemma_compose_flush_stream(a, c, df);
    assert(entry_stream(c.2, df) + pending_stream(c.0, df) + c.1 =~= entry_stream(c.2, df) + (
    pending_stream(c.0, df) + c.1));
    lemma_feed_concat(z, entry_stream(c.2, df), pending_stream(c.0, df) + c.1, false);
    lemma_feed_concat(z, entry_stream(c.2, df), entry_stream(fl, df), false);
    lemma_entry_stream_concat(c.2, fl, df);
    lemma_run_is_feed(fd, t);
    let rt = run_chars(fd, t);
    let ft = feed_from(z, entry_stream(t, df), false);
    assert(ft.2 =~= rt.2);
    lemma_flush_up_to_order(ft.0, ft.1, d.1, false);
    assert forall|i: int| 0 <= i < t.len() implies #[trigger] fully_decomposes(t[i], df) by {
        if i < c.2.len() {
            assert(t[i] == c.2[i]);
        } else {
            assert(t[i] == fl[i - c.2.len()]);
        }
    }
}

/// Normalizing to a composing form (NFC, NFKC) is idempotent: normalizing
/// the output again gives it back, through the pipeline and through
/// `normalized`.
pub proof fn lemma_composition_is_idempotent(fc: Form, fd: Form, s: Seq<char>)
    requires
        fc.spec_composes(),
        !fd.spec_composes(),
        fc.spec_decomp_form() == fd.spec_decomp_form(),
    ensures
        spec_normalize(fc, spec_normalize(fc, s)) == spec_normalize(fc, s),
        normalized(fc, normalized(fc, s)) == normalized(fc, s),
{
    lemma_all_fully_decompose(s, fd.spec_decomp_form());
    let t = spec_normalize(fc, s);
    lemma_decompose_after_compose(fc, fd, s);
    lemma_compose_after_decompose(fc, fd, t);
    lemma_compose_after_decompose(fc, fd, s);
}


/// The quick check of `fc` accepts `c` by range (ASCII or a safe range).
pub open spec fn qc_range_safe(fc: Form, c: char) -> bool {
    (c as u32) <= 0x7F || quick_check::spec_is_safe(c as u32, quick_check::qc_params(fc))
}

/// `c` decomposes the same way canonically and compatibly (what NFKC
/// needs of the starters it composes onto).
pub open spec fn compat_pure(c: char) -> bool {
    decomposition_entries(c, DecompForm::Compatible) == decomposition_entries(c, DecompForm::Canonical)
}

/// For NFKC, `c` decomposes the same way canonically and compatibly.
pub open spec fn pure_for(fc: Form, c: char) -> bool {
    fc == Form::Nfkc ==> compat_pure(c)
}

/// A composite of characters that, for NFKC, decompose the same way
/// canonically and compatibly is a starter the quick check of `fc` accepts.
pub open spec fn composite_is_good_starter(fc: Form, a: char, b: char) -> bool {
    spec_compose(a, b) matches Some(p) ==> (pure_for(fc, a) && pure_for(fc, b) ==> good_starter(
        fc,
        p,
    ))
}

/// A character that decomposes to itself compatibly decomposes the same way
/// canonically.
pub proof fn lemma_compat_final_is_pure(d: char)
    requires
        is_decomposed_char(d, DecompForm::Compatible),
    ensures
        compat_pure(d),
{
    if hangul::spec_is_hangul_syllable(d) {
        assert(hangul::hangul_decomposition(d).len() >= 2);
        assert(decomposition_entries(d, DecompForm::Compatible).len() >= 2);
    } else if !decompose::spec_maps_to_itself(d as u32) {
        let x = crate::tables::decomposition_of(d, DecompForm::Compatible);
        assert(decomposition_entries(d, DecompForm::Compatible) == decompose::with_classes(x));
        assert(x =~= seq![d]);
        assert(crate::tables::decomposition_of(d, DecompForm::Canonical) == seq![d]);
    }
}

/// Every composite is a starter the quick check of a composing form
/// accepts (for NFKC, a composite of characters that decompose the same way
/// canonically and compatibly): a Hangul syllable by range, a composite of
/// the table by its class and its quick-check value.
pub proof fn lemma_composite_is_good_starter(fc: Form, a: char, b: char)
    requires
        fc.spec_composes(),
    ensures
        composite_is_good_starter(fc, a, b),
{
    if spec_compose(a, b) is Some {
        lemma_composition_respects_decomposition(a, b, DecompForm::Canonical);
        lemma_composition_respects_decomposition(a, b, DecompForm::Compatible);
        if hangul::spec_compose_hangul(a, b) is Some {
            hangul::lemma_compose_hangul_decomposition(a, b);
        }
    }
}

/// `t` passes the quick check of `fc` character by character: every character
/// not accepted by range is no quick-check No, and a combining mark never
/// follows one of a higher class.
pub open spec fn qc_good(fc: Form, t: Seq<char>) -> bool {
    &&& forall|i: int|
        0 <= i < t.len() && !qc_range_safe(fc, t[i]) ==> #[trigger] quick_check::spec_qc_of_char(
            fc,
            t[i],
        ) < 2
    &&& forall|i: int| 0 < i < t.len() ==> #[trigger] qc_ordered_at(fc, t, i)
}

/// The character at `i > 0` does not break the quick check's class order.
pub open spec fn qc_ordered_at(fc: Form, t: Seq<char>, i: int) -> bool {
    !qc_range_safe(fc, t[i]) && !qc_range_safe(fc, t[i - 1]) && crate::tables::canonical_combining_class_of(
        t[i],
    ) != 0 ==> crate::tables::canonical_combining_class_of(t[i - 1])
        <= crate::tables::canonical_combining_class_of(t[i])
}

/// A starter the quick check of `fc` accepts: by range, or class 0 and no
/// No; for NFKC also one that decomposes the same way canonically and
/// compatibly.
pub open spec fn good_starter(fc: Form, c: char) -> bool {
    &&& qc_range_safe(fc, c) || (crate::tables::canonical_combining_class_of(c) == 0
        && quick_check::spec_qc_of_char(fc, c) < 2)
    &&& pure_for(fc, c)
}

/// A string that passes character by character is never answered No.
proof fn lemma_qc_good_not_no(fc: Form, t: Seq<char>, k: int)
    requires
        fc.spec_composes(),
        qc_good(fc, t),
        0 <= k <= t.len(),
    ensures
        quick_check::qc_state(fc, quick_check::qc_params(fc), t.take(k)).1
            != IsNormalized::No,
        quick_check::qc_state(fc, quick_check::qc_params(fc), t.take(k)).0 == (if k
            == 0 || qc_range_safe(fc, t[k - 1]) {
            0
        } else {
            crate::tables::canonical_combining_class_of(t[k - 1])
        }),
    decreases k,
{
    let p = quick_check::qc_params(fc);
    if k == 0 {
        assert(t.take(0) =~= Seq::<char>::empty());
    } else {
        lemma_qc_good_not_no(fc, t, k - 1);
        assert(t.take(k).drop_last() =~= t.take(k - 1));
        assert(t.take(k).last() == t[k - 1]);
        let c = t[k - 1];
        let prev = quick_check::qc_state(fc, p, t.take(k - 1));
        assert(quick_check::qc_state(fc, p, t.take(k)) == quick_check::qc_char_step(
            fc,
            p,
            prev.0,
            prev.1,
            c,
        ));
        if !qc_range_safe(fc, c) {
            assert(quick_check::spec_qc_of_char(fc, t[k - 1]) < 2);
            if k >= 2 {
                assert(qc_ordered_at(fc, t, k - 1));
            }
        }
    }
}

/// A final starter entry is a starter the quick check of `fc` accepts.
proof fn lemma_final_starter_good(fc: Form, e: CharAndCcc)
    requires
        fc.spec_composes(),
        e.ccc == 0,
        final_entry(e, fc.spec_decomp_form()),
    ensures
        good_starter(fc, e.ch),
{
    lemma_decomposed_char_accepted(fc, e.ch);
    if fc == Form::Nfkc {
        lemma_compat_final_is_pure(e.ch);
    }
}

/// A final mark is a character the quick check accepts, with its entry's class.
proof fn lemma_final_mark_good(fc: Form, e: CharAndCcc)
    requires
        fc.spec_composes(),
        e.ccc > 0,
        final_entry(e, fc.spec_decomp_form()),
    ensures
        !qc_range_safe(fc, e.ch) ==> quick_check::spec_qc_of_char(fc, e.ch) < 2,
        !((e.ch as u32) <= 0x7F || decompose::spec_is_cjk_ideograph(e.ch as u32)),
        crate::tables::canonical_combining_class_of(e.ch) == e.ccc,
{
    lemma_decomposed_char_accepted(fc, e.ch);
}


/// Joining two strings that pass the quick check character by character,
/// where the join itself keeps the class order, gives one that passes.
proof fn lemma_qc_good_concat(fc: Form, a: Seq<char>, b: Seq<char>)
    requires
        fc.spec_composes(),
        qc_good(fc, a),
        qc_good(fc, b),
        a.len() == 0 || b.len() == 0 || qc_ordered_at(fc, a + b, a.len() as int),
    ensures
        qc_good(fc, a + b),
{
    let ab = a + b;
    assert forall|i: int|
        0 <= i < ab.len() && !qc_range_safe(fc, ab[i]) implies #[trigger] quick_check::spec_qc_of_char(
        fc,
        ab[i],
    ) < 2 by {
        if i < a.len() {
            assert(ab[i] == a[i]);
        } else {
            assert(ab[i] == b[i - a.len()]);
        }
    }
    assert forall|i: int| 0 < i < ab.len() implies #[trigger] qc_ordered_at(fc, ab, i) by {
        if i < a.len() {
            assert(qc_ordered_at(fc, a, i));
            assert(ab[i] == a[i] && ab[i - 1] == a[i - 1]);
        } else if i > a.len() {
            assert(qc_ordered_at(fc, b, i - a.len()));
            assert(ab[i] == b[i - a.len()] && ab[i - 1] == b[i - 1 - a.len()]);
        }
    }
}

/// Composing onto a starter the quick check of `fc` accepts yields one it accepts.
proof fn lemma_composed_starter_good(fc: Form, st: char, m: Seq<CharAndCcc>)
    requires
        fc.spec_composes(),
        good_starter(fc, st),
        forall|i: int| 0 <= i < m.len() ==> #[trigger] final_entry(m[i], fc.spec_decomp_form()),
    ensures
        good_starter(fc, compose::compose_state(st, m).0),
    decreases m.len(),
{
    if m.len() > 0 {
        lemma_composed_starter_good(fc, st, m.drop_last());
        let (cur, kept, last) = compose::compose_state(st, m.drop_last());
        lemma_composite_is_good_starter(fc, cur, m.last().ch);
        assert(final_entry(m[m.len() - 1], fc.spec_decomp_form()));
        if fc == Form::Nfkc {
            lemma_compat_final_is_pure(m.last().ch);
        }
    }
}

/// Final marks in class order, as characters, pass the quick check.
proof fn lemma_final_marks_good(fc: Form, k: Seq<CharAndCcc>)
    requires
        fc.spec_composes(),
        ccc_sorted(k),
        forall|i: int| 0 <= i < k.len() ==> (#[trigger] k[i]).ccc > 0 && final_entry(
            k[i],
            fc.spec_decomp_form(),
        ),
    ensures
        qc_good(fc, entry_chars(k)),
        forall|i: int| 0 <= i < k.len() ==> !qc_range_safe(fc, #[trigger] entry_chars(k)[i])
            || crate::tables::canonical_combining_class_of(entry_chars(k)[i]) > 0,
{
    let t = entry_chars(k);
    assert forall|i: int| 0 <= i < k.len() implies (!qc_range_safe(fc, t[i])
        ==> quick_check::spec_qc_of_char(fc, t[i]) < 2) && crate::tables::canonical_combining_class_of(
        t[i],
    ) == k[i].ccc by {
        lemma_final_mark_good(fc, k[i]);
    }
    assert forall|i: int|
        0 <= i < t.len() && !qc_range_safe(fc, t[i]) implies #[trigger] quick_check::spec_qc_of_char(
        fc,
        t[i],
    ) < 2 by {}
    assert forall|i: int| 0 < i < t.len() implies #[trigger] qc_ordered_at(fc, t, i) by {
        assert(k[i - 1].ccc <= k[i].ccc);
    }
}

/// Flushing a composing state whose starter the quick check of `fc` accepts
/// emits characters that pass it, starting with a starter it accepts.
proof fn lemma_composed_flush_good(fc: Form, c: (Option<char>, Seq<CharAndCcc>, Seq<char>))
    requires
        fc.spec_composes(),
        composing_state_ok(c, fc.spec_decomp_form()),
        c.0 matches Some(x) ==> good_starter(fc, x),
    ensures
        qc_good(fc, flush_output(c.0, c.1, true)),
        c.0 is Some ==> flush_output(c.0, c.1, true).len() > 0 && good_starter(fc, 
            flush_output(c.0, c.1, true)[0],
        ),
{
    broadcast use vstd::seq_lib::group_to_multiset_ensures;

    let df = fc.spec_decomp_form();
    let m = c.1;
    let sm = sort_by_ccc(m);
    crate::ccc::lemma_sort_by_ccc_is_stable_sort(m);
    assert forall|i: int| 0 <= i < sm.len() implies (#[trigger] sm[i]).ccc > 0 && final_entry(
        sm[i],
        df,
    ) by {
        assert(sm.to_multiset().count(sm[i]) > 0);
        assert(m.contains(sm[i]));
        let j = choose|j: int| 0 <= j < m.len() && m[j] == sm[i];
        assert(m[j].ccc > 0 && final_entry(m[j], df));
    }
    let fl = flush_output(c.0, m, true);
    match c.0 {
        None => {
            lemma_final_marks_good(fc, sm);
        },
        Some(x) => {
            if m.len() == 0 {
                let sx = seq![x];
                assert(fl == sx);
                assert forall|i: int|
                    0 <= i < sx.len() && !qc_range_safe(fc, sx[i]) implies #[trigger] quick_check::spec_qc_of_char(
                    fc,
                    sx[i],
                ) < 2 by {}
            } else {
                lemma_sort_sorted_is_identity(sm);
                lemma_compose_state_entries(x, sm, df);
                lemma_composed_starter_good(fc, x, sm);
                let (cur, kept, last) = compose::compose_state(x, sm);
                let k = kept_entries(x, sm);
                lemma_final_marks_good(fc, k);
                let sc = seq![cur];
                assert(qc_good(fc, sc)) by {
                    assert forall|i: int|
                        0 <= i < sc.len() && !qc_range_safe(fc, sc[i]) implies #[trigger] quick_check::spec_qc_of_char(
                        fc,
                        sc[i],
                    ) < 2 by {}
                }
                assert(fl == sc + kept);
                lemma_qc_good_concat(fc, sc, kept);
            }
        },
    }
}

/// The composing pipeline over a prefix of a stream of final entries:
/// its output passes the quick check character by character and its
/// starter is one the quick check accepts.
proof fn lemma_composed_prefix_good(fc: Form, x: Seq<CharAndCcc>, k: int)
    requires
        fc.spec_composes(),
        forall|j: int| 0 <= j < x.len() ==> #[trigger] final_entry(x[j], fc.spec_decomp_form()),
        0 <= k <= x.len(),
    ensures
        ({
            let c = feed_from(start_state(), x.take(k), true);
            &&& composing_state_ok(c, fc.spec_decomp_form())
            &&& qc_good(fc, c.2)
            &&& c.0 matches Some(y) ==> good_starter(fc, y)
        }),
    decreases k,
{
    let df = fc.spec_decomp_form();
    let z = start_state();
    lemma_decompose_after_compose_prefix(x, df, k);
    if k == 0 {
        assert(x.take(0) =~= Seq::<CharAndCcc>::empty());
        let c = feed_from(z, x.take(0), true);
        assert(c.2 =~= Seq::<char>::empty());
    } else {
        lemma_composed_prefix_good(fc, x, k - 1);
        lemma_decompose_after_compose_prefix(x, df, k - 1);
        let e = x[k - 1];
        assert(final_entry(e, df));
        let xp = x.take(k - 1);
        assert(x.take(k) =~= xp + seq![e]);
        lemma_feed_concat(z, xp, seq![e], true);
        let cp = feed_from(z, xp, true);
        lemma_feed_one(cp.0, cp.1, e, true);
        let c = feed_from(z, x.take(k), true);
        if e.ccc != 0 {
            assert(c.2 =~= cp.2);
        } else if cp.1.len() == 0 && cp.0 is Some && spec_compose(cp.0->0, e.ch) is Some {
            lemma_composite_is_good_starter(fc, cp.0->0, e.ch);
            if fc == Form::Nfkc {
                lemma_compat_final_is_pure(e.ch);
            }
            assert(c.2 =~= cp.2);
        } else {
            let fl = flush_output(cp.0, cp.1, true);
            assert(c.2 =~= cp.2 + fl);
            lemma_composed_flush_good(fc, cp);
            if cp.2.len() > 0 && fl.len() > 0 {
                assert((cp.2 + fl)[cp.2.len() as int] == fl[0]);
                assert(good_starter(fc, fl[0]));
                assert(qc_ordered_at(fc, cp.2 + fl, cp.2.len() as int));
            }
            lemma_qc_good_concat(fc, cp.2, fl);
            lemma_final_starter_good(fc, e);
        }
    }
}

/// The output of a composing form (NFC, NFKC) is in normal form as its
/// quick check and its definitive check see it: the pipeline's output is never answered No, normalizing gives a
/// string the definitive check accepts, and a quick-check No means
/// normalization changes the string.
pub proof fn lemma_composed_output_is_normalized(fc: Form, s: Seq<char>)
    requires
        fc.spec_composes(),
    ensures
        spec_quick_check(fc, spec_normalize(fc, s)) != IsNormalized::No,
        spec_is_normalized(fc, normalized(fc, s)),
        spec_quick_check(fc, s) == IsNormalized::No ==> normalized(fc, s) != s,
{
    lemma_all_fully_decompose(s, fc.spec_decomp_form());
    let df = fc.spec_decomp_form();
    let z = start_state();
    let x = entry_stream(s, df);
    lemma_entry_stream_final(s, df);
    lemma_composed_prefix_good(fc, x, x.len() as int);
    assert(x.take(x.len() as int) =~= x);
    lemma_run_is_feed(fc, s);
    let c = feed_from(z, x, true);
    let rc = run_chars(fc, s);
    assert(c.2 =~= rc.2);
    let fl = flush_output(c.0, c.1, true);
    let t = spec_normalize(fc, s);
    assert(t == c.2 + fl);
    lemma_composed_flush_good(fc, c);
    if c.2.len() > 0 && fl.len() > 0 {
        assert((c.2 + fl)[c.2.len() as int] == fl[0]);
        assert(qc_ordered_at(fc, c.2 + fl, c.2.len() as int));
    }
    lemma_qc_good_concat(fc, c.2, fl);
    lemma_qc_good_not_no(fc, t, t.len() as int);
    assert(t.take(t.len() as int) =~= t);
    let fd = if fc == Form::Nfc {
        Form::Nfd
    } else {
        Form::Nfkd
    };
    lemma_composition_is_idempotent(fc, fd, s);
    if s.len() == 0 {
        assert(spec_quick_check(fc, s) == IsNormalized::Yes);
    }
}

/// Feeding only starters (decomposition-only forms): the run before them is
/// flushed, each starter but the last is emitted, and the last is pending.
pub proof fn lemma_feed_starters(starter: Option<char>, marks: Seq<CharAndCcc>, es: Seq<CharAndCcc>)
    requires
        es.len() >= 1,
        forall|i: int| 0 <= i < es.len() ==> (#[trigger] es[i]).ccc == 0,
    ensures
        feed_entries(starter, marks, es, false) == (
            Some(es.last().ch),
            Seq::<CharAndCcc>::empty(),
            flush_output(starter, marks, false) + entry_chars(es.drop_last()),
        ),
    decreases es.len(),
{
    let fl = flush_output(starter, marks, false);
    assert(es.last() == es[es.len() - 1]);
    assert(es.last().ccc == 0);
    if es.len() == 1 {
        assert(es.drop_last() =~= Seq::<CharAndCcc>::empty());
        assert(feed_entries(starter, marks, es.drop_last(), false) == (
            starter,
            marks,
            Seq::<char>::empty(),
        ));
        assert(entry_chars(es.drop_last()) =~= Seq::<char>::empty());
        assert(Seq::<char>::empty() + fl =~= fl + Seq::<char>::empty());
    } else {
        let t = es.drop_last();
        assert forall|i: int| 0 <= i < t.len() implies (#[trigger] t[i]).ccc == 0 by {
            assert(t[i] == es[i]);
        }
        lemma_feed_starters(starter, marks, t);
        assert(t.last() == es[es.len() - 2]);
        assert(es.last() == es[es.len() - 1]);
        assert(flush_output(Some(t.last().ch), Seq::<CharAndCcc>::empty(), false) =~= seq![
            t.last().ch,
        ]);
        assert(entry_chars(es.drop_last()) =~= entry_chars(t.drop_last()).push(t.last().ch));
        assert(fl + entry_chars(t.drop_last()) + seq![t.last().ch] =~= fl + entry_chars(
            es.drop_last(),
        ));
    }
}

/// After a stretch of passable characters `s[k..k2]` is handled by
/// flushing the run and copying the stretch (decomposition-only forms), the
/// loop's state matches the model after `k2` characters.
pub proof fn lemma_after_pass_nfd(
    form: Form,
    s: Seq<char>,
    out0: Seq<char>,
    k: int,
    k2: int,
    starter: Option<char>,
    marks: Seq<CharAndCcc>,
    out: Seq<char>,
)
    requires
        !form.spec_composes(),
        0 <= k < k2 <= s.len(),
        forall|j: int| k <= j < k2 ==> passable(#[trigger] s[j], form),
        state_matches(form, s, out0, k, starter, marks, out),
    ensures
        state_matches(
            form,
            s,
            out0,
            k2,
            None,
            Seq::<CharAndCcc>::empty(),
            out + flush_output(starter, marks, false) + s.subrange(k, k2),
        ),
{
    let r = run_chars(form, s.take(k));
    lemma_pass_segment(form, s, k, k2);
    if starter != r.0 {
        lemma_flush_without_starter(r.0->0, marks);
    }
    let r2 = run_chars(form, s.take(k2));
    assert(out + flush_output(starter, marks, false) + s.subrange(k, k2) =~= out0 + r2.2.push(
        s[k2 - 1],
    ));
}

/// After a stretch of ASCII characters `s[k..k2]` is handled in a composing
/// form by flushing the run, copying all of the stretch but its last
/// character and keeping that one as the starter, the loop's state matches
/// the model after `k2` characters.
pub proof fn lemma_after_pass_compose(
    form: Form,
    s: Seq<char>,
    out0: Seq<char>,
    k: int,
    k2: int,
    starter: Option<char>,
    marks: Seq<CharAndCcc>,
    out: Seq<char>,
)
    requires
        form.spec_composes(),
        0 <= k < k2 <= s.len(),
        forall|j: int| k <= j < k2 ==> passable(#[trigger] s[j], form),
        state_matches(form, s, out0, k, starter, marks, out),
    ensures
        state_matches(
            form,
            s,
            out0,
            k2,
            Some(s[k2 - 1]),
            Seq::<CharAndCcc>::empty(),
            out + flush_output(starter, marks, true) + s.subrange(k, k2 - 1),
        ),
{
    let r = run_chars(form, s.take(k));
    lemma_pass_segment(form, s, k, k2);
    let fl = flush_output(r.0, r.1, true);
    assert(out + fl + s.subrange(k, k2 - 1) =~= out0 + (r.2 + fl + s.subrange(k, k2 - 1)));
}

/// Processing the next character keeps the loop's state matched to the model.
pub proof fn lemma_after_process(
    form: Form,
    s: Seq<char>,
    out0: Seq<char>,
    k: int,
    starter: Option<char>,
    marks: Seq<CharAndCcc>,
    out: Seq<char>,
)
    requires
        0 <= k < s.len(),
        state_matches(form, s, out0, k, starter, marks, out),
    ensures
        ({
            let pc = process_char_spec(starter, marks, s[k], form);
            state_matches(form, s, out0, k + 1, pc.0, pc.1, out + pc.2)
        }),
{
    let r = run_chars(form, s.take(k));
    assert(s.take(k + 1).drop_last() =~= s.take(k));
    assert(s.take(k + 1).last() == s[k]);
    let pc = process_char_spec(starter, marks, s[k], form);
    if starter != r.0 {
        lemma_process_without_starter(r.0->0, marks, s[k], form);
        let a = process_char_spec(r.0, marks, s[k], form);
        if a.0 == pc.0 {
            assert(out + pc.2 =~= out0 + (r.2 + a.2));
        } else {
            assert(out + pc.2 =~= out0 + (r.2 + a.2).push(r.0->0));
        }
    } else {
        assert(out + pc.2 =~= out0 + (r.2 + pc.2));
    }
}

/// After a Hangul syllable `s[k]` is handled in a decomposition-only form by
/// flushing the run and writing out its jamo, the loop's state matches the
/// model after `k + 1` characters.
pub proof fn lemma_after_hangul(
    form: Form,
    s: Seq<char>,
    out0: Seq<char>,
    k: int,
    starter: Option<char>,
    marks: Seq<CharAndCcc>,
    out: Seq<char>,
)
    requires
        !form.spec_composes(),
        0 <= k < s.len(),
        hangul::spec_is_hangul_syllable(s[k]),
        state_matches(form, s, out0, k, starter, marks, out),
    ensures
        state_matches(
            form,
            s,
            out0,
            k + 1,
            None,
            Seq::<CharAndCcc>::empty(),
            out + flush_output(starter, marks, false) + hangul::hangul_decomposition(s[k]),
        ),
{
    let c = s[k];
    let r = run_chars(form, s.take(k));
    assert(s.take(k + 1).drop_last() =~= s.take(k));
    assert(s.take(k + 1).last() == c);
    let hd = hangul::hangul_decomposition(c);
    let es = decompose::as_starters(hd);
    assert(!(c as u32 <= 0x7F));
    assert(!decompose::spec_is_cjk_ideograph(c as u32));
    assert(!(c as u32 >= 0x3400 && quick_check::spec_is_cjk_unified(c as u32)));
    assert(decomposition_entries(c, form.spec_decomp_form()) == es);
    assert(hd.len() >= 2);
    assert forall|i: int| 0 <= i < es.len() implies (#[trigger] es[i]).ccc == 0 by {}
    lemma_feed_starters(r.0, r.1, es);
    assert(entry_chars(es.drop_last()).push(es.last().ch) =~= hd);
    if starter != r.0 {
        lemma_flush_without_starter(r.0->0, marks);
    }
    let r2 = run_chars(form, s.take(k + 1));
    assert(out + flush_output(starter, marks, false) + hd =~= out0 + r2.2.push(r2.0->0));
}

// ---------------------------------------------------------------------------
// NormState -- accumulation state for a starter + its combining marks
// ---------------------------------------------------------------------------

/// Accumulation state: the current starter and the combining marks after it.
pub struct NormState {
    /// The current starter character (CCC == 0) being accumulated.
    pub current_starter: Option<char>,
    /// Combining marks (CCC > 0) following the current starter, not yet sorted.
    pub ccc_buf: CccBuffer,
}

/// Append the characters of `entries` to `out`.
fn push_entry_chars(entries: &[CharAndCcc], out: &mut String)
    ensures
        final(out)@ == old(out)@ + entry_chars(entries@),
{
    let mut i: usize = 0;
    while i < entries.len()
        invariant
            i <= entries@.len(),
            out@ == old(out)@ + entry_chars(entries@.take(i as int)),
        decreases entries.len() - i,
    {
        string_push(out, entries[i].ch);
        proof {
            assert(entry_chars(entries@.take(i + 1)) =~= entry_chars(entries@.take(i as int)).push(
                entries@[i as int].ch,
            ));
        }
        i += 1;
    }
    proof {
        assert(entries@.take(entries@.len() as int) =~= entries@);
    }
}

impl NormState {
    /// The combining-mark buffer is well formed.
    pub open spec fn wf(&self) -> bool {
        self.ccc_buf.wf()
    }

    /// A state with no starter and no marks.
    pub fn new() -> (r: Self)
        ensures
            r.wf(),
            r.current_starter is None,
            r.ccc_buf@ == Seq::<CharAndCcc>::empty(),
    {
        NormState { current_starter: None, ccc_buf: CccBuffer::new() }
    }

    /// Flush the current accumulation (starter + combining marks) to `out`.
    ///
    /// If `composes` is true, applies canonical composition.
    pub fn flush(&mut self, out: &mut String, composes: bool)
        requires
            old(self).wf(),
        ensures
            final(self).wf(),
            final(self).current_starter is None,
            final(self).ccc_buf@ == Seq::<CharAndCcc>::empty(),
            final(out)@ == old(out)@ + flush_output(
                old(self).current_starter,
                old(self).ccc_buf@,
                composes,
            ),
    {
        let cur = self.current_starter;
        self.current_starter = None;
        let starter = match cur {
            Some(s) => s,
            None => {
                // No starter -- flush any orphan combining marks (leading combiners).
                if !self.ccc_buf.is_empty() {
                    self.ccc_buf.sort_in_place();
                    push_entry_chars(self.ccc_buf.as_slice(), out);
                    self.ccc_buf.clear();
                } else {
                    assert(entry_chars(sort_by_ccc(old(self).ccc_buf@)) =~= Seq::<char>::empty());
                    assert(out@ =~= old(out)@ + Seq::<char>::empty());
                }
                return;
            },
        };
        if self.ccc_buf.is_empty() {
            // Starter with no combining marks -- just emit it.
            string_push(out, starter);
            return;
        }
        // Sort combining marks by CCC in place.
        self.ccc_buf.sort_in_place();
        if composes {
            compose::compose_combining_sequence_into(starter, self.ccc_buf.as_slice(), out);
        } else {
            // Decomposition only: emit starter + sorted marks.
            string_push(out, starter);
            push_entry_chars(self.ccc_buf.as_slice(), out);
            assert(out@ =~= old(out)@ + (seq![starter] + entry_chars(sort_by_ccc(old(self).ccc_buf@))));
        }
        self.ccc_buf.clear();
    }

    /// Process a single character (after decomposition) into the accumulation state.
    ///
    /// Characters with CCC == 0 are starters. When a new starter arrives, the
    /// previous accumulation is flushed. In composition mode, starter-to-starter
    /// composition is attempted first (required for Hangul jamo L+V, LV+T).
    pub fn feed_entry(&mut self, ch: char, ccc: u8, out: &mut String, composes: bool)
        requires
            old(self).wf(),
        ensures
            final(self).wf(),
            final(self).current_starter == feed_step(
                old(self).current_starter,
                old(self).ccc_buf@,
                entry(ch, ccc),
                composes,
            ).0,
            final(self).ccc_buf@ == feed_step(
                old(self).current_starter,
                old(self).ccc_buf@,
                entry(ch, ccc),
                composes,
            ).1,
            final(out)@ == old(out)@ + feed_step(
                old(self).current_starter,
                old(self).ccc_buf@,
                entry(ch, ccc),
                composes,
            ).2,
    {
        if ccc == 0 {
            // New starter.
            if composes && self.ccc_buf.is_empty() {
                // No intervening combining marks -- try starter-to-starter composition.
                if let Some(prev) = self.current_starter {
                    if let Some(composed) = compose::compose(prev, ch) {
                        self.current_starter = Some(composed);
                        assert(out@ =~= old(out)@ + Seq::<char>::empty());
                        return;
                    }
                }
            }
            // Either not composing, has intervening marks, or composition failed.
            self.flush(out, composes);
            self.current_starter = Some(ch);
        } else {
            // Combining mark: add to buffer.
            self.ccc_buf.push(ch, ccc);
            assert(out@ =~= old(out)@ + Seq::<char>::empty());
        }
    }

    /// NFD-specialized flush: no composition logic.
    pub fn flush_nfd(&mut self, out: &mut String)
        requires
            old(self).wf(),
        ensures
            final(self).wf(),
            final(self).current_starter is None,
            final(self).ccc_buf@ == Seq::<CharAndCcc>::empty(),
            final(out)@ == old(out)@ + flush_output(
                old(self).current_starter,
                old(self).ccc_buf@,
                false,
            ),
    {
        let cur = self.current_starter;
        self.current_starter = None;
        let starter = match cur {
            Some(s) => s,
            None => {
                if !self.ccc_buf.is_empty() {
                    self.ccc_buf.sort_in_place();
                    push_entry_chars(self.ccc_buf.as_slice(), out);
                    self.ccc_buf.clear();
                } else {
                    assert(entry_chars(sort_by_ccc(old(self).ccc_buf@)) =~= Seq::<char>::empty());
                    assert(out@ =~= old(out)@ + Seq::<char>::empty());
                }
                return;
            },
        };
        // Fast path: single combining mark (most common for precomposed Latin).
        // Skip the sort (unnecessary for one element).
        if let Some(e) = self.ccc_buf.take_single_inline() {
            string_push(out, starter);
            string_push(out, e.ch);
            proof {
                let m = old(self).ccc_buf@;
                assert(m == seq![e]);
                reveal_with_fuel(sort_by_ccc, 2);
                assert(m.drop_last() =~= Seq::<CharAndCcc>::empty());
                assert(sort_by_ccc(m) =~= seq![e]);
                assert(entry_chars(seq![e]) =~= seq![e.ch]);
                assert(out@ =~= old(out)@ + (seq![starter] + entry_chars(sort_by_ccc(m))));
            }
            return;
        }
        if self.ccc_buf.is_empty() {
            string_push(out, starter);
            return;
        }
        // Multiple marks: sort and emit.
        self.ccc_buf.sort_in_place();
        string_push(out, starter);
        push_entry_chars(self.ccc_buf.as_slice(), out);
        assert(out@ =~= old(out)@ + (seq![starter] + entry_chars(sort_by_ccc(old(self).ccc_buf@))));
        self.ccc_buf.clear();
    }

    /// NFD-specialized feed_entry: no composition checks.
    pub fn feed_entry_nfd(&mut self, ch: char, ccc: u8, out: &mut String)
        requires
            old(self).wf(),
        ensures
            final(self).wf(),
            final(self).current_starter == feed_step(
                old(self).current_starter,
                old(self).ccc_buf@,
                entry(ch, ccc),
                false,
            ).0,
            final(self).ccc_buf@ == feed_step(
                old(self).current_starter,
                old(self).ccc_buf@,
                entry(ch, ccc),
                false,
            ).1,
            final(out)@ == old(out)@ + feed_step(
                old(self).current_starter,
                old(self).ccc_buf@,
                entry(ch, ccc),
                false,
            ).2,
    {
        if ccc == 0 {
            self.flush_nfd(out);
            self.current_starter = Some(ch);
        } else {
            self.ccc_buf.push(ch, ccc);
            assert(out@ =~= old(out)@ + Seq::<char>::empty());
        }
    }
}

// ---------------------------------------------------------------------------
// process_char -- decompose a char and feed entries to NormState
// ---------------------------------------------------------------------------

/// Check if a code point is a CJK Unified Ideograph (CCC=0, no decomposition,
/// no composition). These can bypass the entire decompose pipeline.
pub fn is_cjk_unified(cp: u32) -> (r: bool)
    ensures
        r == quick_check::spec_is_cjk_unified(cp),
{
    (0x4E00 <= cp && cp <= 0x9FFF) || (0x3400 <= cp && cp <= 0x4DBF)
}

/// Decompose a character and feed each resulting entry into the accumulation state.
pub fn process_char(
    ch: char,
    state: &mut NormState,
    out: &mut String,
    form: Form,
    decomp_buf: &mut CccBuffer,
)
    requires
        old(state).wf(),
        old(decomp_buf).wf(),
    ensures
        final(state).wf(),
        final(decomp_buf).wf(),
        final(state).current_starter == process_char_spec(
            old(state).current_starter,
            old(state).ccc_buf@,
            ch,
            form,
        ).0,
        final(state).ccc_buf@ == process_char_spec(
            old(state).current_starter,
            old(state).ccc_buf@,
            ch,
            form,
        ).1,
        final(out)@ == old(out)@ + process_char_spec(
            old(state).current_starter,
            old(state).ccc_buf@,
            ch,
            form,
        ).2,
        fully_decomposes(ch, form.spec_decomp_form()),
{
    let cp = ch as u32;
    let composes = form.composes();
    // Fast path: CJK ideographs never decompose, have CCC=0, and never
    // participate in canonical composition.
    if cp >= 0x3400 && is_cjk_unified(cp) {
        state.flush(out, composes);
        state.current_starter = Some(ch);
        assert(final_entry(decomposition_entries(ch, form.spec_decomp_form())[0], form.spec_decomp_form()));
        return;
    }
    // Everything else goes through the decomposition engine (Hangul
    // syllables algorithmically, the rest through the decomposition data).
    decomp_buf.clear();
    decompose::decompose(ch, decomp_buf, form.decomp_form());
    let ghost es = decomp_buf@;
    assert(es =~= decomposition_entries(ch, form.spec_decomp_form()));
    let entries = decomp_buf.as_slice();
    let ghost st0 = state.current_starter;
    let ghost m0 = state.ccc_buf@;
    let ghost out0 = out@;
    let mut i: usize = 0;
    while i < entries.len()
        invariant
            i <= entries@.len(),
            entries@ == es,
            state.wf(),
            composes == form.spec_composes(),
            state.current_starter == feed_entries(st0, m0, es.take(i as int), composes).0,
            state.ccc_buf@ == feed_entries(st0, m0, es.take(i as int), composes).1,
            out@ == out0 + feed_entries(st0, m0, es.take(i as int), composes).2,
        decreases entries.len() - i,
    {
        let e = entries[i];
        proof {
            assert(es.take(i + 1).drop_last() =~= es.take(i as int));
            assert(es.take(i + 1).last() == e);
            assert(entry(e.ch, e.ccc) == e);
        }
        let ghost out_before = out@;
        state.feed_entry(e.ch, e.ccc, out, composes);
        proof {
            let prev = feed_entries(st0, m0, es.take(i as int), composes);
            let step = feed_step(prev.0, prev.1, e, composes);
            assert(out@ =~= out0 + (prev.2 + step.2));
        }
        i += 1;
    }
    proof {
        assert(es.take(es.len() as int) =~= es);
    }
}

// ---------------------------------------------------------------------------
// Per-code-point decode pipeline
// ---------------------------------------------------------------------------

/// Which decomposition, if any, was looked up for a code point.
#[derive(Clone, Copy, Debug, PartialEq, Eq, Structural)]
enum DecompKind {
    /// The code point maps to itself and passes through with its own class.
    SelfMapping,
    /// Its canonical decomposition (NFC/NFD) was looked up.
    Canonical,
    /// Its compatibility decomposition (NFKC/NFKD) was looked up.
    Compat,
}

/// A code point decoded at a byte position, together with its combining
/// class and its decomposition, looked up once.
struct DecodedCodepoint {
    /// The decoded character.
    ch: char,
    /// UTF-8 byte length, in `1..=4`.
    cp_len: u8,
    /// Canonical combining class of the character (0 for starters).
    ccc: u8,
    /// Which decomposition was looked up.
    decomp_kind: DecompKind,
    /// The (character, class) entries of a decomposition into several
    /// characters; empty otherwise.
    decomp: CccBuffer,
    /// The target of a decomposition into a single other character.
    singleton: Option<char>,
}

impl DecodedCodepoint {
    /// The record describes its character in `form`: its class is the data's
    /// (0 for ASCII, CJK ideographs and Hangul jamo), it is a
    /// self-mapping exactly when the character decomposes to itself, and
    /// what it carries is exactly the decomposition the model feeds for that
    /// character.
    spec fn describes(&self, form: Form) -> bool {
        let es = decomposition_entries(self.ch, form.spec_decomp_form());
        &&& self.decomp.wf()
        &&& 1 <= self.cp_len <= 4
        &&& self.ccc == (if decompose::spec_maps_to_itself(self.ch as u32) {
            0
        } else {
            crate::tables::canonical_combining_class_of(self.ch)
        })
        &&& (self.decomp_kind == DecompKind::SelfMapping <==> es == seq![entry(self.ch, self.ccc)])
        &&& match self.decomp_kind {
            DecompKind::SelfMapping => es == seq![entry(self.ch, self.ccc)],
            DecompKind::Canonical => form.spec_decomp_form() == DecompForm::Canonical,
            DecompKind::Compat => form.spec_decomp_form() == DecompForm::Compatible,
        }
        &&& self.decomp_kind != DecompKind::SelfMapping ==> match self.singleton {
            Some(t) => es == seq![entry(t, decompose::char_ccc(t))],
            None => self.decomp@ == es,
        }
    }
}

/// Decode the character whose UTF-8 sequence starts at `idx` and look up its
/// combining class and decomposition in one pass.
fn decode_at(bytes: &[u8], idx: usize, form: Form) -> (dc: DecodedCodepoint)
    requires
        idx < bytes@.len(),
        vstd::utf8::valid_first_scalar(bytes@.subrange(idx as int, bytes@.len() as int)),
    ensures
        dc.ch as u32 == vstd::utf8::decode_first_scalar(
            bytes@.subrange(idx as int, bytes@.len() as int),
        ),
        dc.cp_len == vstd::utf8::length_of_first_scalar(
            bytes@.subrange(idx as int, bytes@.len() as int),
        ),
        dc.describes(form),
        fully_decomposes(dc.ch, form.spec_decomp_form()),
{
    let (ch, width) = utf8::decode_char_at(bytes, idx);
    let cp_len = width as u8;
    let cp = ch as u32;
    let decomp_form = form.decomp_form();
    let kind = match decomp_form {
        DecompForm::Canonical => DecompKind::Canonical,
        DecompForm::Compatible => DecompKind::Compat,
    };
    // ASCII and CJK unified ideographs: no decomposition, class 0.
    if decompose::maps_to_itself(cp) {
        assert(decomposition_entries(ch, decomp_form) == seq![entry(ch, 0)]);
        assert(decomposition_entries(ch, decomp_form)[0] == entry(ch, 0));
        assert(is_decomposed_char(ch, decomp_form));
        assert(final_entry(decomposition_entries(ch, decomp_form)[0], decomp_form));
        return DecodedCodepoint {
            ch,
            cp_len,
            ccc: 0,
            decomp_kind: DecompKind::SelfMapping,
            decomp: CccBuffer::new(),
            singleton: None,
        };
    }
    // Everything else, Hangul syllables included, through the decomposition
    // data.
    let (d, ccc) = decompose::lookup_decomp(ch, decomp_form);
    let ghost es = decomposition_entries(ch, decomp_form);
    assert(es == decompose::with_classes(d@));
    if d.len() == 1 && d[0] == ch {
        assert(es =~= seq![entry(ch, ccc)]);
        return DecodedCodepoint {
            ch,
            cp_len,
            ccc,
            decomp_kind: DecompKind::SelfMapping,
            decomp: CccBuffer::new(),
            singleton: None,
        };
    }
    if d.len() == 1 {
        let target = d[0];
        assert(es =~= seq![entry(target, decompose::char_ccc(target))]);
        assert(target != ch);
        assert(es[0] != entry(ch, ccc));
        return DecodedCodepoint {
            ch,
            cp_len,
            ccc,
            decomp_kind: kind,
            decomp: CccBuffer::new(),
            singleton: Some(target),
        };
    }
    let mut decomp = CccBuffer::new();
    decompose::decode_expansion(d.as_slice(), &mut decomp);
    assert(decomp@ =~= es);
    DecodedCodepoint { ch, cp_len, ccc, decomp_kind: kind, decomp, singleton: None }
}

/// Feeding a single entry is one feed step.
proof fn lemma_feed_one(starter: Option<char>, marks: Seq<CharAndCcc>, e: CharAndCcc, composes: bool)
    ensures
        feed_entries(starter, marks, seq![e], composes) == feed_step(starter, marks, e, composes),
{
    assert(seq![e].drop_last() =~= Seq::<CharAndCcc>::empty());
    assert(seq![e].last() == e);
    assert(feed_entries(starter, marks, Seq::<CharAndCcc>::empty(), composes) == (
        starter,
        marks,
        Seq::<char>::empty(),
    ));
    let f = feed_step(starter, marks, e, composes);
    assert(Seq::<char>::empty() + f.2 =~= f.2);
}

/// Feed the entries of a decomposition into `state`, left to right.
///
/// In the decomposition-only forms, the common "starter + one more entry"
/// expansion (precomposed Latin, Greek, Cyrillic) is handled directly.
fn feed_expansion(decomp: &[CharAndCcc], state: &mut NormState, out: &mut String, composes: bool)
    requires
        old(state).wf(),
    ensures
        final(state).wf(),
        final(state).current_starter == feed_entries(
            old(state).current_starter,
            old(state).ccc_buf@,
            decomp@,
            composes,
        ).0,
        final(state).ccc_buf@ == feed_entries(
            old(state).current_starter,
            old(state).ccc_buf@,
            decomp@,
            composes,
        ).1,
        final(out)@ == old(out)@ + feed_entries(
            old(state).current_starter,
            old(state).ccc_buf@,
            decomp@,
            composes,
        ).2,
{
    let ghost st0 = state.current_starter;
    let ghost m0 = state.ccc_buf@;
    let ghost out0 = out@;
    if !composes && decomp.len() == 2 {
        let e0 = decomp[0];
        if e0.ccc == 0 {
            // Starter + (any second entry).
            state.flush_nfd(out);
            state.current_starter = Some(e0.ch);
            let e1 = decomp[1];
            if e1.ccc != 0 {
                state.ccc_buf.push(e1.ch, e1.ccc);
            } else {
                state.feed_entry_nfd(e1.ch, 0, out);
            }
            proof {
                let es = decomp@;
                assert(es.drop_last() =~= seq![e0]);
                assert(es.last() == e1);
                assert(entry(e1.ch, e1.ccc) == e1);
                lemma_feed_one(st0, m0, e0, false);
                let p = feed_entries(st0, m0, es.drop_last(), false);
                assert(p == (Some(e0.ch), Seq::<CharAndCcc>::empty(), flush_output(st0, m0, false)));
                if e1.ccc == 0 {
                    assert(flush_output(Some(e0.ch), Seq::<CharAndCcc>::empty(), false) =~= seq![e0.ch]);
                    assert(out@ =~= out0 + (p.2 + feed_step(p.0, p.1, e1, false).2));
                } else {
                    assert(Seq::<CharAndCcc>::empty().push(e1) =~= seq![e1]);
                    assert(state.ccc_buf@ =~= seq![e1]);
                    assert(out@ =~= out0 + (p.2 + Seq::<char>::empty()));
                }
            }
            return;
        }
    }
    let mut i: usize = 0;
    while i < decomp.len()
        invariant
            i <= decomp@.len(),
            state.wf(),
            state.current_starter == feed_entries(st0, m0, decomp@.take(i as int), composes).0,
            state.ccc_buf@ == feed_entries(st0, m0, decomp@.take(i as int), composes).1,
            out@ == out0 + feed_entries(st0, m0, decomp@.take(i as int), composes).2,
        decreases decomp.len() - i,
    {
        let e = decomp[i];
        proof {
            assert(decomp@.take(i + 1).drop_last() =~= decomp@.take(i as int));
            assert(decomp@.take(i + 1).last() == e);
            assert(entry(e.ch, e.ccc) == e);
        }
        if composes {
            state.feed_entry(e.ch, e.ccc, out, true);
        } else {
            state.feed_entry_nfd(e.ch, e.ccc, out);
        }
        proof {
            let prev = feed_entries(st0, m0, decomp@.take(i as int), composes);
            let step = feed_step(prev.0, prev.1, e, composes);
            assert(out@ =~= out0 + (prev.2 + step.2));
        }
        i += 1;
    }
    proof {
        assert(decomp@.take(decomp@.len() as int) =~= decomp@);
    }
}

/// Feed a decomposition into a single other character: the target is final,
/// so only its combining class is looked up.
fn feed_singleton(target: char, state: &mut NormState, out: &mut String, composes: bool)
    requires
        old(state).wf(),
    ensures
        final(state).wf(),
        ({
            let e = entry(target, decompose::char_ccc(target));
            let r = feed_step(old(state).current_starter, old(state).ccc_buf@, e, composes);
            &&& final(state).current_starter == r.0
            &&& final(state).ccc_buf@ == r.1
            &&& final(out)@ == old(out)@ + r.2
        }),
{
    let ccc = if (target as u32) <= 0x7F {
        0
    } else {
        tables::lookup_ccc(target)
    };
    if composes {
        state.feed_entry(target, ccc, out, true);
    } else {
        state.feed_entry_nfd(target, ccc, out);
    }
}

/// Feed a combining mark (class above 0) into `state`.
fn feed_combining_mark(ch: char, ccc: u8, state: &mut NormState, out: &mut String, composes: bool)
    requires
        old(state).wf(),
    ensures
        final(state).wf(),
        ({
            let r = feed_step(old(state).current_starter, old(state).ccc_buf@, entry(ch, ccc), composes);
            &&& final(state).current_starter == r.0
            &&& final(state).ccc_buf@ == r.1
            &&& final(out)@ == old(out)@ + r.2
        }),
{
    if composes {
        state.feed_entry(ch, ccc, out, true);
    } else {
        state.feed_entry_nfd(ch, ccc, out);
    }
}

/// Drive a decoded code point through the accumulation state, with the same
/// effect as `process_char` on its character.
fn process_codepoint(dc: &DecodedCodepoint, state: &mut NormState, out: &mut String, form: Form)
    requires
        old(state).wf(),
        dc.describes(form),
    ensures
        final(state).wf(),
        final(state).current_starter == process_char_spec(
            old(state).current_starter,
            old(state).ccc_buf@,
            dc.ch,
            form,
        ).0,
        final(state).ccc_buf@ == process_char_spec(
            old(state).current_starter,
            old(state).ccc_buf@,
            dc.ch,
            form,
        ).1,
        final(out)@ == old(out)@ + process_char_spec(
            old(state).current_starter,
            old(state).ccc_buf@,
            dc.ch,
            form,
        ).2,
{
    let composes = form.composes();
    let ch = dc.ch;
    let cp = ch as u32;
    let ghost es = decomposition_entries(ch, form.spec_decomp_form());
    // CJK unified ideographs start a new run directly.
    if cp >= 0x3400 && is_cjk_unified(cp) {
        state.flush(out, composes);
        state.current_starter = Some(ch);
        return;
    }
    proof {
        assert(process_char_spec(state.current_starter, state.ccc_buf@, ch, form) == feed_entries(
            state.current_starter,
            state.ccc_buf@,
            es,
            composes,
        ));
    }
    match dc.decomp_kind {
        DecompKind::SelfMapping => {
            proof {
                lemma_feed_one(state.current_starter, state.ccc_buf@, entry(ch, dc.ccc), composes);
            }
            if dc.ccc == 0 {
                if composes {
                    state.feed_entry(ch, 0, out, true);
                } else {
                    state.feed_entry_nfd(ch, 0, out);
                }
            } else {
                feed_combining_mark(ch, dc.ccc, state, out, composes);
            }
        },
        DecompKind::Canonical | DecompKind::Compat => {
            match dc.singleton {
                Some(target) => {
                    proof {
                        lemma_feed_one(
                            state.current_starter,
                            state.ccc_buf@,
                            entry(target, decompose::char_ccc(target)),
                            composes,
                        );
                    }
                    feed_singleton(target, state, out, composes);
                },
                None => {
                    feed_expansion(dc.decomp.as_slice(), state, out, composes);
                },
            }
        },
    }
}

/// Compose-mode passthrough flush: copy a run of ASCII characters, keeping
/// the last one as the state's starter so that a following combining mark
/// still sees it.
fn flush_compose_passthrough(
    input: &str,
    a: usize,
    b: usize,
    state: &mut NormState,
    out: &mut String,
    Ghost(i): Ghost<int>,
    Ghost(j): Ghost<int>,
)
    requires
        old(state).wf(),
        old(state).current_starter is None,
        old(state).ccc_buf@ == Seq::<CharAndCcc>::empty(),
        0 <= i < j <= input@.len(),
        a == char_start(input@, i),
        b == char_start(input@, j),
        forall|m: int| i <= m < j ==> (#[trigger] input@[m] as u32) < 0x80,
    ensures
        final(state).wf(),
        final(state).current_starter == Some(input@[j - 1]),
        final(state).ccc_buf@ == Seq::<CharAndCcc>::empty(),
        final(out)@ == old(out)@ + input@.subrange(i, j - 1),
{
    let ghost sq = input@;
    let bytes = input.as_bytes();
    proof {
        lemma_char_position(sq, j - 1);
        lemma_scalar_bytes(sq[j - 1]);
        lemma_char_bytes_in_string(sq, j - 1);
        lemma_char_start_bounds(sq, j - 1);
        lemma_char_start_bounds(sq, j);
        assert(char_start(sq, j - 1) == b - 1);
        if i < j - 1 {
            assert(char_start(sq, i) < char_start(sq, j - 1));
        }
    }
    let n = b - a;
    if n > 1 {
        push_str_range(input, a, b - 1, out, Ghost(i), Ghost(j - 1));
    } else {
        assert(sq.subrange(i, j - 1) =~= Seq::<char>::empty());
        assert(out@ =~= old(out)@ + sq.subrange(i, j - 1));
    }
    let last_ch = bytes[b - 1] as char;
    proof {
        vstd::utf8::char_u32_cast(last_ch, last_ch as u32);
        vstd::utf8::char_u32_cast(sq[j - 1], sq[j - 1] as u32);
        assert(last_ch == sq[j - 1]);
        assert(entry_chars(sort_by_ccc(Seq::<CharAndCcc>::empty())) =~= Seq::<char>::empty());
    }
    let ghost before = out@;
    state.feed_entry(last_ch, 0, out, true);
    assert(out@ =~= before);
}

/// What the scan knows at byte `f`: the `k` characters before
/// `last_written` are in the model, the loop's state matches the model, and
/// every later character that starts before `f` is passable.
pub open spec fn scan_inv(
    form: Form,
    s: Seq<char>,
    out0: Seq<char>,
    k: int,
    lw: int,
    f: int,
    starter: Option<char>,
    marks: Seq<CharAndCcc>,
    out: Seq<char>,
) -> bool {
    &&& 0 <= k <= s.len()
    &&& lw == char_start(s, k)
    &&& state_matches(form, s, out0, k, starter, marks, out)
    &&& forall|j: int| k <= j < s.len() && char_start(s, j) < f ==> passable(#[trigger] s[j], form)
    &&& forall|j: int| 0 <= j < k ==> #[trigger] fully_decomposes(s[j], form.spec_decomp_form())
}

/// A passable character's decomposition is complete: it is itself.
proof fn lemma_passable_fully_decomposes(c: char, form: Form)
    requires
        passable(c, form),
    ensures
        fully_decomposes(c, form.spec_decomp_form()),
{
    let df = form.spec_decomp_form();
    assert(decomposition_entries(c, df) == seq![entry(c, 0)]);
    assert(final_entry(decomposition_entries(c, df)[0], df));
}

/// Bytes below 0xC0 start no character but ASCII ones, so a stretch of them
/// moves the frontier of passable characters across it.
pub proof fn lemma_extend_frontier(form: Form, s: Seq<char>, k: int, f: int, g: int)
    requires
        0 <= k <= s.len(),
        forall|j: int| k <= j < s.len() && char_start(s, j) < f ==> passable(#[trigger] s[j], form),
        forall|i: int| f <= i < g && i < encode_utf8(s).len() ==> #[trigger] encode_utf8(s)[i] < 0xC0,
    ensures
        forall|j: int| k <= j < s.len() && char_start(s, j) < g ==> passable(#[trigger] s[j], form),
{
    assert forall|j: int| k <= j < s.len() && char_start(s, j) < g implies passable(
        #[trigger] s[j],
        form,
    ) by {
        if char_start(s, j) >= f {
            lemma_char_start_bounds(s, j);
            lemma_char_bytes_in_string(s, j);
            assert(encode_utf8(s)[char_start(s, j)] < 0xC0);
        }
    }
}

/// Flushing the state and copying the remaining passable characters
/// produces the whole normalized output.
#[verifier::spinoff_prover]
#[verifier::rlimit(40)]
pub proof fn lemma_final_output(
    form: Form,
    s: Seq<char>,
    out0: Seq<char>,
    k: int,
    starter: Option<char>,
    marks: Seq<CharAndCcc>,
    out: Seq<char>,
)
    requires
        scan_inv(
            form,
            s,
            out0,
            k,
            char_start(s, k),
            encode_utf8(s).len() as int,
            starter,
            marks,
            out,
        ),
    ensures
        out + flush_output(starter, marks, form.spec_composes()) + s.subrange(k, s.len() as int)
            == out0 + spec_normalize(form, s),
        forall|j: int| 0 <= j < s.len() ==> #[trigger] fully_decomposes(s[j], form.spec_decomp_form()),
{
    let c = form.spec_composes();
    let r = run_chars(form, s.take(k));
    assert(s.take(s.len() as int) =~= s);
    lemma_char_start_bounds(s, s.len() as int);
    assert forall|j: int| 0 <= j < s.len() implies #[trigger] fully_decomposes(
        s[j],
        form.spec_decomp_form(),
    ) by {
        if j >= k {
            lemma_char_start_bounds(s, j);
            assert(passable(s[j], form));
            lemma_passable_fully_decomposes(s[j], form);
        }
    }
    assert forall|j: int| k <= j < s.len() implies passable(#[trigger] s[j], form) by {
        lemma_char_start_bounds(s, j);
    }
    if starter != r.0 {
        lemma_flush_without_starter(r.0->0, marks);
    }
    let fl = flush_output(r.0, r.1, c);
    assert(out + flush_output(starter, marks, c) == out0 + r.2 + fl);
    if k == s.len() {
        assert(s.subrange(k, k) =~= Seq::<char>::empty());
        assert(out0 + r.2 + fl + Seq::<char>::empty() =~= out0 + (r.2 + fl));
    } else {
        lemma_pass_segment(form, s, k, s.len() as int);
        let n = s.len() as int;
        assert(flush_output(Some(s[n - 1]), Seq::<CharAndCcc>::empty(), c) =~= seq![s[n - 1]]);
        assert(out0 + r.2 + fl + s.subrange(k, n) =~= out0 + (r.2 + fl + s.subrange(k, n - 1) + seq![
            s[n - 1],
        ]));
    }
}

/// Handle the character whose leading byte is at `byte_pos`: copy the
/// passable characters before it, then either pass it through
/// (decomposition-only forms, characters that decompose to themselves),
/// write out its jamo (Hangul syllables, decomposition-only forms), or run
/// it through the accumulation state. Returns the number of characters now
/// in the model.
#[verifier::spinoff_prover]
#[verifier::rlimit(40)]
fn process_flagged(
    input: &str,
    byte_pos: usize,
    form: Form,
    state: &mut NormState,
    out: &mut String,
    last_written: &mut usize,
    Ghost(k): Ghost<int>,
    Ghost(out0): Ghost<Seq<char>>,
) -> (r: (Ghost<int>, usize))
    requires
        old(state).wf(),
        byte_pos < encode_utf8(input@).len(),
        byte_pos >= *old(last_written),
        !vstd::utf8::is_continuation_byte(encode_utf8(input@)[byte_pos as int]),
        scan_inv(
            form,
            input@,
            out0,
            k,
            *old(last_written) as int,
            byte_pos as int,
            old(state).current_starter,
            old(state).ccc_buf@,
            old(out)@,
        ),
    ensures
        final(state).wf(),
        1 <= r.1 <= 4,
        byte_pos + r.1 <= encode_utf8(input@).len(),
        scan_inv(
            form,
            input@,
            out0,
            r.0@,
            *final(last_written) as int,
            byte_pos + r.1,
            final(state).current_starter,
            final(state).ccc_buf@,
            final(out)@,
        ),
        *old(last_written) <= *final(last_written) <= byte_pos + 4,
{
    let ghost s = input@;
    let bytes = input.as_bytes();
    let blen = bytes.len();
    let lw = *last_written;
    let ghost mut kk: int = 0;
    proof {
        kk = lemma_find_char(s, k, byte_pos as int);
        lemma_char_start_bounds(s, s.len() as int);
        lemma_char_start_bounds(s, k);
        lemma_lead_byte_is_char_start(s, kk, byte_pos as int);
        lemma_char_position(s, kk);
        lemma_scalar_bytes(s[kk]);
        lemma_char_start_bounds(s, kk);
        lemma_char_start_bounds(s, kk + 1);
        assert(byte_pos > lw <==> kk > k);
        assert forall|j: int| k <= j < kk implies passable(#[trigger] s[j], form) by {}
    }
    let dc = decode_at(bytes, byte_pos, form);
    let ch = dc.ch;
    let width = dc.cp_len as usize;
    proof {
        vstd::utf8::char_u32_cast(ch, ch as u32);
        vstd::utf8::char_u32_cast(s[kk], s[kk] as u32);
        assert(ch == s[kk]);
        assert(byte_pos + width == char_start(s, kk + 1));
        assert(char_start(s, kk + 1) <= blen);
        assert forall|j: int| kk + 1 <= j < s.len() implies char_start(s, j) >= byte_pos + width by {
            lemma_char_start_bounds(s, j);
        }
        assert forall|j: int| 0 <= j < kk + 1 implies #[trigger] fully_decomposes(
            s[j],
            form.spec_decomp_form(),
        ) by {
            if k <= j < kk {
                assert(passable(s[j], form));
                lemma_passable_fully_decomposes(s[j], form);
            }
        }
    }
    let composes = form.composes();
    if !composes {
        // Hangul syllables: algorithmic decomposition, jamo written directly.
        if hangul::is_hangul_syllable(ch) {
            if byte_pos > lw {
                let ghost st0 = state.current_starter;
                let ghost m0 = state.ccc_buf@;
                let ghost o0 = out@;
                state.flush_nfd(out);
                push_str_range(input, lw, byte_pos, out, Ghost(k), Ghost(kk));
                proof {
                    lemma_after_pass_nfd(form, s, out0, k, kk, st0, m0, o0);
                }
            }
            *last_written = byte_pos + width;
            let ghost st1 = state.current_starter;
            let ghost m1 = state.ccc_buf@;
            let ghost o1 = out@;
            state.flush_nfd(out);
            let (l, v, t) = hangul::decompose_hangul(ch);
            string_push(out, l);
            string_push(out, v);
            match t {
                Some(t_char) => {
                    string_push(out, t_char);
                },
                None => {},
            }
            proof {
                lemma_after_hangul(form, s, out0, kk, st1, m1, o1);
                assert(out@ =~= o1 + flush_output(st1, m1, false) + hangul::hangul_decomposition(
                    s[kk],
                ));
            }
            return (Ghost(kk + 1), width);
        }
        // Non-decomposing starter: left in the passthrough run.
        if dc.decomp_kind == DecompKind::SelfMapping && dc.ccc == 0 {
            assert(passable(ch, form));
            proof {
                assert forall|j: int|
                    k <= j < s.len() && char_start(s, j) < byte_pos + width implies passable(
                    #[trigger] s[j],
                    form,
                ) by {
                    if char_start(s, j) >= byte_pos {
                        lemma_char_start_bounds(s, j);
                        if j < kk {
                            lemma_char_start_bounds(s, kk);
                        } else if j > kk {
                            lemma_char_start_bounds(s, j);
                        }
                        assert(j == kk);
                    }
                }
            }
            return (Ghost(k), width);
        }
        // Needs work: copy the passthrough run, then process.
        if byte_pos > lw {
            let ghost st0 = state.current_starter;
            let ghost m0 = state.ccc_buf@;
            let ghost o0 = out@;
            state.flush_nfd(out);
            push_str_range(input, lw, byte_pos, out, Ghost(k), Ghost(kk));
            proof {
                lemma_after_pass_nfd(form, s, out0, k, kk, st0, m0, o0);
            }
        }
        *last_written = byte_pos + width;
        let ghost st2 = state.current_starter;
        let ghost m2 = state.ccc_buf@;
        let ghost o2 = out@;
        process_codepoint(&dc, state, out, form);
        proof {
            lemma_after_process(form, s, out0, kk, st2, m2, o2);
        }
        return (Ghost(kk + 1), width);
    }
    // Compose mode: flush the state, copy the passthrough run (keeping its
    // last character as the starter), then process.
    if byte_pos > lw {
        let ghost st0 = state.current_starter;
        let ghost m0 = state.ccc_buf@;
        let ghost o0 = out@;
        state.flush(out, true);
        flush_compose_passthrough(input, lw, byte_pos, state, out, Ghost(k), Ghost(kk));
        proof {
            lemma_after_pass_compose(form, s, out0, k, kk, st0, m0, o0);
        }
    }
    *last_written = byte_pos + width;
    let ghost st2 = state.current_starter;
    let ghost m2 = state.ccc_buf@;
    let ghost o2 = out@;
    process_codepoint(&dc, state, out, form);
    proof {
        lemma_after_process(form, s, out0, kk, st2, m2, o2);
    }
    (Ghost(kk + 1), width)
}

/// Process every character of `input` and flush the last run into `out`.
fn run_pipeline(input: &str, form: Form, out: &mut String)
    ensures
        final(out)@ == old(out)@ + spec_normalize(form, input@),
        forall|j: int|
            0 <= j < input@.len() ==> #[trigger] fully_decomposes(input@[j], form.spec_decomp_form()),
{
    let composes = form.composes();
    let mut state = NormState::new();
    let mut decomp_buf = CccBuffer::new();
    let ghost s = input@;
    let ghost out0 = out@;
    assert(s.take(s.len() as int) =~= s);
    assert(s.take(0) =~= Seq::<char>::empty());
    for ch in it: input.chars()
        invariant
            it.seq() == s,
            s == input@,
            s.take(s.len() as int) == s,
            composes == form.spec_composes(),
            state.wf(),
            decomp_buf.wf(),
            state.current_starter == run_chars(form, s.take(it.index() as int)).0,
            state.ccc_buf@ == run_chars(form, s.take(it.index() as int)).1,
            out@ == out0 + run_chars(form, s.take(it.index() as int)).2,
            forall|j: int|
                0 <= j < it.index() ==> #[trigger] fully_decomposes(s[j], form.spec_decomp_form()),
    {
        let ghost i = it.index() as int;
        proof {
            assert(s.take(i + 1).drop_last() =~= s.take(i));
            assert(s.take(i + 1).last() == ch);
        }
        process_char(ch, &mut state, out, form, &mut decomp_buf);
        proof {
            let prev = run_chars(form, s.take(i));
            let step = process_char_spec(prev.0, prev.1, ch, form);
            assert(out@ =~= out0 + (prev.2 + step.2));
        }
    }
    // Flush any remaining state.
    if composes {
        state.flush(out, true);
    } else {
        state.flush_nfd(out);
    }
    assert(out@ =~= out0 + spec_normalize(form, s));
}

// ---------------------------------------------------------------------------
// normalize_scalar / normalize_impl
// ---------------------------------------------------------------------------

/// Normalize a string character by character.
///
/// Returns `Cow::Borrowed` exactly when the result equals the input.
pub fn normalize_scalar<'a>(input: &'a str, form: Form) -> (r: Cow<'a, str>)
    ensures
        r@ == normalized(form, input@),
        r is Borrowed <==> r@ == input@,
        input@.len() > 0 && spec_quick_check(form, input@) != IsNormalized::Yes ==> forall|j: int|
            0 <= j < input@.len() ==> #[trigger] fully_decomposes(input@[j], form.spec_decomp_form()),
{
    if input.is_empty() {
        return Cow::Borrowed(input);
    }
    // Quick-check: if the string is definitely already normalized, return early.
    if form.quick_check(input) == IsNormalized::Yes {
        return Cow::Borrowed(input);
    }
    let mut out = string_with_capacity(input.len());
    run_pipeline(input, form, &mut out);
    if str_eq(out.as_str(), input) {
        Cow::Borrowed(input)
    } else {
        Cow::Owned(out)
    }
}

/// Core normalization function.
///
/// Short inputs go to [`normalize_scalar`]. Longer ones are quick-checked
/// once; then 64-byte chunks are scanned for bytes at or above the form's
/// passthrough bound. Chunks without one are left in the passthrough run;
/// in the others each flagged character is handled by [`process_flagged`],
/// which copies the passthrough run before it. A scalar walk covers the
/// tail. Returns `Cow::Borrowed` exactly when the result equals the input.
pub fn normalize_impl<'a>(input: &'a str, form: Form) -> (r: Cow<'a, str>)
    ensures
        r@ == normalized(form, input@),
        r is Borrowed <==> r@ == input@,
        input@.len() > 0 && spec_quick_check(form, input@) != IsNormalized::Yes ==> forall|j: int|
            0 <= j < input@.len() ==> #[trigger] fully_decomposes(input@[j], form.spec_decomp_form()),
{
    let bytes = input.as_bytes();
    let len = bytes.len();
    // Short inputs: use the scalar path directly (includes the quick check).
    if len < 64 {
        return normalize_scalar(input, form);
    }
    // Single upfront quick-check. If definitely normalized, return early.
    let qc = form.quick_check(input);
    if qc == IsNormalized::Yes {
        return Cow::Borrowed(input);
    }
    let bound = form.passthrough_bound();
    let composes = form.composes();
    let cap = if len <= usize::MAX / 2 {
        form.estimated_capacity(len)
    } else {
        len
    };
    let mut out = string_with_capacity(cap);
    let ghost s = input@;
    let ghost out0 = out@;
    let mut last_written: usize = 0;
    let mut state = NormState::new();
    let mut pos: usize = 0;
    let ghost mut k: int = 0;
    proof {
        lemma_char_start_bounds(s, 0);
        lemma_char_start_bounds(s, s.len() as int);
        assert(s.take(0) =~= Seq::<char>::empty());
        assert(out@ =~= out0 + Seq::<char>::empty());
    }
    // Chunk loop.
    while len - pos >= 64
        invariant
            bytes@ == encode_utf8(s),
            s == input@,
            len == bytes@.len(),
            pos <= len,
            last_written <= len,
            bound == 0xC0,
            composes == form.spec_composes(),
            state.wf(),
            scan_inv(
                form,
                s,
                out0,
                k,
                last_written as int,
                pos as int,
                state.current_starter,
                state.ccc_buf@,
                out@,
            ),
        decreases len - pos,
    {
        let chunk_start = pos;
        let chunk = vstd::slice::slice_subrange(bytes, pos, pos + 64);
        let prefetch_l1 = pos.wrapping_add(simd::PREFETCH_L1_DISTANCE * simd::CHUNK_SIZE);
        let prefetch_l2 = pos.wrapping_add(simd::PREFETCH_L2_DISTANCE * simd::CHUNK_SIZE);
        let mask = simd::scan_and_prefetch(chunk, prefetch_l1, prefetch_l2, bound);
        proof {
            assert forall|i: u64| i < 64 implies (#[trigger] bit_set(mask, i) <==> bytes@[pos + i]
                >= bound) by {
                assert(chunk@[i as int] == bytes@[pos + i]);
            }
        }
        if mask == 0 {
            // All passthrough: no bytes >= bound in this chunk.
            proof {
                assert forall|i: int|
                    pos <= i < pos + 64 && i < encode_utf8(s).len() implies #[trigger] encode_utf8(
                    s,
                )[i] < 0xC0 by {
                    lemma_zero_bits((i - pos) as u64);
                    assert(!bit_set(mask, (i - pos) as u64));
                }
                lemma_extend_frontier(form, s, k, pos as int, pos + 64);
            }
            pos += 64;
            continue;
        }
        // Walk set bits in the mask: each marks a leading byte >= bound.
        let mut chunk_mask = mask;
        let ghost mut lo: int = 0;
        while chunk_mask != 0
            invariant
                bytes@ == encode_utf8(s),
                s == input@,
                len == bytes@.len(),
                chunk_start == pos,
                pos + 64 <= len,
                last_written <= len,
                bound == 0xC0,
                composes == form.spec_composes(),
                state.wf(),
                forall|i: u64| i < 64 ==> (#[trigger] bit_set(mask, i) <==> bytes@[pos + i] >= bound),
                0 <= lo <= 64,
                forall|i: u64|
                    i < 64 ==> (#[trigger] bit_set(chunk_mask, i) <==> (bit_set(mask, i) && i
                        >= lo)),
                scan_inv(
                    form,
                    s,
                    out0,
                    k,
                    last_written as int,
                    pos + lo,
                    state.current_starter,
                    state.ccc_buf@,
                    out@,
                ),
            decreases chunk_mask,
        {
            proof {
                lemma_clear_lowest_bit(chunk_mask);
            }
            let tz = chunk_mask.trailing_zeros();
            let bit_pos = tz as usize;
            let ghost t = tz as u64;
            let ghost lo_old = lo;
            let ghost cm_old = chunk_mask;
            chunk_mask = chunk_mask & (chunk_mask - 1);
            let byte_pos = chunk_start + bit_pos;
            proof {
                assert(bit_set(cm_old, t));
                assert(bit_set(mask, t) && t >= lo_old);
                assert forall|i: u64| i < 64 implies (#[trigger] bit_set(chunk_mask, i) <==> (
                bit_set(mask, i) && i >= t + 1)) by {
                    assert(bit_set(chunk_mask, i) <==> (bit_set(cm_old, i) && i != t));
                }
                // The bytes between the frontier and this one are not flagged.
                assert forall|i: int|
                    pos + lo_old <= i < byte_pos && i < encode_utf8(s).len() implies #[trigger] encode_utf8(
                    s,
                )[i] < 0xC0 by {
                    let j = (i - pos) as u64;
                    assert(!bit_set(cm_old, j));
                    assert(!bit_set(mask, j));
                }
                lemma_extend_frontier(form, s, k, pos + lo_old, byte_pos as int);
                lo = t + 1;
            }
            // Skip if we already processed past this position.
            if byte_pos < last_written {
                proof {
                    assert forall|j: int|
                        k <= j < s.len() && char_start(s, j) < byte_pos + 1 implies passable(
                        #[trigger] s[j],
                        form,
                    ) by {
                        lemma_char_start_bounds(s, j);
                    }
                }
                continue;
            }
            // Skip continuation bytes of a character already processed.
            if utf8::is_continuation_byte(bytes[byte_pos]) {
                continue;
            }
            let (g, width) = process_flagged(
                input,
                byte_pos,
                form,
                &mut state,
                &mut out,
                &mut last_written,
                Ghost(k),
                Ghost(out0),
            );
            proof {
                k = g@;
                lemma_char_start_bounds(s, k);
                assert forall|j: int|
                    k <= j < s.len() && char_start(s, j) < pos + lo implies passable(
                    #[trigger] s[j],
                    form,
                ) by {}
            }
        }
        proof {
            assert forall|i: int|
                pos + lo <= i < pos + 64 && i < encode_utf8(s).len() implies #[trigger] encode_utf8(
                s,
            )[i] < 0xC0 by {
                let j = (i - pos) as u64;
                if bit_set(mask, j) {
                    assert(bit_set(chunk_mask, j));
                    lemma_zero_bits(j);
                }
            }
            lemma_extend_frontier(form, s, k, pos + lo, pos + 64);
        }
        pos += 64;
    }
    // Scalar tail: remaining bytes after the last full chunk.
    if pos < len {
        let tail = vstd::slice::slice_subrange(bytes, pos, len);
        let first = simd::find_first_above(tail, bound);
        let tail_has_work = first < tail.len();
        if tail_has_work {
            let mut tail_pos = pos;
            while tail_pos < len
                invariant
                    bytes@ == encode_utf8(s),
                    s == input@,
                    len == bytes@.len(),
                    tail_pos <= len,
                    last_written <= len,
                    composes == form.spec_composes(),
                    state.wf(),
                    scan_inv(
                        form,
                        s,
                        out0,
                        k,
                        last_written as int,
                        tail_pos as int,
                        state.current_starter,
                        state.ccc_buf@,
                        out@,
                    ),
                decreases len - tail_pos,
            {
                if tail_pos < last_written {
                    proof {
                        assert forall|j: int|
                            k <= j < s.len() && char_start(s, j) < tail_pos + 1 implies passable(
                            #[trigger] s[j],
                            form,
                        ) by {
                            lemma_char_start_bounds(s, j);
                        }
                    }
                    tail_pos += 1;
                    continue;
                }
                if utf8::is_continuation_byte(bytes[tail_pos]) {
                    proof {
                        assert forall|j: int|
                            k <= j < s.len() && char_start(s, j) < tail_pos + 1 implies passable(
                            #[trigger] s[j],
                            form,
                        ) by {
                            if char_start(s, j) == tail_pos {
                                lemma_char_bytes_in_string(s, j);
                            }
                        }
                    }
                    tail_pos += 1;
                    continue;
                }
                let (g, width) = process_flagged(
                    input,
                    tail_pos,
                    form,
                    &mut state,
                    &mut out,
                        &mut last_written,
                    Ghost(k),
                    Ghost(out0),
                );
                proof {
                    k = g@;
                    lemma_char_start_bounds(s, k);
                }
                tail_pos += width;
            }
        } else {
            proof {
                assert forall|i: int|
                    pos <= i < len && i < encode_utf8(s).len() implies #[trigger] encode_utf8(s)[i]
                    < 0xC0 by {
                    assert(tail@[i - pos] == bytes@[i]);
                }
                lemma_extend_frontier(form, s, k, pos as int, len as int);
            }
        }
    }
    // Flush any remaining state, then copy the trailing passthrough bytes.
    let ghost st_f = state.current_starter;
    let ghost m_f = state.ccc_buf@;
    let ghost o_f = out@;
    if composes {
        state.flush(&mut out, true);
    } else {
        state.flush_nfd(&mut out);
    }
    proof {
        lemma_char_start_bounds(s, k);
        lemma_char_start_bounds(s, s.len() as int);
    }
    if last_written < len {
        push_str_range(input, last_written, len, &mut out, Ghost(k), Ghost(s.len() as int));
    } else {
        proof {
            if k < s.len() {
                lemma_char_start_bounds(s, k);
            }
            assert(k == s.len());
            assert(s.subrange(k, k) =~= Seq::<char>::empty());
            assert(out@ =~= out@ + s.subrange(k, s.len() as int));
        }
    }
    proof {
        lemma_final_output(form, s, out0, k, st_f, m_f, o_f);
        assert(out0 =~= Seq::<char>::empty());
        assert(out@ =~= spec_normalize(form, s));
        if s.len() == 0 {
            assert(s =~= Seq::<char>::empty());
            assert(run_chars(form, s) == (None::<char>, Seq::<CharAndCcc>::empty(), Seq::<char>::empty()));
            assert(sort_by_ccc(Seq::<CharAndCcc>::empty()) =~= Seq::<CharAndCcc>::empty());
            assert(spec_normalize(form, s) =~= s);
        }
    }
    if str_eq(out.as_str(), input) {
        Cow::Borrowed(input)
    } else {
        Cow::Owned(out)
    }
}

// ---------------------------------------------------------------------------
// Public normalizer types
// ---------------------------------------------------------------------------

/// NFC normalizer: Canonical Decomposition, followed by Canonical Composition.
pub struct NfcNormalizer;

impl Default for NfcNormalizer {
    fn default() -> (r: Self)
        ensures
            r == (NfcNormalizer),
    {
        Self::new()
    }
}

impl NfcNormalizer {
    /// Create a new NFC normalizer.
    pub fn new() -> (r: Self)
        ensures
            r == (NfcNormalizer),
    {
        NfcNormalizer
    }

    /// Run the NFC quick-check algorithm on `input`.
    pub fn quick_check(&self, input: &str) -> (r: IsNormalized)
        ensures
            r == spec_quick_check(Form::Nfc, input@),
    {
        quick_check::quick_check_nfc(input)
    }

    /// Normalize the input string to NFC form.
    ///
    /// Returns `Cow::Borrowed` if the input is already in NFC.
    pub fn normalize<'a>(&self, input: &'a str) -> (r: Cow<'a, str>)
        ensures
            r@ == normalized(Form::Nfc, input@),
            r is Borrowed <==> r@ == input@,
            normalized(Form::Nfc, r@) == r@,
            spec_is_normalized(Form::Nfc, r@),
            normalized(Form::Nfd, r@) == normalized(Form::Nfd, input@),
    {
        let r = normalize_impl(input, Form::Nfc);
        proof {
            lemma_normalized_is_pipeline(Form::Nfd, r@);
            lemma_normalized_is_pipeline(Form::Nfd, input@);
            if input@.len() > 0 && spec_quick_check(Form::Nfc, input@) != IsNormalized::Yes {
                lemma_composition_is_idempotent(Form::Nfc, Form::Nfd, input@);
                lemma_decompose_after_compose(Form::Nfc, Form::Nfd, input@);
                lemma_composed_output_is_normalized(Form::Nfc, input@);
            } else if input@.len() == 0 {
                lemma_empty_is_normalized(Form::Nfc);
            }
        }
        r
    }

    /// Normalize the input string to NFC form, appending to `out`.
    ///
    /// Returns `true` if the input was already normalized (nothing was modified).
    pub fn normalize_to(&self, input: &str, out: &mut String) -> (r: bool)
        ensures
            final(out)@ == old(out)@ + normalized(Form::Nfc, input@),
            r == (normalized(Form::Nfc, input@) == input@),
    {
        let result = normalize_impl(input, Form::Nfc);
        match result {
            Cow::Borrowed(b) => {
                string_push_str(out, b);
                true
            },
            Cow::Owned(o) => {
                string_push_str(out, o.as_str());
                false
            },
        }
    }

    /// Check if the input is already in NFC form.
    pub fn is_normalized(&self, input: &str) -> (r: bool)
        ensures
            r == spec_is_normalized(Form::Nfc, input@),
    {
        quick_check::is_normalized_nfc(input)
    }
}

/// NFD normalizer: Canonical Decomposition.
pub struct NfdNormalizer;

impl Default for NfdNormalizer {
    fn default() -> (r: Self)
        ensures
            r == (NfdNormalizer),
    {
        Self::new()
    }
}

impl NfdNormalizer {
    /// Create a new NFD normalizer.
    pub fn new() -> (r: Self)
        ensures
            r == (NfdNormalizer),
    {
        NfdNormalizer
    }

    /// Run the NFD quick-check algorithm on `input`.
    pub fn quick_check(&self, input: &str) -> (r: IsNormalized)
        ensures
            r == spec_quick_check(Form::Nfd, input@),
    {
        quick_check::quick_check_nfd(input)
    }

    /// Normalize the input string to NFD form.
    ///
    /// Returns `Cow::Borrowed` if the input is already in NFD.
    pub fn normalize<'a>(&self, input: &'a str) -> (r: Cow<'a, str>)
        ensures
            r@ == normalized(Form::Nfd, input@),
            r is Borrowed <==> r@ == input@,
            normalized(Form::Nfd, r@) == r@,
            spec_is_normalized(Form::Nfd, r@),
            in_decomposed_form(r@, DecompForm::Canonical),
            spec_normalize(Form::Nfc, r@) == spec_normalize(Form::Nfc, input@),
    {
        let r = normalize_impl(input, Form::Nfd);
        proof {
            lemma_normalized_is_pipeline(Form::Nfd, input@);
            lemma_compose_after_decompose(Form::Nfc, Form::Nfd, input@);
            if input@.len() > 0 && spec_quick_check(Form::Nfd, input@) != IsNormalized::Yes {
                lemma_decomposition_only_normalization_is_idempotent(Form::Nfd, input@);
                lemma_normalized_output_passes_check(Form::Nfd, input@);
            } else {
                if input@.len() == 0 {
                    lemma_empty_is_normalized(Form::Nfd);
                }
                lemma_quick_check_not_no_is_decomposed(Form::Nfd, input@);
            }
        }
        r
    }

    /// Normalize the input string to NFD form, appending to `out`.
    ///
    /// Returns `true` if the input was already normalized (nothing was modified).
    pub fn normalize_to(&self, input: &str, out: &mut String) -> (r: bool)
        ensures
            final(out)@ == old(out)@ + normalized(Form::Nfd, input@),
            r == (normalized(Form::Nfd, input@) == input@),
    {
        let result = normalize_impl(input, Form::Nfd);
        match result {
            Cow::Borrowed(b) => {
                string_push_str(out, b);
                true
            },
            Cow::Owned(o) => {
                string_push_str(out, o.as_str());
                false
            },
        }
    }

    /// Check if the input is already in NFD form.
    pub fn is_normalized(&self, input: &str) -> (r: bool)
        ensures
            r == spec_is_normalized(Form::Nfd, input@),
    {
        quick_check::is_normalized_nfd(input)
    }
}

/// NFKC normalizer: Compatibility Decomposition, followed by Canonical Composition.
pub struct NfkcNormalizer;

impl Default for NfkcNormalizer {
    fn default() -> (r: Self)
        ensures
            r == (NfkcNormalizer),
    {
        Self::new()
    }
}

impl NfkcNormalizer {
    /// Create a new NFKC normalizer.
    pub fn new() -> (r: Self)
        ensures
            r == (NfkcNormalizer),
    {
        NfkcNormalizer
    }

    /// Run the NFKC quick-check algorithm on `input`.
    pub fn quick_check(&self, input: &str) -> (r: IsNormalized)
        ensures
            r == spec_quick_check(Form::Nfkc, input@),
    {
        quick_check::quick_check_nfkc(input)
    }

    /// Normalize the input string to NFKC form.
    ///
    /// Returns `Cow::Borrowed` if the input is already in NFKC.
    pub fn normalize<'a>(&self, input: &'a str) -> (r: Cow<'a, str>)
        ensures
            r@ == normalized(Form::Nfkc, input@),
            r is Borrowed <==> r@ == input@,
            normalized(Form::Nfkc, r@) == r@,
            spec_is_normalized(Form::Nfkc, r@),
            normalized(Form::Nfkd, r@) == normalized(Form::Nfkd, input@),
    {
        let r = normalize_impl(input, Form::Nfkc);
        proof {
            lemma_normalized_is_pipeline(Form::Nfkd, r@);
            lemma_normalized_is_pipeline(Form::Nfkd, input@);
            if input@.len() > 0 && spec_quick_check(Form::Nfkc, input@) != IsNormalized::Yes {
                lemma_composition_is_idempotent(Form::Nfkc, Form::Nfkd, input@);
                lemma_decompose_after_compose(Form::Nfkc, Form::Nfkd, input@);
                lemma_composed_output_is_normalized(Form::Nfkc, input@);
            } else if input@.len() == 0 {
                lemma_empty_is_normalized(Form::Nfkc);
            }
        }
        r
    }

    /// Normalize the input string to NFKC form, appending to `out`.
    ///
    /// Returns `true` if the input was already normalized (nothing was modified).
    pub fn normalize_to(&self, input: &str, out: &mut String) -> (r: bool)
        ensures
            final(out)@ == old(out)@ + normalized(Form::Nfkc, input@),
            r == (normalized(Form::Nfkc, input@) == input@),
    {
        let result = normalize_impl(input, Form::Nfkc);
        match result {
            Cow::Borrowed(b) => {
                string_push_str(out, b);
                true
            },
            Cow::Owned(o) => {
                string_push_str(out, o.as_str());
                false
            },
        }
    }

    /// Check if the input is already in NFKC form.
    pub fn is_normalized(&self, input: &str) -> (r: bool)
        ensures
            r == spec_is_normalized(Form::Nfkc, input@),
    {
        quick_check::is_normalized_nfkc(input)
    }
}

/// NFKD normalizer: Compatibility Decomposition.
pub struct NfkdNormalizer;

impl Default for NfkdNormalizer {
    fn default() -> (r: Self)
        ensures
            r == (NfkdNormalizer),
    {
        Self::new()
    }
}

impl NfkdNormalizer {
    /// Create a new NFKD normalizer.
    pub fn new() -> (r: Self)
        ensures
            r == (NfkdNormalizer),
    {
        NfkdNormalizer
    }

    /// Run the NFKD quick-check algorithm on `input`.
    pub fn quick_check(&self, input: &str) -> (r: IsNormalized)
        ensures
            r == spec_quick_check(Form::Nfkd, input@),
    {
        quick_check::quick_check_nfkd(input)
    }

    /// Normalize the input string to NFKD form.
    ///
    /// Returns `Cow::Borrowed` if the input is already in NFKD.
    pub fn normalize<'a>(&self, input: &'a str) -> (r: Cow<'a, str>)
        ensures
            r@ == normalized(Form::Nfkd, input@),
            r is Borrowed <==> r@ == input@,
            normalized(Form::Nfkd, r@) == r@,
            spec_is_normalized(Form::Nfkd, r@),
            in_decomposed_form(r@, DecompForm::Compatible),
            spec_normalize(Form::Nfkc, r@) == spec_normalize(Form::Nfkc, input@),
    {
        let r = normalize_impl(input, Form::Nfkd);
        proof {
            lemma_normalized_is_pipeline(Form::Nfkd, input@);
            lemma_compose_after_decompose(Form::Nfkc, Form::Nfkd, input@);
            if input@.len() > 0 && spec_quick_check(Form::Nfkd, input@) != IsNormalized::Yes {
                lemma_decomposition_only_normalization_is_idempotent(Form::Nfkd, input@);
                lemma_normalized_output_passes_check(Form::Nfkd, input@);
            } else {
                if input@.len() == 0 {
                    lemma_empty_is_normalized(Form::Nfkd);
                }
                lemma_quick_check_not_no_is_decomposed(Form::Nfkd, input@);
            }
        }
        r
    }

    /// Normalize the input string to NFKD form, appending to `out`.
    ///
    /// Returns `true` if the input was already normalized (nothing was modified).
    pub fn normalize_to(&self, input: &str, out: &mut String) -> (r: bool)
        ensures
            final(out)@ == old(out)@ + normalized(Form::Nfkd, input@),
            r == (normalized(Form::Nfkd, input@) == input@),
    {
        let result = normalize_impl(input, Form::Nfkd);
        match result {
            Cow::Borrowed(b) => {
                string_push_str(out, b);
                true
            },
            Cow::Owned(o) => {
                string_push_str(out, o.as_str());
                false
            },
        }
    }

    /// Check if the input is already in NFKD form.
    pub fn is_normalized(&self, input: &str) -> (r: bool)
        ensures
            r == spec_is_normalized(Form::Nfkd, input@),
    {
        quick_check::is_normalized_nfkd(input)
    }
}

} // verus!
