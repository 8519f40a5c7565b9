//! Unicode simple case folding (CaseFolding.txt, status C+S).
//!
//! Provides character-level and string-level case folding for case-insensitive
//! matching. Supports both standard folding and Turkish/Azerbaijani locale mode.

use vstd::prelude::*;
use vstd::utf8::encode_utf8;

use std::borrow::Cow;

use crate::simd::{self, bit_set, lemma_clear_lowest_bit, lemma_zero_bits};
use crate::tables;
use crate::text::{
    char_from_u32, is_scalar_value, push_str_range, str_chars, string_push, string_with_capacity,
};
use crate::utf8::{
    lemma_ascii_prefix, lemma_char_start_bounds, lemma_char_start_is_boundary,
    lemma_encode_subrange, lemma_encode_utf8_injective,
};

verus! {

/// Case folding mode.
#[derive(Clone, Copy, Debug, PartialEq, Eq, Structural)]
pub enum CaseFoldMode {
    /// Standard Unicode case folding (CaseFolding.txt status C+S).
    Standard,
    /// Turkish/Azerbaijani locale folding.
    ///
    /// Overrides:
    /// - U+0049 (I) → U+0131 (ı) instead of U+0069 (i)
    /// - U+0130 (İ) → U+0069 (i) instead of standard mapping
    Turkish,
}

/// The Turkish/Azerbaijani overrides of the standard folding.
pub open spec fn spec_turkish_casefold(c: char) -> Option<char> {
    if c == 'I' {
        Some('\u{0131}')
    } else if c == '\u{0130}' {
        Some('i')
    } else {
        None
    }
}

/// The Turkish/Azerbaijani folding overrides: I → ı and İ → i.
pub fn turkish_casefold(c: char) -> (r: Option<char>)
    ensures
        r == spec_turkish_casefold(c),
{
    if c == 'I' {
        Some('\u{0131}')
    } else if c == '\u{0130}' {
        Some('i')
    } else {
        None
    }
}

/// ASCII case folding: A-Z to a-z, every other ASCII character unchanged.
pub open spec fn spec_ascii_fold(c: char) -> char {
    if 0x41 <= (c as u32) <= 0x5A {
        ((c as u32) + 0x20) as char
    } else {
        c
    }
}

/// Standard simple case folding of `c`: ASCII by rule, U+0131 (dotless i,
/// which the folding table has no entry for) to itself, otherwise the
/// folding table's target, or `c` itself when the table has none. The
/// lookup guarantees that every target is final (a scalar value that folds
/// to itself).
pub open spec fn spec_standard_fold(c: char) -> char {
    if (c as u32) < 0x80 {
        spec_ascii_fold(c)
    } else if (c as u32) == 0x131 {
        c
    } else {
        match tables::case_folded_of(c) {
        Some(v) => if tables::folding_is_final(c) {
            v as char
        } else {
            c
        },
        None => c,
        }
    }
}

/// Simple case folding of `c` in `mode`.
pub open spec fn spec_casefold_char(c: char, mode: CaseFoldMode) -> char {
    if mode == CaseFoldMode::Turkish && spec_turkish_casefold(c) is Some {
        spec_turkish_casefold(c)->0
    } else {
        spec_standard_fold(c)
    }
}

/// Every character of `s` folded.
pub open spec fn spec_casefold(s: Seq<char>, mode: CaseFoldMode) -> Seq<char> {
    Seq::new(s.len(), |i: int| spec_casefold_char(s[i], mode))
}

/// Folding `c` in `mode` reads the case-folding table: `c` is not ASCII and
/// no Turkish override applies to it.
pub open spec fn uses_fold_table(c: char, mode: CaseFoldMode) -> bool {
    (c as u32) >= 0x80 && (c as u32) != 0x131 && !(mode == CaseFoldMode::Turkish
        && spec_turkish_casefold(c) is Some)
}

/// Folding `c` twice folds it once.
pub open spec fn fold_idem(c: char, mode: CaseFoldMode) -> bool {
    spec_casefold_char(spec_casefold_char(c, mode), mode) == spec_casefold_char(c, mode)
}

/// Fold a single character using simple case folding.
///
/// Returns the folded character, or the input character unchanged if no
/// folding applies.
pub fn casefold_char(c: char, mode: CaseFoldMode) -> (r: char)
    ensures
        r == spec_casefold_char(c, mode),
        uses_fold_table(c, mode) ==> tables::folding_is_final(c),
        (c as u32) >= 0x80 && (c as u32) != 0x131 && !(mode == CaseFoldMode::Turkish && (c as u32)
            == 0x130) ==> r as u32 == (match tables::case_folded_of(c) {
            Some(v) => v,
            None => c as u32,
        }),
        fold_idem(c, mode),
{
    proof {
        if !uses_fold_table(c, mode) {
            lemma_casefold_char_idempotent(c, mode);
        }
    }
    // Turkish exceptions override the standard mapping.
    if mode == CaseFoldMode::Turkish {
        if let Some(folded) = turkish_casefold(c) {
            return folded;
        }
    }
    let cp = c as u32;
    if cp < 0x80 {
        // ASCII: A-Z fold to a-z, everything else to itself.
        if 0x41 <= cp && cp <= 0x5A {
            let lower = ((cp as u8) | 0x20) as char;
            assert(((cp as u8) | 0x20u8) as u32 == cp + 0x20) by (bit_vector)
                requires
                    0x41 <= cp <= 0x5A,
            ;
            return lower;
        }
        return c;
    }
    // Dotless i has no folding.
    if cp == 0x131 {
        return c;
    }
    let r = match tables::lookup_casefold(c) {
        Some(v) => match char_from_u32(v) {
            Some(folded) => folded,
            None => c,
        },
        None => c,
    };
    proof {
        lemma_casefold_char_idempotent(c, mode);
        lemma_fold_is_table_target(c, mode);
    }
    r
}

/// Fold `s`, knowing the first `k` characters fold to themselves.
fn fold_from(chars: &Vec<char>, k: usize, mode: CaseFoldMode, out: &mut String)
    requires
        k <= chars@.len(),
        forall|j: int| 0 <= j < k ==> spec_casefold_char(#[trigger] chars@[j], mode) == chars@[j],
    ensures
        final(out)@ == old(out)@ + spec_casefold(chars@, mode),
        forall|j: int| 0 <= j < chars@.len() ==> #[trigger] fold_idem(chars@[j], mode),
{
    let mut i: usize = 0;
    while i < chars.len()
        invariant
            i <= chars@.len(),
            k <= chars@.len(),
            forall|j: int| 0 <= j < k ==> spec_casefold_char(#[trigger] chars@[j], mode) == chars@[j],
            out@ == old(out)@ + spec_casefold(chars@.take(i as int), mode),
            forall|j: int| 0 <= j < i ==> #[trigger] fold_idem(chars@[j], mode),
        decreases chars.len() - i,
    {
        let c = chars[i];
        if i < k {
            // Unchanged prefix: copy.
            string_push(out, c);
            assert(spec_casefold_char(chars@[i as int], mode) == chars@[i as int]);
        } else {
            string_push(out, casefold_char(c, mode));
        }
        proof {
            assert(spec_casefold(chars@.take(i + 1), mode) =~= spec_casefold(
                chars@.take(i as int),
                mode,
            ).push(spec_casefold_char(c, mode)));
        }
        i += 1;
    }
    proof {
        assert(chars@.take(chars@.len() as int) =~= chars@);
    }
}

/// Fold a string using simple case folding.
///
/// Returns `Cow::Borrowed` if the string is already fully case-folded
/// (no characters changed).
///
/// In `CaseFoldMode::Standard`, the implementation runs an ASCII fast path:
/// ASCII uppercase letters are lowercased by rule, without a table lookup.
/// Other modes (Turkish, etc.) skip the fast path because their override
/// rules apply within the ASCII range.
pub fn casefold<'a>(input: &'a str, mode: CaseFoldMode) -> (r: Cow<'a, str>)
    ensures
        r@ == spec_casefold(input@, mode),
        r is Borrowed <==> r@ == input@,
        spec_casefold(r@, mode) == r@,
{
    if input.is_empty() {
        assert(spec_casefold(input@, mode) =~= input@);
        assert(spec_casefold(input@, mode) =~= input@);
        return Cow::Borrowed(input);
    }
    let r = if mode == CaseFoldMode::Standard {
        casefold_ascii_fastpath(input)
    } else {
        casefold_scalar(input, mode)
    };
    proof {
        lemma_fold_idem_string(input@, mode);
    }
    r
}

/// Folding a string whose characters each fold to a fixed point gives a
/// string that folding leaves unchanged.
proof fn lemma_fold_idem_string(s: Seq<char>, mode: CaseFoldMode)
    requires
        forall|j: int| 0 <= j < s.len() ==> #[trigger] fold_idem(s[j], mode),
    ensures
        spec_casefold(spec_casefold(s, mode), mode) == spec_casefold(s, mode),
{
    let f = spec_casefold(s, mode);
    assert forall|i: int| 0 <= i < s.len() implies #[trigger] spec_casefold(f, mode)[i] == f[i] by {
        assert(fold_idem(s[i], mode));
    }
    assert(spec_casefold(f, mode) =~= f);
}

/// Per-character folding through the folding table; returns
/// `Cow::Borrowed` if nothing changed.
pub fn casefold_scalar<'a>(input: &'a str, mode: CaseFoldMode) -> (r: Cow<'a, str>)
    ensures
        r@ == spec_casefold(input@, mode),
        r is Borrowed <==> r@ == input@,
        forall|j: int| 0 <= j < input@.len() ==> #[trigger] fold_idem(input@[j], mode),
{
    let chars = str_chars(input);
    let n = chars.len();
    // Quick scan: find the first character that would change.
    let mut first_change: usize = 0;
    let mut found = false;
    while first_change < n && !found
        invariant
            n == chars@.len(),
            chars@ == input@,
            first_change <= n,
            found ==> first_change < n && spec_casefold_char(chars@[first_change as int], mode)
                != chars@[first_change as int],
            forall|j: int|
                0 <= j < first_change ==> spec_casefold_char(#[trigger] chars@[j], mode)
                    == chars@[j],
        decreases n - first_change + (if found { 0int } else { 1int }),
    {
        let ch = chars[first_change];
        if casefold_char(ch, mode) != ch {
            found = true;
        } else {
            first_change += 1;
        }
    }
    if !found {
        assert(spec_casefold(input@, mode) =~= input@);
        assert forall|j: int| 0 <= j < input@.len() implies #[trigger] fold_idem(input@[j], mode) by {
            assert(spec_casefold_char(chars@[j], mode) == chars@[j]);
        }
        return Cow::Borrowed(input);
    }
    // Build the output: copy the unchanged prefix, then fold the rest.
    let mut out = string_with_capacity(input.len());
    fold_from(&chars, first_change, mode, &mut out);
    proof {
        let k = first_change as int;
        assert(out@[k] == spec_casefold_char(chars@[k], mode));
        assert(out@[k] != input@[k]);
    }
    Cow::Owned(out)
}

/// An ASCII byte that case folding leaves alone (not `A`..`Z`).
pub open spec fn ascii_quiet(b: u8) -> bool {
    b < 0x80 && !(0x41 <= b <= 0x5A)
}

/// The bytes `0..p` of `input` are ASCII and none is an uppercase letter.
pub open spec fn quiet_prefix(bytes: Seq<u8>, p: int) -> bool {
    forall|i: int| 0 <= i < p ==> ascii_quiet(#[trigger] bytes[i])
}

/// Standard-mode casefold with a 64-byte ASCII fast path.
///
/// The input is walked in 64-byte chunks, scanning with bound 0x80 for any
/// non-ASCII byte (which hands the whole input to [`casefold_scalar`]) and
/// with bound `A` for the first uppercase letter; a byte-by-byte walk covers
/// the tail. From the first uppercase letter on, ASCII letters are
/// lowercased by OR-ing in 0x20 until a non-ASCII byte switches the
/// remainder to the per-character path.
pub fn casefold_ascii_fastpath<'a>(input: &'a str) -> (r: Cow<'a, str>)
    ensures
        r@ == spec_casefold(input@, CaseFoldMode::Standard),
        r is Borrowed <==> r@ == input@,
        forall|j: int|
            0 <= j < input@.len() ==> #[trigger] fold_idem(input@[j], CaseFoldMode::Standard),
{
    let bytes = input.as_bytes();
    let len = bytes.len();
    let ghost s = input@;
    assert(bytes@ == encode_utf8(s));
    // First scan: locate the first non-ASCII byte (if any) and the first
    // ASCII uppercase byte (if any), to decide whether allocation is needed.
    let mut pos: usize = 0;
    let mut first_change: Option<usize> = None;
    while len - pos >= 64 && first_change.is_none()
        invariant
            bytes@ == encode_utf8(s),
            s == input@,
            len == bytes@.len(),
            pos <= len,
            first_change is None ==> quiet_prefix(bytes@, pos as int),
            first_change matches Some(fc) ==> fc < len && 0x41 <= bytes@[fc as int] <= 0x5A
                && quiet_prefix(bytes@, fc as int),
        decreases len - pos + (if first_change is None {
            1int
        } else {
            0int
        }),
    {
        let chunk = vstd::slice::slice_subrange(bytes, pos, pos + 64);
        let nonascii = simd::scan_chunk(chunk, 0x80);
        if nonascii != 0 {
            // Non-ASCII somewhere in this chunk: the per-character path
            // handles the whole input.
            return casefold_scalar(input, CaseFoldMode::Standard);
        }
        proof {
            assert forall|i: int| pos <= i < pos + 64 implies #[trigger] bytes@[i] < 0x80 by {
                let j = (i - pos) as u64;
                lemma_zero_bits(j);
                assert(!bit_set(nonascii, j));
                assert(chunk@[j as int] == bytes@[i]);
            }
        }
        // Pure-ASCII chunk: probe for a byte >= 'A' and refine to the first
        // uppercase letter.
        let upper_or_more = simd::scan_chunk(chunk, 0x41);
        if upper_or_more != 0 {
            let mut mask = upper_or_more;
            let ghost mut lo: int = 0;
            while mask != 0 && first_change.is_none()
                invariant
                    bytes@ == encode_utf8(s),
                    len == bytes@.len(),
                    pos + 64 <= len,
                    chunk@ == bytes@.subrange(pos as int, pos + 64),
                    forall|i: int| pos <= i < pos + 64 ==> #[trigger] bytes@[i] < 0x80,
                    forall|i: u64|
                        i < 64 ==> (#[trigger] bit_set(upper_or_more, i) <==> chunk@[i as int]
                            >= 0x41),
                    0 <= lo <= 64,
                    forall|i: u64|
                        i < 64 ==> (#[trigger] bit_set(mask, i) <==> (bit_set(upper_or_more, i)
                            && i >= lo)),
                    first_change is None ==> quiet_prefix(bytes@, pos + lo),
                    first_change matches Some(fc) ==> fc < len && 0x41 <= bytes@[fc as int]
                        <= 0x5A && quiet_prefix(bytes@, fc as int),
                decreases mask,
            {
                proof {
                    lemma_clear_lowest_bit(mask);
                }
                let tz = mask.trailing_zeros();
                let bit = tz as usize;
                let ghost t = tz as u64;
                let ghost m_old = mask;
                mask = mask & (mask - 1);
                let b = bytes[pos + bit];
                proof {
                    assert(bit_set(m_old, t));
                    assert forall|i: u64| i < 64 implies (#[trigger] bit_set(mask, i) <==> (
                    bit_set(upper_or_more, i) && i >= t + 1)) by {
                        assert(bit_set(mask, i) <==> (bit_set(m_old, i) && i != t));
                    }
                    // Bytes between the last one looked at and this one are below 'A'.
                    assert forall|i: int| 0 <= i < pos + t implies ascii_quiet(#[trigger] bytes@[i]) by {
                        if i >= pos + lo {
                            let j = (i - pos) as u64;
                            assert(!bit_set(m_old, j));
                            assert(!bit_set(upper_or_more, j));
                            assert(chunk@[j as int] == bytes@[i]);
                        }
                    }
                    lo = t + 1;
                }
                if 0x41 <= b && b <= 0x5A {
                    first_change = Some(pos + bit);
                }
            }
            proof {
                if first_change is None {
                    assert forall|i: int| 0 <= i < pos + 64 implies ascii_quiet(#[trigger] bytes@[i]) by {
                        if i >= pos + lo {
                            let j = (i - pos) as u64;
                            if bit_set(upper_or_more, j) {
                                assert(bit_set(mask, j));
                                lemma_zero_bits(j);
                            }
                            assert(chunk@[j as int] == bytes@[i]);
                        }
                    }
                }
            }
        } else {
            proof {
                assert forall|i: int| 0 <= i < pos + 64 implies ascii_quiet(#[trigger] bytes@[i]) by {
                    if i >= pos {
                        let j = (i - pos) as u64;
                        lemma_zero_bits(j);
                        assert(!bit_set(upper_or_more, j));
                        assert(chunk@[j as int] == bytes@[i]);
                    }
                }
            }
        }
        if first_change.is_none() {
            pos += 64;
        }
    }
    // Tail (or the whole input if it is shorter than a chunk): scan byte by
    // byte for the first uppercase letter or any non-ASCII byte.
    if first_change.is_none() {
        let mut tail = pos;
        while tail < len && first_change.is_none()
            invariant
                bytes@ == encode_utf8(s),
                len == bytes@.len(),
                tail <= len,
                first_change is None ==> quiet_prefix(bytes@, tail as int),
                first_change matches Some(fc) ==> fc < len && 0x41 <= bytes@[fc as int] <= 0x5A
                    && quiet_prefix(bytes@, fc as int),
            decreases len - tail + (if first_change is None {
                1int
            } else {
                0int
            }),
        {
            let b = bytes[tail];
            if b >= 0x80 {
                // A non-ASCII byte before any uppercase letter: defer to the
                // per-character path.
                return casefold_scalar(input, CaseFoldMode::Standard);
            }
            if 0x41 <= b && b <= 0x5A {
                first_change = Some(tail);
            } else {
                tail += 1;
            }
        }
        assert(first_change is None ==> quiet_prefix(bytes@, len as int));
    }
    let start = match first_change {
        None => {
            // Pure ASCII, no uppercase: borrowed.
            proof {
                lemma_ascii_prefix(s, len as int);
                lemma_char_start_bounds(s, s.len() as int);
                assert forall|j: int| 0 <= j < s.len() implies spec_casefold_char(
                    #[trigger] s[j],
                    CaseFoldMode::Standard,
                ) == s[j] by {
                    assert(ascii_quiet(bytes@[j]));
                }
                assert(spec_casefold(s, CaseFoldMode::Standard) =~= s);
                assert forall|j: int| 0 <= j < s.len() implies #[trigger] fold_idem(
                    s[j],
                    CaseFoldMode::Standard,
                ) by {
                    assert(spec_casefold_char(s[j], CaseFoldMode::Standard) == s[j]);
                }
            }
            return Cow::Borrowed(input);
        },
        Some(st) => st,
    };
    // A definite change at `start`: copy [0, start) verbatim, then lowercase
    // ASCII by rule until a non-ASCII byte hands the rest to the
    // per-character path.
    proof {
        lemma_ascii_prefix(s, start as int + 1);
    }
    let mut out = string_with_capacity(len);
    push_str_range(input, 0, start, &mut out, Ghost(0int), Ghost(start as int));
    proof {
        assert forall|j: int| 0 <= j < start implies spec_casefold_char(
            #[trigger] s[j],
            CaseFoldMode::Standard,
        ) == s[j] by {
            assert(ascii_quiet(bytes@[j]));
        }
        assert(s.subrange(0, start as int) =~= spec_casefold(s.take(start as int), CaseFoldMode::Standard));
    }
    let mut i: usize = start;
    while i < len
        invariant
            bytes@ == encode_utf8(s),
            s == input@,
            len == bytes@.len(),
            start < len,
            start <= i <= len,
            0x41 <= bytes@[start as int] <= 0x5A,
            forall|m: int| 0 <= m < i ==> #[trigger] bytes@[m] < 0x80,
            out@ == spec_casefold(s.take(i as int), CaseFoldMode::Standard),
        decreases len - i,
    {
        let b = bytes[i];
        if b >= 0x80 {
            // Switch to the per-character path for the rest of the input.
            proof {
                lemma_ascii_prefix(s, i as int);
                lemma_char_start_is_boundary(s, i as int);
                lemma_encode_subrange(s, i as int, s.len() as int);
                lemma_char_start_bounds(s, s.len() as int);
            }
            let (_head, rest) = input.split_at(i);
            let ghost sk = s.subrange(i as int, s.len() as int);
            proof {
                assert(encode_utf8(rest@) == encode_utf8(sk));
                lemma_encode_utf8_injective(rest@, sk);
                assert(sk.take(sk.len() as int) =~= sk);
            }
            let ghost o1 = out@;
            for ch in it: rest.chars()
                invariant
                    it.seq() == sk,
                    sk.take(sk.len() as int) == sk,
                    out@ == o1 + spec_casefold(sk.take(it.index() as int), CaseFoldMode::Standard),
                    forall|j: int|
                        0 <= j < it.index() ==> #[trigger] fold_idem(sk[j], CaseFoldMode::Standard),
            {
                let ghost idx = it.index() as int;
                proof {
                    assert(sk.take(idx + 1) =~= sk.take(idx).push(ch));
                    assert(spec_casefold(sk.take(idx + 1), CaseFoldMode::Standard) =~= spec_casefold(
                        sk.take(idx),
                        CaseFoldMode::Standard,
                    ).push(spec_casefold_char(ch, CaseFoldMode::Standard)));
                }
                string_push(&mut out, casefold_char(ch, CaseFoldMode::Standard));
            }
            proof {
                assert(s =~= s.take(i as int) + sk);
                assert(spec_casefold(s, CaseFoldMode::Standard) =~= spec_casefold(
                    s.take(i as int),
                    CaseFoldMode::Standard,
                ) + spec_casefold(sk, CaseFoldMode::Standard));
                let k = start as int;
                assert(out@[k] == spec_casefold_char(s[k], CaseFoldMode::Standard));
                assert(out@[k] != input@[k]);
                assert forall|j: int| 0 <= j < s.len() implies #[trigger] fold_idem(
                    s[j],
                    CaseFoldMode::Standard,
                ) by {
                    if j < i {
                        assert((s[j] as u32) < 0x80);
                        lemma_casefold_char_idempotent(s[j], CaseFoldMode::Standard);
                    } else {
                        assert(s[j] == sk[j - i]);
                    }
                }
            }
            return Cow::Owned(out);
        }
        proof {
            lemma_ascii_prefix(s, i + 1);
            assert(s.take(i + 1) =~= s.take(i as int).push(s[i as int]));
            assert(spec_casefold(s.take(i + 1), CaseFoldMode::Standard) =~= spec_casefold(
                s.take(i as int),
                CaseFoldMode::Standard,
            ).push(spec_casefold_char(s[i as int], CaseFoldMode::Standard)));
        }
        if 0x41 <= b && b <= 0x5A {
            // Lowercase via OR with 0x20.
            assert(((b | 0x20u8) as u32) == (b as u32) + 0x20) by (bit_vector)
                requires
                    0x41 <= b <= 0x5A,
            ;
            string_push(&mut out, (b | 0x20) as char);
        } else {
            string_push(&mut out, b as char);
        }
        i += 1;
    }
    proof {
        lemma_ascii_prefix(s, len as int);
        lemma_char_start_bounds(s, s.len() as int);
        assert(s.take(len as int) =~= s);
        let k = start as int;
        assert(out@[k] != input@[k]);
        assert forall|j: int| 0 <= j < s.len() implies #[trigger] fold_idem(
            s[j],
            CaseFoldMode::Standard,
        ) by {
            assert((s[j] as u32) < 0x80);
            lemma_casefold_char_idempotent(s[j], CaseFoldMode::Standard);
        }
    }
    Cow::Owned(out)
}

/// Folding follows the simple case-folding table: a character outside
/// ASCII, U+0131 and the Turkish overrides folds to the table's target when
/// the table has one, and to itself when it has none.
pub proof fn lemma_fold_is_table_target(c: char, mode: CaseFoldMode)
    requires
        (c as u32) >= 0x80,
        (c as u32) != 0x131,
        !(mode == CaseFoldMode::Turkish && (c as u32) == 0x130),
        tables::folding_is_final(c),
    ensures
        spec_casefold_char(c, mode) as u32 == (match tables::case_folded_of(c) {
            Some(v) => v,
            None => c as u32,
        }),
{
    match tables::case_folded_of(c) {
        Some(v) => {
            vstd::utf8::char_u32_cast(v as char, v);
        },
        None => {},
    }
}

/// ASCII folds by rule in either mode: the capital letters A..Z to the
/// small letters a..z, every other ASCII character to itself; only the
/// Turkish mode folds I to the dotless ı instead.
pub proof fn lemma_ascii_fold(c: char, mode: CaseFoldMode)
    requires
        (c as u32) < 0x80,
        !(mode == CaseFoldMode::Turkish && c == 'I'),
    ensures
        spec_casefold_char(c, mode) as int == (if 0x41 <= (c as u32) <= 0x5A {
            (c as u32) + 0x20
        } else {
            c as u32 as int
        }),
{
    if 0x41 <= (c as u32) <= 0x5A {
        vstd::utf8::char_u32_cast(spec_casefold_char(c, mode), ((c as u32) + 0x20) as u32);
    }
}

/// The Turkish mode folds I to the dotless ı and İ to i.
pub proof fn lemma_turkish_overrides()
    ensures
        spec_casefold_char('I', CaseFoldMode::Turkish) == '\u{0131}',
        spec_casefold_char('\u{0130}', CaseFoldMode::Turkish) == 'i',
{
}

/// Turkish mode folds every character other than I and İ exactly as the
/// standard mode does.
pub proof fn lemma_turkish_differs_only_on_i(c: char)
    requires
        c != 'I',
        c != '\u{0130}',
    ensures
        spec_casefold_char(c, CaseFoldMode::Turkish) == spec_casefold_char(c, CaseFoldMode::Standard),
{
}

/// Folding a character twice folds it once.
pub proof fn lemma_casefold_char_idempotent(c: char, mode: CaseFoldMode)
    ensures
        spec_casefold_char(spec_casefold_char(c, mode), mode) == spec_casefold_char(c, mode),
{
    let f = spec_casefold_char(c, mode);
    if mode == CaseFoldMode::Turkish && spec_turkish_casefold(c) is Some {
        if c == 'I' {
            assert(f == '\u{0131}');
            assert(('\u{0131}' as u32) == 0x131);
        } else {
            assert(f == 'i');
        }
    } else if (c as u32) < 0x80 {
        if 0x41 <= (c as u32) <= 0x5A {
            assert(f as u32 == (c as u32) + 0x20) by {
                vstd::utf8::char_u32_cast(f, ((c as u32) + 0x20) as u32);
            }
        }
    } else if (c as u32) != 0x131 {
        match tables::case_folded_of(c) {
            Some(v) => {
                if tables::folding_is_final(c) {
                    vstd::utf8::char_u32_cast(v as char, v);
                    assert(f as u32 == v);
                }
            },
            None => {},
        }
    }
}

/// Folding is idempotent: folding an already folded string changes nothing.
pub proof fn lemma_casefold_idempotent(s: Seq<char>, mode: CaseFoldMode)
    ensures
        spec_casefold(spec_casefold(s, mode), mode) == spec_casefold(s, mode),
{
    let f = spec_casefold(s, mode);
    assert forall|i: int| 0 <= i < s.len() implies #[trigger] spec_casefold(f, mode)[i] == f[i] by {
        lemma_casefold_char_idempotent(s[i], mode);
    }
    assert(spec_casefold(f, mode) =~= f);
}

} // verus!
