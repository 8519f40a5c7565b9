# simd_normalizer

Unicode normalization (NFC, NFD, NFKC, NFKD), simple case folding,
UTS #39 confusable skeletons and a combined matching pipeline, written in
Verus. The library's functions are verified against `requires`/`ensures`
contracts, except for a small set of trusted wrappers: the calls into the
Unicode data crates and a few `String` operations of std, whose contracts
are believed, not proved. Some small helpers are verified with no contract
beyond freedom from panics and overflow.

## Layout

- `src/normalizer.rs` — the normalizers. A 64-byte chunk scan finds the
  bytes that may need work; everything else is copied through. Characters
  are decomposed, their combining marks collected behind the current
  starter (`NormState`), sorted by canonical combining class and, for
  NFC/NFKC, recomposed. The contracts state the output as a model
  (`spec_normalize`) built from the per-character steps, and prove that the
  chunked scan produces exactly that model. The public `normalize`
  functions state that their output is normalized again to itself, that
  the definitive `is_normalized` check accepts it,
  that NFD/NFKD output is in decomposed normal form, that NFD/NFKD of
  NFC/NFKC output equals NFD/NFKD of the input, and that the composing
  pipeline gives the same for NFD/NFKD output as for the input. Laws over
  the model prove, for every input, that a quick-check No means
  normalization changes the string, and that for NFD/NFKD a quick-check
  Yes means it does not.
- `src/quick_check.rs` — the UAX #15 quick check, with code-point range
  shortcuts and the same chunk scan; the definitive `is_normalized` checks.
  The range shortcuts are proved to agree with looking every character up.
- `src/ccc.rs` — the combining-mark buffer and its stable insertion sort.
- `src/compose.rs`, `src/decompose.rs`, `src/hangul.rs` — canonical
  composition, decomposition and the Hangul syllable arithmetic.
- `src/casefold.rs`, `src/confusable.rs`, `src/matching.rs` — case folding
  (standard and Turkish), skeletons, and the NFKC → fold → skeleton → fold
  matching form. Folding and the skeleton are proved idempotent, a
  skeleton is in NFD, and folding leaves the matching form unchanged.
- `src/simd.rs`, `src/utf8.rs`, `src/text.rs` — the chunk scanner, UTF-8
  helpers and the facts that tie byte offsets to characters.
- `src/tables/` — the Unicode character data. Combining classes,
  decompositions, compositions and quick-check values come from the
  `unicode-normalization` crate, simple case folding from
  `unicode-case-mapping`, confusable prototypes from `unicode-security`.
  Each call into those crates is a small trusted wrapper whose result is
  named by an uninterpreted function of its arguments, together with what
  the crate's tables show of that result (decompositions are complete,
  composites keep the decomposition of their pair, a quick-check No only
  comes for a character that decomposes, ASCII, ideographs, jamo and
  syllables have class 0, case folding targets and skeleton prototypes are
  final). The model of
  the data is the named result as those facts hold of it, so the laws above
  hold for every input; the trusted wrappers are where that is believed.

## Checking

Verification runs Verus over `src/`; the tests under `tests/` run against
the compiled library with the real data crates linked.
