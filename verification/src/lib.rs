//! Unicode normalization (NFC, NFD, NFKC, NFKD), case folding, confusable
//! skeletons and a fused matching pipeline, with a fast scan that finds the
//! bytes of a string which may need work.

use vstd::prelude::*;

use std::borrow::Cow;

pub mod casefold;
pub mod ccc;
pub mod compose;
pub mod confusable;
pub mod decompose;
pub mod hangul;
pub mod matching;
pub mod normalizer;
pub mod quick_check;
pub mod simd;
pub mod tables;
pub mod text;
pub mod utf8;

pub use casefold::{casefold, casefold_char, CaseFoldMode};
pub use confusable::{are_confusable, skeleton};
pub use matching::{
    matches_normalized, normalize_for_matching, normalize_for_matching_legacy,
    normalize_for_matching_utf16, MatchingOptions,
};
pub use normalizer::{NfcNormalizer, NfdNormalizer, NfkcNormalizer, NfkdNormalizer};
pub use quick_check::IsNormalized;

use normalizer::{normalized, spec_is_normalized, Form};

verus! {

/// Return a pre-built NFC normalizer.
pub fn nfc() -> (r: NfcNormalizer)
    ensures
        r == (NfcNormalizer),
{
    NfcNormalizer::new()
}

/// Return a pre-built NFD normalizer.
pub fn nfd() -> (r: NfdNormalizer)
    ensures
        r == (NfdNormalizer),
{
    NfdNormalizer::new()
}

/// Return a pre-built NFKC normalizer.
pub fn nfkc() -> (r: NfkcNormalizer)
    ensures
        r == (NfkcNormalizer),
{
    NfkcNormalizer::new()
}

/// Return a pre-built NFKD normalizer.
pub fn nfkd() -> (r: NfkdNormalizer)
    ensures
        r == (NfkdNormalizer),
{
    NfkdNormalizer::new()
}

/// Convenience trait for normalizing `&str` slices.
///
/// All methods return `Cow<'_, str>`, which is `Cow::Borrowed` when the input
/// is already in the target normalization form (zero allocation).
pub trait UnicodeNormalization {
    /// Normalize to NFC (Canonical Decomposition, followed by Canonical Composition).
    fn nfc(&self) -> Cow<'_, str>;

    /// Normalize to NFD (Canonical Decomposition).
    fn nfd(&self) -> Cow<'_, str>;

    /// Normalize to NFKC (Compatibility Decomposition, followed by Canonical Composition).
    fn nfkc(&self) -> Cow<'_, str>;

    /// Normalize to NFKD (Compatibility Decomposition).
    fn nfkd(&self) -> Cow<'_, str>;

    /// Check whether the string is already in NFC.
    fn is_nfc(&self) -> bool;

    /// Check whether the string is already in NFD.
    fn is_nfd(&self) -> bool;

    /// Check whether the string is already in NFKC.
    fn is_nfkc(&self) -> bool;

    /// Check whether the string is already in NFKD.
    fn is_nfkd(&self) -> bool;
}

impl UnicodeNormalization for str {
    fn nfc(&self) -> (r: Cow<'_, str>)
        ensures
            r@ == normalized(Form::Nfc, self@),
            r is Borrowed <==> r@ == self@,
            normalized(Form::Nfc, r@) == r@,
            spec_is_normalized(Form::Nfc, r@),
            normalized(Form::Nfd, r@) == normalized(Form::Nfd, self@),
    {
        crate::nfc().normalize(self)
    }

    fn nfd(&self) -> (r: Cow<'_, str>)
        ensures
            r@ == normalized(Form::Nfd, self@),
            r is Borrowed <==> r@ == self@,
            normalized(Form::Nfd, r@) == r@,
            spec_is_normalized(Form::Nfd, r@),
    {
        crate::nfd().normalize(self)
    }

    fn nfkc(&self) -> (r: Cow<'_, str>)
        ensures
            r@ == normalized(Form::Nfkc, self@),
            r is Borrowed <==> r@ == self@,
            normalized(Form::Nfkc, r@) == r@,
            spec_is_normalized(Form::Nfkc, r@),
            normalized(Form::Nfkd, r@) == normalized(Form::Nfkd, self@),
    {
        crate::nfkc().normalize(self)
    }

    fn nfkd(&self) -> (r: Cow<'_, str>)
        ensures
            r@ == normalized(Form::Nfkd, self@),
            r is Borrowed <==> r@ == self@,
            normalized(Form::Nfkd, r@) == r@,
            spec_is_normalized(Form::Nfkd, r@),
    {
        crate::nfkd().normalize(self)
    }

    fn is_nfc(&self) -> (r: bool)
        ensures
            r == spec_is_normalized(Form::Nfc, self@),
    {
        crate::nfc().is_normalized(self)
    }

    fn is_nfd(&self) -> (r: bool)
        ensures
            r == spec_is_normalized(Form::Nfd, self@),
    {
        crate::nfd().is_normalized(self)
    }

    fn is_nfkc(&self) -> (r: bool)
        ensures
            r == spec_is_normalized(Form::Nfkc, self@),
    {
        crate::nfkc().is_normalized(self)
    }

    fn is_nfkd(&self) -> (r: bool)
        ensures
            r == spec_is_normalized(Form::Nfkd, self@),
    {
        crate::nfkd().is_normalized(self)
    }
}

} // verus!
