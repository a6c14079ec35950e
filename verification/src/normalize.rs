//! Unicode normalization utilities.

use unicode_normalization::UnicodeNormalization;
use vstd::prelude::*;
use vstd::utf8::is_ascii_chars;

verus! {

/// The Unicode NFC form of a string, as `unicode_normalization` computes it.
pub uninterp spec fn nfc_of(s: Seq<char>) -> Seq<char>;

/// The NFC forms that the `unicode_normalization` crate's own checks of
/// `nfc` expect (`test_nfc` in its test.rs): `Some` of the normal form for
/// each of those inputs, `None` for every other string.
pub open spec fn nfc_checked_form(s: Seq<char>) -> Option<Seq<char>> {
    if s == seq!['a', 'b', 'c'] {
        Some(seq!['a', 'b', 'c'])
    } else if s == seq!['\u{1e0b}', '\u{1c4}'] {
        Some(seq!['\u{1e0b}', '\u{1c4}'])
    } else if s == seq!['\u{2026}'] {
        Some(seq!['\u{2026}'])
    } else if s == seq!['\u{2126}'] {
        Some(seq!['\u{3a9}'])
    } else if s == seq!['\u{1e0b}', '\u{323}'] {
        Some(seq!['\u{1e0d}', '\u{307}'])
    } else if s == seq!['\u{1e0d}', '\u{307}'] {
        Some(seq!['\u{1e0d}', '\u{307}'])
    } else if s == seq!['a', '\u{301}'] {
        Some(seq!['\u{e1}'])
    } else if s == seq!['\u{301}', 'a'] {
        Some(seq!['\u{301}', 'a'])
    } else if s == seq!['\u{d4db}'] {
        Some(seq!['\u{d4db}'])
    } else if s == seq!['\u{ac1c}'] {
        Some(seq!['\u{ac1c}'])
    } else if s == seq!['a', '\u{300}', '\u{305}', '\u{315}', '\u{5ae}', 'b'] {
        Some(seq!['\u{e0}', '\u{5ae}', '\u{305}', '\u{315}', 'b'])
    } else {
        None
    }
}

/// Calls `UnicodeNormalization::nfc` of the `unicode_normalization` crate on
/// a string and collects the characters. The contract claims:
/// - the result is a function of the input characters alone (the crate's
///   composition tables are fixed data);
/// - the result is itself in NFC, so normalizing it again changes nothing:
///   the crate implements the Normalization Forms of Unicode Standard
///   Annex #15 (its crate documentation), under which a normal form is
///   stable;
/// - an all-ASCII string comes back unchanged: in the crate's source 7-bit
///   ASCII never decomposes (`decompose` in normalize.rs) and is always an
///   allowed starter for NFC (`quick_check` in quick_check.rs);
/// - the inputs that the crate's own checks of `nfc` list give the forms
///   those checks expect (`nfc_checked_form`).
/// What NFC does to other strings is not stated here.
#[verifier::external_body]
fn nfc_collect(text: &str) -> (r: String)
    ensures
        r@ == nfc_of(text@),
        nfc_of(r@) == r@,
        is_ascii_chars(text@) ==> r@ == text@,
        nfc_checked_form(text@) is Some ==> r@ == nfc_checked_form(text@)->0,
{
    text.nfc().collect()
}

/// Normalizes text to Unicode NFC (Canonical Composition) form.
///
/// NFC normalization ensures that equivalent Unicode sequences are
/// represented identically: 'é' as U+00E9 and as U+0065 U+0301 both become
/// the precomposed U+00E9.
///
/// The result is in NFC: normalizing it again gives it back.
pub fn normalize_nfc(text: &str) -> (r: String)
    ensures
        r@ == nfc_of(text@),
        nfc_of(r@) == r@,
        is_ascii_chars(text@) ==> r@ == text@,
        nfc_checked_form(text@) is Some ==> r@ == nfc_checked_form(text@)->0,
{
    nfc_collect(text)
}

} // verus!
