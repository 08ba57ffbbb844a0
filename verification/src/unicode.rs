//! Canonical (NFC) text through `unicode_normalization`.

use unicode_normalization::UnicodeNormalization;
use vstd::prelude::*;

verus! {

/// The Unicode canonical composition (NFC) of `text`.
pub uninterp spec fn nfc_text(text: Seq<char>) -> Seq<char>;

/// Every character is ASCII.
pub open spec fn ascii_text(text: Seq<char>) -> bool {
    forall|i: int| 0 <= i < text.len() ==> (#[trigger] text[i] as u32) < 128
}

/// Normalizes `text` with `unicode_normalization`'s `nfc` iterator.
///
/// Claimed: the result is the name `nfc_text` of the argument; it is
/// already normalized (NFC is idempotent, as the Unicode standard defines
/// it); and ASCII text comes back unchanged (ASCII characters neither
/// decompose nor compose).
#[verifier::external_body]
pub fn canonical_text(text: &str) -> (r: String)
    ensures
        r@ == nfc_text(text@),
        nfc_text(r@) == r@,
        ascii_text(text@) ==> r@ == text@,
{
    text.nfc().collect()
}

} // verus!
