//! Conversions between raw bytes and text.

use vstd::prelude::*;
use vstd::utf8::{decode_utf8, valid_utf8};

verus! {

/// What `String::from_utf8_lossy` makes of a byte sequence: invalid
/// sequences become U+FFFD replacement characters.
pub uninterp spec fn lossy_utf8(b: Seq<u8>) -> Seq<char>;

/// Decodes bytes as UTF-8 with `String::from_utf8_lossy`. Its documentation
/// states that valid UTF-8 comes back unchanged; what replaces invalid
/// sequences is left to the name `lossy_utf8`.
#[verifier::external_body]
pub(crate) fn utf8_lossy(b: &[u8]) -> (s: String)
    ensures
        s@ == lossy_utf8(b@),
        valid_utf8(b@) ==> s@ == decode_utf8(b@),
{
    String::from_utf8_lossy(b).into_owned()
}

/// Decodes bytes as UTF-8 with `std::str::from_utf8`, which succeeds exactly
/// on valid UTF-8 and then gives the decoded characters.
#[verifier::external_body]
pub(crate) fn utf8_str(b: &[u8]) -> (r: Option<&str>)
    ensures
        r is Some <==> valid_utf8(b@),
        r matches Some(s) ==> s@ == decode_utf8(b@),
{
    std::str::from_utf8(b).ok()
}


/// What `str::to_lowercase` makes of a text: the Unicode lowercase
/// mapping of each character.
pub uninterp spec fn lowercase(s: Seq<char>) -> Seq<char>;

/// Lowercases with `str::to_lowercase`, whose result depends on the text
/// alone; the mapping is left to the name `lowercase`.
#[verifier::external_body]
pub(crate) fn to_lowercase(s: &str) -> (r: String)
    ensures
        r@ == lowercase(s@),
{
    s.to_lowercase()
}
} // verus!
