//! Bytes, read as text.

use vstd::prelude::*;

verus! {

/// The text that bytes spell in UTF-8, when they spell one.
pub open spec fn utf8_in(b: Seq<u8>) -> Option<Seq<char>> {
    if vstd::utf8::valid_utf8(b) {
        Some(vstd::utf8::decode_utf8(b))
    } else {
        None
    }
}

/// `String::from_utf8` gives the text that the bytes spell in UTF-8, and an
/// error exactly when they are not UTF-8.
#[verifier::external_body]
pub(crate) fn utf8_text(b: &[u8]) -> (r: Option<String>)
    ensures
        match r {
            Some(s) => utf8_in(b@) == Some(s@),
            None => utf8_in(b@) is None,
        },
{
    String::from_utf8(b.to_vec()).ok()
}

/// What `String::from_utf8_lossy` makes of bytes: the text they spell, with
/// U+FFFD in place of what is not UTF-8.
pub uninterp spec fn utf8_lossy(b: Seq<u8>) -> Seq<char>;

/// `String::from_utf8_lossy` reads bytes as UTF-8 and puts U+FFFD in place of
/// what is not; bytes that are UTF-8 it leaves as they are.
#[verifier::external_body]
pub(crate) fn lossy_text(b: &[u8]) -> (r: String)
    ensures
        r@ == utf8_lossy(b@),
        utf8_in(b@) matches Some(s) ==> r@ == s,
{
    String::from_utf8_lossy(b).into_owned()
}

} // verus!
