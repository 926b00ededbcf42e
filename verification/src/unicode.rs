//! What the library takes from the standard library's Unicode tables and decoder.

use vstd::prelude::*;
use vstd::utf8::{decode_utf8, is_ascii_chars, valid_utf8};

verus! {

/// The text that `String::from_utf8_lossy` makes of `bytes`.
pub uninterp spec fn lossy_text(bytes: Seq<u8>) -> Seq<char>;

/// The text that `str::to_lowercase` makes of `text`.
pub uninterp spec fn lowercase(text: Seq<char>) -> Seq<char>;

/// `text` is a faithful reading of `bytes` as far as they are UTF-8: bytes that are UTF-8
/// throughout read as what they encode, and a leading part that is UTF-8 reads as what it
/// encodes whatever follows it.
pub open spec fn reads_as(bytes: Seq<u8>, text: Seq<char>) -> bool {
    &&& valid_utf8(bytes) ==> text == decode_utf8(bytes)
    &&& forall|k: int|
        0 <= k <= bytes.len() && valid_utf8(#[trigger] bytes.subrange(0, k)) ==> decode_utf8(
            bytes.subrange(0, k),
        ).is_prefix_of(text)
}

/// The ASCII character `c`, with `A` to `Z` mapped to `a` to `z`.
pub open spec fn ascii_lower(c: char) -> char {
    if 'A' <= c <= 'Z' {
        ((c as u32 + 32) as u32) as char
    } else {
        c
    }
}

/// `text` with `A` to `Z` mapped to `a` to `z`.
pub open spec fn ascii_lowercase(text: Seq<char>) -> Seq<char> {
    text.map_values(|c: char| ascii_lower(c))
}

/// `lower` agrees with the ASCII lower case of `text` as far as `text` is ASCII.
pub open spec fn lowers_ascii(text: Seq<char>, lower: Seq<char>) -> bool {
    &&& is_ascii_chars(text) ==> lower == ascii_lowercase(text)
    &&& forall|k: int|
        0 <= k <= text.len() && is_ascii_chars(#[trigger] text.subrange(0, k)) ==> ascii_lowercase(
            text.subrange(0, k),
        ).is_prefix_of(lower)
}

/// Calls `String::from_utf8_lossy`. Its result is a function of the bytes. It replaces only
/// sequences that are not UTF-8, so what is UTF-8 up to some point is read unchanged up to
/// that point. How many replacement characters stand for what is not UTF-8 is left unsaid.
#[verifier::external_body]
pub(crate) fn decode_lossy(bytes: &[u8]) -> (text: String)
    ensures
        text@ == lossy_text(bytes@),
        reads_as(bytes@, text@),
{
    String::from_utf8_lossy(bytes).into_owned()
}

/// `str::to_lowercase` gives a result that is a function of the text, and maps ASCII
/// letters as `str::to_ascii_lowercase` does. What it makes of other characters is left
/// unsaid.
pub assume_specification[ str::to_lowercase ](text: &str) -> (lower: String)
    ensures
        lower@ == lowercase(text@),
        lowers_ascii(text@, lower@),
;

/// `String::push` appends one character.
pub assume_specification[ String::push ](text: &mut String, c: char)
    ensures
        final(text)@ == old(text)@.push(c),
;

} // verus!
