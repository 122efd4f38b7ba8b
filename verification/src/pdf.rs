//! The PDF object types of `lopdf` that the library handles, and the calls
//! into `lopdf` and `std` that the library makes on raw data.

use vstd::prelude::*;
use vstd::utf8::*;

verus! {

/// A PDF stream object of `lopdf`; the library only hands it to `lopdf`.
#[verifier::external_type_specification]
#[verifier::external_body]
pub struct ExStream(lopdf::Stream);

/// What `lopdf::Stream::decompressed_content` gives for a stream: its bytes
/// after the filters named in its dictionary are applied to its raw
/// content, or `None` where `lopdf` reports an error (an unknown filter,
/// corrupt data).
pub uninterp spec fn stream_bytes(stream: lopdf::Stream) -> Option<Seq<u8>>;

/// Calls `lopdf::Stream::decompressed_content`; its result is named
/// `stream_bytes`, and nothing more is stated of the decoding.
#[verifier::external_body]
pub(crate) fn decompressed_bytes(stream: &lopdf::Stream) -> (r: Option<Vec<u8>>)
    ensures
        match r {
            Some(v) => stream_bytes(*stream) == Some(v@),
            None => stream_bytes(*stream) is None,
        },
{
    stream.decompressed_content().ok()
}

/// The characters that `String::from_utf8_lossy` makes of a byte string:
/// its UTF-8 text, each invalid sequence replaced by U+FFFD.
pub uninterp spec fn utf8_lossy(bytes: Seq<u8>) -> Seq<char>;

/// Calls `String::from_utf8_lossy` and returns the characters of the text.
/// On valid UTF-8 the text is the decoded input, as `std` documents.
#[verifier::external_body]
pub(crate) fn lossy_chars(bytes: &[u8]) -> (r: Vec<char>)
    ensures
        r@ == utf8_lossy(bytes@),
        valid_utf8(bytes@) ==> r@ == decode_utf8(bytes@),
{
    String::from_utf8_lossy(bytes).chars().collect()
}

} // verus!

verus! {

/// Calls `char::from_u32`: the character with the given code point, or
/// `None` for a surrogate or a value above `0x10FFFF`, as `std` documents.
#[verifier::external_body]
pub(crate) fn char_from_u32(u: u32) -> (r: Option<char>)
    ensures
        r matches Some(c) ==> c == u as char,
        r is Some <==> (u < 0xD800 || (0xE000 <= u && u <= 0x10FFFF)),
{
    char::from_u32(u)
}

/// Calls `String::push`: appends one character.
#[verifier::external_body]
pub(crate) fn push_char(s: &mut String, c: char)
    ensures
        final(s)@ == old(s)@.push(c),
{
    s.push(c);
}

/// Calls `String::push_str`: appends a string.
#[verifier::external_body]
pub(crate) fn push_str(s: &mut String, t: &str)
    ensures
        final(s)@ == old(s)@ + t@,
{
    s.push_str(t);
}

} // verus!
