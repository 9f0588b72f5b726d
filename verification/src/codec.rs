use vstd::prelude::*;
use vstd::utf8::*;

use base64::Engine;

verus! {

/// What `base64::engine::general_purpose::STANDARD.encode` makes of some bytes.
pub uninterp spec fn base64_standard_encode(bytes: Seq<u8>) -> Seq<char>;

/// What `base64::engine::general_purpose::STANDARD.decode` makes of some
/// input bytes: the decoded bytes, or `None` where it reports an error.
pub uninterp spec fn base64_standard_decode(input: Seq<u8>) -> Option<Seq<u8>>;

/// Calls `base64::Engine::encode` of the `STANDARD` engine (padded, standard
/// alphabet). Claimed: the text is the named encoding of the bytes, and the
/// same engine decodes that text back to the same bytes (the engine writes
/// canonical padding, which its decoder accepts). The crate panics only when
/// the encoded length overflows `usize`; the bound on the input rules that out.
#[verifier::external_body]
pub(crate) fn b64_encode(bytes: &[u8]) -> (r: String)
    requires
        bytes@.len() <= usize::MAX / 2,
    ensures
        r@ == base64_standard_encode(bytes@),
        base64_standard_decode(encode_utf8(r@)) == Some(bytes@),
{
    base64::engine::general_purpose::STANDARD.encode(bytes)
}

/// Calls `base64::Engine::decode` of the `STANDARD` engine; an error becomes
/// `None`. Claimed: the result is the named decoding of the input.
#[verifier::external_body]
pub(crate) fn b64_decode(input: &[u8]) -> (r: Option<Vec<u8>>)
    ensures
        match r {
            Some(v) => base64_standard_decode(input@) == Some(v@),
            None => base64_standard_decode(input@) is None,
        },
{
    base64::engine::general_purpose::STANDARD.decode(input).ok()
}

/// Calls `String::from_utf8`; an error becomes `None`. As std documents it:
/// it succeeds exactly on valid UTF-8, and the string holds the decoded
/// characters.
#[verifier::external_body]
pub(crate) fn string_from_utf8(bytes: Vec<u8>) -> (r: Option<String>)
    ensures
        r is Some <==> valid_utf8(bytes@),
        r matches Some(s) ==> s@ == decode_utf8(bytes@),
{
    String::from_utf8(bytes).ok()
}

/// Calls `String::push`: the character is appended.
#[verifier::external_body]
pub(crate) fn push_char(s: &mut String, c: char)
    ensures
        final(s)@ == old(s)@.push(c),
{
    s.push(c)
}

/// The lowercase hexadecimal digit for a value below 16.
pub open spec fn hex_lower(d: u128) -> char {
    if d < 10 {
        (('0' as u32) + d) as char
    } else {
        (('a' as u32) + d - 10) as char
    }
}

/// How many hyphens stand before position `i` of a hyphenated UUID.
pub open spec fn hyphens_before(i: int) -> int {
    if i > 23 {
        4
    } else if i > 18 {
        3
    } else if i > 13 {
        2
    } else if i > 8 {
        1
    } else {
        0
    }
}

/// The hyphenated text of a UUID given by its 128-bit big-endian value:
/// 32 lowercase hex digits, most significant first, in groups 8-4-4-4-12.
pub open spec fn uuid_hyphenated(id: u128) -> Seq<char> {
    Seq::new(
        36,
        |i: int|
            if i == 8 || i == 13 || i == 18 || i == 23 {
                '-'
            } else {
                hex_lower((id >> ((124 - 4 * (i - hyphens_before(i))) as u128)) & 0xf)
            },
    )
}

/// Calls `uuid::Uuid::from_u128(id).as_hyphenated().to_string()`. Claimed, as
/// the uuid crate documents its hyphenated format: the 8-4-4-4-12 grouping of
/// the lowercase hex digits of the big-endian value.
#[verifier::external_body]
pub(crate) fn uuid_hyphenated_text(id: u128) -> (r: String)
    ensures
        r@ == uuid_hyphenated(id),
{
    uuid::Uuid::from_u128(id).as_hyphenated().to_string()
}

} // verus!
