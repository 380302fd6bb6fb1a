//! The outside codecs: base64, and the members of a JSON object.
//!
//! What the codecs compute is named, not defined: each wrapper below says that its result is the
//! name applied to its argument, and adds the few facts that the rest of the library rests on.
use base64::Engine as _;
use vstd::prelude::*;
use vstd::utf8::*;

verus! {

/// The padded base64 text of some bytes.
pub uninterp spec fn base64_encoded(bytes: Seq<u8>) -> Seq<char>;

/// The bytes that padded base64 text stands for, where it is such text.
pub uninterp spec fn base64_decoded(text: Seq<u8>) -> Option<Seq<u8>>;

/// The unpadded base64 text of some bytes.
pub uninterp spec fn base64_encoded_unpadded(bytes: Seq<u8>) -> Seq<char>;

/// The bytes that unpadded base64 text stands for, where it is such text.
pub uninterp spec fn base64_decoded_unpadded(text: Seq<u8>) -> Option<Seq<u8>>;

/// The member `key` of the object that the JSON document `document` is: `None` where the document
/// is not JSON, not an object or has no such member, `Some(Some(text))` where the member is a
/// string, and `Some(None)` where it is any other value.
pub uninterp spec fn json_member_of(document: Seq<u8>, key: Seq<char>) -> Option<Option<Seq<char>>>;

/// The characters of the standard base64 alphabet.
pub open spec fn is_base64_digit(c: char) -> bool {
    ||| 'A' <= c <= 'Z'
    ||| 'a' <= c <= 'z'
    ||| '0' <= c <= '9'
    ||| c == '+'
    ||| c == '/'
}

/// The length of the padded base64 text of `len` bytes.
pub open spec fn base64_len(len: nat) -> nat {
    (len + 2) / 3 * 4
}

/// The length of the unpadded base64 text of `len` bytes.
pub open spec fn base64_len_unpadded(len: nat) -> nat {
    (4 * len + 2) / 3
}

/// Whether the padded base64 text of `len` bytes can be held in memory at all.
pub open spec fn base64_fits(len: nat) -> bool {
    base64_len(len) <= isize::MAX
}

/// Calls `base64::engine::general_purpose::STANDARD.encode`. Its result is four characters for
/// each group of three bytes, from the standard alphabet and the padding sign, and `decode` of the
/// same engine gives the bytes back. The engine panics where the text would not fit in memory.
#[verifier::external_body]
pub(crate) fn encode_base64(bytes: &[u8]) -> (text: String)
    requires
        base64_fits(bytes@.len()),
    ensures
        text@ == base64_encoded(bytes@),
        text@.len() == base64_len(bytes@.len()),
        forall|i: int| 0 <= i < text@.len() ==> is_base64_digit(#[trigger] text@[i]) || text@[i] == '=',
        base64_decoded(encode_utf8(text@)) == Some(bytes@),
{
    base64::engine::general_purpose::STANDARD.encode(bytes)
}

/// Calls `base64::engine::general_purpose::STANDARD.decode`; an error becomes `None`.
#[verifier::external_body]
pub(crate) fn decode_base64(text: &[u8]) -> (bytes: Option<Vec<u8>>)
    ensures
        bytes is Some <==> base64_decoded(text@) is Some,
        bytes matches Some(b) ==> base64_decoded(text@) == Some(b@),
{
    base64::engine::general_purpose::STANDARD.decode(text).ok()
}

/// Calls `base64::engine::general_purpose::STANDARD_NO_PAD.encode`. Its result is four characters for
/// each group of three bytes, two for a last single byte and three for a last pair. It holds
/// characters of the standard alphabet only, and `decode` of the same engine gives the bytes back. The engine
/// `STANDARD` refuses the text where padding is missing from it, and otherwise decodes it to the
/// same bytes. The engine panics where the text would not fit in memory.
#[verifier::external_body]
pub(crate) fn encode_base64_unpadded(bytes: &[u8]) -> (text: String)
    requires
        base64_fits(bytes@.len()),
    ensures
        text@ == base64_encoded_unpadded(bytes@),
        text@.len() == base64_len_unpadded(bytes@.len()),
        forall|i: int| 0 <= i < text@.len() ==> is_base64_digit(#[trigger] text@[i]),
        base64_decoded_unpadded(encode_utf8(text@)) == Some(bytes@),
        base64_decoded(encode_utf8(text@)) matches Some(b) ==> b == bytes@,
{
    base64::engine::general_purpose::STANDARD_NO_PAD.encode(bytes)
}

/// Calls `base64::engine::general_purpose::STANDARD_NO_PAD.decode`; an error becomes `None`.
#[verifier::external_body]
pub(crate) fn decode_base64_unpadded(text: &[u8]) -> (bytes: Option<Vec<u8>>)
    ensures
        bytes is Some <==> base64_decoded_unpadded(text@) is Some,
        bytes matches Some(b) ==> base64_decoded_unpadded(text@) == Some(b@),
{
    base64::engine::general_purpose::STANDARD_NO_PAD.decode(text).ok()
}

/// The model of an optional member: its text, where it is a string.
pub open spec fn member_model(member: Option<Option<String>>) -> Option<Option<Seq<char>>> {
    match member {
        None => None,
        Some(None) => Some(None),
        Some(Some(text)) => Some(Some(text@)),
    }
}

/// Calls `serde_json::from_slice::<serde_json::Value>` and then `get` on the value; a parse error
/// counts as an absent member. What the member is depends on the document and the key alone.
#[verifier::external_body]
pub(crate) fn json_member(document: &[u8], key: &str) -> (member: Option<Option<String>>)
    ensures
        member_model(member) == json_member_of(document@, key@),
{
    let value = serde_json::from_slice::<serde_json::Value>(document).ok()?;
    value.get(key).map(|member| member.as_str().map(str::to_owned))
}

} // verus!
