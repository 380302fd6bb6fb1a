//! Byte slices and text: comparison, search, and the passage between the two.
use vstd::prelude::*;
use vstd::utf8::*;

verus! {

/// The text whose characters are the given bytes, one for one.
pub open spec fn ascii_text(bytes: Seq<u8>) -> Seq<char> {
    Seq::new(bytes.len(), |i: int| bytes[i] as char)
}

/// Every byte is below `0x80`.
pub open spec fn is_ascii_bytes(bytes: Seq<u8>) -> bool {
    forall|i: int| 0 <= i < bytes.len() ==> #[trigger] bytes[i] < 0x80
}

/// The first index at which `byte` stands in `bytes`, or the length where it does not occur.
pub open spec fn first_index(bytes: Seq<u8>, byte: u8) -> int
    decreases bytes.len(),
{
    if bytes.len() == 0 || bytes[0] == byte {
        0
    } else {
        1 + first_index(bytes.skip(1), byte)
    }
}

/// `first_index` points at the byte it looks for, and the byte does not occur before that.
pub proof fn lemma_first_index(bytes: Seq<u8>, byte: u8)
    ensures
        0 <= first_index(bytes, byte) <= bytes.len(),
        first_index(bytes, byte) < bytes.len() ==> bytes[first_index(bytes, byte)] == byte,
        forall|i: int| 0 <= i < first_index(bytes, byte) ==> #[trigger] bytes[i] != byte,
    decreases bytes.len(),
{
    if bytes.len() != 0 && bytes[0] != byte {
        let rest = bytes.skip(1);
        lemma_first_index(rest, byte);
        assert forall|i: int| 0 <= i < first_index(bytes, byte) implies #[trigger] bytes[i]
            != byte by {
            if i > 0 {
                assert(rest[i - 1] == bytes[i]);
            }
        }
    }
}

/// Whatever index has the two properties of `first_index` is that index.
pub proof fn lemma_first_index_is(bytes: Seq<u8>, byte: u8, at: int)
    requires
        0 <= at <= bytes.len(),
        at < bytes.len() ==> bytes[at] == byte,
        forall|i: int| 0 <= i < at ==> #[trigger] bytes[i] != byte,
    ensures
        first_index(bytes, byte) == at,
{
    lemma_first_index(bytes, byte);
    let found = first_index(bytes, byte);
    if found < at {
        assert(bytes[found] != byte);
    } else if at < found {
        assert(bytes[at] != byte);
    }
}

/// ASCII bytes are valid UTF-8, and the text they encode has those bytes as its characters.
pub proof fn lemma_ascii_text(bytes: Seq<u8>)
    requires
        is_ascii_bytes(bytes),
    ensures
        valid_utf8(bytes),
        encode_utf8(ascii_text(bytes)) == bytes,
{
    let text = ascii_text(bytes);
    assert forall|i: int| 0 <= i < text.len() implies (#[trigger] text[i] as u32) < 128 by {
        assert(bytes[i] < 0x80);
    }
    assert(is_ascii_chars(text));
    is_ascii_chars_encode_utf8(text);
    assert(encode_utf8(text) =~= bytes);
    encode_utf8_valid_utf8(text);
}

/// Texts with the same encoding are the same text.
pub proof fn lemma_encode_injective(a: Seq<char>, b: Seq<char>)
    requires
        encode_utf8(a) == encode_utf8(b),
    ensures
        a == b,
{
    encode_utf8_decode_utf8(a);
    encode_utf8_decode_utf8(b);
}

/// Text is encoded character by character.
pub proof fn lemma_encode_concat(a: Seq<char>, b: Seq<char>)
    ensures
        encode_utf8(a + b) == encode_utf8(a) + encode_utf8(b),
    decreases a.len(),
{
    if a.len() == 0 {
        assert(a + b =~= b);
        assert(encode_utf8(a) =~= Seq::<u8>::empty());
        assert(encode_utf8(a) + encode_utf8(b) =~= encode_utf8(b));
    } else {
        lemma_encode_concat(a.drop_first(), b);
        assert((a + b).drop_first() =~= a.drop_first() + b);
        assert((a + b)[0] == a[0]);
        assert(encode_utf8(a + b) =~= encode_utf8(a) + encode_utf8(b));
    }
}

/// Whether two slices hold the same bytes.
pub fn bytes_equal(a: &[u8], b: &[u8]) -> (equal: bool)
    ensures
        equal == (a@ == b@),
{
    if a.len() != b.len() {
        return false;
    }
    let mut i: usize = 0;
    while i < a.len()
        invariant
            i <= a.len(),
            a.len() == b.len(),
            forall|j: int| 0 <= j < i ==> a@[j] == b@[j],
        decreases a.len() - i,
    {
        if a[i] != b[i] {
            return false;
        }
        i += 1;
    }
    assert(a@ =~= b@);
    true
}

/// Whether two texts are the same.
pub fn text_equal(a: &str, b: &str) -> (equal: bool)
    ensures
        equal == (a@ == b@),
{
    let equal = bytes_equal(a.as_bytes(), b.as_bytes());
    proof {
        if equal {
            lemma_encode_injective(a@, b@);
        }
    }
    equal
}

/// Whether `bytes` begins with `prefix`.
pub fn starts_with(bytes: &[u8], prefix: &[u8]) -> (found: bool)
    ensures
        found == prefix@.is_prefix_of(bytes@),
{
    if bytes.len() < prefix.len() {
        return false;
    }
    let head = vstd::slice::slice_subrange(bytes, 0, prefix.len());
    bytes_equal(head, prefix)
}

/// Whether `bytes` ends with `suffix`.
pub fn ends_with(bytes: &[u8], suffix: &[u8]) -> (found: bool)
    ensures
        found == suffix@.is_suffix_of(bytes@),
{
    if bytes.len() < suffix.len() {
        return false;
    }
    let tail = vstd::slice::slice_subrange(bytes, bytes.len() - suffix.len(), bytes.len());
    bytes_equal(tail, suffix)
}

/// The first index of `byte`, or the length where it does not occur.
pub fn position(bytes: &[u8], byte: u8) -> (at: usize)
    ensures
        at == first_index(bytes@, byte),
{
    let mut i: usize = 0;
    while i < bytes.len()
        invariant
            i <= bytes.len(),
            forall|j: int| 0 <= j < i ==> #[trigger] bytes@[j] != byte,
        decreases bytes.len() - i,
    {
        if bytes[i] == byte {
            proof {
                lemma_first_index_is(bytes@, byte, i as int);
            }
            return i;
        }
        i += 1;
    }
    proof {
        lemma_first_index_is(bytes@, byte, i as int);
    }
    i
}

/// Calls `std::str::from_utf8`, which by its documentation accepts exactly the slices that are
/// valid UTF-8 and then gives the text that those bytes encode.
#[verifier::external_body]
fn text_from_utf8(bytes: &[u8]) -> (text: Option<String>)
    ensures
        text is Some <==> valid_utf8(bytes@),
        text matches Some(s) ==> encode_utf8(s@) == bytes@,
{
    std::str::from_utf8(bytes).ok().map(str::to_owned)
}

/// The text of ASCII bytes.
pub fn text_from_ascii(bytes: &[u8]) -> (text: String)
    requires
        is_ascii_bytes(bytes@),
    ensures
        text@ == ascii_text(bytes@),
{
    proof {
        lemma_ascii_text(bytes@);
    }
    match text_from_utf8(bytes) {
        Some(text) => {
            proof {
                lemma_encode_injective(text@, ascii_text(bytes@));
            }
            text
        },
        None => String::new(),
    }
}

/// Appends a slice.
pub fn append(bytes: &mut Vec<u8>, more: &[u8])
    ensures
        final(bytes)@ == old(bytes)@ + more@,
{
    bytes.extend_from_slice(more);
    assert(bytes@ =~= old(bytes)@ + more@);
}

/// A copy of some bytes.
pub fn copied(bytes: &[u8]) -> (copy: Vec<u8>)
    ensures
        copy@ == bytes@,
{
    let mut copy: Vec<u8> = Vec::new();
    append(&mut copy, bytes);
    assert(copy@ =~= bytes@);
    copy
}

/// A list of one byte.
pub fn single(byte: u8) -> (bytes: Vec<u8>)
    ensures
        bytes@ == seq![byte],
{
    let mut bytes: Vec<u8> = Vec::new();
    bytes.push(byte);
    assert(bytes@ =~= seq![byte]);
    bytes
}

} // verus!
