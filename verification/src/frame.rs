//! Frames of Kitty's OSC 5113 file-transfer protocol.
//!
//! A frame is one operating-system command: an introducer, `key=value` fields parted by `;`, and a
//! terminator. This module recognises frames and reads their metadata. It does not decode file
//! data and does not touch the filesystem.
use vstd::prelude::*;
use vstd::utf8::*;

use crate::bytes;
use crate::codec;
use crate::frame_laws;

verus! {

/// The longest frame that is accepted, introducer and terminator included.
pub const MAX_TRANSFER_COMMAND_BYTES: usize = 65536;

/// The longest session id that is accepted.
pub const MAX_TRANSFER_ID_BYTES: usize = 256;

/// `ESC ] 5 1 1 3 ;`
pub const OSC_INTRODUCER: [u8; 7] = [0x1b, 0x5d, 0x35, 0x31, 0x31, 0x33, 0x3b];

/// `C1-OSC 5 1 1 3 ;`
pub const C1_INTRODUCER: [u8; 6] = [0x9d, 0x35, 0x31, 0x31, 0x33, 0x3b];

/// The BEL terminator.
pub const BEL: [u8; 1] = [0x07];

/// The ST terminator, `ESC \`.
pub const ST: [u8; 2] = [0x1b, 0x5c];

/// The C1 form of the ST terminator.
pub const C1_ST: [u8; 1] = [0x9c];

/// `ac`
pub const ACTION_KEY: [u8; 2] = [0x61, 0x63];

/// `id`
pub const ID_KEY: [u8; 2] = [0x69, 0x64];

/// `st=`
pub const STATUS_PREFIX: [u8; 3] = [0x73, 0x74, 0x3d];

/// `fid=`
pub const FILE_ID_PREFIX: [u8; 4] = [0x66, 0x69, 0x64, 0x3d];

/// What follows the introducer of `raw`.
pub open spec fn after_introducer(raw: Seq<u8>) -> Option<Seq<u8>> {
    if OSC_INTRODUCER@.is_prefix_of(raw) {
        Some(raw.skip(7))
    } else if C1_INTRODUCER@.is_prefix_of(raw) {
        Some(raw.skip(6))
    } else {
        None
    }
}

/// What stands before the terminator of `rest`.
pub open spec fn before_terminator(rest: Seq<u8>) -> Option<Seq<u8>> {
    if BEL@.is_suffix_of(rest) {
        Some(rest.take(rest.len() - 1))
    } else if ST@.is_suffix_of(rest) {
        Some(rest.take(rest.len() - 2))
    } else if C1_ST@.is_suffix_of(rest) {
        Some(rest.take(rest.len() - 1))
    } else {
        None
    }
}

/// The bytes between introducer and terminator of a frame that is not too long.
pub open spec fn payload_of(raw: Seq<u8>) -> Option<Seq<u8>> {
    if raw.len() > MAX_TRANSFER_COMMAND_BYTES {
        None
    } else {
        match after_introducer(raw) {
            None => None,
            Some(rest) => before_terminator(rest),
        }
    }
}

/// The fields of a payload: what stands between the `;` signs.
pub open spec fn fields_of(payload: Seq<u8>) -> Seq<Seq<u8>>
    decreases payload.len(),
{
    let end = bytes::first_index(payload, 0x3b);
    if !(0 <= end < payload.len()) {
        seq![payload]
    } else {
        seq![payload.take(end)] + fields_of(payload.skip(end + 1))
    }
}

/// What stands before the first `=` of a field.
pub open spec fn key_of(field: Seq<u8>) -> Seq<u8> {
    field.take(bytes::first_index(field, 0x3d))
}

/// What stands after the first `=` of a field.
pub open spec fn value_of(field: Seq<u8>) -> Seq<u8> {
    field.skip(bytes::first_index(field, 0x3d) + 1)
}

/// Letters and digits.
pub open spec fn is_alphanumeric(byte: u8) -> bool {
    ||| 0x30 <= byte <= 0x39
    ||| 0x41 <= byte <= 0x5a
    ||| 0x61 <= byte <= 0x7a
}

/// The bytes that a key may hold: letters, digits and `_`.
pub open spec fn is_key_byte(byte: u8) -> bool {
    is_alphanumeric(byte) || byte == 0x5f
}

/// The bytes that a value may hold: printable ASCII.
pub open spec fn is_value_byte(byte: u8) -> bool {
    0x20 <= byte <= 0x7e
}

/// The characters that a session id may hold: letters, digits and `_:./@-`.
pub open spec fn is_id_char(c: char) -> bool {
    ||| '0' <= c <= '9'
    ||| 'A' <= c <= 'Z'
    ||| 'a' <= c <= 'z'
    ||| c == '_'
    ||| c == ':'
    ||| c == '.'
    ||| c == '/'
    ||| c == '@'
    ||| c == '-'
}

/// A field of a frame: a key and a value, both of the bytes they may hold, the key not empty.
pub open spec fn is_field(field: Seq<u8>) -> bool {
    &&& bytes::first_index(field, 0x3d) < field.len()
    &&& key_of(field).len() > 0
    &&& forall|i: int| 0 <= i < key_of(field).len() ==> is_key_byte(#[trigger] key_of(field)[i])
    &&& forall|i: int|
        0 <= i < value_of(field).len() ==> is_value_byte(#[trigger] value_of(field)[i])
}

/// The values that `fields` gives to `key`, in order.
pub open spec fn values_for(fields: Seq<Seq<u8>>, key: Seq<u8>) -> Seq<Seq<u8>> {
    fields.filter(|field: Seq<u8>| key_of(field) == key).map_values(
        |field: Seq<u8>| value_of(field),
    )
}

/// The actions of the protocol.
pub open spec fn is_action(text: Seq<char>) -> bool {
    ||| text == "send"@
    ||| text == "receive"@
    ||| text == "file"@
    ||| text == "data"@
    ||| text == "end_data"@
    ||| text == "status"@
    ||| text == "finish"@
    ||| text == "cancel"@
}

/// The actions with which a session begins.
pub open spec fn is_start_action(text: Seq<char>) -> bool {
    text == "send"@ || text == "receive"@
}

/// The actions with which the initiating side ends a session.
pub open spec fn is_end_action(text: Seq<char>) -> bool {
    text == "finish"@ || text == "cancel"@
}

/// The actions with which a terminal answers.
pub open spec fn is_response_action(text: Seq<char>) -> bool {
    ||| text == "status"@
    ||| text == "file"@
    ||| text == "data"@
    ||| text == "end_data"@
}

/// Text of the characters that a session id may hold.
pub open spec fn is_id_text(text: Seq<char>) -> bool {
    forall|i: int| 0 <= i < text.len() ==> is_id_char(#[trigger] text[i])
}

/// The session ids that are accepted.
pub open spec fn is_session_id(id: Seq<char>) -> bool {
    0 < id.len() <= MAX_TRANSFER_ID_BYTES && is_id_text(id)
}

/// The action and the session id of the fields of a frame: every field is well formed, there is
/// exactly one action and exactly one id, the action is known and the id is acceptable.
pub open spec fn action_and_id_of(fields: Seq<Seq<u8>>) -> Option<(Seq<char>, Seq<char>)> {
    let actions = values_for(fields, ACTION_KEY@);
    let ids = values_for(fields, ID_KEY@);
    if {
        &&& forall|i: int| 0 <= i < fields.len() ==> is_field(#[trigger] fields[i])
        &&& actions.len() == 1
        &&& ids.len() == 1
        &&& is_action(bytes::ascii_text(actions[0]))
        &&& is_session_id(bytes::ascii_text(ids[0]))
    } {
        Some((bytes::ascii_text(actions[0]), bytes::ascii_text(ids[0])))
    } else {
        None
    }
}

/// The action and the session id of a frame; `None` where `raw` is not exactly one frame.
pub open spec fn frame_of(raw: Seq<u8>) -> Option<(Seq<char>, Seq<char>)> {
    match payload_of(raw) {
        None => None,
        Some(payload) => action_and_id_of(fields_of(payload)),
    }
}

/// Whether `raw` is a terminal's answer in the session `id`.
pub open spec fn is_terminal_response(raw: Seq<u8>, id: Seq<char>) -> bool {
    frame_of(raw) matches Some((action, session)) && session == id && is_response_action(action)
}

/// The status text that a status value stands for. Both padded and unpadded base64 are valid.
pub open spec fn status_of(value: Seq<u8>) -> Option<Seq<u8>> {
    match codec::base64_decoded(value) {
        Some(status) => Some(status),
        None => codec::base64_decoded_unpadded(value),
    }
}

/// The values of the status fields, in order.
pub open spec fn status_values(fields: Seq<Seq<u8>>) -> Seq<Seq<u8>> {
    fields.filter(|field: Seq<u8>| STATUS_PREFIX@.is_prefix_of(field)).map_values(
        |field: Seq<u8>| field.skip(3),
    )
}

/// The status texts that do not end a session: `OK`, `STARTED` and `PROGRESS`.
pub open spec fn is_progress_status(status: Seq<u8>) -> bool {
    ||| status == encode_utf8("OK"@)
    ||| status == encode_utf8("STARTED"@)
    ||| status == encode_utf8("PROGRESS"@)
}

/// Whether a frame ends its session with an error: it names no file, and its last status decodes
/// to something other than progress.
pub open spec fn is_session_error(raw: Seq<u8>) -> bool {
    match payload_of(raw) {
        None => false,
        Some(payload) => {
            let fields = fields_of(payload);
            let values = status_values(fields);
            &&& forall|i: int|
                0 <= i < fields.len() ==> !FILE_ID_PREFIX@.is_prefix_of(#[trigger] fields[i])
            &&& values.len() > 0
            &&& status_of(values.last()) matches Some(status) && !is_progress_status(status)
        },
    }
}

/// Whether a status text reports a refused permission.
pub open spec fn is_denial(status: Seq<u8>) -> bool {
    status == encode_utf8("EPERM"@) || encode_utf8("EPERM:"@).is_prefix_of(status)
}

/// Whether a status value decodes to a refused permission.
pub open spec fn value_denies(value: Seq<u8>) -> bool {
    status_of(value) matches Some(status) && is_denial(status)
}

/// Whether some status of a frame reports a refused permission.
pub open spec fn is_permission_denied(raw: Seq<u8>) -> bool {
    match payload_of(raw) {
        None => false,
        Some(payload) => {
            let values = status_values(fields_of(payload));
            exists|i: int| 0 <= i < values.len() && value_denies(#[trigger] values[i])
        },
    }
}

/// The bytes behind a list of slices.
pub open spec fn views(slices: Seq<&[u8]>) -> Seq<Seq<u8>> {
    slices.map_values(|slice: &[u8]| slice@)
}

/// What one more field adds to the values of a key.
pub proof fn lemma_values_push(fields: Seq<Seq<u8>>, field: Seq<u8>, key: Seq<u8>)
    ensures
        values_for(fields.push(field), key) == (if key_of(field) == key {
            values_for(fields, key).push(value_of(field))
        } else {
            values_for(fields, key)
        }),
{
    let has_key = |f: Seq<u8>| key_of(f) == key;
    fields.lemma_filter_push(field, has_key);
    if key_of(field) == key {
        assert(values_for(fields.push(field), key) =~= values_for(fields, key).push(
            value_of(field),
        ));
    }
}

/// The first fields give a key no more values than all of them.
proof fn lemma_values_prefix(fields: Seq<Seq<u8>>, n: int, key: Seq<u8>)
    requires
        0 <= n <= fields.len(),
    ensures
        values_for(fields.take(n), key).len() <= values_for(fields, key).len(),
{
    let has_key = |f: Seq<u8>| key_of(f) == key;
    assert(fields =~= fields.take(n) + fields.skip(n));
    Seq::filter_distributes_over_add(fields.take(n), fields.skip(n), has_key);
}

/// The fields of a payload, as slices of it.
fn split_fields<'a>(payload: &'a [u8]) -> (fields: Vec<&'a [u8]>)
    ensures
        views(fields@) == fields_of(payload@),
{
    let mut fields: Vec<&'a [u8]> = Vec::new();
    let mut rest = payload;
    assert(views(fields@) + fields_of(rest@) =~= fields_of(payload@));
    loop
        invariant
            views(fields@) + fields_of(rest@) == fields_of(payload@),
        decreases rest@.len(),
    {
        let end = bytes::position(rest, 0x3b);
        let ghost before = views(fields@);
        proof {
            bytes::lemma_first_index(rest@, 0x3b);
        }
        if end >= rest.len() {
            fields.push(rest);
            assert(views(fields@) =~= before + seq![rest@]);
            return fields;
        }
        let field = vstd::slice::slice_subrange(rest, 0, end);
        let next = vstd::slice::slice_subrange(rest, end + 1, rest.len());
        fields.push(field);
        proof {
            assert(field@ =~= rest@.take(end as int));
            assert(next@ =~= rest@.skip(end + 1));
            assert(views(fields@) =~= before + seq![field@]);
            assert(before + (seq![field@] + fields_of(next@)) =~= before + seq![field@] + fields_of(next@));
        }
        rest = next;
    }
}

fn is_key(key: &[u8]) -> (valid: bool)
    ensures
        valid == (key@.len() > 0 && forall|i: int|
            0 <= i < key@.len() ==> is_key_byte(#[trigger] key@[i])),
{
    let mut i: usize = 0;
    while i < key.len()
        invariant
            i <= key.len(),
            forall|j: int| 0 <= j < i ==> is_key_byte(#[trigger] key@[j]),
        decreases key.len() - i,
    {
        let byte = key[i];
        if !(matches!(byte, 0x30..=0x39 | 0x41..=0x5a | 0x61..=0x7a) || byte == 0x5f) {
            assert(!is_key_byte(key@[i as int]));
            return false;
        }
        i += 1;
    }
    key.len() > 0
}

fn is_value(value: &[u8]) -> (valid: bool)
    ensures
        valid == forall|i: int| 0 <= i < value@.len() ==> is_value_byte(#[trigger] value@[i]),
{
    let mut i: usize = 0;
    while i < value.len()
        invariant
            i <= value.len(),
            forall|j: int| 0 <= j < i ==> is_value_byte(#[trigger] value@[j]),
        decreases value.len() - i,
    {
        if !(0x20 <= value[i] && value[i] <= 0x7e) {
            assert(!is_value_byte(value@[i as int]));
            return false;
        }
        i += 1;
    }
    true
}

fn accepts_id(id: &[u8]) -> (valid: bool)
    requires
        bytes::is_ascii_bytes(id@),
    ensures
        valid == is_session_id(bytes::ascii_text(id@)),
{
    if id.len() == 0 || id.len() > MAX_TRANSFER_ID_BYTES {
        return false;
    }
    let mut i: usize = 0;
    while i < id.len()
        invariant
            i <= id.len(),
            bytes::is_ascii_bytes(id@),
            forall|j: int| 0 <= j < i ==> is_id_char(#[trigger] bytes::ascii_text(id@)[j]),
        decreases id.len() - i,
    {
        let byte = id[i];
        assert(bytes::ascii_text(id@)[i as int] == byte as char);
        assert(id@[i as int] < 0x80);
        if !matches!(
            byte,
            0x30..=0x39 | 0x41..=0x5a | 0x61..=0x7a | 0x5f | 0x3a | 0x2e | 0x2f | 0x40 | 0x2d
        ) {
            assert(!is_id_char(bytes::ascii_text(id@)[i as int]));
            return false;
        }
        i += 1;
    }
    true
}

fn known_action(action: &str) -> (known: bool)
    ensures
        known == is_action(action@),
{
    bytes::text_equal(action, "send") || bytes::text_equal(action, "receive")
        || bytes::text_equal(action, "file") || bytes::text_equal(action, "data")
        || bytes::text_equal(action, "end_data") || bytes::text_equal(action, "status")
        || bytes::text_equal(action, "finish") || bytes::text_equal(action, "cancel")
}

/// The payload of a frame: what stands between its introducer and its terminator. `None` where
/// `raw` is too long or lacks one of the two.
pub fn transfer_payload(raw: &[u8]) -> (payload: Option<&[u8]>)
    ensures
        payload is Some <==> payload_of(raw@) is Some,
        payload matches Some(p) ==> payload_of(raw@) == Some(p@),
{
    if raw.len() > MAX_TRANSFER_COMMAND_BYTES {
        return None;
    }
    let rest = if bytes::starts_with(raw, &OSC_INTRODUCER) {
        vstd::slice::slice_subrange(raw, 7, raw.len())
    } else if bytes::starts_with(raw, &C1_INTRODUCER) {
        vstd::slice::slice_subrange(raw, 6, raw.len())
    } else {
        return None;
    };
    assert(after_introducer(raw@) == Some(rest@));
    if bytes::ends_with(rest, &BEL) {
        Some(vstd::slice::slice_subrange(rest, 0, rest.len() - 1))
    } else if bytes::ends_with(rest, &ST) {
        Some(vstd::slice::slice_subrange(rest, 0, rest.len() - 2))
    } else if bytes::ends_with(rest, &C1_ST) {
        Some(vstd::slice::slice_subrange(rest, 0, rest.len() - 1))
    } else {
        None
    }
}

/// Accepts one complete protocol frame, never arbitrary terminal input, and gives its action and
/// its session id. Values are ASCII on the wire; binary data, paths and status text use base64.
pub fn parse_action_and_id(raw: &[u8]) -> (parsed: Option<(String, String)>)
    ensures
        parsed is Some <==> frame_of(raw@) is Some,
        parsed matches Some((action, id)) ==> frame_of(raw@) == Some((action@, id@)),
{
    let payload = match transfer_payload(raw) {
        Some(payload) => payload,
        None => return None,
    };
    let fields = split_fields(payload);
    let ghost all = fields_of(payload@);
    let mut action: Option<&[u8]> = None;
    let mut id: Option<&[u8]> = None;
    let mut i: usize = 0;
    assert(all.take(0) =~= Seq::<Seq<u8>>::empty());
    assert(values_for(all.take(0), ACTION_KEY@) =~= Seq::<Seq<u8>>::empty());
    assert(values_for(all.take(0), ID_KEY@) =~= Seq::<Seq<u8>>::empty());
    while i < fields.len()
        invariant
            i <= fields.len(),
            views(fields@) == all,
            all == fields_of(payload@),
            payload_of(raw@) == Some(payload@),
            forall|j: int| 0 <= j < i ==> is_field(#[trigger] all[j]),
            values_for(all.take(i as int), ACTION_KEY@) == (match action {
                Some(value) => seq![value@],
                None => Seq::<Seq<u8>>::empty(),
            }),
            values_for(all.take(i as int), ID_KEY@) == (match id {
                Some(value) => seq![value@],
                None => Seq::<Seq<u8>>::empty(),
            }),
            action matches Some(value) ==> bytes::is_ascii_bytes(value@),
            id matches Some(value) ==> bytes::is_ascii_bytes(value@),
        decreases fields.len() - i,
    {
        let field = fields[i];
        assert(all[i as int] == field@);
        proof {
            bytes::lemma_first_index(field@, 0x3d);
        }
        let separator = bytes::position(field, 0x3d);
        if separator >= field.len() {
            return None;
        }
        let key = vstd::slice::slice_subrange(field, 0, separator);
        let value = vstd::slice::slice_subrange(field, separator + 1, field.len());
        assert(key@ =~= key_of(field@));
        assert(value@ =~= value_of(field@));
        if !is_key(key) {
            return None;
        }
        // In particular reject embedded ESC, BEL and ST, and concatenated frames.
        if !is_value(value) {
            return None;
        }
        assert(bytes::is_ascii_bytes(value@)) by {
            assert forall|j: int| 0 <= j < value@.len() implies #[trigger] value@[j] < 0x80 by {
                assert(is_value_byte(value@[j]));
            }
        }
        let names_action = bytes::bytes_equal(key, &ACTION_KEY);
        let names_id = bytes::bytes_equal(key, &ID_KEY);
        proof {
            assert(all.take(i + 1) =~= all.take(i as int).push(all[i as int]));
            lemma_values_push(all.take(i as int), all[i as int], ACTION_KEY@);
            lemma_values_push(all.take(i as int), all[i as int], ID_KEY@);
            lemma_values_prefix(all, i + 1, ACTION_KEY@);
            lemma_values_prefix(all, i + 1, ID_KEY@);
            assert(ACTION_KEY@[0] != ID_KEY@[0]);
        }
        if names_action {
            if action.is_some() {
                return None;
            }
            action = Some(value);
            assert(values_for(all.take(i + 1), ACTION_KEY@) =~= seq![value@]);
        } else if names_id {
            if id.is_some() {
                return None;
            }
            id = Some(value);
            assert(values_for(all.take(i + 1), ID_KEY@) =~= seq![value@]);
        }
        i += 1;
    }
    assert(all.take(i as int) =~= all);
    match (action, id) {
        (Some(action), Some(id)) => {
            let text = bytes::text_from_ascii(action);
            if !known_action(text.as_str()) || !accepts_id(id) {
                return None;
            }
            Some((text, bytes::text_from_ascii(id)))
        },
        _ => None,
    }
}

/// Whether `raw` is one frame with which a terminal answers in the session `expected_id`.
pub fn terminal_response(raw: &[u8], expected_id: &str) -> (response: bool)
    ensures
        response == is_terminal_response(raw@, expected_id@),
{
    match parse_action_and_id(raw) {
        Some((action, id)) => {
            bytes::text_equal(id.as_str(), expected_id) && (bytes::text_equal(
                action.as_str(),
                "status",
            ) || bytes::text_equal(action.as_str(), "file") || bytes::text_equal(
                action.as_str(),
                "data",
            ) || bytes::text_equal(action.as_str(), "end_data"))
        },
        None => false,
    }
}

/// The status text of a status value. Kitty's encoder omits padding; both forms are valid on the
/// wire.
fn decode_status(value: &[u8]) -> (status: Option<Vec<u8>>)
    ensures
        status is Some <==> status_of(value@) is Some,
        status matches Some(s) ==> status_of(value@) == Some(s@),
{
    match codec::decode_base64(value) {
        Some(status) => Some(status),
        None => codec::decode_base64_unpadded(value),
    }
}

/// Whether a decoded status text is an error, that is, none of the texts of progress.
pub fn is_failure_status(status: &[u8]) -> (failure: bool)
    ensures
        failure == !is_progress_status(status@),
{
    !(bytes::bytes_equal(status, "OK".as_bytes()) || bytes::bytes_equal(
        status,
        "STARTED".as_bytes(),
    ) || bytes::bytes_equal(status, "PROGRESS".as_bytes()))
}

/// Whether a decoded status text reports a refused permission.
pub fn is_denial_status(status: &[u8]) -> (denial: bool)
    ensures
        denial == is_denial(status@),
{
    bytes::bytes_equal(status, "EPERM".as_bytes()) || bytes::starts_with(
        status,
        "EPERM:".as_bytes(),
    )
}

/// What one more field adds to the status values.
pub proof fn lemma_status_push(fields: Seq<Seq<u8>>, field: Seq<u8>)
    ensures
        status_values(fields.push(field)) == (if STATUS_PREFIX@.is_prefix_of(field) {
            status_values(fields).push(field.skip(3))
        } else {
            status_values(fields)
        }),
{
    let has_status = |f: Seq<u8>| STATUS_PREFIX@.is_prefix_of(f);
    fields.lemma_filter_push(field, has_status);
    if STATUS_PREFIX@.is_prefix_of(field) {
        assert(status_values(fields.push(field)) =~= status_values(fields).push(field.skip(3)));
    }
}

/// Whether a frame ends its session with an error. An error that names a file concerns that file
/// alone.
pub fn session_error(raw: &[u8]) -> (error: bool)
    ensures
        error == is_session_error(raw@),
{
    let payload = match transfer_payload(raw) {
        Some(payload) => payload,
        None => return false,
    };
    let fields = split_fields(payload);
    let ghost all = fields_of(payload@);
    let mut latest: Option<&[u8]> = None;
    let mut i: usize = 0;
    assert(all.take(0) =~= Seq::<Seq<u8>>::empty());
    assert(status_values(all.take(0)) =~= Seq::<Seq<u8>>::empty());
    while i < fields.len()
        invariant
            i <= fields.len(),
            views(fields@) == all,
            all == fields_of(payload@),
            payload_of(raw@) == Some(payload@),
            forall|j: int| 0 <= j < i ==> !FILE_ID_PREFIX@.is_prefix_of(#[trigger] all[j]),
            latest is Some <==> status_values(all.take(i as int)).len() > 0,
            latest matches Some(value) ==> value@ == status_values(all.take(i as int)).last(),
        decreases fields.len() - i,
    {
        let field = fields[i];
        assert(all[i as int] == field@);
        if bytes::starts_with(field, &FILE_ID_PREFIX) {
            return false;
        }
        proof {
            assert(all.take(i + 1) =~= all.take(i as int).push(all[i as int]));
            lemma_status_push(all.take(i as int), all[i as int]);
        }
        if bytes::starts_with(field, &STATUS_PREFIX) {
            latest = Some(vstd::slice::slice_subrange(field, 3, field.len()));
        }
        i += 1;
    }
    assert(all.take(i as int) =~= all);
    match latest {
        Some(value) => match decode_status(value) {
            Some(status) => is_failure_status(status.as_slice()),
            None => false,
        },
        None => false,
    }
}

/// Whether some status of a frame reports a refused permission.
pub fn permission_denied(raw: &[u8]) -> (denied: bool)
    ensures
        denied == is_permission_denied(raw@),
{
    let payload = match transfer_payload(raw) {
        Some(payload) => payload,
        None => return false,
    };
    let fields = split_fields(payload);
    let ghost all = fields_of(payload@);
    let mut denied = false;
    let mut i: usize = 0;
    assert(all.take(0) =~= Seq::<Seq<u8>>::empty());
    assert(status_values(all.take(0)) =~= Seq::<Seq<u8>>::empty());
    while i < fields.len()
        invariant
            i <= fields.len(),
            views(fields@) == all,
            all == fields_of(payload@),
            denied == exists|j: int|
                0 <= j < status_values(all.take(i as int)).len() && value_denies(
                    #[trigger] status_values(all.take(i as int))[j],
                ),
        decreases fields.len() - i,
    {
        let field = fields[i];
        assert(all[i as int] == field@);
        let ghost before = status_values(all.take(i as int));
        let ghost after = status_values(all.take(i + 1));
        proof {
            assert(all.take(i + 1) =~= all.take(i as int).push(all[i as int]));
            lemma_status_push(all.take(i as int), all[i as int]);
        }
        if bytes::starts_with(field, &STATUS_PREFIX) {
            let value = vstd::slice::slice_subrange(field, 3, field.len());
            let refused = match decode_status(value) {
                Some(status) => is_denial_status(status.as_slice()),
                None => false,
            };
            proof {
                assert(after == before.push(value@));
                assert(after[before.len() as int] == value@);
                assert(refused == value_denies(value@));
                if denied {
                    let j = choose|j: int| 0 <= j < before.len() && value_denies(#[trigger] before[j]);
                    assert(value_denies(after[j]));
                }
                if exists|j: int| 0 <= j < after.len() && value_denies(#[trigger] after[j]) {
                    let j = choose|j: int| 0 <= j < after.len() && value_denies(#[trigger] after[j]);
                    assert(j < before.len() ==> before[j] == after[j]);
                }
            }
            denied = denied || refused;
        }
        i += 1;
    }
    assert(all.take(i as int) =~= all);
    denied
}

/// The frame that cancels the session `id`.
pub open spec fn cancel_frame(id: Seq<char>) -> Seq<u8> {
    OSC_INTRODUCER@ + encode_utf8("ac=cancel;id="@) + encode_utf8(id) + ST@
}

/// The frame that carries the base64 text `status` as the status of the session `id`.
pub open spec fn status_frame_of(id: Seq<char>, status: Seq<char>) -> Seq<u8> {
    OSC_INTRODUCER@ + encode_utf8("ac=status;id="@) + encode_utf8(id) + encode_utf8(";st="@)
        + encode_utf8(status) + ST@
}

/// The frame that reports the failure `message` in the session `id`.
pub open spec fn failure_frame(id: Seq<char>, message: Seq<char>) -> Seq<u8> {
    status_frame_of(id, codec::base64_encoded_unpadded(encode_utf8(message)))
}

/// The length of the frame that reports a failure, of the lengths of its id and its message.
pub open spec fn failure_frame_len(id: nat, message: nat) -> nat {
    26 + id + codec::base64_len_unpadded(message)
}

/// The longest message that is reported in one frame under every session id.
pub const MAX_FAILURE_MESSAGE_BYTES: usize = 48940;

/// The frame that cancels the session `id`.
pub fn encode_cancel(id: &str) -> (frame: Vec<u8>)
    ensures
        frame@ == cancel_frame(id@),
{
    let mut frame: Vec<u8> = Vec::new();
    frame.extend_from_slice(&OSC_INTRODUCER);
    frame.extend_from_slice("ac=cancel;id=".as_bytes());
    frame.extend_from_slice(id.as_bytes());
    frame.extend_from_slice(&ST);
    assert(frame@ =~= cancel_frame(id@));
    frame
}

/// The frame that carries already encoded status text in the session `id`.
pub fn status_frame(id: &str, status: &str) -> (frame: Vec<u8>)
    ensures
        frame@ == status_frame_of(id@, status@),
{
    let mut frame: Vec<u8> = Vec::new();
    frame.extend_from_slice(&OSC_INTRODUCER);
    frame.extend_from_slice("ac=status;id=".as_bytes());
    frame.extend_from_slice(id.as_bytes());
    frame.extend_from_slice(";st=".as_bytes());
    frame.extend_from_slice(status.as_bytes());
    frame.extend_from_slice(&ST);
    assert(frame@ =~= status_frame_of(id@, status@));
    frame
}

/// The frame that reports the failure `message` in the session `id`.
///
/// The status field holds unpadded base64: padding is accepted in a terminal's answers, but Kitty
/// rejects a trailing `=` in a status that is sent to it.
pub fn encode_failure(id: &str, message: &str) -> (frame: Vec<u8>)
    requires
        codec::base64_fits(encode_utf8(message@).len()),
    ensures
        frame@ == failure_frame(id@, message@),
        frame@.len() == failure_frame_len(encode_utf8(id@).len(), encode_utf8(message@).len()),
        is_session_id(id@) && encode_utf8(message@).len() <= MAX_FAILURE_MESSAGE_BYTES
            ==> frame@.len() <= MAX_TRANSFER_COMMAND_BYTES,
        is_session_id(id@) && frame@.len() <= MAX_TRANSFER_COMMAND_BYTES ==> frame_of(frame@)
            == Some(("status"@, id@)),
        is_id_text(id@) && frame@.len() <= MAX_TRANSFER_COMMAND_BYTES ==> {
            &&& is_session_error(frame@) == !is_progress_status(encode_utf8(message@))
            &&& is_permission_denied(frame@) == is_denial(encode_utf8(message@))
        },
{
    let status = codec::encode_base64_unpadded(message.as_bytes());
    let frame = status_frame(id, status.as_str());
    proof {
        assert forall|i: int| 0 <= i < status@.len() implies ' ' <= #[trigger] status@[i] <= '~'
            && status@[i] != ';' by {
            assert(codec::is_base64_digit(status@[i]));
        }
        frame_laws::lemma_status_frame_len(id@, status@);
        if is_session_id(id@) {
            frame_laws::lemma_session_id_bytes(id@);
        }
        if is_id_text(id@) && frame@.len() <= MAX_TRANSFER_COMMAND_BYTES {
            if is_session_id(id@) {
                frame_laws::law_status_frame_is_read_back(id@, status@);
            }
            frame_laws::law_status_decides_the_session(id@, status@);
            assert(status_of(encode_utf8(status@)) == Some(encode_utf8(message@)));
        }
    }
    frame
}

/// Whether `value` and an introducer of transfer frames agree as far as both go.
pub open spec fn may_be_transfer(value: Seq<u8>) -> bool {
    ||| OSC_INTRODUCER@.is_prefix_of(value)
    ||| C1_INTRODUCER@.is_prefix_of(value)
    ||| value.is_prefix_of(OSC_INTRODUCER@)
    ||| value.is_prefix_of(C1_INTRODUCER@)
}

/// Whether `value` begins `expected`.
pub fn is_prefix(value: &[u8], expected: &[u8]) -> (prefix: bool)
    ensures
        prefix == value@.is_prefix_of(expected@),
{
    value.len() <= expected.len() && bytes::starts_with(expected, value)
}

/// Whether what has been read of a control string may still become a transfer frame.
pub fn is_transfer_osc_prefix(value: &[u8]) -> (possible: bool)
    ensures
        possible == may_be_transfer(value@),
{
    bytes::starts_with(value, &OSC_INTRODUCER) || bytes::starts_with(value, &C1_INTRODUCER)
        || is_prefix(value, &OSC_INTRODUCER) || is_prefix(value, &C1_INTRODUCER)
}

/// Whether what has been read of a control string can no longer become a transfer frame.
pub fn osc_prefix_is_invalid(value: &[u8]) -> (invalid: bool)
    ensures
        invalid == !may_be_transfer(value@),
{
    !is_transfer_osc_prefix(value)
}

} // verus!
