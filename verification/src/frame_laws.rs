//! What holds of frames: how they are put together, and that the frames this library writes are
//! frames that it reads.
use vstd::prelude::*;
use vstd::utf8::*;

use crate::bytes;
use crate::frame;

verus! {

/// A frame may open with either introducer and close with any of the three terminators; its
/// payload is what stands between them.
pub proof fn law_introducers_and_terminators(
    introducer: Seq<u8>,
    payload: Seq<u8>,
    terminator: Seq<u8>,
)
    requires
        introducer == frame::OSC_INTRODUCER@ || introducer == frame::C1_INTRODUCER@,
        terminator == frame::BEL@ || terminator == frame::ST@ || terminator == frame::C1_ST@,
        introducer.len() + payload.len() + terminator.len() <= frame::MAX_TRANSFER_COMMAND_BYTES,
    ensures
        frame::payload_of(introducer + payload + terminator) == Some(payload),
{
    let raw = introducer + payload + terminator;
    let rest = payload + terminator;
    assert(introducer.is_prefix_of(raw)) by {
        assert(introducer =~= raw.subrange(0, introducer.len() as int));
    }
    if introducer == frame::C1_INTRODUCER@ {
        assert(raw[0] == 0x9d);
        assert(frame::OSC_INTRODUCER@[0] == 0x1b);
        if frame::OSC_INTRODUCER@.is_prefix_of(raw) {
            assert(frame::OSC_INTRODUCER@ == raw.subrange(0, 7));
            assert(raw.subrange(0, 7)[0] == raw[0]);
            assert(false);
        }
    }
    assert(raw.skip(introducer.len() as int) =~= rest);
    assert(frame::after_introducer(raw) == Some(rest));
    assert(terminator.is_suffix_of(rest)) by {
        assert(terminator =~= rest.subrange(payload.len() as int, rest.len() as int));
    }
    let last = rest.len() - 1;
    assert(rest[last] == terminator.last());
    if terminator != frame::BEL@ {
        if frame::BEL@.is_suffix_of(rest) {
            assert(frame::BEL@ == rest.subrange(last, rest.len() as int));
            assert(rest.subrange(last, rest.len() as int)[0] == rest[last]);
            assert(frame::BEL@[0] == 0x07);
            assert(false);
        }
        if terminator == frame::C1_ST@ && frame::ST@.is_suffix_of(rest) {
            assert(frame::ST@ == rest.subrange(last - 1, rest.len() as int));
            assert(rest.subrange(last - 1, rest.len() as int)[1] == rest[last]);
            assert(frame::ST@[1] == 0x5c);
            assert(false);
        }
    }
    assert(rest.take(rest.len() - terminator.len()) =~= payload);
}

/// A payload without a separator is one field.
pub proof fn lemma_single_field(field: Seq<u8>)
    requires
        !field.contains(0x3b),
    ensures
        frame::fields_of(field) == seq![field],
{
    bytes::lemma_first_index(field, 0x3b);
    let at = bytes::first_index(field, 0x3b);
    if at < field.len() {
        assert(field[at] == 0x3b);
    }
}

/// A separator parts the first field from the others.
pub proof fn lemma_leading_field(field: Seq<u8>, rest: Seq<u8>)
    requires
        !field.contains(0x3b),
    ensures
        frame::fields_of(field + seq![0x3bu8] + rest) == seq![field] + frame::fields_of(rest),
{
    let payload = field + seq![0x3bu8] + rest;
    assert forall|i: int| 0 <= i < field.len() implies #[trigger] payload[i] != 0x3b by {
        assert(payload[i] == field[i]);
        assert(field.contains(field[i]));
    }
    assert(payload[field.len() as int] == 0x3b);
    bytes::lemma_first_index_is(payload, 0x3b, field.len() as int);
    assert(payload.take(field.len() as int) =~= field);
    assert(payload.skip((field.len() + 1) as int) =~= rest);
}

/// The key of a field is what was put before the first `=`, the value what was put after it.
pub proof fn lemma_key_and_value(key: Seq<u8>, value: Seq<u8>)
    requires
        !key.contains(0x3d),
    ensures
        bytes::first_index(key + seq![0x3du8] + value, 0x3d) == key.len(),
        frame::key_of(key + seq![0x3du8] + value) == key,
        frame::value_of(key + seq![0x3du8] + value) == value,
{
    let field = key + seq![0x3du8] + value;
    assert forall|i: int| 0 <= i < key.len() implies #[trigger] field[i] != 0x3d by {
        assert(field[i] == key[i]);
        assert(key.contains(key[i]));
    }
    assert(field[key.len() as int] == 0x3d);
    bytes::lemma_first_index_is(field, 0x3d, key.len() as int);
    assert(frame::key_of(field) =~= key);
    assert(frame::value_of(field) =~= value);
}

/// The text of a session id is ASCII, each of its bytes may stand in a value, and none is a
/// separator.
pub proof fn lemma_session_id_bytes(id: Seq<char>)
    requires
        frame::is_id_text(id),
    ensures
        encode_utf8(id).len() == id.len(),
        bytes::ascii_text(encode_utf8(id)) == id,
        forall|i: int|
            0 <= i < id.len() ==> frame::is_value_byte(#[trigger] encode_utf8(id)[i])
                && encode_utf8(id)[i] != 0x3b,
{
    assert forall|i: int| 0 <= i < id.len() implies '\0' <= #[trigger] id[i] <= '\u{7f}' by {
        assert(frame::is_id_char(id[i]));
    }
    is_ascii_chars_encode_utf8(id);
    assert forall|i: int| 0 <= i < id.len() implies frame::is_value_byte(
        #[trigger] encode_utf8(id)[i],
    ) && encode_utf8(id)[i] != 0x3b by {
        assert(frame::is_id_char(id[i]));
    }
    assert(bytes::ascii_text(encode_utf8(id)) =~= id);
}

/// The encoding of ASCII text has the text's characters as its bytes.
pub proof fn lemma_ascii_encoding(text: Seq<char>)
    requires
        is_ascii_chars(text),
    ensures
        encode_utf8(text).len() == text.len(),
        forall|i: int| 0 <= i < text.len() ==> #[trigger] encode_utf8(text)[i] == text[i] as u8,
        bytes::ascii_text(encode_utf8(text)) == text,
{
    is_ascii_chars_encode_utf8(text);
    assert(bytes::ascii_text(encode_utf8(text)) =~= text);
}

/// The fields that begin a frame of this library's own: the action and the id.
pub open spec fn head_fields(action: Seq<char>, id: Seq<char>) -> Seq<Seq<u8>> {
    seq![
        frame::ACTION_KEY@ + seq![0x3du8] + encode_utf8(action),
        frame::ID_KEY@ + seq![0x3du8] + encode_utf8(id),
    ]
}

/// Two such fields are well formed, and each of the two keys has its one value.
proof fn lemma_head_fields(action: Seq<char>, id: Seq<char>)
    requires
        action == "cancel"@ || action == "status"@,
        frame::is_id_text(id),
    ensures
        forall|i: int| 0 <= i < 2 ==> frame::is_field(#[trigger] head_fields(action, id)[i]),
        forall|i: int|
            0 <= i < 2 ==> !(#[trigger] head_fields(action, id)[i]).contains(0x3b),
        frame::values_for(head_fields(action, id), frame::ACTION_KEY@) == seq![
            encode_utf8(action),
        ],
        frame::values_for(head_fields(action, id), frame::ID_KEY@) == seq![encode_utf8(id)],
        bytes::ascii_text(encode_utf8(action)) == action,
        bytes::ascii_text(encode_utf8(id)) == id,
        frame::is_action(action),
        encode_utf8(action).len() == 6,
{
    reveal_strlit("cancel");
    reveal_strlit("status");
    lemma_ascii_encoding(action);
    lemma_session_id_bytes(id);
    let fields = head_fields(action, id);
    let key = frame::ACTION_KEY@;
    let name = frame::ID_KEY@;
    let verb = encode_utf8(action);
    let session = encode_utf8(id);
    assert(key[0] == 0x61 && key[1] == 0x63);
    assert(name[0] == 0x69 && name[1] == 0x64);
    lemma_key_and_value(key, verb);
    lemma_key_and_value(name, session);
    assert(frame::is_field(fields[0]));
    assert(frame::is_field(fields[1]));
    assert forall|i: int| 0 <= i < fields[0].len() implies fields[0][i] != 0x3b by {
        if i > 2 {
            assert(fields[0][i] == verb[i - 3]);
        }
    }
    assert forall|i: int| 0 <= i < fields[1].len() implies fields[1][i] != 0x3b by {
        if i > 2 {
            assert(fields[1][i] == session[i - 3]);
        }
    }
    let none = Seq::<Seq<u8>>::empty();
    let one = none.push(fields[0]);
    assert(fields =~= one.push(fields[1]));
    assert(frame::values_for(none, key) =~= none);
    assert(frame::values_for(none, name) =~= none);
    frame::lemma_values_push(none, fields[0], key);
    frame::lemma_values_push(none, fields[0], name);
    frame::lemma_values_push(one, fields[1], key);
    frame::lemma_values_push(one, fields[1], name);
    assert(frame::values_for(fields, key) =~= seq![verb]);
    assert(frame::values_for(fields, name) =~= seq![session]);
}

/// A cancel frame is read back as a cancellation of the session it was written for.
pub proof fn law_cancel_frame_is_read_back(id: Seq<char>)
    requires
        frame::is_session_id(id),
    ensures
        frame::frame_of(frame::cancel_frame(id)) == Some(("cancel"@, id)),
{
    reveal_strlit("ac=cancel;id=");
    reveal_strlit("cancel");
    lemma_ascii_encoding("ac=cancel;id="@);
    lemma_head_fields("cancel"@, id);
    let fields = head_fields("cancel"@, id);
    let head = encode_utf8("ac=cancel;id="@);
    let session = encode_utf8(id);
    lemma_session_id_bytes(id);
    lemma_ascii_encoding("cancel"@);
    let payload = head + session;
    assert(payload =~= fields[0] + seq![0x3bu8] + fields[1]);
    lemma_leading_field(fields[0], fields[1]);
    lemma_single_field(fields[1]);
    assert(frame::fields_of(payload) =~= fields);
    assert(frame::cancel_frame(id) =~= frame::OSC_INTRODUCER@ + payload + frame::ST@);
    law_introducers_and_terminators(frame::OSC_INTRODUCER@, payload, frame::ST@);
}

/// A prefix that is not empty begins with the first byte.
proof fn lemma_prefix_first(prefix: Seq<u8>, bytes: Seq<u8>)
    requires
        prefix.is_prefix_of(bytes),
        prefix.len() > 0,
    ensures
        prefix[0] == bytes[0],
{
    assert(prefix[0] == bytes.subrange(0, prefix.len() as int)[0]);
}

/// Text that may be put into a status field: printable, and without a separator.
pub open spec fn is_status_text(status: Seq<char>) -> bool {
    forall|i: int| 0 <= i < status.len() ==> ' ' <= #[trigger] status[i] <= '~' && status[i] != ';'
}

/// The fields of a status frame.
pub open spec fn status_fields(id: Seq<char>, status: Seq<char>) -> Seq<Seq<u8>> {
    head_fields("status"@, id).push(seq![0x73u8, 0x74u8] + seq![0x3du8] + encode_utf8(status))
}

proof fn lemma_status_field(status: Seq<char>)
    requires
        is_status_text(status),
    ensures
        encode_utf8(status).len() == status.len(),
        ({
            let field = seq![0x73u8, 0x74u8] + seq![0x3du8] + encode_utf8(status);
            &&& frame::is_field(field)
            &&& !field.contains(0x3b)
            &&& frame::key_of(field) == seq![0x73u8, 0x74u8]
            &&& frame::STATUS_PREFIX@.is_prefix_of(field)
            &&& field.skip(3) == encode_utf8(status)
        }),
{
    let key = seq![0x73u8, 0x74u8];
    let text = encode_utf8(status);
    let field = key + seq![0x3du8] + text;
    assert(is_ascii_chars(status));
    lemma_ascii_encoding(status);
    lemma_key_and_value(key, text);
    assert forall|i: int| 0 <= i < text.len() implies frame::is_value_byte(#[trigger] text[i]) by {
        assert(' ' <= status[i] <= '~');
    }
    assert forall|i: int| 0 <= i < field.len() implies field[i] != 0x3b by {
        if i > 2 {
            assert(field[i] == text[i - 3]);
            assert(status[i - 3] != ';');
        }
    }
    assert(frame::STATUS_PREFIX@ =~= field.subrange(0, 3));
    assert(field.skip(3) =~= text);
}

proof fn lemma_status_fields(id: Seq<char>, status: Seq<char>)
    requires
        frame::is_id_text(id),
        is_status_text(status),
        frame::status_frame_of(id, status).len() <= frame::MAX_TRANSFER_COMMAND_BYTES,
    ensures
        frame::payload_of(frame::status_frame_of(id, status)) matches Some(payload)
            && frame::fields_of(payload) == status_fields(id, status),
{
    reveal_strlit("ac=status;id=");
    reveal_strlit("status");
    reveal_strlit(";st=");
    lemma_ascii_encoding("ac=status;id="@);
    lemma_ascii_encoding("status"@);
    lemma_ascii_encoding(";st="@);
    lemma_head_fields("status"@, id);
    lemma_session_id_bytes(id);
    lemma_status_field(status);
    let fields = status_fields(id, status);
    let head = head_fields("status"@, id);
    let text = encode_utf8(status);
    let opening = encode_utf8("ac=status;id="@);
    let middle = encode_utf8(";st="@);
    let payload = opening + encode_utf8(id) + middle + text;
    let tail = fields[1] + seq![0x3bu8] + fields[2];
    assert(fields[0] == head[0] && fields[1] == head[1]);
    assert(payload =~= fields[0] + seq![0x3bu8] + tail);
    lemma_leading_field(fields[0], tail);
    lemma_leading_field(fields[1], fields[2]);
    lemma_single_field(fields[2]);
    assert(frame::fields_of(payload) =~= fields);
    assert(frame::status_frame_of(id, status) =~= frame::OSC_INTRODUCER@ + payload + frame::ST@);
    law_introducers_and_terminators(frame::OSC_INTRODUCER@, payload, frame::ST@);
}

/// The length of a status frame.
pub proof fn lemma_status_frame_len(id: Seq<char>, status: Seq<char>)
    requires
        is_status_text(status),
    ensures
        frame::status_frame_of(id, status).len() == 26 + encode_utf8(id).len() + status.len(),
{
    reveal_strlit("ac=status;id=");
    reveal_strlit(";st=");
    lemma_ascii_encoding("ac=status;id="@);
    lemma_ascii_encoding(";st="@);
    lemma_status_field(status);
}

/// A status frame is read back as a status of the session it was written for.
pub proof fn law_status_frame_is_read_back(id: Seq<char>, status: Seq<char>)
    requires
        frame::is_session_id(id),
        is_status_text(status),
        frame::status_frame_of(id, status).len() <= frame::MAX_TRANSFER_COMMAND_BYTES,
    ensures
        frame::frame_of(frame::status_frame_of(id, status)) == Some(("status"@, id)),
{
    lemma_status_fields(id, status);
    lemma_status_field(status);
    lemma_head_fields("status"@, id);
    let head = head_fields("status"@, id);
    let fields = status_fields(id, status);
    let last = fields[2];
    frame::lemma_values_push(head, last, frame::ACTION_KEY@);
    frame::lemma_values_push(head, last, frame::ID_KEY@);
    assert(frame::key_of(last)[0] == 0x73);
    assert(frame::ACTION_KEY@[0] == 0x61);
    assert(frame::ID_KEY@[0] == 0x69);
    assert forall|i: int| 0 <= i < fields.len() implies frame::is_field(#[trigger] fields[i]) by {
        if i < 2 {
            assert(fields[i] == head[i]);
        }
    }
}

/// The one status value of a status frame is the text that was put into it, and the frame names no
/// file.
pub proof fn law_status_value_is_read_back(id: Seq<char>, status: Seq<char>)
    requires
        frame::is_id_text(id),
        is_status_text(status),
        frame::status_frame_of(id, status).len() <= frame::MAX_TRANSFER_COMMAND_BYTES,
    ensures
        frame::payload_of(frame::status_frame_of(id, status)) matches Some(payload) && {
            &&& frame::status_values(frame::fields_of(payload)) == seq![encode_utf8(status)]
            &&& forall|i: int|
                0 <= i < frame::fields_of(payload).len() ==> !frame::FILE_ID_PREFIX@.is_prefix_of(
                    #[trigger] frame::fields_of(payload)[i],
                )
        },
{
    lemma_status_fields(id, status);
    lemma_status_field(status);
    let fields = status_fields(id, status);
    let text = encode_utf8(status);
    let none = Seq::<Seq<u8>>::empty();
    let one = none.push(fields[0]);
    let two = one.push(fields[1]);
    assert(fields =~= two.push(fields[2]));
    assert(fields[0][0] == 0x61);
    assert(fields[1][0] == 0x69);
    assert(fields[2][0] == 0x73);
    assert forall|i: int| 0 <= i < fields.len() implies !frame::FILE_ID_PREFIX@.is_prefix_of(
        #[trigger] fields[i],
    ) by {
        if frame::FILE_ID_PREFIX@.is_prefix_of(fields[i]) {
            lemma_prefix_first(frame::FILE_ID_PREFIX@, fields[i]);
            assert(frame::FILE_ID_PREFIX@[0] == 0x66);
        }
    }
    if frame::STATUS_PREFIX@.is_prefix_of(fields[0]) {
        lemma_prefix_first(frame::STATUS_PREFIX@, fields[0]);
    }
    if frame::STATUS_PREFIX@.is_prefix_of(fields[1]) {
        lemma_prefix_first(frame::STATUS_PREFIX@, fields[1]);
    }
    assert(frame::STATUS_PREFIX@[0] == 0x73);
    assert(frame::status_values(none) =~= none);
    frame::lemma_status_push(none, fields[0]);
    frame::lemma_status_push(one, fields[1]);
    frame::lemma_status_push(two, fields[2]);
    assert(frame::status_values(fields) =~= seq![text]);
}

/// A status frame ends its session exactly if its status decodes to something other than progress,
/// and reports a refused permission exactly if that is what its status decodes to. The length of
/// the id does not matter.
pub proof fn law_status_decides_the_session(id: Seq<char>, status: Seq<char>)
    requires
        frame::is_id_text(id),
        is_status_text(status),
        frame::status_frame_of(id, status).len() <= frame::MAX_TRANSFER_COMMAND_BYTES,
    ensures
        frame::is_session_error(frame::status_frame_of(id, status)) == (frame::status_of(
            encode_utf8(status),
        ) matches Some(text) && !frame::is_progress_status(text)),
        frame::is_permission_denied(frame::status_frame_of(id, status)) == frame::value_denies(
            encode_utf8(status),
        ),
{
    law_status_value_is_read_back(id, status);
    let raw = frame::status_frame_of(id, status);
    let values = frame::status_values(frame::fields_of(frame::payload_of(raw)->0));
    assert(values[0] == encode_utf8(status));
}

/// A separator parts the fields before it from those after it.
pub proof fn law_fields_are_parted(before: Seq<u8>, after: Seq<u8>)
    ensures
        frame::fields_of(before + seq![0x3bu8] + after) == frame::fields_of(before)
            + frame::fields_of(after),
    decreases before.len(),
{
    let whole = before + seq![0x3bu8] + after;
    let end = bytes::first_index(before, 0x3b);
    bytes::lemma_first_index(before, 0x3b);
    if end < before.len() {
        let first = before.take(end);
        let rest = before.skip(end + 1);
        let later = rest + seq![0x3bu8] + after;
        law_fields_are_parted(rest, after);
        assert(!first.contains(0x3b)) by {
            assert forall|i: int| 0 <= i < first.len() implies first[i] != 0x3b by {
                assert(first[i] == before[i]);
            }
        }
        lemma_leading_field(first, later);
        assert(whole =~= first + seq![0x3bu8] + later);
        assert(seq![first] + (frame::fields_of(rest) + frame::fields_of(after)) =~= seq![first]
            + frame::fields_of(rest) + frame::fields_of(after));
    } else {
        assert(!before.contains(0x3b)) by {
            assert forall|i: int| 0 <= i < before.len() implies before[i] != 0x3b by {}
        }
        lemma_leading_field(before, after);
    }
}

/// A piece between separators is one of the fields.
proof fn lemma_field_among(before: Seq<u8>, field: Seq<u8>, after: Seq<u8>)
    requires
        before.len() > 0 ==> before.last() == 0x3b,
        after.len() > 0 ==> after[0] == 0x3b,
        !field.contains(0x3b),
    ensures
        frame::fields_of(before + field + after).contains(field),
{
    let payload = before + field + after;
    let tail = field + after;
    if after.len() > 0 {
        lemma_leading_field(field, after.skip(1));
        assert(tail =~= field + seq![0x3bu8] + after.skip(1));
    } else {
        lemma_single_field(field);
        assert(tail =~= field);
    }
    assert(frame::fields_of(tail)[0] == field);
    if before.len() > 0 {
        let head = before.drop_last();
        law_fields_are_parted(head, tail);
        assert(payload =~= head + seq![0x3bu8] + tail);
        assert(frame::fields_of(payload)[frame::fields_of(head).len() as int] == field);
    } else {
        assert(payload =~= tail);
    }
}

/// A file id is a field without a separator in it.
proof fn lemma_file_field(file: Seq<u8>)
    requires
        !file.contains(0x3b),
    ensures
        frame::FILE_ID_PREFIX@.is_prefix_of(frame::FILE_ID_PREFIX@ + file),
        !(frame::FILE_ID_PREFIX@ + file).contains(0x3b),
{
    let prefix = frame::FILE_ID_PREFIX@;
    let field = prefix + file;
    assert(prefix =~= field.subrange(0, 4));
    assert forall|i: int| 0 <= i < field.len() implies field[i] != 0x3b by {
        if i < 4 {
            assert(field[i] == prefix[i]);
        } else {
            assert(field[i] == file[i - 4]);
        }
    }
}

/// An error that names a file does not end the session: with a file id anywhere among the fields,
/// be it before or after the status, a frame is no session error.
pub proof fn law_file_errors_do_not_end_the_session(
    introducer: Seq<u8>,
    before: Seq<u8>,
    file: Seq<u8>,
    after: Seq<u8>,
    terminator: Seq<u8>,
)
    requires
        introducer == frame::OSC_INTRODUCER@ || introducer == frame::C1_INTRODUCER@,
        terminator == frame::BEL@ || terminator == frame::ST@ || terminator == frame::C1_ST@,
        before.len() > 0 ==> before.last() == 0x3b,
        after.len() > 0 ==> after[0] == 0x3b,
        !file.contains(0x3b),
    ensures
        !frame::is_session_error(
            introducer + (before + (frame::FILE_ID_PREFIX@ + file) + after) + terminator,
        ),
{
    let field = frame::FILE_ID_PREFIX@ + file;
    let payload = before + field + after;
    let raw = introducer + payload + terminator;
    if raw.len() <= frame::MAX_TRANSFER_COMMAND_BYTES {
        law_introducers_and_terminators(introducer, payload, terminator);
        lemma_file_field(file);
        lemma_field_among(before, field, after);
        let fields = frame::fields_of(payload);
        let i = choose|i: int| 0 <= i < fields.len() && fields[i] == field;
        assert(frame::FILE_ID_PREFIX@.is_prefix_of(fields[i]));
        assert(frame::payload_of(raw) == Some(payload));
    } else {
        assert(frame::payload_of(raw) is None);
    }
}

/// How many bytes open a frame: two for `ESC ]`, one for the C1 control.
pub open spec fn opener_len(raw: Seq<u8>) -> int {
    if raw[0] == 0x1b {
        2
    } else {
        1
    }
}

/// How many bytes close a frame: two for `ESC \`, one for BEL and for the C1 control.
pub open spec fn closer_len(raw: Seq<u8>) -> int {
    if raw.last() == 0x5c {
        2
    } else {
        1
    }
}

/// Bytes that open as a frame does, close as a frame does, and are printable in between.
pub open spec fn is_enclosed(raw: Seq<u8>) -> bool {
    &&& opener_len(raw) + closer_len(raw) <= raw.len() <= frame::MAX_TRANSFER_COMMAND_BYTES
    &&& raw[0] == 0x9d || (raw[0] == 0x1b && raw[1] == 0x5d)
    &&& raw.last() == 0x07 || raw.last() == 0x9c || (raw.last() == 0x5c && raw[raw.len() - 2]
        == 0x1b)
    &&& forall|i: int|
        opener_len(raw) <= i < raw.len() - closer_len(raw) ==> frame::is_value_byte(
            #[trigger] raw[i],
        )
}

/// Payloads of well-formed fields are printable throughout.
proof fn lemma_payload_printable(payload: Seq<u8>)
    requires
        forall|i: int|
            0 <= i < frame::fields_of(payload).len() ==> frame::is_field(
                #[trigger] frame::fields_of(payload)[i],
            ),
    ensures
        forall|i: int| 0 <= i < payload.len() ==> frame::is_value_byte(#[trigger] payload[i]),
    decreases payload.len(),
{
    bytes::lemma_first_index(payload, 0x3b);
    let end = bytes::first_index(payload, 0x3b);
    let fields = frame::fields_of(payload);
    assert(frame::is_field(fields[0]));
    lemma_field_printable(fields[0]);
    if end < payload.len() {
        let rest = payload.skip(end + 1);
        let others = frame::fields_of(rest);
        assert(fields == seq![payload.take(end)] + others);
        assert forall|i: int| 0 <= i < others.len() implies frame::is_field(
            #[trigger] others[i],
        ) by {
            assert(fields[i + 1] == others[i]);
        }
        lemma_payload_printable(rest);
        assert forall|i: int| 0 <= i < payload.len() implies frame::is_value_byte(
            #[trigger] payload[i],
        ) by {
            if i < end {
                assert(fields[0][i] == payload[i]);
            } else if i > end {
                assert(rest[i - end - 1] == payload[i]);
            }
        }
    }
}

proof fn lemma_field_printable(field: Seq<u8>)
    requires
        frame::is_field(field),
    ensures
        forall|i: int| 0 <= i < field.len() ==> frame::is_value_byte(#[trigger] field[i]),
{
    bytes::lemma_first_index(field, 0x3d);
    let at = bytes::first_index(field, 0x3d);
    assert forall|i: int| 0 <= i < field.len() implies frame::is_value_byte(
        #[trigger] field[i],
    ) by {
        if i < at {
            assert(frame::key_of(field)[i] == field[i]);
            assert(frame::is_key_byte(frame::key_of(field)[i]));
        } else if i > at {
            assert(frame::value_of(field)[i - at - 1] == field[i]);
        }
    }
}

/// A frame is printable between its opening and its closing bytes, and it agrees with an
/// introducer as far as that goes.
pub proof fn lemma_frame_is_enclosed(raw: Seq<u8>)
    requires
        frame::frame_of(raw) is Some,
    ensures
        is_enclosed(raw),
        forall|k: int| 0 <= k <= raw.len() ==> frame::may_be_transfer(#[trigger] raw.take(k)),
{
    let rest = frame::after_introducer(raw)->0;
    let payload = frame::before_terminator(rest)->0;
    lemma_payload_printable(payload);
    let introducer = if frame::OSC_INTRODUCER@.is_prefix_of(raw) {
        frame::OSC_INTRODUCER@
    } else {
        frame::C1_INTRODUCER@
    };
    let n = introducer.len() as int;
    assert(introducer == raw.subrange(0, n));
    assert forall|i: int| 0 <= i < n implies raw[i] == introducer[i] by {
        assert(raw.subrange(0, n)[i] == raw[i]);
    }
    assert(rest =~= raw.skip(n));
    let terminator = if frame::BEL@.is_suffix_of(rest) {
        frame::BEL@
    } else if frame::ST@.is_suffix_of(rest) {
        frame::ST@
    } else {
        frame::C1_ST@
    };
    let t = terminator.len() as int;
    assert(terminator == rest.subrange(rest.len() - t, rest.len() as int));
    assert forall|i: int| 0 <= i < t implies rest[rest.len() - t + i] == terminator[i] by {
        assert(rest.subrange(rest.len() - t, rest.len() as int)[i] == rest[rest.len() - t + i]);
    }
    assert(raw.last() == terminator.last()) by {
        assert(raw[raw.len() - 1] == rest[rest.len() - 1]);
        assert(rest[rest.len() - 1] == terminator[t - 1]);
    }
    if terminator == frame::ST@ {
        assert(raw[raw.len() - 2] == rest[rest.len() - 2]);
        assert(rest[rest.len() - 2] == terminator[0]);
    }
    assert(opener_len(raw) == n - 5);
    assert(closer_len(raw) == t);
    assert forall|i: int|
        opener_len(raw) <= i < raw.len() - closer_len(raw) implies frame::is_value_byte(
        #[trigger] raw[i],
    ) by {
        if i >= n {
            assert(raw[i] == rest[i - n]);
            assert(payload[i - n] == rest[i - n]);
        } else {
            assert(raw[i] == introducer[i]);
        }
    }
    assert forall|k: int| 0 <= k <= raw.len() implies frame::may_be_transfer(
        #[trigger] raw.take(k),
    ) by {
        if k >= n {
            assert(introducer =~= raw.take(k).subrange(0, n));
        } else {
            assert(raw.take(k) =~= introducer.subrange(0, k));
        }
    }
}

/// A frame stands alone: with anything before it or after it, be it another frame or what a user
/// might type, it is no frame.
pub proof fn law_frames_stand_alone(raw: Seq<u8>, other: Seq<u8>)
    requires
        frame::frame_of(raw) is Some,
        other.len() > 0,
    ensures
        frame::frame_of(raw + other) is None,
        frame::frame_of(other + raw) is None,
{
    lemma_frame_is_enclosed(raw);
    let n = raw.len() as int;
    if frame::frame_of(raw + other) is Some {
        let whole = raw + other;
        lemma_frame_is_enclosed(whole);
        assert(whole[0] == raw[0]);
        assert(whole[n - 1] == raw.last());
        assert(whole[n - 2] == raw[n - 2]);
        assert(whole.last() == other.last());
        if other.len() == 1 && whole.last() == 0x5c {
            assert(whole[whole.len() - 2] == raw.last());
        } else if raw.last() == 0x5c {
            assert(frame::is_value_byte(whole[n - 2]));
        } else {
            assert(frame::is_value_byte(whole[n - 1]));
        }
    }
    if frame::frame_of(other + raw) is Some {
        let whole = other + raw;
        lemma_frame_is_enclosed(whole);
        let at = other.len() as int;
        assert(whole[at] == raw[0]);
        assert(whole.last() == raw.last());
        if at >= opener_len(whole) {
            assert(frame::is_value_byte(whole[at]));
        } else {
            assert(whole[1] == raw[0]);
        }
    }
}

/// The id of a frame is acceptable.
pub proof fn lemma_frame_id(command: Seq<u8>)
    ensures
        frame::frame_of(command) matches Some((action, id)) ==> frame::is_session_id(id),
{
}

/// An action with which a session begins does not end it.
pub proof fn lemma_start_does_not_end(action: Seq<char>)
    requires
        frame::is_start_action(action),
    ensures
        !frame::is_end_action(action),
{
    reveal_strlit("send");
    reveal_strlit("receive");
    reveal_strlit("finish");
    reveal_strlit("cancel");
    assert("send"@.len() == 4 && "receive"@.len() == 7);
    assert("finish"@.len() == 6 && "cancel"@.len() == 6);
}

} // verus!
