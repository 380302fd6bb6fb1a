//! How a frame is read, told from how it is written: an introducer, fields with `;` between them,
//! and a terminator.
use vstd::prelude::*;
use vstd::utf8::encode_utf8;

use crate::bytes;
use crate::codec;
use crate::frame;
use crate::frame_laws;

verus! {

/// `ESC ] 5113 ;` and its form with the C1 control.
pub open spec fn is_introducer(introducer: Seq<u8>) -> bool {
    ||| introducer == seq![0x1bu8, 0x5du8, 0x35u8, 0x31u8, 0x31u8, 0x33u8, 0x3bu8]
    ||| introducer == seq![0x9du8, 0x35u8, 0x31u8, 0x31u8, 0x33u8, 0x3bu8]
}

/// BEL, `ESC \` and the C1 control that stands for it.
pub open spec fn is_terminator(terminator: Seq<u8>) -> bool {
    ||| terminator == seq![0x07u8]
    ||| terminator == seq![0x1bu8, 0x5cu8]
    ||| terminator == seq![0x9cu8]
}

/// Fields with `;` between them.
pub open spec fn joined(fields: Seq<Seq<u8>>) -> Seq<u8>
    decreases fields.len(),
{
    if fields.len() == 0 {
        Seq::empty()
    } else if fields.len() == 1 {
        fields[0]
    } else {
        joined(fields.drop_last()) + seq![0x3bu8] + fields.last()
    }
}

/// Whether there is a field and no field holds a `;`.
pub open spec fn are_fields(fields: Seq<Seq<u8>>) -> bool {
    &&& fields.len() > 0
    &&& forall|i: int| 0 <= i < fields.len() ==> !(#[trigger] fields[i]).contains(0x3b)
}

/// Whether `raw` is written with an introducer, these fields and a terminator, and holds no more
/// than 64 KiB.
pub open spec fn is_written(raw: Seq<u8>, fields: Seq<Seq<u8>>) -> bool {
    &&& are_fields(fields)
    &&& raw.len() <= 65536
    &&& exists|introducer: Seq<u8>, terminator: Seq<u8>|
        is_introducer(introducer) && is_terminator(terminator) && raw == #[trigger] (introducer
            + joined(fields) + terminator)
}

proof fn lemma_ends(introducer: Seq<u8>, terminator: Seq<u8>)
    ensures
        is_introducer(introducer) <==> introducer == frame::OSC_INTRODUCER@ || introducer
            == frame::C1_INTRODUCER@,
        is_terminator(terminator) <==> terminator == frame::BEL@ || terminator == frame::ST@
            || terminator == frame::C1_ST@,
        frame::MAX_TRANSFER_COMMAND_BYTES == 65536,
        frame::MAX_TRANSFER_ID_BYTES == 256,
{
    assert(frame::OSC_INTRODUCER@ =~= seq![
        0x1bu8,
        0x5du8,
        0x35u8,
        0x31u8,
        0x31u8,
        0x33u8,
        0x3bu8,
    ]);
    assert(frame::C1_INTRODUCER@ =~= seq![0x9du8, 0x35u8, 0x31u8, 0x31u8, 0x33u8, 0x3bu8]);
    assert(frame::BEL@ =~= seq![0x07u8]);
    assert(frame::ST@ =~= seq![0x1bu8, 0x5cu8]);
    assert(frame::C1_ST@ =~= seq![0x9cu8]);
}

/// What was joined is parted again.
proof fn lemma_joined_is_parted(fields: Seq<Seq<u8>>)
    requires
        are_fields(fields),
    ensures
        frame::fields_of(joined(fields)) == fields,
    decreases fields.len(),
{
    assert(!fields[fields.len() - 1].contains(0x3b));
    frame_laws::lemma_single_field(fields.last());
    if fields.len() > 1 {
        let before = fields.drop_last();
        assert forall|i: int| 0 <= i < before.len() implies !(#[trigger] before[i]).contains(
            0x3b,
        ) by {
            assert(before[i] == fields[i]);
        }
        lemma_joined_is_parted(before);
        frame_laws::law_fields_are_parted(joined(before), fields.last());
        assert(before + seq![fields.last()] =~= fields);
    } else {
        assert(seq![fields[0]] =~= fields);
    }
}

/// What was parted is joined again.
proof fn lemma_parted_is_joined(payload: Seq<u8>)
    ensures
        are_fields(frame::fields_of(payload)),
        joined(frame::fields_of(payload)) == payload,
    decreases payload.len(),
{
    let end = bytes::first_index(payload, 0x3b);
    bytes::lemma_first_index(payload, 0x3b);
    let fields = frame::fields_of(payload);
    if end < payload.len() {
        let first = payload.take(end);
        let rest = payload.skip(end + 1);
        lemma_parted_is_joined(rest);
        let more = frame::fields_of(rest);
        assert forall|i: int| 0 <= i < fields.len() implies !(#[trigger] fields[i]).contains(
            0x3b,
        ) by {
            if i > 0 {
                assert(fields[i] == more[i - 1]);
            } else {
                assert(!first.contains(0x3b)) by {
                    assert forall|j: int| 0 <= j < first.len() implies first[j] != 0x3b by {
                        assert(first[j] == payload[j]);
                    }
                }
            }
        }
        lemma_joined_first(first, more);
        assert(first + seq![0x3bu8] + rest =~= payload);
    } else {
        assert(!payload.contains(0x3b)) by {
            assert forall|j: int| 0 <= j < payload.len() implies payload[j] != 0x3b by {}
        }
        assert(fields =~= seq![payload]);
    }
}

proof fn lemma_joined_first(first: Seq<u8>, rest: Seq<Seq<u8>>)
    requires
        rest.len() > 0,
    ensures
        joined(seq![first] + rest) == first + seq![0x3bu8] + joined(rest),
    decreases rest.len(),
{
    let all = seq![first] + rest;
    assert(all.last() == rest.last());
    if rest.len() == 1 {
        assert(all.drop_last() =~= seq![first]);
        assert(joined(seq![first]) == first);
        assert(joined(rest) == rest.last());
        assert(joined(all) == first + seq![0x3bu8] + rest.last());
    } else {
        let less = rest.drop_last();
        lemma_joined_first(first, less);
        assert(all.drop_last() =~= seq![first] + less);
        assert(joined(all) == first + seq![0x3bu8] + joined(less) + seq![0x3bu8] + rest.last());
        assert(joined(rest) == joined(less) + seq![0x3bu8] + rest.last());
    }
    assert(joined(all) =~= first + seq![0x3bu8] + joined(rest));
}

/// The fields of what is written are those it was written with.
proof fn lemma_written(raw: Seq<u8>, fields: Seq<Seq<u8>>)
    requires
        is_written(raw, fields),
    ensures
        frame::payload_of(raw) == Some(joined(fields)),
        frame::fields_of(joined(fields)) == fields,
{
    let (introducer, terminator) = choose|introducer: Seq<u8>, terminator: Seq<u8>|
        is_introducer(introducer) && is_terminator(terminator) && raw == #[trigger] (introducer
            + joined(fields) + terminator);
    lemma_ends(introducer, terminator);
    lemma_joined_is_parted(fields);
    frame_laws::law_introducers_and_terminators(introducer, joined(fields), terminator);
}

/// Nothing is read as a frame, and nothing in it as a status, that is not written as one: with one
/// of the two introducers, with fields, with one of the three terminators, and in no more than 64
/// KiB.
pub proof fn law_frames_are_written(raw: Seq<u8>)
    requires
        frame::frame_of(raw) is Some || frame::is_session_error(raw)
            || frame::is_permission_denied(raw),
    ensures
        exists|fields: Seq<Seq<u8>>| #[trigger] is_written(raw, fields),
{
    let payload = frame::payload_of(raw)->0;
    let fields = frame::fields_of(payload);
    lemma_parted_is_joined(payload);
    let rest = frame::after_introducer(raw)->0;
    let introducer = raw.take(raw.len() - rest.len());
    let terminator = rest.skip(payload.len() as int);
    lemma_ends(introducer, terminator);
    assert(introducer + payload + terminator =~= raw);
    if frame::OSC_INTRODUCER@.is_prefix_of(raw) {
        assert(introducer =~= frame::OSC_INTRODUCER@);
    } else {
        assert(introducer =~= frame::C1_INTRODUCER@);
    }
    if frame::BEL@.is_suffix_of(rest) {
        assert(terminator =~= frame::BEL@);
    } else if frame::ST@.is_suffix_of(rest) {
        assert(terminator =~= frame::ST@);
    } else {
        assert(terminator =~= frame::C1_ST@);
    }
    assert(is_written(raw, fields));
}

proof fn lemma_no_value(fields: Seq<Seq<u8>>, key: Seq<u8>)
    requires
        forall|i: int| 0 <= i < fields.len() ==> frame::key_of(#[trigger] fields[i]) != key,
    ensures
        frame::values_for(fields, key) == Seq::<Seq<u8>>::empty(),
    decreases fields.len(),
{
    if fields.len() > 0 {
        let before = fields.drop_last();
        assert forall|i: int| 0 <= i < before.len() implies frame::key_of(#[trigger] before[i])
            != key by {
            assert(before[i] == fields[i]);
        }
        lemma_no_value(before, key);
        assert(before.push(fields.last()) =~= fields);
        assert(frame::key_of(fields[fields.len() - 1]) != key);
        frame::lemma_values_push(before, fields.last(), key);
    } else {
        assert(fields =~= Seq::<Seq<u8>>::empty());
        reveal_with_fuel(Seq::filter, 1);
        assert(frame::values_for(fields, key) =~= Seq::<Seq<u8>>::empty());
    }
}

/// A key that one field has, and no other, has that field's value.
proof fn lemma_one_value(fields: Seq<Seq<u8>>, key: Seq<u8>, p: int)
    requires
        0 <= p < fields.len(),
        frame::key_of(fields[p]) == key,
        forall|i: int|
            0 <= i < fields.len() && i != p ==> frame::key_of(#[trigger] fields[i]) != key,
    ensures
        frame::values_for(fields, key) == seq![frame::value_of(fields[p])],
    decreases fields.len(),
{
    let before = fields.drop_last();
    assert forall|i: int| 0 <= i < before.len() && i != p implies frame::key_of(
        #[trigger] before[i],
    ) != key by {
        assert(before[i] == fields[i]);
    }
    assert(before.push(fields.last()) =~= fields);
    frame::lemma_values_push(before, fields.last(), key);
    if p == fields.len() - 1 {
        lemma_no_value(before, key);
        assert(Seq::<Seq<u8>>::empty().push(frame::value_of(fields[p])) =~= seq![
            frame::value_of(fields[p]),
        ]);
    } else {
        assert(before[p] == fields[p]);
        assert(frame::key_of(fields[fields.len() - 1]) != key);
        lemma_one_value(before, key, p);
    }
}

/// A key with one value stands in one field.
proof fn lemma_one_field(fields: Seq<Seq<u8>>, key: Seq<u8>) -> (p: int)
    requires
        frame::values_for(fields, key).len() == 1,
    ensures
        0 <= p < fields.len(),
        frame::key_of(fields[p]) == key,
        frame::value_of(fields[p]) == frame::values_for(fields, key)[0],
        forall|i: int|
            0 <= i < fields.len() && i != p ==> frame::key_of(#[trigger] fields[i]) != key,
    decreases fields.len(),
{
    if fields.len() == 0 {
        lemma_no_value(fields, key);
        0
    } else {
        let before = fields.drop_last();
        assert(before.push(fields.last()) =~= fields);
        frame::lemma_values_push(before, fields.last(), key);
        if frame::key_of(fields.last()) == key {
            assert forall|i: int| 0 <= i < fields.len() && i != fields.len() - 1 implies frame::key_of(
                #[trigger] fields[i],
            ) != key by {
                if frame::key_of(fields[i]) == key {
                    lemma_some_value(before, key, i);
                }
            }
            fields.len() - 1
        } else {
            let p = lemma_one_field(before, key);
            assert forall|i: int| 0 <= i < fields.len() && i != p implies frame::key_of(
                #[trigger] fields[i],
            ) != key by {
                if i < before.len() {
                    assert(before[i] == fields[i]);
                }
            }
            p
        }
    }
}

proof fn lemma_some_value(fields: Seq<Seq<u8>>, key: Seq<u8>, p: int)
    requires
        0 <= p < fields.len(),
        frame::key_of(fields[p]) == key,
    ensures
        frame::values_for(fields, key).len() > 0,
    decreases fields.len(),
{
    let before = fields.drop_last();
    assert(before.push(fields.last()) =~= fields);
    frame::lemma_values_push(before, fields.last(), key);
    if p < before.len() {
        assert(before[p] == fields[p]);
        lemma_some_value(before, key, p);
    }
}

/// The eight actions of the protocol.
pub open spec fn is_one_of_eight(action: Seq<char>) -> bool {
    ||| action == "send"@
    ||| action == "receive"@
    ||| action == "file"@
    ||| action == "data"@
    ||| action == "end_data"@
    ||| action == "status"@
    ||| action == "finish"@
    ||| action == "cancel"@
}

/// A letter or a digit of ASCII.
pub open spec fn is_letter_or_digit(byte: u8) -> bool {
    ||| 0x30 <= byte <= 0x39
    ||| 0x41 <= byte <= 0x5a
    ||| 0x61 <= byte <= 0x7a
}

/// One to 256 letters, digits and `_:./@-`.
pub open spec fn is_identifier(id: Seq<char>) -> bool {
    &&& 1 <= id.len() <= 256
    &&& forall|i: int|
        0 <= i < id.len() ==> {
            let c = #[trigger] id[i];
            ||| '0' <= c <= '9'
            ||| 'A' <= c <= 'Z'
            ||| 'a' <= c <= 'z'
            ||| c == '_'
            ||| c == ':'
            ||| c == '.'
            ||| c == '/'
            ||| c == '@'
            ||| c == '-'
        }
}

/// Whether a field is a key of letters, digits and `_`, an `=`, and a value of printable ASCII, the
/// key `length` bytes long and not empty.
pub open spec fn is_key_and_value(field: Seq<u8>, length: int) -> bool {
    &&& 0 < length < field.len()
    &&& field[length] == 0x3d
    &&& forall|i: int|
        0 <= i < length ==> is_letter_or_digit(#[trigger] field[i]) || field[i] == 0x5f
    &&& forall|i: int| length < i < field.len() ==> 0x20 <= #[trigger] field[i] <= 0x7e
}

/// Whether a field is such a key and such a value.
pub open spec fn has_key_and_value(field: Seq<u8>) -> bool {
    exists|length: int| is_key_and_value(field, length)
}

/// `ac=`
pub open spec fn action_prefix() -> Seq<u8> {
    seq![0x61u8, 0x63u8, 0x3du8]
}

/// `id=`
pub open spec fn id_prefix() -> Seq<u8> {
    seq![0x69u8, 0x64u8, 0x3du8]
}

/// A well-formed field is a key and a value, and the other way round.
proof fn lemma_field(field: Seq<u8>, length: int)
    ensures
        is_key_and_value(field, length) ==> frame::is_field(field) && frame::key_of(field)
            == field.take(length) && frame::value_of(field) == field.skip(length + 1),
        frame::is_field(field) ==> is_key_and_value(field, frame::key_of(field).len() as int),
{
    if is_key_and_value(field, length) {
        let key = field.take(length);
        let value = field.skip(length + 1);
        assert(!key.contains(0x3d)) by {
            assert forall|i: int| 0 <= i < key.len() implies key[i] != 0x3d by {
                assert(key[i] == field[i]);
            }
        }
        frame_laws::lemma_key_and_value(key, value);
        assert(key + seq![0x3du8] + value =~= field);
        assert forall|i: int| 0 <= i < key.len() implies frame::is_key_byte(#[trigger] key[i]) by {
            assert(key[i] == field[i]);
        }
        assert forall|i: int| 0 <= i < value.len() implies frame::is_value_byte(
            #[trigger] value[i],
        ) by {
            assert(value[i] == field[length + 1 + i]);
        }
    }
    if frame::is_field(field) {
        let at = bytes::first_index(field, 0x3d);
        bytes::lemma_first_index(field, 0x3d);
        let key = frame::key_of(field);
        let value = frame::value_of(field);
        assert(key.len() == at);
        assert forall|i: int| 0 <= i < at implies is_letter_or_digit(#[trigger] field[i]) || field[i]
            == 0x5f by {
            assert(frame::is_key_byte(key[i]));
        }
        assert forall|i: int| at < i < field.len() implies 0x20 <= #[trigger] field[i] <= 0x7e by {
            assert(frame::is_value_byte(value[i - at - 1]));
        }
    }
}

/// A field with a key of two bytes begins with the key and `=`, and no other one does.
proof fn lemma_short_key(field: Seq<u8>, key: Seq<u8>)
    requires
        frame::is_field(field),
        key.len() == 2,
        !key.contains(0x3d),
    ensures
        frame::key_of(field) == key <==> (key + seq![0x3du8]).is_prefix_of(field),
        frame::key_of(field) == key ==> field == key + seq![0x3du8] + frame::value_of(field),
{
    let prefix = key + seq![0x3du8];
    bytes::lemma_first_index(field, 0x3d);
    if frame::key_of(field) == key {
        assert(field =~= key + seq![0x3du8] + frame::value_of(field));
        assert(prefix =~= field.subrange(0, 3));
    }
    if prefix.is_prefix_of(field) {
        let value = field.skip(3);
        assert(prefix == field.subrange(0, 3));
        assert(field =~= key + seq![0x3du8] + value);
        frame_laws::lemma_key_and_value(key, value);
    }
}

proof fn lemma_keys()
    ensures
        frame::ACTION_KEY@ + seq![0x3du8] == action_prefix(),
        frame::ID_KEY@ + seq![0x3du8] == id_prefix(),
        !frame::ACTION_KEY@.contains(0x3d),
        !frame::ID_KEY@.contains(0x3d),
{
    assert(frame::ACTION_KEY@ + seq![0x3du8] =~= action_prefix());
    assert(frame::ID_KEY@ + seq![0x3du8] =~= id_prefix());
}

/// A frame is read: fields that each are a key and a value, in any order and with any other fields
/// among them, are a frame of the one action and the one session that they name.
pub proof fn law_frame_is_read(
    raw: Seq<u8>,
    fields: Seq<Seq<u8>>,
    lengths: Seq<int>,
    p: int,
    action: Seq<char>,
    q: int,
    id: Seq<char>,
)
    requires
        is_written(raw, fields),
        lengths.len() == fields.len(),
        forall|i: int|
            0 <= i < fields.len() ==> is_key_and_value(#[trigger] fields[i], lengths[i]),
        0 <= p < fields.len(),
        fields[p] == seq![0x61u8, 0x63u8, 0x3du8] + encode_utf8(action),
        is_one_of_eight(action),
        0 <= q < fields.len(),
        fields[q] == seq![0x69u8, 0x64u8, 0x3du8] + encode_utf8(id),
        is_identifier(id),
        forall|i: int|
            0 <= i < fields.len() ==> {
                &&& i != p ==> !action_prefix().is_prefix_of(#[trigger] fields[i])
                &&& i != q ==> !id_prefix().is_prefix_of(fields[i])
            },
    ensures
        frame::frame_of(raw) == Some((action, id)),
{
    lemma_written(raw, fields);
    lemma_keys();
    lemma_ends(Seq::empty(), Seq::empty());
    assert forall|i: int| 0 <= i < fields.len() implies {
        &&& frame::is_field(#[trigger] fields[i])
        &&& frame::key_of(fields[i]) == frame::ACTION_KEY@ <==> action_prefix().is_prefix_of(
            fields[i],
        )
        &&& frame::key_of(fields[i]) == frame::ID_KEY@ <==> id_prefix().is_prefix_of(fields[i])
    } by {
        lemma_field(fields[i], lengths[i]);
        lemma_short_key(fields[i], frame::ACTION_KEY@);
        lemma_short_key(fields[i], frame::ID_KEY@);
    }
    assert(action_prefix() =~= fields[p].subrange(0, 3));
    assert(id_prefix() =~= fields[q].subrange(0, 3));
    lemma_short_key(fields[p], frame::ACTION_KEY@);
    lemma_short_key(fields[q], frame::ID_KEY@);
    lemma_one_value(fields, frame::ACTION_KEY@, p);
    lemma_one_value(fields, frame::ID_KEY@, q);
    assert(frame::value_of(fields[p]) =~= fields[p].skip(3));
    assert(frame::value_of(fields[q]) =~= fields[q].skip(3));
    assert(fields[p].skip(3) =~= encode_utf8(action));
    assert(fields[q].skip(3) =~= encode_utf8(id));
    lemma_action_text(action);
    assert forall|i: int| 0 <= i < id.len() implies frame::is_id_char(#[trigger] id[i]) by {}
    frame_laws::lemma_session_id_bytes(id);
}

proof fn lemma_action_text(action: Seq<char>)
    requires
        is_one_of_eight(action),
    ensures
        bytes::ascii_text(encode_utf8(action)) == action,
{
    reveal_strlit("send");
    reveal_strlit("receive");
    reveal_strlit("file");
    reveal_strlit("data");
    reveal_strlit("end_data");
    reveal_strlit("status");
    reveal_strlit("finish");
    reveal_strlit("cancel");
    frame_laws::lemma_ascii_encoding(action);
}

/// Nothing else is read as a frame: each of its fields is a key and a value, exactly one names the
/// action and exactly one the session, the action is one of eight, and the id is an identifier.
pub proof fn law_only_frames_are_read(raw: Seq<u8>, fields: Seq<Seq<u8>>)
    requires
        is_written(raw, fields),
        frame::frame_of(raw) is Some,
    ensures
        ({
            let (action, id) = frame::frame_of(raw)->0;
            &&& is_one_of_eight(action)
            &&& is_identifier(id)
            &&& forall|i: int|
                0 <= i < fields.len() ==> has_key_and_value(#[trigger] fields[i])
            &&& exists|p: int|
                0 <= p < fields.len() && #[trigger] fields[p] == action_prefix() + encode_utf8(
                    action,
                )
            &&& exists|q: int|
                0 <= q < fields.len() && #[trigger] fields[q] == id_prefix() + encode_utf8(id)
            &&& forall|i: int, j: int|
                0 <= i < j < fields.len() ==> {
                    &&& !(action_prefix().is_prefix_of(#[trigger] fields[i])
                        && action_prefix().is_prefix_of(#[trigger] fields[j]))
                    &&& !(id_prefix().is_prefix_of(fields[i]) && id_prefix().is_prefix_of(
                        fields[j],
                    ))
                }
        }),
{
    let (action, id) = frame::frame_of(raw)->0;
    lemma_written(raw, fields);
    lemma_keys();
    lemma_ends(Seq::empty(), Seq::empty());
    assert forall|i: int| 0 <= i < fields.len() implies has_key_and_value(#[trigger] fields[i]) by {
        lemma_field(fields[i], 0);
    }
    assert forall|i: int| 0 <= i < fields.len() implies {
        &&& frame::key_of(#[trigger] fields[i]) == frame::ACTION_KEY@
            <==> action_prefix().is_prefix_of(fields[i])
        &&& frame::key_of(fields[i]) == frame::ID_KEY@ <==> id_prefix().is_prefix_of(fields[i])
    } by {
        lemma_short_key(fields[i], frame::ACTION_KEY@);
        lemma_short_key(fields[i], frame::ID_KEY@);
    }
    let p = lemma_one_field(fields, frame::ACTION_KEY@);
    let q = lemma_one_field(fields, frame::ID_KEY@);
    lemma_short_key(fields[p], frame::ACTION_KEY@);
    lemma_short_key(fields[q], frame::ID_KEY@);
    lemma_value_text(fields[p]);
    lemma_value_text(fields[q]);
    assert forall|i: int| 0 <= i < id.len() implies frame::is_id_char(#[trigger] id[i]) by {}
    assert(fields[p] == action_prefix() + encode_utf8(action));
    assert(fields[q] == id_prefix() + encode_utf8(id));
}

proof fn lemma_value_text(field: Seq<u8>)
    requires
        frame::is_field(field),
    ensures
        encode_utf8(bytes::ascii_text(frame::value_of(field))) == frame::value_of(field),
{
    let value = frame::value_of(field);
    assert forall|i: int| 0 <= i < value.len() implies #[trigger] value[i] < 0x80 by {
        assert(frame::is_value_byte(value[i]));
    }
    bytes::lemma_ascii_text(value);
}

/// The eight actions differ.
pub proof fn lemma_eight_actions()
    ensures
        "send"@ == seq!['s', 'e', 'n', 'd'],
        "receive"@ == seq!['r', 'e', 'c', 'e', 'i', 'v', 'e'],
        "file"@ == seq!['f', 'i', 'l', 'e'],
        "data"@ == seq!['d', 'a', 't', 'a'],
        "end_data"@ == seq!['e', 'n', 'd', '_', 'd', 'a', 't', 'a'],
        "status"@ == seq!['s', 't', 'a', 't', 'u', 's'],
        "finish"@ == seq!['f', 'i', 'n', 'i', 's', 'h'],
        "cancel"@ == seq!['c', 'a', 'n', 'c', 'e', 'l'],
        "send"@.len() == 4 && "send"@[0] == 's',
        "receive"@.len() == 7,
        "file"@.len() == 4 && "file"@[0] == 'f',
        "data"@.len() == 4 && "data"@[0] == 'd',
        "end_data"@.len() == 8,
        "status"@.len() == 6 && "status"@[0] == 's',
        "finish"@.len() == 6 && "finish"@[0] == 'f',
        "cancel"@.len() == 6 && "cancel"@[0] == 'c',
{
    reveal_strlit("send");
    reveal_strlit("receive");
    reveal_strlit("file");
    reveal_strlit("data");
    reveal_strlit("end_data");
    reveal_strlit("status");
    reveal_strlit("finish");
    reveal_strlit("cancel");
    assert("send"@ =~= seq!['s', 'e', 'n', 'd']);
    assert("receive"@ =~= seq!['r', 'e', 'c', 'e', 'i', 'v', 'e']);
    assert("file"@ =~= seq!['f', 'i', 'l', 'e']);
    assert("data"@ =~= seq!['d', 'a', 't', 'a']);
    assert("end_data"@ =~= seq!['e', 'n', 'd', '_', 'd', 'a', 't', 'a']);
    assert("status"@ =~= seq!['s', 't', 'a', 't', 'u', 's']);
    assert("finish"@ =~= seq!['f', 'i', 'n', 'i', 's', 'h']);
    assert("cancel"@ =~= seq!['c', 'a', 'n', 'c', 'e', 'l']);
}

/// A terminal answers with `status`, `file`, `data` and `end_data`. The other four actions are the
/// initiating side's, and no frame has a further one. An answer belongs to the session it names.
pub proof fn law_answers_are_four_of_eight(raw: Seq<u8>, action: Seq<char>, id: Seq<char>)
    requires
        frame::frame_of(raw) == Some((action, id)),
    ensures
        action == "status"@ || action == "file"@ || action == "data"@ || action == "end_data"@
            || action == "send"@ || action == "receive"@ || action == "finish"@ || action
            == "cancel"@,
        action == "status"@ ==> frame::is_terminal_response(raw, id),
        action == "file"@ ==> frame::is_terminal_response(raw, id),
        action == "data"@ ==> frame::is_terminal_response(raw, id),
        action == "end_data"@ ==> frame::is_terminal_response(raw, id),
        action == "send"@ ==> !frame::is_terminal_response(raw, id),
        action == "receive"@ ==> !frame::is_terminal_response(raw, id),
        action == "finish"@ ==> !frame::is_terminal_response(raw, id),
        action == "cancel"@ ==> !frame::is_terminal_response(raw, id),
        forall|other: Seq<char>| other != id ==> !frame::is_terminal_response(raw, other),
{
    lemma_eight_actions();
}

/// `st=`
pub open spec fn status_prefix() -> Seq<u8> {
    seq![0x73u8, 0x74u8, 0x3du8]
}

/// `fid=`
pub open spec fn file_prefix() -> Seq<u8> {
    seq![0x66u8, 0x69u8, 0x64u8, 0x3du8]
}

/// What a status value decodes to, be it written with padding or without.
pub open spec fn decoded(value: Seq<u8>) -> Option<Seq<u8>> {
    match codec::base64_decoded(value) {
        Some(text) => Some(text),
        None => codec::base64_decoded_unpadded(value),
    }
}

proof fn lemma_status_values_push(fields: Seq<Seq<u8>>, field: Seq<u8>)
    ensures
        frame::status_values(fields.push(field)) == (if status_prefix().is_prefix_of(field) {
            frame::status_values(fields).push(field.skip(3))
        } else {
            frame::status_values(fields)
        }),
        frame::STATUS_PREFIX@ == status_prefix(),
        frame::FILE_ID_PREFIX@ == file_prefix(),
{
    assert(frame::STATUS_PREFIX@ =~= status_prefix());
    assert(frame::FILE_ID_PREFIX@ =~= file_prefix());
    let has_status = |f: Seq<u8>| frame::STATUS_PREFIX@.is_prefix_of(f);
    fields.lemma_filter_push(field, has_status);
    if status_prefix().is_prefix_of(field) {
        assert(frame::status_values(fields.push(field)) =~= frame::status_values(fields).push(
            field.skip(3),
        ));
    }
}

proof fn lemma_no_status(fields: Seq<Seq<u8>>)
    requires
        forall|i: int|
            0 <= i < fields.len() ==> !status_prefix().is_prefix_of(#[trigger] fields[i]),
    ensures
        frame::status_values(fields).len() == 0,
    decreases fields.len(),
{
    if fields.len() > 0 {
        let before = fields.drop_last();
        assert forall|i: int| 0 <= i < before.len() implies !status_prefix().is_prefix_of(
            #[trigger] before[i],
        ) by {
            assert(before[i] == fields[i]);
        }
        lemma_no_status(before);
        assert(before.push(fields.last()) =~= fields);
        assert(!status_prefix().is_prefix_of(fields[fields.len() - 1]));
        lemma_status_values_push(before, fields.last());
    } else {
        assert(fields =~= Seq::<Seq<u8>>::empty());
        reveal_with_fuel(Seq::filter, 1);
    }
}

proof fn lemma_last_status(fields: Seq<Seq<u8>>, p: int)
    requires
        0 <= p < fields.len(),
        status_prefix().is_prefix_of(fields[p]),
        forall|i: int|
            p < i < fields.len() ==> !status_prefix().is_prefix_of(#[trigger] fields[i]),
    ensures
        frame::status_values(fields).len() > 0,
        frame::status_values(fields).last() == fields[p].skip(3),
    decreases fields.len(),
{
    let before = fields.drop_last();
    assert(before.push(fields.last()) =~= fields);
    lemma_status_values_push(before, fields.last());
    if p < before.len() {
        assert forall|i: int| p < i < before.len() implies !status_prefix().is_prefix_of(
            #[trigger] before[i],
        ) by {
            assert(before[i] == fields[i]);
        }
        assert(!status_prefix().is_prefix_of(fields[fields.len() - 1]));
        lemma_last_status(before, p);
    }
}

/// The last status of a frame decides about its session: the session ends with an error unless
/// that status is `OK`, `STARTED` or `PROGRESS`, or cannot be decoded. A frame without a status ends
/// nothing, nor does one that names a file.
pub proof fn law_last_status_decides(raw: Seq<u8>, fields: Seq<Seq<u8>>, p: int)
    requires
        is_written(raw, fields),
        -1 <= p < fields.len(),
        p >= 0 ==> status_prefix().is_prefix_of(fields[p]),
        forall|i: int|
            p < i < fields.len() ==> !status_prefix().is_prefix_of(#[trigger] fields[i]),
    ensures
        frame::is_session_error(raw) <==> {
            &&& p >= 0
            &&& forall|i: int|
                0 <= i < fields.len() ==> !file_prefix().is_prefix_of(#[trigger] fields[i])
            &&& decoded(fields[p].skip(3)) matches Some(text) && text != encode_utf8("OK"@) && text
                != encode_utf8("STARTED"@) && text != encode_utf8("PROGRESS"@)
        },
{
    lemma_written(raw, fields);
    lemma_status_values_push(fields, Seq::empty());
    if p >= 0 {
        lemma_last_status(fields, p);
    } else {
        lemma_no_status(fields);
    }
}

proof fn lemma_status_at(fields: Seq<Seq<u8>>, p: int) -> (k: int)
    requires
        0 <= p < fields.len(),
        status_prefix().is_prefix_of(fields[p]),
    ensures
        0 <= k < frame::status_values(fields).len(),
        frame::status_values(fields)[k] == fields[p].skip(3),
    decreases fields.len(),
{
    let before = fields.drop_last();
    assert(before.push(fields.last()) =~= fields);
    lemma_status_values_push(before, fields.last());
    if p < before.len() {
        lemma_status_at(before, p)
    } else {
        frame::status_values(before).len() as int
    }
}

proof fn lemma_status_from(fields: Seq<Seq<u8>>, k: int) -> (p: int)
    requires
        0 <= k < frame::status_values(fields).len(),
    ensures
        0 <= p < fields.len(),
        status_prefix().is_prefix_of(fields[p]),
        frame::status_values(fields)[k] == fields[p].skip(3),
    decreases fields.len(),
{
    if fields.len() == 0 {
        lemma_no_status(fields);
        0
    } else {
        let before = fields.drop_last();
        assert(before.push(fields.last()) =~= fields);
        lemma_status_values_push(before, fields.last());
        if k < frame::status_values(before).len() {
            lemma_status_from(before, k)
        } else {
            fields.len() - 1
        }
    }
}

/// A frame reports a refused permission exactly if one of its statuses, whichever, is `EPERM` or
/// begins with `EPERM:`.
pub proof fn law_any_status_denies(raw: Seq<u8>, fields: Seq<Seq<u8>>)
    requires
        is_written(raw, fields),
    ensures
        frame::is_permission_denied(raw) <==> exists|p: int|
            0 <= p < fields.len() && status_prefix().is_prefix_of(#[trigger] fields[p]) && (decoded(
                fields[p].skip(3),
            ) matches Some(text) && (text == encode_utf8("EPERM"@) || encode_utf8(
                "EPERM:"@,
            ).is_prefix_of(text))),
{
    lemma_written(raw, fields);
    let values = frame::status_values(fields);
    if frame::is_permission_denied(raw) {
        let k = choose|k: int| 0 <= k < values.len() && frame::value_denies(#[trigger] values[k]);
        let p = lemma_status_from(fields, k);
        assert(status_prefix().is_prefix_of(fields[p]));
    }
    assert forall|p: int|
        0 <= p < fields.len() && status_prefix().is_prefix_of(#[trigger] fields[p]) && (decoded(
            fields[p].skip(3),
        ) matches Some(text) && (text == encode_utf8("EPERM"@) || encode_utf8(
            "EPERM:"@,
        ).is_prefix_of(text))) implies frame::is_permission_denied(raw) by {
        let k = lemma_status_at(fields, p);
        assert(frame::value_denies(values[k]));
    }
}

/// A cancellation is written with `ESC ] 5113 ;`, two fields and `ESC \`: the action `cancel`, and the
/// session.
pub proof fn law_cancellations_are_written(id: Seq<char>)
    requires
        is_identifier(id),
    ensures
        ({
            let fields = seq![
                action_prefix() + encode_utf8("cancel"@),
                id_prefix() + encode_utf8(id),
            ];
            &&& is_written(frame::cancel_frame(id), fields)
            &&& frame::cancel_frame(id) == seq![
                0x1bu8,
                0x5du8,
                0x35u8,
                0x31u8,
                0x31u8,
                0x33u8,
                0x3bu8,
            ] + joined(fields) + seq![0x1bu8, 0x5cu8]
        }),
{
    let fields = seq![action_prefix() + encode_utf8("cancel"@), id_prefix() + encode_utf8(id)];
    let introducer = seq![0x1bu8, 0x5du8, 0x35u8, 0x31u8, 0x31u8, 0x33u8, 0x3bu8];
    let terminator = seq![0x1bu8, 0x5cu8];
    reveal_strlit("ac=cancel;id=");
    reveal_strlit("cancel");
    frame_laws::lemma_ascii_encoding("ac=cancel;id="@);
    frame_laws::lemma_ascii_encoding("cancel"@);
    lemma_identifier_field(id);
    assert forall|i: int| 0 <= i < fields[0].len() implies fields[0][i] != 0x3b by {}
    assert(fields.drop_last() =~= seq![fields[0]]);
    assert(joined(seq![fields[0]]) == fields[0]);
    assert(joined(fields) == fields[0] + seq![0x3bu8] + fields[1]);
    assert(encode_utf8("ac=cancel;id="@) + encode_utf8(id) =~= joined(fields));
    assert(frame::OSC_INTRODUCER@ =~= introducer);
    assert(frame::ST@ =~= terminator);
    assert(frame::cancel_frame(id) =~= introducer + joined(fields) + terminator);
    assert forall|i: int| 0 <= i < fields.len() implies !(#[trigger] fields[i]).contains(0x3b) by {}
    assert(is_introducer(introducer) && is_terminator(terminator));
}

proof fn lemma_identifier_field(id: Seq<char>)
    requires
        is_identifier(id),
    ensures
        encode_utf8(id).len() == id.len(),
        !(id_prefix() + encode_utf8(id)).contains(0x3b),
{
    assert forall|i: int| 0 <= i < id.len() implies frame::is_id_char(#[trigger] id[i]) by {}
    frame_laws::lemma_session_id_bytes(id);
    let field = id_prefix() + encode_utf8(id);
    assert forall|i: int| 0 <= i < field.len() implies field[i] != 0x3b by {
        if i >= 3 {
            assert(field[i] == encode_utf8(id)[i - 3]);
        }
    }
}

/// A status is written with `ESC ] 5113 ;`, three fields and `ESC \`: the action `status`, the session
/// and the status itself. A failure is the status that its message is in base64 without padding.
pub proof fn law_statuses_are_written(id: Seq<char>, status: Seq<char>, message: Seq<char>)
    requires
        is_identifier(id),
        forall|i: int|
            0 <= i < status.len() ==> ' ' <= #[trigger] status[i] <= '~' && status[i] != ';',
        id.len() + status.len() + 26 <= 65536,
    ensures
        ({
            let fields = seq![
                action_prefix() + encode_utf8("status"@),
                id_prefix() + encode_utf8(id),
                status_prefix() + encode_utf8(status),
            ];
            &&& is_written(frame::status_frame_of(id, status), fields)
            &&& frame::status_frame_of(id, status) == seq![
                0x1bu8,
                0x5du8,
                0x35u8,
                0x31u8,
                0x31u8,
                0x33u8,
                0x3bu8,
            ] + joined(fields) + seq![0x1bu8, 0x5cu8]
        }),
        frame::failure_frame(id, message) == frame::status_frame_of(
            id,
            codec::base64_encoded_unpadded(encode_utf8(message)),
        ),
{
    let fields = seq![
        action_prefix() + encode_utf8("status"@),
        id_prefix() + encode_utf8(id),
        status_prefix() + encode_utf8(status),
    ];
    let introducer = seq![0x1bu8, 0x5du8, 0x35u8, 0x31u8, 0x31u8, 0x33u8, 0x3bu8];
    let terminator = seq![0x1bu8, 0x5cu8];
    reveal_strlit("ac=status;id=");
    reveal_strlit(";st=");
    reveal_strlit("status");
    frame_laws::lemma_ascii_encoding("ac=status;id="@);
    frame_laws::lemma_ascii_encoding(";st="@);
    frame_laws::lemma_ascii_encoding("status"@);
    frame_laws::lemma_ascii_encoding(status);
    lemma_identifier_field(id);
    assert forall|i: int| 0 <= i < fields[0].len() implies fields[0][i] != 0x3b by {}
    assert forall|i: int| 0 <= i < fields[2].len() implies fields[2][i] != 0x3b by {
        if i >= 3 {
            assert(fields[2][i] == encode_utf8(status)[i - 3]);
            assert(status[i - 3] != ';');
        }
    }
    let two = seq![fields[0], fields[1]];
    assert(fields.drop_last() =~= two);
    assert(two.drop_last() =~= seq![fields[0]]);
    assert(joined(seq![fields[0]]) == fields[0]);
    assert(joined(two) == fields[0] + seq![0x3bu8] + fields[1]);
    assert(joined(fields) == joined(two) + seq![0x3bu8] + fields[2]);
    assert(encode_utf8("ac=status;id="@) + encode_utf8(id) + encode_utf8(";st="@) + encode_utf8(
        status,
    ) =~= joined(fields));
    assert(frame::OSC_INTRODUCER@ =~= introducer);
    assert(frame::ST@ =~= terminator);
    assert(frame::status_frame_of(id, status) =~= introducer + joined(fields) + terminator);
    assert forall|i: int| 0 <= i < fields.len() implies !(#[trigger] fields[i]).contains(0x3b) by {}
    assert(is_introducer(introducer) && is_terminator(terminator));
}

/// Whether two runs of bytes agree as far as both go.
pub open spec fn agree(a: Seq<u8>, b: Seq<u8>) -> bool {
    forall|i: int| 0 <= i < a.len() && i < b.len() ==> #[trigger] a[i] == b[i]
}

proof fn lemma_agree(value: Seq<u8>, expected: Seq<u8>)
    ensures
        agree(value, expected) <==> value.is_prefix_of(expected) || expected.is_prefix_of(value),
{
    let n = if value.len() < expected.len() {
        value.len() as int
    } else {
        expected.len() as int
    };
    if agree(value, expected) {
        assert(value.subrange(0, n) =~= expected.subrange(0, n));
        if n == value.len() {
            assert(value =~= expected.subrange(0, n));
        } else {
            assert(expected =~= value.subrange(0, n));
        }
    }
    if value.is_prefix_of(expected) {
        assert(value == expected.subrange(0, value.len() as int));
    }
    if expected.is_prefix_of(value) {
        assert(expected == value.subrange(0, expected.len() as int));
        assert forall|i: int| 0 <= i < value.len() && i < expected.len() implies #[trigger] value[i]
            == expected[i] by {
            assert(expected[i] == value.subrange(0, expected.len() as int)[i]);
        }
    }
}

/// Bytes may begin a frame exactly if they agree with one of the two introducers as far as both go.
pub proof fn law_beginnings_of_frames(value: Seq<u8>)
    ensures
        frame::may_be_transfer(value) <==> {
            ||| agree(value, seq![0x1bu8, 0x5du8, 0x35u8, 0x31u8, 0x31u8, 0x33u8, 0x3bu8])
            ||| agree(value, seq![0x9du8, 0x35u8, 0x31u8, 0x31u8, 0x33u8, 0x3bu8])
        },
{
    let osc = seq![0x1bu8, 0x5du8, 0x35u8, 0x31u8, 0x31u8, 0x33u8, 0x3bu8];
    let c1 = seq![0x9du8, 0x35u8, 0x31u8, 0x31u8, 0x33u8, 0x3bu8];
    assert(frame::OSC_INTRODUCER@ =~= osc);
    assert(frame::C1_INTRODUCER@ =~= c1);
    lemma_agree(value, osc);
    lemma_agree(value, c1);
}

} // verus!
