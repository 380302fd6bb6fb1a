//! What the extractor makes of the controls of a terminal: pastes, control sequences, reports and
//! strings.
use vstd::prelude::*;

use crate::extractor;
use crate::extractor::{Effect, ExtractorModel, FocusModel, Gathered, InputModel, ItemModel};
use crate::extractor_laws;
use crate::frame;
use crate::scanner;
use crate::scanner::PacketModel;
use crate::text_laws;

verus! {

/// `ESC [ 200 ~`, which begins a bracketed paste.
pub open spec fn paste_start() -> Seq<u8> {
    seq![0x1bu8, 0x5bu8, 0x32u8, 0x30u8, 0x30u8, 0x7eu8]
}

/// `ESC [ 201 ~`, which ends it.
pub open spec fn paste_end() -> Seq<u8> {
    seq![0x1bu8, 0x5bu8, 0x32u8, 0x30u8, 0x31u8, 0x7eu8]
}

/// `ESC [ I`, the report that the focus is gained.
pub open spec fn focus_in() -> Seq<u8> {
    seq![0x1bu8, 0x5bu8, 0x49u8]
}

/// `ESC [ O`, the report that the focus is lost.
pub open spec fn focus_out() -> Seq<u8> {
    seq![0x1bu8, 0x5bu8, 0x4fu8]
}

/// The ASCII bytes that a control sequence goes on with: all but ESC, CAN and SUB, and those from
/// 0x40 up to 0x7e, which end it.
pub open spec fn goes_on(byte: u8) -> bool {
    (byte < 0x40 && byte != 0x18 && byte != 0x1a && byte != 0x1b) || byte == 0x7f
}

/// The beginning of a control sequence: `ESC [` and bytes with which it goes on.
pub open spec fn begins_sequence(raw: Seq<u8>) -> bool {
    &&& raw.len() >= 2
    &&& raw[0] == 0x1b
    &&& raw[1] == 0x5b
    &&& forall|i: int| 2 <= i < raw.len() ==> goes_on(#[trigger] raw[i])
}

/// A control sequence: such a beginning, and a byte from 0x40 up to 0x7e that ends it.
pub open spec fn is_sequence(raw: Seq<u8>) -> bool {
    raw.len() >= 3 && begins_sequence(raw.drop_last()) && 0x40 <= raw.last() <= 0x7e
}

/// The constants that the extractor compares with are those of the terminal.
proof fn lemma_constants()
    ensures
        extractor::PASTE_START@ == paste_start(),
        extractor::PASTE_END@ == paste_end(),
        extractor::FOCUS_IN@ == focus_in(),
        extractor::FOCUS_OUT@ == focus_out(),
{
    assert(extractor::PASTE_START@ =~= paste_start());
    assert(extractor::PASTE_END@ =~= paste_end());
    assert(extractor::FOCUS_IN@ =~= focus_in());
    assert(extractor::FOCUS_OUT@ =~= focus_out());
}

/// Whether the extractor is in no string: outside of controls, after an ESC or in a control
/// sequence.
pub open spec fn in_no_string(extractor: ExtractorModel) -> bool {
    extractor.state is Ground || extractor.state is Escape || extractor.state is Csi
}

/// An ESC begins a new control. What was held of another one is passed on.
proof fn lemma_escape_begins(extractor: ExtractorModel)
    requires
        in_no_string(extractor),
    ensures
        extractor::extract_byte(extractor, 0x1b).0 == (ExtractorModel {
            state: InputModel::Escape(seq![0x1bu8]),
            utf8_remaining: 0,
            ..extractor
        }),
        extractor_laws::effect_bytes(extractor::extract_byte(extractor, 0x1b).1)
            == extractor_laws::held_bytes(extractor.state),
        extractor::extract_byte(extractor, 0x1b).1 is Nothing || extractor::extract_byte(
            extractor,
            0x1b,
        ).1 is Plain,
{
    reveal(extractor::extract_state);
}

proof fn lemma_lone_escape(extractor: ExtractorModel)
    requires
        in_no_string(extractor),
    ensures
        extractor::gather(extractor, seq![0x1bu8]).0 == (ExtractorModel {
            state: InputModel::Escape(seq![0x1bu8]),
            utf8_remaining: 0,
            ..extractor
        }),
{
    let raw = seq![0x1bu8];
    lemma_escape_begins(extractor);
    assert(raw.take(0) =~= Seq::<u8>::empty());
    assert(raw.take(1) =~= raw);
    extractor_laws::lemma_gather_next(extractor, raw, 0);
}

/// The beginning of a control sequence is held, up to 255 bytes of it.
pub proof fn law_sequences_are_held(extractor: ExtractorModel, raw: Seq<u8>)
    requires
        in_no_string(extractor),
        begins_sequence(raw),
        raw.len() < 256,
    ensures
        extractor::gather(extractor, raw) == (
            ExtractorModel { state: InputModel::Csi(raw), utf8_remaining: 0, ..extractor },
            Gathered {
                items: Seq::empty(),
                plain: extractor_laws::held_bytes(extractor.state),
            },
        ),
    decreases raw.len(),
{
    reveal(extractor::extract_state);
    let held = extractor_laws::held_bytes(extractor.state);
    let none = Seq::<u8>::empty();
    if raw.len() == 2 {
        lemma_escape_begins(extractor);
        assert(raw.take(0) =~= none);
        assert(none + held =~= held);
        extractor_laws::lemma_gather_next(extractor, raw, 0);
        extractor_laws::lemma_gather_next(extractor, raw, 1);
        assert(seq![0x1bu8].push(raw[1]) =~= raw);
        assert(raw.take(2) =~= raw);
    } else {
        let prefix = raw.drop_last();
        assert forall|i: int| 2 <= i < prefix.len() implies goes_on(#[trigger] prefix[i]) by {
            assert(prefix[i] == raw[i]);
        }
        law_sequences_are_held(extractor, prefix);
        assert(prefix.push(raw.last()) =~= raw);
        assert(goes_on(raw[raw.len() - 1]));
    }
}

/// A control sequence is passed on as soon as it is complete. `ESC [ 200 ~` begins a paste and
/// `ESC [ 201 ~` ends it, and no other one does either. A report of the focus is an item of its
/// own, unless it is pasted. Every other sequence is part of the input around it.
pub proof fn law_sequences_are_passed_on(extractor: ExtractorModel, raw: Seq<u8>)
    requires
        in_no_string(extractor),
        is_sequence(raw),
        raw.len() <= 256,
    ensures
        ({
            let (after, gathered) = extractor::gather(extractor, raw);
            let held = extractor_laws::held_bytes(extractor.state);
            &&& after == (ExtractorModel {
                state: InputModel::Ground,
                bracketed_paste: raw == paste_start() || (raw != paste_end()
                    && extractor.bracketed_paste),
                utf8_remaining: 0,
                ..extractor
            })
            &&& if !extractor.bracketed_paste && (raw == focus_in() || raw == focus_out()) {
                gathered == (Gathered {
                    items: (if held.len() > 0 {
                        seq![ItemModel::Input(held)]
                    } else {
                        Seq::empty()
                    }).push(ItemModel::Input(raw)),
                    plain: Seq::empty(),
                })
            } else {
                gathered == (Gathered { items: Seq::empty(), plain: held + raw })
            }
        }),
{
    reveal(extractor::extract_state);
    lemma_constants();
    law_sequences_are_held(extractor, raw.drop_last());
    assert(raw.drop_last().push(raw.last()) =~= raw);
    assert(raw =~= paste_start() ==> raw.len() == 6);
    assert(raw =~= paste_end() ==> raw.len() == 6);
    assert(paste_start()[4] == 0x30 && paste_end()[4] == 0x31);
    let held = extractor_laws::held_bytes(extractor.state);
    assert(Seq::<ItemModel>::empty().push(ItemModel::Input(held)) =~= seq![ItemModel::Input(held)]);
}

/// A control sequence that is not complete after 256 bytes is none: it is passed on.
pub proof fn law_long_sequences_are_passed_on(extractor: ExtractorModel, raw: Seq<u8>)
    requires
        in_no_string(extractor),
        begins_sequence(raw),
        raw.len() == 256,
    ensures
        extractor::gather(extractor, raw) == (
            ExtractorModel { state: InputModel::Ground, utf8_remaining: 0, ..extractor },
            Gathered {
                items: Seq::empty(),
                plain: extractor_laws::held_bytes(extractor.state) + raw,
            },
        ),
{
    reveal(extractor::extract_state);
    let prefix = raw.drop_last();
    assert forall|i: int| 2 <= i < prefix.len() implies goes_on(#[trigger] prefix[i]) by {
        assert(prefix[i] == raw[i]);
    }
    law_sequences_are_held(extractor, prefix);
    assert(prefix.push(raw.last()) =~= raw);
    assert(goes_on(raw[raw.len() - 1]));
}

/// A paste ends with `ESC [ 201 ~`, whatever was held of another control: the extractor is outside
/// of pastes and of controls then, and has passed everything on.
pub proof fn law_paste_ends(extractor: ExtractorModel)
    requires
        extractor.bracketed_paste,
        in_no_string(extractor),
    ensures
        ({
            let raw = seq![0x1bu8, 0x5bu8, 0x32u8, 0x30u8, 0x31u8, 0x7eu8];
            let (after, items) = extractor::extract(extractor, raw);
            &&& !after.bracketed_paste
            &&& after.state == InputModel::Ground
            &&& after.utf8_remaining == 0
            &&& extractor_laws::input_bytes(items) == extractor_laws::held_bytes(extractor.state)
                + raw
        }),
{
    let raw = paste_end();
    law_sequences_are_passed_on(extractor, raw);
    extractor_laws::lemma_extract_yields(extractor, raw);
    let gathered = extractor::gather(extractor, raw).1;
    extractor_laws::lemma_flushed(gathered);
    extractor_laws::lemma_nothing_gathered();
    let none = Seq::<u8>::empty();
    assert(none + gathered.plain =~= gathered.plain);
}

/// A paste begins with `ESC [ 200 ~`.
pub proof fn law_paste_begins(extractor: ExtractorModel)
    requires
        in_no_string(extractor),
    ensures
        ({
            let raw = seq![0x1bu8, 0x5bu8, 0x32u8, 0x30u8, 0x30u8, 0x7eu8];
            let (after, items) = extractor::extract(extractor, raw);
            &&& after.bracketed_paste
            &&& after.state == InputModel::Ground
            &&& after.utf8_remaining == 0
            &&& extractor_laws::input_bytes(items) == extractor_laws::held_bytes(extractor.state)
                + raw
        }),
{
    let raw = paste_start();
    law_sequences_are_passed_on(extractor, raw);
    extractor_laws::lemma_extract_yields(extractor, raw);
    let gathered = extractor::gather(extractor, raw).1;
    extractor_laws::lemma_flushed(gathered);
    extractor_laws::lemma_nothing_gathered();
    let none = Seq::<u8>::empty();
    assert(none + gathered.plain =~= gathered.plain);
}

/// Inside of a paste every byte but ESC is passed on at once.
pub proof fn law_pasted_bytes_are_passed_on(extractor: ExtractorModel, bytes: Seq<u8>)
    requires
        extractor.bracketed_paste,
        extractor.state == InputModel::Ground,
        !bytes.contains(0x1b),
    ensures
        ({
            let (after, gathered) = extractor::gather(extractor, bytes);
            &&& after == (ExtractorModel { utf8_remaining: after.utf8_remaining, ..extractor })
            &&& gathered == (Gathered { items: Seq::empty(), plain: bytes })
        }),
    decreases bytes.len(),
{
    if bytes.len() > 0 {
        reveal(extractor::extract_state);
        let prefix = bytes.drop_last();
        assert(!prefix.contains(0x1b)) by {
            if prefix.contains(0x1b) {
                let i = choose|i: int| 0 <= i < prefix.len() && prefix[i] == 0x1b;
                assert(bytes[i] == 0x1b);
            }
        }
        law_pasted_bytes_are_passed_on(extractor, prefix);
        assert(bytes[bytes.len() - 1] == bytes.last());
        assert(prefix + seq![bytes.last()] =~= bytes);
    }
}

/// What follows a paste is input like any other: the paste is passed on as it is, in one piece, and
/// a frame behind it is extracted.
pub proof fn law_frame_after_a_paste_is_extracted(
    extractor: ExtractorModel,
    text: Seq<u8>,
    raw: Seq<u8>,
)
    requires
        extractor.state == InputModel::Ground,
        !text.contains(0x1b),
        frame::frame_of(raw) is Some,
    ensures
        ({
            let paste = seq![0x1bu8, 0x5bu8, 0x32u8, 0x30u8, 0x30u8, 0x7eu8] + text + seq![
                0x1bu8,
                0x5bu8,
                0x32u8,
                0x30u8,
                0x31u8,
                0x7eu8,
            ];
            &&& extractor_laws::gathered_items(extractor, paste + raw) == seq![
                ItemModel::Input(paste),
                ItemModel::Transfer(scanner::packet_of(raw)->0),
            ]
            &&& extractor::gather(extractor, paste + raw).0 == (ExtractorModel {
                bracketed_paste: false,
                utf8_remaining: 0,
                ..extractor
            })
            &&& extractor.focus.pending_failure is None && !frame::is_session_error(raw)
                ==> extractor::extract(extractor, paste + raw).1 == seq![
                ItemModel::Input(paste),
                ItemModel::Transfer(scanner::packet_of(raw)->0),
            ]
        }),
{
    let start = paste_start();
    let end = paste_end();
    let paste = start + text + end;
    law_sequences_are_passed_on(extractor, start);
    let opened = extractor::gather(extractor, start).0;
    law_pasted_bytes_are_passed_on(opened, text);
    text_laws::lemma_gather_on(extractor, start, text);
    let pasted = extractor::gather(extractor, start + text).0;
    law_sequences_are_passed_on(pasted, end);
    text_laws::lemma_gather_on(extractor, start + text, end);
    let none = Seq::<u8>::empty();
    assert(none + start =~= start && none + end =~= end);
    text_laws::lemma_frame_follows(extractor, paste, raw);
    let packet = ItemModel::Transfer(scanner::packet_of(raw)->0);
    assert(extractor_laws::gathered_items(extractor, paste + raw) =~= seq![
        ItemModel::Input(paste),
        packet,
    ]);
    if extractor.focus.pending_failure is None && !frame::is_session_error(raw) {
        law_input_without_failures_is_in_order(extractor, paste + raw);
    }
}

/// Idleness gives up an ESC that nothing follows, and the beginning of a control sequence: each is
/// passed on as it is, and what follows is read from anew. The paste goes on.
pub proof fn law_idleness_gives_up_sequences(extractor: ExtractorModel, raw: Seq<u8>)
    requires
        extractor.state == InputModel::Ground,
        raw == seq![0x1bu8] || (begins_sequence(raw) && raw.len() < 256),
        extractor.focus.pending_failure is None,
    ensures
        ({
            let held = extractor::gather(extractor, raw).0;
            let (after, items) = extractor::idle(held);
            &&& items == seq![ItemModel::Input(raw)]
            &&& after == (ExtractorModel { utf8_remaining: 0, ..extractor })
        }),
{
    let held = extractor::gather(extractor, raw).0;
    if raw == seq![0x1bu8] {
        lemma_lone_escape(extractor);
    } else {
        law_sequences_are_held(extractor, raw);
    }
    assert(extractor::idle(held).1 =~= seq![ItemModel::Input(raw)]);
}

/// Idleness does not disturb a frame: where the first part of a frame has arrived, its introducing
/// bytes at least, nothing is passed on, and the rest of it completes it all the same.
pub proof fn law_frames_survive_idleness(extractor: ExtractorModel, raw: Seq<u8>, k: int)
    requires
        extractor.state == InputModel::Ground,
        !extractor.bracketed_paste,
        extractor.utf8_remaining == 0 || raw[0] == 0x1b,
        extractor.focus.pending_failure is None,
        frame::frame_of(raw) is Some,
        (if raw[0] == 0x1b {
            2int
        } else {
            1int
        }) <= k < raw.len(),
    ensures
        ({
            let held = extractor::gather(extractor, raw.take(k)).0;
            let (after, items) = extractor::idle(held);
            &&& items == Seq::<ItemModel>::empty()
            &&& after == held
            &&& extractor_laws::gathered_items(after, raw.skip(k)) == seq![
                ItemModel::Transfer(scanner::packet_of(raw)->0),
            ]
        }),
{
    let head = raw.take(k);
    let tail = raw.skip(k);
    let (held, gathered) = extractor::gather(extractor, head);
    let (after, items) = extractor::idle(held);
    extractor_laws::lemma_frame_is_held(extractor, raw, k);
    extractor_laws::lemma_gather_ignores_focus(extractor, extractor.focus, head);
    assert(items =~= Seq::<ItemModel>::empty());
    let inner = tail.drop_last();
    assert(head + inner =~= raw.drop_last());
    assert(tail.last() == raw.last());
    extractor_laws::lemma_frame_is_collected(extractor, raw);
    lemma_quiet_tail(extractor, head, inner);
    assert(extractor_laws::gathered_items(after, tail) =~= seq![
        ItemModel::Transfer(scanner::packet_of(raw)->0),
    ]);
}

/// Where some input amounts to nothing, so does the end of it.
pub proof fn lemma_quiet_tail(extractor: ExtractorModel, first: Seq<u8>, second: Seq<u8>)
    requires
        extractor::gather(extractor, first).1 == extractor::nothing_gathered(),
        extractor::gather(extractor, first + second).1 == extractor::nothing_gathered(),
    ensures
        extractor::gather(extractor::gather(extractor, first).0, second) == (
            extractor::gather(extractor, first + second).0,
            extractor::nothing_gathered(),
        ),
    decreases second.len(),
{
    if second.len() == 0 {
        assert(first + second =~= first);
    } else {
        let whole = first + second;
        assert(whole.drop_last() =~= first + second.drop_last());
        assert(whole.last() == second.last());
        let (before, gathered) = extractor::gather(extractor, whole.drop_last());
        let effect = extractor::extract_byte(before, whole.last()).1;
        assert(gathered.items.len() == 0 && gathered.plain.len() == 0) by {
            lemma_effect_adds(gathered, effect);
        }
        assert(gathered =~= extractor::nothing_gathered());
        lemma_quiet_tail(extractor, first, second.drop_last());
    }
}

/// An effect takes nothing away from what was gathered.
proof fn lemma_effect_adds(gathered: Gathered, effect: Effect)
    ensures
        extractor::with_effect(gathered, effect) == extractor::nothing_gathered() ==> gathered
            == extractor::nothing_gathered(),
{
    let after = extractor::with_effect(gathered, effect);
    if after == extractor::nothing_gathered() {
        assert(after.items.len() == 0 && after.plain.len() == 0);
        assert(gathered.items =~= Seq::empty());
        assert(gathered.plain =~= Seq::empty());
    }
}

/// What is held may be the beginning of a mouse report exactly if it is a lone ESC, or `ESC [ <` and
/// then nothing but digits and `;`.
pub proof fn law_mouse_reports_are_recognised(extractor: ExtractorModel, raw: Seq<u8>)
    requires
        in_no_string(extractor),
        raw == seq![0x1bu8] || (begins_sequence(raw) && raw.len() < 256),
    ensures
        extractor::may_be_mouse_report(extractor::gather(extractor, raw).0.state) <==> {
            ||| raw == seq![0x1bu8]
            ||| raw.len() >= 3 && raw[2] == 0x3c && forall|i: int|
                3 <= i < raw.len() ==> (0x30 <= #[trigger] raw[i] <= 0x39 || raw[i] == 0x3b)
        },
{
    if raw == seq![0x1bu8] {
        lemma_lone_escape(extractor);
    } else {
        law_sequences_are_held(extractor, raw);
        let prefix = extractor::MOUSE_PREFIX@;
        assert(prefix =~= seq![0x1bu8, 0x5bu8, 0x3cu8]);
        assert(raw.len() != 1);
        if prefix.is_prefix_of(raw) {
            assert(prefix == raw.subrange(0, 3));
            assert(prefix[2] == raw[2]);
        }
        if raw.len() >= 3 && raw[2] == 0x3c {
            assert(prefix =~= raw.subrange(0, 3));
        }
    }
}

/// Where nothing of an escape sequence is held, nothing may be the beginning of a mouse report, and
/// a complete control sequence leaves nothing held.
pub proof fn law_complete_reports_are_not_pending(extractor: ExtractorModel, raw: Seq<u8>)
    requires
        in_no_string(extractor),
        is_sequence(raw),
        raw.len() <= 256,
    ensures
        !extractor::may_be_mouse_report(extractor::gather(extractor, raw).0.state),
        extractor.state is Ground ==> !extractor::may_be_mouse_report(extractor.state),
{
    law_sequences_are_passed_on(extractor, raw);
}

/// After an ESC, a byte that opens no sequence and no string ends the matter: both are passed on.
/// Inside of a paste only `[` goes on.
pub proof fn law_other_escapes_are_passed_on(extractor: ExtractorModel, byte: u8)
    requires
        extractor.state == InputModel::Ground,
        byte != 0x1b && byte != 0x5b,
        extractor.bracketed_paste || (byte != 0x5d && byte != 0x50 && byte != 0x58 && byte != 0x5e
            && byte != 0x5f),
    ensures
        ({
            let (after, gathered) = extractor::gather(extractor, seq![0x1bu8, byte]);
            &&& after.state == InputModel::Ground
            &&& after.bracketed_paste == extractor.bracketed_paste
            &&& gathered == (Gathered { items: Seq::empty(), plain: seq![0x1bu8, byte] })
        }),
{
    let raw = seq![0x1bu8, byte];
    lemma_escape_begins(extractor);
    reveal(extractor::extract_state);
    assert(raw.take(0) =~= Seq::<u8>::empty());
    extractor_laws::lemma_gather_next(extractor, raw, 0);
    extractor_laws::lemma_gather_next(extractor, raw, 1);
    assert(raw.take(2) =~= raw);
    assert(seq![0x1bu8].push(byte) =~= raw);
    let none = Seq::<u8>::empty();
    assert(none + raw =~= raw);
}

/// Outside of a paste, CAN and SUB abandon everything. Of a transfer frame that has begun nothing is
/// passed on, nor the control itself; of everything else all that was held is, and the control
/// behind it.
pub proof fn law_cancel_controls_abandon(extractor: ExtractorModel, byte: u8)
    requires
        !extractor.bracketed_paste,
        byte == 0x18 || byte == 0x1a,
    ensures
        ({
            let (after, effect) = extractor::extract_byte(extractor, byte);
            let held = extractor_laws::held_bytes(extractor.state);
            let begun = match extractor.state {
                InputModel::Osc(raw) | InputModel::OscEscape(raw) => seq![
                    0x1bu8,
                    0x5du8,
                    0x35u8,
                    0x31u8,
                    0x31u8,
                    0x33u8,
                    0x3bu8,
                ].is_prefix_of(raw) || seq![0x9du8, 0x35u8, 0x31u8, 0x31u8, 0x33u8, 0x3bu8].is_prefix_of(
                    raw,
                ),
                InputModel::DiscardOsc(_) => true,
                _ => false,
            };
            &&& after == (ExtractorModel {
                state: InputModel::Ground,
                utf8_remaining: 0,
                ..extractor
            })
            &&& begun ==> effect == Effect::Nothing
            &&& !begun ==> effect == Effect::Plain(held.push(byte))
        }),
{
    reveal(extractor::extract_state);
    assert(frame::OSC_INTRODUCER@ =~= seq![
        0x1bu8,
        0x5du8,
        0x35u8,
        0x31u8,
        0x31u8,
        0x33u8,
        0x3bu8,
    ]);
    assert(frame::C1_INTRODUCER@ =~= seq![0x9du8, 0x35u8, 0x31u8, 0x31u8, 0x33u8, 0x3bu8]);
    assert(seq![byte] =~= Seq::<u8>::empty().push(byte));
}

/// What becomes of one item. A status that ends its session with an error is held back, and lets go
/// the one that was held. The return of the focus goes out before the held failure. The loss of the
/// focus lets nothing go. While a refused permission waits for the focus, what begins with an ESC or
/// a C1 control passes it by. Everything else goes out behind the held failure.
pub proof fn law_items_are_ordered(focus: FocusModel, item: ItemModel)
    ensures
        ({
            let (after, output) = extractor::order_item(focus, item);
            let held = match focus.pending_failure {
                Some(packet) => seq![ItemModel::Transfer(packet)],
                None => Seq::<ItemModel>::empty(),
            };
            match item {
                ItemModel::Transfer(packet) => if packet.action == "status"@
                    && frame::is_session_error(packet.raw) {
                    &&& output == held
                    &&& after.pending_failure == Some(packet)
                    &&& after.outer_unfocused == focus.outer_unfocused
                    &&& after.waits_for_focus == (focus.outer_unfocused
                        && frame::is_permission_denied(packet.raw))
                } else {
                    &&& output == held.push(item)
                    &&& after.pending_failure is None
                    &&& after.outer_unfocused == focus.outer_unfocused
                    &&& !after.waits_for_focus
                },
                ItemModel::Input(bytes) => if bytes == seq![0x1bu8, 0x5bu8, 0x49u8] {
                    &&& output == seq![item] + held
                    &&& after.pending_failure is None
                    &&& !after.outer_unfocused
                    &&& !after.waits_for_focus
                } else if bytes == seq![0x1bu8, 0x5bu8, 0x4fu8] {
                    &&& output == seq![item]
                    &&& after == (FocusModel { outer_unfocused: true, ..focus })
                } else if focus.waits_for_focus && bytes.len() > 0 && (bytes[0] == 0x1b || 0x80
                    <= bytes[0] <= 0x9f) {
                    output == seq![item] && after == focus
                } else {
                    &&& output == held.push(item)
                    &&& after.pending_failure is None
                    &&& after.outer_unfocused == focus.outer_unfocused
                    &&& !after.waits_for_focus
                },
            }
        }),
{
    lemma_constants();
    assert(focus_in()[2] == 0x49 && focus_out()[2] == 0x4f);
    let held = extractor::released(focus.pending_failure);
    assert(held + seq![item] =~= held.push(item));
}

/// A refused permission that arrives while the focus is away goes out right behind the report that
/// the focus is back, however many control replies of the host arrive in between.
pub proof fn law_refusals_wait_for_the_focus(
    focus: FocusModel,
    refusal: PacketModel,
    replies: Seq<ItemModel>,
)
    requires
        focus.pending_failure is None,
        refusal.action == "status"@,
        frame::is_session_error(refusal.raw),
        frame::is_permission_denied(refusal.raw),
        forall|i: int|
            0 <= i < replies.len() ==> (#[trigger] replies[i] matches ItemModel::Input(bytes)
                && bytes.len() > 0 && (bytes[0] == 0x1b || 0x80 <= bytes[0] <= 0x9f) && bytes
                != seq![0x1bu8, 0x5bu8, 0x49u8] && bytes != seq![0x1bu8, 0x5bu8, 0x4fu8]),
    ensures
        ({
            let lost = ItemModel::Input(seq![0x1bu8, 0x5bu8, 0x4fu8]);
            let gained = ItemModel::Input(seq![0x1bu8, 0x5bu8, 0x49u8]);
            let failure = ItemModel::Transfer(refusal);
            let waiting = extractor::order(focus, seq![lost, failure] + replies);
            &&& waiting.1 == seq![lost] + replies
            &&& waiting.0 == (FocusModel {
                pending_failure: Some(refusal),
                outer_unfocused: true,
                waits_for_focus: true,
            })
            &&& extractor::order_item(waiting.0, gained).1 == seq![gained, failure]
        }),
    decreases replies.len(),
{
    let lost = ItemModel::Input(seq![0x1bu8, 0x5bu8, 0x4fu8]);
    let gained = ItemModel::Input(seq![0x1bu8, 0x5bu8, 0x49u8]);
    let failure = ItemModel::Transfer(refusal);
    let start = seq![lost, failure];
    let none = Seq::<ItemModel>::empty();
    let waiting = FocusModel {
        pending_failure: Some(refusal),
        outer_unfocused: true,
        waits_for_focus: true,
    };
    law_items_are_ordered(waiting, gained);
    assert(seq![gained] + seq![failure] =~= seq![gained, failure]);
    if replies.len() == 0 {
        assert(start + replies =~= start);
        assert(start.drop_last() =~= seq![lost]);
        assert(seq![lost].drop_last() =~= none);
        law_items_are_ordered(focus, lost);
        let first = extractor::order_item(focus, lost).0;
        law_items_are_ordered(first, failure);
        assert(extractor::order(focus, none) == (focus, none));
        assert(none + seq![lost] =~= seq![lost]);
        assert(extractor::order(focus, seq![lost]) == (first, seq![lost]));
        assert(seq![lost] + none =~= seq![lost]);
        assert(seq![lost] + replies =~= seq![lost]);
    } else {
        let fewer = replies.drop_last();
        assert forall|i: int| 0 <= i < fewer.len() implies (#[trigger] fewer[i] matches ItemModel::Input(
            bytes,
        ) && bytes.len() > 0 && (bytes[0] == 0x1b || 0x80 <= bytes[0] <= 0x9f) && bytes != seq![
            0x1bu8,
            0x5bu8,
            0x49u8,
        ] && bytes != seq![0x1bu8, 0x5bu8, 0x4fu8]) by {
            assert(fewer[i] == replies[i]);
        }
        law_refusals_wait_for_the_focus(focus, refusal, fewer);
        assert((start + replies).drop_last() =~= start + fewer);
        assert((start + replies).last() == replies.last());
        assert(replies[replies.len() - 1] == replies.last());
        law_items_are_ordered(waiting, replies.last());
        assert(seq![lost] + fewer + seq![replies.last()] =~= seq![lost] + replies);
    }
}

/// Where there is no failure among some items, and none is held, they go out as they are.
pub proof fn law_order_without_failures_is_kept(focus: FocusModel, items: Seq<ItemModel>)
    requires
        focus.pending_failure is None,
        forall|i: int|
            0 <= i < items.len() ==> (#[trigger] items[i] matches ItemModel::Transfer(packet)
                ==> packet.action != "status"@ || !frame::is_session_error(packet.raw)),
    ensures
        extractor::order(focus, items).1 == items,
        extractor::order(focus, items).0.pending_failure is None,
    decreases items.len(),
{
    if items.len() > 0 {
        let fewer = items.drop_last();
        assert forall|i: int| 0 <= i < fewer.len() implies (#[trigger] fewer[i] matches ItemModel::Transfer(
            packet,
        ) ==> packet.action != "status"@ || !frame::is_session_error(packet.raw)) by {
            assert(fewer[i] == items[i]);
        }
        law_order_without_failures_is_kept(focus, fewer);
        assert(items[items.len() - 1] == items.last());
        let before = extractor::order(focus, fewer).0;
        law_items_are_ordered(before, items.last());
        let none = Seq::<ItemModel>::empty();
        assert(none.push(items.last()) =~= seq![items.last()]);
        assert(seq![items.last()] + none =~= seq![items.last()]);
        assert(fewer + seq![items.last()] =~= items);
    } else {
        assert(items =~= Seq::<ItemModel>::empty());
    }
}

/// A piece of input yields what was gathered from it, in that order, unless there is a failure in it
/// or one is held.
pub proof fn law_input_without_failures_is_in_order(extractor: ExtractorModel, bytes: Seq<u8>)
    requires
        extractor.focus.pending_failure is None,
        forall|i: int|
            0 <= i < extractor_laws::gathered_items(extractor, bytes).len() ==> (
            #[trigger] extractor_laws::gathered_items(
                extractor,
                bytes,
            )[i] matches ItemModel::Transfer(packet) ==> packet.action != "status"@
                || !frame::is_session_error(packet.raw)),
    ensures
        extractor::extract(extractor, bytes).1 == extractor_laws::gathered_items(extractor, bytes),
{
    extractor_laws::lemma_gather_ignores_focus(extractor, extractor.focus, bytes);
    law_order_without_failures_is_kept(
        extractor.focus,
        extractor_laws::gathered_items(extractor, bytes),
    );
}

/// A report of the focus is an item of its own behind the input before it, and what follows is
/// gathered anew.
pub proof fn law_reports_are_items_of_their_own(
    extractor: ExtractorModel,
    before: Seq<u8>,
    raw: Seq<u8>,
)
    requires
        ({
            let reached = extractor::gather(extractor, before).0;
            reached.state == InputModel::Ground && !reached.bracketed_paste
        }),
        raw == seq![0x1bu8, 0x5bu8, 0x49u8] || raw == seq![0x1bu8, 0x5bu8, 0x4fu8],
    ensures
        ({
            let gathered = extractor::gather(extractor, before).1;
            let items = if gathered.plain.len() > 0 {
                gathered.items.push(ItemModel::Input(gathered.plain))
            } else {
                gathered.items
            };
            extractor::gather(extractor, before + raw).1 == (Gathered {
                items: items.push(ItemModel::Input(raw)),
                plain: Seq::empty(),
            })
        }),
{
    let (reached, gathered) = extractor::gather(extractor, before);
    let part = raw.drop_last();
    assert(part =~= seq![0x1bu8, 0x5bu8]);
    law_sequences_are_held(reached, part);
    text_laws::lemma_gather_on(extractor, before, part);
    let none = Seq::<u8>::empty();
    assert(gathered.plain + none =~= gathered.plain);
    assert((before + raw).drop_last() =~= before + part);
    assert((before + raw).last() == raw.last());
    lemma_report_completed(extractor::gather(extractor, before + part).0, raw);
}

proof fn lemma_report_completed(extractor: ExtractorModel, raw: Seq<u8>)
    requires
        raw == focus_in() || raw == focus_out(),
        extractor.state == InputModel::Csi(raw.drop_last()),
        !extractor.bracketed_paste,
    ensures
        extractor::extract_byte(extractor, raw.last()).1 == Effect::Report(raw),
{
    reveal(extractor::extract_state);
    lemma_constants();
    assert(raw.drop_last().push(raw.last()) =~= raw);
    assert(paste_start().len() == 6 && paste_end().len() == 6 && raw.len() == 3);
}

} // verus!
