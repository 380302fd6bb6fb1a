//! What holds of the extractor whatever the input.
use vstd::prelude::*;

use crate::extractor;
use crate::extractor::{Effect, ExtractorModel, FocusModel, Gathered, InputModel, ItemModel};
use crate::frame;
use crate::frame::MAX_TRANSFER_COMMAND_BYTES;
use crate::frame_laws;
use crate::scanner;
use crate::scanner::PacketModel;

verus! {

/// The pieces of input among some items, in order.
pub open spec fn input_chunks(items: Seq<ItemModel>) -> Seq<Seq<u8>>
    decreases items.len(),
{
    if items.len() == 0 {
        Seq::empty()
    } else {
        match items.last() {
            ItemModel::Input(bytes) => input_chunks(items.drop_last()).push(bytes),
            ItemModel::Transfer(_) => input_chunks(items.drop_last()),
        }
    }
}

/// The bytes of input among some items, in order.
pub open spec fn input_bytes(items: Seq<ItemModel>) -> Seq<u8> {
    input_chunks(items).flatten()
}

/// The transfer frames among some items, in order.
pub open spec fn packets_in(items: Seq<ItemModel>) -> Seq<PacketModel>
    decreases items.len(),
{
    if items.len() == 0 {
        Seq::empty()
    } else {
        match items.last() {
            ItemModel::Input(_) => packets_in(items.drop_last()),
            ItemModel::Transfer(packet) => packets_in(items.drop_last()).push(packet),
        }
    }
}

/// A list of at most one packet.
pub open spec fn held_packet(pending: Option<PacketModel>) -> Seq<PacketModel> {
    match pending {
        Some(packet) => seq![packet],
        None => Seq::empty(),
    }
}

proof fn lemma_items_add(first: Seq<ItemModel>, second: Seq<ItemModel>)
    ensures
        input_chunks(first + second) == input_chunks(first) + input_chunks(second),
        packets_in(first + second) == packets_in(first) + packets_in(second),
    decreases second.len(),
{
    if second.len() == 0 {
        assert(first + second =~= first);
        assert(input_chunks(first) + input_chunks(second) =~= input_chunks(first));
        assert(packets_in(first) + packets_in(second) =~= packets_in(first));
    } else {
        lemma_items_add(first, second.drop_last());
        assert((first + second).drop_last() =~= first + second.drop_last());
        assert((first + second).last() == second.last());
        assert(input_chunks(first + second) =~= input_chunks(first) + input_chunks(second));
        assert(packets_in(first + second) =~= packets_in(first) + packets_in(second));
    }
}

pub proof fn lemma_single(item: ItemModel)
    ensures
        input_chunks(seq![item]) == (match item {
            ItemModel::Input(bytes) => seq![bytes],
            ItemModel::Transfer(_) => Seq::<Seq<u8>>::empty(),
        }),
        packets_in(seq![item]) == (match item {
            ItemModel::Input(_) => Seq::<PacketModel>::empty(),
            ItemModel::Transfer(packet) => seq![packet],
        }),
{
    let none = Seq::<ItemModel>::empty();
    assert(seq![item].drop_last() =~= none);
    assert(input_chunks(none) =~= Seq::<Seq<u8>>::empty());
    assert(packets_in(none) =~= Seq::<PacketModel>::empty());
    assert(seq![item].last() == item);
    match item {
        ItemModel::Input(bytes) => {
            assert(input_chunks(seq![item]) =~= seq![bytes]);
        },
        ItemModel::Transfer(packet) => {
            assert(packets_in(seq![item]) =~= seq![packet]);
        },
    }
}

proof fn lemma_released(pending: Option<PacketModel>)
    ensures
        input_chunks(extractor::released(pending)) == Seq::<Seq<u8>>::empty(),
        packets_in(extractor::released(pending)) == held_packet(pending),
{
    if let Some(packet) = pending {
        lemma_single(ItemModel::Transfer(packet));
    }
}

proof fn lemma_order_item(focus: FocusModel, item: ItemModel)
    ensures
        input_chunks(extractor::order_item(focus, item).1) == input_chunks(seq![item]),
        packets_in(extractor::order_item(focus, item).1) + held_packet(
            extractor::order_item(focus, item).0.pending_failure,
        ) == held_packet(focus.pending_failure) + packets_in(seq![item]),
{
    lemma_single(item);
    lemma_released(focus.pending_failure);
    let held = extractor::released(focus.pending_failure);
    lemma_items_add(held, seq![item]);
    lemma_items_add(seq![item], held);
    let (after, output) = extractor::order_item(focus, item);
    assert(input_chunks(output) =~= input_chunks(seq![item]));
    assert(packets_in(output) + held_packet(after.pending_failure) =~= held_packet(
        focus.pending_failure,
    ) + packets_in(seq![item]));
}

/// Holding a failure back suppresses no input and reorders none: the pieces of input that come out
/// are those that went in, and the transfer frames keep their order as well, but for the last one,
/// which may still be held.
pub proof fn law_ordering_loses_nothing(focus: FocusModel, items: Seq<ItemModel>)
    ensures
        input_chunks(extractor::order(focus, items).1) == input_chunks(items),
        packets_in(extractor::order(focus, items).1) + held_packet(
            extractor::order(focus, items).0.pending_failure,
        ) == held_packet(focus.pending_failure) + packets_in(items),
    decreases items.len(),
{
    let held = held_packet(focus.pending_failure);
    if items.len() == 0 {
        assert(packets_in(extractor::order(focus, items).1) + held =~= held + packets_in(items));
    } else {
        let prefix = items.drop_last();
        let last = seq![items.last()];
        law_ordering_loses_nothing(focus, prefix);
        let (before, output) = extractor::order(focus, prefix);
        let (after, more) = extractor::order_item(before, items.last());
        lemma_order_item(before, items.last());
        lemma_items_add(output, more);
        lemma_items_add(prefix, last);
        assert(prefix + last =~= items);
        assert(packets_in(output + more) + held_packet(after.pending_failure) =~= packets_in(output)
            + (packets_in(more) + held_packet(after.pending_failure)));
        assert(packets_in(output) + (held_packet(before.pending_failure) + packets_in(last))
            =~= packets_in(output) + held_packet(before.pending_failure) + packets_in(last));
        assert(held + packets_in(prefix) + packets_in(last) =~= held + (packets_in(prefix)
            + packets_in(last)));
    }
}

/// The input that an effect amounts to.
pub open spec fn effect_bytes(effect: Effect) -> Seq<u8> {
    match effect {
        Effect::Plain(bytes) | Effect::Report(bytes) => bytes,
        _ => Seq::empty(),
    }
}

/// The transfer frames that an effect amounts to.
pub open spec fn effect_packets(effect: Effect) -> Seq<PacketModel> {
    match effect {
        Effect::Packet(packet) => seq![packet],
        _ => Seq::empty(),
    }
}

pub proof fn lemma_flushed(gathered: Gathered)
    ensures
        input_bytes(extractor::flushed(gathered)) == input_bytes(gathered.items) + gathered.plain,
        packets_in(extractor::flushed(gathered)) == packets_in(gathered.items),
{
    let items = extractor::flushed(gathered);
    if gathered.plain.len() > 0 {
        assert(items.drop_last() =~= gathered.items);
        input_chunks(gathered.items).lemma_flatten_push(gathered.plain);
    } else {
        assert(input_bytes(items) + gathered.plain =~= input_bytes(items));
    }
}

proof fn lemma_with_effect(gathered: Gathered, effect: Effect)
    ensures
        input_bytes(extractor::flushed(extractor::with_effect(gathered, effect))) == input_bytes(
            extractor::flushed(gathered),
        ) + effect_bytes(effect),
        packets_in(extractor::flushed(extractor::with_effect(gathered, effect))) == packets_in(
            extractor::flushed(gathered),
        ) + effect_packets(effect),
{
    let after = extractor::with_effect(gathered, effect);
    let items = extractor::flushed(gathered);
    lemma_flushed(gathered);
    lemma_flushed(after);
    match effect {
        Effect::Nothing => {
            assert(input_bytes(items) + effect_bytes(effect) =~= input_bytes(items));
            assert(packets_in(items) + effect_packets(effect) =~= packets_in(items));
        },
        Effect::Plain(bytes) => {
            assert(input_bytes(gathered.items) + (gathered.plain + bytes) =~= input_bytes(
                gathered.items,
            ) + gathered.plain + bytes);
            assert(packets_in(items) + effect_packets(effect) =~= packets_in(items));
        },
        Effect::Report(bytes) => {
            assert(after.items.drop_last() =~= items);
            input_chunks(items).lemma_flatten_push(bytes);
            assert(input_bytes(after.items) + after.plain =~= input_bytes(after.items));
            assert(packets_in(items) + effect_packets(effect) =~= packets_in(items));
        },
        Effect::Packet(packet) => {
            assert(after.items.drop_last() =~= items);
            assert(input_bytes(after.items) + after.plain =~= input_bytes(after.items));
            assert(input_bytes(items) + effect_bytes(effect) =~= input_bytes(items));
            assert(packets_in(items) + effect_packets(effect) =~= packets_in(items).push(packet));
        },
    }
}

pub proof fn lemma_nothing_gathered()
    ensures
        input_bytes(extractor::flushed(extractor::nothing_gathered())) == Seq::<u8>::empty(),
        packets_in(extractor::flushed(extractor::nothing_gathered())) == Seq::<PacketModel>::empty(),
{
    let chunks = Seq::<Seq<u8>>::empty();
    assert(input_chunks(Seq::<ItemModel>::empty()) =~= chunks);
    assert(chunks.flatten() =~= Seq::<u8>::empty());
}

/// The items that some bytes of input amount to, before failures are held back.
pub open spec fn gathered_items(extractor: ExtractorModel, bytes: Seq<u8>) -> Seq<ItemModel> {
    extractor::flushed(extractor::gather(extractor, bytes).1)
}

proof fn lemma_gather_step(extractor: ExtractorModel, bytes: Seq<u8>)
    requires
        bytes.len() > 0,
    ensures
        ({
            let before = extractor::gather(extractor, bytes.drop_last()).0;
            let (after, effect) = extractor::extract_byte(before, bytes.last());
            &&& extractor::gather(extractor, bytes).0 == after
            &&& input_bytes(gathered_items(extractor, bytes)) == input_bytes(
                gathered_items(extractor, bytes.drop_last()),
            ) + effect_bytes(effect)
            &&& packets_in(gathered_items(extractor, bytes)) == packets_in(
                gathered_items(extractor, bytes.drop_last()),
            ) + effect_packets(effect)
        }),
{
    let (before, gathered) = extractor::gather(extractor, bytes.drop_last());
    lemma_with_effect(gathered, extractor::extract_byte(before, bytes.last()).1);
}

/// What is held back does not bear on how the bytes are read.
pub proof fn lemma_gather_ignores_focus(extractor: ExtractorModel, focus: FocusModel, bytes: Seq<u8>)
    ensures
        extractor::gather(extractor, bytes).0.focus == extractor.focus,
        extractor::gather(ExtractorModel { focus, ..extractor }, bytes) == (
            ExtractorModel { focus, ..extractor::gather(extractor, bytes).0 },
            extractor::gather(extractor, bytes).1,
        ),
    decreases bytes.len(),
{
    if bytes.len() > 0 {
        lemma_gather_ignores_focus(extractor, focus, bytes.drop_last());
    }
}

proof fn lemma_gather_cut(extractor: ExtractorModel, first: Seq<u8>, second: Seq<u8>)
    ensures
        ({
            let middle = extractor::gather(extractor, first).0;
            &&& extractor::gather(extractor, first + second).0 == extractor::gather(
                middle,
                second,
            ).0
            &&& input_bytes(gathered_items(extractor, first + second)) == input_bytes(
                gathered_items(extractor, first),
            ) + input_bytes(gathered_items(middle, second))
            &&& packets_in(gathered_items(extractor, first + second)) == packets_in(
                gathered_items(extractor, first),
            ) + packets_in(gathered_items(middle, second))
        }),
    decreases second.len(),
{
    let middle = extractor::gather(extractor, first).0;
    let head = gathered_items(extractor, first);
    if second.len() == 0 {
        lemma_nothing_gathered();
        assert(first + second =~= first);
        assert(input_bytes(head) + Seq::<u8>::empty() =~= input_bytes(head));
        assert(packets_in(head) + Seq::<PacketModel>::empty() =~= packets_in(head));
    } else {
        let whole = first + second;
        lemma_gather_cut(extractor, first, second.drop_last());
        assert(whole.drop_last() =~= first + second.drop_last());
        assert(whole.last() == second.last());
        lemma_gather_step(extractor, whole);
        lemma_gather_step(middle, second);
        let before = extractor::gather(middle, second.drop_last()).0;
        let effect = extractor::extract_byte(before, second.last()).1;
        let part = gathered_items(middle, second.drop_last());
        assert(input_bytes(head) + (input_bytes(part) + effect_bytes(effect)) =~= input_bytes(head)
            + input_bytes(part) + effect_bytes(effect));
        assert(packets_in(head) + (packets_in(part) + effect_packets(effect)) =~= packets_in(head)
            + packets_in(part) + effect_packets(effect));
    }
}

/// What a piece of input yields in all: the bytes of input, and the transfer frames with the one
/// that is held back after it.
pub proof fn lemma_extract_yields(extractor: ExtractorModel, bytes: Seq<u8>)
    ensures
        input_bytes(extractor::extract(extractor, bytes).1) == input_bytes(
            gathered_items(extractor, bytes),
        ),
        packets_in(extractor::extract(extractor, bytes).1) + held_packet(
            extractor::extract(extractor, bytes).0.focus.pending_failure,
        ) == held_packet(extractor.focus.pending_failure) + packets_in(
            gathered_items(extractor, bytes),
        ),
{
    lemma_gather_ignores_focus(extractor, extractor.focus, bytes);
    law_ordering_loses_nothing(extractor.focus, gathered_items(extractor, bytes));
}

/// Where the input is cut does not matter: taking two pieces one after the other leaves the
/// extractor at the same place in the input as taking them in one, passes on the same bytes, and
/// extracts the same frames in the same order.
pub proof fn law_extraction_is_independent_of_cuts(
    extractor: ExtractorModel,
    first: Seq<u8>,
    second: Seq<u8>,
)
    ensures
        ({
            let (whole, items) = extractor::extract(extractor, first + second);
            let (middle, early) = extractor::extract(extractor, first);
            let (end, late) = extractor::extract(middle, second);
            &&& whole.state == end.state
            &&& whole.bracketed_paste == end.bracketed_paste
            &&& whole.utf8_remaining == end.utf8_remaining
            &&& input_bytes(items) == input_bytes(early) + input_bytes(late)
            &&& packets_in(items) + held_packet(whole.focus.pending_failure) == packets_in(early)
                + (packets_in(late) + held_packet(end.focus.pending_failure))
        }),
{
    let (whole, items) = extractor::extract(extractor, first + second);
    let (middle, early) = extractor::extract(extractor, first);
    let (end, late) = extractor::extract(middle, second);
    let plain_middle = extractor::gather(extractor, first).0;
    lemma_gather_cut(extractor, first, second);
    lemma_gather_ignores_focus(plain_middle, middle.focus, second);
    assert(middle == (ExtractorModel { focus: middle.focus, ..plain_middle }));
    lemma_extract_yields(extractor, first + second);
    lemma_extract_yields(extractor, first);
    lemma_extract_yields(middle, second);
    let held = held_packet(extractor.focus.pending_failure);
    let a = packets_in(gathered_items(extractor, first));
    let b = packets_in(gathered_items(middle, second));
    assert(held + (a + b) =~= held + a + b);
    assert(packets_in(early) + held_packet(middle.focus.pending_failure) + b =~= packets_in(early)
        + (held_packet(middle.focus.pending_failure) + b));
}

/// The bytes that the extractor holds: they have been taken, and are neither passed on nor dropped.
pub open spec fn held_bytes(state: InputModel) -> Seq<u8> {
    match state {
        InputModel::Escape(raw) => raw,
        InputModel::Csi(raw) => raw,
        InputModel::Osc(raw) => raw,
        InputModel::OscEscape(raw) => raw,
        InputModel::String(raw) => raw,
        _ => Seq::empty(),
    }
}

/// Whether the extractor is in a control string that may be a transfer frame or that was given up
/// as one.
pub open spec fn in_possible_frame(state: InputModel) -> bool {
    state is Osc || state is OscEscape || state is DiscardOsc
}

/// Whether a transfer frame is begun: its introducer is complete, or it was so long that it was
/// given up. Nowhere else is a byte of input dropped.
pub open spec fn in_frame(state: InputModel) -> bool {
    match state {
        InputModel::Osc(raw) => frame::after_introducer(raw) is Some || raw.len()
            >= MAX_TRANSFER_COMMAND_BYTES,
        InputModel::OscEscape(raw) => frame::after_introducer(raw) is Some,
        InputModel::DiscardOsc(_) => true,
        _ => false,
    }
}

/// The last byte of an introducer is the only one that completes it.
proof fn lemma_introducer_completed(raw: Seq<u8>, byte: u8)
    requires
        frame::after_introducer(raw) is None,
        frame::after_introducer(raw.push(byte)) is Some,
    ensures
        byte == 0x3b,
        raw.len() < 7,
{
    let whole = raw.push(byte);
    let introducer = if frame::OSC_INTRODUCER@.is_prefix_of(whole) {
        frame::OSC_INTRODUCER@
    } else {
        frame::C1_INTRODUCER@
    };
    let n = introducer.len() as int;
    assert(introducer == whole.subrange(0, n));
    if n <= raw.len() {
        assert(whole.subrange(0, n) =~= raw.subrange(0, n));
        assert(introducer.is_prefix_of(raw));
    }
    assert(whole.subrange(0, n)[n - 1] == byte);
    assert(introducer[n - 1] == 0x3b);
}

/// What agrees with an introducer and is no shorter than one holds it.
proof fn lemma_long_transfer(raw: Seq<u8>)
    requires
        frame::may_be_transfer(raw),
        raw.len() >= 7,
    ensures
        frame::after_introducer(raw) is Some,
{
    if raw.is_prefix_of(frame::OSC_INTRODUCER@) {
        assert(raw =~= frame::OSC_INTRODUCER@);
        assert(frame::OSC_INTRODUCER@ =~= raw.subrange(0, 7));
    }
}

/// Until a transfer frame is begun, no byte is lost: what is passed on and what is held are what was
/// held and the byte. And nothing is extracted.
proof fn lemma_byte_is_preserved(extractor: ExtractorModel, byte: u8)
    requires
        !in_frame(extractor.state),
    ensures
        ({
            let (after, effect) = extractor::extract_byte(extractor, byte);
            &&& effect_bytes(effect) + held_bytes(after.state) == held_bytes(extractor.state).push(
                byte,
            )
            &&& effect_packets(effect) == Seq::<PacketModel>::empty()
        }),
{
    reveal(extractor::extract_state);
    let (after, effect) = extractor::extract_byte(extractor, byte);
    match extractor.state {
        InputModel::Osc(raw) | InputModel::OscEscape(raw) => {
            let whole = raw.push(byte);
            if frame::after_introducer(whole) is Some {
                lemma_introducer_completed(raw, byte);
            } else if frame::may_be_transfer(whole) && whole.len() >= 7 {
                lemma_long_transfer(whole);
            }
        },
        _ => {},
    }
    assert(effect_bytes(effect) + held_bytes(after.state) =~= held_bytes(extractor.state).push(
        byte,
    ));
}

/// Whether the extractor is in no transfer frame when it takes each of `bytes`.
pub open spec fn stays_out(extractor: ExtractorModel, bytes: Seq<u8>) -> bool {
    forall|n: int|
        0 <= n < bytes.len() ==> !in_frame(
            (#[trigger] extractor::gather(extractor, bytes.take(n))).0.state,
        )
}

proof fn lemma_stays_out_prefix(extractor: ExtractorModel, bytes: Seq<u8>)
    requires
        bytes.len() > 0,
        stays_out(extractor, bytes),
    ensures
        stays_out(extractor, bytes.drop_last()),
        !in_frame(extractor::gather(extractor, bytes.drop_last()).0.state),
{
    let prefix = bytes.drop_last();
    assert forall|n: int| 0 <= n < prefix.len() implies !in_frame(
        (#[trigger] extractor::gather(extractor, prefix.take(n))).0.state,
    ) by {
        assert(prefix.take(n) =~= bytes.take(n));
    }
    assert(bytes.take(prefix.len() as int) =~= prefix);
}

proof fn lemma_gather_preserves(extractor: ExtractorModel, bytes: Seq<u8>)
    requires
        stays_out(extractor, bytes),
    ensures
        input_bytes(gathered_items(extractor, bytes)) + held_bytes(
            extractor::gather(extractor, bytes).0.state,
        ) == held_bytes(extractor.state) + bytes,
        packets_in(gathered_items(extractor, bytes)) == Seq::<PacketModel>::empty(),
    decreases bytes.len(),
{
    let held = held_bytes(extractor.state);
    if bytes.len() == 0 {
        lemma_nothing_gathered();
        assert(Seq::<u8>::empty() + held =~= held + bytes);
    } else {
        let prefix = bytes.drop_last();
        lemma_stays_out_prefix(extractor, bytes);
        lemma_gather_preserves(extractor, prefix);
        lemma_gather_step(extractor, bytes);
        let before = extractor::gather(extractor, prefix).0;
        let (after, effect) = extractor::extract_byte(before, bytes.last());
        lemma_byte_is_preserved(before, bytes.last());
        let input = input_bytes(gathered_items(extractor, prefix));
        assert(input + effect_bytes(effect) + held_bytes(after.state) =~= input + (effect_bytes(
            effect,
        ) + held_bytes(after.state)));
        assert(input + held_bytes(before.state).push(bytes.last()) =~= (input + held_bytes(
            before.state,
        )).push(bytes.last()));
        assert((held + prefix).push(bytes.last()) =~= held + bytes);
        let none = Seq::<PacketModel>::empty();
        assert(none + none =~= none);
    }
}

/// Input is preserved: while no transfer frame is begun, every byte is passed on in order
/// or still held, and nothing is extracted.
pub proof fn law_other_input_is_preserved(extractor: ExtractorModel, bytes: Seq<u8>)
    requires
        stays_out(extractor, bytes),
    ensures
        input_bytes(extractor::extract(extractor, bytes).1) + held_bytes(
            extractor::extract(extractor, bytes).0.state,
        ) == held_bytes(extractor.state) + bytes,
        packets_in(extractor::extract(extractor, bytes).1) + held_packet(
            extractor::extract(extractor, bytes).0.focus.pending_failure,
        ) == held_packet(extractor.focus.pending_failure),
{
    lemma_gather_preserves(extractor, bytes);
    lemma_extract_yields(extractor, bytes);
    let held = held_packet(extractor.focus.pending_failure);
    assert(held + Seq::<PacketModel>::empty() =~= held);
}

/// Only `]` after ESC and the C1 introducer begin a possible transfer frame.
proof fn lemma_stays_out_without_introducers(extractor: ExtractorModel, bytes: Seq<u8>)
    requires
        !in_possible_frame(extractor.state),
        !bytes.contains(0x5d),
        !bytes.contains(0x9d),
    ensures
        stays_out(extractor, bytes),
        !in_possible_frame(extractor::gather(extractor, bytes).0.state),
    decreases bytes.len(),
{
    if bytes.len() > 0 {
        let prefix = bytes.drop_last();
        assert(bytes.contains(bytes.last())) by {
            assert(bytes[bytes.len() - 1] == bytes.last());
        }
        assert forall|byte: u8| prefix.contains(byte) implies #[trigger] bytes.contains(byte) by {
            let i = choose|i: int| 0 <= i < prefix.len() && prefix[i] == byte;
            assert(bytes[i] == byte);
        }
        reveal(extractor::extract_state);
        lemma_stays_out_without_introducers(extractor, prefix);
        assert forall|n: int| 0 <= n < bytes.len() implies !in_frame(
            (#[trigger] extractor::gather(extractor, bytes.take(n))).0.state,
        ) by {
            if n < prefix.len() {
                assert(bytes.take(n) =~= prefix.take(n));
            } else {
                assert(bytes.take(n) =~= prefix);
            }
        }
    }
}

/// Keys, mouse reports and control sequences are preserved: input that holds neither `]` nor the C1
/// introducer is passed on in order or still held, and nothing is extracted from it.
pub proof fn law_input_without_introducers_is_preserved(extractor: ExtractorModel, bytes: Seq<u8>)
    requires
        !in_possible_frame(extractor.state),
        !bytes.contains(0x5d),
        !bytes.contains(0x9d),
    ensures
        input_bytes(extractor::extract(extractor, bytes).1) + held_bytes(
            extractor::extract(extractor, bytes).0.state,
        ) == held_bytes(extractor.state) + bytes,
        packets_in(extractor::extract(extractor, bytes).1) + held_packet(
            extractor::extract(extractor, bytes).0.focus.pending_failure,
        ) == held_packet(extractor.focus.pending_failure),
        !in_possible_frame(extractor::extract(extractor, bytes).0.state),
{
    lemma_stays_out_without_introducers(extractor, bytes);
    law_other_input_is_preserved(extractor, bytes);
}

/// Inside a bracketed paste only escape and control sequences are held.
pub open spec fn paste_is_opaque(extractor: ExtractorModel) -> bool {
    extractor.bracketed_paste ==> extractor.state is Ground || extractor.state is Escape
        || extractor.state is Csi
}

/// The paste stays opaque.
pub proof fn law_paste_stays_opaque(extractor: ExtractorModel, bytes: Seq<u8>)
    requires
        paste_is_opaque(extractor),
    ensures
        paste_is_opaque(extractor::initial_extractor()),
        paste_is_opaque(extractor::gather(extractor, bytes).0),
    decreases bytes.len(),
{
    if bytes.len() > 0 {
        reveal(extractor::extract_state);
        law_paste_stays_opaque(extractor, bytes.drop_last());
    }
}

/// Nothing is extracted from a bracketed paste, whatever it holds: until the paste has ended,
/// every byte is passed on in order or still held.
pub proof fn law_paste_is_preserved(extractor: ExtractorModel, bytes: Seq<u8>)
    requires
        paste_is_opaque(extractor),
        forall|n: int|
            0 <= n < bytes.len() ==> (#[trigger] extractor::gather(
                extractor,
                bytes.take(n),
            )).0.bracketed_paste,
    ensures
        stays_out(extractor, bytes),
        input_bytes(extractor::extract(extractor, bytes).1) + held_bytes(
            extractor::extract(extractor, bytes).0.state,
        ) == held_bytes(extractor.state) + bytes,
        packets_in(extractor::extract(extractor, bytes).1) + held_packet(
            extractor::extract(extractor, bytes).0.focus.pending_failure,
        ) == held_packet(extractor.focus.pending_failure),
{
    assert forall|n: int| 0 <= n < bytes.len() implies !in_frame(
        (#[trigger] extractor::gather(extractor, bytes.take(n))).0.state,
    ) by {
        law_paste_stays_opaque(extractor, bytes.take(n));
    }
    law_other_input_is_preserved(extractor, bytes);
}

/// Idleness loses nothing: what is passed on and what is still held are what was held. A possible
/// transfer frame is kept as it is.
pub proof fn law_idleness_loses_nothing(extractor: ExtractorModel)
    ensures
        input_bytes(extractor::idle(extractor).1) + held_bytes(
            extractor::idle(extractor).0.state,
        ) == held_bytes(extractor.state),
        packets_in(extractor::idle(extractor).1) + held_packet(
            extractor::idle(extractor).0.focus.pending_failure,
        ) == held_packet(extractor.focus.pending_failure),
        in_possible_frame(extractor.state) ==> extractor::idle(extractor).0.state
            == extractor.state,
{
    let (after, output) = extractor::idle(extractor);
    let first = if extractor.focus.waits_for_focus {
        Seq::empty()
    } else {
        extractor::released(extractor.focus.pending_failure)
    };
    let second = extractor::passed_on_idle(extractor.state);
    lemma_released(extractor.focus.pending_failure);
    lemma_items_add(first, second);
    match extractor.state {
        InputModel::Escape(raw) => lemma_single(ItemModel::Input(raw)),
        InputModel::Csi(raw) => lemma_single(ItemModel::Input(raw)),
        InputModel::String(raw) => lemma_single(ItemModel::Input(raw)),
        _ => {},
    }
    let none = Seq::<Seq<u8>>::empty();
    let chunks = input_chunks(second);
    assert(input_chunks(output) =~= chunks);
    if chunks.len() > 0 {
        assert(chunks =~= none.push(chunks[0]));
        none.lemma_flatten_push(chunks[0]);
        assert(none.flatten() + chunks[0] =~= chunks[0]);
    }
    assert(input_bytes(output) + held_bytes(after.state) =~= held_bytes(extractor.state));
    assert(packets_in(output) + held_packet(after.focus.pending_failure) =~= held_packet(
        extractor.focus.pending_failure,
    ));
}

/// What is held back is a status that ended its session with an error, and only such a failure
/// waits for the focus: a refused permission that came while the focus was away.
pub open spec fn holds_only_failures(focus: FocusModel) -> bool {
    &&& focus.pending_failure matches Some(packet) ==> extractor::is_failure(
        ItemModel::Transfer(packet),
    )
    &&& focus.waits_for_focus ==> {
        &&& focus.outer_unfocused
        &&& focus.pending_failure matches Some(packet) && frame::is_permission_denied(packet.raw)
    }
}

proof fn lemma_order_holds_only_failures(focus: FocusModel, items: Seq<ItemModel>)
    requires
        holds_only_failures(focus),
    ensures
        holds_only_failures(extractor::order(focus, items).0),
    decreases items.len(),
{
    if items.len() > 0 {
        lemma_order_holds_only_failures(focus, items.drop_last());
    }
}

/// Only failures are ever held back, whatever the input and however long it is idle.
pub proof fn law_only_failures_are_held_back(extractor: ExtractorModel, bytes: Seq<u8>)
    requires
        holds_only_failures(extractor.focus),
    ensures
        holds_only_failures(extractor::initial_extractor().focus),
        holds_only_failures(extractor::extract(extractor, bytes).0.focus),
        holds_only_failures(extractor::idle(extractor).0.focus),
{
    lemma_gather_ignores_focus(extractor, extractor.focus, bytes);
    lemma_order_holds_only_failures(extractor.focus, gathered_items(extractor, bytes));
}

/// A refused permission that came while the focus was away waits for the focus: idleness does not
/// let it go, control replies of the host pass it by, and the return of the focus is passed on
/// right before it.
pub proof fn law_denial_waits_for_focus(extractor: ExtractorModel, denial: PacketModel, reply: Seq<u8>)
    requires
        extractor.focus.waits_for_focus,
        extractor.focus.pending_failure == Some(denial),
        extractor::is_control_reply(ItemModel::Input(reply)),
        !extractor::is_focus_report(reply),
    ensures
        packets_in(extractor::idle(extractor).1) == Seq::<PacketModel>::empty(),
        extractor::idle(extractor).0.focus == extractor.focus,
        extractor::order_item(extractor.focus, ItemModel::Input(reply)) == (
            extractor.focus,
            seq![ItemModel::Input(reply)],
        ),
        extractor::order_item(extractor.focus, ItemModel::Input(extractor::FOCUS_IN@)).1 == seq![
            ItemModel::Input(extractor::FOCUS_IN@),
            ItemModel::Transfer(denial),
        ],
{
    law_idleness_loses_nothing(extractor);
    let held = held_packet(extractor.focus.pending_failure);
    let output = packets_in(extractor::idle(extractor).1);
    assert((output + held).len() == held.len());
    assert(output =~= Seq::<PacketModel>::empty());
    assert(seq![ItemModel::Input(extractor::FOCUS_IN@)] + seq![ItemModel::Transfer(denial)]
        =~= seq![ItemModel::Input(extractor::FOCUS_IN@), ItemModel::Transfer(denial)]);
}

/// A failure that does not wait for the focus goes out once the input is idle, and typing lets any
/// held failure go before the key, be the key ASCII or not.
pub proof fn law_failures_are_released(extractor: ExtractorModel, failure: PacketModel, key: Seq<u8>)
    requires
        extractor.focus.pending_failure == Some(failure),
        !extractor::is_focus_report(key),
        !extractor::is_control_reply(ItemModel::Input(key)),
    ensures
        !extractor.focus.waits_for_focus ==> {
            &&& extractor::idle(extractor).1.len() > 0
            &&& extractor::idle(extractor).1[0] == ItemModel::Transfer(failure)
        },
        extractor::order_item(extractor.focus, ItemModel::Input(key)).1 == seq![
            ItemModel::Transfer(failure),
            ItemModel::Input(key),
        ],
{
    assert(seq![ItemModel::Transfer(failure)] + seq![ItemModel::Input(key)] =~= seq![
        ItemModel::Transfer(failure),
        ItemModel::Input(key),
    ]);
}

/// An extractor that holds no more than it may.
pub open spec fn is_bounded(state: InputModel) -> bool {
    match state {
        InputModel::Escape(raw) => raw == seq![0x1bu8],
        InputModel::Csi(raw) => raw.len() < extractor::MAX_CONTROL_SEQUENCE_BYTES,
        InputModel::Osc(raw) => {
            &&& frame::may_be_transfer(raw)
            &&& raw.len() <= MAX_TRANSFER_COMMAND_BYTES
        },
        InputModel::OscEscape(raw) => {
            &&& 0 < raw.len() <= MAX_TRANSFER_COMMAND_BYTES + 1
            &&& frame::may_be_transfer(raw.drop_last())
        },
        InputModel::String(raw) => raw.len() <= 2,
        _ => true,
    }
}

proof fn lemma_byte_stays_bounded(extractor: ExtractorModel, byte: u8)
    requires
        is_bounded(extractor.state),
    ensures
        is_bounded(extractor::extract_byte(extractor, byte).0.state),
{
    reveal(extractor::extract_state);
    assert(seq![0x9du8] =~= frame::C1_INTRODUCER@.subrange(0, 1));
    assert(seq![0x1bu8].push(0x5d) =~= frame::OSC_INTRODUCER@.subrange(0, 2));
    if let InputModel::Osc(raw) = extractor.state {
        assert(raw.push(byte).drop_last() =~= raw);
    }
}

/// The extractor never holds the payload of other control strings, nor more of a transfer frame
/// than the longest one.
pub proof fn law_extractor_stays_bounded(extractor: ExtractorModel, bytes: Seq<u8>)
    requires
        is_bounded(extractor.state),
    ensures
        is_bounded(extractor::initial_extractor().state),
        is_bounded(extractor::extract(extractor, bytes).0.state),
        is_bounded(extractor::idle(extractor).0.state),
    decreases bytes.len(),
{
    if bytes.len() > 0 {
        law_extractor_stays_bounded(extractor, bytes.drop_last());
        let before = extractor::gather(extractor, bytes.drop_last()).0;
        assert(extractor::extract(extractor, bytes.drop_last()).0.state == before.state);
        lemma_byte_stays_bounded(before, bytes.last());
    }
}

/// Whether no introducer of transfer frames stands in `bytes`.
pub open spec fn holds_no_introducer(bytes: Seq<u8>) -> bool {
    forall|i: int|
        0 <= i <= bytes.len() ==> !frame::OSC_INTRODUCER@.is_prefix_of(#[trigger] bytes.skip(i))
            && !frame::C1_INTRODUCER@.is_prefix_of(bytes.skip(i))
}

proof fn lemma_no_introducer_prefix(bytes: Seq<u8>)
    requires
        bytes.len() > 0,
        holds_no_introducer(bytes),
    ensures
        holds_no_introducer(bytes.drop_last()),
{
    let prefix = bytes.drop_last();
    assert forall|i: int| 0 <= i <= prefix.len() implies !frame::OSC_INTRODUCER@.is_prefix_of(
        #[trigger] prefix.skip(i),
    ) && !frame::C1_INTRODUCER@.is_prefix_of(prefix.skip(i)) by {
        let (part, whole) = (prefix.skip(i), bytes.skip(i));
        assert(!frame::OSC_INTRODUCER@.is_prefix_of(whole));
        assert(!frame::C1_INTRODUCER@.is_prefix_of(whole));
        if frame::OSC_INTRODUCER@.is_prefix_of(part) {
            assert(whole.subrange(0, 7) =~= part.subrange(0, 7));
        }
        if frame::C1_INTRODUCER@.is_prefix_of(part) {
            assert(whole.subrange(0, 6) =~= part.subrange(0, 6));
        }
    }
}

/// One byte begins a transfer frame only where it completes an introducer.
proof fn lemma_frame_begins(extractor: ExtractorModel, byte: u8)
    requires
        is_bounded(extractor.state),
        !in_frame(extractor.state),
        in_frame(extractor::extract_byte(extractor, byte).0.state),
    ensures
        frame::after_introducer(
            held_bytes(extractor::extract_byte(extractor, byte).0.state),
        ) is Some,
{
    reveal(extractor::extract_state);
    match extractor.state {
        InputModel::Osc(raw) | InputModel::OscEscape(raw) => {
            let whole = raw.push(byte);
            if frame::may_be_transfer(whole) && whole.len() >= 7 {
                lemma_long_transfer(whole);
            }
            if frame::after_introducer(whole) is Some {
                lemma_introducer_completed(raw, byte);
            }
        },
        _ => {},
    }
}

proof fn lemma_unframed(extractor: ExtractorModel, bytes: Seq<u8>)
    requires
        is_bounded(extractor.state),
        !in_frame(extractor.state),
        holds_no_introducer(held_bytes(extractor.state) + bytes),
    ensures
        stays_out(extractor, bytes),
        !in_frame(extractor::gather(extractor, bytes).0.state),
    decreases bytes.len(),
{
    if bytes.len() > 0 {
        let held = held_bytes(extractor.state);
        let prefix = bytes.drop_last();
        assert((held + bytes).drop_last() =~= held + prefix);
        lemma_no_introducer_prefix(held + bytes);
        lemma_unframed(extractor, prefix);
        let before = extractor::gather(extractor, prefix).0;
        let after = extractor::gather(extractor, bytes).0;
        assert forall|n: int| 0 <= n < bytes.len() implies !in_frame(
            (#[trigger] extractor::gather(extractor, bytes.take(n))).0.state,
        ) by {
            if n < prefix.len() {
                assert(bytes.take(n) =~= prefix.take(n));
            } else {
                assert(bytes.take(n) =~= prefix);
            }
        }
        if in_frame(after.state) {
            law_extractor_stays_bounded(extractor, prefix);
            assert(extractor::extract(extractor, prefix).0.state == before.state);
            lemma_frame_begins(before, bytes.last());
            lemma_gather_preserves(extractor, bytes);
            let raw = held_bytes(after.state);
            let input = input_bytes(gathered_items(extractor, bytes));
            assert(input + raw == held + bytes);
            assert((held + bytes).skip(input.len() as int) =~= raw);
        }
    }
}

/// Input in which no transfer frame is begun is preserved, wherever the extractor stands: every byte
/// is passed on in order or still held, and nothing is extracted. That holds of keys and mouse
/// reports, of replies in control strings of other kinds, of abandoned ones and of text.
pub proof fn law_unframed_input_is_preserved(extractor: ExtractorModel, bytes: Seq<u8>)
    requires
        is_bounded(extractor.state),
        !in_frame(extractor.state),
        holds_no_introducer(held_bytes(extractor.state) + bytes),
    ensures
        input_bytes(extractor::extract(extractor, bytes).1) + held_bytes(
            extractor::extract(extractor, bytes).0.state,
        ) == held_bytes(extractor.state) + bytes,
        packets_in(extractor::extract(extractor, bytes).1) + held_packet(
            extractor::extract(extractor, bytes).0.focus.pending_failure,
        ) == held_packet(extractor.focus.pending_failure),
        !in_frame(extractor::extract(extractor, bytes).0.state),
{
    lemma_unframed(extractor, bytes);
    law_other_input_is_preserved(extractor, bytes);
}

/// Input that holds no introducer of transfer frames is preserved from the start: every byte is
/// passed on in order or still held, and nothing is extracted.
pub proof fn law_input_without_frames_is_preserved(bytes: Seq<u8>)
    requires
        forall|i: int|
            0 <= i <= bytes.len() ==> !frame::OSC_INTRODUCER@.is_prefix_of(#[trigger] bytes.skip(i))
                && !frame::C1_INTRODUCER@.is_prefix_of(bytes.skip(i)),
    ensures
        packets_in(extractor::extract(extractor::initial_extractor(), bytes).1) == Seq::<
            PacketModel,
        >::empty(),
        input_bytes(extractor::extract(extractor::initial_extractor(), bytes).1) + held_bytes(
            extractor::extract(extractor::initial_extractor(), bytes).0.state,
        ) == bytes,
{
    let start = extractor::initial_extractor();
    assert(held_bytes(start.state) + bytes =~= bytes);
    law_unframed_input_is_preserved(start, bytes);
    let packets = packets_in(extractor::extract(start, bytes).1);
    let held = held_packet(extractor::extract(start, bytes).0.focus.pending_failure);
    assert((packets + held).len() == 0);
    assert(packets =~= Seq::<PacketModel>::empty());
}

/// One more byte of `raw` takes the extractor one step further.
pub proof fn lemma_gather_next(extractor: ExtractorModel, raw: Seq<u8>, k: int)
    requires
        0 <= k < raw.len(),
    ensures
        ({
            let (before, gathered) = extractor::gather(extractor, raw.take(k));
            let (after, effect) = extractor::extract_byte(before, raw[k]);
            extractor::gather(extractor, raw.take(k + 1)) == (
                after,
                extractor::with_effect(gathered, effect),
            )
        }),
{
    assert(raw.take(k + 1).drop_last() =~= raw.take(k));
    assert(raw.take(k + 1).last() == raw[k]);
}

/// The extractor while it collects the frame `raw` and has seen `k` bytes of it.
spec fn collecting(extractor: ExtractorModel, raw: Seq<u8>, k: int) -> ExtractorModel {
    ExtractorModel { state: InputModel::Osc(raw.take(k)), utf8_remaining: 0, ..extractor }
}

proof fn lemma_extractor_opening(extractor: ExtractorModel, raw: Seq<u8>)
    requires
        frame_laws::is_enclosed(raw),
        extractor.state == InputModel::Ground,
        !extractor.bracketed_paste,
        extractor.utf8_remaining == 0 || raw[0] == 0x1b,
    ensures
        extractor::gather(extractor, raw.take(frame_laws::opener_len(raw))) == (
            collecting(extractor, raw, frame_laws::opener_len(raw)),
            extractor::nothing_gathered(),
        ),
{
    reveal(extractor::extract_state);
    assert(raw.take(0) =~= Seq::<u8>::empty());
    assert(extractor::gather(extractor, raw.take(0)) == (extractor, extractor::nothing_gathered()));
    lemma_gather_next(extractor, raw, 0);
    if raw[0] == 0x1b {
        lemma_gather_next(extractor, raw, 1);
        assert(raw.take(2) =~= seq![0x1bu8].push(raw[1]));
    } else {
        assert(raw.take(1) =~= seq![raw[0]]);
    }
}

proof fn lemma_extractor_collecting(extractor: ExtractorModel, raw: Seq<u8>, k: int)
    requires
        frame_laws::is_enclosed(raw),
        forall|j: int| 0 <= j <= raw.len() ==> frame::may_be_transfer(#[trigger] raw.take(j)),
        extractor.state == InputModel::Ground,
        !extractor.bracketed_paste,
        extractor.utf8_remaining == 0 || raw[0] == 0x1b,
        frame_laws::opener_len(raw) <= k <= raw.len() - frame_laws::closer_len(raw),
    ensures
        extractor::gather(extractor, raw.take(k)) == (
            collecting(extractor, raw, k),
            extractor::nothing_gathered(),
        ),
    decreases k,
{
    reveal(extractor::extract_state);
    if k == frame_laws::opener_len(raw) {
        lemma_extractor_opening(extractor, raw);
    } else {
        lemma_extractor_collecting(extractor, raw, k - 1);
        lemma_gather_next(extractor, raw, k - 1);
        assert(raw.take(k - 1).push(raw[k - 1]) =~= raw.take(k));
        assert(frame::is_value_byte(raw[k - 1]));
        assert(frame::may_be_transfer(raw.take(k)));
    }
}

proof fn lemma_terminator(extractor: ExtractorModel, raw: Seq<u8>, byte: u8)
    requires
        !extractor.bracketed_paste,
        extractor.utf8_remaining == 0,
        (extractor.state == InputModel::Osc(raw) && (byte == 0x07 || byte == 0x9c)) || (
        extractor.state == InputModel::OscEscape(raw) && byte == 0x5c),
    ensures
        extractor::extract_byte(extractor, byte) == (
            ExtractorModel { state: InputModel::Ground, ..extractor },
            extractor::completed(raw.push(byte)),
        ),
{
    reveal(extractor::extract_state);
}

proof fn lemma_escape(extractor: ExtractorModel, raw: Seq<u8>)
    requires
        extractor.utf8_remaining == 0,
        extractor.state == InputModel::Osc(raw),
    ensures
        extractor::extract_byte(extractor, 0x1b) == (
            ExtractorModel { state: InputModel::OscEscape(raw.push(0x1b)), ..extractor },
            Effect::Nothing,
        ),
{
    reveal(extractor::extract_state);
}

proof fn lemma_extractor_closing(extractor: ExtractorModel, raw: Seq<u8>)
    requires
        frame_laws::is_enclosed(raw),
        !extractor.bracketed_paste,
        extractor::gather(extractor, raw.take(raw.len() - frame_laws::closer_len(raw))) == (
            collecting(extractor, raw, raw.len() - frame_laws::closer_len(raw)),
            extractor::nothing_gathered(),
        ),
    ensures
        extractor::gather(extractor, raw) == (
            ExtractorModel { state: InputModel::Ground, utf8_remaining: 0, ..extractor },
            extractor::with_effect(extractor::nothing_gathered(), extractor::completed(raw)),
        ),
{
    let m = raw.len() - frame_laws::closer_len(raw);
    let part = raw.take(m);
    assert(raw.take(raw.len() as int) =~= raw);
    lemma_gather_next(extractor, raw, m);
    if raw.last() == 0x5c {
        lemma_escape(collecting(extractor, raw, m), part);
        lemma_gather_next(extractor, raw, m + 1);
        let escaped = ExtractorModel {
            state: InputModel::OscEscape(part.push(0x1b)),
            utf8_remaining: 0,
            ..extractor
        };
        lemma_terminator(escaped, part.push(0x1b), 0x5c);
        assert(part.push(0x1b).push(0x5c) =~= raw);
    } else {
        lemma_terminator(collecting(extractor, raw, m), part, raw[m]);
        assert(part.push(raw[m]) =~= raw);
    }
}

/// Up to its last byte a frame is held, and amounts to nothing. With that byte it is extracted.
pub proof fn lemma_frame_is_collected(extractor: ExtractorModel, raw: Seq<u8>)
    requires
        frame::frame_of(raw) is Some,
        extractor.state == InputModel::Ground,
        !extractor.bracketed_paste,
        extractor.utf8_remaining == 0 || raw[0] == 0x1b,
    ensures
        raw.len() > 0,
        extractor::gather(extractor, raw.drop_last()).1 == extractor::nothing_gathered(),
        extractor::extract_byte(
            extractor::gather(extractor, raw.drop_last()).0,
            raw.last(),
        ) == (
            ExtractorModel { state: InputModel::Ground, utf8_remaining: 0, ..extractor },
            Effect::Packet(scanner::packet_of(raw)->0),
        ),
{
    frame_laws::lemma_frame_is_enclosed(raw);
    let m = raw.len() - frame_laws::closer_len(raw);
    let part = raw.take(m);
    lemma_extractor_collecting(extractor, raw, m);
    lemma_gather_next(extractor, raw, m);
    if raw.last() == 0x5c {
        lemma_escape(collecting(extractor, raw, m), part);
        let escaped = ExtractorModel {
            state: InputModel::OscEscape(part.push(0x1b)),
            utf8_remaining: 0,
            ..extractor
        };
        lemma_terminator(escaped, part.push(0x1b), 0x5c);
        assert(part.push(0x1b).push(0x5c) =~= raw);
        assert(raw.take(m + 1) =~= raw.drop_last());
    } else {
        lemma_terminator(collecting(extractor, raw, m), part, raw[m]);
        assert(part.push(raw[m]) =~= raw);
        assert(part =~= raw.drop_last());
    }
}

/// From its introducing bytes up to its last byte, what has arrived of a frame is held.
pub proof fn lemma_frame_is_held(extractor: ExtractorModel, raw: Seq<u8>, k: int)
    requires
        frame::frame_of(raw) is Some,
        extractor.state == InputModel::Ground,
        !extractor.bracketed_paste,
        extractor.utf8_remaining == 0 || raw[0] == 0x1b,
        frame_laws::opener_len(raw) <= k < raw.len(),
    ensures
        in_possible_frame(extractor::gather(extractor, raw.take(k)).0.state),
        extractor::gather(extractor, raw.take(k)).1 == extractor::nothing_gathered(),
{
    frame_laws::lemma_frame_is_enclosed(raw);
    let m = raw.len() - frame_laws::closer_len(raw);
    if k <= m {
        lemma_extractor_collecting(extractor, raw, k);
    } else {
        lemma_extractor_collecting(extractor, raw, m);
        lemma_gather_next(extractor, raw, m);
        lemma_escape(collecting(extractor, raw, m), raw.take(m));
    }
}

/// A complete frame is extracted: outside of pastes and of other controls, a frame amounts to one
/// transfer and to no input, and leaves the extractor outside of controls.
pub proof fn law_complete_frame_is_extracted(extractor: ExtractorModel, raw: Seq<u8>)
    requires
        frame::frame_of(raw) is Some,
        extractor.state == InputModel::Ground,
        !extractor.bracketed_paste,
        extractor.utf8_remaining == 0 || raw[0] == 0x1b,
    ensures
        gathered_items(extractor, raw) == seq![ItemModel::Transfer(scanner::packet_of(raw)->0)],
        extractor::extract(extractor, raw).0.state == InputModel::Ground,
        extractor::extract(extractor, raw).1 == extractor::order_item(
            extractor.focus,
            ItemModel::Transfer(scanner::packet_of(raw)->0),
        ).1,
{
    frame_laws::lemma_frame_is_enclosed(raw);
    lemma_extractor_collecting(extractor, raw, raw.len() - frame_laws::closer_len(raw));
    lemma_extractor_closing(extractor, raw);
    let item = ItemModel::Transfer(scanner::packet_of(raw)->0);
    let items = gathered_items(extractor, raw);
    assert(items =~= seq![item]);
    assert(items.drop_last() =~= Seq::<ItemModel>::empty());
    let output = extractor::order_item(extractor.focus, item).1;
    let none = Seq::<ItemModel>::empty();
    assert(items.last() == item);
    assert(extractor::order(extractor.focus, none) == (extractor.focus, none));
    assert(extractor::gather(extractor, raw).0.focus == extractor.focus);
    assert(extractor::order(extractor.focus, items).1 == none + output);
    assert(Seq::<ItemModel>::empty() + output =~= output);
}

/// A frame is taken out of the input around it, and nothing else is: what stands before it and what
/// stands after it is passed on in order or still held.
pub proof fn law_neighbours_of_a_frame_are_preserved(
    extractor: ExtractorModel,
    before: Seq<u8>,
    raw: Seq<u8>,
    after: Seq<u8>,
)
    requires
        extractor.state == InputModel::Ground,
        holds_no_introducer(before),
        ({
            let reached = extractor::extract(extractor, before).0;
            &&& reached.state == InputModel::Ground
            &&& !reached.bracketed_paste
            &&& reached.utf8_remaining == 0 || raw[0] == 0x1b
        }),
        frame::frame_of(raw) is Some,
        holds_no_introducer(after),
    ensures
        ({
            let (end, items) = extractor::extract(extractor, before + raw + after);
            &&& input_bytes(items) + held_bytes(end.state) == before + after
            &&& packets_in(items) + held_packet(end.focus.pending_failure) == held_packet(
                extractor.focus.pending_failure,
            ).push(scanner::packet_of(raw)->0)
        }),
{
    let packet = scanner::packet_of(raw)->0;
    let (first, early) = extractor::extract(extractor, before);
    let (second, middle) = extractor::extract(first, raw);
    let (third, late) = extractor::extract(second, after);
    let (joined, both) = extractor::extract(extractor, before + raw);
    let (end, items) = extractor::extract(extractor, before + raw + after);
    let none = Seq::<u8>::empty();
    assert(none + before =~= before && none + after =~= after);
    law_unframed_input_is_preserved(extractor, before);
    law_complete_frame_is_extracted(first, raw);
    law_unframed_input_is_preserved(second, after);
    law_extraction_is_independent_of_cuts(extractor, before, raw);
    law_extraction_is_independent_of_cuts(extractor, before + raw, after);
    lemma_single(ItemModel::Transfer(packet));
    lemma_extract_yields(first, raw);
    // What follows is read in the same way, whatever is held back.
    let (other, other_late) = extractor::extract(joined, after);
    lemma_gather_ignores_focus(second, joined.focus, after);
    assert(joined == (ExtractorModel { focus: joined.focus, ..second }));
    lemma_extract_yields(joined, after);
    lemma_extract_yields(second, after);
    lemma_extract_yields(extractor, before + raw);
    assert(input_bytes(early) + none =~= input_bytes(early));
    assert(input_bytes(middle) =~= none);
    assert(input_bytes(early) =~= before);
    assert(input_bytes(both) =~= before);
    assert(before + input_bytes(late) + held_bytes(third.state) =~= before + (input_bytes(late)
        + held_bytes(third.state)));
    let held = held_packet(extractor.focus.pending_failure);
    let gathered = packets_in(gathered_items(second, after));
    lemma_unframed(second, after);
    lemma_gather_preserves(second, after);
    assert(gathered =~= Seq::<PacketModel>::empty());
    assert(held_packet(joined.focus.pending_failure) + gathered =~= held_packet(
        joined.focus.pending_failure,
    ));
    assert(packets_in(both) + held_packet(joined.focus.pending_failure) =~= held.push(packet));
}

} // verus!
