//! The extractor of host input: it parts the outer terminal's transfer frames from everything that
//! the user types, pastes or points at.
//!
//! All other bytes are passed on, control strings among them. Inside a bracketed paste and inside
//! DCS, APC, PM and SOS strings nothing is extracted.
use vstd::prelude::*;

use crate::bytes;
use crate::frame;
use crate::frame::MAX_TRANSFER_COMMAND_BYTES;
use crate::scanner;
use crate::scanner::{PacketModel, TransferPacket};

verus! {

/// `ESC [ I`: the outer terminal has gained the focus.
pub const FOCUS_IN: [u8; 3] = [0x1b, 0x5b, 0x49];

/// `ESC [ O`: the outer terminal has lost the focus.
pub const FOCUS_OUT: [u8; 3] = [0x1b, 0x5b, 0x4f];

/// `ESC [ 200 ~`
pub const PASTE_START: [u8; 6] = [0x1b, 0x5b, 0x32, 0x30, 0x30, 0x7e];

/// `ESC [ 201 ~`
pub const PASTE_END: [u8; 6] = [0x1b, 0x5b, 0x32, 0x30, 0x31, 0x7e];

/// `ESC [ <`
pub const MOUSE_PREFIX: [u8; 3] = [0x1b, 0x5b, 0x3c];

/// The longest control sequence that is collected before it is passed on.
pub const MAX_CONTROL_SEQUENCE_BYTES: usize = 256;

/// One item of extracted input: bytes to pass on, or a transfer frame.
#[derive(Debug, PartialEq, Eq)]
pub enum ExtractedInput {
    Input(Vec<u8>),
    Transfer(TransferPacket),
}

/// The model of an item.
pub enum ItemModel {
    Input(Seq<u8>),
    Transfer(PacketModel),
}

impl View for ExtractedInput {
    type V = ItemModel;

    open spec fn view(&self) -> ItemModel {
        match self {
            ExtractedInput::Input(bytes) => ItemModel::Input(bytes@),
            ExtractedInput::Transfer(packet) => ItemModel::Transfer(packet@),
        }
    }
}

/// The models of a list of items.
pub open spec fn item_models(items: Seq<ExtractedInput>) -> Seq<ItemModel> {
    items.map_values(|item: ExtractedInput| item@)
}

/// Where the extractor stands in the input.
#[derive(Debug)]
enum InputState {
    Ground,
    Escape(Vec<u8>),
    Csi(Vec<u8>),
    Osc(Vec<u8>),
    OscEscape(Vec<u8>),
    PassthroughOsc(bool),
    PassthroughString(bool),
    String(Vec<u8>),
    DiscardOsc(bool),
}

/// Parts transfer frames from other input.
#[derive(Debug)]
pub struct TransferInputExtractor {
    state: InputState,
    bracketed_paste: bool,
    utf8_remaining: u8,
    pending_failure: Option<TransferPacket>,
    outer_unfocused: bool,
    failure_waits_for_focus: bool,
}

/// Where the extractor stands: outside of controls, after an ESC, in a control sequence, in a
/// control string that may be a transfer frame, after an ESC in such a string, in a control string
/// that is passed on, in another string that is passed on (each with whether its last byte was
/// ESC), at the opening of such a string, or in a control string that is dropped.
pub enum InputModel {
    Ground,
    Escape(Seq<u8>),
    Csi(Seq<u8>),
    Osc(Seq<u8>),
    OscEscape(Seq<u8>),
    PassthroughOsc(bool),
    PassthroughString(bool),
    String(Seq<u8>),
    DiscardOsc(bool),
}

/// The held-back failure, and what decides when it is let go.
pub struct FocusModel {
    pub pending_failure: Option<PacketModel>,
    pub outer_unfocused: bool,
    pub waits_for_focus: bool,
}

/// The model of an extractor.
pub struct ExtractorModel {
    pub state: InputModel,
    pub bracketed_paste: bool,
    pub utf8_remaining: u8,
    pub focus: FocusModel,
}

impl View for InputState {
    type V = InputModel;

    closed spec fn view(&self) -> InputModel {
        match self {
            InputState::Ground => InputModel::Ground,
            InputState::Escape(raw) => InputModel::Escape(raw@),
            InputState::Csi(raw) => InputModel::Csi(raw@),
            InputState::Osc(raw) => InputModel::Osc(raw@),
            InputState::OscEscape(raw) => InputModel::OscEscape(raw@),
            InputState::PassthroughOsc(escaped) => InputModel::PassthroughOsc(*escaped),
            InputState::PassthroughString(escaped) => InputModel::PassthroughString(*escaped),
            InputState::String(raw) => InputModel::String(raw@),
            InputState::DiscardOsc(escaped) => InputModel::DiscardOsc(*escaped),
        }
    }
}

impl View for TransferInputExtractor {
    type V = ExtractorModel;

    closed spec fn view(&self) -> ExtractorModel {
        ExtractorModel {
            state: self.state@,
            bracketed_paste: self.bracketed_paste,
            utf8_remaining: self.utf8_remaining,
            focus: FocusModel {
                pending_failure: match self.pending_failure {
                    Some(packet) => Some(packet@),
                    None => None,
                },
                outer_unfocused: self.outer_unfocused,
                waits_for_focus: self.failure_waits_for_focus,
            },
        }
    }
}

/// The extractor before any byte has been seen.
pub open spec fn initial_extractor() -> ExtractorModel {
    ExtractorModel {
        state: InputModel::Ground,
        bracketed_paste: false,
        utf8_remaining: 0,
        focus: FocusModel {
            pending_failure: None,
            outer_unfocused: false,
            waits_for_focus: false,
        },
    }
}

/// What one byte of input amounts to: nothing yet, bytes to pass on, a report that is an item of
/// its own, or a transfer frame.
pub enum Effect {
    Nothing,
    Plain(Seq<u8>),
    Report(Seq<u8>),
    Packet(PacketModel),
}

/// What a completed control string amounts to: a transfer frame is extracted, another control
/// string is passed on, and a malformed transfer frame is dropped.
pub open spec fn completed(raw: Seq<u8>) -> Effect {
    match scanner::packet_of(raw) {
        Some(packet) => Effect::Packet(packet),
        None => if frame::after_introducer(raw) is Some {
            Effect::Nothing
        } else {
            Effect::Plain(raw)
        },
    }
}

/// What CAN and SUB do: they drop a transfer frame that was begun, and are dropped with it. Of
/// everything else they pass on what was held, and themselves. A frame is begun once its introducer
/// is complete.
pub open spec fn abandoned(state: InputModel, byte: u8) -> Effect {
    match state {
        InputModel::Escape(raw) | InputModel::Csi(raw) | InputModel::String(raw) => Effect::Plain(
            raw.push(byte),
        ),
        InputModel::Osc(raw) | InputModel::OscEscape(raw) => if frame::after_introducer(raw) is Some {
            Effect::Nothing
        } else {
            Effect::Plain(raw.push(byte))
        },
        InputModel::DiscardOsc(_) => Effect::Nothing,
        _ => Effect::Plain(seq![byte]),
    }
}

/// Whether a completed control sequence switches bracketed paste on or off.
pub open spec fn paste_after(raw: Seq<u8>, paste: bool) -> bool {
    if raw == PASTE_START@ {
        true
    } else if raw == PASTE_END@ {
        false
    } else {
        paste
    }
}

/// Whether `raw` reports a change of focus.
pub open spec fn is_focus_report(raw: Seq<u8>) -> bool {
    raw == FOCUS_IN@ || raw == FOCUS_OUT@
}

/// Where one byte takes the extractor, whether the paste goes on, and what the byte amounts to.
#[verifier::opaque]
pub open spec fn extract_state(state: InputModel, paste: bool, byte: u8, control: u8) -> (
    InputModel,
    bool,
    Effect,
) {
    if scanner::abandons(control) && !paste {
        (InputModel::Ground, paste, abandoned(state, byte))
    } else {
        match state {
            InputModel::Ground => if byte == 0x1b {
                (InputModel::Escape(seq![byte]), paste, Effect::Nothing)
            } else if control == 0x9d && !paste {
                (InputModel::Osc(seq![byte]), paste, Effect::Nothing)
            } else if scanner::opens_string(control) && !paste {
                (InputModel::String(seq![byte]), paste, Effect::Nothing)
            } else {
                (InputModel::Ground, paste, Effect::Plain(seq![byte]))
            },
            InputModel::Escape(raw) => if byte == 0x1b {
                (InputModel::Escape(seq![byte]), paste, Effect::Plain(raw))
            } else if byte == 0x5d && !paste {
                (InputModel::Osc(raw.push(byte)), paste, Effect::Nothing)
            } else if byte == 0x5b {
                (InputModel::Csi(raw.push(byte)), paste, Effect::Nothing)
            } else if scanner::opens_string_after_escape(byte) && !paste {
                (InputModel::String(raw.push(byte)), paste, Effect::Nothing)
            } else {
                (InputModel::Ground, paste, Effect::Plain(raw.push(byte)))
            },
            InputModel::Csi(raw) => if byte == 0x1b {
                (InputModel::Escape(seq![byte]), paste, Effect::Plain(raw))
            } else if 0x40 <= byte <= 0x7e {
                let whole = raw.push(byte);
                let pasting = paste_after(whole, paste);
                if !pasting && is_focus_report(whole) {
                    (InputModel::Ground, pasting, Effect::Report(whole))
                } else {
                    (InputModel::Ground, pasting, Effect::Plain(whole))
                }
            } else if raw.push(byte).len() >= MAX_CONTROL_SEQUENCE_BYTES {
                (InputModel::Ground, paste, Effect::Plain(raw.push(byte)))
            } else {
                (InputModel::Csi(raw.push(byte)), paste, Effect::Nothing)
            },
            InputModel::Osc(raw) => if byte == 0x07 || control == 0x9c {
                (InputModel::Ground, paste, completed(raw.push(byte)))
            } else if byte == 0x1b {
                (InputModel::OscEscape(raw.push(byte)), paste, Effect::Nothing)
            } else if raw.len() >= MAX_TRANSFER_COMMAND_BYTES {
                (InputModel::DiscardOsc(false), paste, Effect::Nothing)
            } else if frame::may_be_transfer(raw.push(byte)) {
                (InputModel::Osc(raw.push(byte)), paste, Effect::Nothing)
            } else {
                (InputModel::PassthroughOsc(false), paste, Effect::Plain(raw.push(byte)))
            },
            InputModel::OscEscape(raw) => if byte == 0x5c || byte == 0x07 || byte == 0x9c {
                (InputModel::Ground, paste, completed(raw.push(byte)))
            } else if !frame::may_be_transfer(raw.push(byte)) {
                (InputModel::PassthroughOsc(false), paste, Effect::Plain(raw.push(byte)))
            } else if raw.push(byte).len() >= MAX_TRANSFER_COMMAND_BYTES {
                (InputModel::DiscardOsc(false), paste, Effect::Nothing)
            } else {
                (InputModel::Osc(raw.push(byte)), paste, Effect::Nothing)
            },
            InputModel::PassthroughOsc(escaped) => if byte == 0x07 || control == 0x9c || (escaped
                && byte == 0x5c) {
                (InputModel::Ground, paste, Effect::Plain(seq![byte]))
            } else {
                (InputModel::PassthroughOsc(byte == 0x1b), paste, Effect::Plain(seq![byte]))
            },
            InputModel::String(raw) => if control == 0x9c {
                (InputModel::Ground, paste, Effect::Plain(raw.push(byte)))
            } else {
                (
                    InputModel::PassthroughString(byte == 0x1b),
                    paste,
                    Effect::Plain(raw.push(byte)),
                )
            },
            InputModel::PassthroughString(escaped) => if control == 0x9c || (escaped && byte
                == 0x5c) {
                (InputModel::Ground, paste, Effect::Plain(seq![byte]))
            } else {
                (InputModel::PassthroughString(byte == 0x1b), paste, Effect::Plain(seq![byte]))
            },
            InputModel::DiscardOsc(escaped) => if byte == 0x07 || control == 0x9c || (escaped
                && byte == 0x5c) {
                (InputModel::Ground, paste, Effect::Nothing)
            } else {
                (InputModel::DiscardOsc(byte == 0x1b), paste, Effect::Nothing)
            },
        }
    }
}

/// The extractor after one byte, and what the byte amounts to.
pub open spec fn extract_byte(extractor: ExtractorModel, byte: u8) -> (ExtractorModel, Effect) {
    let (state, bracketed_paste, effect) = extract_state(
        extractor.state,
        extractor.bracketed_paste,
        byte,
        scanner::control_of(extractor.utf8_remaining, byte),
    );
    (
        ExtractorModel {
            state,
            bracketed_paste,
            utf8_remaining: scanner::remaining_after(extractor.utf8_remaining, byte),
            focus: extractor.focus,
        },
        effect,
    )
}

/// Items that are complete, and the bytes of the one that is being collected.
#[verifier::ext_equal]
pub struct Gathered {
    pub items: Seq<ItemModel>,
    pub plain: Seq<u8>,
}

/// Nothing gathered yet.
pub open spec fn nothing_gathered() -> Gathered {
    Gathered { items: Seq::empty(), plain: Seq::empty() }
}

/// The items once the collected bytes are one of them, unless there are none.
pub open spec fn flushed(gathered: Gathered) -> Seq<ItemModel> {
    if gathered.plain.len() > 0 {
        gathered.items.push(ItemModel::Input(gathered.plain))
    } else {
        gathered.items
    }
}

/// What is gathered once the effect of one more byte is added.
pub open spec fn with_effect(gathered: Gathered, effect: Effect) -> Gathered {
    match effect {
        Effect::Nothing => gathered,
        Effect::Plain(bytes) => Gathered { items: gathered.items, plain: gathered.plain + bytes },
        Effect::Report(bytes) => Gathered {
            items: flushed(gathered).push(ItemModel::Input(bytes)),
            plain: Seq::empty(),
        },
        Effect::Packet(packet) => Gathered {
            items: flushed(gathered).push(ItemModel::Transfer(packet)),
            plain: Seq::empty(),
        },
    }
}

/// The extractor after some bytes, and what was gathered from them.
pub open spec fn gather(extractor: ExtractorModel, bytes: Seq<u8>) -> (ExtractorModel, Gathered)
    decreases bytes.len(),
{
    if bytes.len() == 0 {
        (extractor, nothing_gathered())
    } else {
        let (before, gathered) = gather(extractor, bytes.drop_last());
        let (after, effect) = extract_byte(before, bytes.last());
        (after, with_effect(gathered, effect))
    }
}

/// Whether an item is a status that ends its session with an error.
pub open spec fn is_failure(item: ItemModel) -> bool {
    item matches ItemModel::Transfer(packet) && packet.action == "status"@
        && frame::is_session_error(packet.raw)
}

/// A list of at most one item.
pub open spec fn released(pending: Option<PacketModel>) -> Seq<ItemModel> {
    match pending {
        Some(packet) => seq![ItemModel::Transfer(packet)],
        None => Seq::empty(),
    }
}

/// Whether a byte begins a control of the host: ESC or a C1 control. No text begins with such a
/// byte, be it ASCII or UTF-8.
pub open spec fn begins_control(byte: u8) -> bool {
    byte == 0x1b || 0x80 <= byte <= 0x9f
}

/// Whether an item is a control reply of the host, of which any number may arrive before the focus
/// returns.
pub open spec fn is_control_reply(item: ItemModel) -> bool {
    item matches ItemModel::Input(bytes) && bytes.len() > 0 && begins_control(bytes[0])
}

/// Whether an item reports a refused permission.
pub open spec fn is_refusal(item: ItemModel) -> bool {
    item matches ItemModel::Transfer(packet) && frame::is_permission_denied(packet.raw)
}

/// What becomes of one item, and what is held back after it, where it is known whether a frame is a
/// failure and whether it reports a refused permission.
///
/// A failure is held back, in place of the one that was. The return of the focus is passed on
/// before the held failure, which it lets go. The loss of the focus is noted. While a refused
/// permission waits for the focus, control replies of the host pass it by. Everything else lets
/// the held failure go first.
pub open spec fn order_judged(
    focus: FocusModel,
    item: ItemModel,
    failure: bool,
    refusal: bool,
) -> (FocusModel, Seq<ItemModel>) {
    if item is Transfer && failure {
        (
            FocusModel {
                pending_failure: Some(item->Transfer_0),
                outer_unfocused: focus.outer_unfocused,
                waits_for_focus: focus.outer_unfocused && refusal,
            },
            released(focus.pending_failure),
        )
    } else if item == ItemModel::Input(FOCUS_IN@) {
        (
            FocusModel { pending_failure: None, outer_unfocused: false, waits_for_focus: false },
            seq![item] + released(focus.pending_failure),
        )
    } else if item == ItemModel::Input(FOCUS_OUT@) {
        (FocusModel { outer_unfocused: true, ..focus }, seq![item])
    } else if focus.waits_for_focus && is_control_reply(item) {
        (focus, seq![item])
    } else {
        (
            FocusModel {
                pending_failure: None,
                outer_unfocused: focus.outer_unfocused,
                waits_for_focus: false,
            },
            released(focus.pending_failure) + seq![item],
        )
    }
}

/// What becomes of one item, and what is held back after it.
pub open spec fn order_item(focus: FocusModel, item: ItemModel) -> (FocusModel, Seq<ItemModel>) {
    order_judged(focus, item, is_failure(item), is_refusal(item))
}

/// What becomes of a list of items, and what is held back after them.
pub open spec fn order(focus: FocusModel, items: Seq<ItemModel>) -> (FocusModel, Seq<ItemModel>)
    decreases items.len(),
{
    if items.len() == 0 {
        (focus, Seq::empty())
    } else {
        let (before, output) = order(focus, items.drop_last());
        let (after, more) = order_item(before, items.last());
        (after, output + more)
    }
}

/// The extractor after a piece of input, and the items that it yields.
pub open spec fn extract(extractor: ExtractorModel, bytes: Seq<u8>) -> (
    ExtractorModel,
    Seq<ItemModel>,
) {
    let (after, gathered) = gather(extractor, bytes);
    let (focus, output) = order(after.focus, flushed(gathered));
    (ExtractorModel { focus, ..after }, output)
}

/// What the extractor holds after the input has been idle: an escape sequence is given up, the
/// opening of a string is passed on, and a possible transfer frame is kept.
pub open spec fn state_after_idle(state: InputModel) -> InputModel {
    match state {
        InputModel::Escape(_) | InputModel::Csi(_) => InputModel::Ground,
        InputModel::String(_) => InputModel::PassthroughString(false),
        _ => state,
    }
}

/// The bytes that idleness passes on.
pub open spec fn passed_on_idle(state: InputModel) -> Seq<ItemModel> {
    match state {
        InputModel::Escape(raw) | InputModel::Csi(raw) | InputModel::String(raw) => seq![
            ItemModel::Input(raw),
        ],
        _ => Seq::empty(),
    }
}

/// The extractor after the input has been idle, and the items that this yields: a held failure,
/// unless it waits for the focus, and then what was held of an escape sequence or a string.
pub open spec fn idle(extractor: ExtractorModel) -> (ExtractorModel, Seq<ItemModel>) {
    let waits = extractor.focus.waits_for_focus;
    (
        ExtractorModel {
            state: state_after_idle(extractor.state),
            focus: FocusModel {
                pending_failure: if waits {
                    extractor.focus.pending_failure
                } else {
                    None
                },
                ..extractor.focus
            },
            ..extractor
        },
        (if waits {
            Seq::empty()
        } else {
            released(extractor.focus.pending_failure)
        }) + passed_on_idle(extractor.state),
    )
}

/// Whether what is held may be the beginning of a mouse report.
pub open spec fn may_be_mouse_report(state: InputModel) -> bool {
    match state {
        InputModel::Escape(raw) => raw == seq![0x1bu8],
        InputModel::Csi(raw) => MOUSE_PREFIX@.is_prefix_of(raw) && forall|i: int|
            3 <= i < raw.len() ==> (0x30 <= #[trigger] raw[i] <= 0x39 || raw[i] == 0x3b),
        _ => false,
    }
}

impl Default for TransferInputExtractor {
    fn default() -> (extractor: TransferInputExtractor)
        ensures
            extractor@ == initial_extractor(),
    {
        TransferInputExtractor {
            state: InputState::Ground,
            bracketed_paste: false,
            utf8_remaining: 0,
            pending_failure: None,
            outer_unfocused: false,
            failure_waits_for_focus: false,
        }
    }
}

/// What has been gathered in two lists.
pub open spec fn gathered_in(output: Seq<ExtractedInput>, plain: Seq<u8>) -> Gathered {
    Gathered { items: item_models(output), plain }
}

/// Makes the collected bytes an item, unless there are none.
fn flush_plain(plain: &mut Vec<u8>, output: &mut Vec<ExtractedInput>)
    ensures
        final(plain)@ == Seq::<u8>::empty(),
        item_models(final(output)@) == flushed(gathered_in(old(output)@, old(plain)@)),
{
    if plain.len() > 0 {
        let ghost before = output@;
        let mut taken: Vec<u8> = Vec::new();
        std::mem::swap(plain, &mut taken);
        let item = ExtractedInput::Input(taken);
        output.push(item);
        assert(item_models(output@) =~= item_models(before).push(item@));
    } else {
        assert(plain@ =~= Seq::<u8>::empty());
    }
}

/// Whether a transfer frame is begun: its introducer is complete.
fn begins_transfer(raw: &[u8]) -> (begun: bool)
    ensures
        begun == (frame::after_introducer(raw@) is Some),
{
    bytes::starts_with(raw, &frame::OSC_INTRODUCER) || bytes::starts_with(
        raw,
        &frame::C1_INTRODUCER,
    )
}

/// Deals with CAN and SUB.
fn abandon(state: InputState, byte: u8, plain: &mut Vec<u8>)
    ensures
        match abandoned(state@, byte) {
            Effect::Plain(bytes) => final(plain)@ == old(plain)@ + bytes,
            effect => effect == Effect::Nothing && final(plain)@ == old(plain)@,
        },
{
    match state {
        InputState::Escape(mut raw) | InputState::Csi(mut raw) | InputState::String(mut raw) => {
            raw.push(byte);
            bytes::append(plain, raw.as_slice());
        },
        InputState::Osc(mut raw) | InputState::OscEscape(mut raw) => {
            if !begins_transfer(raw.as_slice()) {
                raw.push(byte);
                bytes::append(plain, raw.as_slice());
            }
        },
        InputState::DiscardOsc(_) => {},
        _ => {
            plain.push(byte);
            assert(plain@ =~= old(plain)@ + seq![byte]);
        },
    }
}

/// Deals with a completed control string.
fn finish_input_osc(raw: Vec<u8>, plain: &mut Vec<u8>, output: &mut Vec<ExtractedInput>)
    ensures
        gathered_in(final(output)@, final(plain)@) == with_effect(
            gathered_in(old(output)@, old(plain)@),
            completed(raw@),
        ),
{
    match frame::parse_action_and_id(raw.as_slice()) {
        Some((action, id)) => {
            flush_plain(plain, output);
            let ghost before = output@;
            let item = ExtractedInput::Transfer(TransferPacket { raw, action, id });
            output.push(item);
            assert(item_models(output@) =~= item_models(before).push(item@));
        },
        None => {
            if !begins_transfer(raw.as_slice()) {
                bytes::append(plain, raw.as_slice());
            }
        },
    }
}

impl TransferInputExtractor {
    /// Takes a piece of input and returns what it amounts to, in order.
    pub fn push(&mut self, bytes: &[u8]) -> (items: Vec<ExtractedInput>)
        ensures
            final(self)@ == extract(old(self)@, bytes@).0,
            item_models(items@) == extract(old(self)@, bytes@).1,
    {
        let mut output: Vec<ExtractedInput> = Vec::new();
        let mut plain: Vec<u8> = Vec::new();
        let mut i: usize = 0;
        assert(bytes@.take(0) =~= Seq::<u8>::empty());
        assert(gathered_in(output@, plain@) =~= nothing_gathered());
        while i < bytes.len()
            invariant
                i <= bytes.len(),
                self@ == gather(old(self)@, bytes@.take(i as int)).0,
                gathered_in(output@, plain@) == gather(old(self)@, bytes@.take(i as int)).1,
            decreases bytes.len() - i,
        {
            self.push_byte(bytes[i], &mut plain, &mut output);
            proof {
                let seen = bytes@.take(i + 1);
                assert(seen.drop_last() =~= bytes@.take(i as int));
                assert(seen.last() == bytes@[i as int]);
            }
            i += 1;
        }
        assert(bytes@.take(i as int) =~= bytes@);
        flush_plain(&mut plain, &mut output);
        self.order_permission_focus(output)
    }

    /// Keeps a denied permission back until the observed cycle of losing and regaining the focus
    /// has ended.
    ///
    /// Kitty restores the focus asynchronously after it has reported a denied permission request.
    /// The denial is held so that the focus return is consumed before the denial makes the other
    /// side exit. No focus event is suppressed; a denial without a loss of focus is held until the
    /// input is idle, and ordinary keys let it go as well.
    pub fn order_permission_focus(&mut self, input: Vec<ExtractedInput>) -> (output: Vec<
        ExtractedInput,
    >)
        ensures
            final(self)@ == (ExtractorModel {
                focus: order(old(self)@.focus, item_models(input@)).0,
                ..old(self)@
            }),
            item_models(output@) == order(old(self)@.focus, item_models(input@)).1,
    {
        let ghost models = item_models(input@);
        let ghost given = input@;
        let mut output: Vec<ExtractedInput> = Vec::new();
        assert(models.take(0) =~= Seq::<ItemModel>::empty());
        assert(item_models(output@) =~= Seq::<ItemModel>::empty());
        for item in it: input
            invariant
                it.seq() == given,
                models == item_models(given),
                self@ == (ExtractorModel {
                    focus: order(old(self)@.focus, models.take(it.index())).0,
                    ..old(self)@
                }),
                item_models(output@) == order(old(self)@.focus, models.take(it.index())).1,
        {
            let ghost i = it.index();
            proof {
                assert(item == given[i]);
                assert(models[i] == item@);
                assert(models.take(i + 1).drop_last() =~= models.take(i));
                assert(models.take(i + 1).last() == models[i]);
            }
            self.order_one(item, &mut output);
        }
        assert(models.take(given.len() as int) =~= models);
        output
    }

    /// Passes on or holds back one item.
    fn order_one(&mut self, item: ExtractedInput, output: &mut Vec<ExtractedInput>)
        ensures
            final(self)@ == (ExtractorModel {
                focus: order_item(old(self)@.focus, item@).0,
                ..old(self)@
            }),
            item_models(final(output)@) == item_models(old(output)@) + order_item(
                old(self)@.focus,
                item@,
            ).1,
    {
        let (failure, refusal) = match &item {
            ExtractedInput::Transfer(packet) => (
                bytes::text_equal(packet.action.as_str(), "status") && frame::session_error(
                    packet.raw.as_slice(),
                ),
                frame::permission_denied(packet.raw.as_slice()),
            ),
            ExtractedInput::Input(_) => (false, false),
        };
        self.order_as(item, failure, refusal, output);
    }

    /// Passes on or holds back one item, where it is known whether a frame is a failure and whether
    /// it reports a refused permission.
    pub fn order_as(
        &mut self,
        item: ExtractedInput,
        failure: bool,
        refusal: bool,
        output: &mut Vec<ExtractedInput>,
    )
        ensures
            final(self)@ == (ExtractorModel {
                focus: order_judged(old(self)@.focus, item@, failure, refusal).0,
                ..old(self)@
            }),
            item_models(final(output)@) == item_models(old(output)@) + order_judged(
                old(self)@.focus,
                item@,
                failure,
                refusal,
            ).1,
    {
        match item {
            ExtractedInput::Transfer(packet) => {
                if failure {
                    self.failure_waits_for_focus = self.outer_unfocused && refusal;
                    self.release_failure(output);
                    self.pending_failure = Some(packet);
                } else {
                    self.failure_waits_for_focus = false;
                    self.release_failure(output);
                    push_item(output, ExtractedInput::Transfer(packet));
                }
            },
            ExtractedInput::Input(bytes) => {
                if bytes::bytes_equal(bytes.as_slice(), &FOCUS_IN) {
                    self.outer_unfocused = false;
                    self.failure_waits_for_focus = false;
                    push_item(output, ExtractedInput::Input(bytes));
                    self.release_failure(output);
                } else if bytes::bytes_equal(bytes.as_slice(), &FOCUS_OUT) {
                    self.outer_unfocused = true;
                    push_item(output, ExtractedInput::Input(bytes));
                } else if self.failure_waits_for_focus && bytes.len() > 0 && (bytes[0] == 0x1b || (
                0x80 <= bytes[0] && bytes[0] <= 0x9f)) {
                    // Unrelated control replies of the host can arrive before the focus returns.
                    push_item(output, ExtractedInput::Input(bytes));
                } else {
                    self.failure_waits_for_focus = false;
                    self.release_failure(output);
                    push_item(output, ExtractedInput::Input(bytes));
                }
            },
        }
    }

    /// Lets the held failure go.
    fn release_failure(&mut self, output: &mut Vec<ExtractedInput>)
        ensures
            final(self)@ == (ExtractorModel {
                focus: FocusModel { pending_failure: None, ..old(self)@.focus },
                ..old(self)@
            }),
            item_models(final(output)@) == item_models(old(output)@) + released(
                old(self)@.focus.pending_failure,
            ),
    {
        match self.pending_failure.take() {
            Some(packet) => {
                push_item(output, ExtractedInput::Transfer(packet));
            },
            None => {
                assert(item_models(output@) =~= item_models(output@) + Seq::<ItemModel>::empty());
            },
        }
    }

    /// Whether what is held may be the beginning of a mouse report.
    pub fn pending_mouse_escape(&self) -> (pending: bool)
        ensures
            pending == may_be_mouse_report(self@.state),
    {
        match &self.state {
            InputState::Escape(raw) => {
                let escape: [u8; 1] = [0x1b];
                assert(escape@ =~= seq![0x1bu8]);
                bytes::bytes_equal(raw.as_slice(), &escape)
            },
            InputState::Csi(raw) => {
                if !bytes::starts_with(raw.as_slice(), &MOUSE_PREFIX) {
                    return false;
                }
                let mut i: usize = 3;
                while i < raw.len()
                    invariant
                        3 <= i <= raw.len(),
                        self@.state == InputModel::Csi(raw@),
                        forall|j: int|
                            3 <= j < i ==> (0x30 <= #[trigger] raw@[j] <= 0x39 || raw@[j] == 0x3b),
                    decreases raw.len() - i,
                {
                    if !matches!(raw[i], 0x30..=0x39 | 0x3b) {
                        assert(!(0x30 <= raw@[i as int] <= 0x39 || raw@[i as int] == 0x3b));
                        return false;
                    }
                    i += 1;
                }
                true
            },
            _ => false,
        }
    }

    /// Passes on an ordinary incomplete escape sequence of the host once the input has been idle.
    /// A partial transfer frame is kept, because it may go on in the next read.
    pub fn flush_timeout(&mut self) -> (items: Vec<ExtractedInput>)
        ensures
            final(self)@ == idle(old(self)@).0,
            item_models(items@) == idle(old(self)@).1,
    {
        let mut output: Vec<ExtractedInput> = Vec::new();
        assert(item_models(output@) =~= Seq::<ItemModel>::empty());
        if !self.failure_waits_for_focus {
            self.release_failure(&mut output);
        }
        let ghost first = item_models(output@);
        let mut state = InputState::Ground;
        std::mem::swap(&mut self.state, &mut state);
        match state {
            InputState::Escape(raw) | InputState::Csi(raw) => {
                push_item(&mut output, ExtractedInput::Input(raw));
            },
            InputState::String(raw) => {
                self.state = InputState::PassthroughString(false);
                push_item(&mut output, ExtractedInput::Input(raw));
            },
            other => {
                self.state = other;
                assert(first =~= first + Seq::<ItemModel>::empty());
            },
        }
        assert(item_models(output@) =~= idle(old(self)@).1);
        output
    }
}

/// Appends an item.
fn push_item(output: &mut Vec<ExtractedInput>, item: ExtractedInput)
    ensures
        item_models(final(output)@) == item_models(old(output)@) + seq![item@],
{
    output.push(item);
    assert(item_models(output@) =~= item_models(old(output)@) + seq![item@]);
}

impl TransferInputExtractor {
    /// Takes one byte of input.
    #[verifier::rlimit(40)]
    fn push_byte(&mut self, byte: u8, plain: &mut Vec<u8>, output: &mut Vec<ExtractedInput>)
        ensures
            final(self)@ == extract_byte(old(self)@, byte).0,
            gathered_in(final(output)@, final(plain)@) == with_effect(
                gathered_in(old(output)@, old(plain)@),
                extract_byte(old(self)@, byte).1,
            ),
    {
        proof {
            reveal(extract_state);
        }
        let continues = scanner::utf8_continuation(&mut self.utf8_remaining, byte);
        let control = if continues {
            0
        } else {
            byte
        };
        let mut state = InputState::Ground;
        std::mem::swap(&mut self.state, &mut state);
        if (control == 0x18 || control == 0x1a) && !self.bracketed_paste {
            abandon(state, byte, plain);
            return;
        }
        self.state = match state {
            InputState::Ground => {
                if byte == 0x1b {
                    InputState::Escape(bytes::single(byte))
                } else if control == 0x9d && !self.bracketed_paste {
                    InputState::Osc(bytes::single(byte))
                } else if matches!(control, 0x90 | 0x9e | 0x98 | 0x9f) && !self.bracketed_paste {
                    InputState::String(bytes::single(byte))
                } else {
                    plain.push(byte);
                    assert(plain@ =~= old(plain)@ + seq![byte]);
                    InputState::Ground
                }
            },
            InputState::Escape(mut raw) => {
                if byte == 0x1b {
                    bytes::append(plain, raw.as_slice());
                    InputState::Escape(bytes::single(byte))
                } else {
                    raw.push(byte);
                    if byte == 0x5d && !self.bracketed_paste {
                        InputState::Osc(raw)
                    } else if byte == 0x5b {
                        InputState::Csi(raw)
                    } else if !self.bracketed_paste && matches!(byte, 0x50 | 0x5e | 0x5f | 0x58) {
                        InputState::String(raw)
                    } else {
                        bytes::append(plain, raw.as_slice());
                        InputState::Ground
                    }
                }
            },
            InputState::Csi(mut raw) => {
                if byte == 0x1b {
                    bytes::append(plain, raw.as_slice());
                    InputState::Escape(bytes::single(byte))
                } else {
                    raw.push(byte);
                    if 0x40 <= byte && byte <= 0x7e {
                        if bytes::bytes_equal(raw.as_slice(), &PASTE_START) {
                            self.bracketed_paste = true;
                        } else if bytes::bytes_equal(raw.as_slice(), &PASTE_END) {
                            self.bracketed_paste = false;
                        }
                        if !self.bracketed_paste && (bytes::bytes_equal(raw.as_slice(), &FOCUS_IN)
                            || bytes::bytes_equal(raw.as_slice(), &FOCUS_OUT)) {
                            flush_plain(plain, output);
                            let ghost before = output@;
                            let item = ExtractedInput::Input(raw);
                            output.push(item);
                            assert(item_models(output@) =~= item_models(before).push(item@));
                        } else {
                            bytes::append(plain, raw.as_slice());
                        }
                        InputState::Ground
                    } else if raw.len() >= MAX_CONTROL_SEQUENCE_BYTES {
                        bytes::append(plain, raw.as_slice());
                        InputState::Ground
                    } else {
                        InputState::Csi(raw)
                    }
                }
            },
            InputState::Osc(mut raw) => {
                if byte == 0x07 || control == 0x9c {
                    raw.push(byte);
                    finish_input_osc(raw, plain, output);
                    InputState::Ground
                } else if byte == 0x1b {
                    raw.push(byte);
                    InputState::OscEscape(raw)
                } else if raw.len() >= MAX_TRANSFER_COMMAND_BYTES {
                    InputState::DiscardOsc(false)
                } else {
                    raw.push(byte);
                    if frame::osc_prefix_is_invalid(raw.as_slice()) {
                        bytes::append(plain, raw.as_slice());
                        InputState::PassthroughOsc(false)
                    } else {
                        InputState::Osc(raw)
                    }
                }
            },
            InputState::OscEscape(mut raw) => {
                raw.push(byte);
                if matches!(byte, 0x5c | 0x07 | 0x9c) {
                    finish_input_osc(raw, plain, output);
                    InputState::Ground
                } else if frame::osc_prefix_is_invalid(raw.as_slice()) {
                    bytes::append(plain, raw.as_slice());
                    InputState::PassthroughOsc(false)
                } else if raw.len() >= MAX_TRANSFER_COMMAND_BYTES {
                    InputState::DiscardOsc(false)
                } else {
                    InputState::Osc(raw)
                }
            },
            InputState::PassthroughOsc(escaped) => {
                plain.push(byte);
                assert(plain@ =~= old(plain)@ + seq![byte]);
                if byte == 0x07 || control == 0x9c || (escaped && byte == 0x5c) {
                    InputState::Ground
                } else {
                    InputState::PassthroughOsc(byte == 0x1b)
                }
            },
            InputState::String(mut raw) => {
                raw.push(byte);
                bytes::append(plain, raw.as_slice());
                if control == 0x9c {
                    InputState::Ground
                } else {
                    InputState::PassthroughString(byte == 0x1b)
                }
            },
            InputState::PassthroughString(escaped) => {
                plain.push(byte);
                assert(plain@ =~= old(plain)@ + seq![byte]);
                if control == 0x9c || (escaped && byte == 0x5c) {
                    InputState::Ground
                } else {
                    InputState::PassthroughString(byte == 0x1b)
                }
            },
            InputState::DiscardOsc(escaped) => {
                if byte == 0x07 || control == 0x9c || (escaped && byte == 0x5c) {
                    InputState::Ground
                } else {
                    InputState::DiscardOsc(byte == 0x1b)
                }
            },
        };
    }
}

} // verus!
