//! The scanner of pane output: it finds complete transfer frames in a stream of bytes.
//!
//! The stream arrives in pieces that may be cut at any byte. Control strings that are no transfer
//! frames are consumed without keeping their payload; a frame is handed out once its terminator
//! has arrived.
use vstd::prelude::*;

use crate::bytes;
use crate::frame;
use crate::frame::MAX_TRANSFER_COMMAND_BYTES;

verus! {

/// One complete frame, with its action and its session id.
#[derive(Clone, Debug, PartialEq, Eq)]
pub struct TransferPacket {
    pub raw: Vec<u8>,
    pub action: String,
    pub id: String,
}

/// The model of a packet.
pub struct PacketModel {
    pub raw: Seq<u8>,
    pub action: Seq<char>,
    pub id: Seq<char>,
}

impl View for TransferPacket {
    type V = PacketModel;

    open spec fn view(&self) -> PacketModel {
        PacketModel { raw: self.raw@, action: self.action@, id: self.id@ }
    }
}

/// The models of a list of packets.
pub open spec fn packet_models(packets: Seq<TransferPacket>) -> Seq<PacketModel> {
    packets.map_values(|packet: TransferPacket| packet@)
}

/// The packet that a complete control string is, where it is a transfer frame.
pub open spec fn packet_of(raw: Seq<u8>) -> Option<PacketModel> {
    match frame::frame_of(raw) {
        Some((action, id)) => Some(PacketModel { raw, action, id }),
        None => None,
    }
}

/// Whether `byte` continues a UTF-8 sequence of which `remaining` bytes are still to come.
pub open spec fn continues_utf8(remaining: u8, byte: u8) -> bool {
    remaining > 0 && 0x80 <= byte <= 0xbf
}

/// How many continuation bytes a leading byte announces.
pub open spec fn announced(byte: u8) -> u8 {
    if 0xc2 <= byte <= 0xdf {
        1
    } else if 0xe0 <= byte <= 0xef {
        2
    } else if 0xf0 <= byte <= 0xf4 {
        3
    } else {
        0
    }
}

/// How many bytes of a UTF-8 sequence are still to come after `byte`.
pub open spec fn remaining_after(remaining: u8, byte: u8) -> u8 {
    if continues_utf8(remaining, byte) {
        (remaining - 1) as u8
    } else {
        announced(byte)
    }
}

/// What `byte` means as a control: nothing, where it continues a UTF-8 sequence.
pub open spec fn control_of(remaining: u8, byte: u8) -> u8 {
    if continues_utf8(remaining, byte) {
        0
    } else {
        byte
    }
}

/// CAN and SUB abandon whatever control string they stand in.
pub open spec fn abandons(control: u8) -> bool {
    control == 0x18 || control == 0x1a
}

/// The C1 controls that open a DCS, PM, SOS or APC string.
pub open spec fn opens_string(control: u8) -> bool {
    control == 0x90 || control == 0x9e || control == 0x98 || control == 0x9f
}

/// The bytes that open a DCS, PM, SOS or APC string after ESC: `P`, `^`, `_` and `X`.
pub open spec fn opens_string_after_escape(byte: u8) -> bool {
    byte == 0x50 || byte == 0x5e || byte == 0x5f || byte == 0x58
}

/// Takes note of one byte of a stream that may hold UTF-8: whether it continues a sequence, and
/// how many bytes of one are still to come. A continuation byte is never a C1 control.
pub fn utf8_continuation(remaining: &mut u8, byte: u8) -> (continues: bool)
    ensures
        continues == continues_utf8(*old(remaining), byte),
        *final(remaining) == remaining_after(*old(remaining), byte),
{
    if *remaining > 0 && 0x80 <= byte && byte <= 0xbf {
        *remaining = *remaining - 1;
        return true;
    }
    *remaining = match byte {
        0xc2..=0xdf => 1,
        0xe0..=0xef => 2,
        0xf0..=0xf4 => 3,
        _ => 0,
    };
    false
}

/// Where the scanner stands in the stream.
#[derive(Debug)]
enum ScanState {
    Ground,
    Escape,
    Osc(Vec<u8>),
    OscEscape(Vec<u8>),
    String,
    StringEscape,
    DiscardOsc(bool),
}

/// A bounded scanner for pane output.
#[derive(Debug)]
pub struct TransferScanner {
    state: ScanState,
    utf8_remaining: u8,
}

/// Where the scanner stands: outside of control strings, after an ESC, in a control string that
/// may be a transfer frame, after an ESC in such a string, in another string, after an ESC in that
/// string, or in a control string that is dropped (with whether its last byte was ESC).
pub enum ScanModel {
    Ground,
    Escape,
    Osc(Seq<u8>),
    OscEscape(Seq<u8>),
    String,
    StringEscape,
    DiscardOsc(bool),
}

/// The model of a scanner.
pub struct ScannerModel {
    pub state: ScanModel,
    pub utf8_remaining: u8,
}

impl View for TransferScanner {
    type V = ScannerModel;

    closed spec fn view(&self) -> ScannerModel {
        ScannerModel {
            state: match self.state {
                ScanState::Ground => ScanModel::Ground,
                ScanState::Escape => ScanModel::Escape,
                ScanState::Osc(raw) => ScanModel::Osc(raw@),
                ScanState::OscEscape(raw) => ScanModel::OscEscape(raw@),
                ScanState::String => ScanModel::String,
                ScanState::StringEscape => ScanModel::StringEscape,
                ScanState::DiscardOsc(escaped) => ScanModel::DiscardOsc(escaped),
            },
            utf8_remaining: self.utf8_remaining,
        }
    }
}

/// The scanner before any byte has been seen.
pub open spec fn initial_scanner() -> ScannerModel {
    ScannerModel { state: ScanModel::Ground, utf8_remaining: 0 }
}

/// A control string that was read up to `raw` goes on as a possible frame, or is dropped.
pub open spec fn collected(raw: Seq<u8>) -> ScanModel {
    if frame::may_be_transfer(raw) {
        ScanModel::Osc(raw)
    } else {
        ScanModel::DiscardOsc(false)
    }
}

/// Where one byte takes the scanner, and the control string that it completes.
pub open spec fn scan_state(state: ScanModel, byte: u8, control: u8) -> (
    ScanModel,
    Option<Seq<u8>>,
) {
    if abandons(control) {
        (ScanModel::Ground, None)
    } else {
        match state {
            ScanModel::Ground => if control == 0x1b {
                (ScanModel::Escape, None)
            } else if control == 0x9d {
                (ScanModel::Osc(seq![byte]), None)
            } else if opens_string(control) {
                (ScanModel::String, None)
            } else {
                (ScanModel::Ground, None)
            },
            ScanModel::Escape => if byte == 0x5d {
                (ScanModel::Osc(seq![0x1bu8, byte]), None)
            } else if opens_string_after_escape(byte) {
                (ScanModel::String, None)
            } else if byte == 0x1b {
                (ScanModel::Escape, None)
            } else {
                (ScanModel::Ground, None)
            },
            ScanModel::Osc(raw) => if byte == 0x07 || control == 0x9c {
                (ScanModel::Ground, Some(raw.push(byte)))
            } else if byte == 0x1b {
                (ScanModel::OscEscape(raw.push(byte)), None)
            } else if raw.len() >= MAX_TRANSFER_COMMAND_BYTES {
                (ScanModel::DiscardOsc(false), None)
            } else {
                (collected(raw.push(byte)), None)
            },
            ScanModel::OscEscape(raw) => if byte == 0x5c || byte == 0x07 || control == 0x9c {
                (ScanModel::Ground, Some(raw.push(byte)))
            } else if raw.len() >= MAX_TRANSFER_COMMAND_BYTES - 1 {
                (ScanModel::DiscardOsc(false), None)
            } else {
                (collected(raw.push(byte)), None)
            },
            ScanModel::String => if control == 0x9c {
                (ScanModel::Ground, None)
            } else if byte == 0x1b {
                (ScanModel::StringEscape, None)
            } else {
                (ScanModel::String, None)
            },
            ScanModel::StringEscape => if byte == 0x5c || control == 0x9c {
                (ScanModel::Ground, None)
            } else if byte == 0x1b {
                (ScanModel::StringEscape, None)
            } else {
                (ScanModel::String, None)
            },
            ScanModel::DiscardOsc(escaped) => if byte == 0x07 || control == 0x9c || (escaped && byte
                == 0x5c) {
                (ScanModel::Ground, None)
            } else {
                (ScanModel::DiscardOsc(byte == 0x1b), None)
            },
        }
    }
}

/// The packets that a completed control string yields: one, where it is a transfer frame.
pub open spec fn yielded(complete: Option<Seq<u8>>) -> Seq<PacketModel> {
    match complete {
        Some(raw) => match packet_of(raw) {
            Some(packet) => seq![packet],
            None => Seq::empty(),
        },
        None => Seq::empty(),
    }
}

/// The scanner after one byte, and the packets that the byte yields.
pub open spec fn scan_byte(scanner: ScannerModel, byte: u8) -> (ScannerModel, Seq<PacketModel>) {
    let (state, complete) = scan_state(
        scanner.state,
        byte,
        control_of(scanner.utf8_remaining, byte),
    );
    (
        ScannerModel { state, utf8_remaining: remaining_after(scanner.utf8_remaining, byte) },
        yielded(complete),
    )
}

/// The scanner after some bytes, and the packets that they yield.
pub open spec fn scan(scanner: ScannerModel, bytes: Seq<u8>) -> (ScannerModel, Seq<PacketModel>)
    decreases bytes.len(),
{
    if bytes.len() == 0 {
        (scanner, Seq::empty())
    } else {
        let (before, packets) = scan(scanner, bytes.drop_last());
        let (after, more) = scan_byte(before, bytes.last());
        (after, packets + more)
    }
}

impl Default for TransferScanner {
    fn default() -> (scanner: TransferScanner)
        ensures
            scanner@ == initial_scanner(),
    {
        TransferScanner { state: ScanState::Ground, utf8_remaining: 0 }
    }
}

/// Hands out a completed control string, where it is a transfer frame.
fn emit_packet(raw: Vec<u8>, packets: &mut Vec<TransferPacket>)
    ensures
        packet_models(final(packets)@) == packet_models(old(packets)@) + yielded(Some(raw@)),
{
    let ghost before = packets@;
    match frame::parse_action_and_id(raw.as_slice()) {
        Some((action, id)) => {
            let packet = TransferPacket { raw, action, id };
            packets.push(packet);
            assert(packet_models(packets@) =~= packet_models(before) + seq![packet@]);
        },
        None => {
            assert(packet_models(packets@) =~= packet_models(before) + yielded(Some(raw@)));
        },
    }
}

impl TransferScanner {
    /// Scans a piece of the stream and returns the packets that it completes, in order.
    pub fn push(&mut self, bytes: &[u8]) -> (packets: Vec<TransferPacket>)
        ensures
            final(self)@ == scan(old(self)@, bytes@).0,
            packet_models(packets@) == scan(old(self)@, bytes@).1,
    {
        let mut packets: Vec<TransferPacket> = Vec::new();
        let mut i: usize = 0;
        assert(bytes@.take(0) =~= Seq::<u8>::empty());
        assert(packet_models(packets@) =~= Seq::<PacketModel>::empty());
        while i < bytes.len()
            invariant
                i <= bytes.len(),
                self@ == scan(old(self)@, bytes@.take(i as int)).0,
                packet_models(packets@) == scan(old(self)@, bytes@.take(i as int)).1,
            decreases bytes.len() - i,
        {
            self.push_byte(bytes[i], &mut packets);
            proof {
                let seen = bytes@.take(i + 1);
                assert(seen.drop_last() =~= bytes@.take(i as int));
                assert(seen.last() == bytes@[i as int]);
            }
            i += 1;
        }
        assert(bytes@.take(i as int) =~= bytes@);
        packets
    }

    /// Takes one byte of the stream, and adds the packet that it completes, if it does.
    pub fn push_byte(&mut self, byte: u8, packets: &mut Vec<TransferPacket>)
        ensures
            final(self)@ == scan_byte(old(self)@, byte).0,
            packet_models(final(packets)@) == packet_models(old(packets)@) + scan_byte(
                old(self)@,
                byte,
            ).1,
    {
        let ghost before = self@;
        let ghost earlier = packets@;
        assert(packet_models(earlier) =~= packet_models(earlier) + Seq::<PacketModel>::empty());
        let continues = utf8_continuation(&mut self.utf8_remaining, byte);
        let control = if continues {
            0
        } else {
            byte
        };
        if control == 0x18 || control == 0x1a {
            self.state = ScanState::Ground;
            return;
        }
        let mut state = ScanState::Ground;
        std::mem::swap(&mut self.state, &mut state);
        self.state = match state {
            ScanState::Ground => match control {
                0x1b => ScanState::Escape,
                0x9d => ScanState::Osc(bytes::single(byte)),
                0x90 | 0x9e | 0x98 | 0x9f => ScanState::String,
                _ => ScanState::Ground,
            },
            ScanState::Escape => match byte {
                0x5d => {
                    let raw: Vec<u8> = vec![0x1b, byte];
                    assert(raw@ =~= seq![0x1bu8, byte]);
                    ScanState::Osc(raw)
                },
                0x50 | 0x5e | 0x5f | 0x58 => ScanState::String,
                0x1b => ScanState::Escape,
                _ => ScanState::Ground,
            },
            ScanState::Osc(mut raw) => {
                if byte == 0x07 || control == 0x9c {
                    raw.push(byte);
                    emit_packet(raw, packets);
                    ScanState::Ground
                } else if byte == 0x1b {
                    raw.push(byte);
                    ScanState::OscEscape(raw)
                } else if raw.len() >= MAX_TRANSFER_COMMAND_BYTES {
                    ScanState::DiscardOsc(false)
                } else {
                    raw.push(byte);
                    if frame::osc_prefix_is_invalid(raw.as_slice()) {
                        ScanState::DiscardOsc(false)
                    } else {
                        ScanState::Osc(raw)
                    }
                }
            },
            ScanState::OscEscape(mut raw) => {
                if byte == 0x5c || byte == 0x07 || control == 0x9c {
                    raw.push(byte);
                    emit_packet(raw, packets);
                    ScanState::Ground
                } else if raw.len() >= MAX_TRANSFER_COMMAND_BYTES - 1 {
                    ScanState::DiscardOsc(false)
                } else {
                    raw.push(byte);
                    if frame::osc_prefix_is_invalid(raw.as_slice()) {
                        ScanState::DiscardOsc(false)
                    } else {
                        ScanState::Osc(raw)
                    }
                }
            },
            ScanState::String => {
                if control == 0x9c {
                    ScanState::Ground
                } else if byte == 0x1b {
                    ScanState::StringEscape
                } else {
                    ScanState::String
                }
            },
            ScanState::StringEscape => {
                if byte == 0x5c || control == 0x9c {
                    ScanState::Ground
                } else if byte == 0x1b {
                    ScanState::StringEscape
                } else {
                    ScanState::String
                }
            },
            ScanState::DiscardOsc(escaped) => {
                if byte == 0x07 || control == 0x9c || (escaped && byte == 0x5c) {
                    ScanState::Ground
                } else {
                    ScanState::DiscardOsc(byte == 0x1b)
                }
            },
        };
    }
}

} // verus!
