//! What holds of the scanner whatever the stream.
use vstd::prelude::*;

use crate::frame;
use crate::frame::MAX_TRANSFER_COMMAND_BYTES;
use crate::frame_laws;
use crate::scanner;
use crate::scanner::{PacketModel, ScanModel, ScannerModel};

verus! {

/// Where the stream is cut does not matter: scanning two pieces one after the other leaves the
/// scanner where scanning them in one piece does, and yields the same packets.
pub proof fn law_scan_is_independent_of_cuts(scanner: ScannerModel, first: Seq<u8>, second: Seq<u8>)
    ensures
        scanner::scan(scanner, first + second).0 == scanner::scan(
            scanner::scan(scanner, first).0,
            second,
        ).0,
        scanner::scan(scanner, first + second).1 == scanner::scan(scanner, first).1
            + scanner::scan(scanner::scan(scanner, first).0, second).1,
    decreases second.len(),
{
    let middle = scanner::scan(scanner, first).0;
    if second.len() == 0 {
        assert(first + second =~= first);
        assert(scanner::scan(scanner, first).1 + Seq::<PacketModel>::empty() =~= scanner::scan(
            scanner,
            first,
        ).1);
    } else {
        law_scan_is_independent_of_cuts(scanner, first, second.drop_last());
        assert((first + second).drop_last() =~= first + second.drop_last());
        assert((first + second).last() == second.last());
        let (before, packets) = scanner::scan(middle, second.drop_last());
        let more = scanner::scan_byte(before, second.last()).1;
        assert(scanner::scan(scanner, first).1 + (packets + more) =~= scanner::scan(
            scanner,
            first,
        ).1 + packets + more);
    }
}

/// Every packet is exactly one frame of bounded length, with the action and the id of that frame.
pub proof fn law_packets_are_frames(scanner: ScannerModel, bytes: Seq<u8>, i: int)
    requires
        0 <= i < scanner::scan(scanner, bytes).1.len(),
    ensures
        ({
            let packet = scanner::scan(scanner, bytes).1[i];
            &&& frame::frame_of(packet.raw) == Some((packet.action, packet.id))
            &&& packet.raw.len() <= MAX_TRANSFER_COMMAND_BYTES
            &&& frame::is_session_id(packet.id)
        }),
    decreases bytes.len(),
{
    if bytes.len() > 0 {
        let (before, packets) = scanner::scan(scanner, bytes.drop_last());
        if i < packets.len() {
            law_packets_are_frames(scanner, bytes.drop_last(), i);
        }
    }
}

/// A scanner that keeps no more than it may: what it has collected may still become a transfer
/// frame, and is not longer than the longest frame (and an ESC).
pub open spec fn is_bounded(scanner: ScannerModel) -> bool {
    match scanner.state {
        ScanModel::Osc(raw) => {
            &&& frame::may_be_transfer(raw)
            &&& raw.len() <= MAX_TRANSFER_COMMAND_BYTES
        },
        ScanModel::OscEscape(raw) => {
            &&& 0 < raw.len() <= MAX_TRANSFER_COMMAND_BYTES + 1
            &&& raw.last() == 0x1b
            &&& frame::may_be_transfer(raw.drop_last())
        },
        _ => true,
    }
}

proof fn lemma_openings_may_be_transfers()
    ensures
        frame::may_be_transfer(seq![0x9du8]),
        frame::may_be_transfer(seq![0x1bu8, 0x5du8]),
{
    assert(seq![0x9du8] =~= frame::C1_INTRODUCER@.subrange(0, 1));
    assert(seq![0x1bu8, 0x5du8] =~= frame::OSC_INTRODUCER@.subrange(0, 2));
}

/// The scanner never keeps the payload of other control strings, nor more of a transfer frame than
/// the longest one.
pub proof fn law_scanner_stays_bounded(scanner: ScannerModel, bytes: Seq<u8>)
    requires
        is_bounded(scanner),
    ensures
        is_bounded(scanner::initial_scanner()),
        is_bounded(scanner::scan(scanner, bytes).0),
    decreases bytes.len(),
{
    if bytes.len() > 0 {
        law_scanner_stays_bounded(scanner, bytes.drop_last());
        lemma_openings_may_be_transfers();
        let before = scanner::scan(scanner, bytes.drop_last()).0;
        if let ScanModel::Osc(raw) = before.state {
            assert(raw.push(bytes.last()).drop_last() =~= raw);
        }
    }
}

/// One more byte of `raw` takes the scanner one step further.
pub proof fn lemma_next(scanner: ScannerModel, raw: Seq<u8>, k: int)
    requires
        0 <= k < raw.len(),
    ensures
        scanner::scan(scanner, raw.take(k + 1)).0 == scanner::scan_byte(
            scanner::scan(scanner, raw.take(k)).0,
            raw[k],
        ).0,
        scanner::scan(scanner, raw.take(k + 1)).1 == scanner::scan(scanner, raw.take(k)).1
            + scanner::scan_byte(scanner::scan(scanner, raw.take(k)).0, raw[k]).1,
{
    assert(raw.take(k + 1).drop_last() =~= raw.take(k));
    assert(raw.take(k + 1).last() == raw[k]);
}

/// After the opening bytes of a frame the scanner collects.
proof fn lemma_opening(scanner: ScannerModel, raw: Seq<u8>)
    requires
        frame_laws::is_enclosed(raw),
        scanner.state == ScanModel::Ground,
        scanner.utf8_remaining == 0 || raw[0] == 0x1b,
    ensures
        ({
            let n = frame_laws::opener_len(raw);
            scanner::scan(scanner, raw.take(n)) == (
                ScannerModel { state: ScanModel::Osc(raw.take(n)), utf8_remaining: 0 },
                Seq::<PacketModel>::empty(),
            )
        }),
{
    let none = Seq::<PacketModel>::empty();
    assert(none + none =~= none);
    assert(raw.take(0) =~= Seq::<u8>::empty());
    assert(scanner::scan(scanner, raw.take(0)) == (scanner, none));
    lemma_next(scanner, raw, 0);
    if raw[0] == 0x1b {
        lemma_next(scanner, raw, 1);
        assert(raw.take(2) =~= seq![0x1bu8, raw[1]]);
    } else {
        assert(raw.take(1) =~= seq![raw[0]]);
    }
}

/// While the printable bytes of a frame arrive the scanner collects them.
proof fn lemma_collecting(scanner: ScannerModel, raw: Seq<u8>, k: int)
    requires
        frame_laws::is_enclosed(raw),
        forall|j: int| 0 <= j <= raw.len() ==> frame::may_be_transfer(#[trigger] raw.take(j)),
        scanner.state == ScanModel::Ground,
        scanner.utf8_remaining == 0 || raw[0] == 0x1b,
        frame_laws::opener_len(raw) <= k <= raw.len() - frame_laws::closer_len(raw),
    ensures
        scanner::scan(scanner, raw.take(k)) == (
            ScannerModel { state: ScanModel::Osc(raw.take(k)), utf8_remaining: 0 },
            Seq::<PacketModel>::empty(),
        ),
    decreases k,
{
    if k == frame_laws::opener_len(raw) {
        lemma_opening(scanner, raw);
    } else {
        lemma_collecting(scanner, raw, k - 1);
        assert(raw.take(k).drop_last() =~= raw.take(k - 1));
        assert(raw.take(k).last() == raw[k - 1]);
        assert(raw.take(k - 1).push(raw[k - 1]) =~= raw.take(k));
        assert(frame::is_value_byte(raw[k - 1]));
        assert(frame::may_be_transfer(raw.take(k)));
        let none = Seq::<PacketModel>::empty();
        assert(none + none =~= none);
    }
}

/// BEL and the C1 terminator complete a control string that is being collected.
proof fn lemma_terminator(part: Seq<u8>, byte: u8)
    requires
        byte == 0x07 || byte == 0x9c,
    ensures
        scanner::scan_byte(
            ScannerModel { state: ScanModel::Osc(part), utf8_remaining: 0 },
            byte,
        ) == (scanner::initial_scanner(), scanner::yielded(Some(part.push(byte)))),
{
}

/// `ESC \` completes a control string that is being collected.
proof fn lemma_escape_terminator(part: Seq<u8>)
    ensures
        scanner::scan_byte(
            ScannerModel { state: ScanModel::Osc(part), utf8_remaining: 0 },
            0x1b,
        ) == (
            ScannerModel { state: ScanModel::OscEscape(part.push(0x1b)), utf8_remaining: 0 },
            Seq::<PacketModel>::empty(),
        ),
        scanner::scan_byte(
            ScannerModel { state: ScanModel::OscEscape(part.push(0x1b)), utf8_remaining: 0 },
            0x5c,
        ) == (
            scanner::initial_scanner(),
            scanner::yielded(Some(part.push(0x1b).push(0x5c))),
        ),
{
}

/// The closing bytes of a frame complete it.
proof fn lemma_closing(scanner: ScannerModel, raw: Seq<u8>)
    requires
        frame_laws::is_enclosed(raw),
        scanner::scan(scanner, raw.take(raw.len() - frame_laws::closer_len(raw))) == (
            ScannerModel {
                state: ScanModel::Osc(raw.take(raw.len() - frame_laws::closer_len(raw))),
                utf8_remaining: 0,
            },
            Seq::<PacketModel>::empty(),
        ),
    ensures
        scanner::scan(scanner, raw).0 == scanner::initial_scanner(),
        scanner::scan(scanner, raw).1 == scanner::yielded(Some(raw)),
{
    let m = raw.len() - frame_laws::closer_len(raw);
    let part = raw.take(m);
    let none = Seq::<PacketModel>::empty();
    let packets = scanner::yielded(Some(raw));
    assert(none + none =~= none);
    assert(none + packets =~= packets);
    assert(raw.take(raw.len() as int) =~= raw);
    lemma_next(scanner, raw, m);
    if raw.last() == 0x5c {
        lemma_next(scanner, raw, m + 1);
        lemma_escape_terminator(part);
        assert(part.push(0x1b).push(0x5c) =~= raw);
    } else {
        lemma_terminator(part, raw[m]);
        assert(part.push(raw[m]) =~= raw);
    }
}

/// A complete frame is recognised: from outside of control strings, scanning a frame yields that
/// frame as the one packet, and leaves the scanner outside of control strings. (A C1 introducer is
/// not seen in the middle of a UTF-8 sequence, where it is a continuation byte.)
pub proof fn law_complete_frame_is_recognised(scanner: ScannerModel, raw: Seq<u8>)
    requires
        frame::frame_of(raw) is Some,
        scanner.state == ScanModel::Ground,
        scanner.utf8_remaining == 0 || raw[0] == 0x1b,
    ensures
        scanner::scan(scanner, raw).0 == scanner::initial_scanner(),
        scanner::scan(scanner, raw).1 == seq![scanner::packet_of(raw)->0],
{
    frame_laws::lemma_frame_is_enclosed(raw);
    lemma_collecting(scanner, raw, raw.len() - frame_laws::closer_len(raw));
    lemma_closing(scanner, raw);
}

/// What the scanner has collected is the end of what it has seen.
pub open spec fn collects_from(scanner: ScannerModel, seen: Seq<u8>) -> bool {
    match scanner.state {
        ScanModel::Osc(raw) => raw.is_suffix_of(seen),
        ScanModel::OscEscape(raw) => raw.is_suffix_of(seen),
        ScanModel::Escape => seq![0x1bu8].is_suffix_of(seen),
        _ => true,
    }
}

/// Whether `part` stands in `whole` without a gap.
pub open spec fn stands_in(part: Seq<u8>, whole: Seq<u8>) -> bool {
    exists|before: Seq<u8>, after: Seq<u8>| #[trigger] (before + part + after) == whole
}

proof fn lemma_suffix_push(raw: Seq<u8>, seen: Seq<u8>, byte: u8)
    requires
        raw.is_suffix_of(seen),
    ensures
        raw.push(byte).is_suffix_of(seen.push(byte)),
{
    let whole = seen.push(byte);
    let part = raw.push(byte);
    assert(raw == seen.subrange(seen.len() - raw.len(), seen.len() as int));
    assert forall|i: int| 0 <= i < part.len() implies part[i] == whole.subrange(
        whole.len() - part.len(),
        whole.len() as int,
    )[i] by {
        if i < raw.len() {
            assert(raw[i] == seen[seen.len() - raw.len() + i]);
        }
    }
    assert(part =~= whole.subrange(whole.len() - part.len(), whole.len() as int));
}

/// What the scanner has collected after one more byte is still the end of what it has seen.
proof fn lemma_still_collects(scanner: ScannerModel, seen: Seq<u8>, byte: u8)
    requires
        collects_from(scanner, seen),
    ensures
        collects_from(scanner::scan_byte(scanner, byte).0, seen.push(byte)),
{
    let whole = seen.push(byte);
    match scanner.state {
        ScanModel::Osc(raw) => lemma_suffix_push(raw, seen, byte),
        ScanModel::OscEscape(raw) => lemma_suffix_push(raw, seen, byte),
        ScanModel::Escape => {
            lemma_suffix_push(seq![0x1bu8], seen, byte);
            assert(seq![0x1bu8].push(byte) =~= seq![0x1bu8, byte]);
        },
        _ => {},
    }
    assert(seq![byte] =~= whole.subrange(whole.len() - 1, whole.len() as int));
}

/// A packet that a byte yields is the end of what the scanner has seen.
proof fn lemma_yields_a_suffix(scanner: ScannerModel, seen: Seq<u8>, byte: u8, i: int)
    requires
        collects_from(scanner, seen),
        0 <= i < scanner::scan_byte(scanner, byte).1.len(),
    ensures
        scanner::scan_byte(scanner, byte).1[i].raw.is_suffix_of(seen.push(byte)),
{
    match scanner.state {
        ScanModel::Osc(raw) => lemma_suffix_push(raw, seen, byte),
        ScanModel::OscEscape(raw) => lemma_suffix_push(raw, seen, byte),
        _ => {},
    }
}

/// The end of a stream stands in it.
proof fn lemma_suffix_stands_in(part: Seq<u8>, whole: Seq<u8>)
    requires
        part.is_suffix_of(whole),
    ensures
        stands_in(part, whole),
{
    assert(whole.take(whole.len() - part.len()) + part + Seq::<u8>::empty() =~= whole);
}

/// What stands in a stream stands in every longer one.
proof fn lemma_stands_in_longer(part: Seq<u8>, whole: Seq<u8>, byte: u8)
    requires
        stands_in(part, whole),
    ensures
        stands_in(part, whole.push(byte)),
{
    let (head, tail) = choose|head: Seq<u8>, tail: Seq<u8>| #[trigger]
        (head + part + tail) == whole;
    assert(head + part + tail.push(byte) =~= whole.push(byte));
}

/// Every packet stands in the stream as it was sent, byte for byte and without a gap.
pub proof fn law_packets_stand_in_the_stream(bytes: Seq<u8>)
    ensures
        collects_from(scanner::scan(scanner::initial_scanner(), bytes).0, bytes),
        forall|i: int|
            0 <= i < scanner::scan(scanner::initial_scanner(), bytes).1.len() ==> stands_in(
                (#[trigger] scanner::scan(scanner::initial_scanner(), bytes).1[i]).raw,
                bytes,
            ),
    decreases bytes.len(),
{
    let start = scanner::initial_scanner();
    if bytes.len() > 0 {
        let seen = bytes.drop_last();
        let byte = bytes.last();
        law_packets_stand_in_the_stream(seen);
        let (before, packets) = scanner::scan(start, seen);
        lemma_still_collects(before, seen, byte);
        assert(bytes =~= seen.push(byte));
        assert forall|i: int| 0 <= i < scanner::scan(start, bytes).1.len() implies stands_in(
            (#[trigger] scanner::scan(start, bytes).1[i]).raw,
            bytes,
        ) by {
            if i < packets.len() {
                lemma_stands_in_longer(packets[i].raw, seen, byte);
            } else {
                lemma_yields_a_suffix(before, seen, byte, i - packets.len());
                lemma_suffix_stands_in(scanner::scan(start, bytes).1[i].raw, bytes);
            }
        }
    }
}

/// Where each packet ends in the stream: how many bytes had been seen when it was yielded.
pub open spec fn packet_ends(scanner: ScannerModel, bytes: Seq<u8>) -> Seq<int>
    decreases bytes.len(),
{
    if bytes.len() == 0 {
        Seq::empty()
    } else {
        let before = scanner::scan(scanner, bytes.drop_last()).0;
        let ends = packet_ends(scanner, bytes.drop_last());
        if scanner::scan_byte(before, bytes.last()).1.len() > 0 {
            ends.push(bytes.len() as int)
        } else {
            ends
        }
    }
}

/// How many of the last bytes may still become part of a packet.
pub open spec fn collected_len(scanner: ScannerModel) -> nat {
    match scanner.state {
        ScanModel::Osc(raw) => raw.len(),
        ScanModel::OscEscape(raw) => raw.len(),
        ScanModel::Escape => 1,
        _ => 0,
    }
}

/// A byte adds at most itself to what is collected. A packet takes all of that, and nothing stays.
proof fn lemma_collected_len(scanner: ScannerModel, byte: u8)
    ensures
        collected_len(scanner::scan_byte(scanner, byte).0) <= collected_len(scanner) + 1,
        scanner::scan_byte(scanner, byte).1.len() <= 1,
        scanner::scan_byte(scanner, byte).1.len() == 1 ==> {
            &&& scanner::scan_byte(scanner, byte).1[0].raw.len() == collected_len(scanner) + 1
            &&& collected_len(scanner::scan_byte(scanner, byte).0) == 0
        },
{
}

/// The packets of a stream come in the order of the stream and do not overlap: each is the run of
/// bytes before its end, and begins no earlier than where every packet before it ends.
pub proof fn law_packets_follow_one_another(bytes: Seq<u8>)
    ensures
        ({
            let start = scanner::initial_scanner();
            let (scanner, packets) = scanner::scan(start, bytes);
            let ends = packet_ends(start, bytes);
            &&& ends.len() == packets.len()
            &&& forall|i: int|
                0 <= i < packets.len() ==> {
                    &&& 0 < (#[trigger] packets[i]).raw.len() <= ends[i]
                    &&& ends[i] + collected_len(scanner) <= bytes.len()
                    &&& packets[i].raw == bytes.subrange(ends[i] - packets[i].raw.len(), ends[i])
                }
            &&& forall|i: int, j: int|
                0 <= i < j < packets.len() ==> #[trigger] ends[i] <= ends[j] - (
                #[trigger] packets[j]).raw.len()
        }),
    decreases bytes.len(),
{
    let start = scanner::initial_scanner();
    if bytes.len() > 0 {
        let seen = bytes.drop_last();
        let byte = bytes.last();
        law_packets_follow_one_another(seen);
        law_packets_stand_in_the_stream(seen);
        let (before, earlier) = scanner::scan(start, seen);
        let ends = packet_ends(start, seen);
        let (after, more) = scanner::scan_byte(before, byte);
        lemma_collected_len(before, byte);
        assert(bytes =~= seen.push(byte));
        let packets = earlier + more;
        let all = packet_ends(start, bytes);
        if more.len() > 0 {
            lemma_yields_a_suffix(before, seen, byte, 0);
        }
        assert forall|i: int| 0 <= i < packets.len() implies {
            &&& 0 < (#[trigger] packets[i]).raw.len() <= all[i]
            &&& all[i] + collected_len(after) <= bytes.len()
            &&& packets[i].raw == bytes.subrange(all[i] - packets[i].raw.len(), all[i])
        } by {
            if i < earlier.len() {
                let raw = earlier[i].raw;
                assert(packets[i] == earlier[i] && all[i] == ends[i]);
                assert(bytes.subrange(ends[i] - raw.len(), ends[i]) =~= seen.subrange(
                    ends[i] - raw.len(),
                    ends[i],
                ));
            } else {
                assert(packets[i] == more[0]);
            }
        }
        assert forall|i: int, j: int| 0 <= i < j < packets.len() implies #[trigger] all[i] <= all[j]
            - (#[trigger] packets[j]).raw.len() by {
            assert(packets[i] == earlier[i] && all[i] == ends[i]);
            if j < earlier.len() {
                assert(packets[j] == earlier[j] && all[j] == ends[j]);
            } else {
                assert(packets[j] == more[0]);
            }
        }
    }
}

/// A packet is yielded by the piece of the stream in which its last byte lies.
pub proof fn law_packets_end_in_their_piece(scanner: ScannerModel, first: Seq<u8>, second: Seq<u8>)
    ensures
        ({
            let ends = packet_ends(scanner, first + second);
            let n = scanner::scan(scanner, first).1.len();
            &&& ends.len() == scanner::scan(scanner, first + second).1.len()
            &&& n <= ends.len()
            &&& forall|i: int| 0 <= i < n ==> 0 < #[trigger] ends[i] <= first.len()
            &&& forall|i: int|
                n <= i < ends.len() ==> first.len() < #[trigger] ends[i] <= first.len()
                    + second.len()
        }),
    decreases first.len() + second.len(),
{
    let whole = first + second;
    if whole.len() > 0 {
        let seen = whole.drop_last();
        let before = scanner::scan(scanner, seen).0;
        lemma_collected_len(before, whole.last());
        if second.len() > 0 {
            assert(seen =~= first + second.drop_last());
            law_packets_end_in_their_piece(scanner, first, second.drop_last());
        } else {
            assert(whole =~= first);
            assert(seen =~= first.drop_last() + second);
            law_packets_end_in_their_piece(scanner, first.drop_last(), second);
        }
    }
}

/// CAN and SUB abandon every control string, and every UTF-8 sequence: they yield nothing and leave
/// the scanner ready for the next frame.
pub proof fn law_cancel_controls_recover(scanner: ScannerModel, byte: u8)
    requires
        byte == 0x18 || byte == 0x1a,
    ensures
        scanner::scan_byte(scanner, byte) == (
            scanner::initial_scanner(),
            Seq::<PacketModel>::empty(),
        ),
        forall|later: Seq<u8>| #[trigger]
            scanner::scan(scanner::scan_byte(scanner, byte).0, later) == scanner::scan(
                scanner::initial_scanner(),
                later,
            ),
{
}

/// Bytes that hold neither a terminator of strings nor a control that abandons them.
pub open spec fn ends_no_string(bytes: Seq<u8>) -> bool {
    &&& forall|i: int|
        0 <= i < bytes.len() ==> {
            let byte = #[trigger] bytes[i];
            byte != 0x9c && byte != 0x18 && byte != 0x1a
        }
    &&& forall|i: int|
        0 < i < bytes.len() ==> (#[trigger] bytes[i] == 0x5c ==> bytes[i - 1] != 0x1b)
}

proof fn lemma_ends_no_string_prefix(bytes: Seq<u8>)
    requires
        bytes.len() > 0,
        ends_no_string(bytes),
    ensures
        ends_no_string(bytes.drop_last()),
{
    let prefix = bytes.drop_last();
    assert forall|i: int| 0 <= i < prefix.len() implies {
        let byte = #[trigger] prefix[i];
        byte != 0x9c && byte != 0x18 && byte != 0x1a
    } by {
        assert(prefix[i] == bytes[i]);
    }
    assert forall|i: int| 0 < i < prefix.len() && #[trigger] prefix[i] == 0x5c implies prefix[i - 1]
        != 0x1b by {
        assert(prefix[i] == bytes[i]);
    }
}

/// Nothing inside a DCS, PM, SOS or APC string is taken for a frame, however much it looks like
/// one: until the string's terminator arrives, nothing is yielded.
pub proof fn law_strings_yield_nothing(scanner: ScannerModel, bytes: Seq<u8>)
    requires
        scanner.state is String,
        ends_no_string(bytes),
    ensures
        scanner::scan(scanner, bytes).0.state == (if bytes.len() > 0 && bytes.last() == 0x1b {
            ScanModel::StringEscape
        } else {
            ScanModel::String
        }),
        scanner::scan(scanner, bytes).1 == Seq::<PacketModel>::empty(),
    decreases bytes.len(),
{
    if bytes.len() > 0 {
        lemma_ends_no_string_prefix(bytes);
        law_strings_yield_nothing(scanner, bytes.drop_last());
        assert(bytes.last() == bytes[bytes.len() - 1]);
        let none = Seq::<PacketModel>::empty();
        assert(none + none =~= none);
    }
}

/// A control string that was given up stays given up until its terminator, BEL among them, has
/// arrived: nothing of it is yielded.
pub proof fn law_discarded_strings_yield_nothing(scanner: ScannerModel, bytes: Seq<u8>)
    requires
        scanner.state == ScanModel::DiscardOsc(false),
        ends_no_string(bytes),
        !bytes.contains(0x07),
    ensures
        scanner::scan(scanner, bytes).0.state == ScanModel::DiscardOsc(
            bytes.len() > 0 && bytes.last() == 0x1b,
        ),
        scanner::scan(scanner, bytes).1 == Seq::<PacketModel>::empty(),
    decreases bytes.len(),
{
    if bytes.len() > 0 {
        lemma_ends_no_string_prefix(bytes);
        let prefix = bytes.drop_last();
        assert(!prefix.contains(0x07)) by {
            if prefix.contains(0x07) {
                let i = choose|i: int| 0 <= i < prefix.len() && prefix[i] == 0x07;
                assert(bytes[i] == 0x07);
            }
        }
        law_discarded_strings_yield_nothing(scanner, prefix);
        assert(bytes.last() == bytes[bytes.len() - 1]);
        let none = Seq::<PacketModel>::empty();
        assert(none + none =~= none);
    }
}

} // verus!
