//! What the scanner and the extractor make of control strings, of those of a transfer and of all
//! others.
use vstd::prelude::*;
use vstd::utf8::{encode_scalar, encode_utf8};

use crate::extractor;
use crate::extractor::{Effect, ExtractorModel, Gathered, InputModel, ItemModel};
use crate::extractor_laws;
use crate::frame;
use crate::frame_laws;
use crate::input_laws;
use crate::scanner;
use crate::scanner::{PacketModel, ScanModel, ScannerModel};
use crate::scanner_laws;
use crate::text_laws;

verus! {

/// The beginning of a DCS, SOS, PM or APC string: `ESC P`, `ESC X`, `ESC ^`, `ESC _`, or the C1
/// control that stands for it.
pub open spec fn opens_string(opener: Seq<u8>) -> bool {
    ||| opener == seq![0x1bu8, 0x50u8]
    ||| opener == seq![0x1bu8, 0x58u8]
    ||| opener == seq![0x1bu8, 0x5eu8]
    ||| opener == seq![0x1bu8, 0x5fu8]
    ||| opener == seq![0x90u8]
    ||| opener == seq![0x98u8]
    ||| opener == seq![0x9eu8]
    ||| opener == seq![0x9fu8]
}

/// The end of such a string: `ESC \` or the C1 control that stands for it.
pub open spec fn closes_string(closer: Seq<u8>) -> bool {
    closer == seq![0x1bu8, 0x5cu8] || closer == seq![0x9cu8]
}

/// The beginning of an OSC string: `ESC ]` or the C1 control that stands for it.
pub open spec fn opens_command(opener: Seq<u8>) -> bool {
    opener == seq![0x1bu8, 0x5du8] || opener == seq![0x9du8]
}

/// The end of an OSC string: BEL, `ESC \` or the C1 control that stands for it.
pub open spec fn closes_command(closer: Seq<u8>) -> bool {
    closer == seq![0x07u8] || closer == seq![0x1bu8, 0x5cu8] || closer == seq![0x9cu8]
}

/// Whether all bytes are ASCII.
pub open spec fn is_ascii(bytes: Seq<u8>) -> bool {
    forall|i: int| 0 <= i < bytes.len() ==> #[trigger] bytes[i] < 0x80
}

/// Whether bytes hold neither an ESC nor a control that ends an OSC string: BEL, CAN, SUB and the
/// C1 terminator.
pub open spec fn is_quiet(bytes: Seq<u8>) -> bool {
    forall|i: int|
        0 <= i < bytes.len() ==> {
            let byte = #[trigger] bytes[i];
            byte != 0x07 && byte != 0x18 && byte != 0x1a && byte != 0x1b && byte != 0x9c
        }
}

/// ASCII leaves no byte of a character to come.
proof fn lemma_ascii_is_scanned(scanner: ScannerModel, bytes: Seq<u8>)
    requires
        is_ascii(bytes),
        scanner.utf8_remaining == 0,
    ensures
        scanner::scan(scanner, bytes).0.utf8_remaining == 0,
    decreases bytes.len(),
{
    if bytes.len() > 0 {
        let prefix = bytes.drop_last();
        assert forall|i: int| 0 <= i < prefix.len() implies #[trigger] prefix[i] < 0x80 by {
            assert(prefix[i] == bytes[i]);
        }
        lemma_ascii_is_scanned(scanner, prefix);
        assert(bytes[bytes.len() - 1] < 0x80);
    }
}

/// Two bytes, one after the other.
proof fn lemma_scan_two(scanner: ScannerModel, bytes: Seq<u8>)
    requires
        bytes.len() == 2,
    ensures
        ({
            let (first, some) = scanner::scan_byte(scanner, bytes[0]);
            let (second, more) = scanner::scan_byte(first, bytes[1]);
            scanner::scan(scanner, bytes) == (second, some + more)
        }),
{
    lemma_scan_one(scanner, bytes.drop_last());
    assert(bytes.drop_last()[0] == bytes[0]);
    assert(bytes.last() == bytes[1]);
}

proof fn lemma_scan_one(scanner: ScannerModel, bytes: Seq<u8>)
    requires
        bytes.len() == 1,
    ensures
        scanner::scan(scanner, bytes) == scanner::scan_byte(scanner, bytes[0]),
{
    let none = Seq::<PacketModel>::empty();
    assert(bytes.drop_last() =~= Seq::<u8>::empty());
    assert(scanner::scan(scanner, bytes.drop_last()) == (scanner, none));
    let more = scanner::scan_byte(scanner, bytes[0]).1;
    assert(none + more =~= more);
}

/// The beginning of a string takes the scanner into one.
proof fn lemma_string_is_opened(scanner: ScannerModel, opener: Seq<u8>)
    requires
        scanner.state == ScanModel::Ground,
        scanner.utf8_remaining == 0 || opener[0] == 0x1b,
        opens_string(opener),
    ensures
        scanner::scan(scanner, opener) == (
            ScannerModel { state: ScanModel::String, utf8_remaining: 0 },
            Seq::<PacketModel>::empty(),
        ),
{
    let none = Seq::<PacketModel>::empty();
    assert(none + none =~= none);
    if opener.len() == 1 {
        lemma_scan_one(scanner, opener);
    } else {
        lemma_scan_two(scanner, opener);
    }
}

/// The end of a string takes the scanner out of it.
proof fn lemma_string_is_closed(scanner: ScannerModel, closer: Seq<u8>)
    requires
        scanner.state is String || scanner.state is StringEscape,
        closes_string(closer),
        closer.len() == 1 ==> scanner.utf8_remaining == 0,
    ensures
        scanner::scan(scanner, closer) == (
            scanner::initial_scanner(),
            Seq::<PacketModel>::empty(),
        ),
{
    let none = Seq::<PacketModel>::empty();
    assert(none + none =~= none);
    if closer.len() == 1 {
        lemma_scan_one(scanner, closer);
    } else {
        lemma_scan_two(scanner, closer);
    }
}

/// A DCS, SOS, PM or APC string is skipped, whatever it holds and however much that looks like a
/// frame: it yields nothing, and behind it the scanner is where it was before.
pub proof fn law_strings_are_skipped(
    scanner: ScannerModel,
    opener: Seq<u8>,
    content: Seq<u8>,
    closer: Seq<u8>,
)
    requires
        scanner.state == ScanModel::Ground,
        scanner.utf8_remaining == 0 || opener[0] == 0x1b,
        opens_string(opener),
        scanner_laws::ends_no_string(content),
        closes_string(closer),
        closer.len() == 1 ==> is_ascii(content),
    ensures
        scanner::scan(scanner, opener + content + closer) == (
            scanner::initial_scanner(),
            Seq::<PacketModel>::empty(),
        ),
{
    let none = Seq::<PacketModel>::empty();
    assert(none + none =~= none);
    lemma_string_is_opened(scanner, opener);
    let opened = scanner::scan(scanner, opener).0;
    scanner_laws::law_strings_yield_nothing(opened, content);
    let filled = scanner::scan(opened, content).0;
    if closer.len() == 1 {
        lemma_ascii_is_scanned(opened, content);
    }
    lemma_string_is_closed(filled, closer);
    scanner_laws::law_scan_is_independent_of_cuts(scanner, opener, content);
    scanner_laws::law_scan_is_independent_of_cuts(scanner, opener + content, closer);
}

/// What the scanner has made of the beginning of an OSC string: it collects it, or has given it up
/// for good reason, as it cannot be a frame or is too long for one.
#[verifier::opaque]
spec fn is_collected(scanner: ScannerModel, opener: Seq<u8>, content: Seq<u8>) -> bool {
    let raw = opener + content;
    &&& is_ascii(content) ==> scanner.utf8_remaining == 0
    &&& scanner.state == ScanModel::Osc(raw) || (scanner.state == ScanModel::DiscardOsc(false) && (
    raw.len() > 65536 || exists|k: int|
        0 <= k <= raw.len() && !frame::may_be_transfer(#[trigger] raw.take(k))))
}

proof fn lemma_command_opens(scanner: ScannerModel, opener: Seq<u8>)
    requires
        scanner.state == ScanModel::Ground,
        scanner.utf8_remaining == 0 || opener[0] == 0x1b,
        opens_command(opener),
    ensures
        is_collected(scanner::scan(scanner, opener).0, opener, Seq::empty()),
        scanner::scan(scanner, opener).1 == Seq::<PacketModel>::empty(),
{
    reveal(is_collected);
    let none = Seq::<PacketModel>::empty();
    assert(none + none =~= none);
    assert(opener + Seq::<u8>::empty() =~= opener);
    if opener.len() == 1 {
        lemma_scan_one(scanner, opener);
        assert(seq![opener[0]] =~= opener);
    } else {
        lemma_scan_two(scanner, opener);
        assert(seq![0x1bu8, opener[1]] =~= opener);
    }
}

/// One more byte of the content of an OSC string.
proof fn lemma_command_byte(scanner: ScannerModel, opener: Seq<u8>, content: Seq<u8>, byte: u8)
    requires
        is_collected(scanner, opener, content),
        byte != 0x07 && byte != 0x18 && byte != 0x1a && byte != 0x1b,
        byte != 0x9c || scanner.utf8_remaining > 0,
    ensures
        is_collected(scanner::scan_byte(scanner, byte).0, opener, content.push(byte)),
        scanner::scan_byte(scanner, byte).1 == Seq::<PacketModel>::empty(),
{
    reveal(is_collected);
    let part = opener + content;
    let raw = opener + content.push(byte);
    assert(part.push(byte) =~= raw);
    assert(raw.take(raw.len() as int) =~= raw);
    if is_ascii(content.push(byte)) {
        assert(content.push(byte)[content.len() as int] < 0x80);
        assert forall|i: int| 0 <= i < content.len() implies #[trigger] content[i] < 0x80 by {
            assert(content.push(byte)[i] == content[i]);
        }
    }
    if scanner.state == ScanModel::DiscardOsc(false) && part.len() <= 65536 {
        let k = choose|k: int|
            0 <= k <= part.len() && !frame::may_be_transfer(#[trigger] part.take(k));
        assert(raw.take(k) =~= part.take(k));
    }
}

proof fn lemma_command_content(scanner: ScannerModel, opener: Seq<u8>, content: Seq<u8>)
    requires
        scanner.state == ScanModel::Ground,
        scanner.utf8_remaining == 0 || opener[0] == 0x1b,
        opens_command(opener),
        is_quiet(content),
    ensures
        is_collected(scanner::scan(scanner, opener + content).0, opener, content),
        scanner::scan(scanner, opener + content).1 == Seq::<PacketModel>::empty(),
    decreases content.len(),
{
    let raw = opener + content;
    let none = Seq::<PacketModel>::empty();
    assert(none + none =~= none);
    if content.len() == 0 {
        assert(raw =~= opener);
        assert(content =~= Seq::<u8>::empty());
        lemma_command_opens(scanner, opener);
    } else {
        let prefix = content.drop_last();
        let byte = content.last();
        lemma_quiet_prefix(content);
        lemma_command_content(scanner, opener, prefix);
        assert(raw.drop_last() =~= opener + prefix);
        assert(raw.last() == byte);
        assert(prefix.push(byte) =~= content);
        lemma_command_byte(scanner::scan(scanner, opener + prefix).0, opener, prefix, byte);
    }
}

/// An OSC string is over with its end, whatever it held: it yields the one frame that it is, or
/// nothing where it is none, be it malformed, too long or about something else. Behind it the
/// scanner is where it was before.
pub proof fn law_commands_are_closed(
    scanner: ScannerModel,
    opener: Seq<u8>,
    content: Seq<u8>,
    closer: Seq<u8>,
)
    requires
        scanner.state == ScanModel::Ground,
        scanner.utf8_remaining == 0 || opener[0] == 0x1b,
        opens_command(opener),
        is_quiet(content),
        closes_command(closer),
        closer == seq![0x9cu8] ==> is_ascii(content),
    ensures
        ({
            let raw = opener + content + closer;
            scanner::scan(scanner, raw) == (
                scanner::initial_scanner(),
                match frame::frame_of(raw) {
                    Some((action, id)) => seq![PacketModel { raw, action, id }],
                    None => Seq::<PacketModel>::empty(),
                },
            )
        }),
{
    let part = opener + content;
    let raw = part + closer;
    let none = Seq::<PacketModel>::empty();
    let packets = scanner::yielded(Some(raw));
    assert(none + none =~= none);
    assert(none + packets =~= packets);
    lemma_command_content(scanner, opener, content);
    reveal(is_collected);
    let filled = scanner::scan(scanner, part).0;
    lemma_scan_closes(filled, part, closer);
    scanner_laws::law_scan_is_independent_of_cuts(scanner, part, closer);
    if filled.state == ScanModel::DiscardOsc(false) && frame::frame_of(raw) is Some {
        lemma_given_up(part, closer);
    }
}

/// What was given up is no frame.
proof fn lemma_given_up(part: Seq<u8>, closer: Seq<u8>)
    requires
        part.len() > 65536 || exists|k: int|
            0 <= k <= part.len() && !frame::may_be_transfer(#[trigger] part.take(k)),
    ensures
        frame::frame_of(part + closer) is None,
{
    let raw = part + closer;
    if frame::frame_of(raw) is Some {
        frame_laws::lemma_frame_is_enclosed(raw);
        if part.len() <= 65536 {
            let k = choose|k: int|
                0 <= k <= part.len() && !frame::may_be_transfer(#[trigger] part.take(k));
            assert(raw.take(k) =~= part.take(k));
        }
    }
}

/// The end of an OSC string completes what was collected, and ends what was given up.
proof fn lemma_scan_closes(scanner: ScannerModel, part: Seq<u8>, closer: Seq<u8>)
    requires
        scanner.state == ScanModel::Osc(part) || scanner.state == ScanModel::DiscardOsc(false),
        closes_command(closer),
        closer == seq![0x9cu8] ==> scanner.utf8_remaining == 0,
    ensures
        scanner::scan(scanner, closer) == (
            scanner::initial_scanner(),
            if scanner.state == ScanModel::Osc(part) {
                scanner::yielded(Some(part + closer))
            } else {
                Seq::<PacketModel>::empty()
            },
        ),
{
    let raw = part + closer;
    let none = Seq::<PacketModel>::empty();
    let packets = scanner::yielded(Some(raw));
    assert(none + none =~= none);
    assert(none + packets =~= packets);
    if closer.len() == 1 {
        assert(part.push(closer[0]) =~= raw);
        lemma_scan_one(scanner, closer);
    } else {
        assert(part.push(0x1b).push(0x5c) =~= raw);
        lemma_scan_two(scanner, closer);
    }
}

/// `5113;`
pub open spec fn transfer_number() -> Seq<u8> {
    seq![0x35u8, 0x31u8, 0x31u8, 0x33u8, 0x3bu8]
}

/// An OSC string is one of a transfer exactly if its content begins with the number of transfers.
proof fn lemma_introduced(opener: Seq<u8>, content: Seq<u8>, rest: Seq<u8>)
    requires
        opens_command(opener),
        rest.len() > 0 ==> rest[0] == 0x07 || rest[0] == 0x1b || rest[0] == 0x9c,
    ensures
        frame::after_introducer(opener + content + rest) is Some
            <==> transfer_number().is_prefix_of(content),
        transfer_number().is_prefix_of(content) ==> forall|k: int|
            0 <= k <= (opener + content).len() ==> frame::may_be_transfer(
                #[trigger] (opener + content).take(k),
            ),
{
    let part = opener + content;
    let raw = part + rest;
    let n = opener.len() as int;
    let whole = opener + transfer_number();
    assert(frame::OSC_INTRODUCER@ =~= seq![0x1bu8, 0x5du8] + transfer_number());
    assert(frame::C1_INTRODUCER@ =~= seq![0x9du8] + transfer_number());
    if transfer_number().is_prefix_of(content) {
        assert(transfer_number() == content.subrange(0, 5));
        assert(whole =~= raw.subrange(0, n + 5));
        assert(whole =~= part.subrange(0, n + 5));
        assert forall|k: int| 0 <= k <= part.len() implies frame::may_be_transfer(
            #[trigger] part.take(k),
        ) by {
            if k < n + 5 {
                assert(part.take(k) =~= whole.subrange(0, k));
            } else {
                assert(whole =~= part.take(k).subrange(0, n + 5));
            }
        }
    }
    if frame::after_introducer(raw) is Some {
        let introducer = if frame::OSC_INTRODUCER@.is_prefix_of(raw) {
            frame::OSC_INTRODUCER@
        } else {
            frame::C1_INTRODUCER@
        };
        assert(introducer == raw.subrange(0, introducer.len() as int));
        assert(introducer[0] == raw[0]);
        assert(raw[0] == opener[0]);
        assert(introducer.len() == n + 5);
        assert(introducer.skip(n) =~= transfer_number());
        assert forall|i: int| 0 <= i < 5 implies i < content.len() && content[i]
            == transfer_number()[i] by {
            lemma_introducer_byte(introducer, raw, n, content, rest, i);
        }
        assert(transfer_number() =~= content.subrange(0, 5));
    }
}

/// A byte of an introducer stands in the content, not in what follows it.
proof fn lemma_introducer_byte(
    introducer: Seq<u8>,
    raw: Seq<u8>,
    n: int,
    content: Seq<u8>,
    rest: Seq<u8>,
    i: int,
)
    requires
        0 <= i < 5,
        0 < n,
        introducer.len() == n + 5,
        introducer.skip(n) == transfer_number(),
        raw.len() == n + content.len() + rest.len(),
        raw.len() >= n + 5,
        introducer == raw.subrange(0, n + 5),
        forall|j: int| 0 <= j < content.len() ==> #[trigger] raw[n + j] == content[j],
        rest.len() > 0 ==> raw[(n + content.len()) as int] == rest[0],
        rest.len() > 0 ==> rest[0] == 0x07 || rest[0] == 0x1b || rest[0] == 0x9c,
    ensures
        i < content.len(),
        content[i] == transfer_number()[i],
{
    if content.len() < 5 {
        let k = content.len() as int;
        assert(raw[n + k] == introducer[n + k]);
        assert(introducer.skip(n)[k] == introducer[n + k]);
        assert(transfer_number()[k] != rest[0]);
    } else {
        assert(raw[n + i] == introducer[n + i]);
        assert(introducer.skip(n)[i] == introducer[n + i]);
    }
}

/// What the extractor has made of the beginning of an OSC string: it holds it, passes it on because
/// it is not one of a transfer, or drops it because it is too long for one.
#[verifier::opaque]
spec fn is_underway(
    extractor: ExtractorModel,
    opener: Seq<u8>,
    content: Seq<u8>,
    after: ExtractorModel,
    gathered: Gathered,
) -> bool {
    let raw = opener + content;
    &&& after == (ExtractorModel {
        state: after.state,
        utf8_remaining: after.utf8_remaining,
        ..extractor
    })
    &&& is_ascii(content) ==> after.utf8_remaining == 0
    &&& gathered.items == Seq::<ItemModel>::empty()
    &&& {
        ||| {
            &&& after.state == InputModel::Osc(raw)
            &&& gathered.plain == Seq::<u8>::empty()
            &&& frame::may_be_transfer(raw)
        }
        ||| {
            &&& after.state == InputModel::PassthroughOsc(false)
            &&& gathered.plain == raw
            &&& exists|k: int|
                0 <= k <= raw.len() && !frame::may_be_transfer(#[trigger] raw.take(k))
        }
        ||| {
            &&& after.state == InputModel::DiscardOsc(false)
            &&& gathered.plain == Seq::<u8>::empty()
            &&& transfer_number().is_prefix_of(content)
            &&& raw.len() > 65536
        }
    }
}

proof fn lemma_openers_may_be_transfers(opener: Seq<u8>)
    requires
        opens_command(opener),
    ensures
        frame::may_be_transfer(opener),
{
    assert(seq![0x9du8] =~= frame::C1_INTRODUCER@.subrange(0, 1));
    assert(seq![0x1bu8, 0x5du8] =~= frame::OSC_INTRODUCER@.subrange(0, 2));
}

/// The two bytes of an input, one after the other.
proof fn lemma_gather_two(extractor: ExtractorModel, bytes: Seq<u8>)
    requires
        bytes.len() == 2,
    ensures
        ({
            let (first, some) = extractor::extract_byte(extractor, bytes[0]);
            let (second, more) = extractor::extract_byte(first, bytes[1]);
            extractor::gather(extractor, bytes) == (
                second,
                extractor::with_effect(
                    extractor::with_effect(extractor::nothing_gathered(), some),
                    more,
                ),
            )
        }),
{
    lemma_gather_one(extractor, bytes.drop_last());
    assert(bytes.drop_last()[0] == bytes[0]);
    assert(bytes.last() == bytes[1]);
}

proof fn lemma_gather_one(extractor: ExtractorModel, bytes: Seq<u8>)
    requires
        bytes.len() == 1,
    ensures
        ({
            let (first, some) = extractor::extract_byte(extractor, bytes[0]);
            extractor::gather(extractor, bytes) == (
                first,
                extractor::with_effect(extractor::nothing_gathered(), some),
            )
        }),
{
    assert(bytes.drop_last() =~= Seq::<u8>::empty());
    assert(extractor::gather(extractor, bytes.drop_last()) == (
        extractor,
        extractor::nothing_gathered(),
    ));
}

/// What agrees with an introducer begins like the content of a transfer, as far as it goes.
proof fn lemma_long_content(opener: Seq<u8>, content: Seq<u8>)
    requires
        opens_command(opener),
        frame::may_be_transfer(opener + content),
        (opener + content).len() >= 7,
    ensures
        transfer_number().is_prefix_of(content),
{
    let none = Seq::<u8>::empty();
    let raw = opener + content;
    assert(raw + none =~= raw);
    if raw.is_prefix_of(frame::OSC_INTRODUCER@) {
        assert(raw =~= frame::OSC_INTRODUCER@);
        assert(frame::OSC_INTRODUCER@ =~= raw.subrange(0, 7));
    }
    lemma_introduced(opener, content, none);
}

proof fn lemma_prefix_of_more(part: Seq<u8>, byte: u8)
    ensures
        transfer_number().is_prefix_of(part) ==> transfer_number().is_prefix_of(part.push(byte)),
{
    if transfer_number().is_prefix_of(part) {
        assert(transfer_number() == part.subrange(0, 5));
        assert(transfer_number() =~= part.push(byte).subrange(0, 5));
    }
}

proof fn lemma_input_content(extractor: ExtractorModel, opener: Seq<u8>, content: Seq<u8>)
    requires
        extractor.state == InputModel::Ground,
        !extractor.bracketed_paste,
        extractor.utf8_remaining == 0 || opener[0] == 0x1b,
        opens_command(opener),
        is_quiet(content),
    ensures
        ({
            let (after, gathered) = extractor::gather(extractor, opener + content);
            is_underway(extractor, opener, content, after, gathered)
        }),
    decreases content.len(),
{
    let raw = opener + content;
    if content.len() == 0 {
        assert(raw =~= opener);
        assert(content =~= Seq::<u8>::empty());
        lemma_input_opens(extractor, opener);
    } else {
        let prefix = content.drop_last();
        let byte = content.last();
        let part = opener + prefix;
        lemma_quiet_prefix(content);
        lemma_input_content(extractor, opener, prefix);
        assert(raw.drop_last() =~= part);
        assert(raw.last() == byte);
        assert(prefix.push(byte) =~= content);
        let (before, gathered) = extractor::gather(extractor, part);
        lemma_content_byte(extractor, opener, prefix, byte, before, gathered);
    }
}

proof fn lemma_quiet_prefix(content: Seq<u8>)
    requires
        content.len() > 0,
        is_quiet(content),
    ensures
        is_quiet(content.drop_last()),
        is_ascii(content) ==> is_ascii(content.drop_last()) && content.last() < 0x80,
        ({
            let byte = content.last();
            byte != 0x07 && byte != 0x18 && byte != 0x1a && byte != 0x1b && byte != 0x9c
        }),
{
    let prefix = content.drop_last();
    assert(content[content.len() - 1] == content.last());
    assert forall|i: int| 0 <= i < prefix.len() implies {
        let byte = #[trigger] prefix[i];
        byte != 0x07 && byte != 0x18 && byte != 0x1a && byte != 0x1b && byte != 0x9c
    } by {
        assert(prefix[i] == content[i]);
    }
    if is_ascii(content) {
        assert forall|i: int| 0 <= i < prefix.len() implies #[trigger] prefix[i] < 0x80 by {
            assert(prefix[i] == content[i]);
        }
    }
}

/// The opening bytes of an OSC string are held.
proof fn lemma_input_opens(extractor: ExtractorModel, opener: Seq<u8>)
    requires
        extractor.state == InputModel::Ground,
        !extractor.bracketed_paste,
        extractor.utf8_remaining == 0 || opener[0] == 0x1b,
        opens_command(opener),
    ensures
        ({
            let (after, gathered) = extractor::gather(extractor, opener);
            is_underway(extractor, opener, Seq::empty(), after, gathered)
        }),
{
    reveal(is_underway);
    reveal(extractor::extract_state);
    assert(opener + Seq::<u8>::empty() =~= opener);
    lemma_openers_may_be_transfers(opener);
    if opener.len() == 1 {
        lemma_gather_one(extractor, opener);
        assert(seq![opener[0]] =~= opener);
    } else {
        lemma_gather_two(extractor, opener);
        assert(seq![opener[0]].push(opener[1]) =~= opener);
    }
}

/// One more byte of the content of an OSC string.
proof fn lemma_content_byte(
    extractor: ExtractorModel,
    opener: Seq<u8>,
    content: Seq<u8>,
    byte: u8,
    before: ExtractorModel,
    gathered: Gathered,
)
    requires
        !extractor.bracketed_paste,
        opens_command(opener),
        is_underway(extractor, opener, content, before, gathered),
        byte != 0x07 && byte != 0x18 && byte != 0x1a && byte != 0x1b,
        byte != 0x9c || before.utf8_remaining > 0,
    ensures
        ({
            let (after, effect) = extractor::extract_byte(before, byte);
            is_underway(
                extractor,
                opener,
                content.push(byte),
                after,
                extractor::with_effect(gathered, effect),
            )
        }),
{
    reveal(is_underway);
    reveal(extractor::extract_state);
    let raw = opener + content;
    let more = opener + content.push(byte);
    let none = Seq::<u8>::empty();
    assert(raw.push(byte) =~= more);
    assert(none + more =~= more);
    assert(raw + seq![byte] =~= more);
    lemma_prefix_of_more(content, byte);
    if is_ascii(content.push(byte)) {
        assert(content.push(byte)[content.len() as int] < 0x80);
        assert forall|i: int| 0 <= i < content.len() implies #[trigger] content[i] < 0x80 by {
            assert(content.push(byte)[i] == content[i]);
        }
    }
    if before.state == InputModel::Osc(raw) {
        if raw.len() >= 65536 {
            lemma_long_content(opener, content);
        }
        assert(more.take(more.len() as int) =~= more);
    }
    if before.state == InputModel::PassthroughOsc(false) {
        let k = choose|k: int|
            0 <= k <= raw.len() && !frame::may_be_transfer(#[trigger] raw.take(k));
        assert(more.take(k) =~= raw.take(k));
    }
}

/// An OSC string of the outer terminal is over with its end, whatever it held. One that does not
/// begin with `5113;` is passed on as it is. One that does is never passed on: it is extracted
/// where it is a frame, and dropped where it is not, be it malformed or too long. Behind it the
/// extractor is where it was before.
pub proof fn law_input_commands_are_closed(
    extractor: ExtractorModel,
    opener: Seq<u8>,
    content: Seq<u8>,
    closer: Seq<u8>,
)
    requires
        extractor.state == InputModel::Ground,
        !extractor.bracketed_paste,
        extractor.utf8_remaining == 0 || opener[0] == 0x1b,
        opens_command(opener),
        is_quiet(content),
        closes_command(closer),
        closer == seq![0x9cu8] ==> is_ascii(content),
    ensures
        ({
            let raw = opener + content + closer;
            extractor::gather(extractor, raw) == (
                ExtractorModel { utf8_remaining: 0, ..extractor },
                if !transfer_number().is_prefix_of(content) {
                    Gathered { items: Seq::empty(), plain: raw }
                } else {
                    match frame::frame_of(raw) {
                        Some((action, id)) => Gathered {
                            items: seq![ItemModel::Transfer(PacketModel { raw, action, id })],
                            plain: Seq::empty(),
                        },
                        None => Gathered { items: Seq::empty(), plain: Seq::empty() },
                    }
                },
            )
        }),
{
    lemma_input_content(extractor, opener, content);
    reveal(is_underway);
    lemma_input_closes(extractor, opener + content, closer);
    let (before, gathered) = extractor::gather(extractor, opener + content);
    lemma_input_closed(extractor, opener, content, closer, before, gathered);
}

/// The end of an OSC string, behind what was gathered of it.
proof fn lemma_input_closes(extractor: ExtractorModel, part: Seq<u8>, closer: Seq<u8>)
    requires
        ({
            let before = extractor::gather(extractor, part).0;
            &&& before.state == InputModel::Osc(part) || before.state
                == InputModel::PassthroughOsc(false) || before.state == InputModel::DiscardOsc(
                false,
            )
            &&& !before.bracketed_paste
            &&& closer == seq![0x9cu8] ==> before.utf8_remaining == 0
        }),
        closes_command(closer),
    ensures
        ({
            let (before, gathered) = extractor::gather(extractor, part);
            extractor::gather(extractor, part + closer) == (
                ExtractorModel { state: InputModel::Ground, utf8_remaining: 0, ..before },
                closed(before.state, part, gathered, closer),
            )
        }),
{
    let raw = part + closer;
    let (before, gathered) = extractor::gather(extractor, part);
    if closer.len() == 1 {
        lemma_one_closes(before, part, gathered, closer[0]);
        assert(seq![closer[0]] =~= closer);
        assert(raw.drop_last() =~= part);
        assert(raw.last() == closer[0]);
    } else {
        let m = part.len() as int;
        lemma_two_close(before, part, gathered);
        assert(closer =~= seq![0x1bu8, 0x5cu8]);
        extractor_laws::lemma_gather_next(extractor, raw, m);
        extractor_laws::lemma_gather_next(extractor, raw, m + 1);
        assert(raw.take(m) =~= part);
        assert(raw.take(m + 2) =~= raw);
        assert(raw[m] == 0x1b);
        assert(raw[m + 1] == 0x5c);
    }
}

/// What a closed OSC string amounts to.
proof fn lemma_input_closed(
    extractor: ExtractorModel,
    opener: Seq<u8>,
    content: Seq<u8>,
    closer: Seq<u8>,
    before: ExtractorModel,
    gathered: Gathered,
)
    requires
        opens_command(opener),
        closes_command(closer),
        is_underway(extractor, opener, content, before, gathered),
    ensures
        ({
            let raw = opener + content + closer;
            closed(before.state, opener + content, gathered, closer) == (
            if !transfer_number().is_prefix_of(content) {
                Gathered { items: Seq::empty(), plain: raw }
            } else {
                match frame::frame_of(raw) {
                    Some((action, id)) => Gathered {
                        items: seq![ItemModel::Transfer(PacketModel { raw, action, id })],
                        plain: Seq::empty(),
                    },
                    None => Gathered { items: Seq::empty(), plain: Seq::empty() },
                }
            })
        }),
{
    reveal(is_underway);
    let part = opener + content;
    let raw = part + closer;
    let none = Seq::<u8>::empty();
    lemma_introduced(opener, content, closer);
    if before.state == InputModel::PassthroughOsc(false) {
        assert(!transfer_number().is_prefix_of(content));
    }
    if frame::frame_of(raw) is Some {
        assert(frame::after_introducer(raw) is Some);
    }
    assert(none + raw =~= raw);
    if let Some((action, id)) = frame::frame_of(raw) {
        let packet = ItemModel::Transfer(PacketModel { raw, action, id });
        assert(Seq::<ItemModel>::empty().push(packet) =~= seq![packet]);
    }
}

/// What the end of an OSC string adds to what was gathered.
spec fn closed(state: InputModel, part: Seq<u8>, gathered: Gathered, closer: Seq<u8>) -> Gathered {
    match state {
        InputModel::Osc(_) => extractor::with_effect(
            gathered,
            extractor::completed(part + closer),
        ),
        InputModel::PassthroughOsc(_) => Gathered {
            items: gathered.items,
            plain: gathered.plain + closer,
        },
        _ => gathered,
    }
}

proof fn lemma_one_closes(before: ExtractorModel, part: Seq<u8>, gathered: Gathered, byte: u8)
    requires
        before.state == InputModel::Osc(part) || before.state == InputModel::PassthroughOsc(false)
            || before.state == InputModel::DiscardOsc(false),
        !before.bracketed_paste,
        byte == 0x07 || (byte == 0x9c && before.utf8_remaining == 0),
    ensures
        ({
            let (after, effect) = extractor::extract_byte(before, byte);
            &&& after == (ExtractorModel {
                state: InputModel::Ground,
                utf8_remaining: 0,
                ..before
            })
            &&& extractor::with_effect(gathered, effect) == closed(
                before.state,
                part,
                gathered,
                seq![byte],
            )
        }),
{
    reveal(extractor::extract_state);
    assert(part.push(byte) =~= part + seq![byte]);
}

proof fn lemma_two_close(before: ExtractorModel, part: Seq<u8>, gathered: Gathered)
    requires
        before.state == InputModel::Osc(part) || before.state == InputModel::PassthroughOsc(false)
            || before.state == InputModel::DiscardOsc(false),
        !before.bracketed_paste,
    ensures
        ({
            let (middle, some) = extractor::extract_byte(before, 0x1b);
            let (after, more) = extractor::extract_byte(middle, 0x5c);
            &&& after == (ExtractorModel {
                state: InputModel::Ground,
                utf8_remaining: 0,
                ..before
            })
            &&& extractor::with_effect(extractor::with_effect(gathered, some), more) == closed(
                before.state,
                part,
                gathered,
                seq![0x1bu8, 0x5cu8],
            )
        }),
{
    reveal(extractor::extract_state);
    assert(part.push(0x1b).push(0x5c) =~= part + seq![0x1bu8, 0x5cu8]);
    assert(gathered.plain + seq![0x1bu8] + seq![0x5cu8] =~= gathered.plain + seq![0x1bu8, 0x5cu8]);
}

/// The content of a string is passed on byte by byte.
proof fn lemma_string_content(extractor: ExtractorModel, escaped: bool, content: Seq<u8>)
    requires
        extractor.state == InputModel::PassthroughString(escaped),
        !extractor.bracketed_paste,
        scanner_laws::ends_no_string(content),
        escaped && content.len() > 0 ==> content[0] != 0x5c,
    ensures
        ({
            let (after, gathered) = extractor::gather(extractor, content);
            &&& after == (ExtractorModel {
                state: InputModel::PassthroughString(
                    if content.len() > 0 {
                        content.last() == 0x1b
                    } else {
                        escaped
                    },
                ),
                utf8_remaining: after.utf8_remaining,
                ..extractor
            })
            &&& is_ascii(content) && extractor.utf8_remaining == 0 ==> after.utf8_remaining == 0
            &&& gathered == (Gathered { items: Seq::empty(), plain: content })
        }),
    decreases content.len(),
{
    if content.len() > 0 {
        let prefix = content.drop_last();
        let byte = content.last();
        assert(content[content.len() - 1] == byte);
        assert forall|i: int| 0 <= i < prefix.len() implies {
            let byte = #[trigger] prefix[i];
            byte != 0x9c && byte != 0x18 && byte != 0x1a
        } by {
            assert(prefix[i] == content[i]);
        }
        assert forall|i: int| 0 < i < prefix.len() && #[trigger] prefix[i]
            == 0x5c implies prefix[i - 1] != 0x1b by {
            assert(prefix[i] == content[i]);
        }
        if is_ascii(content) {
            assert forall|i: int| 0 <= i < prefix.len() implies #[trigger] prefix[i] < 0x80 by {
                assert(prefix[i] == content[i]);
            }
        }
        lemma_string_content(extractor, escaped, prefix);
        reveal(extractor::extract_state);
        assert(prefix + seq![byte] =~= content);
        if content.len() > 1 {
            assert(byte == 0x5c ==> content[content.len() - 2] != 0x1b);
            assert(prefix.last() == content[content.len() - 2]);
            assert(prefix[0] == content[0]);
        }
    }
}

/// The end of a string is passed on, and leaves the extractor outside of controls.
proof fn lemma_string_closes(extractor: ExtractorModel, escaped: bool, closer: Seq<u8>)
    requires
        extractor.state == InputModel::PassthroughString(escaped),
        !extractor.bracketed_paste,
        closes_string(closer),
        closer.len() == 1 ==> extractor.utf8_remaining == 0,
    ensures
        extractor::gather(extractor, closer) == (
            ExtractorModel { state: InputModel::Ground, utf8_remaining: 0, ..extractor },
            Gathered { items: Seq::empty(), plain: closer },
        ),
{
    reveal(extractor::extract_state);
    let none = Seq::<u8>::empty();
    if closer.len() == 1 {
        lemma_gather_one(extractor, closer);
        assert(none + seq![closer[0]] =~= closer);
    } else {
        lemma_gather_two(extractor, closer);
        assert(none + seq![closer[0]] + seq![closer[1]] =~= closer);
    }
}

/// Once it is known that a string is none of a transfer, what is left of it is passed on as it is,
/// up to its end and with it, however much it looks like a frame.
pub proof fn law_rest_of_a_string_is_passed_on(
    extractor: ExtractorModel,
    escaped: bool,
    content: Seq<u8>,
    closer: Seq<u8>,
)
    requires
        extractor.state == InputModel::PassthroughString(escaped),
        !extractor.bracketed_paste,
        scanner_laws::ends_no_string(content),
        escaped && content.len() > 0 ==> content[0] != 0x5c,
        closes_string(closer),
        closer.len() == 1 ==> is_ascii(content) && extractor.utf8_remaining == 0,
    ensures
        extractor::gather(extractor, content + closer) == (
            ExtractorModel { state: InputModel::Ground, utf8_remaining: 0, ..extractor },
            Gathered { items: Seq::empty(), plain: content + closer },
        ),
{
    lemma_string_content(extractor, escaped, content);
    let filled = extractor::gather(extractor, content).0;
    let ends_escaped = if content.len() > 0 {
        content.last() == 0x1b
    } else {
        escaped
    };
    lemma_string_closes(filled, ends_escaped, closer);
    text_laws::lemma_gather_on(extractor, content, closer);
}

/// The beginning of a string is held until something follows it.
proof fn lemma_string_opens(extractor: ExtractorModel, opener: Seq<u8>)
    requires
        extractor.state == InputModel::Ground,
        !extractor.bracketed_paste,
        extractor.utf8_remaining == 0 || opener[0] == 0x1b,
        opens_string(opener),
    ensures
        extractor::gather(extractor, opener) == (
            ExtractorModel { state: InputModel::String(opener), utf8_remaining: 0, ..extractor },
            extractor::nothing_gathered(),
        ),
{
    reveal(extractor::extract_state);
    if opener.len() == 1 {
        lemma_gather_one(extractor, opener);
        assert(seq![opener[0]] =~= opener);
    } else {
        lemma_gather_two(extractor, opener);
        assert(seq![opener[0]].push(opener[1]) =~= opener);
    }
}

/// The first byte behind the beginning of a string is passed on with it.
proof fn lemma_string_goes_on(extractor: ExtractorModel, opener: Seq<u8>, byte: u8)
    requires
        extractor.state == InputModel::String(opener),
        !extractor.bracketed_paste,
        byte != 0x18 && byte != 0x1a,
        extractor.utf8_remaining == 0,
    ensures
        extractor::extract_byte(extractor, byte) == (
            ExtractorModel {
                state: if byte == 0x9c {
                    InputModel::Ground
                } else {
                    InputModel::PassthroughString(byte == 0x1b)
                },
                utf8_remaining: scanner::remaining_after(0, byte),
                ..extractor
            },
            Effect::Plain(opener.push(byte)),
        ),
{
    reveal(extractor::extract_state);
}

/// A DCS, SOS, PM or APC string is passed on as it is, whatever it holds and however much that looks
/// like a frame. Behind it the extractor is where it was before.
pub proof fn law_strings_are_passed_on(
    extractor: ExtractorModel,
    opener: Seq<u8>,
    content: Seq<u8>,
    closer: Seq<u8>,
)
    requires
        extractor.state == InputModel::Ground,
        !extractor.bracketed_paste,
        extractor.utf8_remaining == 0 || opener[0] == 0x1b,
        opens_string(opener),
        scanner_laws::ends_no_string(content),
        closes_string(closer),
        closer.len() == 1 ==> is_ascii(content),
    ensures
        extractor::gather(extractor, opener + content + closer) == (
            ExtractorModel { utf8_remaining: 0, ..extractor },
            Gathered { items: Seq::empty(), plain: opener + content + closer },
        ),
{
    let tail = content + closer;
    let raw = opener + content + closer;
    let none = Seq::<u8>::empty();
    assert(opener + tail =~= raw);
    lemma_string_opens(extractor, opener);
    let opened = extractor::gather(extractor, opener).0;
    let byte = tail[0];
    if content.len() > 0 {
        assert(content[0] == byte);
    } else {
        assert(closer[0] == byte);
    }
    lemma_string_goes_on(opened, opener, byte);
    let head = seq![byte];
    lemma_gather_one(opened, head);
    assert(none + opener.push(byte) =~= opener + head);
    let (begun, gathered) = extractor::gather(opened, head);
    let whole = opener + head;
    text_laws::lemma_gather_on(extractor, opener, head);
    assert(none + (opener + head) =~= opener + head);
    if content.len() == 0 && closer.len() == 1 {
        assert(raw =~= opener + head);
    } else if content.len() == 0 {
        let last = seq![0x5cu8];
        assert(closer =~= head + last);
        assert(raw =~= whole + last);
        lemma_escaped_string_closes(begun);
        text_laws::lemma_gather_on(extractor, whole, last);
    } else {
        let rest = content.skip(1);
        assert(whole + (rest + closer) =~= raw);
        lemma_ends_no_string_rest(content);
        if is_ascii(content) {
            assert forall|i: int| 0 <= i < rest.len() implies #[trigger] rest[i] < 0x80 by {
                assert(rest[i] == content[i + 1]);
            }
            assert(content[0] < 0x80);
        }
        if rest.len() > 0 {
            assert(content[1] == 0x5c ==> content[0] != 0x1b);
            assert(rest[0] == content[1]);
        }
        law_rest_of_a_string_is_passed_on(begun, byte == 0x1b, rest, closer);
        text_laws::lemma_gather_on(extractor, whole, rest + closer);
    }
}

/// `\` ends a string whose last byte was ESC.
proof fn lemma_escaped_string_closes(extractor: ExtractorModel)
    requires
        extractor.state == InputModel::PassthroughString(true),
        !extractor.bracketed_paste,
    ensures
        extractor::gather(extractor, seq![0x5cu8]) == (
            ExtractorModel { state: InputModel::Ground, utf8_remaining: 0, ..extractor },
            Gathered { items: Seq::empty(), plain: seq![0x5cu8] },
        ),
{
    reveal(extractor::extract_state);
    lemma_gather_one(extractor, seq![0x5cu8]);
    assert(Seq::<u8>::empty() + seq![0x5cu8] =~= seq![0x5cu8]);
}

proof fn lemma_ends_no_string_rest(content: Seq<u8>)
    requires
        content.len() > 0,
        scanner_laws::ends_no_string(content),
    ensures
        scanner_laws::ends_no_string(content.skip(1)),
{
    let rest = content.skip(1);
    assert forall|i: int| 0 <= i < rest.len() implies {
        let byte = #[trigger] rest[i];
        byte != 0x9c && byte != 0x18 && byte != 0x1a
    } by {
        assert(rest[i] == content[i + 1]);
    }
    assert forall|i: int| 0 < i < rest.len() && #[trigger] rest[i] == 0x5c implies rest[i - 1]
        != 0x1b by {
        assert(rest[i] == content[i + 1]);
        assert(rest[i - 1] == content[i]);
    }
}

/// Outside of controls a byte is one of a control, begins a character, or is nothing to the
/// scanner: it then leaves the scanner as it was before.
pub proof fn law_other_bytes_are_skipped(byte: u8)
    requires
        byte != 0x1b && byte != 0x9d,
        byte != 0x90 && byte != 0x98 && byte != 0x9e && byte != 0x9f,
        byte < 0xc2 || byte > 0xf4,
    ensures
        scanner::scan(scanner::initial_scanner(), seq![byte]) == (
            scanner::initial_scanner(),
            Seq::<PacketModel>::empty(),
        ),
{
    lemma_scan_one(scanner::initial_scanner(), seq![byte]);
}

/// After an ESC, a byte that opens no string ends the matter. Another ESC begins anew.
pub proof fn law_other_escapes_are_skipped(scanner: ScannerModel, byte: u8)
    requires
        scanner.state == ScanModel::Ground,
        byte != 0x5d && byte != 0x50 && byte != 0x58 && byte != 0x5e && byte != 0x5f,
    ensures
        ({
            let (after, packets) = scanner::scan(scanner, seq![0x1bu8, byte]);
            &&& packets == Seq::<PacketModel>::empty()
            &&& after.state == (if byte == 0x1b {
                ScanModel::Escape
            } else {
                ScanModel::Ground
            })
        }),
{
    let none = Seq::<PacketModel>::empty();
    assert(none + none =~= none);
    lemma_scan_two(scanner, seq![0x1bu8, byte]);
}

/// A frame that begins with ESC is recognised behind an ESC as well.
pub proof fn law_frame_behind_an_escape_is_recognised(scanner: ScannerModel, raw: Seq<u8>)
    requires
        frame::frame_of(raw) is Some,
        raw[0] == 0x1b,
        scanner.state == ScanModel::Escape,
    ensures
        scanner::scan(scanner, raw) == (
            scanner::initial_scanner(),
            seq![scanner::packet_of(raw)->0],
        ),
{
    let fresh = scanner::initial_scanner();
    let head = raw.take(1);
    let rest = raw.skip(1);
    frame_laws::lemma_frame_is_enclosed(raw);
    assert(head + rest =~= raw);
    lemma_scan_one(scanner, head);
    lemma_scan_one(fresh, head);
    scanner_laws::law_scan_is_independent_of_cuts(scanner, head, rest);
    scanner_laws::law_scan_is_independent_of_cuts(fresh, head, rest);
    scanner_laws::law_complete_frame_is_recognised(fresh, raw);
}

/// A frame that begins with ESC is extracted behind a control that is not complete as well, and
/// what was held of that is passed on before it.
pub proof fn law_frame_behind_a_sequence_is_extracted(extractor: ExtractorModel, raw: Seq<u8>)
    requires
        frame::frame_of(raw) is Some,
        raw[0] == 0x1b,
        extractor.state is Escape || extractor.state is Csi,
        extractor_laws::held_bytes(extractor.state).len() > 0,
        !extractor.bracketed_paste,
    ensures
        extractor_laws::gathered_items(extractor, raw) == seq![
            ItemModel::Input(extractor_laws::held_bytes(extractor.state)),
            ItemModel::Transfer(scanner::packet_of(raw)->0),
        ],
        extractor::gather(extractor, raw).0 == (ExtractorModel {
            state: InputModel::Ground,
            utf8_remaining: 0,
            ..extractor
        }),
{
    let held = extractor_laws::held_bytes(extractor.state);
    let fresh = ExtractorModel { state: InputModel::Ground, utf8_remaining: 0, ..extractor };
    let head = raw.take(1);
    let inner = raw.drop_last().skip(1);
    let none = Seq::<u8>::empty();
    frame_laws::lemma_frame_is_enclosed(raw);
    extractor_laws::lemma_frame_is_collected(fresh, raw);
    assert(head + inner =~= raw.drop_last());
    lemma_gather_one(extractor, head);
    lemma_gather_one(fresh, head);
    assert(extractor::gather(extractor, head) == (
        extractor::gather(fresh, head).0,
        Gathered { items: Seq::empty(), plain: held },
    )) by {
        reveal(extractor::extract_state);
        assert(none + held =~= held);
    }
    assert(extractor::gather(fresh, head).1 == extractor::nothing_gathered()) by {
        reveal(extractor::extract_state);
    }
    input_laws::lemma_quiet_tail(fresh, head, inner);
    text_laws::lemma_gather_on(extractor, head, inner);
    assert(held + none =~= held);
    assert(extractor_laws::gathered_items(extractor, raw) =~= seq![
        ItemModel::Input(held),
        ItemModel::Transfer(scanner::packet_of(raw)->0),
    ]);
}

/// Inside of an OSC string, an ESC with anything but `\`, BEL or the C1 terminator behind it ends
/// nothing and begins nothing: the string goes on with both.
pub proof fn law_escapes_inside_a_command_go_on(scanner: ScannerModel, raw: Seq<u8>, byte: u8)
    requires
        scanner.state == ScanModel::Osc(raw),
        byte != 0x5c && byte != 0x07 && byte != 0x9c && byte != 0x18 && byte != 0x1a,
    ensures
        ({
            let (after, packets) = scanner::scan(scanner, seq![0x1bu8, byte]);
            &&& packets == Seq::<PacketModel>::empty()
            &&& after.state == ScanModel::Osc(raw + seq![0x1bu8, byte]) || after.state
                == ScanModel::DiscardOsc(false)
        }),
{
    let none = Seq::<PacketModel>::empty();
    assert(none + none =~= none);
    lemma_scan_two(scanner, seq![0x1bu8, byte]);
    assert(raw.push(0x1b).push(byte) =~= raw + seq![0x1bu8, byte]);
}

/// The same holds of the extractor: the string goes on, is passed on with both, or is dropped with
/// both.
pub proof fn law_escapes_inside_an_input_command_go_on(
    extractor: ExtractorModel,
    raw: Seq<u8>,
    byte: u8,
)
    requires
        extractor.state == InputModel::Osc(raw),
        !extractor.bracketed_paste,
        byte != 0x5c && byte != 0x07 && byte != 0x9c && byte != 0x18 && byte != 0x1a,
    ensures
        ({
            let (after, gathered) = extractor::gather(extractor, seq![0x1bu8, byte]);
            let whole = raw + seq![0x1bu8, byte];
            &&& gathered.items == Seq::<ItemModel>::empty()
            &&& {
                ||| after.state == InputModel::Osc(whole) && gathered.plain == Seq::<u8>::empty()
                ||| after.state == InputModel::PassthroughOsc(false) && gathered.plain == whole
                ||| after.state == InputModel::DiscardOsc(false) && gathered.plain
                    == Seq::<u8>::empty()
            }
        }),
{
    let none = Seq::<u8>::empty();
    let whole = raw + seq![0x1bu8, byte];
    let escaped = ExtractorModel {
        state: InputModel::OscEscape(raw.push(0x1b)),
        utf8_remaining: 0,
        ..extractor
    };
    assert(extractor::extract_byte(extractor, 0x1b) == (escaped, Effect::Nothing)) by {
        reveal(extractor::extract_state);
    }
    lemma_escaped_byte(escaped, raw.push(0x1b), byte);
    lemma_gather_two(extractor, seq![0x1bu8, byte]);
    assert(raw.push(0x1b).push(byte) =~= whole);
    assert(none + whole =~= whole);
}

proof fn lemma_escaped_byte(extractor: ExtractorModel, raw: Seq<u8>, byte: u8)
    requires
        extractor.state == InputModel::OscEscape(raw),
        !extractor.bracketed_paste,
        byte != 0x5c && byte != 0x07 && byte != 0x9c && byte != 0x18 && byte != 0x1a,
    ensures
        ({
            let (after, effect) = extractor::extract_byte(extractor, byte);
            ||| after.state == InputModel::Osc(raw.push(byte)) && effect == Effect::Nothing
            ||| after.state == InputModel::PassthroughOsc(false) && effect == Effect::Plain(
                raw.push(byte),
            )
            ||| after.state == InputModel::DiscardOsc(false) && effect == Effect::Nothing
        }),
{
    reveal(extractor::extract_state);
}

/// The beginning of a string is passed on when the input is idle, and the rest of the string is
/// passed on all the same: idleness makes no frame of what stands in it.
pub proof fn law_strings_survive_idleness(
    extractor: ExtractorModel,
    opener: Seq<u8>,
    content: Seq<u8>,
    closer: Seq<u8>,
)
    requires
        extractor.state == InputModel::Ground,
        !extractor.bracketed_paste,
        extractor.utf8_remaining == 0 || opener[0] == 0x1b,
        extractor.focus.pending_failure is None,
        opens_string(opener),
        scanner_laws::ends_no_string(content),
        closes_string(closer),
        closer.len() == 1 ==> is_ascii(content),
    ensures
        ({
            let (after, items) = extractor::idle(extractor::gather(extractor, opener).0);
            &&& items == seq![ItemModel::Input(opener)]
            &&& extractor::gather(after, content + closer) == (
                ExtractorModel { utf8_remaining: 0, ..extractor },
                Gathered { items: Seq::empty(), plain: content + closer },
            )
        }),
{
    lemma_string_opens(extractor, opener);
    let (after, items) = extractor::idle(extractor::gather(extractor, opener).0);
    assert(items =~= seq![ItemModel::Input(opener)]);
    law_rest_of_a_string_is_passed_on(after, false, content, closer);
}

/// A character that is not complete is forgotten as soon as a byte arrives that does not go on with
/// it: the byte is read as if nothing of a character had been there.
pub proof fn law_broken_characters_are_forgotten(
    scanner: ScannerModel,
    extractor: ExtractorModel,
    byte: u8,
)
    requires
        byte < 0x80 || byte > 0xbf,
    ensures
        scanner::scan_byte(scanner, byte) == scanner::scan_byte(
            ScannerModel { utf8_remaining: 0, ..scanner },
            byte,
        ),
        extractor::extract_byte(extractor, byte) == extractor::extract_byte(
            ExtractorModel { utf8_remaining: 0, ..extractor },
            byte,
        ),
{
}

/// An OSC string that cannot be one of a transfer is not held: it is passed on as it arrives.
pub proof fn law_other_commands_are_not_held(
    extractor: ExtractorModel,
    opener: Seq<u8>,
    content: Seq<u8>,
)
    requires
        extractor.state == InputModel::Ground,
        !extractor.bracketed_paste,
        extractor.utf8_remaining == 0 || opener[0] == 0x1b,
        opens_command(opener),
        is_quiet(content),
        content.len() > 0,
        content[0] != 0x35,
    ensures
        extractor::gather(extractor, opener + content).1 == (Gathered {
            items: Seq::empty(),
            plain: opener + content,
        }),
{
    let raw = opener + content;
    let n = opener.len() as int;
    lemma_input_content(extractor, opener, content);
    reveal(is_underway);
    assert(raw[n] == content[0]);
    assert(!transfer_number().is_prefix_of(content)) by {
        if transfer_number().is_prefix_of(content) {
            assert(transfer_number() == content.subrange(0, 5));
            assert(content.subrange(0, 5)[0] == content[0]);
        }
    }
    if frame::may_be_transfer(raw) {
        lemma_agreement(opener, content);
    }
}

proof fn lemma_agreement(opener: Seq<u8>, content: Seq<u8>)
    requires
        opens_command(opener),
        content.len() > 0,
        frame::may_be_transfer(opener + content),
    ensures
        content[0] == 0x35,
{
    let raw = opener + content;
    let n = opener.len() as int;
    let osc = frame::OSC_INTRODUCER@;
    let c1 = frame::C1_INTRODUCER@;
    assert(raw[0] == opener[0]);
    assert(raw[n] == content[0]);
    if osc.is_prefix_of(raw) {
        assert(osc == raw.subrange(0, 7));
        assert(osc[0] == raw[0] && osc[2] == raw[2]);
    } else if c1.is_prefix_of(raw) {
        assert(c1 == raw.subrange(0, 6));
        assert(c1[0] == raw[0] && c1[1] == raw[1]);
    } else if raw.is_prefix_of(osc) {
        assert(raw == osc.subrange(0, raw.len() as int));
        assert(osc[0] == raw[0]);
        assert(osc.subrange(0, raw.len() as int)[n] == osc[n]);
    } else {
        assert(raw == c1.subrange(0, raw.len() as int));
        assert(c1[0] == raw[0]);
        assert(c1.subrange(0, raw.len() as int)[n] == c1[n]);
    }
}

/// An OSC string that is none of a transfer is passed on up to its end: an ESC in it, with anything
/// but `\` behind it, ends nothing.
pub proof fn law_passed_on_commands_go_on(extractor: ExtractorModel, content: Seq<u8>)
    requires
        extractor.state == InputModel::PassthroughOsc(false),
        !extractor.bracketed_paste,
        scanner_laws::ends_no_string(content),
        !content.contains(0x07),
    ensures
        ({
            let (after, gathered) = extractor::gather(extractor, content);
            &&& after.state == InputModel::PassthroughOsc(
                content.len() > 0 && content.last() == 0x1b,
            )
            &&& !after.bracketed_paste
            &&& gathered == (Gathered { items: Seq::empty(), plain: content })
        }),
    decreases content.len(),
{
    if content.len() > 0 {
        let prefix = content.drop_last();
        lemma_shorter_content(content);
        law_passed_on_commands_go_on(extractor, prefix);
        reveal(extractor::extract_state);
        assert(prefix + seq![content.last()] =~= content);
    }
}

/// A frame that was given up is dropped up to its end in the same way.
pub proof fn law_dropped_commands_go_on(extractor: ExtractorModel, content: Seq<u8>)
    requires
        extractor.state == InputModel::DiscardOsc(false),
        !extractor.bracketed_paste,
        scanner_laws::ends_no_string(content),
        !content.contains(0x07),
    ensures
        ({
            let (after, gathered) = extractor::gather(extractor, content);
            &&& after.state == InputModel::DiscardOsc(content.len() > 0 && content.last() == 0x1b)
            &&& !after.bracketed_paste
            &&& gathered == (Gathered { items: Seq::empty(), plain: Seq::empty() })
        }),
    decreases content.len(),
{
    if content.len() > 0 {
        lemma_shorter_content(content);
        law_dropped_commands_go_on(extractor, content.drop_last());
        reveal(extractor::extract_state);
    }
}

proof fn lemma_shorter_content(content: Seq<u8>)
    requires
        content.len() > 0,
        scanner_laws::ends_no_string(content),
        !content.contains(0x07),
    ensures
        scanner_laws::ends_no_string(content.drop_last()),
        !content.drop_last().contains(0x07),
        content.last() != 0x07 && content.last() != 0x9c && content.last() != 0x18
            && content.last() != 0x1a,
        content.len() > 1 && content.last() == 0x5c ==> content.drop_last().last() != 0x1b,
{
    let prefix = content.drop_last();
    assert(content[content.len() - 1] == content.last());
    assert(content.contains(content.last()));
    assert forall|i: int| 0 <= i < prefix.len() implies {
        let byte = #[trigger] prefix[i];
        byte != 0x9c && byte != 0x18 && byte != 0x1a
    } by {
        assert(prefix[i] == content[i]);
    }
    assert forall|i: int| 0 < i < prefix.len() && #[trigger] prefix[i] == 0x5c implies prefix[i - 1]
        != 0x1b by {
        assert(prefix[i] == content[i]);
    }
    if prefix.contains(0x07) {
        let i = choose|i: int| 0 <= i < prefix.len() && prefix[i] == 0x07;
        assert(content[i] == 0x07);
    }
    if content.len() > 1 {
        assert(content[content.len() - 1] == 0x5c ==> content[content.len() - 2] != 0x1b);
        assert(prefix.last() == content[content.len() - 2]);
    }
}

/// An ESC right before the end of an OSC string makes it no frame, but BEL and the C1 terminator end
/// the string behind it all the same.
pub proof fn law_commands_end_behind_an_escape(scanner: ScannerModel, byte: u8)
    requires
        scanner.state is Osc || scanner.state is DiscardOsc,
        byte == 0x07 || byte == 0x9c,
    ensures
        scanner::scan(scanner, seq![0x1bu8, byte]) == (
            scanner::initial_scanner(),
            Seq::<PacketModel>::empty(),
        ),
{
    let none = Seq::<PacketModel>::empty();
    let end = seq![0x1bu8, byte];
    assert(none + none =~= none);
    lemma_scan_two(scanner, end);
    if let ScanModel::Osc(raw) = scanner.state {
        assert(raw.push(0x1b).push(byte) =~= raw + end);
        lemma_escape_is_in_no_frame(raw, byte);
    }
}

proof fn lemma_escape_is_in_no_frame(raw: Seq<u8>, byte: u8)
    requires
        byte == 0x07 || byte == 0x9c,
    ensures
        frame::frame_of(raw + seq![0x1bu8, byte]) is None,
{
    let whole = raw + seq![0x1bu8, byte];
    if frame::frame_of(whole) is Some {
        frame_laws::lemma_frame_is_enclosed(whole);
        let at = whole.len() - 2;
        assert(whole[at] == 0x1b);
        assert(whole.last() == byte);
        assert(frame_laws::closer_len(whole) == 1);
        if frame_laws::opener_len(whole) <= at {
            assert(frame::is_value_byte(whole[at]));
        }
    }
}

/// The same holds of the extractor. What was passed on is passed on with its end, what was dropped
/// is dropped with it, and what was held is passed on or dropped.
pub proof fn law_input_commands_end_behind_an_escape(extractor: ExtractorModel, byte: u8)
    requires
        extractor.state is Osc || extractor.state is PassthroughOsc || extractor.state is DiscardOsc,
        !extractor.bracketed_paste,
        byte == 0x07 || byte == 0x9c,
    ensures
        ({
            let end = seq![0x1bu8, byte];
            let (after, gathered) = extractor::gather(extractor, end);
            &&& after == (ExtractorModel {
                state: InputModel::Ground,
                utf8_remaining: 0,
                ..extractor
            })
            &&& gathered.items == Seq::<ItemModel>::empty()
            &&& gathered.plain == (match extractor.state {
                InputModel::Osc(raw) if frame::after_introducer(raw + end) is None => raw + end,
                InputModel::PassthroughOsc(_) => end,
                _ => Seq::<u8>::empty(),
            })
        }),
{
    let end = seq![0x1bu8, byte];
    let none = Seq::<u8>::empty();
    lemma_gather_two(extractor, end);
    assert(none + end =~= end);
    assert(none + seq![0x1bu8] + seq![byte] =~= end);
    if let InputModel::Osc(raw) = extractor.state {
        let escaped = ExtractorModel {
            state: InputModel::OscEscape(raw.push(0x1b)),
            utf8_remaining: 0,
            ..extractor
        };
        assert(extractor::extract_byte(extractor, 0x1b) == (escaped, Effect::Nothing)) by {
            reveal(extractor::extract_state);
        }
        assert(extractor::extract_byte(escaped, byte) == (
            ExtractorModel { state: InputModel::Ground, ..escaped },
            extractor::completed(raw.push(0x1b).push(byte)),
        )) by {
            reveal(extractor::extract_state);
        }
        assert(raw.push(0x1b).push(byte) =~= raw + end);
        assert(none + (raw + end) =~= raw + end);
        lemma_escape_is_in_no_frame(raw, byte);
    } else {
        reveal(extractor::extract_state);
    }
}

/// Text without a control that ends or abandons an OSC string: BEL, CAN, SUB and ESC. The last byte
/// of a character may well look like the C1 terminator.
pub open spec fn is_quiet_text(text: Seq<char>) -> bool {
    forall|i: int|
        0 <= i < text.len() ==> {
            let c = #[trigger] text[i];
            c != '\u{7}' && c != '\u{18}' && c != '\u{1a}' && c != '\u{1b}'
        }
}

/// How many bytes of a character of `len` bytes are to come after `k` of them.
spec fn to_come(len: nat, k: int) -> int {
    if k == 0 {
        0
    } else {
        len - k
    }
}

/// A byte of a character within an OSC string.
proof fn lemma_character_byte(c: char, k: int, remaining: u8)
    requires
        c != '\u{7}' && c != '\u{18}' && c != '\u{1a}' && c != '\u{1b}',
        0 <= k < encode_scalar(c as u32).len(),
        remaining == to_come(encode_scalar(c as u32).len(), k),
    ensures
        ({
            let byte = encode_scalar(c as u32)[k];
            &&& byte != 0x07 && byte != 0x18 && byte != 0x1a && byte != 0x1b
            &&& byte != 0x9c || remaining > 0
            &&& scanner::remaining_after(remaining, byte) == to_come(
                encode_scalar(c as u32).len(),
                k + 1,
            )
        }),
{
    let bytes = encode_scalar(c as u32);
    text_laws::lemma_character_shape(c);
    if k > 0 {
        assert(0x80 <= bytes[k] <= 0xbf);
    }
}

proof fn lemma_command_character(
    scanner: ScannerModel,
    opener: Seq<u8>,
    content: Seq<u8>,
    c: char,
    k: int,
)
    requires
        is_collected(scanner, opener, content),
        scanner.utf8_remaining == 0,
        c != '\u{7}' && c != '\u{18}' && c != '\u{1a}' && c != '\u{1b}',
        0 <= k <= encode_scalar(c as u32).len(),
    ensures
        ({
            let bytes = encode_scalar(c as u32);
            let (after, packets) = scanner::scan(scanner, bytes.take(k));
            &&& is_collected(after, opener, content + bytes.take(k))
            &&& after.utf8_remaining == to_come(bytes.len(), k)
            &&& packets == Seq::<PacketModel>::empty()
        }),
    decreases k,
{
    let bytes = encode_scalar(c as u32);
    let none = Seq::<PacketModel>::empty();
    assert(none + none =~= none);
    if k == 0 {
        assert(bytes.take(0) =~= Seq::<u8>::empty());
        assert(content + bytes.take(0) =~= content);
    } else {
        lemma_command_character(scanner, opener, content, c, k - 1);
        let before = scanner::scan(scanner, bytes.take(k - 1)).0;
        lemma_character_byte(c, k - 1, before.utf8_remaining);
        lemma_command_byte(before, opener, content + bytes.take(k - 1), bytes[k - 1]);
        scanner_laws::lemma_next(scanner, bytes, k - 1);
        assert((content + bytes.take(k - 1)).push(bytes[k - 1]) =~= content + bytes.take(k));
    }
}

proof fn lemma_command_text(
    scanner: ScannerModel,
    opener: Seq<u8>,
    content: Seq<u8>,
    text: Seq<char>,
)
    requires
        is_collected(scanner, opener, content),
        scanner.utf8_remaining == 0,
        is_quiet_text(text),
    ensures
        ({
            let (after, packets) = scanner::scan(scanner, encode_utf8(text));
            &&& is_collected(after, opener, content + encode_utf8(text))
            &&& after.utf8_remaining == 0
            &&& packets == Seq::<PacketModel>::empty()
        }),
    decreases text.len(),
{
    let none = Seq::<PacketModel>::empty();
    assert(none + none =~= none);
    if text.len() == 0 {
        assert(content + encode_utf8(text) =~= content);
    } else {
        let first = encode_scalar(text[0] as u32);
        let rest = text.drop_first();
        let n = first.len() as int;
        text_laws::lemma_character_shape(text[0]);
        lemma_quiet_rest(text);
        lemma_command_character(scanner, opener, content, text[0], n);
        assert(first.take(n) =~= first);
        let middle = scanner::scan(scanner, first).0;
        lemma_command_text(middle, opener, content + first, rest);
        scanner_laws::law_scan_is_independent_of_cuts(scanner, first, encode_utf8(rest));
        assert(content + first + encode_utf8(rest) =~= content + encode_utf8(text));
    }
}

proof fn lemma_quiet_rest(text: Seq<char>)
    requires
        text.len() > 0,
        is_quiet_text(text),
    ensures
        is_quiet_text(text.drop_first()),
{
    let rest = text.drop_first();
    assert forall|i: int| 0 <= i < rest.len() implies {
        let c = #[trigger] rest[i];
        c != '\u{7}' && c != '\u{18}' && c != '\u{1a}' && c != '\u{1b}'
    } by {
        assert(rest[i] == text[i + 1]);
    }
}

/// An OSC string of text is over with its end and not before, whatever the characters of the text
/// are: it yields the one frame that it is, or nothing, and behind it the scanner is where it was
/// before.
pub proof fn law_commands_of_text_are_closed(
    scanner: ScannerModel,
    opener: Seq<u8>,
    text: Seq<char>,
    closer: Seq<u8>,
)
    requires
        scanner.state == ScanModel::Ground,
        scanner.utf8_remaining == 0 || opener[0] == 0x1b,
        opens_command(opener),
        is_quiet_text(text),
        closes_command(closer),
    ensures
        ({
            let raw = opener + encode_utf8(text) + closer;
            scanner::scan(scanner, raw) == (
                scanner::initial_scanner(),
                match frame::frame_of(raw) {
                    Some((action, id)) => seq![PacketModel { raw, action, id }],
                    None => Seq::<PacketModel>::empty(),
                },
            )
        }),
{
    let content = encode_utf8(text);
    let part = opener + content;
    let raw = part + closer;
    let nothing = Seq::<u8>::empty();
    let none = Seq::<PacketModel>::empty();
    let packets = scanner::yielded(Some(raw));
    assert(none + none =~= none);
    assert(none + packets =~= packets);
    lemma_command_opens(scanner, opener);
    let opened = scanner::scan(scanner, opener).0;
    assert(opened.utf8_remaining == 0) by {
        reveal(is_collected);
        assert(is_ascii(nothing));
    }
    lemma_command_text(opened, opener, nothing, text);
    assert(nothing + content =~= content);
    scanner_laws::law_scan_is_independent_of_cuts(scanner, opener, content);
    let filled = scanner::scan(scanner, part).0;
    reveal(is_collected);
    lemma_scan_closes(filled, part, closer);
    scanner_laws::law_scan_is_independent_of_cuts(scanner, part, closer);
    if filled.state == ScanModel::DiscardOsc(false) && frame::frame_of(raw) is Some {
        lemma_given_up(part, closer);
    }
}

/// A DCS, SOS, PM or APC string of text goes on for the scanner, whatever the characters of the text
/// are.
proof fn lemma_string_character(scanner: ScannerModel, c: char, k: int)
    requires
        scanner.state == ScanModel::String,
        scanner.utf8_remaining == 0,
        c != '\u{7}' && c != '\u{18}' && c != '\u{1a}' && c != '\u{1b}',
        0 <= k <= encode_scalar(c as u32).len(),
    ensures
        ({
            let bytes = encode_scalar(c as u32);
            let (after, packets) = scanner::scan(scanner, bytes.take(k));
            &&& after.state == ScanModel::String
            &&& after.utf8_remaining == to_come(bytes.len(), k)
            &&& packets == Seq::<PacketModel>::empty()
        }),
    decreases k,
{
    let bytes = encode_scalar(c as u32);
    let none = Seq::<PacketModel>::empty();
    assert(none + none =~= none);
    if k == 0 {
        assert(bytes.take(0) =~= Seq::<u8>::empty());
    } else {
        lemma_string_character(scanner, c, k - 1);
        let before = scanner::scan(scanner, bytes.take(k - 1)).0;
        lemma_character_byte(c, k - 1, before.utf8_remaining);
        scanner_laws::lemma_next(scanner, bytes, k - 1);
    }
}

proof fn lemma_string_text(scanner: ScannerModel, text: Seq<char>)
    requires
        scanner.state == ScanModel::String,
        scanner.utf8_remaining == 0,
        is_quiet_text(text),
    ensures
        scanner::scan(scanner, encode_utf8(text)) == (scanner, Seq::<PacketModel>::empty()),
    decreases text.len(),
{
    let none = Seq::<PacketModel>::empty();
    assert(none + none =~= none);
    if text.len() > 0 {
        let first = encode_scalar(text[0] as u32);
        let rest = text.drop_first();
        let n = first.len() as int;
        text_laws::lemma_character_shape(text[0]);
        lemma_quiet_rest(text);
        lemma_string_character(scanner, text[0], n);
        assert(first.take(n) =~= first);
        lemma_string_text(scanner, rest);
        scanner_laws::law_scan_is_independent_of_cuts(scanner, first, encode_utf8(rest));
    }
}

/// A DCS, SOS, PM or APC string of text is skipped up to its end and not further, whatever the
/// characters of the text are.
pub proof fn law_strings_of_text_are_skipped(
    scanner: ScannerModel,
    opener: Seq<u8>,
    text: Seq<char>,
    closer: Seq<u8>,
)
    requires
        scanner.state == ScanModel::Ground,
        scanner.utf8_remaining == 0 || opener[0] == 0x1b,
        opens_string(opener),
        is_quiet_text(text),
        closes_string(closer),
    ensures
        scanner::scan(scanner, opener + encode_utf8(text) + closer) == (
            scanner::initial_scanner(),
            Seq::<PacketModel>::empty(),
        ),
{
    let none = Seq::<PacketModel>::empty();
    let content = encode_utf8(text);
    assert(none + none =~= none);
    let opened = ScannerModel { state: ScanModel::String, utf8_remaining: 0 };
    lemma_string_is_opened(scanner, opener);
    lemma_string_text(opened, text);
    lemma_string_is_closed(opened, closer);
    scanner_laws::law_scan_is_independent_of_cuts(scanner, opener, content);
    scanner_laws::law_scan_is_independent_of_cuts(scanner, opener + content, closer);
}

proof fn lemma_input_character(
    extractor: ExtractorModel,
    opener: Seq<u8>,
    content: Seq<u8>,
    c: char,
    k: int,
)
    requires
        !extractor.bracketed_paste,
        opens_command(opener),
        ({
            let (before, gathered) = extractor::gather(extractor, opener + content);
            &&& is_underway(extractor, opener, content, before, gathered)
            &&& before.utf8_remaining == 0
        }),
        c != '\u{7}' && c != '\u{18}' && c != '\u{1a}' && c != '\u{1b}',
        0 <= k <= encode_scalar(c as u32).len(),
    ensures
        ({
            let more = content + encode_scalar(c as u32).take(k);
            let (after, gathered) = extractor::gather(extractor, opener + more);
            &&& is_underway(extractor, opener, more, after, gathered)
            &&& after.utf8_remaining == to_come(encode_scalar(c as u32).len(), k)
        }),
    decreases k,
{
    let bytes = encode_scalar(c as u32);
    if k == 0 {
        assert(content + bytes.take(0) =~= content);
    } else {
        let part = content + bytes.take(k - 1);
        let more = content + bytes.take(k);
        let byte = bytes[k - 1];
        lemma_input_character(extractor, opener, content, c, k - 1);
        let (before, gathered) = extractor::gather(extractor, opener + part);
        lemma_character_byte(c, k - 1, before.utf8_remaining);
        lemma_content_byte(extractor, opener, part, byte, before, gathered);
        assert(part.push(byte) =~= more);
        assert((opener + more).drop_last() =~= opener + part);
        assert((opener + more).last() == byte);
    }
}

proof fn lemma_input_text(
    extractor: ExtractorModel,
    opener: Seq<u8>,
    content: Seq<u8>,
    text: Seq<char>,
)
    requires
        !extractor.bracketed_paste,
        opens_command(opener),
        ({
            let (before, gathered) = extractor::gather(extractor, opener + content);
            &&& is_underway(extractor, opener, content, before, gathered)
            &&& before.utf8_remaining == 0
        }),
        is_quiet_text(text),
    ensures
        ({
            let more = content + encode_utf8(text);
            let (after, gathered) = extractor::gather(extractor, opener + more);
            &&& is_underway(extractor, opener, more, after, gathered)
            &&& after.utf8_remaining == 0
        }),
    decreases text.len(),
{
    if text.len() == 0 {
        assert(content + encode_utf8(text) =~= content);
    } else {
        let first = encode_scalar(text[0] as u32);
        let rest = text.drop_first();
        let n = first.len() as int;
        text_laws::lemma_character_shape(text[0]);
        lemma_quiet_rest(text);
        lemma_input_character(extractor, opener, content, text[0], n);
        assert(first.take(n) =~= first);
        lemma_input_text(extractor, opener, content + first, rest);
        assert(content + first + encode_utf8(rest) =~= content + encode_utf8(text));
    }
}

/// An OSC string of text from the outer terminal is over with its end and not before, whatever the
/// characters of the text are. It is passed on as it is unless it begins with `5113;`, and is then
/// extracted or dropped.
pub proof fn law_input_commands_of_text_are_closed(
    extractor: ExtractorModel,
    opener: Seq<u8>,
    text: Seq<char>,
    closer: Seq<u8>,
)
    requires
        extractor.state == InputModel::Ground,
        !extractor.bracketed_paste,
        extractor.utf8_remaining == 0 || opener[0] == 0x1b,
        opens_command(opener),
        is_quiet_text(text),
        closes_command(closer),
    ensures
        ({
            let content = encode_utf8(text);
            let raw = opener + content + closer;
            extractor::gather(extractor, raw) == (
                ExtractorModel { utf8_remaining: 0, ..extractor },
                if !transfer_number().is_prefix_of(content) {
                    Gathered { items: Seq::empty(), plain: raw }
                } else {
                    match frame::frame_of(raw) {
                        Some((action, id)) => Gathered {
                            items: seq![ItemModel::Transfer(PacketModel { raw, action, id })],
                            plain: Seq::empty(),
                        },
                        None => Gathered { items: Seq::empty(), plain: Seq::empty() },
                    }
                },
            )
        }),
{
    let content = encode_utf8(text);
    let nothing = Seq::<u8>::empty();
    assert(opener + nothing =~= opener);
    lemma_input_opens(extractor, opener);
    assert(extractor::gather(extractor, opener).0.utf8_remaining == 0) by {
        reveal(is_underway);
        assert(is_ascii(nothing));
    }
    lemma_input_text(extractor, opener, nothing, text);
    assert(nothing + content =~= content);
    reveal(is_underway);
    lemma_input_closes(extractor, opener + content, closer);
    let (before, gathered) = extractor::gather(extractor, opener + content);
    lemma_input_closed(extractor, opener, content, closer, before, gathered);
}

/// A byte of a character within a string is passed on.
proof fn lemma_passed_string_byte(extractor: ExtractorModel, byte: u8)
    requires
        extractor.state == InputModel::PassthroughString(false),
        !extractor.bracketed_paste,
        byte != 0x18 && byte != 0x1a && byte != 0x1b,
        byte != 0x9c || extractor.utf8_remaining > 0,
    ensures
        extractor::extract_byte(extractor, byte) == (
            ExtractorModel {
                utf8_remaining: scanner::remaining_after(extractor.utf8_remaining, byte),
                ..extractor
            },
            Effect::Plain(seq![byte]),
        ),
{
    reveal(extractor::extract_state);
}

proof fn lemma_passed_string_character(extractor: ExtractorModel, c: char, k: int)
    requires
        extractor.state == InputModel::PassthroughString(false),
        extractor.utf8_remaining == 0,
        !extractor.bracketed_paste,
        c != '\u{7}' && c != '\u{18}' && c != '\u{1a}' && c != '\u{1b}',
        0 <= k <= encode_scalar(c as u32).len(),
    ensures
        ({
            let bytes = encode_scalar(c as u32);
            let (after, gathered) = extractor::gather(extractor, bytes.take(k));
            &&& after == (ExtractorModel { utf8_remaining: after.utf8_remaining, ..extractor })
            &&& after.utf8_remaining == to_come(bytes.len(), k)
            &&& gathered == (Gathered { items: Seq::empty(), plain: bytes.take(k) })
        }),
    decreases k,
{
    let bytes = encode_scalar(c as u32);
    if k == 0 {
        assert(bytes.take(0) =~= Seq::<u8>::empty());
    } else {
        lemma_passed_string_character(extractor, c, k - 1);
        let before = extractor::gather(extractor, bytes.take(k - 1)).0;
        lemma_character_byte(c, k - 1, before.utf8_remaining);
        lemma_passed_string_byte(before, bytes[k - 1]);
        extractor_laws::lemma_gather_next(extractor, bytes, k - 1);
        assert(bytes.take(k - 1) + seq![bytes[k - 1]] =~= bytes.take(k));
    }
}

/// Text in a DCS, SOS, PM or APC string is passed on as it is, and the string goes on, whatever the
/// characters of the text are. The end of the string is the end of it.
pub proof fn law_text_in_strings_is_passed_on(
    extractor: ExtractorModel,
    text: Seq<char>,
    closer: Seq<u8>,
)
    requires
        extractor.state == InputModel::PassthroughString(false),
        extractor.utf8_remaining == 0,
        !extractor.bracketed_paste,
        is_quiet_text(text),
        closes_string(closer),
    ensures
        extractor::gather(extractor, encode_utf8(text)) == (
            extractor,
            Gathered { items: Seq::empty(), plain: encode_utf8(text) },
        ),
        extractor::gather(extractor, encode_utf8(text) + closer) == (
            ExtractorModel { state: InputModel::Ground, ..extractor },
            Gathered { items: Seq::empty(), plain: encode_utf8(text) + closer },
        ),
    decreases text.len(),
{
    let whole = encode_utf8(text);
    if text.len() > 0 {
        let first = encode_scalar(text[0] as u32);
        let rest = text.drop_first();
        let n = first.len() as int;
        text_laws::lemma_character_shape(text[0]);
        lemma_quiet_rest(text);
        lemma_passed_string_character(extractor, text[0], n);
        assert(first.take(n) =~= first);
        law_text_in_strings_is_passed_on(extractor, rest, closer);
        text_laws::lemma_gather_on(extractor, first, encode_utf8(rest));
    }
    lemma_string_closes(extractor, false, closer);
    text_laws::lemma_gather_on(extractor, whole, closer);
}

} // verus!
