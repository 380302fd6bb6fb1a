//! Text is none of a transfer's business: whatever its characters, UTF-8 text goes through the
//! scanner and the extractor as if it were not there.
use vstd::prelude::*;
use vstd::utf8::{encode_scalar, encode_utf8};

use crate::extractor;
use crate::extractor::{Effect, ExtractorModel, Gathered, InputModel, ItemModel};
use crate::extractor_laws;
use crate::frame;
use crate::scanner;
use crate::scanner::{PacketModel, ScanModel, ScannerModel};
use crate::scanner_laws;

verus! {

/// Text without ESC, the one character that begins a control in UTF-8.
pub open spec fn is_escape_free(text: Seq<char>) -> bool {
    forall|i: int| 0 <= i < text.len() ==> #[trigger] text[i] != '\u{1b}'
}

/// The encoding of a character of one byte is that byte.
proof fn lemma_one_byte(value: u32)
    by (bit_vector)
    requires
        value <= 0x7f,
    ensures
        vstd::utf8::leading_byte_width_1(value) == value,
{
}

proof fn lemma_two_bytes(value: u32)
    by (bit_vector)
    requires
        0x80 <= value <= 0x7ff,
    ensures
        0xc2 <= vstd::utf8::leading_byte_width_2(value) <= 0xdf,
        0x80 <= vstd::utf8::last_continuation_byte(value) <= 0xbf,
{
}

proof fn lemma_three_bytes(value: u32)
    by (bit_vector)
    requires
        0x800 <= value <= 0xffff,
    ensures
        0xe0 <= vstd::utf8::leading_byte_width_3(value) <= 0xef,
        0x80 <= vstd::utf8::second_last_continuation_byte(value) <= 0xbf,
        0x80 <= vstd::utf8::last_continuation_byte(value) <= 0xbf,
{
}

proof fn lemma_four_bytes(value: u32)
    by (bit_vector)
    requires
        0x10000 <= value <= 0x10ffff,
    ensures
        0xf0 <= vstd::utf8::leading_byte_width_4(value) <= 0xf4,
        0x80 <= vstd::utf8::third_last_continuation_byte(value) <= 0xbf,
        0x80 <= vstd::utf8::second_last_continuation_byte(value) <= 0xbf,
        0x80 <= vstd::utf8::last_continuation_byte(value) <= 0xbf,
{
}

/// The shape of an encoded character: one byte below 0x80, or a leading byte and one to three
/// continuation bytes.
pub proof fn lemma_character_shape(c: char)
    ensures
        ({
            let bytes = encode_scalar(c as u32);
            &&& 1 <= bytes.len() <= 4
            &&& bytes.len() == 1 ==> bytes[0] < 0x80 && bytes[0] == c as u32
            &&& bytes.len() == 2 ==> 0xc2 <= bytes[0] <= 0xdf
            &&& bytes.len() == 3 ==> 0xe0 <= bytes[0] <= 0xef
            &&& bytes.len() == 4 ==> 0xf0 <= bytes[0] <= 0xf4
            &&& forall|i: int| 1 <= i < bytes.len() ==> 0x80 <= #[trigger] bytes[i] <= 0xbf
        }),
{
    vstd::utf8::char_is_scalar(c);
    let value = c as u32;
    if value <= 0x7f {
        lemma_one_byte(value);
    } else if value <= 0x7ff {
        lemma_two_bytes(value);
    } else if value <= 0xffff {
        lemma_three_bytes(value);
    } else {
        lemma_four_bytes(value);
    }
}

/// The first byte of an encoded character announces the bytes that follow it, and each of those
/// leaves one fewer to come: after as many bytes of a character as are there, those that are still
/// to come are the rest of it.
pub proof fn law_characters_announce_their_length(c: char, k: int)
    requires
        0 < k <= encode_scalar(c as u32).len(),
    ensures
        ({
            let bytes = encode_scalar(c as u32);
            scanner::scan(scanner::initial_scanner(), bytes.take(k)).0.utf8_remaining == bytes.len()
                - k
        }),
    decreases k,
{
    let bytes = encode_scalar(c as u32);
    lemma_character_shape(c);
    if k == 1 {
        assert(bytes.take(0) =~= Seq::<u8>::empty());
    } else {
        law_characters_announce_their_length(c, k - 1);
        assert(0x80 <= bytes[k - 1] <= 0xbf);
    }
    scanner_laws::lemma_next(scanner::initial_scanner(), bytes, k - 1);
}

proof fn lemma_character_is_scanned(c: char, k: int)
    requires
        c != '\u{1b}',
        0 <= k <= encode_scalar(c as u32).len(),
    ensures
        ({
            let bytes = encode_scalar(c as u32);
            scanner::scan(scanner::initial_scanner(), bytes.take(k)) == (
                ScannerModel {
                    state: ScanModel::Ground,
                    utf8_remaining: if k == 0 {
                        0
                    } else {
                        (bytes.len() - k) as u8
                    },
                },
                Seq::<PacketModel>::empty(),
            )
        }),
    decreases k,
{
    let bytes = encode_scalar(c as u32);
    let none = Seq::<PacketModel>::empty();
    assert(none + none =~= none);
    lemma_character_shape(c);
    if k == 0 {
        assert(bytes.take(0) =~= Seq::<u8>::empty());
    } else {
        lemma_character_is_scanned(c, k - 1);
        scanner_laws::lemma_next(scanner::initial_scanner(), bytes, k - 1);
        law_characters_announce_their_length(c, k);
        if k > 1 {
            assert(0x80 <= bytes[k - 1] <= 0xbf);
        }
    }
}

/// Text is transparent to the scanner: whatever its characters, it yields nothing and leaves the
/// scanner as it was before, with no byte of a character to come.
pub proof fn law_text_is_not_scanned(text: Seq<char>)
    requires
        is_escape_free(text),
    ensures
        scanner::scan(scanner::initial_scanner(), encode_utf8(text)) == (
            scanner::initial_scanner(),
            Seq::<PacketModel>::empty(),
        ),
    decreases text.len(),
{
    let start = scanner::initial_scanner();
    let none = Seq::<PacketModel>::empty();
    assert(none + none =~= none);
    if text.len() > 0 {
        let first = encode_scalar(text[0] as u32);
        let rest = text.drop_first();
        assert forall|i: int| 0 <= i < rest.len() implies #[trigger] rest[i] != '\u{1b}' by {
            assert(rest[i] == text[i + 1]);
        }
        law_text_is_not_scanned(rest);
        lemma_character_is_scanned(text[0], first.len() as int);
        assert(first.take(first.len() as int) =~= first);
        lemma_character_shape(text[0]);
        scanner_laws::law_scan_is_independent_of_cuts(start, first, encode_utf8(rest));
    }
}

/// A frame is found whatever text stands around it.
pub proof fn law_frame_in_text_is_recognised(before: Seq<char>, raw: Seq<u8>, after: Seq<char>)
    requires
        is_escape_free(before),
        is_escape_free(after),
        frame::frame_of(raw) is Some,
    ensures
        scanner::scan(
            scanner::initial_scanner(),
            encode_utf8(before) + raw + encode_utf8(after),
        ) == (scanner::initial_scanner(), seq![scanner::packet_of(raw)->0]),
{
    let start = scanner::initial_scanner();
    let packet = scanner::packet_of(raw)->0;
    let none = Seq::<PacketModel>::empty();
    law_text_is_not_scanned(before);
    law_text_is_not_scanned(after);
    scanner_laws::law_complete_frame_is_recognised(start, raw);
    scanner_laws::law_scan_is_independent_of_cuts(start, encode_utf8(before), raw);
    scanner_laws::law_scan_is_independent_of_cuts(
        start,
        encode_utf8(before) + raw,
        encode_utf8(after),
    );
    assert(none + seq![packet] + none =~= seq![packet]);
}

/// Input that amounts to no item of its own is added to the bytes that are being gathered.
pub proof fn lemma_gather_on(extractor: ExtractorModel, first: Seq<u8>, second: Seq<u8>)
    requires
        extractor::gather(extractor::gather(extractor, first).0, second).1.items.len() == 0,
    ensures
        ({
            let (middle, gathered) = extractor::gather(extractor, first);
            let (end, more) = extractor::gather(middle, second);
            extractor::gather(extractor, first + second) == (
                end,
                Gathered { items: gathered.items, plain: gathered.plain + more.plain },
            )
        }),
    decreases second.len(),
{
    let (middle, gathered) = extractor::gather(extractor, first);
    if second.len() == 0 {
        assert(first + second =~= first);
        assert(gathered.plain + Seq::<u8>::empty() =~= gathered.plain);
    } else {
        lemma_gather_on(extractor, first, second.drop_last());
        assert((first + second).drop_last() =~= first + second.drop_last());
        assert((first + second).last() == second.last());
        let end = extractor::gather(middle, second).1;
        assert(gathered.plain + end.plain =~= extractor::gather(extractor, first + second).1.plain);
    }
}

/// The extractor outside of controls, with no byte of a character to come.
pub open spec fn rests(extractor: ExtractorModel) -> bool {
    extractor.state == InputModel::Ground && extractor.utf8_remaining == 0
}

/// A byte of a character other than ESC is passed on at once.
proof fn lemma_text_byte(extractor: ExtractorModel, byte: u8)
    requires
        extractor.state == InputModel::Ground,
        byte != 0x1b,
        byte < 0x80 || byte >= 0xc0 || (extractor.utf8_remaining > 0 && byte <= 0xbf),
    ensures
        extractor::extract_byte(extractor, byte) == (
            ExtractorModel {
                utf8_remaining: scanner::remaining_after(extractor.utf8_remaining, byte),
                ..extractor
            },
            Effect::Plain(seq![byte]),
        ),
{
    reveal(extractor::extract_state);
}

proof fn lemma_character_is_gathered(extractor: ExtractorModel, c: char, k: int)
    requires
        rests(extractor),
        c != '\u{1b}',
        0 <= k <= encode_scalar(c as u32).len(),
    ensures
        ({
            let bytes = encode_scalar(c as u32);
            extractor::gather(extractor, bytes.take(k)) == (
                ExtractorModel {
                    utf8_remaining: if k == 0 {
                        0
                    } else {
                        (bytes.len() - k) as u8
                    },
                    ..extractor
                },
                Gathered { items: Seq::empty(), plain: bytes.take(k) },
            )
        }),
    decreases k,
{
    let bytes = encode_scalar(c as u32);
    lemma_character_shape(c);
    if k == 0 {
        assert(bytes.take(0) =~= Seq::<u8>::empty());
    } else {
        lemma_character_is_gathered(extractor, c, k - 1);
        extractor_laws::lemma_gather_next(extractor, bytes, k - 1);
        assert(bytes.take(k - 1) + seq![bytes[k - 1]] =~= bytes.take(k));
        if k > 1 {
            assert(0x80 <= bytes[k - 1] <= 0xbf);
        }
        lemma_text_byte(extractor::gather(extractor, bytes.take(k - 1)).0, bytes[k - 1]);
    }
}

/// Text is transparent to the extractor, in a paste and outside of one: whatever its characters,
/// it is passed on as it is and at once, and leaves the extractor as it was before.
pub proof fn law_text_is_passed_on(extractor: ExtractorModel, text: Seq<char>)
    requires
        rests(extractor),
        is_escape_free(text),
    ensures
        extractor::gather(extractor, encode_utf8(text)) == (
            extractor,
            Gathered { items: Seq::empty(), plain: encode_utf8(text) },
        ),
    decreases text.len(),
{
    if text.len() > 0 {
        let first = encode_scalar(text[0] as u32);
        let rest = text.drop_first();
        assert forall|i: int| 0 <= i < rest.len() implies #[trigger] rest[i] != '\u{1b}' by {
            assert(rest[i] == text[i + 1]);
        }
        law_text_is_passed_on(extractor, rest);
        lemma_character_is_gathered(extractor, text[0], first.len() as int);
        assert(first.take(first.len() as int) =~= first);
        lemma_character_shape(text[0]);
        lemma_gather_on(extractor, first, encode_utf8(rest));
    }
}

/// A frame that follows gathered input becomes an item of its own behind it.
pub proof fn lemma_frame_follows(extractor: ExtractorModel, before: Seq<u8>, raw: Seq<u8>)
    requires
        ({
            let reached = extractor::gather(extractor, before).0;
            &&& reached.state == InputModel::Ground
            &&& !reached.bracketed_paste
            &&& reached.utf8_remaining == 0 || raw[0] == 0x1b
        }),
        frame::frame_of(raw) is Some,
    ensures
        extractor::gather(extractor, before + raw) == (
            ExtractorModel {
                utf8_remaining: 0,
                ..extractor::gather(extractor, before).0
            },
            Gathered {
                items: extractor::flushed(extractor::gather(extractor, before).1).push(
                    ItemModel::Transfer(scanner::packet_of(raw)->0),
                ),
                plain: Seq::empty(),
            },
        ),
{
    let (middle, gathered) = extractor::gather(extractor, before);
    let part = raw.drop_last();
    extractor_laws::lemma_frame_is_collected(middle, raw);
    let quiet = extractor::gather(middle, part).1;
    lemma_gather_on(extractor, before, part);
    assert(gathered.plain + quiet.plain =~= gathered.plain);
    assert((before + raw).drop_last() =~= before + part);
    assert((before + raw).last() == raw.last());
}

/// A frame is extracted whatever text stands around it, and the text is passed on.
pub proof fn law_frame_in_text_is_extracted(
    extractor: ExtractorModel,
    before: Seq<char>,
    raw: Seq<u8>,
    after: Seq<char>,
)
    requires
        rests(extractor),
        !extractor.bracketed_paste,
        before.len() > 0,
        after.len() > 0,
        is_escape_free(before),
        is_escape_free(after),
        frame::frame_of(raw) is Some,
    ensures
        extractor::gather(extractor, encode_utf8(before) + raw + encode_utf8(after)).0 == extractor,
        extractor_laws::gathered_items(extractor, encode_utf8(before) + raw + encode_utf8(after))
            == seq![
            ItemModel::Input(encode_utf8(before)),
            ItemModel::Transfer(scanner::packet_of(raw)->0),
            ItemModel::Input(encode_utf8(after)),
        ],
{
    law_text_is_passed_on(extractor, before);
    law_text_is_passed_on(extractor, after);
    lemma_frame_follows(extractor, encode_utf8(before), raw);
    lemma_gather_on(extractor, encode_utf8(before) + raw, encode_utf8(after));
    lemma_character_shape(before[0]);
    lemma_character_shape(after[0]);
    assert(encode_utf8(before).len() > 0 && encode_utf8(after).len() > 0);
    let none = Seq::<u8>::empty();
    assert(none + encode_utf8(after) =~= encode_utf8(after));
    assert(extractor_laws::gathered_items(
        extractor,
        encode_utf8(before) + raw + encode_utf8(after),
    ) =~= seq![
        ItemModel::Input(encode_utf8(before)),
        ItemModel::Transfer(scanner::packet_of(raw)->0),
        ItemModel::Input(encode_utf8(after)),
    ]);
}

} // verus!
