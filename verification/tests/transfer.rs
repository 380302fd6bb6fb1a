//! Frames, and the commands in streams of bytes.
use herdr::control::TransferControl;
use herdr::extractor::{ExtractedInput, TransferInputExtractor};
use herdr::frame::{
    encode_cancel, encode_failure, parse_action_and_id, permission_denied, session_error,
    terminal_response, MAX_FAILURE_MESSAGE_BYTES, MAX_TRANSFER_COMMAND_BYTES,
    MAX_TRANSFER_ID_BYTES,
};
use herdr::scanner::{TransferPacket, TransferScanner};

fn command(action: &str, id: &str) -> Vec<u8> {
    format!("\x1b]5113;ac={action};id={id}\x1b\\").into_bytes()
}

#[test]
fn scanner_handles_fragmented_and_batched_commands() {
    let first = command("send", "one");
    let second = command("status", "one");
    let mut scanner = TransferScanner::default();
    assert!(scanner.push(&first[..7]).is_empty());
    let packets = scanner.push(&[&first[7..], &second[..]].concat());
    assert_eq!(packets.len(), 2);
    assert_eq!(packets[0].action, "send");
    assert_eq!(packets[1].action, "status");
}

#[test]
fn scanner_ignores_transfer_lookalikes_inside_dcs() {
    let embedded = b"\x1bPfoo\x1b]5113;ac=send;id=nope\x1b\\bar\x1b\\";
    assert!(TransferScanner::default().push(embedded).is_empty());
}

#[test]
fn input_extractor_preserves_bracketed_paste_and_other_input() {
    let transfer = command("status", "one");
    let paste = [&b"\x1b[200~"[..], &transfer[..], b"\x1b[201~"].concat();
    let mut extractor = TransferInputExtractor::default();
    let output = extractor.push(&paste);
    assert_eq!(output, vec![ExtractedInput::Input(paste)]);
}

#[test]
fn input_extractor_emits_transfer_and_retains_neighbors() {
    let transfer = command("status", "one");
    let bytes = [&b"before"[..], &transfer[..], b"after"].concat();
    let output = TransferInputExtractor::default().push(&bytes);
    assert!(matches!(&output[1], ExtractedInput::Transfer(packet) if packet.id == "one"));
    assert_eq!(output[0], ExtractedInput::Input(b"before".to_vec()));
    assert_eq!(output[2], ExtractedInput::Input(b"after".to_vec()));
}

#[test]
fn oversized_commands_recover_at_terminator() {
    let mut scanner = TransferScanner::default();
    let mut bytes = b"\x1b]5113;ac=data;id=one;d=".to_vec();
    bytes.resize(MAX_TRANSFER_COMMAND_BYTES + 10, b'x');
    bytes.extend_from_slice(b"\x07");
    bytes.extend_from_slice(&command("status", "two"));
    let packets = scanner.push(&bytes);
    assert_eq!(packets.len(), 1);
    assert_eq!(packets[0].id, "two");
}

#[test]
fn scanner_ignores_nontransfer_osc_without_retaining_payload() {
    let mut scanner = TransferScanner::default();
    let mut bytes = b"\x1b]0;title".to_vec();
    bytes.extend(std::iter::repeat_n(b'x', MAX_TRANSFER_COMMAND_BYTES + 10));
    bytes.extend_from_slice(b"\x07");
    bytes.extend_from_slice(&command("status", "after"));
    let packets = scanner.push(&bytes);
    assert_eq!(packets.len(), 1);
    assert_eq!(packets[0].id, "after");
}

#[test]
fn utf8_continuation_bytes_are_not_c1_controls() {
    let command = [b"\xc2".as_slice(), &[0x9d], b"text"].concat();
    assert!(TransferScanner::default().push(&command).is_empty());
    assert_eq!(
        TransferInputExtractor::default().push(&command),
        vec![ExtractedInput::Input(command)]
    );
}

#[test]
fn input_extractor_flushes_lone_escape_but_keeps_transfer_prefix() {
    let mut extractor = TransferInputExtractor::default();
    assert!(extractor.push(b"\x1b").is_empty());
    assert_eq!(
        extractor.flush_timeout(),
        vec![ExtractedInput::Input(vec![0x1b])]
    );
    let mut extractor = TransferInputExtractor::default();
    assert!(extractor.push(b"\x1b]5113;ac=send;id=x").is_empty());
    assert!(extractor.flush_timeout().is_empty());
}

#[test]
fn terminal_transfer_preserves_every_split_and_real_c1_frames() {
    for command in [
        b"\x1b]5113;ac=send;id=s;pw=sha256:abc\x1b\\".as_slice(),
        b"\x1b]5113;ac=status;id=s;st=T0s=\x07",
        b"\x9d5113;ac=receive;id=s\x9c",
    ] {
        for split in 0..=command.len() {
            let mut scanner = TransferScanner::default();
            let mut packets = scanner.push(&command[..split]);
            packets.extend(scanner.push(&command[split..]));
            assert_eq!(packets.len(), 1, "split {split}");
            assert_eq!(packets[0].raw, command);
            let mut input = TransferInputExtractor::default();
            let mut chunks = input.push(&command[..split]);
            chunks.extend(input.push(&command[split..]));
            assert_eq!(chunks, vec![ExtractedInput::Transfer(packets.remove(0))]);
        }
    }
}

#[test]
fn terminal_transfer_rejects_injected_input_duplicate_ids_and_multiple_frames() {
    for bytes in [
        b"echo unsafe\r".as_slice(),
        b"\x1b]5113;ac=status;id=s;id=t\x07",
        b"\x1b]5113;ac=status;ac=send;id=s\x07",
        b"\x1b]5113;ac=unknown;id=s\x07",
        b"\x1b]5113;ac=status;id=s;d=x\x07echo unsafe\r\x07",
        b"\x1b]5113;ac=status;id=s\x07\x1b]5113;ac=status;id=s\x07",
    ] {
        assert!(parse_action_and_id(bytes).is_none(), "{bytes:?}");
    }
    assert!(!terminal_response(b"\x1b]5113;ac=status;id=s\x07", "other"));
    assert!(!terminal_response(b"\x1b]5113;ac=send;id=s\x07", "s"));
    assert!(terminal_response(
        b"\x1b]5113;ac=data;id=s;future=ok;d=YWJj\x07",
        "s"
    ));
}

#[test]
fn terminal_transfer_discard_and_ignored_strings_survive_idle_and_utf8() {
    for prefix in [b"\x1bP".as_slice(), b"\x1b_", b"\x1b^", b"\x1bX"] {
        let lookalike = [prefix, b"\xc2\x9c\x1b]5113;ac=status;id=no\x07\x1b\x1b\\"].concat();
        let mut scanner = TransferScanner::default();
        assert!(scanner.push(&lookalike).is_empty());
        assert_eq!(scanner.push(b"\x1b]5113;ac=status;id=yes\x07").len(), 1);
        let mut input = TransferInputExtractor::default();
        let mut seen = input.push(prefix);
        seen.extend(input.flush_timeout());
        seen.extend(input.push(&lookalike[prefix.len()..]));
        let plain: Vec<_> = seen
            .into_iter()
            .flat_map(|item| match item {
                ExtractedInput::Input(bytes) => bytes,
                _ => panic!("nested transfer"),
            })
            .collect();
        assert_eq!(plain, lookalike);
    }
    let mut input = TransferInputExtractor::default();
    let mut oversized = b"\x1b]5113;ac=data;id=s;d=".to_vec();
    oversized.resize(MAX_TRANSFER_COMMAND_BYTES + 1, b'x');
    assert!(input.push(&oversized).is_empty());
    assert!(input.flush_timeout().is_empty());
    assert!(input.push(b"\x1b]5113;ac=status;id=no\x07").is_empty());
    assert!(matches!(
        &input.push(b"\x1b]5113;ac=status;id=yes\x07")[0],
        ExtractedInput::Transfer(_)
    ));
}

#[test]
fn terminal_transfer_paste_with_unterminated_dcs_and_focus_reports_stays_input() {
    let bytes = b"\x1b[200~literal\x1bPtext\x1b[201~\x1b[I\x1b[O";
    let mut input = TransferInputExtractor::default();
    let mut reconstructed = Vec::new();
    for byte in bytes {
        for chunk in input.push(&[*byte]) {
            match chunk {
                ExtractedInput::Input(bytes) => reconstructed.extend(bytes),
                _ => panic!("paste extracted"),
            }
        }
    }
    assert_eq!(reconstructed, bytes);
    let mut input = TransferInputExtractor::default();
    assert!(input.push(b"\x1b").is_empty());
    let mut handed_on = Vec::new();
    for item in input.flush_timeout() {
        if let ExtractedInput::Input(bytes) = item {
            handed_on.push(bytes);
        }
    }
    assert_eq!(handed_on, vec![b"\x1b".to_vec()]);
}

#[test]
fn terminal_transfer_only_session_errors_end_the_route() {
    assert!(session_error(&encode_failure("s", "CANCELED")));
    assert!(session_error(&encode_failure("s", "EPERM:denied")));
    assert!(!session_error(&encode_failure("s", "OK")));
    assert!(!session_error(
        b"\x1b]5113;ac=status;id=s;fid=one;st=RVBFUk0=\x07"
    ));
}

#[test]
fn terminal_transfer_failure_status_is_unpadded() {
    assert_eq!(
        encode_failure("s", "ENOTSUP:outer client does not support transfers"),
        b"\x1b]5113;ac=status;id=s;st=RU5PVFNVUDpvdXRlciBjbGllbnQgZG9lcyBub3Qgc3VwcG9ydCB0cmFuc2ZlcnM\x1b\\"
            .to_vec()
    );
}

#[test]
fn terminal_transfer_recovers_after_cancelled_strings_and_adjacent_escape() {
    let command = b"\x1b]5113;ac=status;id=s;st=T0s=\x07";
    for prefix in [b"\x1b]5113;broken\x18".as_slice(), b"\x1bPignored\x1a"] {
        let bytes = [prefix, command].concat();
        assert_eq!(TransferScanner::default().push(&bytes).len(), 1);
        let items = TransferInputExtractor::default().push(&bytes);
        assert_eq!(
            items
                .iter()
                .filter(|item| matches!(item, ExtractedInput::Transfer(_)))
                .count(),
            1
        );
    }
    let items = TransferInputExtractor::default().push(&[b"\x1b".as_slice(), command].concat());
    assert!(matches!(&items[0], ExtractedInput::Input(bytes) if bytes == b"\x1b"));
    assert!(matches!(&items[1], ExtractedInput::Transfer(_)));
}

#[test]
fn terminal_transfer_permission_focus_precedes_exit_status_at_every_split() {
    let failure = encode_failure("s", "EPERM:denied");
    let bytes = [failure.as_slice(), b"\x1b[I"].concat();
    for split in 0..=bytes.len() {
        let mut extractor = TransferInputExtractor::default();
        let mut items = extractor.push(&bytes[..split]);
        items.extend(extractor.push(&bytes[split..]));
        assert_eq!(items.len(), 2, "split {split}");
        assert!(matches!(&items[0], ExtractedInput::Input(raw) if raw == b"\x1b[I"));
        assert!(matches!(&items[1], ExtractedInput::Transfer(packet) if packet.raw == failure));
        assert!(extractor.flush_timeout().is_empty());
        assert_eq!(
            extractor.push(b"\x1b[I"),
            vec![ExtractedInput::Input(b"\x1b[I".to_vec())],
            "later focus is never suppressed"
        );
    }
    let mut extractor = TransferInputExtractor::default();
    assert!(extractor.push(&failure).is_empty());
    assert!(
        matches!(&extractor.flush_timeout()[0], ExtractedInput::Transfer(packet) if packet.raw == failure)
    );
    let mut extractor = TransferInputExtractor::default();
    assert!(extractor.push(&failure).is_empty());
    let items = extractor.push(b"typed input");
    assert!(matches!(&items[0], ExtractedInput::Transfer(_)));
    assert!(matches!(&items[1], ExtractedInput::Input(raw) if raw == b"typed input"));
}

#[test]
fn terminal_transfer_denial_waits_for_observed_focus_return_across_idle_gaps() {
    let mut extractor = TransferInputExtractor::default();
    assert_eq!(
        extractor.push(b"\x1b[O"),
        vec![ExtractedInput::Input(b"\x1b[O".to_vec())]
    );
    let denied = encode_failure("s", "EPERM:User refused the transfer");
    assert!(extractor.push(&denied).is_empty());
    for _ in 0..10 {
        assert!(extractor.flush_timeout().is_empty());
    }
    assert_eq!(
        extractor.push(b"\x1b[?997;1n"),
        vec![ExtractedInput::Input(b"\x1b[?997;1n".to_vec())]
    );
    let items = extractor.push(b"\x1b[I");
    assert!(matches!(&items[0], ExtractedInput::Input(bytes) if bytes == b"\x1b[I"));
    assert!(matches!(&items[1], ExtractedInput::Transfer(packet) if packet.raw == denied));
    assert!(extractor.flush_timeout().is_empty());
    extractor.push(b"\x1b[O");
    extractor.push(&encode_failure("s", "EIO:failed"));
    assert!(
        matches!(&extractor.flush_timeout()[0], ExtractedInput::Transfer(_)),
        "unrelated failure must not await focus"
    );
    extractor.push(&denied);
    assert!(
        matches!(&extractor.push(b"x")[0], ExtractedInput::Transfer(_)),
        "typing releases the denial before the key"
    );
}

#[test]
fn terminal_transfer_preserves_mouse_escape_idle_policy() {
    let mut extractor = TransferInputExtractor::default();
    extractor.push(b"\x1b");
    assert!(extractor.pending_mouse_escape());
    extractor.push(b"[<35;12;");
    assert!(extractor.pending_mouse_escape());
    let mut handed_on = Vec::new();
    for item in extractor.flush_timeout() {
        if let ExtractedInput::Input(bytes) = item {
            handed_on.push(bytes);
        }
    }
    assert_eq!(handed_on, vec![b"\x1b[<35;12;".to_vec()]);
    assert!(!extractor.pending_mouse_escape());
    let mut chunks = Vec::new();
    for item in extractor.push(b"7M") {
        if let ExtractedInput::Input(bytes) = item {
            chunks.push(bytes);
        }
    }
    assert_eq!(chunks, vec![b"7M".to_vec()]);
    assert_eq!(
        extractor.push(b"x"),
        vec![ExtractedInput::Input(b"x".to_vec())]
    );
}

#[test]
fn terminal_transfer_real_unpadded_statuses_drive_lifecycle_and_permission_focus() {
    let denied =
        b"\x1b]5113;ac=status;id=4c8fb1cd;st=RVBFUk06VXNlciByZWZ1c2VkIHRoZSB0cmFuc2Zlcg\x1b\\";
    assert!(session_error(denied));
    assert!(permission_denied(denied));
    assert!(session_error(
        b"\x1b]5113;ac=status;id=s;st=Q0FOQ0VMRUQ\x07"
    ));
    assert!(!session_error(b"\x1b]5113;ac=status;id=s;st=T0s\x07"));
    let mut extractor = TransferInputExtractor::default();
    extractor.push(b"\x1b[O");
    assert!(extractor.push(denied).is_empty());
    assert!(extractor.flush_timeout().is_empty());
    let items = extractor.push(b"\x1b[I");
    assert!(matches!(&items[0], ExtractedInput::Input(bytes) if bytes == b"\x1b[I"));
    assert!(matches!(&items[1], ExtractedInput::Transfer(packet) if packet.raw == denied));
}

#[test]
fn a_cancel_frame_is_exact_and_is_read_back() {
    let frame = encode_cancel("s-1");
    assert_eq!(frame, b"\x1b]5113;ac=cancel;id=s-1\x1b\\".to_vec());
    assert_eq!(
        parse_action_and_id(&frame),
        Some(("cancel".to_owned(), "s-1".to_owned()))
    );
}

#[test]
fn a_failure_frame_is_read_back_as_an_error_or_a_denial() {
    let denied = encode_failure("s", "EPERM:User refused the transfer");
    assert_eq!(
        parse_action_and_id(&denied),
        Some(("status".to_owned(), "s".to_owned()))
    );
    assert!(permission_denied(&denied));
    assert!(!permission_denied(&encode_failure("s", "EIO:failed")));
    assert!(!permission_denied(b"no frame"));
}

#[test]
fn ids_are_bounded_and_restricted() {
    let longest = "a".repeat(MAX_TRANSFER_ID_BYTES);
    let frame = format!("\x1b]5113;ac=data;id={longest}\x07").into_bytes();
    assert_eq!(
        parse_action_and_id(&frame),
        Some(("data".to_owned(), longest.clone()))
    );
    let frame = format!("\x1b]5113;ac=data;id={longest}a\x07").into_bytes();
    assert_eq!(parse_action_and_id(&frame), None);
    assert_eq!(parse_action_and_id(b"\x1b]5113;ac=data;id=\x07"), None);
    assert_eq!(parse_action_and_id(b"\x1b]5113;ac=data;id=a b\x07"), None);
    assert_eq!(parse_action_and_id(b"\x1b]5113;ac=data\x07"), None);
    assert_eq!(parse_action_and_id(b""), None);
}

#[test]
fn both_introducers_and_every_terminator_are_accepted() {
    for frame in [
        b"\x1b]5113;ac=send;id=s\x07".as_slice(),
        b"\x1b]5113;ac=send;id=s\x1b\\",
        b"\x1b]5113;ac=send;id=s\x9c",
        b"\x9d5113;ac=send;id=s\x07",
        b"\x9d5113;ac=send;id=s\x1b\\",
        b"\x9d5113;ac=send;id=s\x9c",
    ] {
        assert_eq!(
            parse_action_and_id(frame),
            Some(("send".to_owned(), "s".to_owned()))
        );
        assert_eq!(TransferScanner::default().push(frame).len(), 1);
    }
    assert_eq!(parse_action_and_id(b"\x1b]5113;ac=send;id=s"), None);
}

#[test]
fn the_longest_frame_is_a_frame_and_a_longer_one_is_not() {
    let mut frame = b"\x1b]5113;ac=data;id=s;d=".to_vec();
    frame.resize(MAX_TRANSFER_COMMAND_BYTES - 1, b'x');
    frame.push(0x07);
    assert_eq!(frame.len(), MAX_TRANSFER_COMMAND_BYTES);
    assert!(parse_action_and_id(&frame).is_some());
    assert_eq!(TransferScanner::default().push(&frame).len(), 1);
    frame.insert(30, b'x');
    assert!(parse_action_and_id(&frame).is_none());
    assert!(TransferScanner::default().push(&frame).is_empty());
}

#[test]
fn a_control_carries_a_command_and_gives_it_back() {
    let command = b"\x1b]5113;ac=send;id=s\x07";
    let control = TransferControl::new("boot", "term", command);
    assert_eq!(control.boot_id, "boot");
    assert_eq!(control.terminal_id, "term");
    assert_eq!(control.command, "G101MTEzO2FjPXNlbmQ7aWQ9cwc=");
    assert!(!control.retire);
    assert_eq!(control.decode_command(), Some(command.to_vec()));
}

#[test]
fn a_control_without_a_decodable_command_carries_none() {
    let mut control = TransferControl::new("boot", "term", b"x");
    control.command = "not base64!".to_owned();
    assert_eq!(control.decode_command(), None);
    let control = TransferControl::new("boot", "term", &vec![0u8; MAX_TRANSFER_COMMAND_BYTES]);
    assert_eq!(
        control.decode_command(),
        Some(vec![0u8; MAX_TRANSFER_COMMAND_BYTES])
    );
    let control = TransferControl::new("boot", "term", &vec![0u8; MAX_TRANSFER_COMMAND_BYTES + 1]);
    assert_eq!(control.decode_command(), None);
    let control = TransferControl::new("boot", "term", &vec![0u8; MAX_TRANSFER_COMMAND_BYTES + 3]);
    assert_eq!(control.decode_command(), None);
}

#[test]
fn padded_and_unpadded_statuses_mean_the_same() {
    assert!(session_error(b"\x1b]5113;ac=status;id=s;st=RUlPOng=\x07"));
    assert!(session_error(b"\x1b]5113;ac=status;id=s;st=RUlPOng\x07"));
    assert!(!session_error(b"\x1b]5113;ac=status;id=s;st=!\x07"));
    assert!(!session_error(b"\x1b]5113;ac=status;id=s\x07"));
    assert!(!session_error(b"no frame"));
}

#[test]
fn a_scanner_yields_the_same_however_its_input_is_cut() {
    let stream = b"text\x1b]0;title\x07\x1bPdcs\x1b\\\x1b]5113;ac=send;id=a\x07\xc3\x9d\x9d5113;ac=data;id=b\x9cend";
    let whole = TransferScanner::default().push(stream);
    assert_eq!(whole.len(), 2);
    let mut scanner = TransferScanner::default();
    let mut apart = Vec::new();
    for byte in stream {
        apart.extend(scanner.push(&[*byte]));
    }
    assert_eq!(whole, apart);
}

#[test]
fn input_without_frames_comes_out_as_it_went_in() {
    let typed = b"ls -la\r\x1b[A\x1bOP\x1b]0;title\x07\xe2\x82\xac";
    let mut extractor = TransferInputExtractor::default();
    let mut out = Vec::new();
    for byte in typed {
        for item in extractor.push(&[*byte]) {
            match item {
                ExtractedInput::Input(bytes) => out.extend(bytes),
                ExtractedInput::Transfer(_) => panic!("no frame was sent"),
            }
        }
    }
    for item in extractor.flush_timeout() {
        match item {
            ExtractedInput::Input(bytes) => out.extend(bytes),
            ExtractedInput::Transfer(_) => panic!("no frame was sent"),
        }
    }
    assert_eq!(out, typed.to_vec());
}

#[test]
fn a_frame_with_anything_around_it_is_no_frame() {
    let frame = encode_cancel("s");
    for other in [b"x".as_slice(), b"\r", b"\x07", b"\\", b"\x1b", &frame] {
        assert_eq!(parse_action_and_id(&[frame.as_slice(), other].concat()), None);
        assert_eq!(parse_action_and_id(&[other, frame.as_slice()].concat()), None);
    }
}

#[test]
fn a_judged_item_is_held_or_passed_on() {
    let packet = || TransferPacket {
        raw: b"frame".to_vec(),
        action: "status".to_owned(),
        id: "s".to_owned(),
    };
    let focus_out = || ExtractedInput::Input(b"\x1b[O".to_vec());
    let mut extractor = TransferInputExtractor::default();
    let mut output = Vec::new();
    extractor.order_as(focus_out(), false, false, &mut output);
    extractor.order_as(ExtractedInput::Transfer(packet()), true, true, &mut output);
    assert_eq!(output, vec![focus_out()]);
    assert!(extractor.flush_timeout().is_empty());
    extractor.order_as(ExtractedInput::Transfer(packet()), true, false, &mut output);
    assert_eq!(output.len(), 2);
    assert_eq!(
        extractor.flush_timeout(),
        vec![ExtractedInput::Transfer(packet())]
    );
    extractor.order_as(ExtractedInput::Transfer(packet()), false, true, &mut output);
    assert_eq!(output.len(), 3);
}

#[test]
fn an_abandoned_control_string_comes_out_unless_it_is_a_transfer() {
    for typed in [
        b"\x1b]\x18".as_slice(),
        b"\x1b]\x1a",
        b"\x1b]5113\x18",
        b"\x1b]51\x1b\x1a",
        b"\x9d\x18",
        b"\x9d5113\x1a",
    ] {
        let mut extractor = TransferInputExtractor::default();
        assert_eq!(
            extractor.push(typed),
            vec![ExtractedInput::Input(typed.to_vec())]
        );
        assert_eq!(
            extractor.push(b"x"),
            vec![ExtractedInput::Input(b"x".to_vec())]
        );
    }
    for abandoned in [b"\x1b]5113;\x18".as_slice(), b"\x9d5113;ac=send\x1b\x1a"] {
        let mut extractor = TransferInputExtractor::default();
        assert!(extractor.push(abandoned).is_empty());
        assert_eq!(
            extractor.push(b"x"),
            vec![ExtractedInput::Input(b"x".to_vec())]
        );
    }
}

#[test]
fn a_key_that_is_not_ascii_releases_a_held_denial() {
    let denied = encode_failure("s", "EPERM:denied");
    for key in ["\u{e9}", "\u{20ac}", "\u{1f600}"] {
        let mut extractor = TransferInputExtractor::default();
        extractor.push(b"\x1b[O");
        assert!(extractor.push(&denied).is_empty());
        assert!(extractor.flush_timeout().is_empty());
        let items = extractor.push(key.as_bytes());
        assert_eq!(items.len(), 2);
        assert!(matches!(&items[0], ExtractedInput::Transfer(packet) if packet.raw == denied));
        assert_eq!(items[1], ExtractedInput::Input(key.as_bytes().to_vec()));
    }
    let mut extractor = TransferInputExtractor::default();
    extractor.push(b"\x1b[O");
    extractor.push(&denied);
    assert_eq!(
        extractor.push(b"\x9b?997;1n"),
        vec![ExtractedInput::Input(b"\x9b?997;1n".to_vec())]
    );
}

#[test]
fn replies_in_other_control_strings_and_keys_with_brackets_come_out() {
    let input = "\u{1b}]11;rgb:0000/0000/0000\u{7}\u{1b}]52;c;YWJj\u{1b}\\\u{1b}]\u{1b}]5112;x\u{7}\u{39d}x";
    for cut in 0..=input.len() {
        let mut extractor = TransferInputExtractor::default();
        let mut out = Vec::new();
        let mut items = extractor.push(&input.as_bytes()[..cut]);
        items.extend(extractor.push(&input.as_bytes()[cut..]));
        for item in items {
            match item {
                ExtractedInput::Input(bytes) => out.extend(bytes),
                ExtractedInput::Transfer(_) => panic!("no frame was sent"),
            }
        }
        assert_eq!(out, input.as_bytes());
    }
}

#[test]
fn a_file_id_anywhere_keeps_an_error_from_ending_the_session() {
    for frame in [
        b"\x1b]5113;fid=x;ac=status;id=s;st=RUlPOng\x07".as_slice(),
        b"\x1b]5113;ac=status;fid=x;id=s;st=RUlPOng\x1b\\",
        b"\x9d5113;ac=status;id=s;st=RUlPOng;fid=\x9c",
    ] {
        assert!(parse_action_and_id(frame).is_some());
        assert!(!session_error(frame));
    }
}

#[test]
fn a_failure_is_an_error_whatever_the_length_of_the_id() {
    let id = "a".repeat(MAX_TRANSFER_ID_BYTES + 44);
    let frame = encode_failure(&id, "EPERM:denied");
    assert_eq!(parse_action_and_id(&frame), None);
    assert!(session_error(&frame));
    assert!(permission_denied(&frame));
    assert!(!session_error(&encode_failure(&id, "PROGRESS")));
}

#[test]
fn packets_come_in_the_order_of_the_stream() {
    let frames = [command("send", "a"), command("data", "b"), command("finish", "c")];
    let stream = [frames[0].as_slice(), b"text", &frames[1], &frames[2]].concat();
    let mut scanner = TransferScanner::default();
    let mut packets = Vec::new();
    let mut ends = Vec::new();
    for (i, byte) in stream.iter().enumerate() {
        scanner.push_byte(*byte, &mut packets);
        if packets.len() > ends.len() {
            ends.push(i + 1);
        }
    }
    assert_eq!(packets.len(), 3);
    let mut free = 0;
    for (packet, end) in packets.iter().zip(ends) {
        let begin = end - packet.raw.len();
        assert!(begin >= free);
        assert_eq!(packet.raw, stream[begin..end]);
        free = end;
    }
}

#[test]
fn a_failure_frame_is_as_long_as_its_id_and_message_make_it() {
    for (message, text) in [("", 0), ("E", 2), ("EI", 3), ("EIO", 4), ("EIO:failed", 14)] {
        assert_eq!(encode_failure("s", message).len(), 26 + 1 + text);
    }
    let id = "a".repeat(MAX_TRANSFER_ID_BYTES);
    let frame = encode_failure(&id, &"m".repeat(MAX_FAILURE_MESSAGE_BYTES));
    assert_eq!(frame.len(), MAX_TRANSFER_COMMAND_BYTES);
    assert_eq!(parse_action_and_id(&frame), Some(("status".to_owned(), id.clone())));
    assert!(session_error(&frame));
    let frame = encode_failure(&id, &"m".repeat(MAX_FAILURE_MESSAGE_BYTES + 1));
    assert_eq!(parse_action_and_id(&frame), None);
    assert!(!session_error(&frame));
}
