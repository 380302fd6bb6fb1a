//! The server's side of the sessions, and the server and the client together.
use std::collections::HashMap;

use herdr::client::{ClientAction, ClientTransferState, EndpointSendOutcome, InputStep};
use herdr::control::{
    TransferControl, TransferOperation, MAX_TRANSFER_SESSIONS, TRANSFER_DRAIN_TIMEOUT,
    TRANSFER_IDLE_TIMEOUT,
};
use herdr::endpoint::{ClientEndpointId, EndpointRegistry};
use herdr::frame::{
    encode_cancel, encode_failure, parse_action_and_id, session_error, MAX_TRANSFER_COMMAND_BYTES,
};
use herdr::server::{
    accept_reply, decode_reply, ForwardStep, HeadlessServer, RequestStep, ServerAction,
    ServerContext, TransferClient, TransferRefusal, TransferSource,
};
use herdr::table::Table;

const SECOND: u64 = 1_000_000_000;
const NOW: u64 = 1000 * SECOND;
const PANE: u64 = 7;
const CLIENT: u64 = 3;
const START: &[u8] = b"\x1b]5113;ac=send;id=s\x07";
const REPLY: &[u8] = b"\x1b]5113;ac=status;id=s;st=T0s=\x07";
const REPLY_TEXT: &str = "G101MTEzO2FjPXN0YXR1cztpZD1zO3N0PVQwcz0H";

fn source() -> TransferSource {
    TransferSource::new(11)
}

fn context() -> ServerContext {
    let mut runtimes = Table::new();
    runtimes.insert("term", source());
    runtimes.insert("other", TransferSource::new(12));
    ServerContext {
        panes: HashMap::from([
            (PANE, "term".to_owned()),
            (8, "other".to_owned()),
            (9, "gone".to_owned()),
        ]),
        runtimes,
        clients: HashMap::from([
            (
                CLIENT,
                TransferClient {
                    active_shell: true,
                    terminal_transfer: true,
                    has_writer: true,
                },
            ),
            (
                4,
                TransferClient {
                    active_shell: true,
                    terminal_transfer: true,
                    has_writer: true,
                },
            ),
        ]),
        foreground_client_id: Some(CLIENT),
        handoff_in_progress: false,
        shutting_down: false,
        boot_id: "boot".to_owned(),
    }
}

fn begun(context: &ServerContext) -> HeadlessServer {
    let mut server = HeadlessServer::new();
    let step = server.forward_terminal_transfer(PANE, source(), START, context, NOW);
    assert_eq!(
        step,
        ForwardStep::Send {
            client_id: CLIENT,
            control: TransferControl::new("boot", "term", START),
            session_id: "s".to_owned(),
        }
    );
    assert!(server
        .transfer_forwarded("s", true, context, NOW)
        .is_empty());
    server
}

fn retirement(id: &str) -> ServerAction {
    let mut control = TransferControl::new("boot", "term", &encode_cancel(id));
    control.retire = true;
    ServerAction::Control {
        client_id: CLIENT,
        control,
    }
}

fn failure(id: &str, message: &str) -> ServerAction {
    ServerAction::Input {
        terminal_id: "term".to_owned(),
        bytes: encode_failure(id, message),
    }
}

fn reply(data: &str) -> TransferOperation {
    TransferOperation::Reply {
        terminal_id: "term".to_owned(),
        session_id: "s".to_owned(),
        data: data.to_owned(),
    }
}

fn cancel(message: &str) -> TransferOperation {
    TransferOperation::Cancel {
        terminal_id: "term".to_owned(),
        session_id: "s".to_owned(),
        message: message.to_owned(),
    }
}

fn refused(refusal: TransferRefusal) -> RequestStep {
    RequestStep::Answer(vec![], Err(refusal))
}

fn retired(server: &HeadlessServer, id: &str) -> bool {
    server.transfer_routes().get(id).unwrap().retired
}

#[test]
fn a_session_goes_to_the_client_in_front() {
    let context = context();
    let server = begun(&context);
    let route = server.transfer_routes().get("s").unwrap();
    assert_eq!(route.terminal_id, "term");
    assert_eq!(route.client_id, CLIENT);
    assert!(route.source.matches(&source()));
    assert!(!route.finishing);
    assert!(!route.retired);
}

#[test]
fn a_start_that_may_not_begin_is_answered_with_the_reason() {
    let mut server = HeadlessServer::new();
    let mut stopping = context();
    stopping.shutting_down = true;
    let mut handing_off = context();
    handing_off.handoff_in_progress = true;
    for context in [&stopping, &handing_off] {
        assert_eq!(
            server.forward_terminal_transfer(PANE, source(), START, context, NOW),
            ForwardStep::Act(vec![failure("s", "ENOTCONN:server is stopping")])
        );
    }
    let mut alone = context();
    alone.foreground_client_id = None;
    let mut unable = context();
    unable.clients.get_mut(&CLIENT).unwrap().terminal_transfer = false;
    let mut hidden = context();
    hidden.clients.get_mut(&CLIENT).unwrap().active_shell = false;
    let mut mute = context();
    mute.clients.get_mut(&CLIENT).unwrap().has_writer = false;
    let mut unknown = context();
    unknown.foreground_client_id = Some(99);
    for context in [&alone, &unable, &hidden, &mute, &unknown] {
        assert_eq!(
            server.forward_terminal_transfer(PANE, source(), START, context, NOW),
            ForwardStep::Act(vec![failure(
                "s",
                "ENOTSUP:outer client does not support transfers"
            )])
        );
    }
    assert_eq!(server.transfer_routes().len(), 0);
    let context = context();
    let mut server = begun(&context);
    assert_eq!(
        server.forward_terminal_transfer(PANE, source(), START, &context, NOW),
        ForwardStep::Act(vec![failure(
            "s",
            "EBUSY:transfer session limit or id collision"
        )])
    );
}

#[test]
fn there_are_only_so_many_sessions() {
    let context = context();
    let mut server = HeadlessServer::new();
    for i in 0..MAX_TRANSFER_SESSIONS {
        let start = format!("\x1b]5113;ac=receive;id=s{i}\x07");
        server.forward_terminal_transfer(PANE, source(), start.as_bytes(), &context, NOW);
    }
    assert_eq!(server.transfer_routes().len(), MAX_TRANSFER_SESSIONS);
    assert_eq!(
        server.forward_terminal_transfer(PANE, source(), START, &context, NOW),
        ForwardStep::Act(vec![failure(
            "s",
            "EBUSY:transfer session limit or id collision"
        )])
    );
    assert_eq!(server.transfer_routes().len(), MAX_TRANSFER_SESSIONS);
}

#[test]
fn commands_from_elsewhere_are_ignored() {
    let context = context();
    let mut server = begun(&context);
    let data = b"\x1b]5113;ac=data;id=s;d=YWJj\x07";
    let nothing = ForwardStep::Act(vec![]);
    for (pane, source, command) in [
        (99, source(), data.as_slice()),
        (9, source(), data),
        (8, TransferSource::new(12), data),
        (PANE, TransferSource::new(12), data),
        (PANE, source(), b"no frame"),
        (PANE, source(), b"\x1b]5113;ac=data;id=t;d=YWJj\x07"),
    ] {
        assert_eq!(
            server.forward_terminal_transfer(pane, source, command, &context, NOW),
            nothing
        );
    }
    assert_eq!(
        server.forward_terminal_transfer(PANE, source(), data, &context, NOW),
        ForwardStep::Send {
            client_id: CLIENT,
            control: TransferControl::new("boot", "term", data),
            session_id: "s".to_owned(),
        }
    );
}

#[test]
fn a_session_stays_with_its_client_when_another_comes_to_the_front() {
    let mut context = context();
    let mut server = begun(&context);
    context.foreground_client_id = Some(4);
    let step = server.forward_terminal_transfer(
        PANE,
        source(),
        b"\x1b]5113;ac=finish;id=s\x07",
        &context,
        NOW,
    );
    assert!(matches!(
        step,
        ForwardStep::Send {
            client_id: CLIENT,
            ..
        }
    ));
    assert!(server.transfer_routes().get("s").unwrap().finishing);
}

#[test]
fn a_command_that_cannot_be_queued_retires_its_session() {
    let mut context = context();
    let mut server = begun(&context);
    assert_eq!(
        server.transfer_forwarded("s", false, &context, NOW),
        vec![
            failure("s", "EIO:outer terminal transfer queue is full"),
            retirement("s")
        ]
    );
    assert!(retired(&server, "s"));
    assert!(server
        .transfer_forwarded("s", false, &context, NOW)
        .is_empty());
    let mut server = begun(&context);
    context.clients.get_mut(&CLIENT).unwrap().has_writer = false;
    let data = b"\x1b]5113;ac=data;id=s;d=YWJj\x07";
    assert_eq!(
        server.forward_terminal_transfer(PANE, source(), data, &context, NOW),
        ForwardStep::Act(vec![failure(
            "s",
            "EIO:outer terminal transfer queue is full"
        )])
    );
    assert!(retired(&server, "s"));
}

#[test]
fn a_reply_is_handed_to_the_terminal() {
    let context = context();
    let mut server = begun(&context);
    assert_eq!(
        server.handle_terminal_transfer_request(CLIENT, reply(REPLY_TEXT), &context, NOW),
        RequestStep::Inject {
            terminal_id: "term".to_owned(),
            bytes: REPLY.to_vec(),
            session_id: "s".to_owned(),
            ended: false,
        }
    );
    let later = NOW + SECOND;
    assert_eq!(
        server.response_injected("s", false, true, &context, later),
        (vec![], Ok(()))
    );
    assert_eq!(server.transfer_routes().get("s").unwrap().touched, later);
    assert_eq!(
        server.response_injected("s", false, false, &context, later),
        (
            vec![
                failure("s", "EIO:terminal transfer input queue is full"),
                retirement("s")
            ],
            Err(TransferRefusal::InputQueueFull)
        )
    );
    assert!(retired(&server, "s"));
}

#[test]
fn a_session_error_ends_the_session_after_it_was_handed_on() {
    let context = context();
    let mut server = begun(&context);
    let error = b"\x1b]5113;ac=status;id=s;st=Q0FOQ0VMRUQ\x07";
    let control = TransferControl::new("", "", error);
    assert_eq!(
        server.handle_terminal_transfer_request(CLIENT, reply(&control.command), &context, NOW),
        RequestStep::Inject {
            terminal_id: "term".to_owned(),
            bytes: error.to_vec(),
            session_id: "s".to_owned(),
            ended: true,
        }
    );
    assert!(!retired(&server, "s"));
    assert_eq!(
        server.response_injected("s", true, true, &context, NOW),
        (vec![retirement("s")], Ok(()))
    );
    assert!(retired(&server, "s"));
    assert_eq!(
        server.handle_terminal_transfer_request(CLIENT, reply(REPLY_TEXT), &context, NOW),
        RequestStep::Answer(vec![], Ok(()))
    );
}

#[test]
fn every_refusal_has_its_cause() {
    let mut context = context();
    let mut server = HeadlessServer::new();
    assert_eq!(
        server.handle_terminal_transfer_request(CLIENT, reply(REPLY_TEXT), &context, NOW),
        refused(TransferRefusal::SessionUnavailable)
    );
    let mut server = begun(&context);
    assert_eq!(
        server.handle_terminal_transfer_request(4, reply(REPLY_TEXT), &context, NOW),
        refused(TransferRefusal::ForeignSession)
    );
    assert_eq!(
        server.handle_terminal_transfer_request(
            CLIENT,
            TransferOperation::Cancel {
                terminal_id: "other".to_owned(),
                session_id: "s".to_owned(),
                message: String::new(),
            },
            &context,
            NOW
        ),
        refused(TransferRefusal::ForeignSession)
    );
    let longest = MAX_TRANSFER_COMMAND_BYTES.div_ceil(3) * 4;
    assert_eq!(
        server.handle_terminal_transfer_request(
            CLIENT,
            reply(&"A".repeat(longest + 1)),
            &context,
            NOW
        ),
        refused(TransferRefusal::ReplyTooLarge)
    );
    assert_eq!(
        server.handle_terminal_transfer_request(
            CLIENT,
            reply(&"A".repeat(longest)),
            &context,
            NOW
        ),
        refused(TransferRefusal::ReplyMismatch)
    );
    assert_eq!(
        server.handle_terminal_transfer_request(CLIENT, reply("!"), &context, NOW),
        refused(TransferRefusal::ReplyNotBase64)
    );
    assert_eq!(
        server.handle_terminal_transfer_request(CLIENT, reply("ZWNobyB1bnNhZmUN"), &context, NOW),
        refused(TransferRefusal::ReplyMismatch)
    );
    assert_eq!(
        server.handle_terminal_transfer_request(CLIENT, cancel(&"m".repeat(257)), &context, NOW),
        refused(TransferRefusal::MessageTooLarge)
    );
    assert!(!retired(&server, "s"));
    context.runtimes.insert("term", TransferSource::new(99));
    assert_eq!(
        server.handle_terminal_transfer_request(CLIENT, reply(REPLY_TEXT), &context, NOW),
        RequestStep::Answer(
            vec![retirement("s")],
            Err(TransferRefusal::RuntimeReplaced)
        )
    );
    assert!(retired(&server, "s"));
}

#[test]
fn refusals_have_codes_and_messages() {
    for (refusal, code, message) in [
        (
            TransferRefusal::SessionUnavailable,
            "transfer_unavailable",
            "transfer session is unavailable",
        ),
        (
            TransferRefusal::ForeignSession,
            "stale_transfer",
            "transfer session belongs to another terminal or client",
        ),
        (
            TransferRefusal::RuntimeReplaced,
            "stale_transfer",
            "terminal runtime was replaced",
        ),
        (
            TransferRefusal::ReplyTooLarge,
            "invalid_transfer",
            "transfer response is too large",
        ),
        (
            TransferRefusal::ReplyNotBase64,
            "invalid_transfer",
            "transfer response is not base64",
        ),
        (
            TransferRefusal::ReplyMismatch,
            "invalid_transfer",
            "expected one matching OSC 5113 response",
        ),
        (
            TransferRefusal::InputQueueFull,
            "transfer_backpressure",
            "terminal input queue is full",
        ),
        (
            TransferRefusal::MessageTooLarge,
            "invalid_transfer",
            "cancellation message is too large",
        ),
    ] {
        assert_eq!(refusal.code(), code);
        assert_eq!(refusal.message(), message);
    }
}

#[test]
fn a_cancellation_is_told_to_the_pane() {
    let context = context();
    let mut server = begun(&context);
    let longest = "m".repeat(256);
    assert_eq!(
        server.handle_terminal_transfer_request(CLIENT, cancel(&longest), &context, NOW),
        RequestStep::Answer(
            vec![failure("s", &format!("EIO:{longest}")), retirement("s")],
            Ok(())
        )
    );
    assert!(retired(&server, "s"));
}

#[test]
fn replies_are_decoded_and_accepted_one_answer_at_a_time() {
    assert_eq!(decode_reply(REPLY_TEXT, "s"), Ok(REPLY.to_vec()));
    assert_eq!(
        decode_reply(REPLY_TEXT, "t"),
        Err(TransferRefusal::ReplyMismatch)
    );
    assert_eq!(
        accept_reply(Some(REPLY.to_vec()), "s"),
        Ok(REPLY.to_vec())
    );
    assert_eq!(
        accept_reply(Some([REPLY, REPLY].concat()), "s"),
        Err(TransferRefusal::ReplyMismatch)
    );
    assert_eq!(
        accept_reply(None, "s"),
        Err(TransferRefusal::ReplyNotBase64)
    );
}

#[test]
fn upkeep_retires_expired_sessions_and_forgets_them_later() {
    let context = context();
    let mut server = begun(&context);
    assert!(server
        .maintain_terminal_transfers(NOW + TRANSFER_IDLE_TIMEOUT - 1, &context, NOW)
        .is_empty());
    let then = NOW + TRANSFER_IDLE_TIMEOUT;
    assert_eq!(
        server.maintain_terminal_transfers(then, &context, then),
        vec![
            failure("s", "ETIMEDOUT:terminal transfer expired"),
            retirement("s")
        ]
    );
    assert!(retired(&server, "s"));
    server.maintain_terminal_transfers(then + TRANSFER_DRAIN_TIMEOUT - 1, &context, then);
    assert_eq!(server.transfer_routes().len(), 1);
    server.maintain_terminal_transfers(then + TRANSFER_DRAIN_TIMEOUT, &context, then);
    assert_eq!(server.transfer_routes().len(), 0);
    assert!(server
        .maintain_terminal_transfers(then, &context, then)
        .is_empty());
}

#[test]
fn upkeep_retires_sessions_of_replaced_runtimes_and_ending_ones_in_silence() {
    let mut context = context();
    let mut server = begun(&context);
    context.runtimes.insert("term", TransferSource::new(99));
    assert_eq!(
        server.maintain_terminal_transfers(NOW, &context, NOW),
        vec![retirement("s")]
    );
    let context = self::context();
    let mut server = begun(&context);
    server.forward_terminal_transfer(
        PANE,
        source(),
        b"\x1b]5113;ac=cancel;id=s\x07",
        &context,
        NOW,
    );
    let then = NOW + TRANSFER_DRAIN_TIMEOUT;
    assert_eq!(
        server.maintain_terminal_transfers(then, &context, then),
        vec![retirement("s")]
    );
}

#[test]
fn a_client_that_leaves_takes_its_sessions_with_it() {
    let mut context = context();
    let mut server = begun(&context);
    context.foreground_client_id = Some(4);
    server.forward_terminal_transfer(
        PANE,
        source(),
        b"\x1b]5113;ac=send;id=t\x07",
        &context,
        NOW,
    );
    assert_eq!(
        server.cancel_terminal_transfers_for_client(CLIENT, &context, NOW),
        vec![
            failure("s", "ENOTCONN:transfer client disconnected"),
            retirement("s")
        ]
    );
    assert!(retired(&server, "s"));
    assert!(!retired(&server, "t"));
}

#[test]
fn what_a_pane_says_and_what_the_terminal_answers_arrives_unchanged() {
    let context = context();
    let mut server = HeadlessServer::new();
    let mut client = ClientTransferState::default();
    let mut registry = EndpointRegistry::new();
    registry.insert(ClientEndpointId::Local, 1);
    let step = server.forward_terminal_transfer(PANE, source(), START, &context, NOW);
    let control = match step {
        ForwardStep::Send { control, .. } => control,
        ForwardStep::Act(_) => panic!("the session may begin"),
    };
    assert_eq!(
        client.handle_control(control, ClientEndpointId::Local, 1, true, &registry, NOW),
        vec![ClientAction::Write(START.to_vec())]
    );
    let (request, ticket) = match client.handle_input(REPLY, &registry, NOW) {
        InputStep::Send(request, ticket) => (request, ticket),
        InputStep::Act(_) => panic!("the session is live"),
    };
    assert!(client
        .reply_sent(ticket, EndpointSendOutcome::Sent, NOW)
        .is_empty());
    assert_eq!(
        server.handle_terminal_transfer_request(CLIENT, request.operation, &context, NOW),
        RequestStep::Inject {
            terminal_id: "term".to_owned(),
            bytes: REPLY.to_vec(),
            session_id: "s".to_owned(),
            ended: false,
        }
    );
    let actions = server.cancel_terminal_transfers_for_client(CLIENT, &context, NOW);
    for action in actions {
        if let ServerAction::Control { control, .. } = action {
            assert_eq!(
                client.handle_control(control, ClientEndpointId::Local, 1, true, &registry, NOW),
                vec![ClientAction::Write(encode_cancel("s"))]
            );
        }
    }
    assert!(client.routes().get("s").unwrap().retired);
}

#[test]
fn what_a_pane_is_told_is_an_error_of_its_session() {
    let mut stopping = context();
    stopping.shutting_down = true;
    let context = context();
    let mut told = Vec::new();
    match HeadlessServer::new().forward_terminal_transfer(PANE, source(), START, &stopping, NOW) {
        ForwardStep::Act(actions) => told.extend(actions),
        ForwardStep::Send { .. } => panic!("the server stops"),
    }
    told.extend(begun(&context).transfer_forwarded("s", false, &context, NOW));
    told.extend(begun(&context).response_injected("s", false, false, &context, NOW).0);
    told.extend(begun(&context).cancel_terminal_transfers_for_client(CLIENT, &context, NOW));
    let later = NOW + TRANSFER_IDLE_TIMEOUT;
    told.extend(begun(&context).maintain_terminal_transfers(later, &context, later));
    for message in ["", "OK"] {
        match begun(&context).handle_terminal_transfer_request(CLIENT, cancel(message), &context, NOW) {
            RequestStep::Answer(actions, Ok(())) => told.extend(actions),
            _ => panic!("the session is live"),
        }
    }
    let mut reports = 0;
    for action in told {
        if let ServerAction::Input { terminal_id, bytes } = action {
            assert_eq!(terminal_id, "term");
            assert_eq!(
                parse_action_and_id(&bytes),
                Some(("status".to_owned(), "s".to_owned()))
            );
            assert!(session_error(&bytes));
            reports += 1;
        }
    }
    assert_eq!(reports, 7);
}
