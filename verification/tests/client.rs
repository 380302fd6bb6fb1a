//! The client's side of the sessions.
use herdr::client::{
    acknowledges, members_acknowledge, ChunkStep, ClientAction, ClientTransferState,
    EndpointSendOutcome, InputStep, Owner, TransferRequest, MAX_PENDING_REPLIES,
    MAX_RESPONSE_BYTES, REPLY_TIMEOUT,
};
use herdr::control::{
    TransferControl, TransferOperation, MAX_TRANSFER_SESSIONS, TRANSFER_DRAIN_TIMEOUT,
    TRANSFER_IDLE_TIMEOUT,
};
use herdr::endpoint::{ClientEndpointId, EndpointRegistry};
use herdr::frame::{encode_cancel, encode_failure};

const SECOND: u64 = 1_000_000_000;

/// An outer terminal and the connections of a client, as far as a test looks at them.
struct Host {
    state: ClientTransferState,
    registry: EndpointRegistry,
    out: Vec<u8>,
    sent: Vec<TransferRequest>,
    clock: u64,
}

impl Host {
    fn new() -> Self {
        let mut registry = EndpointRegistry::new();
        registry.insert(ClientEndpointId::Local, 1);
        Self {
            state: ClientTransferState::default(),
            registry,
            out: Vec::new(),
            sent: Vec::new(),
            clock: 1000 * SECOND,
        }
    }

    fn perform(&mut self, actions: Vec<ClientAction>) {
        for action in actions {
            match action {
                ClientAction::Request(request) => self.sent.push(request),
                ClientAction::Write(bytes) => self.out.extend(bytes),
            }
        }
    }

    fn control(
        &mut self,
        control: TransferControl,
        endpoint: ClientEndpointId,
        generation: u64,
        active: bool,
    ) {
        let actions = self.state.handle_control(
            control,
            endpoint,
            generation,
            active,
            &self.registry,
            self.clock,
        );
        self.perform(actions);
    }

    fn start(&mut self) {
        self.control(
            TransferControl::new("boot", "term", b"\x1b]5113;ac=send;id=s;pw=sha256:keep\x07"),
            ClientEndpointId::Local,
            1,
            true,
        );
    }

    fn input_with(&mut self, command: &[u8], outcome: EndpointSendOutcome) {
        match self
            .state
            .handle_input(command, &self.registry, self.clock)
        {
            InputStep::Act(actions) => self.perform(actions),
            InputStep::Send(request, ticket) => {
                assert!(self.state.awaits(&ticket));
                if outcome == EndpointSendOutcome::Sent {
                    self.sent.push(request);
                }
                let actions = self.state.reply_sent(ticket, outcome, self.clock);
                self.perform(actions);
            }
        }
    }

    fn input(&mut self, command: &[u8]) {
        self.input_with(command, EndpointSendOutcome::Sent);
    }

    /// Whether the reply was refused.
    fn response(&mut self, id: &str, final_chunk: bool, data: &[u8]) -> bool {
        let (actions, refused) = self.state.handle_response(
            (&ClientEndpointId::Local, 1, "boot"),
            id,
            final_chunk,
            data,
            &self.registry,
            self.clock,
        );
        self.perform(actions);
        refused
    }

    fn maintain(&mut self, now: u64) {
        let actions = self.state.maintain(now, &self.registry, self.clock);
        self.perform(actions);
    }

    fn retired(&self, id: &str) -> bool {
        self.state.routes().get(id).unwrap().retired
    }
}

fn remote() -> ClientEndpointId {
    ClientEndpointId::Ssh("0123456789abcdef0123456789abcdef".to_owned())
}

const REPLY: &[u8] = b"\x1b]5113;ac=status;id=s;st=T0s=\x07";

#[test]
fn terminal_transfer_pins_replies_across_focus_and_rejects_endpoint_collision() {
    let mut host = Host::new();
    host.registry.insert(remote(), 2);
    host.start();
    assert!(host
        .out
        .windows(b"pw=sha256:keep\x07".len())
        .any(|bytes| bytes == b"pw=sha256:keep\x07"));
    let before = host.out.clone();
    host.control(
        TransferControl::new("other", "otherterm", b"\x1b]5113;ac=receive;id=s\x07"),
        remote(),
        2,
        true,
    );
    assert_eq!(host.out, before, "colliding start must never reach host");
    assert_eq!(host.sent.len(), 1);
    assert_eq!(host.sent[0].endpoint_id, remote());
    assert!(matches!(
        host.sent[0].operation,
        TransferOperation::Cancel { .. }
    ));
    let local = |host: &Host| {
        host.sent
            .iter()
            .filter(|request| request.endpoint_id == ClientEndpointId::Local)
            .count()
    };
    host.input(b"\x1b]5113;ac=status;id=s;st=T0s=\x07");
    assert_eq!(local(&host), 1);
    assert_eq!(host.state.pending().len(), 1);
    host.registry.insert(ClientEndpointId::Local, 3);
    host.input(b"\x1b]5113;ac=data;id=s;d=YWJj\x07");
    assert_eq!(
        local(&host),
        1,
        "old host reply must not reach new generation"
    );
    assert!(host.out.ends_with(&encode_cancel("s")));
    assert_eq!(host.state.pending().len(), 0);
}

#[test]
fn terminal_transfer_reply_errors_and_pending_limit_abort_observably() {
    let mut host = Host::new();
    host.start();
    let response = b"\x1b]5113;ac=status;id=s;st=T0s=\x07";
    host.input(response);
    let id = host.state.pending().key_at(0).to_owned();
    let error = format!("{{\"id\":\"{id}\",\"error\":{{\"code\":\"transfer_backpressure\"}}}}");
    assert!(host.response(&id, true, error.as_bytes()));
    assert!(host.out.ends_with(&encode_cancel("s")));
    assert!(host.retired("s"));
    assert!(host.sent.len() >= 2);
    host.state = ClientTransferState::default();
    host.start();
    for _ in 0..=MAX_PENDING_REPLIES {
        host.input(response);
    }
    assert_eq!(host.state.pending().len(), 0);
    assert!(host.retired("s"));
}

#[test]
fn terminal_transfer_finish_and_cancel_keep_late_replies_out_of_new_sessions() {
    let mut host = Host::new();
    host.start();
    host.control(
        TransferControl::new("boot", "term", b"\x1b]5113;ac=finish;id=s\x07"),
        ClientEndpointId::Local,
        1,
        false,
    );
    assert!(!host.retired("s"));
    host.input(&encode_failure("s", "EIO:late commit error"));
    assert_eq!(
        host.state.pending().len(),
        1,
        "late finish error still reaches original process"
    );
    assert!(host.retired("s"));
    host.maintain(host.clock + TRANSFER_DRAIN_TIMEOUT + SECOND);
    assert_eq!(host.state.routes().len(), 0);
    assert_eq!(host.state.pending().len(), 0);
}

#[test]
fn terminal_transfer_retirement_overtaking_queued_start_cannot_reopen_host_session() {
    let mut host = Host::new();
    let mut control = TransferControl::new("boot", "term", &encode_cancel("s"));
    control.retire = true;
    host.control(control, ClientEndpointId::Local, 1, true);
    host.start();
    assert!(
        host.out.is_empty(),
        "priority cancellation must prevent an earlier queued start reaching host"
    );
    assert!(host.retired("s"));
}

#[test]
fn a_reply_carries_the_bytes_of_the_terminal() {
    let mut host = Host::new();
    host.start();
    host.input(REPLY);
    assert_eq!(host.sent.len(), 1);
    let request = &host.sent[0];
    assert_eq!(request.endpoint_id, ClientEndpointId::Local);
    assert_eq!(request.boot_id, "boot");
    assert_eq!(request.id, "terminal-transfer-1");
    assert_eq!(
        request.operation,
        TransferOperation::Reply {
            terminal_id: "term".to_owned(),
            session_id: "s".to_owned(),
            data: "G101MTEzO2FjPXN0YXR1cztpZD1zO3N0PVQwcz0H".to_owned(),
        }
    );
    assert!(host.state.has_response(&request.id));
    assert!(!host.state.has_response("terminal-transfer"));
    assert!(!host.state.has_response("other-1"));
}

#[test]
fn request_ids_are_never_given_out_twice() {
    let mut host = Host::new();
    host.start();
    for _ in 0..12 {
        host.input(REPLY);
    }
    let ids: Vec<String> = host.sent.iter().map(|request| request.id.clone()).collect();
    assert_eq!(ids[8], "terminal-transfer-9");
    assert_eq!(ids[9], "terminal-transfer-10");
    assert_eq!(ids[11], "terminal-transfer-12");
    for (i, id) in ids.iter().enumerate() {
        assert!(!ids[..i].contains(id));
    }
}

#[test]
fn an_acknowledgement_in_chunks_settles_a_reply() {
    let mut host = Host::new();
    host.start();
    host.input(REPLY);
    let before = host.out.clone();
    assert!(!host.response("terminal-transfer-1", false, b"{\"id\":\"terminal-"));
    assert_eq!(host.state.pending().len(), 1);
    assert!(!host.response("terminal-transfer-1", true, b"transfer-1\",\"result\":null}"));
    assert_eq!(host.state.pending().len(), 0);
    assert_eq!(host.out, before);
    assert!(!host.retired("s"));
}

#[test]
fn responses_from_elsewhere_are_ignored() {
    let mut host = Host::new();
    host.start();
    host.input(REPLY);
    let document = b"{\"id\":\"terminal-transfer-1\",\"result\":{}}";
    for (endpoint, generation, boot) in [
        (remote(), 1, "boot"),
        (ClientEndpointId::Local, 2, "boot"),
        (ClientEndpointId::Local, 1, "other"),
    ] {
        let (actions, refused) = host.state.handle_response(
            (&endpoint, generation, boot),
            "terminal-transfer-1",
            true,
            document,
            &host.registry,
            host.clock,
        );
        assert!(actions.is_empty());
        assert!(!refused);
        assert_eq!(host.state.pending().len(), 1);
    }
    assert!(!host.response("terminal-transfer-2", true, document));
    assert_eq!(host.state.pending().len(), 1);
    assert!(!host.response("terminal-transfer-1", true, document));
    assert_eq!(host.state.pending().len(), 0);
}

#[test]
fn a_response_that_is_too_long_is_refused() {
    let mut host = Host::new();
    host.start();
    host.input(REPLY);
    assert!(!host.response("terminal-transfer-1", false, &vec![b' '; MAX_RESPONSE_BYTES]));
    assert!(!host.retired("s"));
    assert!(host.response("terminal-transfer-1", false, b" "));
    assert!(host.retired("s"));
    assert!(host.out.ends_with(&encode_cancel("s")));
    assert_eq!(
        host.sent.last().unwrap().operation,
        TransferOperation::Cancel {
            terminal_id: "term".to_owned(),
            session_id: "s".to_owned(),
            message: "transfer response rejected by server".to_owned(),
        }
    );
}

#[test]
fn the_parts_of_a_response_can_be_taken_one_by_one() {
    let mut host = Host::new();
    host.start();
    host.input(REPLY);
    let step = host.state.receive_chunk(
        &ClientEndpointId::Local,
        1,
        "boot",
        "terminal-transfer-1",
        true,
        b"{}",
    );
    assert_eq!(step, ChunkStep::Judge(b"{}".to_vec()));
    let actions = host
        .state
        .settle_response("terminal-transfer-1", false, &host.registry, host.clock);
    host.perform(actions);
    assert!(host.retired("s"));
    let actions = host
        .state
        .settle_response("terminal-transfer-1", false, &host.registry, host.clock);
    assert!(actions.is_empty());
}

#[test]
fn only_a_result_without_an_error_acknowledges() {
    assert!(acknowledges(b"{\"id\":\"a\",\"result\":1}", "a"));
    assert!(acknowledges(b"{\"id\":\"a\",\"result\":null}", "a"));
    assert!(!acknowledges(b"{\"id\":\"b\",\"result\":1}", "a"));
    assert!(!acknowledges(b"{\"id\":1,\"result\":1}", "1"));
    assert!(!acknowledges(b"{\"id\":\"a\"}", "a"));
    assert!(!acknowledges(b"{\"id\":\"a\",\"result\":1,\"error\":null}", "a"));
    assert!(!acknowledges(b"[\"id\",\"result\"]", "a"));
    assert!(!acknowledges(b"{\"id\":\"a\",\"result\":1", "a"));
    assert!(members_acknowledge(
        &Some(Some("a".to_owned())),
        &Some(None),
        &None,
        "a"
    ));
    assert!(!members_acknowledge(
        &Some(Some("a".to_owned())),
        &Some(None),
        &Some(None),
        "a"
    ));
    assert!(!members_acknowledge(&Some(None), &Some(None), &None, "a"));
    assert!(!members_acknowledge(&None, &Some(None), &None, "a"));
}

#[test]
fn a_reply_that_is_not_sent_retires_its_session() {
    let mut host = Host::new();
    host.start();
    host.input_with(REPLY, EndpointSendOutcome::NotSent);
    assert!(host.retired("s"));
    assert!(host.sent.is_empty());
    assert!(host.out.ends_with(&encode_cancel("s")));
    let before = host.out.clone();
    host.input(REPLY);
    assert_eq!(host.out, before);
    assert!(host.sent.is_empty());
}

#[test]
fn input_that_is_no_answer_in_a_session_does_nothing() {
    let mut host = Host::new();
    host.start();
    let before = host.out.clone();
    host.input(b"typed");
    host.input(b"\x1b]5113;ac=send;id=s\x07");
    host.input(b"\x1b]5113;ac=status;id=t;st=T0s=\x07");
    assert_eq!(host.out, before);
    assert!(host.sent.is_empty());
    assert_eq!(host.state.pending().len(), 0);
}

#[test]
fn commands_and_retirements_from_others_do_nothing() {
    let mut host = Host::new();
    host.registry.insert(remote(), 2);
    host.start();
    let before = host.out.clone();
    let data = b"\x1b]5113;ac=data;id=s;d=YWJj\x07";
    for (boot, term, endpoint, generation) in [
        ("boot", "term", remote(), 1),
        ("boot", "term", ClientEndpointId::Local, 2),
        ("other", "term", ClientEndpointId::Local, 1),
        ("boot", "other", ClientEndpointId::Local, 1),
    ] {
        let control = TransferControl::new(boot, term, data);
        host.control(control, endpoint.clone(), generation, true);
        let mut control = TransferControl::new(boot, term, &encode_cancel("s"));
        control.retire = true;
        host.control(control, endpoint, generation, true);
    }
    assert_eq!(host.out, before);
    assert!(!host.retired("s"));
    host.control(
        TransferControl::new("boot", "term", data),
        ClientEndpointId::Local,
        1,
        false,
    );
    assert!(host.out.ends_with(data));
}

#[test]
fn a_retirement_from_the_owner_cancels_once() {
    let mut host = Host::new();
    host.start();
    let mut control = TransferControl::new("boot", "term", &encode_cancel("s"));
    control.retire = true;
    host.control(control.clone(), ClientEndpointId::Local, 1, true);
    assert!(host.retired("s"));
    assert!(host.out.ends_with(&encode_cancel("s")));
    assert!(host.sent.is_empty());
    let before = host.out.clone();
    host.control(control, ClientEndpointId::Local, 1, true);
    assert_eq!(host.out, before);
}

#[test]
fn a_start_from_behind_or_beyond_the_limit_is_refused() {
    let mut host = Host::new();
    let start = |id: &str| {
        TransferControl::new(
            "boot",
            "term",
            format!("\x1b]5113;ac=send;id={id}\x07").as_bytes(),
        )
    };
    host.control(start("a"), ClientEndpointId::Local, 1, false);
    assert!(host.out.is_empty());
    assert_eq!(host.sent.len(), 1);
    assert_eq!(
        host.sent[0].operation,
        TransferOperation::Cancel {
            terminal_id: "term".to_owned(),
            session_id: "a".to_owned(),
            message: "outer transfer id is busy or endpoint is inactive".to_owned(),
        }
    );
    for i in 0..MAX_TRANSFER_SESSIONS {
        host.control(start(&format!("s{i}")), ClientEndpointId::Local, 1, true);
    }
    assert_eq!(host.state.routes().len(), MAX_TRANSFER_SESSIONS);
    assert_eq!(host.sent.len(), 1);
    let before = host.out.clone();
    host.control(start("more"), ClientEndpointId::Local, 1, true);
    assert_eq!(host.out, before);
    assert_eq!(host.sent.len(), 2);
    assert_eq!(host.state.routes().len(), MAX_TRANSFER_SESSIONS);
}

#[test]
fn a_control_without_a_command_does_nothing() {
    let mut host = Host::new();
    let mut control = TransferControl::new("boot", "term", b"x");
    control.command = "!".to_owned();
    host.control(control, ClientEndpointId::Local, 1, true);
    host.control(
        TransferControl::new("boot", "term", b"no frame"),
        ClientEndpointId::Local,
        1,
        true,
    );
    assert!(host.out.is_empty());
    assert_eq!(host.state.routes().len(), 0);
}

#[test]
fn a_command_can_be_handled_without_its_control() {
    let mut host = Host::new();
    let owner = Owner {
        endpoint_id: ClientEndpointId::Local,
        generation: 1,
        boot_id: "boot".to_owned(),
        terminal_id: "term".to_owned(),
    };
    let start = b"\x1b]5113;ac=receive;id=s\x07".to_vec();
    let actions = host.state.handle_command(
        start.clone(),
        &owner,
        false,
        true,
        &host.registry,
        host.clock,
    );
    assert_eq!(actions, vec![ClientAction::Write(start)]);
}

#[test]
fn upkeep_retires_what_went_stale() {
    let mut host = Host::new();
    host.start();
    host.maintain(host.clock + TRANSFER_IDLE_TIMEOUT - 1);
    assert!(!host.retired("s"));
    host.maintain(host.clock + TRANSFER_IDLE_TIMEOUT);
    assert_eq!(host.state.routes().len(), 0);
    assert!(host.out.ends_with(&encode_cancel("s")));
    assert_eq!(
        host.sent.last().unwrap().operation,
        TransferOperation::Cancel {
            terminal_id: "term".to_owned(),
            session_id: "s".to_owned(),
            message: "transfer endpoint disconnected or timed out".to_owned(),
        }
    );
}

#[test]
fn upkeep_drains_a_session_that_is_ending_without_a_word() {
    let mut host = Host::new();
    host.start();
    host.control(
        TransferControl::new("boot", "term", b"\x1b]5113;ac=finish;id=s\x07"),
        ClientEndpointId::Local,
        1,
        true,
    );
    host.maintain(host.clock + TRANSFER_DRAIN_TIMEOUT - 1);
    assert!(!host.retired("s"));
    let then = host.clock;
    host.clock = then + TRANSFER_DRAIN_TIMEOUT;
    host.maintain(host.clock);
    assert!(host.retired("s"));
    assert!(host.sent.is_empty());
    assert!(host.out.ends_with(&encode_cancel("s")));
    host.maintain(host.clock + TRANSFER_DRAIN_TIMEOUT);
    assert_eq!(host.state.routes().len(), 0);
}

#[test]
fn upkeep_retires_sessions_of_lost_endpoints_and_of_overdue_replies() {
    let mut host = Host::new();
    host.start();
    host.input(REPLY);
    host.maintain(host.clock + REPLY_TIMEOUT - 1);
    assert!(!host.retired("s"));
    host.clock += REPLY_TIMEOUT;
    host.maintain(host.clock);
    assert!(host.retired("s"));
    assert_eq!(host.state.pending().len(), 0);
    assert_eq!(
        host.sent.last().unwrap().operation,
        TransferOperation::Cancel {
            terminal_id: "term".to_owned(),
            session_id: "s".to_owned(),
            message: "transfer response acknowledgement timed out".to_owned(),
        }
    );
    let mut host = Host::new();
    host.start();
    host.registry.insert(ClientEndpointId::Local, 2);
    host.maintain(host.clock);
    assert!(host.retired("s"));
    assert!(host.sent.is_empty());
    assert!(host.out.ends_with(&encode_cancel("s")));
}

#[test]
fn upkeep_may_be_left_off_between_steps() {
    let mut host = Host::new();
    for id in ["a", "b"] {
        let start = format!("\x1b]5113;ac=send;id={id}\x07");
        host.control(
            TransferControl::new("boot", "term", start.as_bytes()),
            ClientEndpointId::Local,
            1,
            true,
        );
    }
    let now = host.clock + TRANSFER_IDLE_TIMEOUT;
    let mut upkeep = host.state.begin_maintenance(now, &host.registry);
    let actions = host
        .state
        .maintain_step(&mut upkeep, &host.registry, now)
        .unwrap();
    assert_eq!(
        actions.last(),
        Some(&ClientAction::Write(encode_cancel("a")))
    );
    assert!(host.retired("a"));
    assert!(!host.retired("b"));
    let mut steps = 0;
    while host
        .state
        .maintain_step(&mut upkeep, &host.registry, now)
        .is_some()
    {
        steps += 1;
    }
    assert_eq!(steps, 3);
    assert!(host.retired("b"));
}

#[test]
fn a_client_that_goes_away_cancels_its_live_sessions() {
    let mut host = Host::new();
    host.state = ClientTransferState::new();
    host.start();
    host.control(
        TransferControl::new("boot", "term", b"\x1b]5113;ac=send;id=t\x07"),
        ClientEndpointId::Local,
        1,
        true,
    );
    host.input_with(REPLY, EndpointSendOutcome::NotSent);
    assert_eq!(host.state.cleanup(), vec![encode_cancel("t")]);
    let mut host = Host::new();
    host.start();
    assert!(host.state.cleanup().is_empty());
}

#[test]
fn each_sent_reply_is_one_more_pending_reply() {
    let mut host = Host::new();
    host.start();
    for i in 0..20 {
        assert_eq!(host.state.pending().len(), i);
        host.input(REPLY);
        assert_eq!(
            host.state.pending().key_at(i),
            format!("terminal-transfer-{}", i + 1)
        );
    }
}

#[test]
fn a_refused_reply_of_an_ended_session_is_still_refused() {
    let mut host = Host::new();
    host.start();
    host.input(&encode_failure("s", "EIO:failed"));
    assert!(host.retired("s"));
    let before = host.out.clone();
    assert!(host.response("terminal-transfer-1", true, b"{}"));
    assert_eq!(host.out, before);
    assert_eq!(host.state.pending().len(), 0);
}
