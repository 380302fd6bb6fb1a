//! The client's side of the transfer sessions: which endpoint owns which session of the outer
//! terminal, and which replies it has not acknowledged yet.
//!
//! The functions decide and record; what is to be sent or written they hand back as actions, which
//! the caller performs in order. Moments are nanoseconds of one monotonic clock.
use vstd::prelude::*;
use vstd::string::*;
use vstd::utf8::*;

use crate::bytes;
use crate::codec;
use crate::control;
use crate::control::{
    ControlModel, OperationModel, TransferControl, TransferOperation, MAX_TRANSFER_SESSIONS,
    TRANSFER_DRAIN_TIMEOUT, TRANSFER_IDLE_TIMEOUT,
};
use crate::decimal;
use crate::endpoint;
use crate::endpoint::{ClientEndpointId, EndpointModel, EndpointRegistry};
use crate::frame;
use crate::frame_laws;
use crate::table;
use crate::table::Table;
use crate::upkeep;
use crate::upkeep::DueRetirement;

verus! {

/// The number of replies that may wait for their acknowledgement at one time.
pub const MAX_PENDING_REPLIES: usize = 2048;

/// How long a reply may wait for its acknowledgement, in nanoseconds.
pub const REPLY_TIMEOUT: u64 = 30_000_000_000;

/// The longest acknowledgement that is accepted, in bytes.
pub const MAX_RESPONSE_BYTES: usize = 4096;

/// The method under which requests travel.
pub const TRANSFER_METHOD: &'static str = "terminal.transfer";

/// What the ids of transfer requests begin with.
pub const REQUEST_ID_PREFIX: &'static str = "terminal-transfer-";

/// Told to the server when a session cannot begin.
pub const BUSY_MESSAGE: &'static str = "outer transfer id is busy or endpoint is inactive";

/// Told to the server when a terminal's reply cannot be sent.
pub const UNAVAILABLE_MESSAGE: &'static str =
    "transfer response connection is unavailable or congested";

/// Told to the server when it refused a reply.
pub const REJECTED_MESSAGE: &'static str = "transfer response rejected by server";

/// Told to the server when a session went stale.
pub const STALE_MESSAGE: &'static str = "transfer endpoint disconnected or timed out";

/// Told to the server when a reply was not acknowledged in time.
pub const OVERDUE_MESSAGE: &'static str = "transfer response acknowledgement timed out";

/// The pane of an endpoint that a session belongs to.
#[derive(Debug)]
pub struct Owner {
    pub endpoint_id: ClientEndpointId,
    pub generation: u64,
    pub boot_id: String,
    pub terminal_id: String,
}

/// The model of an owner.
pub struct OwnerModel {
    pub endpoint_id: EndpointModel,
    pub generation: u64,
    pub boot_id: Seq<char>,
    pub terminal_id: Seq<char>,
}

impl View for Owner {
    type V = OwnerModel;

    open spec fn view(&self) -> OwnerModel {
        OwnerModel {
            endpoint_id: self.endpoint_id@,
            generation: self.generation,
            boot_id: self.boot_id@,
            terminal_id: self.terminal_id@,
        }
    }
}

impl Clone for Owner {
    fn clone(&self) -> (copy: Owner)
        ensures
            copy@ == self@,
    {
        Owner {
            endpoint_id: self.endpoint_id.clone(),
            generation: self.generation,
            boot_id: self.boot_id.clone(),
            terminal_id: self.terminal_id.clone(),
        }
    }
}

impl Owner {
    /// Whether two owners are the same.
    pub fn matches(&self, other: &Owner) -> (same: bool)
        ensures
            same == (self@ == other@),
    {
        self.endpoint_id.same(&other.endpoint_id) && self.generation == other.generation
            && bytes::text_equal(self.boot_id.as_str(), other.boot_id.as_str())
            && bytes::text_equal(self.terminal_id.as_str(), other.terminal_id.as_str())
    }
}

/// A session of the outer terminal. A retired one only keeps its id from being reused for a while.
#[derive(Debug)]
pub struct TransferRoute {
    pub owner: Owner,
    pub touched: u64,
    pub finishing: bool,
    pub retired: bool,
}

/// The model of a session.
pub struct RouteModel {
    pub owner: OwnerModel,
    pub touched: u64,
    pub finishing: bool,
    pub retired: bool,
}

impl View for TransferRoute {
    type V = RouteModel;

    open spec fn view(&self) -> RouteModel {
        RouteModel {
            owner: self.owner@,
            touched: self.touched,
            finishing: self.finishing,
            retired: self.retired,
        }
    }
}

/// A reply that waits for its acknowledgement, with what has arrived of it.
#[derive(Debug)]
pub struct PendingReply {
    pub owner: Owner,
    pub session_id: String,
    pub sent: u64,
    pub response: Vec<u8>,
}

/// The model of a reply that waits for its acknowledgement.
pub struct PendingModel {
    pub owner: OwnerModel,
    pub session_id: Seq<char>,
    pub sent: u64,
    pub response: Seq<u8>,
}

impl View for PendingReply {
    type V = PendingModel;

    open spec fn view(&self) -> PendingModel {
        PendingModel {
            owner: self.owner@,
            session_id: self.session_id@,
            sent: self.sent,
            response: self.response@,
        }
    }
}

/// A request to the server behind an endpoint.
#[derive(Debug, PartialEq, Eq)]
pub struct TransferRequest {
    pub endpoint_id: ClientEndpointId,
    pub boot_id: String,
    pub id: String,
    pub operation: TransferOperation,
}

/// The model of a request.
pub struct RequestModel {
    pub endpoint_id: EndpointModel,
    pub boot_id: Seq<char>,
    pub id: Seq<char>,
    pub operation: OperationModel,
}

impl View for TransferRequest {
    type V = RequestModel;

    open spec fn view(&self) -> RequestModel {
        RequestModel {
            endpoint_id: self.endpoint_id@,
            boot_id: self.boot_id@,
            id: self.id@,
            operation: self.operation@,
        }
    }
}

/// What is left for the caller to do.
#[derive(Debug, PartialEq, Eq)]
pub enum ClientAction {
    /// Send a request, whether or not it gets through.
    Request(TransferRequest),
    /// Write bytes to the outer terminal, and flush.
    Write(Vec<u8>),
}

/// The model of an action.
pub enum ActionModel {
    Request(RequestModel),
    Write(Seq<u8>),
}

impl View for ClientAction {
    type V = ActionModel;

    open spec fn view(&self) -> ActionModel {
        match self {
            ClientAction::Request(request) => ActionModel::Request(request@),
            ClientAction::Write(bytes) => ActionModel::Write(bytes@),
        }
    }
}

/// The models of some actions.
pub open spec fn action_models(actions: Seq<ClientAction>) -> Seq<ActionModel> {
    actions.map_values(|action: ClientAction| action@)
}

/// The sessions and replies of a client.
#[derive(Debug)]
pub struct ClientTransferState {
    routes: Table<TransferRoute>,
    pending: Table<PendingReply>,
    next_request_id: u64,
    cleanup_on_drop: bool,
}

/// The model of a client's state.
pub struct ClientModel {
    pub routes: Seq<(Seq<char>, RouteModel)>,
    pub pending: Seq<(Seq<char>, PendingModel)>,
    pub next_request_id: u64,
    pub cleanup_on_drop: bool,
}

impl View for ClientTransferState {
    type V = ClientModel;

    closed spec fn view(&self) -> ClientModel {
        ClientModel {
            routes: self.routes@,
            pending: self.pending@,
            next_request_id: self.next_request_id,
            cleanup_on_drop: self.cleanup_on_drop,
        }
    }
}

/// A client that knows of no session.
pub open spec fn initial_client(cleanup_on_drop: bool) -> ClientModel {
    ClientModel {
        routes: Seq::empty(),
        pending: Seq::empty(),
        next_request_id: 0,
        cleanup_on_drop,
    }
}

/// Whether a pending reply belongs to a session that is still recorded, with the same owner.
pub open spec fn has_route(routes: Seq<(Seq<char>, RouteModel)>, pending: PendingModel) -> bool {
    table::get(routes, pending.session_id) matches Some(route) && route.owner == pending.owner
}

/// What holds of a client at every moment: no session and no request is recorded twice, there are
/// no more of either than is allowed, every session has an acceptable id, and every pending reply
/// belongs to a recorded session of its owner.
pub open spec fn is_wf(state: ClientModel) -> bool {
    &&& table::is_unique(state.routes)
    &&& table::is_unique(state.pending)
    &&& state.routes.len() <= MAX_TRANSFER_SESSIONS
    &&& state.pending.len() <= MAX_PENDING_REPLIES
    &&& forall|i: int|
        0 <= i < state.routes.len() ==> frame::is_session_id((#[trigger] state.routes[i]).0)
    &&& forall|i: int|
        0 <= i < state.pending.len() ==> has_route(state.routes, (#[trigger] state.pending[i]).1)
}

/// The id of the request with the given number.
pub open spec fn request_id_text(number: u64) -> Seq<char> {
    REQUEST_ID_PREFIX@ + decimal::decimal(number as nat)
}

/// Whether every pending reply has the id of a request that was numbered so far. That is so until
/// the numbers are used up and begin again.
pub open spec fn has_earlier_ids(state: ClientModel) -> bool {
    forall|i: int|
        0 <= i < state.pending.len() ==> is_earlier_id(
            (#[trigger] state.pending[i]).0,
            state.next_request_id,
        )
}

/// Whether `id` is that of a request with at most the given number.
pub open spec fn is_earlier_id(id: Seq<char>, number: u64) -> bool {
    exists|n: u64| n <= number && id == #[trigger] request_id_text(n)
}

/// The number of the request after the one with the given number.
pub open spec fn next_number(number: u64) -> u64 {
    if number == u64::MAX {
        0
    } else {
        (number + 1) as u64
    }
}

/// The client, and the request, once it has asked `operation` of the owner of a session.
pub open spec fn requested(
    state: ClientModel,
    owner: OwnerModel,
    operation: OperationModel,
) -> (ClientModel, RequestModel) {
    let number = next_number(state.next_request_id);
    (
        ClientModel { next_request_id: number, ..state },
        RequestModel {
            endpoint_id: owner.endpoint_id,
            boot_id: owner.boot_id,
            id: request_id_text(number),
            operation,
        },
    )
}

/// The client, and its actions, once it has told the owner of a session that the session is
/// cancelled, where the owner's endpoint takes requests.
pub open spec fn cancel_notified(
    state: ClientModel,
    owner: OwnerModel,
    id: Seq<char>,
    message: Seq<char>,
    registry: Seq<(EndpointModel, u64)>,
) -> (ClientModel, Seq<ActionModel>) {
    if endpoint::accepts(registry, owner.endpoint_id, owner.generation) {
        let (after, request) = requested(
            state,
            owner,
            OperationModel::Cancel { terminal_id: owner.terminal_id, session_id: id, message },
        );
        (after, seq![ActionModel::Request(request)])
    } else {
        (state, Seq::empty())
    }
}

/// The client, and its actions, once it has retired a session: where the session is live, its
/// replies are forgotten, its owner is told of the error, if there is one, and the outer terminal
/// is told to cancel.
pub open spec fn retired(
    state: ClientModel,
    id: Seq<char>,
    error: Option<Seq<char>>,
    registry: Seq<(EndpointModel, u64)>,
    clock: u64,
) -> (ClientModel, Seq<ActionModel>) {
    match table::get(state.routes, id) {
        Some(route) if !route.retired => {
            let silent = ClientModel {
                routes: table::put(
                    state.routes,
                    id,
                    RouteModel { retired: true, touched: clock, ..route },
                ),
                pending: state.pending.filter(
                    |entry: (Seq<char>, PendingModel)| entry.1.session_id != id,
                ),
                ..state
            };
            let (after, notice) = match error {
                Some(message) => cancel_notified(silent, route.owner, id, message, registry),
                None => (silent, Seq::empty()),
            };
            (after, notice.push(ActionModel::Write(frame::cancel_frame(id))))
        },
        _ => (state, Seq::empty()),
    }
}

/// The client, and its actions, once a retirement has arrived from the server. It may overtake the
/// start of its session: then the id is taken at once, so that the start finds it in use.
pub open spec fn retirement_received(
    state: ClientModel,
    id: Seq<char>,
    owner: OwnerModel,
    registry: Seq<(EndpointModel, u64)>,
    clock: u64,
) -> (ClientModel, Seq<ActionModel>) {
    let marked = if !table::has_key(state.routes, id) && state.routes.len()
        < MAX_TRANSFER_SESSIONS {
        ClientModel {
            routes: table::put(
                state.routes,
                id,
                RouteModel { owner, touched: clock, finishing: false, retired: true },
            ),
            ..state
        }
    } else {
        state
    };
    match table::get(marked.routes, id) {
        Some(route) if route.owner == owner => retired(marked, id, None, registry, clock),
        _ => (marked, Seq::empty()),
    }
}

/// The client, and its actions, once a command of a live session has arrived from the server: the
/// command goes to the outer terminal, where it comes from the owner of the session.
pub open spec fn command_forwarded(
    state: ClientModel,
    command: Seq<u8>,
    action: Seq<char>,
    id: Seq<char>,
    owner: OwnerModel,
    clock: u64,
) -> (ClientModel, Seq<ActionModel>) {
    match table::get(state.routes, id) {
        Some(route) if !route.retired && route.owner == owner => (
            ClientModel {
                routes: table::put(
                    state.routes,
                    id,
                    RouteModel {
                        touched: clock,
                        finishing: route.finishing || frame::is_end_action(action),
                        ..route
                    },
                ),
                ..state
            },
            seq![ActionModel::Write(command)],
        ),
        _ => (state, Seq::empty()),
    }
}

/// Whether a session may begin: its endpoint is in front, its id is free and there is room.
pub open spec fn may_start(state: ClientModel, id: Seq<char>, active: bool) -> bool {
    active && !table::has_key(state.routes, id) && state.routes.len() < MAX_TRANSFER_SESSIONS
}

/// The client, and its actions, once a command has arrived from the server.
pub open spec fn command_received(
    state: ClientModel,
    command: Seq<u8>,
    owner: OwnerModel,
    retire: bool,
    active: bool,
    registry: Seq<(EndpointModel, u64)>,
    clock: u64,
) -> (ClientModel, Seq<ActionModel>) {
    match frame::frame_of(command) {
        None => (state, Seq::empty()),
        Some((action, id)) => if retire {
            retirement_received(state, id, owner, registry, clock)
        } else if frame::is_start_action(action) {
            if may_start(state, id, active) {
                let begun = ClientModel {
                    routes: table::put(
                        state.routes,
                        id,
                        RouteModel { owner, touched: clock, finishing: false, retired: false },
                    ),
                    ..state
                };
                command_forwarded(begun, command, action, id, owner, clock)
            } else {
                cancel_notified(state, owner, id, BUSY_MESSAGE@, registry)
            }
        } else {
            command_forwarded(state, command, action, id, owner, clock)
        },
    }
}

/// The client, and its actions, once a control has arrived from the server: nothing happens where
/// the control carries no command.
pub open spec fn control_received(
    state: ClientModel,
    control: ControlModel,
    endpoint_id: EndpointModel,
    generation: u64,
    active: bool,
    registry: Seq<(EndpointModel, u64)>,
    clock: u64,
) -> (ClientModel, Seq<ActionModel>) {
    match control::decoded_command(control.command) {
        None => (state, Seq::empty()),
        Some(command) => command_received(
            state,
            command,
            OwnerModel {
                endpoint_id,
                generation,
                boot_id: control.boot_id,
                terminal_id: control.terminal_id,
            },
            control.retire,
            active,
            registry,
            clock,
        ),
    }
}

/// What came of a request.
#[derive(Clone, Copy, Debug, PartialEq, Eq)]
pub enum EndpointSendOutcome {
    Sent,
    NotSent,
}

/// A reply on its way to the server. It is to be settled with `reply_sent`, before anything else is
/// asked of the client.
#[derive(Debug)]
pub struct ReplyTicket {
    pub owner: Owner,
    pub session_id: String,
    pub request_id: String,
    pub ended: bool,
}

/// The model of a reply on its way.
pub struct TicketModel {
    pub owner: OwnerModel,
    pub session_id: Seq<char>,
    pub request_id: Seq<char>,
    pub ended: bool,
}

impl View for ReplyTicket {
    type V = TicketModel;

    open spec fn view(&self) -> TicketModel {
        TicketModel {
            owner: self.owner@,
            session_id: self.session_id@,
            request_id: self.request_id@,
            ended: self.ended,
        }
    }
}

/// What is left for the caller to do about input from the outer terminal.
#[derive(Debug)]
pub enum InputStep {
    /// Perform these actions.
    Act(Vec<ClientAction>),
    /// Send the request, and report the outcome with the ticket.
    Send(TransferRequest, ReplyTicket),
}

/// The model of an input step.
pub enum StepModel {
    Act(Seq<ActionModel>),
    Send(RequestModel, TicketModel),
}

impl View for InputStep {
    type V = StepModel;

    open spec fn view(&self) -> StepModel {
        match self {
            InputStep::Act(actions) => StepModel::Act(action_models(actions@)),
            InputStep::Send(request, ticket) => StepModel::Send(request@, ticket@),
        }
    }
}

/// The client, and what is left to do, once a frame has arrived from the outer terminal. An answer
/// in a live session goes to the owner of the session as a reply, where the owner's endpoint takes
/// requests and not too many replies are pending; else the session is retired.
pub open spec fn input_received(
    state: ClientModel,
    command: Seq<u8>,
    registry: Seq<(EndpointModel, u64)>,
    clock: u64,
) -> (ClientModel, StepModel) {
    match frame::frame_of(command) {
        Some((action, id)) if frame::is_response_action(action) => {
            match table::get(state.routes, id) {
                Some(route) if !route.retired => if endpoint::accepts(
                    registry,
                    route.owner.endpoint_id,
                    route.owner.generation,
                ) && state.pending.len() < MAX_PENDING_REPLIES {
                    let (after, request) = requested(
                        state,
                        route.owner,
                        OperationModel::Reply {
                            terminal_id: route.owner.terminal_id,
                            session_id: id,
                            data: codec::base64_encoded(command),
                        },
                    );
                    (
                        after,
                        StepModel::Send(
                            request,
                            TicketModel {
                                owner: route.owner,
                                session_id: id,
                                request_id: request.id,
                                ended: frame::is_session_error(command),
                            },
                        ),
                    )
                } else {
                    let (after, actions) = retired(
                        state,
                        id,
                        Some(UNAVAILABLE_MESSAGE@),
                        registry,
                        clock,
                    );
                    (after, StepModel::Act(actions))
                },
                _ => (state, StepModel::Act(Seq::empty())),
            }
        },
        _ => (state, StepModel::Act(Seq::empty())),
    }
}

/// Whether the outcome of this reply is what the client waits for: its session is live and has the
/// reply's owner, and there is room for the reply.
pub open spec fn awaits_outcome(state: ClientModel, ticket: TicketModel) -> bool {
    &&& table::get(state.routes, ticket.session_id) matches Some(route) && !route.retired
        && route.owner == ticket.owner
    &&& state.pending.len() < MAX_PENDING_REPLIES
}

/// The client, and its actions, once the outcome of a reply is known. A reply that was sent waits
/// for its acknowledgement, and its session ends with it where it reports an error; one that was
/// not sent retires its session.
pub open spec fn reply_settled(
    state: ClientModel,
    ticket: TicketModel,
    outcome: EndpointSendOutcome,
    clock: u64,
) -> (ClientModel, Seq<ActionModel>) {
    match outcome {
        EndpointSendOutcome::NotSent => retired(
            state,
            ticket.session_id,
            None,
            Seq::empty(),
            clock,
        ),
        EndpointSendOutcome::Sent => {
            let pending = table::put(
                state.pending,
                ticket.request_id,
                PendingModel {
                    owner: ticket.owner,
                    session_id: ticket.session_id,
                    sent: clock,
                    response: Seq::empty(),
                },
            );
            let routes = match table::get(state.routes, ticket.session_id) {
                Some(route) => table::put(
                    state.routes,
                    ticket.session_id,
                    RouteModel { touched: clock, retired: route.retired || ticket.ended, ..route },
                ),
                None => state.routes,
            };
            (ClientModel { pending, routes, ..state }, Seq::empty())
        },
    }
}

/// Requests with different numbers have different ids.
pub proof fn law_request_ids_are_distinct(a: u64, b: u64)
    requires
        request_id_text(a) == request_id_text(b),
    ensures
        a == b,
{
    let prefix = REQUEST_ID_PREFIX@;
    let (text_a, text_b) = (request_id_text(a), request_id_text(b));
    assert(text_a.skip(prefix.len() as int) =~= decimal::decimal(a as nat));
    assert(text_b.skip(prefix.len() as int) =~= decimal::decimal(b as nat));
    decimal::law_decimal_is_injective(a as nat, b as nat);
}

/// The id of the next request is that of no pending reply.
pub proof fn lemma_next_id_is_new(state: ClientModel)
    requires
        has_earlier_ids(state),
        state.next_request_id < u64::MAX,
    ensures
        !table::has_key(state.pending, request_id_text(next_number(state.next_request_id))),
{
    let id = request_id_text(next_number(state.next_request_id));
    if table::has_key(state.pending, id) {
        let i = choose|i: int| 0 <= i < state.pending.len() && (#[trigger] state.pending[i]).0 == id;
        assert(is_earlier_id(state.pending[i].0, state.next_request_id));
        let n = choose|n: u64| n <= state.next_request_id && id == #[trigger] request_id_text(n);
        law_request_ids_are_distinct(n, next_number(state.next_request_id));
    }
}

/// The outcome of a reply keeps what holds of a client.
pub proof fn lemma_reply_settled_wf(
    state: ClientModel,
    ticket: TicketModel,
    outcome: EndpointSendOutcome,
    clock: u64,
)
    requires
        is_wf(state),
        awaits_outcome(state, ticket),
    ensures
        is_wf(reply_settled(state, ticket, outcome, clock).0),
{
    let id = ticket.session_id;
    lemma_retired_wf(state, id, None, Seq::empty(), clock);
    let route = table::get(state.routes, id)->0;
    table::lemma_get_has(state.routes, id);
    let i = choose|i: int| 0 <= i < state.routes.len() && state.routes[i] == (id, route);
    assert(frame::is_session_id(state.routes[i].0));
    let changed = RouteModel { touched: clock, retired: route.retired || ticket.ended, ..route };
    lemma_route_wf(state, id, changed);
    table::lemma_put(state.routes, id, changed, id);
    let reply = PendingModel {
        owner: ticket.owner,
        session_id: id,
        sent: clock,
        response: Seq::empty(),
    };
    table::lemma_put(state.pending, ticket.request_id, reply, id);
    table::lemma_put_entries(state.pending, ticket.request_id, reply);
    let routes = table::put(state.routes, id, changed);
    let pending = table::put(state.pending, ticket.request_id, reply);
    assert forall|j: int| 0 <= j < pending.len() implies has_route(
        routes,
        (#[trigger] pending[j]).1,
    ) by {
        if pending[j] != (ticket.request_id, reply) {
            assert(has_route(routes, state.pending[j].1));
        }
    }
}

/// What is to be done about a chunk of an acknowledgement.
pub enum ChunkModel {
    /// Nothing: it is not awaited, or more is to come.
    Wait,
    /// Judge the acknowledgement, which is complete.
    Judge(Seq<u8>),
    /// Refuse the acknowledgement, which is too long.
    Refuse,
}

/// The client, and what is to be done, once a chunk of an acknowledgement has arrived. Chunks from
/// elsewhere than the endpoint, connection and server that the reply went to are ignored.
pub open spec fn chunk_received(
    state: ClientModel,
    endpoint_id: EndpointModel,
    generation: u64,
    boot_id: Seq<char>,
    request_id: Seq<char>,
    final_chunk: bool,
    data: Seq<u8>,
) -> (ClientModel, ChunkModel) {
    match table::get(state.pending, request_id) {
        Some(reply) if reply.owner.endpoint_id == endpoint_id && reply.owner.generation
            == generation && reply.owner.boot_id == boot_id => {
            if reply.response.len() + data.len() <= MAX_RESPONSE_BYTES {
                let response = reply.response + data;
                let after = ClientModel {
                    pending: table::put(
                        state.pending,
                        request_id,
                        PendingModel { response, ..reply },
                    ),
                    ..state
                };
                (
                    after,
                    if final_chunk {
                        ChunkModel::Judge(response)
                    } else {
                        ChunkModel::Wait
                    },
                )
            } else {
                (state, ChunkModel::Refuse)
            }
        },
        _ => (state, ChunkModel::Wait),
    }
}

/// Whether the members `id`, `result` and `error` of a response acknowledge a request: it names
/// the request, has a result and has no error.
pub open spec fn is_acknowledgement(
    id: Option<Option<Seq<char>>>,
    result: Option<Option<Seq<char>>>,
    error: Option<Option<Seq<char>>>,
    request_id: Seq<char>,
) -> bool {
    id == Some(Some(request_id)) && result is Some && error is None
}

/// Whether a response document acknowledges a request.
pub open spec fn acknowledged(document: Seq<u8>, request_id: Seq<char>) -> bool {
    is_acknowledgement(
        codec::json_member_of(document, "id"@),
        codec::json_member_of(document, "result"@),
        codec::json_member_of(document, "error"@),
        request_id,
    )
}

/// The client, and its actions, once the response to a reply has been judged: the reply is no
/// longer pending, and a refusal retires its session.
pub open spec fn response_settled(
    state: ClientModel,
    request_id: Seq<char>,
    accepted: bool,
    registry: Seq<(EndpointModel, u64)>,
    clock: u64,
) -> (ClientModel, Seq<ActionModel>) {
    match table::get(state.pending, request_id) {
        None => (state, Seq::empty()),
        Some(reply) => {
            let after = ClientModel {
                pending: table::without(state.pending, request_id),
                ..state
            };
            if accepted {
                (after, Seq::empty())
            } else {
                retired(after, reply.session_id, Some(REJECTED_MESSAGE@), registry, clock)
            }
        },
    }
}

/// Whether a chunk of an acknowledgement brings about that the reply is refused.
pub open spec fn is_refused(step: ChunkModel, request_id: Seq<char>) -> bool {
    match step {
        ChunkModel::Wait => false,
        ChunkModel::Judge(document) => !acknowledged(document, request_id),
        ChunkModel::Refuse => true,
    }
}

/// The client, its actions, and whether the reply is refused, once a chunk of an acknowledgement has
/// arrived.
pub open spec fn response_received(
    state: ClientModel,
    origin: (EndpointModel, u64, Seq<char>),
    request_id: Seq<char>,
    final_chunk: bool,
    data: Seq<u8>,
    registry: Seq<(EndpointModel, u64)>,
    clock: u64,
) -> (ClientModel, Seq<ActionModel>, bool) {
    let (after, step) = chunk_received(
        state,
        origin.0,
        origin.1,
        origin.2,
        request_id,
        final_chunk,
        data,
    );
    match step {
        ChunkModel::Wait => (after, Seq::empty(), false),
        _ => {
            let refused = is_refused(step, request_id);
            let (last, actions) = response_settled(after, request_id, !refused, registry, clock);
            (last, actions, refused)
        },
    }
}

/// A chunk of an acknowledgement keeps what holds of a client.
pub proof fn lemma_chunk_received_wf(
    state: ClientModel,
    endpoint_id: EndpointModel,
    generation: u64,
    boot_id: Seq<char>,
    request_id: Seq<char>,
    final_chunk: bool,
    data: Seq<u8>,
)
    requires
        is_wf(state),
    ensures
        is_wf(
            chunk_received(
                state,
                endpoint_id,
                generation,
                boot_id,
                request_id,
                final_chunk,
                data,
            ).0,
        ),
{
    if let Some(reply) = table::get(state.pending, request_id) {
        let more = PendingModel { response: reply.response + data, ..reply };
        table::lemma_get_has(state.pending, request_id);
        table::lemma_put(state.pending, request_id, more, request_id);
        table::lemma_put_entries(state.pending, request_id, more);
        let i = choose|i: int|
            0 <= i < state.pending.len() && state.pending[i] == (request_id, reply);
        assert(has_route(state.routes, state.pending[i].1));
        let pending = table::put(state.pending, request_id, more);
        assert forall|j: int| 0 <= j < pending.len() implies has_route(
            state.routes,
            (#[trigger] pending[j]).1,
        ) by {
            if pending[j] != (request_id, more) {
                assert(has_route(state.routes, state.pending[j].1));
            }
        }
    }
}

/// Forgetting replies keeps what holds of a client.
pub proof fn lemma_fewer_replies_wf(
    state: ClientModel,
    keep: spec_fn((Seq<char>, PendingModel)) -> bool,
)
    requires
        is_wf(state),
    ensures
        is_wf(ClientModel { pending: state.pending.filter(keep), ..state }),
{
    let pending = state.pending.filter(keep);
    table::lemma_filter(state.pending, keep, Seq::empty());
    table::lemma_kept(state.pending, keep);
    assert forall|i: int| 0 <= i < pending.len() implies has_route(
        state.routes,
        (#[trigger] pending[i]).1,
    ) by {
        assert(state.pending.contains(pending[i]));
    }
}

/// How far the upkeep of a client has come.
#[derive(Clone, Copy, Debug, PartialEq, Eq, Structural)]
pub enum MaintenanceStage {
    /// Stale sessions are being retired.
    Stale,
    /// Sessions with overdue replies are being retired.
    Overdue,
    /// Everything is done.
    Done,
}

/// The upkeep of a client, which goes step by step: a caller that cannot perform the actions of one
/// step may leave the rest undone.
#[derive(Debug)]
pub struct Maintenance {
    now: u64,
    stage: MaintenanceStage,
    due: Vec<DueRetirement>,
    next: usize,
}

/// The model of an upkeep: the moment it is for, its stage, and the sessions that are still to be
/// retired in that stage.
pub struct MaintenanceModel {
    pub now: u64,
    pub stage: MaintenanceStage,
    pub due: Seq<(Seq<char>, Option<Seq<char>>)>,
}

impl View for Maintenance {
    type V = MaintenanceModel;

    closed spec fn view(&self) -> MaintenanceModel {
        MaintenanceModel {
            now: self.now,
            stage: self.stage,
            due: upkeep::due_models(self.due@).skip(self.next as int),
        }
    }
}

impl Maintenance {
    /// The retirements that are left stand in the list of those that were due.
    pub closed spec fn wf(&self) -> bool {
        self.next <= self.due@.len()
    }
}

/// How long a session may stay without traffic.
pub open spec fn patience(route: RouteModel) -> u64 {
    if route.finishing {
        TRANSFER_DRAIN_TIMEOUT
    } else {
        TRANSFER_IDLE_TIMEOUT
    }
}

/// Whether a session is stale: it is live, and either its endpoint no longer takes requests or it
/// has been without traffic for too long.
pub open spec fn is_stale(
    route: RouteModel,
    registry: Seq<(EndpointModel, u64)>,
    now: u64,
) -> bool {
    !route.retired && (!endpoint::accepts(
        registry,
        route.owner.endpoint_id,
        route.owner.generation,
    ) || upkeep::elapsed(now, route.touched) >= patience(route))
}

/// The stale sessions. The owner of one that was ending anyway is told nothing.
pub open spec fn stale_sessions(
    routes: Seq<(Seq<char>, RouteModel)>,
    registry: Seq<(EndpointModel, u64)>,
    now: u64,
) -> Seq<(Seq<char>, Option<Seq<char>>)> {
    routes.filter(|entry: (Seq<char>, RouteModel)| is_stale(entry.1, registry, now)).map_values(
        |entry: (Seq<char>, RouteModel)|
            (
                entry.0,
                if entry.1.finishing {
                    None
                } else {
                    Some(STALE_MESSAGE@)
                },
            ),
    )
}

/// Whether a reply has waited too long for its acknowledgement.
pub open spec fn is_overdue(reply: PendingModel, now: u64) -> bool {
    upkeep::elapsed(now, reply.sent) >= REPLY_TIMEOUT
}

/// The sessions of the overdue replies.
pub open spec fn overdue_sessions(pending: Seq<(Seq<char>, PendingModel)>, now: u64) -> Seq<
    (Seq<char>, Option<Seq<char>>),
> {
    pending.filter(|entry: (Seq<char>, PendingModel)| is_overdue(entry.1, now)).map_values(
        |entry: (Seq<char>, PendingModel)| (entry.1.session_id, Some(OVERDUE_MESSAGE@)),
    )
}

/// The client, and its actions, once it has retired some sessions, one after the other.
pub open spec fn retired_each(
    state: ClientModel,
    due: Seq<(Seq<char>, Option<Seq<char>>)>,
    registry: Seq<(EndpointModel, u64)>,
    clock: u64,
) -> (ClientModel, Seq<ActionModel>)
    decreases due.len(),
{
    if due.len() == 0 {
        (state, Seq::empty())
    } else {
        let (first, actions) = retired(state, due[0].0, due[0].1, registry, clock);
        let (last, more) = retired_each(first, due.skip(1), registry, clock);
        (last, actions + more)
    }
}

/// Whether a session is kept: a retired one is, for a while.
pub open spec fn is_kept(route: RouteModel, now: u64) -> bool {
    !route.retired || upkeep::elapsed(now, route.touched) < TRANSFER_DRAIN_TIMEOUT
}

/// The client once it has forgotten the sessions that were retired long ago, and the replies that
/// are overdue or have no session.
pub open spec fn pruned(state: ClientModel, now: u64) -> ClientModel {
    let routes = state.routes.filter(|entry: (Seq<char>, RouteModel)| is_kept(entry.1, now));
    ClientModel {
        routes,
        pending: state.pending.filter(
            |entry: (Seq<char>, PendingModel)|
                table::has_key(routes, entry.1.session_id) && !is_overdue(entry.1, now),
        ),
        ..state
    }
}

/// The upkeep that is to be done. There is none where no session is recorded.
pub open spec fn maintenance_due(
    state: ClientModel,
    registry: Seq<(EndpointModel, u64)>,
    now: u64,
) -> MaintenanceModel {
    if state.routes.len() == 0 {
        MaintenanceModel { now, stage: MaintenanceStage::Done, due: Seq::empty() }
    } else {
        MaintenanceModel {
            now,
            stage: MaintenanceStage::Stale,
            due: stale_sessions(state.routes, registry, now),
        }
    }
}

/// The client, the upkeep that is left and the actions, once one step of the upkeep is done; no
/// actions where nothing was left.
pub open spec fn maintenance_step(
    state: ClientModel,
    upkeep: MaintenanceModel,
    registry: Seq<(EndpointModel, u64)>,
    clock: u64,
) -> (ClientModel, MaintenanceModel, Option<Seq<ActionModel>>) {
    match upkeep.stage {
        MaintenanceStage::Done => (state, upkeep, None),
        _ => if upkeep.due.len() > 0 {
            let (after, actions) = retired(
                state,
                upkeep.due[0].0,
                upkeep.due[0].1,
                registry,
                clock,
            );
            (after, MaintenanceModel { due: upkeep.due.skip(1), ..upkeep }, Some(actions))
        } else if upkeep.stage == MaintenanceStage::Stale {
            (
                state,
                MaintenanceModel {
                    stage: MaintenanceStage::Overdue,
                    due: overdue_sessions(state.pending, upkeep.now),
                    ..upkeep
                },
                Some(Seq::empty()),
            )
        } else {
            (
                pruned(state, upkeep.now),
                MaintenanceModel { stage: MaintenanceStage::Done, ..upkeep },
                Some(Seq::empty()),
            )
        },
    }
}

/// The client, and its actions, once all that is left of an upkeep is done.
pub open spec fn maintenance_rest(
    state: ClientModel,
    upkeep: MaintenanceModel,
    registry: Seq<(EndpointModel, u64)>,
    clock: u64,
) -> (ClientModel, Seq<ActionModel>) {
    match upkeep.stage {
        MaintenanceStage::Done => (state, Seq::empty()),
        MaintenanceStage::Overdue => {
            let (after, actions) = retired_each(state, upkeep.due, registry, clock);
            (pruned(after, upkeep.now), actions)
        },
        MaintenanceStage::Stale => {
            let (first, actions) = retired_each(state, upkeep.due, registry, clock);
            let (after, more) = retired_each(
                first,
                overdue_sessions(first.pending, upkeep.now),
                registry,
                clock,
            );
            (pruned(after, upkeep.now), actions + more)
        },
    }
}

/// The client, and its actions, once it has been looked after: stale sessions and those with
/// overdue replies are retired, and what was retired long ago is forgotten.
pub open spec fn maintained(
    state: ClientModel,
    registry: Seq<(EndpointModel, u64)>,
    now: u64,
    clock: u64,
) -> (ClientModel, Seq<ActionModel>) {
    maintenance_rest(state, maintenance_due(state, registry, now), registry, clock)
}

/// A step and the rest after it make up what was left.
pub proof fn law_steps_make_up_maintenance(
    state: ClientModel,
    upkeep: MaintenanceModel,
    registry: Seq<(EndpointModel, u64)>,
    clock: u64,
)
    ensures
        ({
            let (after, left, actions) = maintenance_step(state, upkeep, registry, clock);
            let (last, more) = maintenance_rest(after, left, registry, clock);
            maintenance_rest(state, upkeep, registry, clock) == (
                last,
                (match actions {
                    Some(done) => done,
                    None => Seq::empty(),
                }) + more,
            )
        }),
{
    let (after, left, actions) = maintenance_step(state, upkeep, registry, clock);
    let (last, more) = maintenance_rest(after, left, registry, clock);
    let done = match actions {
        Some(done) => done,
        None => Seq::empty(),
    };
    let (whole_state, whole) = maintenance_rest(state, upkeep, registry, clock);
    assert(whole =~= done + more);
}

/// Looking after a client keeps what holds of it, in each step.
pub proof fn lemma_pruned_wf(state: ClientModel, now: u64)
    requires
        is_wf(state),
    ensures
        is_wf(pruned(state, now)),
{
    let keep = |entry: (Seq<char>, RouteModel)| is_kept(entry.1, now);
    let routes = state.routes.filter(keep);
    let keep_reply = |entry: (Seq<char>, PendingModel)|
        table::has_key(routes, entry.1.session_id) && !is_overdue(entry.1, now);
    let pending = state.pending.filter(keep_reply);
    table::lemma_filter(state.routes, keep, Seq::empty());
    table::lemma_kept(state.routes, keep);
    table::lemma_filter(state.pending, keep_reply, Seq::empty());
    table::lemma_kept(state.pending, keep_reply);
    assert(pruned(state, now).routes == routes);
    assert(pruned(state, now).pending == pending);
    assert forall|i: int| 0 <= i < routes.len() implies frame::is_session_id(
        (#[trigger] routes[i]).0,
    ) by {
        assert(state.routes.contains(routes[i]));
    }
    assert forall|i: int| 0 <= i < pending.len() implies has_route(
        routes,
        (#[trigger] pending[i]).1,
    ) by {
        let reply = pending[i].1;
        assert(keep_reply(pending[i]));
        assert(state.pending.contains(pending[i]));
        assert(has_route(state.routes, reply));
        table::lemma_filter(state.routes, keep, reply.session_id);
        table::lemma_get_has(routes, reply.session_id);
    }
}

/// Recording a session under an acceptable id, in place of what its owner had there or where there
/// is room, keeps what holds of a client.
pub proof fn lemma_route_wf(state: ClientModel, id: Seq<char>, route: RouteModel)
    requires
        is_wf(state),
        frame::is_session_id(id),
        match table::get(state.routes, id) {
            Some(earlier) => earlier.owner == route.owner,
            None => state.routes.len() < MAX_TRANSFER_SESSIONS,
        },
    ensures
        is_wf(ClientModel { routes: table::put(state.routes, id, route), ..state }),
{
    let routes = table::put(state.routes, id, route);
    table::lemma_get_has(state.routes, id);
    table::lemma_put(state.routes, id, route, id);
    table::lemma_put_entries(state.routes, id, route);
    assert forall|i: int| 0 <= i < routes.len() implies frame::is_session_id(
        (#[trigger] routes[i]).0,
    ) by {
        if routes[i] != (id, route) {
            assert(frame::is_session_id(state.routes[i].0));
        }
    }
    assert forall|i: int| 0 <= i < state.pending.len() implies has_route(
        routes,
        (#[trigger] state.pending[i]).1,
    ) by {
        assert(has_route(state.routes, state.pending[i].1));
        table::lemma_put(state.routes, id, route, state.pending[i].1.session_id);
    }
}

/// A command from the server keeps what holds of a client.
pub proof fn lemma_command_received_wf(
    state: ClientModel,
    command: Seq<u8>,
    owner: OwnerModel,
    retire: bool,
    active: bool,
    registry: Seq<(EndpointModel, u64)>,
    clock: u64,
)
    requires
        is_wf(state),
    ensures
        is_wf(command_received(state, command, owner, retire, active, registry, clock).0),
{
    frame_laws::lemma_frame_id(command);
    if let Some((action, id)) = frame::frame_of(command) {
        let live = RouteModel { owner, touched: clock, finishing: false, retired: false };
        let mark = RouteModel { owner, touched: clock, finishing: false, retired: true };
        table::lemma_get_has(state.routes, id);
        if retire {
            if !table::has_key(state.routes, id) && state.routes.len() < MAX_TRANSFER_SESSIONS {
                lemma_route_wf(state, id, mark);
                let marked = ClientModel { routes: table::put(state.routes, id, mark), ..state };
                lemma_retired_wf(marked, id, None, registry, clock);
            } else {
                lemma_retired_wf(state, id, None, registry, clock);
            }
        } else {
            let begun = if frame::is_start_action(action) && may_start(state, id, active) {
                lemma_route_wf(state, id, live);
                ClientModel { routes: table::put(state.routes, id, live), ..state }
            } else {
                state
            };
            if let Some(route) = table::get(begun.routes, id) {
                lemma_route_wf(
                    begun,
                    id,
                    RouteModel {
                        touched: clock,
                        finishing: route.finishing || frame::is_end_action(action),
                        ..route
                    },
                );
            }
        }
    }
}

/// Retiring a session keeps what holds of a client.
pub proof fn lemma_retired_wf(
    state: ClientModel,
    id: Seq<char>,
    error: Option<Seq<char>>,
    registry: Seq<(EndpointModel, u64)>,
    clock: u64,
)
    requires
        is_wf(state),
    ensures
        is_wf(retired(state, id, error, registry, clock).0),
{
    table::lemma_get_has(state.routes, id);
    if let Some(route) = table::get(state.routes, id) {
        if !route.retired {
            let retiree = RouteModel { retired: true, touched: clock, ..route };
            let other = |entry: (Seq<char>, PendingModel)| entry.1.session_id != id;
            let routes = table::put(state.routes, id, retiree);
            let pending = state.pending.filter(other);
            table::lemma_put(state.routes, id, retiree, id);
            table::lemma_put_entries(state.routes, id, retiree);
            table::lemma_filter(state.pending, other, id);
            table::lemma_kept(state.pending, other);
            assert forall|i: int| 0 <= i < routes.len() implies frame::is_session_id(
                (#[trigger] routes[i]).0,
            ) by {
                assert(frame::is_session_id(state.routes[i].0));
            }
            assert forall|i: int| 0 <= i < pending.len() implies has_route(
                routes,
                (#[trigger] pending[i]).1,
            ) by {
                let entry = pending[i];
                assert(state.pending.contains(entry));
                table::lemma_put(state.routes, id, retiree, entry.1.session_id);
            }
        }
    }
}

impl ClientTransferState {
    /// A client that cancels its sessions when it goes away.
    pub fn new() -> (state: ClientTransferState)
        ensures
            state@ == initial_client(true),
            is_wf(state@),
            has_earlier_ids(state@),
    {
        ClientTransferState {
            routes: Table::new(),
            pending: Table::new(),
            next_request_id: 0,
            cleanup_on_drop: true,
        }
    }

    /// The sessions, by their ids.
    pub fn routes(&self) -> (routes: &Table<TransferRoute>)
        ensures
            routes@ == self@.routes,
    {
        &self.routes
    }

    /// The replies that wait for their acknowledgement, by the ids of their requests.
    pub fn pending(&self) -> (pending: &Table<PendingReply>)
        ensures
            pending@ == self@.pending,
    {
        &self.pending
    }

    /// The request of `operation` to the owner of a session.
    fn request(&mut self, owner: &Owner, operation: TransferOperation) -> (request: TransferRequest)
        ensures
            final(self)@ == requested(old(self)@, owner@, operation@).0,
            request@ == requested(old(self)@, owner@, operation@).1,
    {
        self.next_request_id = self.next_request_id.wrapping_add(1);
        let mut id = REQUEST_ID_PREFIX.to_owned();
        id.append(decimal::decimal_text(self.next_request_id).as_str());
        TransferRequest {
            endpoint_id: owner.endpoint_id.clone(),
            boot_id: owner.boot_id.clone(),
            id,
            operation,
        }
    }

    /// Tells the owner of a session that the session is cancelled, where its endpoint takes
    /// requests.
    fn notify_cancel(
        &mut self,
        owner: &Owner,
        id: &str,
        message: &str,
        endpoints: &EndpointRegistry,
        actions: &mut Vec<ClientAction>,
    )
        ensures
            final(self)@ == cancel_notified(old(self)@, owner@, id@, message@, endpoints@).0,
            action_models(final(actions)@) == action_models(old(actions)@) + cancel_notified(
                old(self)@,
                owner@,
                id@,
                message@,
                endpoints@,
            ).1,
    {
        let ghost earlier = actions@;
        if endpoints.accepts(&owner.endpoint_id, owner.generation) {
            let request = self.request(
                owner,
                TransferOperation::Cancel {
                    terminal_id: owner.terminal_id.clone(),
                    session_id: id.to_owned(),
                    message: message.to_owned(),
                },
            );
            actions.push(ClientAction::Request(request));
            assert(action_models(actions@) =~= action_models(earlier).push(
                ActionModel::Request(request@),
            ));
        }
        assert(action_models(actions@) =~= action_models(earlier) + cancel_notified(
            old(self)@,
            owner@,
            id@,
            message@,
            endpoints@,
        ).1);
    }

    /// Forgets the replies of a session.
    fn forget_replies(&mut self, id: &str)
        ensures
            final(self)@ == (ClientModel {
                pending: old(self)@.pending.filter(
                    |entry: (Seq<char>, PendingModel)| entry.1.session_id != id@,
                ),
                ..old(self)@
            }),
    {
        let mut keep: Vec<bool> = Vec::new();
        let mut i: usize = 0;
        while i < self.pending.len()
            invariant
                self@ == old(self)@,
                i <= self.pending@.len(),
                keep@.len() == i,
                forall|j: int|
                    0 <= j < i ==> #[trigger] keep@[j] == (self.pending@[j].1.session_id != id@),
            decreases self.pending@.len() - i,
        {
            keep.push(!bytes::text_equal(self.pending.value_at(i).session_id.as_str(), id));
            i += 1;
        }
        self.pending.retain(
            &keep,
            Ghost(|entry: (Seq<char>, PendingModel)| entry.1.session_id != id@),
        );
    }

    /// Retires a session, where it is live.
    fn retire(
        &mut self,
        id: &str,
        error: Option<&str>,
        endpoints: &EndpointRegistry,
        clock: u64,
    ) -> (actions: Vec<ClientAction>)
        requires
            is_wf(old(self)@),
        ensures
            is_wf(final(self)@),
            final(self)@ == retired(
                old(self)@,
                id@,
                upkeep::message_model(error),
                endpoints@,
                clock,
            ).0,
            action_models(actions@) == retired(
                old(self)@,
                id@,
                upkeep::message_model(error),
                endpoints@,
                clock,
            ).1,
    {
        let ghost before = self@;
        let mut actions: Vec<ClientAction> = Vec::new();
        assert(action_models(actions@) =~= Seq::<ActionModel>::empty());
        proof {
            lemma_retired_wf(before, id@, upkeep::message_model(error), endpoints@, clock);
        }
        let (owner, finishing) = match self.routes.get(id) {
            Some(route) => {
                if route.retired {
                    return actions;
                }
                (route.owner.clone(), route.finishing)
            },
            None => {
                return actions;
            },
        };
        self.routes.insert(
            id,
            TransferRoute { owner: owner.clone(), touched: clock, finishing, retired: true },
        );
        self.forget_replies(id);
        if let Some(message) = error {
            self.notify_cancel(&owner, id, message, endpoints, &mut actions);
        }
        let ghost notice = action_models(actions@);
        let frame = frame::encode_cancel(id);
        actions.push(ClientAction::Write(frame));
        assert(action_models(actions@) =~= notice.push(ActionModel::Write(frame@)));
        actions
    }

    /// Receives a retirement from the server.
    fn receive_retirement(
        &mut self,
        id: &str,
        owner: &Owner,
        endpoints: &EndpointRegistry,
        clock: u64,
    ) -> (actions: Vec<ClientAction>)
        requires
            is_wf(old(self)@),
            frame::is_session_id(id@),
        ensures
            final(self)@ == retirement_received(old(self)@, id@, owner@, endpoints@, clock).0,
            action_models(actions@) == retirement_received(
                old(self)@,
                id@,
                owner@,
                endpoints@,
                clock,
            ).1,
    {
        proof {
            table::lemma_get_has(self@.routes, id@);
        }
        if !self.routes.contains_key(id) && self.routes.len() < MAX_TRANSFER_SESSIONS {
            let mark = TransferRoute {
                owner: owner.clone(),
                touched: clock,
                finishing: false,
                retired: true,
            };
            proof {
                lemma_route_wf(self@, id@, mark@);
            }
            self.routes.insert(id, mark);
        }
        let owned = match self.routes.get(id) {
            Some(route) => route.owner.matches(owner),
            None => false,
        };
        if owned {
            self.retire(id, None, endpoints, clock)
        } else {
            let actions: Vec<ClientAction> = Vec::new();
            assert(action_models(actions@) =~= Seq::<ActionModel>::empty());
            actions
        }
    }

    /// Hands a command of a live session to the outer terminal.
    fn forward_command(
        &mut self,
        command: Vec<u8>,
        action: &str,
        id: &str,
        owner: &Owner,
        clock: u64,
    ) -> (actions: Vec<ClientAction>)
        requires
            is_wf(old(self)@),
        ensures
            final(self)@ == command_forwarded(
                old(self)@,
                command@,
                action@,
                id@,
                owner@,
                clock,
            ).0,
            action_models(actions@) == command_forwarded(
                old(self)@,
                command@,
                action@,
                id@,
                owner@,
                clock,
            ).1,
    {
        let mut actions: Vec<ClientAction> = Vec::new();
        assert(action_models(actions@) =~= Seq::<ActionModel>::empty());
        let finishing = match self.routes.get(id) {
            Some(route) => {
                if route.retired || !route.owner.matches(owner) {
                    return actions;
                }
                route.finishing
            },
            None => {
                return actions;
            },
        };
        let ends = bytes::text_equal(action, "finish") || bytes::text_equal(action, "cancel");
        self.routes.insert(
            id,
            TransferRoute {
                owner: owner.clone(),
                touched: clock,
                finishing: finishing || ends,
                retired: false,
            },
        );
        actions.push(ClientAction::Write(command));
        assert(action_models(actions@) =~= seq![ActionModel::Write(command@)]);
        actions
    }

    /// Receives a command from the server.
    pub fn handle_command(
        &mut self,
        command: Vec<u8>,
        owner: &Owner,
        retire: bool,
        active: bool,
        endpoints: &EndpointRegistry,
        clock: u64,
    ) -> (actions: Vec<ClientAction>)
        requires
            is_wf(old(self)@),
        ensures
            is_wf(final(self)@),
            final(self)@ == command_received(
                old(self)@,
                command@,
                owner@,
                retire,
                active,
                endpoints@,
                clock,
            ).0,
            action_models(actions@) == command_received(
                old(self)@,
                command@,
                owner@,
                retire,
                active,
                endpoints@,
                clock,
            ).1,
    {
        let ghost before = self@;
        proof {
            lemma_command_received_wf(
                before,
                command@,
                owner@,
                retire,
                active,
                endpoints@,
                clock,
            );
            frame_laws::lemma_frame_id(command@);
        }
        let mut actions: Vec<ClientAction> = Vec::new();
        assert(action_models(actions@) =~= Seq::<ActionModel>::empty());
        let (action, id) = match frame::parse_action_and_id(command.as_slice()) {
            Some(parsed) => parsed,
            None => {
                return actions;
            },
        };
        if retire {
            return self.receive_retirement(id.as_str(), owner, endpoints, clock);
        }
        if bytes::text_equal(action.as_str(), "send") || bytes::text_equal(
            action.as_str(),
            "receive",
        ) {
            if !active || self.routes.contains_key(id.as_str()) || self.routes.len()
                >= MAX_TRANSFER_SESSIONS {
                self.notify_cancel(owner, id.as_str(), BUSY_MESSAGE, endpoints, &mut actions);
                assert(action_models(actions@) =~= cancel_notified(
                    before,
                    owner@,
                    id@,
                    BUSY_MESSAGE@,
                    endpoints@,
                ).1);
                return actions;
            }
            let live = TransferRoute {
                owner: owner.clone(),
                touched: clock,
                finishing: false,
                retired: false,
            };
            proof {
                table::lemma_get_has(before.routes, id@);
                lemma_route_wf(before, id@, live@);
            }
            self.routes.insert(id.as_str(), live);
        }
        self.forward_command(command, action.as_str(), id.as_str(), owner, clock)
    }

    /// Receives a control from the server behind `endpoint_id`; `active` says whether that endpoint
    /// is in front.
    pub fn handle_control(
        &mut self,
        control: TransferControl,
        endpoint_id: ClientEndpointId,
        generation: u64,
        active: bool,
        endpoints: &EndpointRegistry,
        clock: u64,
    ) -> (actions: Vec<ClientAction>)
        requires
            is_wf(old(self)@),
        ensures
            is_wf(final(self)@),
            final(self)@ == control_received(
                old(self)@,
                control@,
                endpoint_id@,
                generation,
                active,
                endpoints@,
                clock,
            ).0,
            action_models(actions@) == control_received(
                old(self)@,
                control@,
                endpoint_id@,
                generation,
                active,
                endpoints@,
                clock,
            ).1,
    {
        let command = match control.decode_command() {
            Some(command) => command,
            None => {
                let actions: Vec<ClientAction> = Vec::new();
                assert(action_models(actions@) =~= Seq::<ActionModel>::empty());
                return actions;
            },
        };
        let owner = Owner {
            endpoint_id,
            generation,
            boot_id: control.boot_id,
            terminal_id: control.terminal_id,
        };
        self.handle_command(command, &owner, control.retire, active, endpoints, clock)
    }

    /// Receives a frame from the outer terminal.
    pub fn handle_input(
        &mut self,
        command: &[u8],
        endpoints: &EndpointRegistry,
        clock: u64,
    ) -> (step: InputStep)
        requires
            is_wf(old(self)@),
        ensures
            is_wf(final(self)@),
            final(self)@ == input_received(old(self)@, command@, endpoints@, clock).0,
            step@ == input_received(old(self)@, command@, endpoints@, clock).1,
            step matches InputStep::Send(request, ticket) ==> {
                &&& awaits_outcome(final(self)@, ticket@)
                &&& has_earlier_ids(old(self)@) && old(self)@.next_request_id < u64::MAX
                    ==> !table::has_key(final(self)@.pending, ticket@.request_id)
                &&& request.operation@ matches OperationModel::Reply { data, .. }
                    && control::decoded_command(data) == Some(command@)
            },
    {
        let none: Vec<ClientAction> = Vec::new();
        assert(action_models(none@) =~= Seq::<ActionModel>::empty());
        let (_action, id) = match frame::parse_action_and_id(command) {
            Some(parsed) => parsed,
            None => {
                return InputStep::Act(none);
            },
        };
        if !frame::terminal_response(command, id.as_str()) {
            return InputStep::Act(none);
        }
        let owner = match self.routes.get(id.as_str()) {
            Some(route) => {
                if route.retired {
                    return InputStep::Act(none);
                }
                route.owner.clone()
            },
            None => {
                return InputStep::Act(none);
            },
        };
        if !endpoints.accepts(&owner.endpoint_id, owner.generation) || self.pending.len()
            >= MAX_PENDING_REPLIES {
            return InputStep::Act(
                self.retire(id.as_str(), Some(UNAVAILABLE_MESSAGE), endpoints, clock),
            );
        }
        let ended = frame::session_error(command);
        let request = self.request(
            &owner,
            TransferOperation::Reply {
                terminal_id: owner.terminal_id.clone(),
                session_id: id.clone(),
                data: control::encode_command(command),
            },
        );
        let ticket = ReplyTicket { owner, session_id: id, request_id: request.id.clone(), ended };
        proof {
            if has_earlier_ids(old(self)@) && old(self)@.next_request_id < u64::MAX {
                lemma_next_id_is_new(old(self)@);
            }
        }
        InputStep::Send(request, ticket)
    }

    /// Whether the outcome of this reply is what the client waits for.
    pub fn awaits(&self, ticket: &ReplyTicket) -> (awaited: bool)
        requires
            is_wf(self@),
        ensures
            awaited == awaits_outcome(self@, ticket@),
    {
        let live = match self.routes.get(ticket.session_id.as_str()) {
            Some(route) => !route.retired && route.owner.matches(&ticket.owner),
            None => false,
        };
        live && self.pending.len() < MAX_PENDING_REPLIES
    }

    /// Learns the outcome of a reply that `handle_input` gave out.
    pub fn reply_sent(
        &mut self,
        ticket: ReplyTicket,
        outcome: EndpointSendOutcome,
        clock: u64,
    ) -> (actions: Vec<ClientAction>)
        requires
            is_wf(old(self)@),
            awaits_outcome(old(self)@, ticket@),
        ensures
            is_wf(final(self)@),
            final(self)@ == reply_settled(old(self)@, ticket@, outcome, clock).0,
            action_models(actions@) == reply_settled(old(self)@, ticket@, outcome, clock).1,
            outcome == EndpointSendOutcome::Sent && !table::has_key(
                old(self)@.pending,
                ticket@.request_id,
            ) ==> final(self)@.pending == old(self)@.pending.push(
                (
                    ticket@.request_id,
                    PendingModel {
                        owner: ticket@.owner,
                        session_id: ticket@.session_id,
                        sent: clock,
                        response: Seq::empty(),
                    },
                ),
            ),
    {
        proof {
            lemma_reply_settled_wf(self@, ticket@, outcome, clock);
        }
        match outcome {
            EndpointSendOutcome::NotSent => {
                let unused = EndpointRegistry::new();
                self.retire(ticket.session_id.as_str(), None, &unused, clock)
            },
            EndpointSendOutcome::Sent => {
                let (finishing, retired) = match self.routes.get(ticket.session_id.as_str()) {
                    Some(route) => (route.finishing, route.retired),
                    None => (false, false),
                };
                self.routes.insert(
                    ticket.session_id.as_str(),
                    TransferRoute {
                        owner: ticket.owner.clone(),
                        touched: clock,
                        finishing,
                        retired: retired || ticket.ended,
                    },
                );
                let response: Vec<u8> = Vec::new();
                assert(response@ =~= Seq::<u8>::empty());
                self.pending.insert(
                    ticket.request_id.as_str(),
                    PendingReply {
                        owner: ticket.owner,
                        session_id: ticket.session_id,
                        sent: clock,
                        response,
                    },
                );
                let actions: Vec<ClientAction> = Vec::new();
                assert(action_models(actions@) =~= Seq::<ActionModel>::empty());
                actions
            },
        }
    }

    /// Whether a response is for a transfer request. That takes in the acknowledgements of
    /// cancellations, for which nothing is recorded.
    pub fn has_response(&self, request_id: &str) -> (found: bool)
        ensures
            found == encode_utf8(REQUEST_ID_PREFIX@).is_prefix_of(encode_utf8(request_id@)),
    {
        bytes::starts_with(request_id.as_bytes(), REQUEST_ID_PREFIX.as_bytes())
    }

    /// Takes in a chunk of an acknowledgement.
    pub fn receive_chunk(
        &mut self,
        endpoint_id: &ClientEndpointId,
        generation: u64,
        boot_id: &str,
        request_id: &str,
        final_chunk: bool,
        data: &[u8],
    ) -> (step: ChunkStep)
        requires
            is_wf(old(self)@),
        ensures
            is_wf(final(self)@),
            final(self)@ == chunk_received(
                old(self)@,
                endpoint_id@,
                generation,
                boot_id@,
                request_id@,
                final_chunk,
                data@,
            ).0,
            step@ == chunk_received(
                old(self)@,
                endpoint_id@,
                generation,
                boot_id@,
                request_id@,
                final_chunk,
                data@,
            ).1,
    {
        proof {
            lemma_chunk_received_wf(
                self@,
                endpoint_id@,
                generation,
                boot_id@,
                request_id@,
                final_chunk,
                data@,
            );
        }
        let reply = match self.pending.get(request_id) {
            Some(reply) => reply,
            None => {
                return ChunkStep::Wait;
            },
        };
        if !reply.owner.endpoint_id.same(endpoint_id) || reply.owner.generation != generation
            || !bytes::text_equal(reply.owner.boot_id.as_str(), boot_id) {
            return ChunkStep::Wait;
        }
        if reply.response.len().saturating_add(data.len()) > MAX_RESPONSE_BYTES {
            return ChunkStep::Refuse;
        }
        let mut response: Vec<u8> = Vec::new();
        bytes::append(&mut response, reply.response.as_slice());
        bytes::append(&mut response, data);
        assert(response@ =~= reply@.response + data@);
        let document = bytes::copied(response.as_slice());
        let more = PendingReply {
            owner: reply.owner.clone(),
            session_id: reply.session_id.clone(),
            sent: reply.sent,
            response,
        };
        self.pending.insert(request_id, more);
        if final_chunk {
            ChunkStep::Judge(document)
        } else {
            ChunkStep::Wait
        }
    }

    /// Acts on the judgement of the response to a reply.
    pub fn settle_response(
        &mut self,
        request_id: &str,
        accepted: bool,
        endpoints: &EndpointRegistry,
        clock: u64,
    ) -> (actions: Vec<ClientAction>)
        requires
            is_wf(old(self)@),
        ensures
            is_wf(final(self)@),
            final(self)@ == response_settled(
                old(self)@,
                request_id@,
                accepted,
                endpoints@,
                clock,
            ).0,
            action_models(actions@) == response_settled(
                old(self)@,
                request_id@,
                accepted,
                endpoints@,
                clock,
            ).1,
    {
        proof {
            lemma_fewer_replies_wf(self@, table::other_than(request_id@));
        }
        let none: Vec<ClientAction> = Vec::new();
        assert(action_models(none@) =~= Seq::<ActionModel>::empty());
        let id = match self.pending.get(request_id) {
            Some(reply) => reply.session_id.clone(),
            None => {
                return none;
            },
        };
        self.pending.remove(request_id);
        if accepted {
            none
        } else {
            self.retire(id.as_str(), Some(REJECTED_MESSAGE), endpoints, clock)
        }
    }

    /// Receives a chunk of the response to a request; `origin` is the endpoint, the generation of
    /// its connection and the boot of the server that it came from. Says what is left to do, and whether the
    /// reply was refused.
    pub fn handle_response(
        &mut self,
        origin: (&ClientEndpointId, u64, &str),
        request_id: &str,
        final_chunk: bool,
        data: &[u8],
        endpoints: &EndpointRegistry,
        clock: u64,
    ) -> (outcome: (Vec<ClientAction>, bool))
        requires
            is_wf(old(self)@),
        ensures
            is_wf(final(self)@),
            final(self)@ == response_received(
                old(self)@,
                (origin.0@, origin.1, origin.2@),
                request_id@,
                final_chunk,
                data@,
                endpoints@,
                clock,
            ).0,
            action_models(outcome.0@) == response_received(
                old(self)@,
                (origin.0@, origin.1, origin.2@),
                request_id@,
                final_chunk,
                data@,
                endpoints@,
                clock,
            ).1,
            outcome.1 == response_received(
                old(self)@,
                (origin.0@, origin.1, origin.2@),
                request_id@,
                final_chunk,
                data@,
                endpoints@,
                clock,
            ).2,
    {
        let (endpoint_id, generation, boot_id) = origin;
        match self.receive_chunk(endpoint_id, generation, boot_id, request_id, final_chunk, data) {
            ChunkStep::Wait => {
                let none: Vec<ClientAction> = Vec::new();
                assert(action_models(none@) =~= Seq::<ActionModel>::empty());
                (none, false)
            },
            ChunkStep::Judge(document) => {
                let accepted = acknowledges(document.as_slice(), request_id);
                (self.settle_response(request_id, accepted, endpoints, clock), !accepted)
            },
            ChunkStep::Refuse => (
                self.settle_response(request_id, false, endpoints, clock),
                true,
            ),
        }
    }

    /// The stale sessions.
    fn stale(&self, endpoints: &EndpointRegistry, now: u64) -> (due: Vec<DueRetirement>)
        ensures
            upkeep::due_models(due@) == stale_sessions(self@.routes, endpoints@, now),
    {
        let ghost all = self.routes@;
        let ghost picked = |entry: (Seq<char>, RouteModel)| is_stale(entry.1, endpoints@, now);
        let mut due: Vec<DueRetirement> = Vec::new();
        let mut i: usize = 0;
        proof {
            reveal(Seq::filter);
            assert(all.take(0).filter(picked) =~= Seq::empty());
            assert(upkeep::due_models(due@) =~= stale_sessions(all.take(0), endpoints@, now));
        }
        while i < self.routes.len()
            invariant
                all == self.routes@,
                picked == (|entry: (Seq<char>, RouteModel)| is_stale(entry.1, endpoints@, now)),
                i <= all.len(),
                upkeep::due_models(due@) == stale_sessions(all.take(i as int), endpoints@, now),
            decreases all.len() - i,
        {
            let ghost earlier = due@;
            let route = self.routes.value_at(i);
            let limit: u64 = if route.finishing {
                TRANSFER_DRAIN_TIMEOUT
            } else {
                TRANSFER_IDLE_TIMEOUT
            };
            proof {
                assert(all.take(i + 1) =~= all.take(i as int).push(all[i as int]));
                all.take(i as int).lemma_filter_push(all[i as int], picked);
            }
            if !route.retired && (!endpoints.accepts(
                &route.owner.endpoint_id,
                route.owner.generation,
            ) || upkeep::elapsed_time(now, route.touched) >= limit) {
                let message = if route.finishing {
                    None
                } else {
                    Some(STALE_MESSAGE)
                };
                due.push(DueRetirement { id: self.routes.key_at(i).to_owned(), message });
                assert(upkeep::due_models(due@) =~= upkeep::due_models(earlier).push(due@.last()@));
                assert(upkeep::due_models(due@) =~= stale_sessions(all.take(i + 1), endpoints@, now));
            }
            i += 1;
        }
        assert(all.take(i as int) =~= all);
        due
    }

    /// The sessions of the overdue replies.
    fn overdue(&self, now: u64) -> (due: Vec<DueRetirement>)
        ensures
            upkeep::due_models(due@) == overdue_sessions(self@.pending, now),
    {
        let ghost all = self.pending@;
        let ghost picked = |entry: (Seq<char>, PendingModel)| is_overdue(entry.1, now);
        let mut due: Vec<DueRetirement> = Vec::new();
        let mut i: usize = 0;
        proof {
            reveal(Seq::filter);
            assert(all.take(0).filter(picked) =~= Seq::empty());
            assert(upkeep::due_models(due@) =~= overdue_sessions(all.take(0), now));
        }
        while i < self.pending.len()
            invariant
                all == self.pending@,
                picked == (|entry: (Seq<char>, PendingModel)| is_overdue(entry.1, now)),
                i <= all.len(),
                upkeep::due_models(due@) == overdue_sessions(all.take(i as int), now),
            decreases all.len() - i,
        {
            let ghost earlier = due@;
            let reply = self.pending.value_at(i);
            proof {
                assert(all.take(i + 1) =~= all.take(i as int).push(all[i as int]));
                all.take(i as int).lemma_filter_push(all[i as int], picked);
            }
            if upkeep::elapsed_time(now, reply.sent) >= REPLY_TIMEOUT {
                due.push(
                    DueRetirement {
                        id: reply.session_id.clone(),
                        message: Some(OVERDUE_MESSAGE),
                    },
                );
                assert(upkeep::due_models(due@) =~= upkeep::due_models(earlier).push(due@.last()@));
                assert(upkeep::due_models(due@) =~= overdue_sessions(all.take(i + 1), now));
            }
            i += 1;
        }
        assert(all.take(i as int) =~= all);
        due
    }

    /// Forgets the sessions that were retired long ago, and the replies that are overdue or have no
    /// session.
    fn prune(&mut self, now: u64)
        ensures
            final(self)@ == pruned(old(self)@, now),
    {
        let ghost before = self@;
        let mut keep: Vec<bool> = Vec::new();
        let mut i: usize = 0;
        while i < self.routes.len()
            invariant
                self@ == before,
                i <= self.routes@.len(),
                keep@.len() == i,
                forall|j: int| 0 <= j < i ==> #[trigger] keep@[j] == is_kept(self.routes@[j].1, now),
            decreases self.routes@.len() - i,
        {
            let route = self.routes.value_at(i);
            keep.push(
                !route.retired || upkeep::elapsed_time(now, route.touched) < TRANSFER_DRAIN_TIMEOUT,
            );
            i += 1;
        }
        self.routes.retain(
            &keep,
            Ghost(|entry: (Seq<char>, RouteModel)| is_kept(entry.1, now)),
        );
        let ghost routes = self.routes@;
        let mut keep: Vec<bool> = Vec::new();
        let mut i: usize = 0;
        while i < self.pending.len()
            invariant
                self@ == (ClientModel { routes, ..before }),
                i <= self.pending@.len(),
                keep@.len() == i,
                forall|j: int|
                    0 <= j < i ==> #[trigger] keep@[j] == (table::has_key(
                        routes,
                        self.pending@[j].1.session_id,
                    ) && !is_overdue(self.pending@[j].1, now)),
            decreases self.pending@.len() - i,
        {
            let reply = self.pending.value_at(i);
            keep.push(
                self.routes.contains_key(reply.session_id.as_str()) && upkeep::elapsed_time(
                    now,
                    reply.sent,
                ) < REPLY_TIMEOUT,
            );
            i += 1;
        }
        self.pending.retain(
            &keep,
            Ghost(
                |entry: (Seq<char>, PendingModel)|
                    table::has_key(routes, entry.1.session_id) && !is_overdue(entry.1, now),
            ),
        );
    }

    /// The upkeep that is to be done at the moment `now`.
    pub fn begin_maintenance(&self, now: u64, endpoints: &EndpointRegistry) -> (upkeep: Maintenance)
        ensures
            upkeep.wf(),
            upkeep@ == maintenance_due(self@, endpoints@, now),
    {
        if self.routes.len() == 0 {
            let due: Vec<DueRetirement> = Vec::new();
            let upkeep = Maintenance { now, stage: MaintenanceStage::Done, due, next: 0 };
            assert(upkeep@.due =~= Seq::<(Seq<char>, Option<Seq<char>>)>::empty());
            upkeep
        } else {
            let due = self.stale(endpoints, now);
            let upkeep = Maintenance { now, stage: MaintenanceStage::Stale, due, next: 0 };
            assert(upkeep@.due =~= stale_sessions(self@.routes, endpoints@, now));
            upkeep
        }
    }

    /// One step of an upkeep; `None` where nothing is left to do.
    pub fn maintain_step(
        &mut self,
        upkeep: &mut Maintenance,
        endpoints: &EndpointRegistry,
        clock: u64,
    ) -> (actions: Option<Vec<ClientAction>>)
        requires
            is_wf(old(self)@),
            old(upkeep).wf(),
        ensures
            is_wf(final(self)@),
            final(upkeep).wf(),
            final(self)@ == maintenance_step(old(self)@, old(upkeep)@, endpoints@, clock).0,
            final(upkeep)@ == maintenance_step(old(self)@, old(upkeep)@, endpoints@, clock).1,
            (match actions {
                Some(done) => Some(action_models(done@)),
                None => None,
            }) == maintenance_step(old(self)@, old(upkeep)@, endpoints@, clock).2,
    {
        let ghost left = upkeep@;
        if upkeep.stage == MaintenanceStage::Done {
            return None;
        }
        if upkeep.next < upkeep.due.len() {
            let due = &upkeep.due[upkeep.next];
            assert(left.due[0] == due@);
            let actions = self.retire(due.id.as_str(), due.message, endpoints, clock);
            upkeep.next = upkeep.next + 1;
            assert(upkeep@.due =~= left.due.skip(1));
            return Some(actions);
        }
        let none: Vec<ClientAction> = Vec::new();
        assert(action_models(none@) =~= Seq::<ActionModel>::empty());
        if upkeep.stage == MaintenanceStage::Stale {
            upkeep.due = self.overdue(upkeep.now);
            upkeep.next = 0;
            upkeep.stage = MaintenanceStage::Overdue;
            assert(upkeep@.due =~= overdue_sessions(self@.pending, upkeep.now));
        } else {
            proof {
                lemma_pruned_wf(self@, upkeep.now);
            }
            self.prune(upkeep.now);
            upkeep.stage = MaintenanceStage::Done;
        }
        Some(none)
    }

    /// Looks after the client at the moment `now`, in one go.
    pub fn maintain(&mut self, now: u64, endpoints: &EndpointRegistry, clock: u64) -> (actions: Vec<
        ClientAction,
    >)
        requires
            is_wf(old(self)@),
        ensures
            is_wf(final(self)@),
            final(self)@ == maintained(old(self)@, endpoints@, now, clock).0,
            action_models(actions@) == maintained(old(self)@, endpoints@, now, clock).1,
    {
        let ghost before = self@;
        let mut upkeep = self.begin_maintenance(now, endpoints);
        let mut actions: Vec<ClientAction> = Vec::new();
        proof {
            assert(action_models(actions@) =~= Seq::<ActionModel>::empty());
            assert(action_models(actions@) + maintenance_rest(
                self@,
                upkeep@,
                endpoints@,
                clock,
            ).1 =~= maintained(before, endpoints@, now, clock).1);
        }
        while upkeep.stage != MaintenanceStage::Done
            invariant
                is_wf(self@),
                upkeep.wf(),
                maintenance_rest(self@, upkeep@, endpoints@, clock).0 == maintained(
                    before,
                    endpoints@,
                    now,
                    clock,
                ).0,
                action_models(actions@) + maintenance_rest(
                    self@,
                    upkeep@,
                    endpoints@,
                    clock,
                ).1 == maintained(before, endpoints@, now, clock).1,
            decreases
                    (match upkeep.stage {
                        MaintenanceStage::Stale => 2int,
                        MaintenanceStage::Overdue => 1int,
                        MaintenanceStage::Done => 0int,
                    }),
                    upkeep@.due.len(),
        {
            proof {
                law_steps_make_up_maintenance(self@, upkeep@, endpoints@, clock);
            }
            let ghost earlier = action_models(actions@);
            if let Some(mut done) = self.maintain_step(&mut upkeep, endpoints, clock) {
                let ghost more = action_models(done@);
                actions.append(&mut done);
                assert(action_models(actions@) =~= earlier + more);
            }
            assert(action_models(actions@) + maintenance_rest(
                self@,
                upkeep@,
                endpoints@,
                clock,
            ).1 =~= maintained(before, endpoints@, now, clock).1);
        }
        assert(action_models(actions@) =~= maintained(before, endpoints@, now, clock).1);
        actions
    }

    /// What is to be written to the outer terminal when the client goes away: each live session is
    /// cancelled, unless the client leaves its sessions alone.
    pub fn cleanup(&self) -> (frames: Vec<Vec<u8>>)
        ensures
            frames@.map_values(|frame: Vec<u8>| frame@) == cleanup_frames(self@),
    {
        let ghost all = self.routes@;
        let ghost live = |entry: (Seq<char>, RouteModel)| !entry.1.retired;
        let ghost viewed = |frame: Vec<u8>| frame@;
        let mut frames: Vec<Vec<u8>> = Vec::new();
        if !self.cleanup_on_drop {
            assert(frames@.map_values(viewed) =~= cleanup_frames(self@));
            return frames;
        }
        let mut i: usize = 0;
        proof {
            reveal(Seq::filter);
            assert(all.take(0).filter(live) =~= Seq::empty());
            assert(frames@.map_values(viewed) =~= cancel_frames(all.take(0)));
        }
        while i < self.routes.len()
            invariant
                all == self.routes@,
                live == (|entry: (Seq<char>, RouteModel)| !entry.1.retired),
                viewed == (|frame: Vec<u8>| frame@),
                i <= all.len(),
                frames@.map_values(viewed) == cancel_frames(all.take(i as int)),
            decreases all.len() - i,
        {
            let ghost earlier = frames@;
            proof {
                assert(all.take(i + 1) =~= all.take(i as int).push(all[i as int]));
                all.take(i as int).lemma_filter_push(all[i as int], live);
            }
            if !self.routes.value_at(i).retired {
                let frame = frame::encode_cancel(self.routes.key_at(i));
                frames.push(frame);
                assert(frames@.map_values(viewed) =~= earlier.map_values(viewed).push(frame@));
                assert(frames@.map_values(viewed) =~= cancel_frames(all.take(i + 1)));
            }
            i += 1;
        }
        assert(all.take(i as int) =~= all);
        frames
    }
}

/// The frames that cancel the live sessions.
pub open spec fn cancel_frames(routes: Seq<(Seq<char>, RouteModel)>) -> Seq<Seq<u8>> {
    routes.filter(|entry: (Seq<char>, RouteModel)| !entry.1.retired).map_values(
        |entry: (Seq<char>, RouteModel)| frame::cancel_frame(entry.0),
    )
}

/// What is to be written to the outer terminal when the client goes away.
pub open spec fn cleanup_frames(state: ClientModel) -> Seq<Seq<u8>> {
    if state.cleanup_on_drop {
        cancel_frames(state.routes)
    } else {
        Seq::empty()
    }
}

/// What is left to do about a chunk of an acknowledgement.
#[derive(Debug, PartialEq, Eq)]
pub enum ChunkStep {
    /// Nothing: it is not awaited, or more is to come.
    Wait,
    /// Judge the acknowledgement, which is complete.
    Judge(Vec<u8>),
    /// Refuse the acknowledgement, which is too long.
    Refuse,
}

impl View for ChunkStep {
    type V = ChunkModel;

    open spec fn view(&self) -> ChunkModel {
        match self {
            ChunkStep::Wait => ChunkModel::Wait,
            ChunkStep::Judge(document) => ChunkModel::Judge(document@),
            ChunkStep::Refuse => ChunkModel::Refuse,
        }
    }
}

/// Whether the members `id`, `result` and `error` of a response acknowledge a request.
pub fn members_acknowledge(
    id: &Option<Option<String>>,
    result: &Option<Option<String>>,
    error: &Option<Option<String>>,
    request_id: &str,
) -> (accepted: bool)
    ensures
        accepted == is_acknowledgement(
            codec::member_model(*id),
            codec::member_model(*result),
            codec::member_model(*error),
            request_id@,
        ),
{
    let named = match id {
        Some(Some(text)) => bytes::text_equal(text.as_str(), request_id),
        _ => false,
    };
    named && result.is_some() && error.is_none()
}

/// Whether a response document acknowledges a request.
pub fn acknowledges(document: &[u8], request_id: &str) -> (accepted: bool)
    ensures
        accepted == acknowledged(document@, request_id@),
{
    members_acknowledge(
        &codec::json_member(document, "id"),
        &codec::json_member(document, "result"),
        &codec::json_member(document, "error"),
        request_id,
    )
}

impl Default for ClientTransferState {
    /// A client that leaves its sessions alone when it goes away.
    fn default() -> (state: ClientTransferState)
        ensures
            state@ == initial_client(false),
            is_wf(state@),
            has_earlier_ids(state@),
    {
        ClientTransferState {
            routes: Table::new(),
            pending: Table::new(),
            next_request_id: 0,
            cleanup_on_drop: false,
        }
    }
}

} // verus!
