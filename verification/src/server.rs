//! The server's side of the transfer sessions: which client of which pane owns a session.
//!
//! Ownership outlives the focus of a pane and never passes to another connection. The functions
//! decide and record; what is to be sent they hand back as actions, which the caller performs in
//! order. Moments are nanoseconds of one monotonic clock.
use std::collections::HashMap;

use vstd::prelude::*;
use vstd::string::*;
use vstd::utf8::*;

use crate::bytes;
use crate::codec;
use crate::control;
use crate::control::{
    ControlModel, OperationModel, TransferControl, TransferOperation, MAX_ENCODED_COMMAND_BYTES,
    MAX_TRANSFER_SESSIONS, TRANSFER_DRAIN_TIMEOUT, TRANSFER_IDLE_TIMEOUT,
};
use crate::frame;
use crate::frame::MAX_TRANSFER_COMMAND_BYTES;
use crate::frame_laws;
use crate::table;
use crate::table::Table;
use crate::upkeep;
use crate::upkeep::DueRetirement;

verus! {

broadcast use vstd::std_specs::hash::group_hash_axioms;

/// The longest message with which a client may cancel a session, in bytes.
pub const MAX_CANCEL_MESSAGE_BYTES: usize = 256;

/// Told to a pane that begins a session while the server stops.
pub const STOPPING_FAILURE: &'static str = "ENOTCONN:server is stopping";

/// Told to a pane that begins a session under an id that is in use, or when there are too many.
pub const BUSY_FAILURE: &'static str = "EBUSY:transfer session limit or id collision";

/// Told to a pane that begins a session when no client in front can carry it out.
pub const UNSUPPORTED_FAILURE: &'static str = "ENOTSUP:outer client does not support transfers";

/// Told to a pane when a command of its session could not be handed to the client.
pub const QUEUE_FAILURE: &'static str = "EIO:outer terminal transfer queue is full";

/// Told to a pane when a reply could not be handed to it.
pub const INPUT_FAILURE: &'static str = "EIO:terminal transfer input queue is full";

/// Told to a pane when its session went stale.
pub const EXPIRED_FAILURE: &'static str = "ETIMEDOUT:terminal transfer expired";

/// Told to a pane when the client of its session went away.
pub const DISCONNECTED_FAILURE: &'static str = "ENOTCONN:transfer client disconnected";

/// What the reason that a client gives for cancelling is told to the pane under.
pub const CANCEL_PREFIX: &'static str = "EIO:";

/// Names one live runtime of a terminal, even when the terminal's id is used again after a
/// respawn: no two runtimes have the same marker.
#[derive(Clone, Copy, Debug)]
pub struct TransferSource {
    marker: u64,
}

impl View for TransferSource {
    type V = u64;

    closed spec fn view(&self) -> u64 {
        self.marker
    }
}

impl TransferSource {
    /// The runtime with the given marker.
    pub fn new(marker: u64) -> (source: TransferSource)
        ensures
            source@ == marker,
    {
        TransferSource { marker }
    }

    /// Whether both name the same runtime.
    pub fn matches(&self, other: &TransferSource) -> (same: bool)
        ensures
            same == (self@ == other@),
    {
        self.marker == other.marker
    }
}

/// What the server knows of a client.
#[derive(Clone, Copy, Debug)]
pub struct TransferClient {
    /// It shows the shell, and is active.
    pub active_shell: bool,
    /// Its outer terminal can transfer files.
    pub terminal_transfer: bool,
    /// It can be written to.
    pub has_writer: bool,
}

/// What the decisions of the server rest on, at one moment.
#[derive(Debug)]
pub struct ServerContext {
    /// The terminal that each pane is attached to.
    pub panes: HashMap<u64, String>,
    /// The live runtime of each terminal.
    pub runtimes: Table<TransferSource>,
    pub clients: HashMap<u64, TransferClient>,
    pub foreground_client_id: Option<u64>,
    pub handoff_in_progress: bool,
    pub shutting_down: bool,
    /// The boot of the server, as its clients know it.
    pub boot_id: String,
}

impl ServerContext {
    /// The terminal that a pane is attached to.
    pub open spec fn terminal_of(&self, pane_id: u64) -> Option<Seq<char>> {
        if self.panes@.contains_key(pane_id) {
            Some(self.panes@[pane_id]@)
        } else {
            None
        }
    }

    /// Whether `source` is the live runtime of a terminal.
    pub open spec fn is_live_source(&self, terminal_id: Seq<char>, source: u64) -> bool {
        table::get(self.runtimes@, terminal_id) == Some(source)
    }

    /// Whether a client can be written to.
    pub open spec fn is_writable(&self, client_id: u64) -> bool {
        self.clients@.contains_key(client_id) && self.clients@[client_id].has_writer
    }

    /// Whether a client can carry out a session.
    pub open spec fn can_transfer(&self, client_id: u64) -> bool {
        self.is_writable(client_id) && self.clients@[client_id].active_shell
            && self.clients@[client_id].terminal_transfer
    }

    /// The client that a session would begin with.
    pub open spec fn transfer_client(&self) -> Option<u64> {
        match self.foreground_client_id {
            Some(client_id) if self.can_transfer(client_id) => Some(client_id),
            _ => None,
        }
    }

    /// Whether `source` is the live runtime of a terminal.
    fn has_live_source(&self, terminal_id: &str, source: &TransferSource) -> (live: bool)
        ensures
            live == self.is_live_source(terminal_id@, source@),
    {
        match self.runtimes.get(terminal_id) {
            Some(runtime) => source.matches(runtime),
            None => false,
        }
    }

    /// Whether a client can be written to.
    fn has_writer(&self, client_id: u64) -> (writable: bool)
        ensures
            writable == self.is_writable(client_id),
    {
        match self.clients.get(&client_id) {
            Some(client) => client.has_writer,
            None => false,
        }
    }

    /// The client that a session would begin with.
    fn foreground_client(&self) -> (client: Option<u64>)
        ensures
            client == self.transfer_client(),
    {
        match self.foreground_client_id {
            Some(client_id) => match self.clients.get(&client_id) {
                Some(client) => if client.active_shell && client.terminal_transfer
                    && client.has_writer {
                    Some(client_id)
                } else {
                    None
                },
                None => None,
            },
            None => None,
        }
    }
}

/// A session of a pane. A retired one only keeps its id from being reused for a while.
#[derive(Debug)]
pub struct TransferRoute {
    pub terminal_id: String,
    pub source: TransferSource,
    pub client_id: u64,
    pub touched: u64,
    pub finishing: bool,
    pub retired: bool,
}

/// The model of a session.
pub struct RouteModel {
    pub terminal_id: Seq<char>,
    pub source: u64,
    pub client_id: u64,
    pub touched: u64,
    pub finishing: bool,
    pub retired: bool,
}

impl View for TransferRoute {
    type V = RouteModel;

    open spec fn view(&self) -> RouteModel {
        RouteModel {
            terminal_id: self.terminal_id@,
            source: self.source@,
            client_id: self.client_id,
            touched: self.touched,
            finishing: self.finishing,
            retired: self.retired,
        }
    }
}

/// What is left for the caller to do.
#[derive(Debug, PartialEq, Eq)]
pub enum ServerAction {
    /// Hand bytes to a terminal as input, whether or not they get through.
    Input { terminal_id: String, bytes: Vec<u8> },
    /// Send a control to a client ahead of everything that is queued, whether or not it gets
    /// through.
    Control { client_id: u64, control: TransferControl },
}

/// The model of an action.
pub enum ActionModel {
    Input { terminal_id: Seq<char>, bytes: Seq<u8> },
    Control { client_id: u64, control: ControlModel },
}

impl View for ServerAction {
    type V = ActionModel;

    open spec fn view(&self) -> ActionModel {
        match self {
            ServerAction::Input { terminal_id, bytes } => ActionModel::Input {
                terminal_id: terminal_id@,
                bytes: bytes@,
            },
            ServerAction::Control { client_id, control } => ActionModel::Control {
                client_id: *client_id,
                control: control@,
            },
        }
    }
}

/// The models of some actions.
pub open spec fn action_models(actions: Seq<ServerAction>) -> Seq<ActionModel> {
    actions.map_values(|action: ServerAction| action@)
}

/// The sessions of a server.
#[derive(Debug)]
pub struct HeadlessServer {
    transfer_routes: Table<TransferRoute>,
}

impl View for HeadlessServer {
    type V = Seq<(Seq<char>, RouteModel)>;

    closed spec fn view(&self) -> Seq<(Seq<char>, RouteModel)> {
        self.transfer_routes@
    }
}

/// What holds of the sessions of a server at every moment: none is recorded twice, there are no
/// more than are allowed, and every one has an acceptable id.
pub open spec fn is_wf(routes: Seq<(Seq<char>, RouteModel)>) -> bool {
    &&& table::is_unique(routes)
    &&& routes.len() <= MAX_TRANSFER_SESSIONS
    &&& forall|i: int| 0 <= i < routes.len() ==> frame::is_session_id((#[trigger] routes[i]).0)
}

/// The control that carries a command of a terminal.
pub open spec fn control_for(
    context: &ServerContext,
    terminal_id: Seq<char>,
    command: Seq<u8>,
    retire: bool,
) -> ControlModel {
    ControlModel {
        boot_id: context.boot_id@,
        terminal_id,
        command: codec::base64_encoded(command),
        retire,
    }
}

/// The actions that report a failure to a terminal, where it has a runtime.
pub open spec fn failure_reported(
    context: &ServerContext,
    terminal_id: Seq<char>,
    id: Seq<char>,
    message: Seq<char>,
) -> Seq<ActionModel> {
    if table::get(context.runtimes@, terminal_id) is Some {
        seq![ActionModel::Input { terminal_id, bytes: frame::failure_frame(id, message) }]
    } else {
        Seq::empty()
    }
}

/// The actions that tell a client that a session is retired, where it can be written to.
pub open spec fn retirement_announced(
    context: &ServerContext,
    client_id: u64,
    terminal_id: Seq<char>,
    id: Seq<char>,
) -> Seq<ActionModel> {
    if context.is_writable(client_id) {
        seq![
            ActionModel::Control {
                client_id,
                control: control_for(context, terminal_id, frame::cancel_frame(id), true),
            },
        ]
    } else {
        Seq::empty()
    }
}

/// The sessions, and the actions, once a session is retired: where it is live, the runtime that it
/// began in is told of the error, if there is one, and its client is told to cancel.
pub open spec fn retired(
    routes: Seq<(Seq<char>, RouteModel)>,
    id: Seq<char>,
    error: Option<Seq<char>>,
    context: &ServerContext,
    clock: u64,
) -> (Seq<(Seq<char>, RouteModel)>, Seq<ActionModel>) {
    match table::get(routes, id) {
        Some(route) if !route.retired => {
            let told = match error {
                Some(message) if context.is_live_source(route.terminal_id, route.source) =>
                    failure_reported(context, route.terminal_id, id, message),
                _ => Seq::empty(),
            };
            (
                table::put(routes, id, RouteModel { retired: true, touched: clock, ..route }),
                told + retirement_announced(context, route.client_id, route.terminal_id, id),
            )
        },
        _ => (routes, Seq::empty()),
    }
}

/// What is left for the caller to do about a command of a pane.
#[derive(Debug, PartialEq, Eq)]
pub enum ForwardStep {
    /// Perform these actions.
    Act(Vec<ServerAction>),
    /// Queue the control for the client, and report with the session whether it was taken.
    Send { client_id: u64, control: TransferControl, session_id: String },
}

/// The model of a step about a command of a pane.
pub enum ForwardModel {
    Act(Seq<ActionModel>),
    Send { client_id: u64, control: ControlModel, session_id: Seq<char> },
}

impl View for ForwardStep {
    type V = ForwardModel;

    open spec fn view(&self) -> ForwardModel {
        match self {
            ForwardStep::Act(actions) => ForwardModel::Act(action_models(actions@)),
            ForwardStep::Send { client_id, control, session_id } => ForwardModel::Send {
                client_id: *client_id,
                control: control@,
                session_id: session_id@,
            },
        }
    }
}

/// The sessions, and what is left to do, once a command of a session has arrived from a runtime of
/// a terminal: it goes to the client of the session, where the session is live and began in that
/// runtime.
pub open spec fn passed_on(
    routes: Seq<(Seq<char>, RouteModel)>,
    terminal_id: Seq<char>,
    source: u64,
    command: Seq<u8>,
    action: Seq<char>,
    id: Seq<char>,
    context: &ServerContext,
    clock: u64,
) -> (Seq<(Seq<char>, RouteModel)>, ForwardModel) {
    match table::get(routes, id) {
        Some(route) if route.terminal_id == terminal_id && route.source == source
            && !route.retired => {
            let touched = table::put(
                routes,
                id,
                RouteModel {
                    touched: clock,
                    finishing: route.finishing || frame::is_end_action(action),
                    ..route
                },
            );
            if context.is_writable(route.client_id) {
                (
                    touched,
                    ForwardModel::Send {
                        client_id: route.client_id,
                        control: control_for(context, terminal_id, command, false),
                        session_id: id,
                    },
                )
            } else {
                let (after, actions) = retired(
                    touched,
                    id,
                    Some(QUEUE_FAILURE@),
                    context,
                    clock,
                );
                (after, ForwardModel::Act(actions))
            }
        },
        _ => (routes, ForwardModel::Act(Seq::empty())),
    }
}

/// Why a session may not begin.
pub open spec fn start_failure(
    routes: Seq<(Seq<char>, RouteModel)>,
    id: Seq<char>,
    context: &ServerContext,
) -> Option<Seq<char>> {
    if context.handoff_in_progress || context.shutting_down {
        Some(STOPPING_FAILURE@)
    } else if table::has_key(routes, id) || routes.len() >= MAX_TRANSFER_SESSIONS {
        Some(BUSY_FAILURE@)
    } else if context.transfer_client() is None {
        Some(UNSUPPORTED_FAILURE@)
    } else {
        None
    }
}

/// The sessions, and what is left to do, once a command has arrived from a runtime of a pane.
/// Nothing happens where the pane is unknown, the runtime is not the live one of the pane's
/// terminal, or the command is not a frame.
pub open spec fn forwarded(
    routes: Seq<(Seq<char>, RouteModel)>,
    pane_id: u64,
    source: u64,
    command: Seq<u8>,
    context: &ServerContext,
    clock: u64,
) -> (Seq<(Seq<char>, RouteModel)>, ForwardModel) {
    match (context.terminal_of(pane_id), frame::frame_of(command)) {
        (Some(terminal_id), Some((action, id))) if context.is_live_source(terminal_id, source) => {
            if !frame::is_start_action(action) {
                passed_on(routes, terminal_id, source, command, action, id, context, clock)
            } else {
                match start_failure(routes, id, context) {
                    Some(message) => (
                        routes,
                        ForwardModel::Act(failure_reported(context, terminal_id, id, message)),
                    ),
                    None => passed_on(
                        table::put(
                            routes,
                            id,
                            RouteModel {
                                terminal_id,
                                source,
                                client_id: context.transfer_client()->0,
                                touched: clock,
                                finishing: false,
                                retired: false,
                            },
                        ),
                        terminal_id,
                        source,
                        command,
                        action,
                        id,
                        context,
                        clock,
                    ),
                }
            }
        },
        _ => (routes, ForwardModel::Act(Seq::empty())),
    }
}

/// The sessions, and the actions, once it is known whether a command was queued for the client: a
/// session whose command was not is retired.
pub open spec fn delivery_settled(
    routes: Seq<(Seq<char>, RouteModel)>,
    session_id: Seq<char>,
    delivered: bool,
    context: &ServerContext,
    clock: u64,
) -> (Seq<(Seq<char>, RouteModel)>, Seq<ActionModel>) {
    if delivered {
        (routes, Seq::empty())
    } else {
        retired(routes, session_id, Some(QUEUE_FAILURE@), context, clock)
    }
}

/// Why a request of a client is refused.
#[derive(Clone, Copy, Debug, PartialEq, Eq)]
pub enum TransferRefusal {
    /// There is no such session.
    SessionUnavailable,
    /// The session belongs to another terminal or client.
    ForeignSession,
    /// The runtime that the session began in is gone.
    RuntimeReplaced,
    /// The text of a reply is too long.
    ReplyTooLarge,
    /// The text of a reply is not base64.
    ReplyNotBase64,
    /// A reply is not one answer in its session.
    ReplyMismatch,
    /// A reply could not be handed to the terminal.
    InputQueueFull,
    /// The message of a cancellation is too long.
    MessageTooLarge,
}

impl TransferRefusal {
    /// The code of a refusal.
    pub open spec fn code_text(self) -> Seq<char> {
        match self {
            TransferRefusal::SessionUnavailable => "transfer_unavailable"@,
            TransferRefusal::ForeignSession => "stale_transfer"@,
            TransferRefusal::RuntimeReplaced => "stale_transfer"@,
            TransferRefusal::ReplyTooLarge => "invalid_transfer"@,
            TransferRefusal::ReplyNotBase64 => "invalid_transfer"@,
            TransferRefusal::ReplyMismatch => "invalid_transfer"@,
            TransferRefusal::InputQueueFull => "transfer_backpressure"@,
            TransferRefusal::MessageTooLarge => "invalid_transfer"@,
        }
    }

    /// The message of a refusal.
    pub open spec fn message_text(self) -> Seq<char> {
        match self {
            TransferRefusal::SessionUnavailable => "transfer session is unavailable"@,
            TransferRefusal::ForeignSession =>
                "transfer session belongs to another terminal or client"@,
            TransferRefusal::RuntimeReplaced => "terminal runtime was replaced"@,
            TransferRefusal::ReplyTooLarge => "transfer response is too large"@,
            TransferRefusal::ReplyNotBase64 => "transfer response is not base64"@,
            TransferRefusal::ReplyMismatch => "expected one matching OSC 5113 response"@,
            TransferRefusal::InputQueueFull => "terminal input queue is full"@,
            TransferRefusal::MessageTooLarge => "cancellation message is too large"@,
        }
    }

    /// The code of a refusal.
    pub fn code(&self) -> (code: &'static str)
        ensures
            code@ == self.code_text(),
    {
        match self {
            TransferRefusal::SessionUnavailable => "transfer_unavailable",
            TransferRefusal::ForeignSession => "stale_transfer",
            TransferRefusal::RuntimeReplaced => "stale_transfer",
            TransferRefusal::ReplyTooLarge => "invalid_transfer",
            TransferRefusal::ReplyNotBase64 => "invalid_transfer",
            TransferRefusal::ReplyMismatch => "invalid_transfer",
            TransferRefusal::InputQueueFull => "transfer_backpressure",
            TransferRefusal::MessageTooLarge => "invalid_transfer",
        }
    }

    /// The message of a refusal.
    pub fn message(&self) -> (message: &'static str)
        ensures
            message@ == self.message_text(),
    {
        match self {
            TransferRefusal::SessionUnavailable => "transfer session is unavailable",
            TransferRefusal::ForeignSession =>
                "transfer session belongs to another terminal or client",
            TransferRefusal::RuntimeReplaced => "terminal runtime was replaced",
            TransferRefusal::ReplyTooLarge => "transfer response is too large",
            TransferRefusal::ReplyNotBase64 => "transfer response is not base64",
            TransferRefusal::ReplyMismatch => "expected one matching OSC 5113 response",
            TransferRefusal::InputQueueFull => "terminal input queue is full",
            TransferRefusal::MessageTooLarge => "cancellation message is too large",
        }
    }
}

/// What is left for the caller to do about a request of a client.
#[derive(Debug, PartialEq, Eq)]
pub enum RequestStep {
    /// Perform these actions, and answer.
    Answer(Vec<ServerAction>, Result<(), TransferRefusal>),
    /// Hand the bytes to the terminal as input, and report with the rest whether they were taken.
    Inject { terminal_id: String, bytes: Vec<u8>, session_id: String, ended: bool },
}

/// The model of a step about a request.
pub enum RequestStepModel {
    Answer(Seq<ActionModel>, Result<(), TransferRefusal>),
    Inject { terminal_id: Seq<char>, bytes: Seq<u8>, session_id: Seq<char>, ended: bool },
}

impl View for RequestStep {
    type V = RequestStepModel;

    open spec fn view(&self) -> RequestStepModel {
        match self {
            RequestStep::Answer(actions, answer) => RequestStepModel::Answer(
                action_models(actions@),
                *answer,
            ),
            RequestStep::Inject { terminal_id, bytes, session_id, ended } => {
                RequestStepModel::Inject {
                    terminal_id: terminal_id@,
                    bytes: bytes@,
                    session_id: session_id@,
                    ended: *ended,
                }
            },
        }
    }
}

/// What is accepted of the decoded text of a reply: exactly one answer in the session.
pub open spec fn accepted_reply(decoded: Option<Seq<u8>>, session_id: Seq<char>) -> Result<
    Seq<u8>,
    TransferRefusal,
> {
    match decoded {
        None => Err(TransferRefusal::ReplyNotBase64),
        Some(bytes) => if frame::is_terminal_response(bytes, session_id) {
            Ok(bytes)
        } else {
            Err(TransferRefusal::ReplyMismatch)
        },
    }
}

/// What the text of a reply stands for: exactly one answer in the session.
pub open spec fn reply_of(data: Seq<char>, session_id: Seq<char>) -> Result<
    Seq<u8>,
    TransferRefusal,
> {
    if encode_utf8(data).len() > MAX_ENCODED_COMMAND_BYTES {
        Err(TransferRefusal::ReplyTooLarge)
    } else {
        accepted_reply(codec::base64_decoded(encode_utf8(data)), session_id)
    }
}

/// The terminal and the session that an operation is about.
pub open spec fn subject_of(operation: OperationModel) -> (Seq<char>, Seq<char>) {
    match operation {
        OperationModel::Reply { terminal_id, session_id, .. } => (terminal_id, session_id),
        OperationModel::Cancel { terminal_id, session_id, .. } => (terminal_id, session_id),
    }
}

/// The sessions, and what is left to do, once a client has asked for an operation. What comes late
/// for a retired session is taken and dropped: it is never handed to the terminal and does not
/// bring the session back.
pub open spec fn request_received(
    routes: Seq<(Seq<char>, RouteModel)>,
    client_id: u64,
    operation: OperationModel,
    context: &ServerContext,
    clock: u64,
) -> (Seq<(Seq<char>, RouteModel)>, RequestStepModel) {
    let (terminal_id, session_id) = subject_of(operation);
    match table::get(routes, session_id) {
        None => (
            routes,
            RequestStepModel::Answer(Seq::empty(), Err(TransferRefusal::SessionUnavailable)),
        ),
        Some(route) => if route.client_id != client_id || route.terminal_id != terminal_id {
            (
                routes,
                RequestStepModel::Answer(Seq::empty(), Err(TransferRefusal::ForeignSession)),
            )
        } else if route.retired {
            (routes, RequestStepModel::Answer(Seq::empty(), Ok(())))
        } else if !context.is_live_source(route.terminal_id, route.source) {
            let (after, actions) = retired(routes, session_id, None, context, clock);
            (after, RequestStepModel::Answer(actions, Err(TransferRefusal::RuntimeReplaced)))
        } else {
            match operation {
                OperationModel::Reply { data, .. } => match reply_of(data, session_id) {
                    Err(refusal) => (routes, RequestStepModel::Answer(Seq::empty(), Err(refusal))),
                    Ok(bytes) => (
                        routes,
                        RequestStepModel::Inject {
                            terminal_id,
                            bytes,
                            session_id,
                            ended: frame::is_session_error(bytes),
                        },
                    ),
                },
                OperationModel::Cancel { message, .. } => if encode_utf8(message).len()
                    > MAX_CANCEL_MESSAGE_BYTES {
                    (
                        routes,
                        RequestStepModel::Answer(
                            Seq::empty(),
                            Err(TransferRefusal::MessageTooLarge),
                        ),
                    )
                } else {
                    let (after, actions) = retired(
                        routes,
                        session_id,
                        Some(CANCEL_PREFIX@ + message),
                        context,
                        clock,
                    );
                    (after, RequestStepModel::Answer(actions, Ok(())))
                },
            }
        },
    }
}

/// The sessions, the actions and the answer, once it is known whether the terminal took a reply. A
/// session ends where it did not, and where the reply reports an error of the session; else it
/// goes on.
pub open spec fn injection_settled(
    routes: Seq<(Seq<char>, RouteModel)>,
    session_id: Seq<char>,
    ended: bool,
    accepted: bool,
    context: &ServerContext,
    clock: u64,
) -> (Seq<(Seq<char>, RouteModel)>, Seq<ActionModel>, Result<(), TransferRefusal>) {
    if !accepted {
        let (after, actions) = retired(routes, session_id, Some(INPUT_FAILURE@), context, clock);
        (after, actions, Err(TransferRefusal::InputQueueFull))
    } else if ended {
        let (after, actions) = retired(routes, session_id, None, context, clock);
        (after, actions, Ok(()))
    } else {
        match table::get(routes, session_id) {
            Some(route) => (
                table::put(routes, session_id, RouteModel { touched: clock, ..route }),
                Seq::empty(),
                Ok(()),
            ),
            None => (routes, Seq::empty(), Ok(())),
        }
    }
}

/// The sessions, and the actions, once some sessions are retired, one after the other.
pub open spec fn retired_each(
    routes: Seq<(Seq<char>, RouteModel)>,
    due: Seq<(Seq<char>, Option<Seq<char>>)>,
    context: &ServerContext,
    clock: u64,
) -> (Seq<(Seq<char>, RouteModel)>, Seq<ActionModel>)
    decreases due.len(),
{
    if due.len() == 0 {
        (routes, Seq::empty())
    } else {
        let (before, actions) = retired_each(routes, due.drop_last(), context, clock);
        let (after, more) = retired(before, due.last().0, due.last().1, context, clock);
        (after, actions + more)
    }
}

/// How long a session may stay without traffic.
pub open spec fn patience(route: RouteModel) -> u64 {
    if route.finishing {
        TRANSFER_DRAIN_TIMEOUT
    } else {
        TRANSFER_IDLE_TIMEOUT
    }
}

/// Whether a session has expired: it is live, and either the runtime that it began in is gone or it
/// has been without traffic for too long.
pub open spec fn is_expired(route: RouteModel, context: &ServerContext, now: u64) -> bool {
    !route.retired && (!context.is_live_source(route.terminal_id, route.source) || upkeep::elapsed(
        now,
        route.touched,
    ) >= patience(route))
}

/// The expired sessions. The pane of one that was ending anyway is told nothing.
pub open spec fn expired_sessions(
    routes: Seq<(Seq<char>, RouteModel)>,
    context: &ServerContext,
    now: u64,
) -> Seq<(Seq<char>, Option<Seq<char>>)> {
    routes.filter(|entry: (Seq<char>, RouteModel)| is_expired(entry.1, context, now)).map_values(
        |entry: (Seq<char>, RouteModel)|
            (
                entry.0,
                if entry.1.finishing {
                    None
                } else {
                    Some(EXPIRED_FAILURE@)
                },
            ),
    )
}

/// Whether a session is kept: a retired one is, for a while.
pub open spec fn is_kept(route: RouteModel, now: u64) -> bool {
    !route.retired || upkeep::elapsed(now, route.touched) < TRANSFER_DRAIN_TIMEOUT
}

/// The sessions, and the actions, once they have been looked after: the expired ones are retired,
/// and those that were retired long ago are forgotten.
pub open spec fn maintained(
    routes: Seq<(Seq<char>, RouteModel)>,
    context: &ServerContext,
    now: u64,
    clock: u64,
) -> (Seq<(Seq<char>, RouteModel)>, Seq<ActionModel>) {
    let (after, actions) = retired_each(
        routes,
        expired_sessions(routes, context, now),
        context,
        clock,
    );
    (after.filter(|entry: (Seq<char>, RouteModel)| is_kept(entry.1, now)), actions)
}

/// The live sessions of a client.
pub open spec fn sessions_of_client(routes: Seq<(Seq<char>, RouteModel)>, client_id: u64) -> Seq<
    (Seq<char>, Option<Seq<char>>),
> {
    routes.filter(
        |entry: (Seq<char>, RouteModel)| entry.1.client_id == client_id && !entry.1.retired,
    ).map_values(|entry: (Seq<char>, RouteModel)| (entry.0, Some(DISCONNECTED_FAILURE@)))
}

/// The sessions, and the actions, once a client has gone away: its live sessions are retired.
pub open spec fn client_left(
    routes: Seq<(Seq<char>, RouteModel)>,
    client_id: u64,
    context: &ServerContext,
    clock: u64,
) -> (Seq<(Seq<char>, RouteModel)>, Seq<ActionModel>) {
    retired_each(routes, sessions_of_client(routes, client_id), context, clock)
}

/// Looking after sessions keeps what holds of them.
pub proof fn lemma_kept_wf(routes: Seq<(Seq<char>, RouteModel)>, now: u64)
    requires
        is_wf(routes),
    ensures
        is_wf(routes.filter(|entry: (Seq<char>, RouteModel)| is_kept(entry.1, now))),
{
    let keep = |entry: (Seq<char>, RouteModel)| is_kept(entry.1, now);
    let kept = routes.filter(keep);
    table::lemma_filter(routes, keep, Seq::empty());
    table::lemma_kept(routes, keep);
    assert forall|i: int| 0 <= i < kept.len() implies frame::is_session_id(
        (#[trigger] kept[i]).0,
    ) by {
        assert(routes.contains(kept[i]));
    }
}

/// The messages of the server may be reported.
proof fn lemma_failures_are_reportable()
    ensures
        is_reportable(STOPPING_FAILURE@),
        is_reportable(BUSY_FAILURE@),
        is_reportable(UNSUPPORTED_FAILURE@),
        is_reportable(QUEUE_FAILURE@),
        is_reportable(INPUT_FAILURE@),
        is_reportable(EXPIRED_FAILURE@),
        is_reportable(DISCONNECTED_FAILURE@),
        encode_utf8(CANCEL_PREFIX@).len() == 4,
        encode_utf8(CANCEL_PREFIX@)[0] == 0x45,
{
    reveal_strlit("ENOTCONN:server is stopping");
    reveal_strlit("EBUSY:transfer session limit or id collision");
    reveal_strlit("ENOTSUP:outer client does not support transfers");
    reveal_strlit("EIO:outer terminal transfer queue is full");
    reveal_strlit("EIO:terminal transfer input queue is full");
    reveal_strlit("ETIMEDOUT:terminal transfer expired");
    reveal_strlit("ENOTCONN:transfer client disconnected");
    reveal_strlit("EIO:");
    lemma_short_error_is_reportable(STOPPING_FAILURE@);
    lemma_short_error_is_reportable(BUSY_FAILURE@);
    lemma_short_error_is_reportable(UNSUPPORTED_FAILURE@);
    lemma_short_error_is_reportable(QUEUE_FAILURE@);
    lemma_short_error_is_reportable(INPUT_FAILURE@);
    lemma_short_error_is_reportable(EXPIRED_FAILURE@);
    lemma_short_error_is_reportable(DISCONNECTED_FAILURE@);
    frame_laws::lemma_ascii_encoding(CANCEL_PREFIX@);
}

/// Whether text may be reported as a failure: it fits in one frame, and is none of the texts of
/// progress.
pub open spec fn is_reportable(message: Seq<char>) -> bool {
    encode_utf8(message).len() <= frame::MAX_FAILURE_MESSAGE_BYTES && !frame::is_progress_status(
        encode_utf8(message),
    )
}

/// Whether bytes report a failure of the session `id`: they are a status of that session, and end
/// it with an error.
pub open spec fn reports_failure(bytes: Seq<u8>, id: Seq<char>) -> bool {
    frame::frame_of(bytes) == Some(("status"@, id)) && frame::is_session_error(bytes)
}

/// Whether terminals are handed nothing but reports of failures of the session `id`.
pub open spec fn only_reports(actions: Seq<ActionModel>, id: Seq<char>) -> bool {
    forall|i: int|
        0 <= i < actions.len() ==> (#[trigger] actions[i] matches ActionModel::Input {
            terminal_id,
            bytes,
        } ==> reports_failure(bytes, id))
}

/// Whether terminals are handed nothing but reports of failures of sessions that are recorded.
pub open spec fn only_reports_of(
    actions: Seq<ActionModel>,
    routes: Seq<(Seq<char>, RouteModel)>,
) -> bool {
    forall|i: int|
        0 <= i < actions.len() ==> (#[trigger] actions[i] matches ActionModel::Input {
            terminal_id,
            bytes,
        } ==> exists|id: Seq<char>|
            (#[trigger] reports_failure(bytes, id)) && (table::get(routes, id) matches Some(route)
                && route.terminal_id == terminal_id))
}

/// Whether every session that is recorded afterwards was recorded before, for the same terminal.
spec fn keeps_terminals(
    before: Seq<(Seq<char>, RouteModel)>,
    after: Seq<(Seq<char>, RouteModel)>,
) -> bool {
    forall|id: Seq<char>|
        (#[trigger] table::get(after, id)) matches Some(route) ==> (table::get(
            before,
            id,
        ) matches Some(earlier) && earlier.terminal_id == route.terminal_id)
}

/// Retiring one more session keeps the terminals, and its reports are of a recorded session.
proof fn lemma_retired_reports(
    before: Seq<(Seq<char>, RouteModel)>,
    routes: Seq<(Seq<char>, RouteModel)>,
    id: Seq<char>,
    error: Option<Seq<char>>,
    context: &ServerContext,
    clock: u64,
)
    requires
        is_wf(routes),
        keeps_terminals(before, routes),
        only_reports(retired(routes, id, error, context, clock).1, id),
    ensures
        keeps_terminals(before, retired(routes, id, error, context, clock).0),
        only_reports_of(retired(routes, id, error, context, clock).1, before),
{
    let (after, actions) = retired(routes, id, error, context, clock);
    if let Some(route) = table::get(routes, id) {
        let retiree = RouteModel { retired: true, touched: clock, ..route };
        assert forall|other: Seq<char>|
            (#[trigger] table::get(after, other)) matches Some(later) implies (table::get(
            before,
            other,
        ) matches Some(earlier) && earlier.terminal_id == (table::get(
            after,
            other,
        )->0).terminal_id) by {
            table::lemma_put(routes, id, retiree, other);
            assert(table::get(routes, other) is Some);
        }
        assert forall|i: int|
            0 <= i < actions.len() && (#[trigger] actions[i]) is Input implies exists|session: Seq<
            char,
        >|
            (#[trigger] reports_failure(actions[i]->bytes, session)) && (table::get(
                before,
                session,
            ) matches Some(earlier) && earlier.terminal_id == actions[i]->terminal_id) by {
            assert(reports_failure(actions[i]->bytes, id));
            assert(table::get(before, id) is Some);
        }
    }
}

/// A text that begins with `E` is none of the texts of progress.
proof fn lemma_errors_are_not_progress(message: Seq<char>)
    requires
        encode_utf8(message).len() > 0,
        encode_utf8(message)[0] == 0x45,
    ensures
        !frame::is_progress_status(encode_utf8(message)),
{
    reveal_strlit("OK");
    reveal_strlit("STARTED");
    reveal_strlit("PROGRESS");
    frame_laws::lemma_ascii_encoding("OK"@);
    frame_laws::lemma_ascii_encoding("STARTED"@);
    frame_laws::lemma_ascii_encoding("PROGRESS"@);
    assert(encode_utf8("OK"@)[0] == 0x4f);
    assert(encode_utf8("STARTED"@)[0] == 0x53);
    assert(encode_utf8("PROGRESS"@)[0] == 0x50);
}

/// ASCII text that begins with `E` and is short may be reported.
proof fn lemma_short_error_is_reportable(message: Seq<char>)
    requires
        is_ascii_chars(message),
        0 < message.len() <= 512,
        message[0] == 'E',
    ensures
        is_reportable(message),
{
    frame_laws::lemma_ascii_encoding(message);
    assert(encode_utf8(message)[0] == 0x45);
    lemma_errors_are_not_progress(message);
}

/// Recording a session under an acceptable id, in place of one or where there is room, keeps what
/// holds of the sessions.
pub proof fn lemma_route_wf(routes: Seq<(Seq<char>, RouteModel)>, id: Seq<char>, route: RouteModel)
    requires
        is_wf(routes),
        frame::is_session_id(id),
        table::has_key(routes, id) || routes.len() < MAX_TRANSFER_SESSIONS,
    ensures
        is_wf(table::put(routes, id, route)),
{
    let after = table::put(routes, id, route);
    table::lemma_put(routes, id, route, id);
    table::lemma_put_entries(routes, id, route);
    assert forall|i: int| 0 <= i < after.len() implies frame::is_session_id(
        (#[trigger] after[i]).0,
    ) by {
        if after[i] != (id, route) {
            assert(frame::is_session_id(routes[i].0));
        }
    }
}

/// A recorded session has an acceptable id.
pub proof fn lemma_recorded_id(routes: Seq<(Seq<char>, RouteModel)>, id: Seq<char>)
    requires
        is_wf(routes),
        table::get(routes, id) is Some,
    ensures
        frame::is_session_id(id),
        table::has_key(routes, id),
{
    table::lemma_get_has(routes, id);
    let i = choose|i: int| 0 <= i < routes.len() && (#[trigger] routes[i]).0 == id;
    assert(frame::is_session_id(routes[i].0));
}

/// Retiring a session keeps what holds of the sessions.
pub proof fn lemma_retired_wf(
    routes: Seq<(Seq<char>, RouteModel)>,
    id: Seq<char>,
    error: Option<Seq<char>>,
    context: &ServerContext,
    clock: u64,
)
    requires
        is_wf(routes),
    ensures
        is_wf(retired(routes, id, error, context, clock).0),
{
    if let Some(route) = table::get(routes, id) {
        lemma_recorded_id(routes, id);
        lemma_route_wf(routes, id, RouteModel { retired: true, touched: clock, ..route });
    }
}

/// The frame that cancels a session with an acceptable id is short.
proof fn lemma_cancel_frame_fits(id: Seq<char>)
    requires
        frame::is_session_id(id),
    ensures
        codec::base64_fits(frame::cancel_frame(id).len()),
{
    frame_laws::lemma_session_id_bytes(id);
    reveal_strlit("ac=cancel;id=");
    frame_laws::lemma_ascii_encoding("ac=cancel;id="@);
}

impl HeadlessServer {
    /// A server without sessions.
    pub fn new() -> (server: HeadlessServer)
        ensures
            server@ == Seq::<(Seq<char>, RouteModel)>::empty(),
            is_wf(server@),
    {
        HeadlessServer { transfer_routes: Table::new() }
    }

    /// The sessions, by their ids.
    pub fn transfer_routes(&self) -> (routes: &Table<TransferRoute>)
        ensures
            routes@ == self@,
    {
        &self.transfer_routes
    }

    /// The control that carries a command of a terminal, where the client can be written to.
    fn send_transfer_control(
        &self,
        client_id: u64,
        terminal_id: &str,
        command: &[u8],
        retire: bool,
        context: &ServerContext,
    ) -> (control: Option<TransferControl>)
        requires
            codec::base64_fits(command@.len()),
        ensures
            control is Some <==> context.is_writable(client_id),
            control matches Some(control) ==> control@ == control_for(
                context,
                terminal_id@,
                command@,
                retire,
            ),
            control matches Some(control) ==> command@.len() <= MAX_TRANSFER_COMMAND_BYTES
                ==> control::decoded_command(control.command@) == Some(command@),
    {
        if !context.has_writer(client_id) {
            return None;
        }
        let mut control = TransferControl::new(context.boot_id.as_str(), terminal_id, command);
        control.retire = retire;
        Some(control)
    }

    /// Reports a failure to a terminal, where it has a runtime.
    fn send_transfer_failure(
        &self,
        terminal_id: &str,
        id: &str,
        message: &str,
        context: &ServerContext,
    ) -> (actions: Vec<ServerAction>)
        requires
            frame::is_session_id(id@),
            is_reportable(message@),
        ensures
            action_models(actions@) == failure_reported(context, terminal_id@, id@, message@),
            only_reports(action_models(actions@), id@),
    {
        let mut actions: Vec<ServerAction> = Vec::new();
        if context.runtimes.get(terminal_id).is_some() {
            let bytes = frame::encode_failure(id, message);
            actions.push(ServerAction::Input { terminal_id: terminal_id.to_owned(), bytes });
        }
        assert(action_models(actions@) =~= failure_reported(
            context,
            terminal_id@,
            id@,
            message@,
        ));
        actions
    }

    /// Retires a session, where it is live.
    fn retire_terminal_transfer(
        &mut self,
        id: &str,
        error: Option<&str>,
        context: &ServerContext,
        clock: u64,
    ) -> (actions: Vec<ServerAction>)
        requires
            is_wf(old(self)@),
            error matches Some(message) ==> is_reportable(message@),
        ensures
            is_wf(final(self)@),
            final(self)@ == retired(
                old(self)@,
                id@,
                upkeep::message_model(error),
                context,
                clock,
            ).0,
            action_models(actions@) == retired(
                old(self)@,
                id@,
                upkeep::message_model(error),
                context,
                clock,
            ).1,
            only_reports(action_models(actions@), id@),
    {
        let ghost before = self@;
        proof {
            lemma_retired_wf(before, id@, upkeep::message_model(error), context, clock);
        }
        let mut actions: Vec<ServerAction> = Vec::new();
        assert(action_models(actions@) =~= Seq::<ActionModel>::empty());
        let (terminal_id, source, client_id, finishing) = match self.transfer_routes.get(id) {
            Some(route) => {
                if route.retired {
                    return actions;
                }
                (route.terminal_id.clone(), route.source, route.client_id, route.finishing)
            },
            None => {
                return actions;
            },
        };
        proof {
            lemma_recorded_id(before, id@);
            lemma_cancel_frame_fits(id@);
        }
        self.transfer_routes.insert(
            id,
            TransferRoute {
                terminal_id: terminal_id.clone(),
                source,
                client_id,
                touched: clock,
                finishing,
                retired: true,
            },
        );
        if let Some(message) = error {
            if context.has_live_source(terminal_id.as_str(), &source) {
                actions = self.send_transfer_failure(terminal_id.as_str(), id, message, context);
            }
        }
        let ghost told = action_models(actions@);
        let cancel = frame::encode_cancel(id);
        if let Some(control) = self.send_transfer_control(
            client_id,
            terminal_id.as_str(),
            cancel.as_slice(),
            true,
            context,
        ) {
            actions.push(ServerAction::Control { client_id, control });
            assert(action_models(actions@) =~= told.push(
                ActionModel::Control { client_id, control: control@ },
            ));
        }
        assert(action_models(actions@) =~= told + retirement_announced(
            context,
            client_id,
            terminal_id@,
            id@,
        ));
        actions
    }

    /// Hands a command of a session to the client of the session.
    fn pass_on(
        &mut self,
        terminal_id: &str,
        source: &TransferSource,
        command: &[u8],
        action: &str,
        id: &str,
        context: &ServerContext,
        clock: u64,
    ) -> (step: ForwardStep)
        requires
            is_wf(old(self)@),
            command@.len() <= MAX_TRANSFER_COMMAND_BYTES,
        ensures
            is_wf(final(self)@),
            step matches ForwardStep::Send { client_id, control, session_id }
                ==> control::decoded_command(control.command@) == Some(command@),
            step@ matches ForwardModel::Act(actions) ==> only_reports(actions, id@),
            final(self)@ == passed_on(
                old(self)@,
                terminal_id@,
                source@,
                command@,
                action@,
                id@,
                context,
                clock,
            ).0,
            step@ == passed_on(
                old(self)@,
                terminal_id@,
                source@,
                command@,
                action@,
                id@,
                context,
                clock,
            ).1,
    {
        let none: Vec<ServerAction> = Vec::new();
        assert(action_models(none@) =~= Seq::<ActionModel>::empty());
        let (client_id, finishing) = match self.transfer_routes.get(id) {
            Some(route) => {
                if !bytes::text_equal(route.terminal_id.as_str(), terminal_id)
                    || !route.source.matches(source) || route.retired {
                    return ForwardStep::Act(none);
                }
                (route.client_id, route.finishing)
            },
            None => {
                return ForwardStep::Act(none);
            },
        };
        let ends = bytes::text_equal(action, "finish") || bytes::text_equal(action, "cancel");
        let route = TransferRoute {
            terminal_id: terminal_id.to_owned(),
            source: *source,
            client_id,
            touched: clock,
            finishing: finishing || ends,
            retired: false,
        };
        proof {
            lemma_recorded_id(self@, id@);
            lemma_route_wf(self@, id@, route@);
            lemma_failures_are_reportable();
        }
        self.transfer_routes.insert(id, route);
        match self.send_transfer_control(client_id, terminal_id, command, false, context) {
            Some(control) => ForwardStep::Send { client_id, control, session_id: id.to_owned() },
            None => ForwardStep::Act(
                self.retire_terminal_transfer(id, Some(QUEUE_FAILURE), context, clock),
            ),
        }
    }

    /// Receives a command from a runtime of a pane.
    pub fn forward_terminal_transfer(
        &mut self,
        pane_id: u64,
        source: TransferSource,
        command: &[u8],
        context: &ServerContext,
        clock: u64,
    ) -> (step: ForwardStep)
        requires
            is_wf(old(self)@),
        ensures
            is_wf(final(self)@),
            final(self)@ == forwarded(
                old(self)@,
                pane_id,
                source@,
                command@,
                context,
                clock,
            ).0,
            step@ == forwarded(old(self)@, pane_id, source@, command@, context, clock).1,
            step matches ForwardStep::Send { client_id, control, session_id }
                ==> control::decoded_command(control.command@) == Some(command@),
            step@ matches ForwardModel::Act(actions) ==> (match frame::frame_of(command@) {
                Some((action, id)) => only_reports(actions, id),
                None => actions.len() == 0,
            }),
    {
        let none: Vec<ServerAction> = Vec::new();
        assert(action_models(none@) =~= Seq::<ActionModel>::empty());
        let terminal_id = match context.panes.get(&pane_id) {
            Some(terminal_id) => terminal_id.as_str(),
            None => {
                return ForwardStep::Act(none);
            },
        };
        if !context.has_live_source(terminal_id, &source) {
            return ForwardStep::Act(none);
        }
        let (action, id) = match frame::parse_action_and_id(command) {
            Some(parsed) => parsed,
            None => {
                return ForwardStep::Act(none);
            },
        };
        proof {
            frame_laws::lemma_frame_id(command@);
            lemma_failures_are_reportable();
        }
        if bytes::text_equal(action.as_str(), "send") || bytes::text_equal(
            action.as_str(),
            "receive",
        ) {
            if context.handoff_in_progress || context.shutting_down {
                return ForwardStep::Act(
                    self.send_transfer_failure(
                        terminal_id,
                        id.as_str(),
                        STOPPING_FAILURE,
                        context,
                    ),
                );
            }
            if self.transfer_routes.contains_key(id.as_str()) || self.transfer_routes.len()
                >= MAX_TRANSFER_SESSIONS {
                return ForwardStep::Act(
                    self.send_transfer_failure(terminal_id, id.as_str(), BUSY_FAILURE, context),
                );
            }
            let client_id = match context.foreground_client() {
                Some(client_id) => client_id,
                None => {
                    return ForwardStep::Act(
                        self.send_transfer_failure(
                            terminal_id,
                            id.as_str(),
                            UNSUPPORTED_FAILURE,
                            context,
                        ),
                    );
                },
            };
            let route = TransferRoute {
                terminal_id: terminal_id.to_owned(),
                source,
                client_id,
                touched: clock,
                finishing: false,
                retired: false,
            };
            proof {
                lemma_route_wf(self@, id@, route@);
            }
            self.transfer_routes.insert(id.as_str(), route);
        }
        self.pass_on(terminal_id, &source, command, action.as_str(), id.as_str(), context, clock)
    }

    /// Learns whether the control that `forward_terminal_transfer` gave out was queued.
    pub fn transfer_forwarded(
        &mut self,
        session_id: &str,
        delivered: bool,
        context: &ServerContext,
        clock: u64,
    ) -> (actions: Vec<ServerAction>)
        requires
            is_wf(old(self)@),
        ensures
            is_wf(final(self)@),
            final(self)@ == delivery_settled(
                old(self)@,
                session_id@,
                delivered,
                context,
                clock,
            ).0,
            action_models(actions@) == delivery_settled(
                old(self)@,
                session_id@,
                delivered,
                context,
                clock,
            ).1,
            only_reports(action_models(actions@), session_id@),
    {
        if delivered {
            let none: Vec<ServerAction> = Vec::new();
            assert(action_models(none@) =~= Seq::<ActionModel>::empty());
            none
        } else {
            proof {
                lemma_failures_are_reportable();
            }
            self.retire_terminal_transfer(session_id, Some(QUEUE_FAILURE), context, clock)
        }
    }

    /// Receives a request from a client.
    pub fn handle_terminal_transfer_request(
        &mut self,
        client_id: u64,
        operation: TransferOperation,
        context: &ServerContext,
        clock: u64,
    ) -> (step: RequestStep)
        requires
            is_wf(old(self)@),
        ensures
            is_wf(final(self)@),
            final(self)@ == request_received(
                old(self)@,
                client_id,
                operation@,
                context,
                clock,
            ).0,
            step@ == request_received(old(self)@, client_id, operation@, context, clock).1,
            step@ matches RequestStepModel::Answer(actions, answer) ==> only_reports(
                actions,
                subject_of(operation@).1,
            ),
    {
        let none: Vec<ServerAction> = Vec::new();
        assert(action_models(none@) =~= Seq::<ActionModel>::empty());
        let (terminal_id, session_id) = match &operation {
            TransferOperation::Reply { terminal_id, session_id, .. } => (terminal_id, session_id),
            TransferOperation::Cancel { terminal_id, session_id, .. } => (terminal_id, session_id),
        };
        let route = match self.transfer_routes.get(session_id.as_str()) {
            Some(route) => route,
            None => {
                return RequestStep::Answer(none, Err(TransferRefusal::SessionUnavailable));
            },
        };
        if route.client_id != client_id || !bytes::text_equal(
            route.terminal_id.as_str(),
            terminal_id.as_str(),
        ) {
            return RequestStep::Answer(none, Err(TransferRefusal::ForeignSession));
        }
        if route.retired {
            return RequestStep::Answer(none, Ok(()));
        }
        if !context.has_live_source(route.terminal_id.as_str(), &route.source) {
            let actions = self.retire_terminal_transfer(
                session_id.as_str(),
                None,
                context,
                clock,
            );
            return RequestStep::Answer(actions, Err(TransferRefusal::RuntimeReplaced));
        }
        match operation {
            TransferOperation::Reply { terminal_id, session_id, data } => {
                match decode_reply(data.as_str(), session_id.as_str()) {
                    Ok(bytes) => {
                        let ended = frame::session_error(bytes.as_slice());
                        RequestStep::Inject { terminal_id, bytes, session_id, ended }
                    },
                    Err(refusal) => RequestStep::Answer(none, Err(refusal)),
                }
            },
            TransferOperation::Cancel { terminal_id: _, session_id, message } => {
                if message.as_str().as_bytes().len() > MAX_CANCEL_MESSAGE_BYTES {
                    return RequestStep::Answer(none, Err(TransferRefusal::MessageTooLarge));
                }
                let mut failure = CANCEL_PREFIX.to_owned();
                failure.append(message.as_str());
                proof {
                    lemma_failures_are_reportable();
                    bytes::lemma_encode_concat(CANCEL_PREFIX@, message@);
                    lemma_errors_are_not_progress(CANCEL_PREFIX@ + message@);
                }
                let actions = self.retire_terminal_transfer(
                    session_id.as_str(),
                    Some(failure.as_str()),
                    context,
                    clock,
                );
                RequestStep::Answer(actions, Ok(()))
            },
        }
    }

    /// Learns whether the terminal took the reply that `handle_terminal_transfer_request` gave out.
    pub fn response_injected(
        &mut self,
        session_id: &str,
        ended: bool,
        accepted: bool,
        context: &ServerContext,
        clock: u64,
    ) -> (settled: (Vec<ServerAction>, Result<(), TransferRefusal>))
        requires
            is_wf(old(self)@),
        ensures
            is_wf(final(self)@),
            final(self)@ == injection_settled(
                old(self)@,
                session_id@,
                ended,
                accepted,
                context,
                clock,
            ).0,
            action_models(settled.0@) == injection_settled(
                old(self)@,
                session_id@,
                ended,
                accepted,
                context,
                clock,
            ).1,
            only_reports(action_models(settled.0@), session_id@),
            settled.1 == injection_settled(
                old(self)@,
                session_id@,
                ended,
                accepted,
                context,
                clock,
            ).2,
    {
        if !accepted {
            proof {
                lemma_failures_are_reportable();
            }
            let actions = self.retire_terminal_transfer(
                session_id,
                Some(INPUT_FAILURE),
                context,
                clock,
            );
            return (actions, Err(TransferRefusal::InputQueueFull));
        }
        if ended {
            let actions = self.retire_terminal_transfer(session_id, None, context, clock);
            return (actions, Ok(()));
        }
        let none: Vec<ServerAction> = Vec::new();
        assert(action_models(none@) =~= Seq::<ActionModel>::empty());
        let route = match self.transfer_routes.get(session_id) {
            Some(route) => TransferRoute {
                terminal_id: route.terminal_id.clone(),
                source: route.source,
                client_id: route.client_id,
                touched: clock,
                finishing: route.finishing,
                retired: route.retired,
            },
            None => {
                return (none, Ok(()));
            },
        };
        proof {
            lemma_recorded_id(self@, session_id@);
            lemma_route_wf(self@, session_id@, route@);
        }
        self.transfer_routes.insert(session_id, route);
        (none, Ok(()))
    }

    /// Retires some sessions, one after the other.
    fn retire_each(&mut self, due: &Vec<DueRetirement>, context: &ServerContext, clock: u64) -> (
        actions: Vec<ServerAction>)
        requires
            is_wf(old(self)@),
            forall|i: int|
                0 <= i < due@.len() ==> ((#[trigger] due@[i]).message matches Some(message)
                    ==> is_reportable(message@)),
        ensures
            is_wf(final(self)@),
            final(self)@ == retired_each(
                old(self)@,
                upkeep::due_models(due@),
                context,
                clock,
            ).0,
            action_models(actions@) == retired_each(
                old(self)@,
                upkeep::due_models(due@),
                context,
                clock,
            ).1,
            only_reports_of(action_models(actions@), old(self)@),
    {
        let ghost before = self@;
        let ghost all = upkeep::due_models(due@);
        let mut actions: Vec<ServerAction> = Vec::new();
        let mut i: usize = 0;
        proof {
            assert(action_models(actions@) =~= Seq::<ActionModel>::empty());
            assert(all.take(0) =~= Seq::<(Seq<char>, Option<Seq<char>>)>::empty());
        }
        while i < due.len()
            invariant
                is_wf(self@),
                keeps_terminals(before, self@),
                only_reports_of(action_models(actions@), before),
                i <= due@.len(),
                all == upkeep::due_models(due@),
                forall|j: int|
                    0 <= j < due@.len() ==> ((#[trigger] due@[j]).message matches Some(message)
                        ==> is_reportable(message@)),
                self@ == retired_each(before, all.take(i as int), context, clock).0,
                action_models(actions@) == retired_each(
                    before,
                    all.take(i as int),
                    context,
                    clock,
                ).1,
            decreases due@.len() - i,
        {
            let ghost earlier = action_models(actions@);
            let next = &due[i];
            let ghost reached = self@;
            let mut more = self.retire_terminal_transfer(
                next.id.as_str(),
                next.message,
                context,
                clock,
            );
            let ghost told = action_models(more@);
            proof {
                lemma_retired_reports(before, reached, next@.0, next@.1, context, clock);
            }
            actions.append(&mut more);
            proof {
                assert(action_models(actions@) =~= earlier + told);
                assert(all[i as int] == next@);
                assert(all.take(i + 1).drop_last() =~= all.take(i as int));
                assert(all.take(i + 1).last() == next@);
            }
            i += 1;
        }
        assert(all.take(i as int) =~= all);
        actions
    }

    /// The expired sessions.
    fn expired(&self, context: &ServerContext, now: u64) -> (due: Vec<DueRetirement>)
        ensures
            upkeep::due_models(due@) == expired_sessions(self@, context, now),
            forall|i: int|
                0 <= i < due@.len() ==> ((#[trigger] due@[i]).message matches Some(message)
                    ==> is_reportable(message@)),
    {
        let ghost all = self.transfer_routes@;
        let ghost picked = |entry: (Seq<char>, RouteModel)| is_expired(entry.1, context, now);
        let mut due: Vec<DueRetirement> = Vec::new();
        let mut i: usize = 0;
        proof {
            lemma_failures_are_reportable();
            reveal(Seq::filter);
            assert(all.take(0).filter(picked) =~= Seq::empty());
            assert(upkeep::due_models(due@) =~= expired_sessions(all.take(0), context, now));
        }
        while i < self.transfer_routes.len()
            invariant
                all == self.transfer_routes@,
                picked == (|entry: (Seq<char>, RouteModel)| is_expired(entry.1, context, now)),
                is_reportable(EXPIRED_FAILURE@),
                i <= all.len(),
                upkeep::due_models(due@) == expired_sessions(all.take(i as int), context, now),
                forall|j: int|
                    0 <= j < due@.len() ==> ((#[trigger] due@[j]).message matches Some(message)
                        ==> is_reportable(message@)),
            decreases all.len() - i,
        {
            let ghost earlier = due@;
            let route = self.transfer_routes.value_at(i);
            let limit: u64 = if route.finishing {
                TRANSFER_DRAIN_TIMEOUT
            } else {
                TRANSFER_IDLE_TIMEOUT
            };
            proof {
                assert(all.take(i + 1) =~= all.take(i as int).push(all[i as int]));
                all.take(i as int).lemma_filter_push(all[i as int], picked);
            }
            if !route.retired && (!context.has_live_source(
                route.terminal_id.as_str(),
                &route.source,
            ) || upkeep::elapsed_time(now, route.touched) >= limit) {
                let message = if route.finishing {
                    None
                } else {
                    Some(EXPIRED_FAILURE)
                };
                due.push(
                    DueRetirement { id: self.transfer_routes.key_at(i).to_owned(), message },
                );
                assert(upkeep::due_models(due@) =~= upkeep::due_models(earlier).push(
                    due@.last()@,
                ));
                assert(upkeep::due_models(due@) =~= expired_sessions(
                    all.take(i + 1),
                    context,
                    now,
                ));
            }
            i += 1;
        }
        assert(all.take(i as int) =~= all);
        due
    }

    /// Looks after the sessions at the moment `now`.
    pub fn maintain_terminal_transfers(
        &mut self,
        now: u64,
        context: &ServerContext,
        clock: u64,
    ) -> (actions: Vec<ServerAction>)
        requires
            is_wf(old(self)@),
        ensures
            is_wf(final(self)@),
            final(self)@ == maintained(old(self)@, context, now, clock).0,
            action_models(actions@) == maintained(old(self)@, context, now, clock).1,
            only_reports_of(action_models(actions@), old(self)@),
    {
        let expired = self.expired(context, now);
        let actions = self.retire_each(&expired, context, clock);
        let ghost after = self@;
        let mut keep: Vec<bool> = Vec::new();
        let mut i: usize = 0;
        while i < self.transfer_routes.len()
            invariant
                self@ == after,
                self.transfer_routes@ == after,
                i <= after.len(),
                keep@.len() == i,
                forall|j: int| 0 <= j < i ==> #[trigger] keep@[j] == is_kept(after[j].1, now),
            decreases after.len() - i,
        {
            let route = self.transfer_routes.value_at(i);
            keep.push(
                !route.retired || upkeep::elapsed_time(now, route.touched)
                    < TRANSFER_DRAIN_TIMEOUT,
            );
            i += 1;
        }
        proof {
            lemma_kept_wf(after, now);
        }
        self.transfer_routes.retain(
            &keep,
            Ghost(|entry: (Seq<char>, RouteModel)| is_kept(entry.1, now)),
        );
        actions
    }

    /// Learns that a client has gone away.
    pub fn cancel_terminal_transfers_for_client(
        &mut self,
        client_id: u64,
        context: &ServerContext,
        clock: u64,
    ) -> (actions: Vec<ServerAction>)
        requires
            is_wf(old(self)@),
        ensures
            is_wf(final(self)@),
            final(self)@ == client_left(old(self)@, client_id, context, clock).0,
            action_models(actions@) == client_left(old(self)@, client_id, context, clock).1,
            only_reports_of(action_models(actions@), old(self)@),
    {
        let ghost all = self.transfer_routes@;
        let ghost picked = |entry: (Seq<char>, RouteModel)|
            entry.1.client_id == client_id && !entry.1.retired;
        let mut due: Vec<DueRetirement> = Vec::new();
        let mut i: usize = 0;
        proof {
            lemma_failures_are_reportable();
            reveal(Seq::filter);
            assert(all.take(0).filter(picked) =~= Seq::empty());
            assert(upkeep::due_models(due@) =~= sessions_of_client(all.take(0), client_id));
        }
        while i < self.transfer_routes.len()
            invariant
                self@ == all,
                all == self.transfer_routes@,
                picked == (|entry: (Seq<char>, RouteModel)|
                    entry.1.client_id == client_id && !entry.1.retired),
                is_reportable(DISCONNECTED_FAILURE@),
                i <= all.len(),
                upkeep::due_models(due@) == sessions_of_client(all.take(i as int), client_id),
                forall|j: int|
                    0 <= j < due@.len() ==> ((#[trigger] due@[j]).message matches Some(message)
                        ==> is_reportable(message@)),
            decreases all.len() - i,
        {
            let ghost earlier = due@;
            let route = self.transfer_routes.value_at(i);
            proof {
                assert(all.take(i + 1) =~= all.take(i as int).push(all[i as int]));
                all.take(i as int).lemma_filter_push(all[i as int], picked);
            }
            if route.client_id == client_id && !route.retired {
                due.push(
                    DueRetirement {
                        id: self.transfer_routes.key_at(i).to_owned(),
                        message: Some(DISCONNECTED_FAILURE),
                    },
                );
                assert(upkeep::due_models(due@) =~= upkeep::due_models(earlier).push(
                    due@.last()@,
                ));
                assert(upkeep::due_models(due@) =~= sessions_of_client(
                    all.take(i + 1),
                    client_id,
                ));
            }
            i += 1;
        }
        assert(all.take(i as int) =~= all);
        self.retire_each(&due, context, clock)
    }
}

/// Accepts exactly one answer in the session.
pub fn accept_reply(decoded: Option<Vec<u8>>, session_id: &str) -> (reply: Result<
    Vec<u8>,
    TransferRefusal,
>)
    ensures
        match reply {
            Ok(bytes) => decoded == Some(bytes) && accepted_reply(Some(bytes@), session_id@) == Ok::<
                Seq<u8>,
                TransferRefusal,
            >(bytes@),
            Err(refusal) => accepted_reply(
                match decoded {
                    Some(bytes) => Some(bytes@),
                    None => None,
                },
                session_id@,
            ) == Err::<Seq<u8>, TransferRefusal>(refusal),
        },
{
    match decoded {
        Some(bytes) => if frame::terminal_response(bytes.as_slice(), session_id) {
            Ok(bytes)
        } else {
            Err(TransferRefusal::ReplyMismatch)
        },
        None => Err(TransferRefusal::ReplyNotBase64),
    }
}

/// What the text of a reply stands for: exactly one answer in the session.
pub fn decode_reply(data: &str, session_id: &str) -> (reply: Result<Vec<u8>, TransferRefusal>)
    ensures
        match reply {
            Ok(bytes) => reply_of(data@, session_id@) == Ok::<Seq<u8>, TransferRefusal>(bytes@),
            Err(refusal) => reply_of(data@, session_id@) == Err::<Seq<u8>, TransferRefusal>(
                refusal,
            ),
        },
{
    let text = data.as_bytes();
    if text.len() > MAX_ENCODED_COMMAND_BYTES {
        return Err(TransferRefusal::ReplyTooLarge);
    }
    accept_reply(codec::decode_base64(text), session_id)
}

} // verus!
