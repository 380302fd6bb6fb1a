//! What holds of a server and a client together: what a pane says reaches the outer terminal, and
//! what the outer terminal answers reaches the pane, byte for byte.
use vstd::prelude::*;
use vstd::utf8::*;

use crate::client;
use crate::client::{ActionModel, ClientModel, OwnerModel, RouteModel, StepModel};
use crate::control;
use crate::control::{ControlModel, OperationModel};
use crate::endpoint::EndpointModel;
use crate::frame;
use crate::frame_laws;
use crate::server;
use crate::server::{ForwardModel, RequestStepModel, ServerContext, TransferRefusal};
use crate::table;

verus! {

/// The owner that a control stands for at the client.
pub open spec fn owner_of(
    control: ControlModel,
    endpoint_id: EndpointModel,
    generation: u64,
) -> OwnerModel {
    OwnerModel {
        endpoint_id,
        generation,
        boot_id: control.boot_id,
        terminal_id: control.terminal_id,
    }
}

/// A command that the server hands on is written to the outer terminal as it came from the pane,
/// where the client has its session as a live one of that pane, or lets the session begin.
pub proof fn law_command_reaches_the_outer_terminal(
    routes: Seq<(Seq<char>, server::RouteModel)>,
    pane_id: u64,
    source: u64,
    command: Seq<u8>,
    context: &ServerContext,
    clock: u64,
    state: ClientModel,
    endpoint_id: EndpointModel,
    generation: u64,
    active: bool,
    registry: Seq<(EndpointModel, u64)>,
    later: u64,
)
    requires
        client::is_wf(state),
        server::forwarded(
            routes,
            pane_id,
            source,
            command,
            context,
            clock,
        ).1 matches ForwardModel::Send { client_id, control, session_id }
            && control::decoded_command(control.command) == Some(command) && (
        if frame::is_start_action((frame::frame_of(command)->0).0) {
            client::may_start(state, session_id, active)
        } else {
            table::get(state.routes, session_id) matches Some(route) && !route.retired
                && route.owner == owner_of(control, endpoint_id, generation)
        }),
    ensures
        server::forwarded(
            routes,
            pane_id,
            source,
            command,
            context,
            clock,
        ).1 matches ForwardModel::Send { client_id, control, session_id }
            && client::control_received(
            state,
            control,
            endpoint_id,
            generation,
            active,
            registry,
            later,
        ).1 == seq![ActionModel::Write(command)],
{
    let step = server::forwarded(routes, pane_id, source, command, context, clock).1;
    if let ForwardModel::Send { client_id, control, session_id } = step {
        let owner = owner_of(control, endpoint_id, generation);
        let live = RouteModel { owner, touched: later, finishing: false, retired: false };
        table::lemma_put(state.routes, session_id, live, session_id);
    }
}

/// A reply that the client sends is handed to the pane as it came from the outer terminal, where
/// the server has its session as a live one of that client and pane.
pub proof fn law_reply_reaches_the_pane(
    state: ClientModel,
    command: Seq<u8>,
    registry: Seq<(EndpointModel, u64)>,
    clock: u64,
    routes: Seq<(Seq<char>, server::RouteModel)>,
    client_id: u64,
    context: &ServerContext,
    later: u64,
)
    requires
        client::input_received(state, command, registry, clock).1 matches StepModel::Send(
            request,
            ticket,
        ) && request.operation matches OperationModel::Reply { terminal_id, session_id, data }
            && control::decoded_command(data) == Some(command) && (table::get(
            routes,
            session_id,
        ) matches Some(route) && !route.retired && route.client_id == client_id
            && route.terminal_id == terminal_id && context.is_live_source(
            terminal_id,
            route.source,
        )),
    ensures
        client::input_received(state, command, registry, clock).1 matches StepModel::Send(
            request,
            ticket,
        ) && server::request_received(routes, client_id, request.operation, context, later) == (
            routes,
            RequestStepModel::Inject {
                terminal_id: ticket.owner.terminal_id,
                bytes: command,
                session_id: ticket.session_id,
                ended: frame::is_session_error(command),
            },
        ),
{
}

/// A retirement that the server announces cancels the session at the outer terminal, where the
/// client has it as a live one of that pane.
pub proof fn law_retirement_reaches_the_outer_terminal(
    context: &ServerContext,
    terminal_id: Seq<char>,
    id: Seq<char>,
    state: ClientModel,
    endpoint_id: EndpointModel,
    generation: u64,
    active: bool,
    registry: Seq<(EndpointModel, u64)>,
    clock: u64,
)
    requires
        client::is_wf(state),
        frame::is_session_id(id),
        control::decoded_command(
            server::control_for(context, terminal_id, frame::cancel_frame(id), true).command,
        ) == Some(frame::cancel_frame(id)),
        table::get(state.routes, id) matches Some(route) && !route.retired && route.owner
            == owner_of(
            server::control_for(context, terminal_id, frame::cancel_frame(id), true),
            endpoint_id,
            generation,
        ),
    ensures
        ({
            let control = server::control_for(
                context,
                terminal_id,
                frame::cancel_frame(id),
                true,
            );
            let (after, actions) = client::control_received(
                state,
                control,
                endpoint_id,
                generation,
                active,
                registry,
                clock,
            );
            &&& actions == seq![ActionModel::Write(frame::cancel_frame(id))]
            &&& table::get(after.routes, id) matches Some(route) && route.retired
        }),
{
    frame_laws::law_cancel_frame_is_read_back(id);
    table::lemma_get_has(state.routes, id);
    let route = table::get(state.routes, id)->0;
    table::lemma_put(
        state.routes,
        id,
        RouteModel { retired: true, touched: clock, ..route },
        id,
    );
    assert(Seq::<ActionModel>::empty().push(ActionModel::Write(frame::cancel_frame(id)))
        =~= seq![ActionModel::Write(frame::cancel_frame(id))]);
}

/// A cancellation that the client sends retires the session at the server, and the pane is told the
/// client's reason, where the server has the session as a live one of that client and pane.
pub proof fn law_cancellation_reaches_the_pane(
    routes: Seq<(Seq<char>, server::RouteModel)>,
    client_id: u64,
    terminal_id: Seq<char>,
    id: Seq<char>,
    message: Seq<char>,
    context: &ServerContext,
    clock: u64,
)
    requires
        server::is_wf(routes),
        encode_utf8(message).len() <= server::MAX_CANCEL_MESSAGE_BYTES,
        table::get(routes, id) matches Some(route) && !route.retired && route.client_id
            == client_id && route.terminal_id == terminal_id && context.is_live_source(
            terminal_id,
            route.source,
        ),
    ensures
        ({
            let (after, step) = server::request_received(
                routes,
                client_id,
                OperationModel::Cancel { terminal_id, session_id: id, message },
                context,
                clock,
            );
            &&& step matches RequestStepModel::Answer(actions, answer) && answer == Ok::<
                (),
                TransferRefusal,
            >(()) && actions.len() > 0 && actions[0] == (server::ActionModel::Input {
                terminal_id,
                bytes: frame::failure_frame(id, server::CANCEL_PREFIX@ + message),
            })
            &&& table::get(after, id) matches Some(route) && route.retired
        }),
{
    let route = table::get(routes, id)->0;
    table::lemma_put(
        routes,
        id,
        server::RouteModel { retired: true, touched: clock, ..route },
        id,
    );
}

} // verus!
