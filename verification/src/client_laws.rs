//! What holds of a client over several calls.
use vstd::prelude::*;
use vstd::utf8::*;

use crate::bytes;
use crate::client;
use crate::client::{
    ActionModel, ClientModel, EndpointSendOutcome, MaintenanceModel, OwnerModel, PendingModel, RouteModel, StepModel,
    TicketModel, MAX_RESPONSE_BYTES, REQUEST_ID_PREFIX,
};
use crate::control::{OperationModel, MAX_TRANSFER_SESSIONS, TRANSFER_DRAIN_TIMEOUT};
use crate::decimal;
use crate::endpoint;
use crate::endpoint::EndpointModel;
use crate::frame;
use crate::frame_laws;
use crate::table;
use crate::upkeep;

verus! {

/// Whether the session `id`, where it is recorded, is still recorded afterwards, belongs to the
/// same owner, and is still retired if it was.
pub open spec fn keeps_route(before: ClientModel, after: ClientModel, id: Seq<char>) -> bool {
    match table::get(before.routes, id) {
        Some(route) => table::get(after.routes, id) matches Some(later) && later.owner
            == route.owner && (route.retired ==> later.retired) && (route.finishing
            ==> later.finishing),
        None => true,
    }
}

/// Retiring a session leaves every other one as it is, and changes nothing but the state of that
/// one; once retired, it has no pending replies.
pub proof fn lemma_retired_keeps(
    state: ClientModel,
    id: Seq<char>,
    error: Option<Seq<char>>,
    registry: Seq<(EndpointModel, u64)>,
    clock: u64,
    other: Seq<char>,
)
    requires
        client::is_wf(state),
    ensures
        keeps_route(state, client::retired(state, id, error, registry, clock).0, other),
        other != id ==> table::get(
            client::retired(state, id, error, registry, clock).0.routes,
            other,
        ) == table::get(state.routes, other),
{
    if let Some(route) = table::get(state.routes, id) {
        table::lemma_put(
            state.routes,
            id,
            RouteModel { retired: true, touched: clock, ..route },
            other,
        );
    }
}

/// No command from a server, whoever sends it, takes a recorded session from its owner, forgets it
/// or brings a retired one back to life.
pub proof fn law_commands_keep_sessions(
    state: ClientModel,
    command: Seq<u8>,
    owner: OwnerModel,
    retire: bool,
    active: bool,
    registry: Seq<(EndpointModel, u64)>,
    clock: u64,
    other: Seq<char>,
)
    requires
        client::is_wf(state),
    ensures
        keeps_route(
            state,
            client::command_received(state, command, owner, retire, active, registry, clock).0,
            other,
        ),
{
    frame_laws::lemma_frame_id(command);
    if let Some((action, id)) = frame::frame_of(command) {
        let live = RouteModel { owner, touched: clock, finishing: false, retired: false };
        let mark = RouteModel { owner, touched: clock, finishing: false, retired: true };
        table::lemma_get_has(state.routes, id);
        if retire {
            if !table::has_key(state.routes, id) && state.routes.len() < MAX_TRANSFER_SESSIONS {
                client::lemma_route_wf(state, id, mark);
                table::lemma_put(state.routes, id, mark, other);
                let marked = ClientModel { routes: table::put(state.routes, id, mark), ..state };
                lemma_retired_keeps(marked, id, None, registry, clock, other);
            } else {
                lemma_retired_keeps(state, id, None, registry, clock, other);
            }
        } else {
            let begun = if frame::is_start_action(action) && client::may_start(
                state,
                id,
                active,
            ) {
                client::lemma_route_wf(state, id, live);
                table::lemma_put(state.routes, id, live, other);
                ClientModel { routes: table::put(state.routes, id, live), ..state }
            } else {
                state
            };
            if let Some(route) = table::get(begun.routes, id) {
                table::lemma_put(
                    begun.routes,
                    id,
                    RouteModel {
                        touched: clock,
                        finishing: route.finishing || frame::is_end_action(action),
                        ..route
                    },
                    other,
                );
            }
        }
    }
}

/// No input from the outer terminal takes a recorded session from its owner, forgets it or brings a
/// retired one back to life; neither does the outcome of a reply.
pub proof fn law_input_keeps_sessions(
    state: ClientModel,
    command: Seq<u8>,
    registry: Seq<(EndpointModel, u64)>,
    clock: u64,
    ticket: TicketModel,
    outcome: EndpointSendOutcome,
    other: Seq<char>,
)
    requires
        client::is_wf(state),
    ensures
        keeps_route(state, client::input_received(state, command, registry, clock).0, other),
        keeps_route(state, client::reply_settled(state, ticket, outcome, clock).0, other),
{
    if let Some((action, id)) = frame::frame_of(command) {
        lemma_retired_keeps(
            state,
            id,
            Some(client::UNAVAILABLE_MESSAGE@),
            registry,
            clock,
            other,
        );
    }
    lemma_retired_keeps(state, ticket.session_id, None, Seq::empty(), clock, other);
    if let Some(route) = table::get(state.routes, ticket.session_id) {
        table::lemma_put(
            state.routes,
            ticket.session_id,
            RouteModel { touched: clock, retired: route.retired || ticket.ended, ..route },
            other,
        );
    }
}

/// No response takes a recorded session from its owner, forgets it or brings a retired one back to
/// life.
pub proof fn law_responses_keep_sessions(
    state: ClientModel,
    origin: (EndpointModel, u64, Seq<char>),
    request_id: Seq<char>,
    final_chunk: bool,
    data: Seq<u8>,
    registry: Seq<(EndpointModel, u64)>,
    clock: u64,
    other: Seq<char>,
)
    requires
        client::is_wf(state),
    ensures
        keeps_route(
            state,
            client::response_received(
                state,
                origin,
                request_id,
                final_chunk,
                data,
                registry,
                clock,
            ).0,
            other,
        ),
{
    let (after, step) = client::chunk_received(
        state,
        origin.0,
        origin.1,
        origin.2,
        request_id,
        final_chunk,
        data,
    );
    client::lemma_chunk_received_wf(
        state,
        origin.0,
        origin.1,
        origin.2,
        request_id,
        final_chunk,
        data,
    );
    if let Some(reply) = table::get(after.pending, request_id) {
        client::lemma_fewer_replies_wf(after, table::other_than(request_id));
        lemma_retired_keeps(
            ClientModel { pending: table::without(after.pending, request_id), ..after },
            reply.session_id,
            Some(client::REJECTED_MESSAGE@),
            registry,
            clock,
            other,
        );
    }
}

/// A retirement that overtakes the start of its session keeps the session from ever reaching the
/// outer terminal: neither the retirement nor a later start with that id, from whatever owner,
/// writes anything, and the session is retired before and after.
pub proof fn law_retirement_may_overtake_the_start(
    state: ClientModel,
    cancel: Seq<u8>,
    start: Seq<u8>,
    id: Seq<char>,
    owner: OwnerModel,
    starter: OwnerModel,
    active: bool,
    registry: Seq<(EndpointModel, u64)>,
    clock: u64,
    later: u64,
)
    requires
        client::is_wf(state),
        frame::frame_of(cancel) matches Some((_, session)) && session == id,
        frame::frame_of(start) matches Some((action, session)) && session == id
            && frame::is_start_action(action),
        !table::has_key(state.routes, id),
        state.routes.len() < MAX_TRANSFER_SESSIONS,
    ensures
        ({
            let (first, none) = client::command_received(
                state,
                cancel,
                owner,
                true,
                active,
                registry,
                clock,
            );
            let (last, notice) = client::command_received(
                first,
                start,
                starter,
                false,
                active,
                registry,
                later,
            );
            &&& none == Seq::<ActionModel>::empty()
            &&& table::get(first.routes, id) matches Some(route) && route.retired
            &&& last.routes == first.routes
            &&& forall|i: int| 0 <= i < notice.len() ==> !((#[trigger] notice[i]) is Write)
        }),
{
    let mark = RouteModel { owner, touched: clock, finishing: false, retired: true };
    table::lemma_put(state.routes, id, mark, id);
    let first = client::command_received(state, cancel, owner, true, active, registry, clock).0;
    table::lemma_get_has(first.routes, id);
}

/// A session that may begin is recorded as its owner's, and its start goes to the outer terminal
/// and nowhere else.
pub proof fn law_start_is_forwarded(
    state: ClientModel,
    start: Seq<u8>,
    owner: OwnerModel,
    registry: Seq<(EndpointModel, u64)>,
    clock: u64,
)
    requires
        client::is_wf(state),
        frame::frame_of(start) matches Some((action, id)) && frame::is_start_action(action)
            && client::may_start(state, id, true),
    ensures
        ({
            let id = (frame::frame_of(start)->0).1;
            let (after, actions) = client::command_received(
                state,
                start,
                owner,
                false,
                true,
                registry,
                clock,
            );
            &&& actions == seq![ActionModel::Write(start)]
            &&& table::get(after.routes, id) == Some(
                RouteModel { owner, touched: clock, finishing: false, retired: false },
            )
        }),
{
    let (action, id) = frame::frame_of(start)->0;
    let live = RouteModel { owner, touched: clock, finishing: false, retired: false };
    frame_laws::lemma_frame_id(start);
    table::lemma_get_has(state.routes, id);
    client::lemma_route_wf(state, id, live);
    table::lemma_put(state.routes, id, live, id);
    let begun = table::put(state.routes, id, live);
    frame_laws::lemma_start_does_not_end(action);
    table::lemma_put(begun, id, live, id);
}

/// A start whose id is in use, or which comes from an endpoint that is not in front, never reaches
/// the outer terminal and leaves every session as it is; its sender is told, where it takes
/// requests.
pub proof fn law_colliding_start_is_refused(
    state: ClientModel,
    start: Seq<u8>,
    owner: OwnerModel,
    active: bool,
    registry: Seq<(EndpointModel, u64)>,
    clock: u64,
)
    requires
        frame::frame_of(start) matches Some((action, id)) && frame::is_start_action(action)
            && !client::may_start(state, id, active),
    ensures
        ({
            let id = (frame::frame_of(start)->0).1;
            let (after, actions) = client::command_received(
                state,
                start,
                owner,
                false,
                active,
                registry,
                clock,
            );
            &&& after.routes == state.routes
            &&& after.pending == state.pending
            &&& if endpoint::accepts(registry, owner.endpoint_id, owner.generation) {
                &&& actions.len() == 1
                &&& actions[0] matches ActionModel::Request(request) && request.endpoint_id
                    == owner.endpoint_id && request.boot_id == owner.boot_id && request.operation
                    == (OperationModel::Cancel {
                    terminal_id: owner.terminal_id,
                    session_id: id,
                    message: client::BUSY_MESSAGE@,
                })
            } else {
                actions.len() == 0
            }
        }),
{
}

/// A command that does not begin a session does nothing, unless it comes from the owner of its
/// session and the session is live.
pub proof fn law_foreign_commands_are_ignored(
    state: ClientModel,
    command: Seq<u8>,
    owner: OwnerModel,
    active: bool,
    registry: Seq<(EndpointModel, u64)>,
    clock: u64,
)
    requires
        frame::frame_of(command) matches Some((action, id)) && !frame::is_start_action(action)
            && !(table::get(state.routes, id) matches Some(route) && !route.retired && route.owner
            == owner),
    ensures
        client::command_received(state, command, owner, false, active, registry, clock) == (
            state,
            Seq::<ActionModel>::empty(),
        ),
{
}

/// A retirement from anyone but the owner of a session leaves the session, and every other, as it
/// is.
pub proof fn law_foreign_retirements_are_ignored(
    state: ClientModel,
    command: Seq<u8>,
    owner: OwnerModel,
    active: bool,
    registry: Seq<(EndpointModel, u64)>,
    clock: u64,
)
    requires
        frame::frame_of(command) matches Some((action, id)) && table::get(
            state.routes,
            id,
        ) matches Some(route) && route.owner != owner,
    ensures
        client::command_received(state, command, owner, true, active, registry, clock) == (
            state,
            Seq::<ActionModel>::empty(),
        ),
{
    let id = (frame::frame_of(command)->0).1;
    table::lemma_get_has(state.routes, id);
}

/// What the outer terminal answers goes to the owner of the session and to nobody else, and only
/// over the connection that the session began on.
pub proof fn law_replies_go_to_the_owner(
    state: ClientModel,
    command: Seq<u8>,
    registry: Seq<(EndpointModel, u64)>,
    clock: u64,
)
    ensures
        client::input_received(state, command, registry, clock).1 matches StepModel::Send(
            request,
            ticket,
        ) ==> {
            &&& table::get(state.routes, ticket.session_id) matches Some(route) && !route.retired
                && route.owner == ticket.owner
            &&& frame::is_terminal_response(command, ticket.session_id)
            &&& request.endpoint_id == ticket.owner.endpoint_id
            &&& request.boot_id == ticket.owner.boot_id
            &&& endpoint::accepts(registry, ticket.owner.endpoint_id, ticket.owner.generation)
        },
{
}

/// A retired session is not retired again: nothing changes and nothing is written.
pub proof fn law_retiring_is_done_once(
    state: ClientModel,
    id: Seq<char>,
    error: Option<Seq<char>>,
    registry: Seq<(EndpointModel, u64)>,
    clock: u64,
    again: Option<Seq<char>>,
    later: u64,
)
    requires
        client::is_wf(state),
    ensures
        ({
            let first = client::retired(state, id, error, registry, clock).0;
            client::retired(first, id, again, registry, later) == (
                first,
                Seq::<ActionModel>::empty(),
            )
        }),
{
    if let Some(route) = table::get(state.routes, id) {
        table::lemma_put(
            state.routes,
            id,
            RouteModel { retired: true, touched: clock, ..route },
            id,
        );
    }
}

/// When a live session is retired, the last thing that is written is the frame that cancels it, and
/// none of its replies stays pending.
pub proof fn law_retiring_cancels_and_forgets(
    state: ClientModel,
    id: Seq<char>,
    error: Option<Seq<char>>,
    registry: Seq<(EndpointModel, u64)>,
    clock: u64,
)
    requires
        client::is_wf(state),
        table::get(state.routes, id) matches Some(route) && !route.retired,
    ensures
        ({
            let (after, actions) = client::retired(state, id, error, registry, clock);
            &&& actions.len() > 0
            &&& actions.last() == ActionModel::Write(frame::cancel_frame(id))
            &&& table::get(after.routes, id) matches Some(route) && route.retired && route.touched
                == clock
            &&& forall|i: int|
                0 <= i < after.pending.len() ==> (#[trigger] after.pending[i]).1.session_id != id
        }),
{
    let route = table::get(state.routes, id)->0;
    let retiree = RouteModel { retired: true, touched: clock, ..route };
    table::lemma_put(state.routes, id, retiree, id);
    table::lemma_kept(
        state.pending,
        |entry: (Seq<char>, PendingModel)| entry.1.session_id != id,
    );
}

/// Every id that a request can have is recognised as that of a transfer request.
pub proof fn law_request_ids_are_recognised(number: u64)
    ensures
        encode_utf8(REQUEST_ID_PREFIX@).is_prefix_of(
            encode_utf8(client::request_id_text(number)),
        ),
{
    let prefix = encode_utf8(REQUEST_ID_PREFIX@);
    let rest = encode_utf8(decimal::decimal(number as nat));
    bytes::lemma_encode_concat(REQUEST_ID_PREFIX@, decimal::decimal(number as nat));
    assert((prefix + rest).take(prefix.len() as int) =~= prefix);
}

/// An acknowledgement may arrive in any number of chunks: one chunk after another is the same as
/// both at once.
pub proof fn law_chunks_are_joined(
    state: ClientModel,
    endpoint_id: EndpointModel,
    generation: u64,
    boot_id: Seq<char>,
    request_id: Seq<char>,
    final_chunk: bool,
    one: Seq<u8>,
    two: Seq<u8>,
)
    requires
        client::is_wf(state),
        table::get(state.pending, request_id) matches Some(reply) && reply.response.len()
            + one.len() <= MAX_RESPONSE_BYTES,
    ensures
        ({
            let (first, step) = client::chunk_received(
                state,
                endpoint_id,
                generation,
                boot_id,
                request_id,
                false,
                one,
            );
            let (apart, apart_step) = client::chunk_received(
                first,
                endpoint_id,
                generation,
                boot_id,
                request_id,
                final_chunk,
                two,
            );
            let (joined, joined_step) = client::chunk_received(
                state,
                endpoint_id,
                generation,
                boot_id,
                request_id,
                final_chunk,
                one + two,
            );
            &&& step is Wait
            &&& apart_step == joined_step
            &&& !(joined_step is Refuse) ==> apart == joined
        }),
{
    let reply = table::get(state.pending, request_id)->0;
    let some = PendingModel { response: reply.response + one, ..reply };
    let all = PendingModel { response: reply.response + one + two, ..reply };
    table::lemma_get_has(state.pending, request_id);
    table::lemma_put(state.pending, request_id, some, request_id);
    let halfway = table::put(state.pending, request_id, some);
    assert(reply.response + one + two =~= reply.response + (one + two));
    assert(table::put(halfway, request_id, all) =~= table::put(state.pending, request_id, all));
}

/// An acknowledged reply is no longer pending, and its session goes on as it was.
pub proof fn law_acknowledgement_settles_a_reply(
    state: ClientModel,
    request_id: Seq<char>,
    registry: Seq<(EndpointModel, u64)>,
    clock: u64,
)
    requires
        client::is_wf(state),
    ensures
        ({
            let (after, actions) = client::response_settled(
                state,
                request_id,
                true,
                registry,
                clock,
            );
            &&& actions == Seq::<ActionModel>::empty()
            &&& after.routes == state.routes
            &&& table::get(after.pending, request_id) is None
        }),
{
    table::lemma_filter(state.pending, table::other_than(request_id), request_id);
}

/// A refused reply is no longer pending; its session is retired, and where it was live, it is
/// cancelled at the outer terminal.
pub proof fn law_refusal_retires_the_session(
    state: ClientModel,
    request_id: Seq<char>,
    registry: Seq<(EndpointModel, u64)>,
    clock: u64,
)
    requires
        client::is_wf(state),
        table::get(state.pending, request_id) is Some,
    ensures
        ({
            let id = (table::get(state.pending, request_id)->0).session_id;
            let (after, actions) = client::response_settled(
                state,
                request_id,
                false,
                registry,
                clock,
            );
            &&& table::get(after.pending, request_id) is None
            &&& table::get(after.routes, id) matches Some(route) && route.retired
            &&& !(table::get(state.routes, id)->0).retired ==> actions.len() > 0 && actions.last()
                == ActionModel::Write(frame::cancel_frame(id))
        }),
{
    let reply = table::get(state.pending, request_id)->0;
    let id = reply.session_id;
    table::lemma_get_has(state.pending, request_id);
    assert(state.pending.contains((request_id, reply)));
    assert(client::has_route(state.routes, reply));
    client::lemma_fewer_replies_wf(state, table::other_than(request_id));
    let fewer = ClientModel { pending: table::without(state.pending, request_id), ..state };
    table::lemma_filter(state.pending, table::other_than(request_id), request_id);
    if !(table::get(state.routes, id)->0).retired {
        law_retiring_cancels_and_forgets(
            fewer,
            id,
            Some(client::REJECTED_MESSAGE@),
            registry,
            clock,
        );
        let other = |entry: (Seq<char>, PendingModel)| entry.1.session_id != id;
        table::lemma_filter(fewer.pending, other, request_id);
    }
}

/// Whether a session is recorded and live.
pub open spec fn is_live(state: ClientModel, id: Seq<char>) -> bool {
    table::get(state.routes, id) matches Some(route) && !route.retired
}

/// Of sessions that are retired one after the other, those that were live become retired and are
/// cancelled at the outer terminal, and lose their replies; everything else stays.
pub proof fn lemma_retired_each(
    state: ClientModel,
    due: Seq<(Seq<char>, Option<Seq<char>>)>,
    registry: Seq<(EndpointModel, u64)>,
    clock: u64,
    id: Seq<char>,
    request_id: Seq<char>,
)
    requires
        client::is_wf(state),
    ensures
        ({
            let (after, actions) = client::retired_each(state, due, registry, clock);
            &&& client::is_wf(after)
            &&& table::get(after.routes, id) == (match table::get(state.routes, id) {
                Some(route) if !route.retired && upkeep::is_due(due, id) => Some(
                    RouteModel { retired: true, touched: clock, ..route },
                ),
                found => found,
            })
            &&& table::get(after.pending, request_id) == (match table::get(
                state.pending,
                request_id,
            ) {
                Some(reply) if is_live(state, reply.session_id) && upkeep::is_due(
                    due,
                    reply.session_id,
                ) => None,
                found => found,
            })
            &&& is_live(state, id) && upkeep::is_due(due, id) ==> actions.contains(
                ActionModel::Write(frame::cancel_frame(id)),
            )
        }),
    decreases due.len(),
{
    if due.len() > 0 {
        let rest = due.skip(1);
        let head = due[0].0;
        let (first, actions) = client::retired(state, head, due[0].1, registry, clock);
        client::lemma_retired_wf(state, head, due[0].1, registry, clock);
        lemma_retired_each(first, rest, registry, clock, id, request_id);
        let (after, more) = client::retired_each(first, rest, registry, clock);
        assert forall|session: Seq<char>| #[trigger]
            upkeep::is_due(due, session) == (session == head || upkeep::is_due(rest, session)) by {
            if upkeep::is_due(due, session) && session != head {
                let i = choose|i: int| 0 <= i < due.len() && (#[trigger] due[i]).0 == session;
                assert(rest[i - 1].0 == session);
            }
            if upkeep::is_due(rest, session) {
                let i = choose|i: int| 0 <= i < rest.len() && (#[trigger] rest[i]).0 == session;
                assert(due[i + 1].0 == session);
            }
        }
        lemma_retired_keeps(state, head, due[0].1, registry, clock, id);
        if let Some(reply) = table::get(state.pending, request_id) {
            lemma_retired_keeps(state, head, due[0].1, registry, clock, reply.session_id);
        }
        if is_live(state, head) {
            law_retiring_cancels_and_forgets(state, head, due[0].1, registry, clock);
            let route = table::get(state.routes, head)->0;
            table::lemma_put(
                state.routes,
                head,
                RouteModel { retired: true, touched: clock, ..route },
                id,
            );
            let other = |entry: (Seq<char>, PendingModel)| entry.1.session_id != head;
            table::lemma_filter(state.pending, other, request_id);
            assert(first.pending == state.pending.filter(other));
            let cancel = ActionModel::Write(frame::cancel_frame(head));
            assert((actions + more)[actions.len() - 1] == cancel);
        }
        if more.contains(ActionModel::Write(frame::cancel_frame(id))) {
            let i = choose|i: int|
                0 <= i < more.len() && more[i] == ActionModel::Write(frame::cancel_frame(id));
            assert((actions + more)[actions.len() + i] == ActionModel::Write(
                frame::cancel_frame(id),
            ));
        }
    }
}

/// Whether a session is left alone by an upkeep: it is live, not stale, and none of its replies is
/// overdue.
pub open spec fn survives(
    state: ClientModel,
    registry: Seq<(EndpointModel, u64)>,
    now: u64,
    id: Seq<char>,
) -> bool {
    &&& table::get(state.routes, id) matches Some(route) && !route.retired && !client::is_stale(
        route,
        registry,
        now,
    )
    &&& forall|i: int|
        0 <= i < state.pending.len() && (#[trigger] state.pending[i]).1.session_id == id
            ==> !client::is_overdue(state.pending[i].1, now)
}

/// A live session is due for retirement as stale exactly if it is stale.
pub proof fn lemma_stale_is_due(
    state: ClientModel,
    registry: Seq<(EndpointModel, u64)>,
    now: u64,
    id: Seq<char>,
)
    requires
        client::is_wf(state),
    ensures
        upkeep::is_due(client::stale_sessions(state.routes, registry, now), id) == (table::get(
            state.routes,
            id,
        ) matches Some(route) && client::is_stale(route, registry, now)),
{
    let picked = |entry: (Seq<char>, RouteModel)| client::is_stale(entry.1, registry, now);
    let stale = state.routes.filter(picked);
    let due = client::stale_sessions(state.routes, registry, now);
    table::lemma_kept(state.routes, picked);
    table::lemma_get_has(state.routes, id);
    if upkeep::is_due(due, id) {
        let i = choose|i: int| 0 <= i < due.len() && (#[trigger] due[i]).0 == id;
        assert(stale[i].0 == id && picked(stale[i]));
        let j = choose|j: int| 0 <= j < state.routes.len() && state.routes[j] == stale[i];
        table::lemma_get(state.routes, j);
    }
    if let Some(route) = table::get(state.routes, id) {
        if client::is_stale(route, registry, now) {
            let j = choose|j: int| 0 <= j < state.routes.len() && state.routes[j] == (id, route);
            state.routes.lemma_filter_contains(picked, j);
            let i = choose|i: int| 0 <= i < stale.len() && stale[i] == (id, route);
            assert(due[i].0 == id);
        }
    }
}

/// A session is due for retirement for its replies exactly if one of them is overdue.
pub proof fn lemma_overdue_is_due(state: ClientModel, now: u64, id: Seq<char>)
    ensures
        upkeep::is_due(client::overdue_sessions(state.pending, now), id) == exists|i: int|
            0 <= i < state.pending.len() && (#[trigger] state.pending[i]).1.session_id == id
                && client::is_overdue(state.pending[i].1, now),
{
    let picked = |entry: (Seq<char>, PendingModel)| client::is_overdue(entry.1, now);
    let overdue = state.pending.filter(picked);
    let due = client::overdue_sessions(state.pending, now);
    table::lemma_kept(state.pending, picked);
    if upkeep::is_due(due, id) {
        let i = choose|i: int| 0 <= i < due.len() && (#[trigger] due[i]).0 == id;
        assert(overdue[i].1.session_id == id && picked(overdue[i]));
        let j = choose|j: int| 0 <= j < state.pending.len() && state.pending[j] == overdue[i];
        assert(state.pending[j].1.session_id == id);
    }
    if exists|i: int|
        0 <= i < state.pending.len() && (#[trigger] state.pending[i]).1.session_id == id
            && client::is_overdue(state.pending[i].1, now) {
        let j = choose|j: int|
            0 <= j < state.pending.len() && (#[trigger] state.pending[j]).1.session_id == id
                && client::is_overdue(state.pending[j].1, now);
        state.pending.lemma_filter_contains(picked, j);
        let i = choose|i: int| 0 <= i < overdue.len() && overdue[i] == state.pending[j];
        assert(due[i].0 == id);
    }
}

/// An upkeep leaves exactly those live sessions alone that are not stale and have no overdue
/// reply. They stay as they were; every other live session is cancelled at the outer terminal and
/// is live no more.
pub proof fn law_maintenance_retires_what_is_due(
    state: ClientModel,
    registry: Seq<(EndpointModel, u64)>,
    now: u64,
    clock: u64,
    id: Seq<char>,
)
    requires
        client::is_wf(state),
    ensures
        ({
            let (after, actions) = client::maintained(state, registry, now, clock);
            &&& is_live(after, id) == survives(state, registry, now, id)
            &&& is_live(after, id) ==> table::get(after.routes, id) == table::get(
                state.routes,
                id,
            )
            &&& is_live(state, id) && !is_live(after, id) ==> actions.contains(
                ActionModel::Write(frame::cancel_frame(id)),
            )
        }),
{
    if state.routes.len() > 0 {
        let stale = client::stale_sessions(state.routes, registry, now);
        let (first, actions) = client::retired_each(state, stale, registry, clock);
        lemma_retired_each(state, stale, registry, clock, id, id);
        let overdue = client::overdue_sessions(first.pending, now);
        let (second, more) = client::retired_each(first, overdue, registry, clock);
        lemma_retired_each(first, overdue, registry, clock, id, id);
        lemma_stale_is_due(state, registry, now, id);
        lemma_overdue_is_due(first, now, id);
        let keep = |entry: (Seq<char>, RouteModel)| client::is_kept(entry.1, now);
        table::lemma_filter(second.routes, keep, id);
        assert(client::pruned(second, now).routes == second.routes.filter(keep));
        if is_live(state, id) && !upkeep::is_due(stale, id) {
            assert forall|i: int|
                0 <= i < state.pending.len() && (#[trigger] state.pending[i]).1.session_id
                    == id && client::is_overdue(state.pending[i].1, now) implies upkeep::is_due(
                overdue,
                id,
            ) by {
                let (request_id, reply) = state.pending[i];
                table::lemma_get(state.pending, i);
                lemma_retired_each(state, stale, registry, clock, id, request_id);
                table::lemma_get_has(first.pending, request_id);
                let j = choose|j: int|
                    0 <= j < first.pending.len() && first.pending[j] == (request_id, reply);
                assert(first.pending[j].1.session_id == id);
            }
            if upkeep::is_due(overdue, id) {
                let j = choose|j: int|
                    0 <= j < first.pending.len() && (#[trigger] first.pending[j]).1.session_id
                        == id && client::is_overdue(first.pending[j].1, now);
                let (request_id, reply) = first.pending[j];
                table::lemma_get(first.pending, j);
                lemma_retired_each(state, stale, registry, clock, id, request_id);
                table::lemma_get_has(state.pending, request_id);
                let i = choose|i: int|
                    0 <= i < state.pending.len() && state.pending[i] == (request_id, reply);
                assert(state.pending[i].1.session_id == id);
            }
        }
        let cancel = ActionModel::Write(frame::cancel_frame(id));
        if actions.contains(cancel) {
            let i = choose|i: int| 0 <= i < actions.len() && actions[i] == cancel;
            assert((actions + more)[i] == cancel);
        }
        if more.contains(cancel) {
            let i = choose|i: int| 0 <= i < more.len() && more[i] == cancel;
            assert((actions + more)[actions.len() + i] == cancel);
        }
    }
}

/// After an upkeep no reply is overdue, and no session is recorded that was retired long ago.
pub proof fn law_maintenance_forgets(
    state: ClientModel,
    registry: Seq<(EndpointModel, u64)>,
    now: u64,
    clock: u64,
)
    requires
        client::is_wf(state),
    ensures
        ({
            let after = client::maintained(state, registry, now, clock).0;
            &&& forall|i: int|
                0 <= i < after.pending.len() ==> !client::is_overdue(
                    (#[trigger] after.pending[i]).1,
                    now,
                )
            &&& forall|i: int|
                0 <= i < after.routes.len() ==> !(#[trigger] after.routes[i]).1.retired
                    || upkeep::elapsed(now, after.routes[i].1.touched) < TRANSFER_DRAIN_TIMEOUT
        }),
{
    if state.routes.len() > 0 {
        let stale = client::stale_sessions(state.routes, registry, now);
        let first = client::retired_each(state, stale, registry, clock).0;
        let overdue = client::overdue_sessions(first.pending, now);
        let second = client::retired_each(first, overdue, registry, clock).0;
        let after = client::pruned(second, now);
        let keep = |entry: (Seq<char>, RouteModel)| client::is_kept(entry.1, now);
        let routes = second.routes.filter(keep);
        let keep_reply = |entry: (Seq<char>, PendingModel)|
            table::has_key(routes, entry.1.session_id) && !client::is_overdue(entry.1, now);
        table::lemma_kept(second.routes, keep);
        table::lemma_kept(second.pending, keep_reply);
        assert(after.routes == routes);
        assert(after.pending == second.pending.filter(keep_reply));
        assert forall|i: int| 0 <= i < after.pending.len() implies !client::is_overdue(
            (#[trigger] after.pending[i]).1,
            now,
        ) by {
            assert(keep_reply(after.pending[i]));
        }
        assert forall|i: int| 0 <= i < after.routes.len() implies !(
        #[trigger] after.routes[i]).1.retired || upkeep::elapsed(now, after.routes[i].1.touched)
            < TRANSFER_DRAIN_TIMEOUT by {
            assert(keep(after.routes[i]));
        }
    } else {
        if state.pending.len() > 0 {
            assert(client::has_route(state.routes, state.pending[0].1));
        }
    }
}

/// When a client that looks after its sessions goes away, it cancels every live one.
pub proof fn law_cleanup_cancels_live_sessions(state: ClientModel, id: Seq<char>)
    requires
        client::is_wf(state),
        state.cleanup_on_drop,
        is_live(state, id),
    ensures
        client::cleanup_frames(state).contains(frame::cancel_frame(id)),
{
    let live = |entry: (Seq<char>, RouteModel)| !entry.1.retired;
    let route = table::get(state.routes, id)->0;
    table::lemma_get_has(state.routes, id);
    let j = choose|j: int| 0 <= j < state.routes.len() && state.routes[j] == (id, route);
    state.routes.lemma_filter_contains(live, j);
    let kept = state.routes.filter(live);
    let i = choose|i: int| 0 <= i < kept.len() && kept[i] == (id, route);
    assert(client::cleanup_frames(state)[i] == frame::cancel_frame(id));
}

/// Whether every pending reply afterwards was pending before.
pub open spec fn adds_no_reply(before: ClientModel, after: ClientModel) -> bool {
    forall|id: Seq<char>| #[trigger]
        table::has_key(after.pending, id) ==> table::has_key(before.pending, id)
}

/// Where no reply is added, the pending ones keep having ids of earlier requests, unless the numbers
/// began again.
proof fn lemma_fewer_earlier_ids(before: ClientModel, after: ClientModel)
    requires
        only_goes_on(before, after),
        client::has_earlier_ids(before),
    ensures
        client::has_earlier_ids(after),
{
    assert forall|i: int| 0 <= i < after.pending.len() implies client::is_earlier_id(
        (#[trigger] after.pending[i]).0,
        after.next_request_id,
    ) by {
        let id = after.pending[i].0;
        assert(table::has_key(after.pending, id));
        assert(table::has_key(before.pending, id));
        let j = choose|j: int| 0 <= j < before.pending.len() && (#[trigger] before.pending[j]).0
            == id;
        assert(client::is_earlier_id(before.pending[j].0, before.next_request_id));
        let n = choose|n: u64|
            n <= before.next_request_id && id == #[trigger] client::request_id_text(n);
        assert(n <= after.next_request_id && id == client::request_id_text(n));
    }
}

/// No reply is added, and the numbers do not begin again.
spec fn only_goes_on(before: ClientModel, after: ClientModel) -> bool {
    adds_no_reply(before, after) && before.next_request_id <= after.next_request_id
}

/// Dropping replies adds none.
proof fn lemma_filter_adds_no_reply(
    before: ClientModel,
    after: ClientModel,
    keep: spec_fn((Seq<char>, PendingModel)) -> bool,
)
    requires
        after.pending == before.pending.filter(keep),
    ensures
        adds_no_reply(before, after),
{
    table::lemma_kept(before.pending, keep);
    assert forall|id: Seq<char>| #[trigger] table::has_key(after.pending, id) implies table::has_key(
        before.pending,
        id,
    ) by {
        let i = choose|i: int| 0 <= i < after.pending.len() && (#[trigger] after.pending[i]).0 == id;
        assert(before.pending.contains(after.pending[i]));
        let j = choose|j: int|
            0 <= j < before.pending.len() && before.pending[j] == after.pending[i];
        assert(before.pending[j].0 == id);
    }
}

proof fn lemma_retired_adds_no_reply(
    state: ClientModel,
    id: Seq<char>,
    error: Option<Seq<char>>,
    registry: Seq<(EndpointModel, u64)>,
    clock: u64,
)
    ensures
        adds_no_reply(state, client::retired(state, id, error, registry, clock).0),
        state.next_request_id < u64::MAX ==> state.next_request_id <= client::retired(
            state,
            id,
            error,
            registry,
            clock,
        ).0.next_request_id,
{
    if is_live(state, id) {
        lemma_filter_adds_no_reply(
            state,
            client::retired(state, id, error, registry, clock).0,
            |entry: (Seq<char>, PendingModel)| entry.1.session_id != id,
        );
    }
}

/// Until the numbers begin again, commands leave the pending replies with ids of earlier requests.
pub proof fn law_commands_keep_earlier_ids(
    state: ClientModel,
    command: Seq<u8>,
    owner: OwnerModel,
    retire: bool,
    active: bool,
    registry: Seq<(EndpointModel, u64)>,
    clock: u64,
)
    requires
        client::has_earlier_ids(state),
        state.next_request_id < u64::MAX,
    ensures
        client::has_earlier_ids(
            client::command_received(state, command, owner, retire, active, registry, clock).0,
        ),
{
    let after = client::command_received(state, command, owner, retire, active, registry, clock).0;
    if let Some((action, id)) = frame::frame_of(command) {
        let mark = RouteModel { owner, touched: clock, finishing: false, retired: true };
        let marked = ClientModel { routes: table::put(state.routes, id, mark), ..state };
        lemma_retired_adds_no_reply(state, id, None, registry, clock);
        lemma_retired_adds_no_reply(marked, id, None, registry, clock);
        assert(adds_no_reply(state, after));
    }
    lemma_fewer_earlier_ids(state, after);
}

/// Until the numbers begin again, input leaves the pending replies with ids of earlier requests, and
/// a reply that it gives out has an id that no pending reply has.
pub proof fn law_input_keeps_earlier_ids(
    state: ClientModel,
    command: Seq<u8>,
    registry: Seq<(EndpointModel, u64)>,
    clock: u64,
)
    requires
        client::has_earlier_ids(state),
        state.next_request_id < u64::MAX,
    ensures
        ({
            let (after, step) = client::input_received(state, command, registry, clock);
            &&& client::has_earlier_ids(after)
            &&& step matches StepModel::Send(request, ticket) ==> {
                &&& client::is_earlier_id(ticket.request_id, after.next_request_id)
                &&& !table::has_key(after.pending, ticket.request_id)
            }
        }),
{
    let (after, step) = client::input_received(state, command, registry, clock);
    if let Some((action, id)) = frame::frame_of(command) {
        lemma_retired_adds_no_reply(
            state,
            id,
            Some(client::UNAVAILABLE_MESSAGE@),
            registry,
            clock,
        );
        assert(adds_no_reply(state, after));
    }
    lemma_fewer_earlier_ids(state, after);
    if let StepModel::Send(request, ticket) = step {
        client::lemma_next_id_is_new(state);
        assert(ticket.request_id == client::request_id_text(after.next_request_id));
    }
}

/// A reply that was sent under a new id is one more pending reply, with the id of an earlier
/// request; one that was not sent leaves none.
pub proof fn law_sent_reply_is_one_more(
    state: ClientModel,
    ticket: TicketModel,
    outcome: EndpointSendOutcome,
    clock: u64,
)
    requires
        client::has_earlier_ids(state),
        client::is_earlier_id(ticket.request_id, state.next_request_id),
        !table::has_key(state.pending, ticket.request_id),
    ensures
        ({
            let after = client::reply_settled(state, ticket, outcome, clock).0;
            &&& client::has_earlier_ids(after)
            &&& outcome is Sent ==> {
                &&& after.pending.len() == state.pending.len() + 1
                &&& after.pending.drop_last() == state.pending
                &&& after.pending.last() == (
                    ticket.request_id,
                    PendingModel {
                        owner: ticket.owner,
                        session_id: ticket.session_id,
                        sent: clock,
                        response: Seq::empty(),
                    },
                )
            }
            &&& outcome is NotSent ==> after.pending.len() <= state.pending.len()
        }),
{
    let after = client::reply_settled(state, ticket, outcome, clock).0;
    match outcome {
        EndpointSendOutcome::Sent => {
            assert(after.pending.drop_last() =~= state.pending);
            assert forall|i: int| 0 <= i < after.pending.len() implies client::is_earlier_id(
                (#[trigger] after.pending[i]).0,
                after.next_request_id,
            ) by {
                if i < state.pending.len() {
                    assert(after.pending[i] == state.pending[i]);
                }
            }
        },
        EndpointSendOutcome::NotSent => {
            let other = |entry: (Seq<char>, PendingModel)| entry.1.session_id != ticket.session_id;
            table::lemma_kept(state.pending, other);
            lemma_retired_adds_no_reply(state, ticket.session_id, None, Seq::empty(), clock);
            lemma_fewer_earlier_ids(state, after);
        },
    }
}

/// Until the numbers begin again, responses leave the pending replies with ids of earlier requests.
pub proof fn law_responses_keep_earlier_ids(
    state: ClientModel,
    origin: (EndpointModel, u64, Seq<char>),
    request_id: Seq<char>,
    final_chunk: bool,
    data: Seq<u8>,
    registry: Seq<(EndpointModel, u64)>,
    clock: u64,
)
    requires
        client::is_wf(state),
        client::has_earlier_ids(state),
        state.next_request_id < u64::MAX,
    ensures
        client::has_earlier_ids(
            client::response_received(
                state,
                origin,
                request_id,
                final_chunk,
                data,
                registry,
                clock,
            ).0,
        ),
{
    let (middle, step) = client::chunk_received(
        state,
        origin.0,
        origin.1,
        origin.2,
        request_id,
        final_chunk,
        data,
    );
    let after = client::response_received(
        state,
        origin,
        request_id,
        final_chunk,
        data,
        registry,
        clock,
    ).0;
    assert(adds_no_reply(state, middle)) by {
        if let Some(reply) = table::get(state.pending, request_id) {
            table::lemma_get_has(state.pending, request_id);
            let more = PendingModel { response: reply.response + data, ..reply };
            assert forall|id: Seq<char>| #[trigger]
                table::has_key(middle.pending, id) implies table::has_key(state.pending, id) by {
                table::lemma_put(state.pending, request_id, more, id);
            }
        }
    }
    lemma_fewer_earlier_ids(state, middle);
    if let Some(reply) = table::get(middle.pending, request_id) {
        let fewer = ClientModel { pending: table::without(middle.pending, request_id), ..middle };
        lemma_filter_adds_no_reply(middle, fewer, table::other_than(request_id));
        lemma_fewer_earlier_ids(middle, fewer);
        lemma_retired_adds_no_reply(
            fewer,
            reply.session_id,
            Some(client::REJECTED_MESSAGE@),
            registry,
            clock,
        );
        let last = client::retired(
            fewer,
            reply.session_id,
            Some(client::REJECTED_MESSAGE@),
            registry,
            clock,
        ).0;
        lemma_fewer_earlier_ids(fewer, last);
    }
}

/// Until the numbers begin again, each step of an upkeep leaves the pending replies with ids of
/// earlier requests.
pub proof fn law_maintenance_keeps_earlier_ids(
    state: ClientModel,
    upkeep: MaintenanceModel,
    registry: Seq<(EndpointModel, u64)>,
    clock: u64,
)
    requires
        client::has_earlier_ids(state),
        state.next_request_id < u64::MAX,
    ensures
        client::has_earlier_ids(client::maintenance_step(state, upkeep, registry, clock).0),
{
    let after = client::maintenance_step(state, upkeep, registry, clock).0;
    if upkeep.due.len() > 0 {
        lemma_retired_adds_no_reply(state, upkeep.due[0].0, upkeep.due[0].1, registry, clock);
        if upkeep.stage != client::MaintenanceStage::Done {
            lemma_fewer_earlier_ids(state, after);
        }
    } else if upkeep.stage == client::MaintenanceStage::Overdue {
        let keep = |entry: (Seq<char>, RouteModel)| client::is_kept(entry.1, upkeep.now);
        let routes = state.routes.filter(keep);
        let keep_reply = |entry: (Seq<char>, PendingModel)|
            table::has_key(routes, entry.1.session_id) && !client::is_overdue(entry.1, upkeep.now);
        assert(after.pending == state.pending.filter(keep_reply));
        lemma_filter_adds_no_reply(state, after, keep_reply);
        lemma_fewer_earlier_ids(state, after);
    }
}

} // verus!
