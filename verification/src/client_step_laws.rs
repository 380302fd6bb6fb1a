//! What each step of the client does to a session, told from what is known at the time.
use vstd::prelude::*;
use vstd::utf8::encode_utf8;

use crate::client;
use crate::client::{
    ActionModel, ClientModel, EndpointSendOutcome, OwnerModel, PendingModel, RequestModel,
    RouteModel, StepModel, TicketModel,
};
use crate::client_laws;
use crate::codec;
use crate::control::{ControlModel, OperationModel};
use crate::decimal;
use crate::endpoint::EndpointModel;
use crate::frame;
use crate::reading_laws;
use crate::table;
use crate::upkeep;

verus! {

/// Whether the endpoint of an owner is connected as it was when the session began.
pub open spec fn is_connected(registry: Seq<(EndpointModel, u64)>, owner: OwnerModel) -> bool {
    registry.contains((owner.endpoint_id, owner.generation))
}

/// The number of the request behind the one with the given number. Behind the last comes zero.
pub open spec fn number_after(number: u64) -> u64 {
    if number == 0xffff_ffff_ffff_ffff {
        0
    } else {
        (number + 1) as u64
    }
}

/// The request with the next number, to the server of an owner.
pub open spec fn next_request(
    state: ClientModel,
    owner: OwnerModel,
    operation: OperationModel,
) -> RequestModel {
    RequestModel {
        endpoint_id: owner.endpoint_id,
        boot_id: owner.boot_id,
        id: "terminal-transfer-"@ + decimal::decimal(number_after(state.next_request_id) as nat),
        operation,
    }
}

/// What a client tells when it gives a session up: the owner gets the reason, where there is one
/// and the owner is connected.
pub open spec fn notice(
    state: ClientModel,
    owner: OwnerModel,
    id: Seq<char>,
    message: Option<Seq<char>>,
    registry: Seq<(EndpointModel, u64)>,
) -> Seq<ActionModel> {
    if message is Some && is_connected(registry, owner) {
        seq![
            ActionModel::Request(
                next_request(
                    state,
                    owner,
                    OperationModel::Cancel {
                        terminal_id: owner.terminal_id,
                        session_id: id,
                        message: message->0,
                    },
                ),
            ),
        ]
    } else {
        Seq::empty()
    }
}

/// The number of the last request once these actions are done.
pub open spec fn counted(state: ClientModel, told: Seq<ActionModel>) -> u64 {
    if told.len() > 0 {
        number_after(state.next_request_id)
    } else {
        state.next_request_id
    }
}

/// Whether `after` is `before` with a live session retired: it is recorded as retired at that
/// moment, its replies are pending no more, and nothing else changes but the number of requests.
pub open spec fn is_retirement(
    before: ClientModel,
    after: ClientModel,
    id: Seq<char>,
    clock: u64,
) -> bool {
    &&& table::get(after.routes, id) == Some(
        RouteModel { retired: true, touched: clock, ..table::get(before.routes, id)->0 },
    )
    &&& forall|other: Seq<char>|
        other != id ==> #[trigger] table::get(after.routes, other) == table::get(
            before.routes,
            other,
        )
    &&& forall|request: Seq<char>| #[trigger]
        table::get(after.pending, request) == (match table::get(before.pending, request) {
            Some(reply) if reply.session_id != id => Some(reply),
            _ => None,
        })
    &&& after.cleanup_on_drop == before.cleanup_on_drop
}

proof fn lemma_retired_session(
    state: ClientModel,
    id: Seq<char>,
    error: Option<Seq<char>>,
    registry: Seq<(EndpointModel, u64)>,
    clock: u64,
)
    requires
        client::is_wf(state),
        table::get(state.routes, id) matches Some(route) && !route.retired,
    ensures
        ({
            let route = table::get(state.routes, id)->0;
            let (after, actions) = client::retired(state, id, error, registry, clock);
            &&& is_retirement(state, after, id, clock)
            &&& actions == notice(state, route.owner, id, error, registry).push(
                ActionModel::Write(frame::cancel_frame(id)),
            )
            &&& after.next_request_id == counted(
                state,
                notice(state, route.owner, id, error, registry),
            )
        }),
{
    let route = table::get(state.routes, id)->0;
    let (after, actions) = client::retired(state, id, error, registry, clock);
    let retiree = RouteModel { retired: true, touched: clock, ..route };
    table::lemma_put(state.routes, id, retiree, id);
    assert forall|other: Seq<char>| other != id implies #[trigger] table::get(after.routes, other)
        == table::get(state.routes, other) by {
        table::lemma_put(state.routes, id, retiree, other);
    }
    let keep = |entry: (Seq<char>, PendingModel)| entry.1.session_id != id;
    assert(after.pending == state.pending.filter(keep));
    assert forall|request: Seq<char>| #[trigger]
        table::get(after.pending, request) == (match table::get(state.pending, request) {
            Some(reply) if reply.session_id != id => Some(reply),
            _ => None,
        }) by {
        table::lemma_filter(state.pending, keep, request);
    }
    assert(actions =~= notice(state, route.owner, id, error, registry).push(
        ActionModel::Write(frame::cancel_frame(id)),
    ));
}

/// A command of a live session, from the owner of the session, is written to the outer terminal as
/// it is, and the session counts as used at that moment. With `finish` and `cancel`, and with no
/// other action, it begins to end. Nothing else changes.
pub proof fn law_commands_are_written(
    state: ClientModel,
    command: Seq<u8>,
    action: Seq<char>,
    id: Seq<char>,
    owner: OwnerModel,
    active: bool,
    registry: Seq<(EndpointModel, u64)>,
    clock: u64,
    other: Seq<char>,
)
    requires
        client::is_wf(state),
        frame::frame_of(command) == Some((action, id)),
        action == "file"@ || action == "data"@ || action == "end_data"@ || action == "status"@
            || action == "finish"@ || action == "cancel"@,
        table::get(state.routes, id) matches Some(route) && !route.retired && route.owner == owner,
    ensures
        ({
            let route = table::get(state.routes, id)->0;
            let (after, actions) = client::command_received(
                state,
                command,
                owner,
                false,
                active,
                registry,
                clock,
            );
            &&& actions == seq![ActionModel::Write(command)]
            &&& table::get(after.routes, id) == Some(
                RouteModel {
                    touched: clock,
                    finishing: route.finishing || action == "finish"@ || action == "cancel"@,
                    ..route
                },
            )
            &&& other != id ==> table::get(after.routes, other) == table::get(state.routes, other)
            &&& after.pending == state.pending
            &&& after.next_request_id == state.next_request_id
        }),
{
    reading_laws::lemma_eight_actions();
    let route = table::get(state.routes, id)->0;
    let used = RouteModel {
        touched: clock,
        finishing: route.finishing || action == "finish"@ || action == "cancel"@,
        ..route
    };
    table::lemma_put(state.routes, id, used, id);
    table::lemma_put(state.routes, id, used, other);
}

/// A session begins with `send` and with `receive`, if its endpoint is in front, its id is free and
/// fewer than 64 sessions are recorded: the command is written to the outer terminal. Otherwise
/// nothing is recorded, and the server is told, where it is connected.
pub proof fn law_sessions_begin(
    state: ClientModel,
    command: Seq<u8>,
    action: Seq<char>,
    id: Seq<char>,
    owner: OwnerModel,
    active: bool,
    registry: Seq<(EndpointModel, u64)>,
    clock: u64,
    other: Seq<char>,
)
    requires
        client::is_wf(state),
        frame::frame_of(command) == Some((action, id)),
        action == "send"@ || action == "receive"@,
    ensures
        ({
            let (after, actions) = client::command_received(
                state,
                command,
                owner,
                false,
                active,
                registry,
                clock,
            );
            &&& after.pending == state.pending
            &&& if active && table::get(state.routes, id) is None && state.routes.len() < 64 {
                &&& actions == seq![ActionModel::Write(command)]
                &&& table::get(after.routes, id) == Some(
                    RouteModel { owner, touched: clock, finishing: false, retired: false },
                )
                &&& other != id ==> table::get(after.routes, other) == table::get(
                    state.routes,
                    other,
                )
            } else {
                &&& after.routes == state.routes
                &&& after.next_request_id == counted(state, actions)
                &&& actions == notice(
                    state,
                    owner,
                    id,
                    Some("outer transfer id is busy or endpoint is inactive"@),
                    registry,
                )
            }
        }),
{
    reading_laws::lemma_eight_actions();
    table::lemma_get_has(state.routes, id);
    let begun = RouteModel { owner, touched: clock, finishing: false, retired: false };
    table::lemma_put(state.routes, id, begun, id);
    table::lemma_put(state.routes, id, begun, other);
    let routes = table::put(state.routes, id, begun);
    table::lemma_put(routes, id, begun, id);
    table::lemma_put(routes, id, begun, other);
}

/// A retirement by the owner of a live session retires it, and cancels it at the outer terminal
/// without a further word to the server. One that comes before its session takes the id, where
/// there is room among 64, so that the session cannot begin any more. Every other one is dropped.
pub proof fn law_retirements_are_obeyed(
    state: ClientModel,
    command: Seq<u8>,
    action: Seq<char>,
    id: Seq<char>,
    owner: OwnerModel,
    active: bool,
    registry: Seq<(EndpointModel, u64)>,
    clock: u64,
)
    requires
        client::is_wf(state),
        frame::frame_of(command) == Some((action, id)),
    ensures
        ({
            let none = Seq::<ActionModel>::empty();
            let (after, actions) = client::command_received(
                state,
                command,
                owner,
                true,
                active,
                registry,
                clock,
            );
            match table::get(state.routes, id) {
                None => if state.routes.len() < 64 {
                    &&& table::get(after.routes, id) == Some(
                        RouteModel { owner, touched: clock, finishing: false, retired: true },
                    )
                    &&& after.pending == state.pending
                    &&& actions == none
                } else {
                    after == state && actions == none
                },
                Some(route) => if route.owner == owner && !route.retired {
                    &&& is_retirement(state, after, id, clock)
                    &&& actions == seq![ActionModel::Write(frame::cancel_frame(id))]
                } else {
                    after == state && actions == none
                },
            }
        }),
{
    table::lemma_get_has(state.routes, id);
    let mark = RouteModel { owner, touched: clock, finishing: false, retired: true };
    table::lemma_put(state.routes, id, mark, id);
    if client_laws::is_live(state, id) {
        lemma_retired_session(state, id, None, registry, clock);
        let route = table::get(state.routes, id)->0;
        assert(notice(state, route.owner, id, None, registry).push(
            ActionModel::Write(frame::cancel_frame(id)),
        ) =~= seq![ActionModel::Write(frame::cancel_frame(id))]);
    }
}

/// Everything else from a server is dropped: what is not a frame, and a command, other than a start
/// or a retirement, of a session that is not recorded, is retired, or has another owner.
pub proof fn law_other_commands_are_dropped(
    state: ClientModel,
    command: Seq<u8>,
    owner: OwnerModel,
    retire: bool,
    active: bool,
    registry: Seq<(EndpointModel, u64)>,
    clock: u64,
)
    requires
        ({
            ||| frame::frame_of(command) is None
            ||| {
                let (action, id) = frame::frame_of(command)->0;
                &&& !retire
                &&& action != "send"@
                &&& action != "receive"@
                &&& match table::get(state.routes, id) {
                    None => true,
                    Some(route) => route.retired || route.owner != owner,
                }
            }
        }),
    ensures
        client::command_received(state, command, owner, retire, active, registry, clock) == (
            state,
            Seq::<ActionModel>::empty(),
        ),
{
}

/// A control stands for the command that it carries in base64, from the terminal and the server
/// that it names and the connection that it came over. One that carries none, or more than is
/// allowed, is dropped.
pub proof fn law_controls_carry_commands(
    state: ClientModel,
    control: ControlModel,
    endpoint_id: EndpointModel,
    generation: u64,
    active: bool,
    registry: Seq<(EndpointModel, u64)>,
    clock: u64,
)
    ensures
        ({
            let step = client::control_received(
                state,
                control,
                endpoint_id,
                generation,
                active,
                registry,
                clock,
            );
            let text = encode_utf8(control.command);
            match codec::base64_decoded(text) {
                Some(command) if text.len() <= 87384 && command.len() <= 65536 => step
                    == client::command_received(
                    state,
                    command,
                    OwnerModel {
                        endpoint_id,
                        generation,
                        boot_id: control.boot_id,
                        terminal_id: control.terminal_id,
                    },
                    control.retire,
                    active,
                    registry,
                    clock,
                ),
                _ => step == (state, Seq::<ActionModel>::empty()),
            }
        }),
{
}

/// An answer of the outer terminal in a live session, `status`, `file`, `data` or `end_data`, goes
/// to the owner of the session as it is, if the owner is connected and fewer than 2048 replies are
/// pending. Otherwise the session is retired, and the owner is told, where it is connected.
pub proof fn law_answers_are_sent(
    state: ClientModel,
    command: Seq<u8>,
    action: Seq<char>,
    id: Seq<char>,
    registry: Seq<(EndpointModel, u64)>,
    clock: u64,
)
    requires
        client::is_wf(state),
        frame::frame_of(command) == Some((action, id)),
        action == "status"@ || action == "file"@ || action == "data"@ || action == "end_data"@,
        table::get(state.routes, id) matches Some(route) && !route.retired,
    ensures
        ({
            let owner = (table::get(state.routes, id)->0).owner;
            let (after, step) = client::input_received(state, command, registry, clock);
            if is_connected(registry, owner) && state.pending.len() < 2048 {
                let request = next_request(
                    state,
                    owner,
                    OperationModel::Reply {
                        terminal_id: owner.terminal_id,
                        session_id: id,
                        data: codec::base64_encoded(command),
                    },
                );
                &&& step == StepModel::Send(
                    request,
                    TicketModel {
                        owner,
                        session_id: id,
                        request_id: request.id,
                        ended: frame::is_session_error(command),
                    },
                )
                &&& after == (ClientModel {
                    next_request_id: number_after(state.next_request_id),
                    ..state
                })
            } else {
                &&& is_retirement(state, after, id, clock)
                &&& is_connected(registry, owner) ==> after.next_request_id == number_after(
                    state.next_request_id,
                )
                &&& step == StepModel::Act(
                    notice(
                        state,
                        owner,
                        id,
                        Some("transfer response connection is unavailable or congested"@),
                        registry,
                    ).push(ActionModel::Write(frame::cancel_frame(id))),
                )
            }
        }),
{
    lemma_retired_session(state, id, Some(client::UNAVAILABLE_MESSAGE@), registry, clock);
}

/// Everything else from the outer terminal is dropped: what is not a frame, the four actions that
/// are no answers, and answers in sessions that are not recorded or are retired.
pub proof fn law_other_input_is_dropped(
    state: ClientModel,
    command: Seq<u8>,
    registry: Seq<(EndpointModel, u64)>,
    clock: u64,
)
    requires
        ({
            ||| frame::frame_of(command) is None
            ||| {
                let (action, id) = frame::frame_of(command)->0;
                ||| action == "send"@
                ||| action == "receive"@
                ||| action == "finish"@
                ||| action == "cancel"@
                ||| match table::get(state.routes, id) {
                    None => true,
                    Some(route) => route.retired,
                }
            }
        }),
    ensures
        client::input_received(state, command, registry, clock) == (
            state,
            StepModel::Act(Seq::empty()),
        ),
{
    reading_laws::lemma_eight_actions();
}

/// A reply that was sent waits for its acknowledgement from that moment on, and its session counts
/// as used then; the session ends with a reply that reports an error of the session, without a
/// cancellation. A reply that was not sent retires its session.
pub proof fn law_replies_are_settled(state: ClientModel, ticket: TicketModel, clock: u64)
    requires
        client::is_wf(state),
        table::get(state.routes, ticket.session_id) matches Some(route) && !route.retired,
    ensures
        ({
            let id = ticket.session_id;
            let route = table::get(state.routes, id)->0;
            let (after, actions) = client::reply_settled(
                state,
                ticket,
                EndpointSendOutcome::Sent,
                clock,
            );
            &&& actions == Seq::<ActionModel>::empty()
            &&& table::get(after.routes, id) == Some(
                RouteModel { touched: clock, retired: ticket.ended, ..route },
            )
            &&& forall|other: Seq<char>|
                other != id ==> #[trigger] table::get(after.routes, other) == table::get(
                    state.routes,
                    other,
                )
            &&& table::get(after.pending, ticket.request_id) == Some(
                PendingModel {
                    owner: ticket.owner,
                    session_id: id,
                    sent: clock,
                    response: Seq::empty(),
                },
            )
            &&& forall|other: Seq<char>|
                other != ticket.request_id ==> #[trigger] table::get(after.pending, other)
                    == table::get(state.pending, other)
        }),
        ({
            let (after, actions) = client::reply_settled(
                state,
                ticket,
                EndpointSendOutcome::NotSent,
                clock,
            );
            &&& actions == seq![ActionModel::Write(frame::cancel_frame(ticket.session_id))]
            &&& is_retirement(state, after, ticket.session_id, clock)
        }),
{
    let id = ticket.session_id;
    let route = table::get(state.routes, id)->0;
    let used = RouteModel { touched: clock, retired: ticket.ended, ..route };
    let reply = PendingModel {
        owner: ticket.owner,
        session_id: id,
        sent: clock,
        response: Seq::empty(),
    };
    let after = client::reply_settled(state, ticket, EndpointSendOutcome::Sent, clock).0;
    table::lemma_put(state.routes, id, used, id);
    table::lemma_put(state.pending, ticket.request_id, reply, ticket.request_id);
    assert forall|other: Seq<char>| other != id implies #[trigger] table::get(after.routes, other)
        == table::get(state.routes, other) by {
        table::lemma_put(state.routes, id, used, other);
    }
    assert forall|other: Seq<char>| other != ticket.request_id implies #[trigger] table::get(
        after.pending,
        other,
    ) == table::get(state.pending, other) by {
        table::lemma_put(state.pending, ticket.request_id, reply, other);
    }
    lemma_retired_session(state, id, None, Seq::empty(), clock);
    assert(notice(state, route.owner, id, None, Seq::empty()).push(
        ActionModel::Write(frame::cancel_frame(id)),
    ) =~= seq![ActionModel::Write(frame::cancel_frame(id))]);
}

/// Whether a chunk comes from where a reply went: the same endpoint, connection and server.
pub open spec fn comes_from(origin: (EndpointModel, u64, Seq<char>), owner: OwnerModel) -> bool {
    origin.0 == owner.endpoint_id && origin.1 == owner.generation && origin.2 == owner.boot_id
}

/// Whether a response is what an acknowledgement is: it has the id of the request, a result, and no
/// error.
pub open spec fn affirms(document: Seq<u8>, request_id: Seq<char>) -> bool {
    &&& codec::json_member_of(document, "id"@) == Some(Some(request_id))
    &&& codec::json_member_of(document, "result"@) is Some
    &&& codec::json_member_of(document, "error"@) is None
}

/// A chunk that is not awaited, or that comes from elsewhere, is ignored. One that is not the last
/// is added to those before it, up to 4096 bytes.
pub proof fn law_chunks_are_gathered(
    state: ClientModel,
    origin: (EndpointModel, u64, Seq<char>),
    request_id: Seq<char>,
    final_chunk: bool,
    data: Seq<u8>,
    registry: Seq<(EndpointModel, u64)>,
    clock: u64,
)
    requires
        client::is_wf(state),
    ensures
        ({
            let (after, actions, refused) = client::response_received(
                state,
                origin,
                request_id,
                final_chunk,
                data,
                registry,
                clock,
            );
            match table::get(state.pending, request_id) {
                Some(reply) if comes_from(origin, reply.owner) => {
                    reply.response.len() + data.len() <= 4096 && !final_chunk ==> {
                        &&& !refused
                        &&& actions == Seq::<ActionModel>::empty()
                        &&& after.routes == state.routes
                        &&& table::get(after.pending, request_id) == Some(
                            PendingModel { response: reply.response + data, ..reply },
                        )
                        &&& forall|other: Seq<char>|
                            other != request_id ==> #[trigger] table::get(after.pending, other)
                                == table::get(state.pending, other)
                    }
                },
                _ => after == state && actions == Seq::<ActionModel>::empty() && !refused,
            }
        }),
{
    if let Some(reply) = table::get(state.pending, request_id) {
        let more = PendingModel { response: reply.response + data, ..reply };
        table::lemma_put(state.pending, request_id, more, request_id);
        let pending = table::put(state.pending, request_id, more);
        assert forall|other: Seq<char>| other != request_id implies #[trigger] table::get(
            pending,
            other,
        ) == table::get(state.pending, other) by {
            table::lemma_put(state.pending, request_id, more, other);
        }
    }
}

/// What a complete acknowledgement, or one that is too long, does to a client that awaits it.
proof fn lemma_response_settled(
    state: ClientModel,
    request_id: Seq<char>,
    accepted: bool,
    registry: Seq<(EndpointModel, u64)>,
    clock: u64,
)
    requires
        client::is_wf(state),
        table::get(state.pending, request_id) is Some,
    ensures
        ({
            let id = (table::get(state.pending, request_id)->0).session_id;
            let (after, actions) = client::response_settled(
                state,
                request_id,
                accepted,
                registry,
                clock,
            );
            &&& table::get(after.pending, request_id) is None
            &&& forall|other: Seq<char>|
                other != request_id && accepted ==> #[trigger] table::get(after.pending, other)
                    == table::get(state.pending, other)
            &&& accepted ==> after.routes == state.routes && actions
                == Seq::<ActionModel>::empty()
            &&& !accepted ==> {
                &&& table::get(after.routes, id) matches Some(route) && route.retired
                &&& client_laws::is_live(state, id) ==> actions == notice(
                    state,
                    (table::get(state.routes, id)->0).owner,
                    id,
                    Some("transfer response rejected by server"@),
                    registry,
                ).push(ActionModel::Write(frame::cancel_frame(id)))
                &&& !client_laws::is_live(state, id) ==> actions == Seq::<ActionModel>::empty()
                    && after.routes == state.routes
            }
        }),
{
    let reply = table::get(state.pending, request_id)->0;
    let id = reply.session_id;
    let keep = table::other_than::<PendingModel>(request_id);
    let fewer = ClientModel { pending: table::without(state.pending, request_id), ..state };
    client::lemma_fewer_replies_wf(state, keep);
    table::lemma_filter(state.pending, keep, request_id);
    assert forall|other: Seq<char>| other != request_id implies #[trigger] table::get(
        fewer.pending,
        other,
    ) == table::get(state.pending, other) by {
        table::lemma_filter(state.pending, keep, other);
    }
    table::lemma_get_has(state.pending, request_id);
    let i = choose|i: int|
        0 <= i < state.pending.len() && state.pending[i] == (request_id, reply);
    assert(client::has_route(state.routes, state.pending[i].1));
    if client_laws::is_live(fewer, id) {
        lemma_retired_session(
            fewer,
            id,
            Some(client::REJECTED_MESSAGE@),
            registry,
            clock,
        );
    }
}

/// The last chunk of an acknowledgement decides. Where all chunks together affirm the reply, it is
/// pending no more and its session goes on. Otherwise, and as soon as they hold more than 4096
/// bytes, the reply is pending no more and its session is retired; a session that was live is
/// cancelled at the outer terminal, and its owner is told, where it is connected.
pub proof fn law_acknowledgements_decide(
    state: ClientModel,
    origin: (EndpointModel, u64, Seq<char>),
    request_id: Seq<char>,
    final_chunk: bool,
    data: Seq<u8>,
    registry: Seq<(EndpointModel, u64)>,
    clock: u64,
)
    requires
        client::is_wf(state),
        table::get(state.pending, request_id) matches Some(reply) && comes_from(
            origin,
            reply.owner,
        ) && (final_chunk || reply.response.len() + data.len() > 4096),
    ensures
        ({
            let reply = table::get(state.pending, request_id)->0;
            let id = reply.session_id;
            let document = reply.response + data;
            let (after, actions, refused) = client::response_received(
                state,
                origin,
                request_id,
                final_chunk,
                data,
                registry,
                clock,
            );
            &&& refused == (document.len() > 4096 || !affirms(document, request_id))
            &&& table::get(after.pending, request_id) is None
            &&& !refused ==> after.routes == state.routes && actions
                == Seq::<ActionModel>::empty()
            &&& refused ==> {
                &&& table::get(after.routes, id) matches Some(route) && route.retired
                &&& client_laws::is_live(state, id) ==> actions == notice(
                    state,
                    (table::get(state.routes, id)->0).owner,
                    id,
                    Some("transfer response rejected by server"@),
                    registry,
                ).push(ActionModel::Write(frame::cancel_frame(id)))
                &&& !client_laws::is_live(state, id) ==> actions == Seq::<ActionModel>::empty()
                    && after.routes == state.routes
            }
        }),
{
    let reply = table::get(state.pending, request_id)->0;
    let document = reply.response + data;
    if document.len() > 4096 {
        lemma_response_settled(state, request_id, false, registry, clock);
    } else {
        let (gathered, step) = client::chunk_received(
            state,
            origin.0,
            origin.1,
            origin.2,
            request_id,
            final_chunk,
            data,
        );
        client::lemma_chunk_received_wf(
            state,
            origin.0,
            origin.1,
            origin.2,
            request_id,
            final_chunk,
            data,
        );
        table::lemma_put(
            state.pending,
            request_id,
            PendingModel { response: document, ..reply },
            request_id,
        );
        lemma_response_settled(
            gathered,
            request_id,
            affirms(document, request_id),
            registry,
            clock,
        );
    }
}

/// Whether a live session lives on: its owner is connected, it was used less than five minutes ago,
/// or, once it is ending, less than thirty seconds ago, and each of its replies was sent less than
/// thirty seconds ago.
pub open spec fn lives_on(
    state: ClientModel,
    registry: Seq<(EndpointModel, u64)>,
    now: u64,
    id: Seq<char>,
) -> bool {
    &&& table::get(state.routes, id) matches Some(route) && {
        &&& !route.retired
        &&& is_connected(registry, route.owner)
        &&& now < route.touched + (if route.finishing {
            30_000_000_000int
        } else {
            300_000_000_000int
        })
    }
    &&& forall|i: int|
        0 <= i < state.pending.len() && (#[trigger] state.pending[i]).1.session_id == id ==> now
            < state.pending[i].1.sent + 30_000_000_000
}

proof fn lemma_lives_on(
    state: ClientModel,
    registry: Seq<(EndpointModel, u64)>,
    now: u64,
    id: Seq<char>,
)
    ensures
        lives_on(state, registry, now, id) == client_laws::survives(state, registry, now, id),
{
    if lives_on(state, registry, now, id) {
        assert forall|i: int|
            0 <= i < state.pending.len() && (#[trigger] state.pending[i]).1.session_id
                == id implies !client::is_overdue(state.pending[i].1, now) by {}
    }
    if client_laws::survives(state, registry, now, id) {
        assert forall|i: int|
            0 <= i < state.pending.len() && (#[trigger] state.pending[i]).1.session_id
                == id implies now < state.pending[i].1.sent + 30_000_000_000 by {
            assert(!client::is_overdue(state.pending[i].1, now));
        }
    }
}

/// An upkeep, session by session. A live session that lives on stays as it is, and every other live
/// session is retired and cancelled at the outer terminal. A retired session is kept for thirty
/// seconds.
pub proof fn law_upkeep_by_the_clock(
    state: ClientModel,
    registry: Seq<(EndpointModel, u64)>,
    now: u64,
    clock: u64,
    id: Seq<char>,
)
    requires
        client::is_wf(state),
    ensures
        ({
            let (after, actions) = client::maintained(state, registry, now, clock);
            match table::get(state.routes, id) {
                None => table::get(after.routes, id) is None,
                Some(route) => if route.retired {
                    table::get(after.routes, id) == (if now < route.touched + 30_000_000_000 {
                        Some(route)
                    } else {
                        None
                    })
                } else if lives_on(state, registry, now, id) {
                    table::get(after.routes, id) == Some(route)
                } else {
                    &&& table::get(after.routes, id) == (if now < clock + 30_000_000_000 {
                        Some(RouteModel { retired: true, touched: clock, ..route })
                    } else {
                        None
                    })
                    &&& actions.contains(ActionModel::Write(frame::cancel_frame(id)))
                },
            }
        }),
{
    lemma_lives_on(state, registry, now, id);
    client_laws::law_maintenance_retires_what_is_due(state, registry, now, clock, id);
    if state.routes.len() > 0 {
        let stale = client::stale_sessions(state.routes, registry, now);
        let first = client::retired_each(state, stale, registry, clock).0;
        client_laws::lemma_retired_each(state, stale, registry, clock, id, id);
        let overdue = client::overdue_sessions(first.pending, now);
        let second = client::retired_each(first, overdue, registry, clock).0;
        client_laws::lemma_retired_each(first, overdue, registry, clock, id, id);
        let keep = |entry: (Seq<char>, RouteModel)| client::is_kept(entry.1, now);
        table::lemma_filter(second.routes, keep, id);
        assert(client::pruned(second, now).routes == second.routes.filter(keep));
        assert(client::maintained(state, registry, now, clock).0 == client::pruned(second, now));
    }
}

/// An upkeep, reply by reply. A reply stays pending for thirty seconds, as long as its session lives
/// on or, where it has ended with the reply, is still recorded.
pub proof fn law_replies_by_the_clock(
    state: ClientModel,
    registry: Seq<(EndpointModel, u64)>,
    now: u64,
    clock: u64,
    request_id: Seq<char>,
)
    requires
        client::is_wf(state),
    ensures
        ({
            let after = client::maintained(state, registry, now, clock).0;
            match table::get(state.pending, request_id) {
                None => table::get(after.pending, request_id) is None,
                Some(reply) => {
                    let route = table::get(state.routes, reply.session_id)->0;
                    table::get(after.pending, request_id) == (if now < reply.sent + 30_000_000_000
                        && (if route.retired {
                        now < route.touched + 30_000_000_000
                    } else {
                        lives_on(state, registry, now, reply.session_id)
                    }) {
                        Some(reply)
                    } else {
                        None
                    })
                },
            }
        }),
{
    table::lemma_get_has(state.pending, request_id);
    let after = client::maintained(state, registry, now, clock).0;
    if let Some(reply) = table::get(state.pending, request_id) {
        let id = reply.session_id;
        let i = choose|i: int|
            0 <= i < state.pending.len() && state.pending[i] == (request_id, reply);
        assert(client::has_route(state.routes, state.pending[i].1));
        table::lemma_get_has(state.routes, id);
        law_upkeep_by_the_clock(state, registry, now, clock, id);
    }
    if state.routes.len() > 0 {
        let stale = client::stale_sessions(state.routes, registry, now);
        let first = client::retired_each(state, stale, registry, clock).0;
        let overdue = client::overdue_sessions(first.pending, now);
        let second = client::retired_each(first, overdue, registry, clock).0;
        let id = (table::get(state.pending, request_id)->0).session_id;
        client_laws::lemma_retired_each(state, stale, registry, clock, id, request_id);
        client_laws::lemma_retired_each(first, overdue, registry, clock, id, request_id);
        let keep = |entry: (Seq<char>, RouteModel)| client::is_kept(entry.1, now);
        let routes = second.routes.filter(keep);
        table::lemma_filter(second.routes, keep, id);
        let keep_reply = |entry: (Seq<char>, PendingModel)|
            table::has_key(routes, entry.1.session_id) && !client::is_overdue(entry.1, now);
        table::lemma_filter(second.pending, keep_reply, request_id);
        table::lemma_get_has(routes, id);
        assert(client::pruned(second, now).routes == routes);
        assert(client::pruned(second, now).pending == second.pending.filter(keep_reply));
        assert(after == client::pruned(second, now));
    }
}

/// When a client that looks after its sessions goes away, what it writes is a cancellation of each
/// live session, and of nothing else. Another client writes nothing.
pub proof fn law_cleanup_is_exact(state: ClientModel)
    requires
        client::is_wf(state),
    ensures
        !state.cleanup_on_drop ==> client::cleanup_frames(state) == Seq::<Seq<u8>>::empty(),
        state.cleanup_on_drop ==> forall|bytes: Seq<u8>|
            client::cleanup_frames(state).contains(bytes) <==> exists|id: Seq<char>|
                bytes == frame::cancel_frame(id) && (#[trigger] table::get(
                    state.routes,
                    id,
                ) matches Some(route) && !route.retired),
{
    if state.cleanup_on_drop {
        let live = |entry: (Seq<char>, RouteModel)| !entry.1.retired;
        let kept = state.routes.filter(live);
        let frames = client::cleanup_frames(state);
        table::lemma_kept(state.routes, live);
        assert forall|bytes: Seq<u8>|
            frames.contains(bytes) <==> exists|id: Seq<char>|
                bytes == frame::cancel_frame(id) && (#[trigger] table::get(
                    state.routes,
                    id,
                ) matches Some(route) && !route.retired) by {
            if frames.contains(bytes) {
                let i = choose|i: int| 0 <= i < frames.len() && frames[i] == bytes;
                assert(live(kept[i]) && state.routes.contains(kept[i]));
                let j = choose|j: int| 0 <= j < state.routes.len() && state.routes[j] == kept[i];
                table::lemma_get(state.routes, j);
                assert(bytes == frame::cancel_frame(kept[i].0));
                assert(table::get(state.routes, kept[i].0) == Some(kept[i].1));
            }
            assert forall|id: Seq<char>|
                bytes == frame::cancel_frame(id) && (#[trigger] table::get(
                    state.routes,
                    id,
                ) matches Some(route) && !route.retired) implies frames.contains(bytes) by {
                client_laws::law_cleanup_cancels_live_sessions(state, id);
            }
        }
    }
}

/// A session in use is not retired: an upkeep less than thirty seconds after a command of it was
/// written leaves it live, and one less than five minutes after it does so unless the session is
/// ending, as long as its owner is connected and no reply of it waits for too long.
pub proof fn law_used_sessions_survive(
    state: ClientModel,
    command: Seq<u8>,
    action: Seq<char>,
    id: Seq<char>,
    owner: OwnerModel,
    active: bool,
    registry: Seq<(EndpointModel, u64)>,
    clock: u64,
    now: u64,
    late_clock: u64,
)
    requires
        client::is_wf(state),
        frame::frame_of(command) == Some((action, id)),
        client::command_received(state, command, owner, false, active, registry, clock).1.contains(
            ActionModel::Write(command),
        ),
        is_connected(registry, owner),
        forall|i: int|
            0 <= i < state.pending.len() && (#[trigger] state.pending[i]).1.session_id == id ==> now
                < state.pending[i].1.sent + 30_000_000_000,
    ensures
        ({
            let used = client::command_received(
                state,
                command,
                owner,
                false,
                active,
                registry,
                clock,
            ).0;
            let kept = client::maintained(used, registry, now, late_clock).0;
            let was_ending = table::get(state.routes, id) matches Some(route) && route.finishing;
            &&& now < clock + 30_000_000_000 ==> client_laws::is_live(kept, id)
            &&& now < clock + 300_000_000_000 && !was_ending && action != "finish"@ && action
                != "cancel"@ ==> client_laws::is_live(kept, id)
        }),
{
    reading_laws::law_frames_are_written(command);
    let fields = choose|fields: Seq<Seq<u8>>| #[trigger] reading_laws::is_written(command, fields);
    reading_laws::law_only_frames_are_read(command, fields);
    let (used, actions) = client::command_received(
        state,
        command,
        owner,
        false,
        active,
        registry,
        clock,
    );
    client::lemma_command_received_wf(state, command, owner, false, active, registry, clock);
    if action == "send"@ || action == "receive"@ {
        law_sessions_begin(state, command, action, id, owner, active, registry, clock, id);
    } else if table::get(state.routes, id) matches Some(route) && !route.retired && route.owner
        == owner {
        law_commands_are_written(state, command, action, id, owner, active, registry, clock, id);
    } else {
        law_other_commands_are_dropped(state, command, owner, false, active, registry, clock);
    }
    law_upkeep_by_the_clock(used, registry, now, late_clock, id);
}

/// Whether an action asks a server to cancel the session `id`.
pub open spec fn asks_to_cancel(action: ActionModel, id: Seq<char>) -> bool {
    action matches ActionModel::Request(request) && (
    request.operation matches OperationModel::Cancel { session_id, .. } && session_id == id)
}

/// Whether the owner of a session is asked to cancel it, and told this reason.
pub open spec fn tells(
    actions: Seq<ActionModel>,
    owner: OwnerModel,
    id: Seq<char>,
    message: Seq<char>,
) -> bool {
    exists|i: int|
        0 <= i < actions.len() && (#[trigger] actions[i] matches ActionModel::Request(request) && {
            &&& request.endpoint_id == owner.endpoint_id
            &&& request.boot_id == owner.boot_id
            &&& request.operation == (OperationModel::Cancel {
                terminal_id: owner.terminal_id,
                session_id: id,
                message,
            })
        })
}

/// Whether nobody is asked to cancel the session `id`.
pub open spec fn is_silent(actions: Seq<ActionModel>, id: Seq<char>) -> bool {
    forall|i: int| 0 <= i < actions.len() ==> !asks_to_cancel(#[trigger] actions[i], id)
}

proof fn lemma_tells_more(
    before: Seq<ActionModel>,
    actions: Seq<ActionModel>,
    after: Seq<ActionModel>,
    owner: OwnerModel,
    id: Seq<char>,
    message: Seq<char>,
)
    requires
        tells(actions, owner, id, message),
    ensures
        tells(before + actions + after, owner, id, message),
{
    let i = choose|i: int|
        0 <= i < actions.len() && (#[trigger] actions[i] matches ActionModel::Request(request) && {
            &&& request.endpoint_id == owner.endpoint_id
            &&& request.boot_id == owner.boot_id
            &&& request.operation == (OperationModel::Cancel {
                terminal_id: owner.terminal_id,
                session_id: id,
                message,
            })
        });
    assert((before + actions + after)[before.len() + i] == actions[i]);
}

proof fn lemma_silent_more(first: Seq<ActionModel>, second: Seq<ActionModel>, id: Seq<char>)
    requires
        is_silent(first, id),
        is_silent(second, id),
    ensures
        is_silent(first + second, id),
{
    let all = first + second;
    assert forall|i: int| 0 <= i < all.len() implies !asks_to_cancel(#[trigger] all[i], id) by {
        if i < first.len() {
            assert(all[i] == first[i]);
        } else {
            assert(all[i] == second[i - first.len()]);
        }
    }
}

/// Retiring a session tells its owner the reason, where there is one, and tells nothing of another
/// session.
proof fn lemma_one_is_told(
    state: ClientModel,
    due: Seq<char>,
    error: Option<Seq<char>>,
    registry: Seq<(EndpointModel, u64)>,
    clock: u64,
    id: Seq<char>,
)
    requires
        client::is_wf(state),
    ensures
        ({
            let actions = client::retired(state, due, error, registry, clock).1;
            &&& due != id || error is None ==> is_silent(actions, id)
            &&& due == id && error is Some && client_laws::is_live(state, id) && is_connected(
                registry,
                (table::get(state.routes, id)->0).owner,
            ) ==> tells(actions, (table::get(state.routes, id)->0).owner, id, error->0)
        }),
{
    let actions = client::retired(state, due, error, registry, clock).1;
    if client_laws::is_live(state, due) {
        let owner = (table::get(state.routes, due)->0).owner;
        lemma_retired_session(state, due, error, registry, clock);
        let words = notice(state, owner, due, error, registry);
        assert(actions == words.push(ActionModel::Write(frame::cancel_frame(due))));
        if words.len() > 0 {
            assert(actions[0] == words[0]);
        }
    }
}

/// Of sessions that are retired one after the other, a live one whose owner is connected is told of
/// exactly as it is due, and nothing is told of one that is due without a reason or not at all.
proof fn lemma_each_is_told(
    state: ClientModel,
    due: Seq<(Seq<char>, Option<Seq<char>>)>,
    registry: Seq<(EndpointModel, u64)>,
    clock: u64,
    id: Seq<char>,
    message: Seq<char>,
)
    requires
        client::is_wf(state),
    ensures
        ({
            let actions = client::retired_each(state, due, registry, clock).1;
            &&& (forall|i: int|
                0 <= i < due.len() && (#[trigger] due[i]).0 == id ==> due[i].1 is None)
                ==> is_silent(actions, id)
            &&& (forall|i: int|
                0 <= i < due.len() && (#[trigger] due[i]).0 == id ==> due[i].1 == Some(message))
                && upkeep::is_due(due, id) && client_laws::is_live(state, id) && is_connected(
                registry,
                (table::get(state.routes, id)->0).owner,
            ) ==> tells(actions, (table::get(state.routes, id)->0).owner, id, message)
        }),
    decreases due.len(),
{
    let none = Seq::<ActionModel>::empty();
    if due.len() > 0 {
        let rest = due.skip(1);
        let head = due[0];
        let (first, some) = client::retired(state, head.0, head.1, registry, clock);
        client::lemma_retired_wf(state, head.0, head.1, registry, clock);
        lemma_each_is_told(first, rest, registry, clock, id, message);
        lemma_one_is_told(state, head.0, head.1, registry, clock, id);
        client_laws::lemma_retired_keeps(state, head.0, head.1, registry, clock, id);
        let more = client::retired_each(first, rest, registry, clock).1;
        assert forall|i: int| 0 <= i < rest.len() implies #[trigger] rest[i] == due[i + 1] by {}
        if forall|i: int| 0 <= i < due.len() && (#[trigger] due[i]).0 == id ==> due[i].1 is None {
            assert forall|i: int| 0 <= i < rest.len() && (#[trigger] rest[i]).0
                == id implies rest[i].1 is None by {
                assert(due[i + 1].0 == id);
            }
            lemma_silent_more(some, more, id);
        }
        if (forall|i: int|
            0 <= i < due.len() && (#[trigger] due[i]).0 == id ==> due[i].1 == Some(message))
            && upkeep::is_due(due, id) && client_laws::is_live(state, id) && is_connected(
            registry,
            (table::get(state.routes, id)->0).owner,
        ) {
            let owner = (table::get(state.routes, id)->0).owner;
            assert forall|i: int| 0 <= i < rest.len() && (#[trigger] rest[i]).0
                == id implies rest[i].1 == Some(message) by {
                assert(due[i + 1].0 == id);
            }
            if head.0 == id {
                lemma_tells_more(none, some, more, owner, id, message);
                assert(none + some + more =~= some + more);
            } else {
                let i = choose|i: int| 0 <= i < due.len() && (#[trigger] due[i]).0 == id;
                assert(rest[i - 1].0 == id);
                lemma_tells_more(some, more, none, owner, id, message);
                assert(some + more + none =~= some + more);
            }
        }
    }
}

/// An upkeep tells the owner of a session, where it is connected, why the session was retired: that
/// it was not used for too long, unless it was ending, or that a reply of it was not acknowledged
/// in time. Of a session that lives on nothing is told.
pub proof fn law_upkeep_tells_the_owner(
    state: ClientModel,
    registry: Seq<(EndpointModel, u64)>,
    now: u64,
    clock: u64,
    id: Seq<char>,
)
    requires
        client::is_wf(state),
        table::get(state.routes, id) matches Some(route) && !route.retired && is_connected(
            registry,
            route.owner,
        ),
    ensures
        ({
            let route = table::get(state.routes, id)->0;
            let actions = client::maintained(state, registry, now, clock).1;
            let unused = now >= route.touched + (if route.finishing {
                30_000_000_000int
            } else {
                300_000_000_000int
            });
            &&& unused && !route.finishing ==> tells(
                actions,
                route.owner,
                id,
                "transfer endpoint disconnected or timed out"@,
            )
            &&& unused && route.finishing ==> is_silent(actions, id)
            &&& !unused && !lives_on(state, registry, now, id) ==> tells(
                actions,
                route.owner,
                id,
                "transfer response acknowledgement timed out"@,
            )
            &&& lives_on(state, registry, now, id) ==> is_silent(actions, id)
        }),
{
    let route = table::get(state.routes, id)->0;
    let none = Seq::<ActionModel>::empty();
    table::lemma_get_has(state.routes, id);
    let stale = client::stale_sessions(state.routes, registry, now);
    let (first, some) = client::retired_each(state, stale, registry, clock);
    let overdue = client::overdue_sessions(first.pending, now);
    let more = client::retired_each(first, overdue, registry, clock).1;
    assert(client::maintained(state, registry, now, clock).1 == some + more);
    assert(some + more + none =~= some + more);
    assert(none + some + more =~= some + more);
    client_laws::lemma_retired_each(state, stale, registry, clock, id, id);
    client_laws::lemma_stale_is_due(state, registry, now, id);
    client_laws::lemma_overdue_is_due(first, now, id);
    client_laws::law_maintenance_retires_what_is_due(state, registry, now, clock, id);
    lemma_lives_on(state, registry, now, id);
    lemma_stale_reasons(state, registry, now, id);
    lemma_overdue_reasons(first.pending, now);
    lemma_each_is_told(
        state,
        stale,
        registry,
        clock,
        id,
        "transfer endpoint disconnected or timed out"@,
    );
    lemma_each_is_told(
        first,
        overdue,
        registry,
        clock,
        id,
        "transfer response acknowledgement timed out"@,
    );
    if upkeep::is_due(stale, id) {
        lemma_overdue_of_retired(state, stale, registry, clock, now, id);
    } else {
        lemma_overdue_of_live(state, stale, registry, clock, now, id);
    }
    if is_silent(some, id) && is_silent(more, id) {
        lemma_silent_more(some, more, id);
    }
    if tells(some, route.owner, id, "transfer endpoint disconnected or timed out"@) {
        lemma_tells_more(
            none,
            some,
            more,
            route.owner,
            id,
            "transfer endpoint disconnected or timed out"@,
        );
    }
    if tells(more, route.owner, id, "transfer response acknowledgement timed out"@) {
        lemma_tells_more(
            some,
            more,
            none,
            route.owner,
            id,
            "transfer response acknowledgement timed out"@,
        );
    }
}

/// A stale session is due with the reason that it was not used, unless it was ending.
proof fn lemma_stale_reasons(
    state: ClientModel,
    registry: Seq<(EndpointModel, u64)>,
    now: u64,
    id: Seq<char>,
)
    requires
        client::is_wf(state),
        table::get(state.routes, id) is Some,
    ensures
        ({
            let due = client::stale_sessions(state.routes, registry, now);
            let route = table::get(state.routes, id)->0;
            forall|i: int|
                0 <= i < due.len() && (#[trigger] due[i]).0 == id ==> due[i].1 == (
                if route.finishing {
                    None
                } else {
                    Some("transfer endpoint disconnected or timed out"@)
                })
        }),
{
    let picked = |entry: (Seq<char>, RouteModel)| client::is_stale(entry.1, registry, now);
    let chosen = state.routes.filter(picked);
    let due = client::stale_sessions(state.routes, registry, now);
    let route = table::get(state.routes, id)->0;
    table::lemma_kept(state.routes, picked);
    assert forall|i: int| 0 <= i < due.len() && (#[trigger] due[i]).0 == id implies due[i].1 == (
    if route.finishing {
        None
    } else {
        Some("transfer endpoint disconnected or timed out"@)
    }) by {
        assert(chosen[i].0 == id && state.routes.contains(chosen[i]));
        let j = choose|j: int| 0 <= j < state.routes.len() && state.routes[j] == chosen[i];
        table::lemma_get(state.routes, j);
    }
}

/// A session with an overdue reply is due with that reason.
proof fn lemma_overdue_reasons(pending: Seq<(Seq<char>, PendingModel)>, now: u64)
    ensures
        ({
            let due = client::overdue_sessions(pending, now);
            forall|i: int|
                0 <= i < due.len() ==> (#[trigger] due[i]).1 == Some(
                    "transfer response acknowledgement timed out"@,
                )
        }),
{
}

/// A session that was retired as stale has no reply that could be overdue.
proof fn lemma_overdue_of_retired(
    state: ClientModel,
    stale: Seq<(Seq<char>, Option<Seq<char>>)>,
    registry: Seq<(EndpointModel, u64)>,
    clock: u64,
    now: u64,
    id: Seq<char>,
)
    requires
        client::is_wf(state),
        client_laws::is_live(state, id),
        upkeep::is_due(stale, id),
    ensures
        !upkeep::is_due(
            client::overdue_sessions(
                client::retired_each(state, stale, registry, clock).0.pending,
                now,
            ),
            id,
        ),
{
    let first = client::retired_each(state, stale, registry, clock).0;
    client_laws::lemma_retired_each(state, stale, registry, clock, id, id);
    client_laws::lemma_overdue_is_due(first, now, id);
    if upkeep::is_due(client::overdue_sessions(first.pending, now), id) {
        let j = choose|j: int|
            0 <= j < first.pending.len() && (#[trigger] first.pending[j]).1.session_id == id
                && client::is_overdue(first.pending[j].1, now);
        let (request_id, reply) = first.pending[j];
        table::lemma_get(first.pending, j);
        client_laws::lemma_retired_each(state, stale, registry, clock, id, request_id);
    }
}

/// A session that is left as it is keeps its replies, those that are overdue among them.
proof fn lemma_overdue_of_live(
    state: ClientModel,
    stale: Seq<(Seq<char>, Option<Seq<char>>)>,
    registry: Seq<(EndpointModel, u64)>,
    clock: u64,
    now: u64,
    id: Seq<char>,
)
    requires
        client::is_wf(state),
        !upkeep::is_due(stale, id),
    ensures
        upkeep::is_due(
            client::overdue_sessions(
                client::retired_each(state, stale, registry, clock).0.pending,
                now,
            ),
            id,
        ) <==> exists|i: int|
            0 <= i < state.pending.len() && (#[trigger] state.pending[i]).1.session_id == id
                && client::is_overdue(state.pending[i].1, now),
{
    let first = client::retired_each(state, stale, registry, clock).0;
    let overdue = client::overdue_sessions(first.pending, now);
    client_laws::lemma_retired_each(state, stale, registry, clock, id, id);
    client_laws::lemma_overdue_is_due(first, now, id);
    if exists|i: int|
        0 <= i < state.pending.len() && (#[trigger] state.pending[i]).1.session_id == id
            && client::is_overdue(state.pending[i].1, now) {
        let i = choose|i: int|
            0 <= i < state.pending.len() && (#[trigger] state.pending[i]).1.session_id == id
                && client::is_overdue(state.pending[i].1, now);
        let (request_id, reply) = state.pending[i];
        table::lemma_get(state.pending, i);
        client_laws::lemma_retired_each(state, stale, registry, clock, id, request_id);
        table::lemma_get_has(first.pending, request_id);
        let j = choose|j: int|
            0 <= j < first.pending.len() && first.pending[j] == (request_id, reply);
        assert(first.pending[j].1.session_id == id);
    }
    if upkeep::is_due(overdue, id) {
        let j = choose|j: int|
            0 <= j < first.pending.len() && (#[trigger] first.pending[j]).1.session_id == id
                && client::is_overdue(first.pending[j].1, now);
        let (request_id, reply) = first.pending[j];
        table::lemma_get(first.pending, j);
        client_laws::lemma_retired_each(state, stale, registry, clock, id, request_id);
        table::lemma_get_has(state.pending, request_id);
        let i = choose|i: int|
            0 <= i < state.pending.len() && state.pending[i] == (request_id, reply);
        assert(state.pending[i].1.session_id == id);
    }
}

/// A reply on its way is awaited as long as its session is live and belongs to the owner that the
/// reply goes to, and fewer than 2048 replies are pending. So it is right after it was handed out.
pub proof fn law_replies_on_their_way_are_awaited(
    state: ClientModel,
    command: Seq<u8>,
    registry: Seq<(EndpointModel, u64)>,
    clock: u64,
    later: ClientModel,
)
    requires
        client::input_received(state, command, registry, clock).1 is Send,
    ensures
        ({
            let (after, step) = client::input_received(state, command, registry, clock);
            &&& step matches StepModel::Send(request, ticket) && {
                &&& client::awaits_outcome(after, ticket)
                &&& client::awaits_outcome(later, ticket) <==> {
                    &&& later.pending.len() < 2048
                    &&& table::get(later.routes, ticket.session_id) matches Some(route)
                        && !route.retired && route.owner == ticket.owner
                }
            }
        }),
{
}

} // verus!
