//! What holds of the sessions of a server over several calls.
use vstd::prelude::*;

use crate::control::{OperationModel, TRANSFER_DRAIN_TIMEOUT};
use crate::frame;
use crate::frame_laws;
use crate::server;
use crate::server::{
    ActionModel, ForwardModel, RequestStepModel, RouteModel, ServerContext, TransferRefusal,
};
use crate::table;
use crate::upkeep;

verus! {

/// Whether a session is recorded and live.
pub open spec fn is_live(routes: Seq<(Seq<char>, RouteModel)>, id: Seq<char>) -> bool {
    table::get(routes, id) matches Some(route) && !route.retired
}

/// Whether two sessions belong to the same runtime of the same terminal, and to the same client.
pub open spec fn same_owner(a: RouteModel, b: RouteModel) -> bool {
    a.terminal_id == b.terminal_id && a.source == b.source && a.client_id == b.client_id
}

/// Whether the session `id`, where it is recorded, is still recorded afterwards, belongs to the
/// same runtime and client, and is still retired if it was.
pub open spec fn keeps_route(
    before: Seq<(Seq<char>, RouteModel)>,
    after: Seq<(Seq<char>, RouteModel)>,
    id: Seq<char>,
) -> bool {
    match table::get(before, id) {
        Some(route) => table::get(after, id) matches Some(later) && same_owner(route, later) && (
        route.retired ==> later.retired) && (route.finishing ==> later.finishing),
        None => true,
    }
}

/// Retiring a session leaves every other one as it is.
pub proof fn lemma_retired_keeps(
    routes: Seq<(Seq<char>, RouteModel)>,
    id: Seq<char>,
    error: Option<Seq<char>>,
    context: &ServerContext,
    clock: u64,
    other: Seq<char>,
)
    requires
        server::is_wf(routes),
    ensures
        keeps_route(routes, server::retired(routes, id, error, context, clock).0, other),
        other != id ==> table::get(
            server::retired(routes, id, error, context, clock).0,
            other,
        ) == table::get(routes, other),
        table::get(server::retired(routes, id, error, context, clock).0, id) matches Some(route)
            ==> route.retired,
{
    if let Some(route) = table::get(routes, id) {
        let retiree = RouteModel { retired: true, touched: clock, ..route };
        table::lemma_put(routes, id, retiree, other);
    }
}

/// A command of a session that is handed on keeps every session.
proof fn lemma_passed_on_keeps(
    routes: Seq<(Seq<char>, RouteModel)>,
    terminal_id: Seq<char>,
    source: u64,
    command: Seq<u8>,
    action: Seq<char>,
    id: Seq<char>,
    context: &ServerContext,
    clock: u64,
    other: Seq<char>,
)
    requires
        server::is_wf(routes),
    ensures
        keeps_route(
            routes,
            server::passed_on(
                routes,
                terminal_id,
                source,
                command,
                action,
                id,
                context,
                clock,
            ).0,
            other,
        ),
{
    if let Some(route) = table::get(routes, id) {
        let touched = RouteModel {
            touched: clock,
            finishing: route.finishing || frame::is_end_action(action),
            ..route
        };
        server::lemma_recorded_id(routes, id);
        server::lemma_route_wf(routes, id, touched);
        table::lemma_put(routes, id, touched, other);
        lemma_retired_keeps(
            table::put(routes, id, touched),
            id,
            Some(server::QUEUE_FAILURE@),
            context,
            clock,
            other,
        );
    }
}

/// No command from any pane takes a recorded session from its owner, forgets it or brings a retired
/// one back to life.
pub proof fn law_commands_keep_sessions(
    routes: Seq<(Seq<char>, RouteModel)>,
    pane_id: u64,
    source: u64,
    command: Seq<u8>,
    context: &ServerContext,
    clock: u64,
    other: Seq<char>,
)
    requires
        server::is_wf(routes),
    ensures
        keeps_route(
            routes,
            server::forwarded(routes, pane_id, source, command, context, clock).0,
            other,
        ),
{
    frame_laws::lemma_frame_id(command);
    if context.terminal_of(pane_id) is Some && frame::frame_of(command) is Some {
        let terminal_id = context.terminal_of(pane_id)->0;
        let (action, id) = frame::frame_of(command)->0;
        if !frame::is_start_action(action) {
            lemma_passed_on_keeps(
                routes,
                terminal_id,
                source,
                command,
                action,
                id,
                context,
                clock,
                other,
            );
        } else if server::start_failure(routes, id, context) is None {
            let route = RouteModel {
                terminal_id,
                source,
                client_id: context.transfer_client()->0,
                touched: clock,
                finishing: false,
                retired: false,
            };
            server::lemma_route_wf(routes, id, route);
            table::lemma_get_has(routes, id);
            table::lemma_put(routes, id, route, other);
            lemma_passed_on_keeps(
                table::put(routes, id, route),
                terminal_id,
                source,
                command,
                action,
                id,
                context,
                clock,
                other,
            );
        }
    }
}

/// No request of a client, and no outcome of what was sent or handed on, takes a recorded session
/// from its owner, forgets it or brings a retired one back to life.
pub proof fn law_requests_keep_sessions(
    routes: Seq<(Seq<char>, RouteModel)>,
    client_id: u64,
    operation: OperationModel,
    session_id: Seq<char>,
    ended: bool,
    accepted: bool,
    context: &ServerContext,
    clock: u64,
    other: Seq<char>,
)
    requires
        server::is_wf(routes),
    ensures
        keeps_route(
            routes,
            server::request_received(routes, client_id, operation, context, clock).0,
            other,
        ),
        keeps_route(
            routes,
            server::injection_settled(routes, session_id, ended, accepted, context, clock).0,
            other,
        ),
        keeps_route(
            routes,
            server::delivery_settled(routes, session_id, accepted, context, clock).0,
            other,
        ),
{
    let id = server::subject_of(operation).1;
    lemma_retired_keeps(routes, id, None, context, clock, other);
    if let OperationModel::Cancel { message, .. } = operation {
        lemma_retired_keeps(
            routes,
            id,
            Some(server::CANCEL_PREFIX@ + message),
            context,
            clock,
            other,
        );
    }
    lemma_retired_keeps(
        routes,
        session_id,
        Some(server::INPUT_FAILURE@),
        context,
        clock,
        other,
    );
    lemma_retired_keeps(
        routes,
        session_id,
        Some(server::QUEUE_FAILURE@),
        context,
        clock,
        other,
    );
    lemma_retired_keeps(routes, session_id, None, context, clock, other);
    if let Some(route) = table::get(routes, session_id) {
        table::lemma_put(routes, session_id, RouteModel { touched: clock, ..route }, other);
    }
}

/// A start that may not begin its session leaves every session as it is, and the pane is handed the
/// failure frame of that session with the reason, and nothing else.
pub proof fn law_failed_start_is_reported(
    routes: Seq<(Seq<char>, RouteModel)>,
    pane_id: u64,
    source: u64,
    command: Seq<u8>,
    context: &ServerContext,
    clock: u64,
)
    requires
        context.terminal_of(pane_id) matches Some(terminal_id) && context.is_live_source(
            terminal_id,
            source,
        ),
        frame::frame_of(command) matches Some((action, id)) && frame::is_start_action(action)
            && server::start_failure(routes, id, context) is Some,
    ensures
        ({
            let terminal_id = context.terminal_of(pane_id)->0;
            let id = (frame::frame_of(command)->0).1;
            let message = server::start_failure(routes, id, context)->0;
            server::forwarded(routes, pane_id, source, command, context, clock) == (
                routes,
                ForwardModel::Act(
                    seq![
                        ActionModel::Input {
                            terminal_id,
                            bytes: frame::failure_frame(id, message),
                        },
                    ],
                ),
            )
        }),
{
}

/// A session that may begin is recorded for the runtime that began it and for the client in front,
/// and its start goes to that client.
pub proof fn law_start_is_forwarded(
    routes: Seq<(Seq<char>, RouteModel)>,
    pane_id: u64,
    source: u64,
    command: Seq<u8>,
    context: &ServerContext,
    clock: u64,
)
    requires
        server::is_wf(routes),
        context.terminal_of(pane_id) matches Some(terminal_id) && context.is_live_source(
            terminal_id,
            source,
        ),
        frame::frame_of(command) matches Some((action, id)) && frame::is_start_action(action)
            && server::start_failure(routes, id, context) is None,
    ensures
        ({
            let terminal_id = context.terminal_of(pane_id)->0;
            let id = (frame::frame_of(command)->0).1;
            let client_id = context.transfer_client()->0;
            let (after, step) = server::forwarded(
                routes,
                pane_id,
                source,
                command,
                context,
                clock,
            );
            &&& step == ForwardModel::Send {
                client_id,
                control: server::control_for(context, terminal_id, command, false),
                session_id: id,
            }
            &&& table::get(after, id) matches Some(route) && route == RouteModel {
                terminal_id,
                source,
                client_id,
                touched: clock,
                finishing: false,
                retired: false,
            }
        }),
{
    let terminal_id = context.terminal_of(pane_id)->0;
    let (action, id) = frame::frame_of(command)->0;
    let route = RouteModel {
        terminal_id,
        source,
        client_id: context.transfer_client()->0,
        touched: clock,
        finishing: false,
        retired: false,
    };
    frame_laws::lemma_start_does_not_end(action);
    table::lemma_put(routes, id, route, id);
    table::lemma_put(table::put(routes, id, route), id, route, id);
}

/// A command that does not begin a session does nothing, unless it comes from the runtime that the
/// session began in and the session is live.
pub proof fn law_foreign_commands_are_ignored(
    routes: Seq<(Seq<char>, RouteModel)>,
    pane_id: u64,
    source: u64,
    command: Seq<u8>,
    context: &ServerContext,
    clock: u64,
)
    requires
        frame::frame_of(command) matches Some((action, id)) && !frame::is_start_action(action)
            && !(table::get(routes, id) matches Some(route) && !route.retired && route.source
            == source && context.terminal_of(pane_id) == Some(route.terminal_id)),
    ensures
        server::forwarded(routes, pane_id, source, command, context, clock) == (
            routes,
            ForwardModel::Act(Seq::<ActionModel>::empty()),
        ),
{
}

/// What comes from a runtime that has been replaced does nothing.
pub proof fn law_replaced_runtimes_are_ignored(
    routes: Seq<(Seq<char>, RouteModel)>,
    pane_id: u64,
    source: u64,
    command: Seq<u8>,
    context: &ServerContext,
    clock: u64,
)
    requires
        context.terminal_of(pane_id) matches Some(terminal_id) && !context.is_live_source(
            terminal_id,
            source,
        ),
    ensures
        server::forwarded(routes, pane_id, source, command, context, clock) == (
            routes,
            ForwardModel::Act(Seq::<ActionModel>::empty()),
        ),
{
}

/// A request for a session of another client or terminal, or for none, changes nothing and is
/// refused.
pub proof fn law_foreign_requests_are_refused(
    routes: Seq<(Seq<char>, RouteModel)>,
    client_id: u64,
    operation: OperationModel,
    context: &ServerContext,
    clock: u64,
)
    requires
        !(table::get(routes, server::subject_of(operation).1) matches Some(route)
            && route.client_id == client_id && route.terminal_id == server::subject_of(
            operation,
        ).0),
    ensures
        ({
            let (after, step) = server::request_received(
                routes,
                client_id,
                operation,
                context,
                clock,
            );
            &&& after == routes
            &&& step matches RequestStepModel::Answer(actions, answer) && actions == Seq::<
                ActionModel,
            >::empty() && answer is Err
        }),
{
}

/// What comes late for a retired session is taken and dropped.
pub proof fn law_late_requests_are_dropped(
    routes: Seq<(Seq<char>, RouteModel)>,
    client_id: u64,
    operation: OperationModel,
    context: &ServerContext,
    clock: u64,
)
    requires
        table::get(routes, server::subject_of(operation).1) matches Some(route) && route.client_id
            == client_id && route.terminal_id == server::subject_of(operation).0 && route.retired,
    ensures
        server::request_received(routes, client_id, operation, context, clock) == (
            routes,
            RequestStepModel::Answer(Seq::<ActionModel>::empty(), Ok::<(), TransferRefusal>(())),
        ),
{
}

/// A terminal is handed nothing as a reply but exactly one answer in a live session of its live
/// runtime, sent by the client of that session.
pub proof fn law_only_answers_are_injected(
    routes: Seq<(Seq<char>, RouteModel)>,
    client_id: u64,
    operation: OperationModel,
    context: &ServerContext,
    clock: u64,
)
    ensures
        server::request_received(
            routes,
            client_id,
            operation,
            context,
            clock,
        ).1 matches RequestStepModel::Inject { terminal_id, bytes, session_id, ended } ==> {
            &&& frame::is_terminal_response(bytes, session_id)
            &&& table::get(routes, session_id) matches Some(route) && !route.retired
                && route.client_id == client_id && route.terminal_id == terminal_id
                && context.is_live_source(terminal_id, route.source)
        },
{
}

/// A retired session is not retired again: nothing changes and nothing is sent.
pub proof fn law_retiring_is_done_once(
    routes: Seq<(Seq<char>, RouteModel)>,
    id: Seq<char>,
    error: Option<Seq<char>>,
    context: &ServerContext,
    clock: u64,
    again: Option<Seq<char>>,
    later: u64,
)
    requires
        server::is_wf(routes),
    ensures
        ({
            let first = server::retired(routes, id, error, context, clock).0;
            server::retired(first, id, again, context, later) == (
                first,
                Seq::<ActionModel>::empty(),
            )
        }),
{
    lemma_retired_keeps(routes, id, error, context, clock, id);
}

/// The action that tells the client of a session to cancel it.
pub open spec fn cancellation(
    context: &ServerContext,
    route: RouteModel,
    id: Seq<char>,
) -> ActionModel {
    ActionModel::Control {
        client_id: route.client_id,
        control: server::control_for(context, route.terminal_id, frame::cancel_frame(id), true),
    }
}

/// Of sessions that are retired one after the other, those that were live become retired, and their
/// clients are told, where they can be written to; everything else stays.
pub proof fn lemma_retired_each(
    routes: Seq<(Seq<char>, RouteModel)>,
    due: Seq<(Seq<char>, Option<Seq<char>>)>,
    context: &ServerContext,
    clock: u64,
    id: Seq<char>,
)
    requires
        server::is_wf(routes),
    ensures
        ({
            let (after, actions) = server::retired_each(routes, due, context, clock);
            &&& server::is_wf(after)
            &&& table::get(after, id) == (match table::get(routes, id) {
                Some(route) if !route.retired && upkeep::is_due(due, id) => Some(
                    RouteModel { retired: true, touched: clock, ..route },
                ),
                found => found,
            })
            &&& is_live(routes, id) && upkeep::is_due(due, id) && context.is_writable(
                (table::get(routes, id)->0).client_id,
            ) ==> actions.contains(cancellation(context, table::get(routes, id)->0, id))
        }),
    decreases due.len(),
{
    if due.len() > 0 {
        let rest = due.drop_last();
        let (last, message) = due.last();
        lemma_retired_each(routes, rest, context, clock, id);
        let (before, actions) = server::retired_each(routes, rest, context, clock);
        let (after, more) = server::retired(before, last, message, context, clock);
        server::lemma_retired_wf(before, last, message, context, clock);
        lemma_retired_keeps(before, last, message, context, clock, id);
        assert(upkeep::is_due(due, id) == (id == last || upkeep::is_due(rest, id))) by {
            if upkeep::is_due(due, id) && id != last {
                let i = choose|i: int| 0 <= i < due.len() && (#[trigger] due[i]).0 == id;
                assert(rest[i].0 == id);
            }
            if upkeep::is_due(rest, id) {
                let i = choose|i: int| 0 <= i < rest.len() && (#[trigger] rest[i]).0 == id;
                assert(due[i].0 == id);
            }
            assert(due[due.len() - 1].0 == last);
        }
        if is_live(before, last) && last == id {
            let route = table::get(before, id)->0;
            table::lemma_put(
                before,
                id,
                RouteModel { retired: true, touched: clock, ..route },
                id,
            );
            if context.is_writable(route.client_id) {
                let cancel = cancellation(context, route, id);
                assert(more.last() == cancel);
                assert((actions + more)[actions.len() + more.len() - 1] == cancel);
            }
        }
        if is_live(routes, id) && upkeep::is_due(rest, id) {
            let cancel = cancellation(context, table::get(routes, id)->0, id);
            if actions.contains(cancel) {
                let i = choose|i: int| 0 <= i < actions.len() && actions[i] == cancel;
                assert((actions + more)[i] == cancel);
            }
        }
    }
}

/// Sessions that are picked out of a table, and no others, are due.
pub proof fn lemma_picked_is_due(
    routes: Seq<(Seq<char>, RouteModel)>,
    picked: spec_fn((Seq<char>, RouteModel)) -> bool,
    named: spec_fn((Seq<char>, RouteModel)) -> (Seq<char>, Option<Seq<char>>),
    id: Seq<char>,
)
    requires
        server::is_wf(routes),
        forall|entry: (Seq<char>, RouteModel)| (#[trigger] named(entry)).0 == entry.0,
    ensures
        upkeep::is_due(routes.filter(picked).map_values(named), id) == (table::get(
            routes,
            id,
        ) matches Some(route) && picked((id, route))),
{
    let chosen = routes.filter(picked);
    let due = chosen.map_values(named);
    table::lemma_kept(routes, picked);
    table::lemma_get_has(routes, id);
    if upkeep::is_due(due, id) {
        let i = choose|i: int| 0 <= i < due.len() && (#[trigger] due[i]).0 == id;
        assert(due[i] == named(chosen[i]));
        assert(chosen[i].0 == id && picked(chosen[i]));
        let j = choose|j: int| 0 <= j < routes.len() && routes[j] == chosen[i];
        table::lemma_get(routes, j);
        assert(chosen[i] == (id, chosen[i].1));
    }
    if let Some(route) = table::get(routes, id) {
        if picked((id, route)) {
            let j = choose|j: int| 0 <= j < routes.len() && routes[j] == (id, route);
            routes.lemma_filter_contains(picked, j);
            let i = choose|i: int| 0 <= i < chosen.len() && chosen[i] == (id, route);
            assert(due[i] == named(chosen[i]));
            assert(due[i].0 == id);
        }
    }
}

/// An upkeep leaves exactly those live sessions alone that have not expired. They stay as they
/// were; the clients of the others are told to cancel, where they can be written to.
pub proof fn law_maintenance_retires_what_expired(
    routes: Seq<(Seq<char>, RouteModel)>,
    context: &ServerContext,
    now: u64,
    clock: u64,
    id: Seq<char>,
)
    requires
        server::is_wf(routes),
    ensures
        ({
            let (after, actions) = server::maintained(routes, context, now, clock);
            &&& is_live(after, id) == (is_live(routes, id) && !server::is_expired(
                table::get(routes, id)->0,
                context,
                now,
            ))
            &&& is_live(after, id) ==> table::get(after, id) == table::get(routes, id)
            &&& is_live(routes, id) && !is_live(after, id) && context.is_writable(
                (table::get(routes, id)->0).client_id,
            ) ==> actions.contains(cancellation(context, table::get(routes, id)->0, id))
        }),
{
    let due = server::expired_sessions(routes, context, now);
    let (middle, actions) = server::retired_each(routes, due, context, clock);
    lemma_retired_each(routes, due, context, clock, id);
    let picked = |entry: (Seq<char>, RouteModel)| server::is_expired(entry.1, context, now);
    let named = |entry: (Seq<char>, RouteModel)|
        (
            entry.0,
            if entry.1.finishing {
                None
            } else {
                Some(server::EXPIRED_FAILURE@)
            },
        );
    lemma_picked_is_due(routes, picked, named, id);
    assert(due == routes.filter(picked).map_values(named));
    let keep = |entry: (Seq<char>, RouteModel)| server::is_kept(entry.1, now);
    table::lemma_filter(middle, keep, id);
    assert(server::maintained(routes, context, now, clock).0 == middle.filter(keep));
}

/// After an upkeep no session is recorded that was retired long ago.
pub proof fn law_maintenance_forgets(
    routes: Seq<(Seq<char>, RouteModel)>,
    context: &ServerContext,
    now: u64,
    clock: u64,
)
    ensures
        ({
            let after = server::maintained(routes, context, now, clock).0;
            forall|i: int|
                0 <= i < after.len() ==> !(#[trigger] after[i]).1.retired || upkeep::elapsed(
                    now,
                    after[i].1.touched,
                ) < TRANSFER_DRAIN_TIMEOUT
        }),
{
    let due = server::expired_sessions(routes, context, now);
    let middle = server::retired_each(routes, due, context, clock).0;
    let keep = |entry: (Seq<char>, RouteModel)| server::is_kept(entry.1, now);
    let after = middle.filter(keep);
    assert(server::maintained(routes, context, now, clock).0 == after);
    table::lemma_kept(middle, keep);
    assert forall|i: int| 0 <= i < after.len() implies !(#[trigger] after[i]).1.retired
        || upkeep::elapsed(now, after[i].1.touched) < TRANSFER_DRAIN_TIMEOUT by {
        assert(keep(after[i]));
    }
}

/// When a client goes away, none of its sessions stays live, and the sessions of other clients stay
/// as they are.
pub proof fn law_departure_retires_sessions(
    routes: Seq<(Seq<char>, RouteModel)>,
    client_id: u64,
    context: &ServerContext,
    clock: u64,
    id: Seq<char>,
)
    requires
        server::is_wf(routes),
        table::get(routes, id) is Some,
    ensures
        ({
            let route = table::get(routes, id)->0;
            let after = server::client_left(routes, client_id, context, clock).0;
            if route.client_id == client_id {
                table::get(after, id) matches Some(later) && later.retired && same_owner(
                    route,
                    later,
                )
            } else {
                table::get(after, id) == Some(route)
            }
        }),
{
    let due = server::sessions_of_client(routes, client_id);
    lemma_retired_each(routes, due, context, clock, id);
    let picked = |entry: (Seq<char>, RouteModel)|
        entry.1.client_id == client_id && !entry.1.retired;
    let named = |entry: (Seq<char>, RouteModel)| (entry.0, Some(server::DISCONNECTED_FAILURE@));
    lemma_picked_is_due(routes, picked, named, id);
    assert(due == routes.filter(picked).map_values(named));
}

} // verus!
