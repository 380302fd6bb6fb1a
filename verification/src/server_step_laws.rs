//! What each step of the server does to a session, told from what is known at the time.
use vstd::prelude::*;
use vstd::utf8::encode_utf8;

use crate::codec;
use crate::control::{ControlModel, OperationModel};
use crate::frame;
use crate::frame_laws;
use crate::reading_laws;
use crate::server;
use crate::server::{
    ActionModel, ForwardModel, RequestStepModel, RouteModel, ServerContext, TransferRefusal,
};
use crate::server_laws;
use crate::table;
use crate::upkeep;

verus! {

/// Whether a runtime is the one that a terminal has.
pub open spec fn runs(context: &ServerContext, terminal_id: Seq<char>, source: u64) -> bool {
    table::get(context.runtimes@, terminal_id) == Some(source)
}

/// Whether there is a client and it can be written to.
pub open spec fn takes_writes(context: &ServerContext, client_id: u64) -> bool {
    context.clients@.contains_key(client_id) && context.clients@[client_id].has_writer
}

/// Whether the client in front is `client_id`, shows the shell, can be written to, and has an outer
/// terminal that can transfer files.
pub open spec fn carries_out(context: &ServerContext, client_id: u64) -> bool {
    &&& context.foreground_client_id == Some(client_id)
    &&& context.clients@.contains_key(client_id)
    &&& context.clients@[client_id].active_shell
    &&& context.clients@[client_id].terminal_transfer
    &&& context.clients@[client_id].has_writer
}

/// Whether a command of a pane arrives from the runtime that the pane's terminal has.
pub open spec fn arrives(context: &ServerContext, pane_id: u64, source: u64) -> bool {
    context.panes@.contains_key(pane_id) && runs(context, context.panes@[pane_id]@, source)
}

/// What is told to those concerned when a live session is retired: the runtime that it began in
/// gets a failure, where there is a message and the runtime is still there, and then the client
/// gets a cancellation that retires the session, where it can be written to.
pub open spec fn told(
    context: &ServerContext,
    route: RouteModel,
    id: Seq<char>,
    message: Option<Seq<char>>,
) -> Seq<ActionModel> {
    (if message is Some && runs(context, route.terminal_id, route.source) {
        seq![
            ActionModel::Input {
                terminal_id: route.terminal_id,
                bytes: frame::failure_frame(id, message->0),
            },
        ]
    } else {
        Seq::empty()
    }) + (if takes_writes(context, route.client_id) {
        seq![
            ActionModel::Control {
                client_id: route.client_id,
                control: ControlModel {
                    boot_id: context.boot_id@,
                    terminal_id: route.terminal_id,
                    command: codec::base64_encoded(frame::cancel_frame(id)),
                    retire: true,
                },
            },
        ]
    } else {
        Seq::empty()
    })
}

proof fn lemma_retired_route(
    routes: Seq<(Seq<char>, RouteModel)>,
    id: Seq<char>,
    error: Option<Seq<char>>,
    context: &ServerContext,
    clock: u64,
)
    requires
        server::is_wf(routes),
        table::get(routes, id) matches Some(route) && !route.retired,
    ensures
        ({
            let route = table::get(routes, id)->0;
            let (after, actions) = server::retired(routes, id, error, context, clock);
            &&& table::get(after, id) == Some(
                RouteModel { retired: true, touched: clock, ..route },
            )
            &&& actions == told(context, route, id, error)
        }),
{
    let route = table::get(routes, id)->0;
    table::lemma_put(routes, id, RouteModel { retired: true, touched: clock, ..route }, id);
    assert(server::retired(routes, id, error, context, clock).1 =~= told(
        context,
        route,
        id,
        error,
    ));
}

proof fn lemma_passed_on(
    routes: Seq<(Seq<char>, RouteModel)>,
    terminal_id: Seq<char>,
    source: u64,
    command: Seq<u8>,
    action: Seq<char>,
    id: Seq<char>,
    context: &ServerContext,
    clock: u64,
    other: Seq<char>,
)
    requires
        server::is_wf(routes),
        table::get(routes, id) matches Some(route) && route.terminal_id == terminal_id
            && route.source == source && !route.retired,
    ensures
        ({
            let route = table::get(routes, id)->0;
            let ending = route.finishing || action == "finish"@ || action == "cancel"@;
            let used = RouteModel { touched: clock, finishing: ending, ..route };
            let (after, step) = server::passed_on(
                routes,
                terminal_id,
                source,
                command,
                action,
                id,
                context,
                clock,
            );
            &&& other != id ==> table::get(after, other) == table::get(routes, other)
            &&& takes_writes(context, route.client_id) ==> {
                &&& table::get(after, id) == Some(used)
                &&& step == (ForwardModel::Send {
                    client_id: route.client_id,
                    control: ControlModel {
                        boot_id: context.boot_id@,
                        terminal_id,
                        command: codec::base64_encoded(command),
                        retire: false,
                    },
                    session_id: id,
                })
            }
            &&& !takes_writes(context, route.client_id) ==> {
                &&& table::get(after, id) == Some(RouteModel { retired: true, ..used })
                &&& step == ForwardModel::Act(
                    told(context, used, id, Some("EIO:outer terminal transfer queue is full"@)),
                )
            }
        }),
{
    let route = table::get(routes, id)->0;
    let used = RouteModel {
        touched: clock,
        finishing: route.finishing || action == "finish"@ || action == "cancel"@,
        ..route
    };
    server::lemma_recorded_id(routes, id);
    server::lemma_route_wf(routes, id, used);
    table::lemma_put(routes, id, used, id);
    table::lemma_put(routes, id, used, other);
    let touched = table::put(routes, id, used);
    lemma_retired_route(touched, id, Some(server::QUEUE_FAILURE@), context, clock);
    server_laws::lemma_retired_keeps(
        touched,
        id,
        Some(server::QUEUE_FAILURE@),
        context,
        clock,
        other,
    );
}

/// A command of a live session, from the runtime that the session began in, goes to the session's
/// client as it is, and the session counts as used at that moment. With `finish` and `cancel`, and
/// with no other action, it begins to end. Where the client cannot be written to, the session is
/// retired, and the pane is told. The other sessions stay as they are.
pub proof fn law_commands_are_forwarded(
    routes: Seq<(Seq<char>, RouteModel)>,
    pane_id: u64,
    source: u64,
    command: Seq<u8>,
    action: Seq<char>,
    id: Seq<char>,
    context: &ServerContext,
    clock: u64,
    other: Seq<char>,
)
    requires
        server::is_wf(routes),
        arrives(context, pane_id, source),
        frame::frame_of(command) == Some((action, id)),
        action == "file"@ || action == "data"@ || action == "end_data"@ || action == "status"@
            || action == "finish"@ || action == "cancel"@,
        table::get(routes, id) matches Some(route) && route.terminal_id == context.panes@[pane_id]@
            && route.source == source && !route.retired,
    ensures
        ({
            let route = table::get(routes, id)->0;
            let ending = route.finishing || action == "finish"@ || action == "cancel"@;
            let (after, step) = server::forwarded(
                routes,
                pane_id,
                source,
                command,
                context,
                clock,
            );
            &&& other != id ==> table::get(after, other) == table::get(routes, other)
            &&& takes_writes(context, route.client_id) ==> {
                &&& table::get(after, id) == Some(
                    RouteModel { touched: clock, finishing: ending, ..route },
                )
                &&& step == (ForwardModel::Send {
                    client_id: route.client_id,
                    control: ControlModel {
                        boot_id: context.boot_id@,
                        terminal_id: route.terminal_id,
                        command: codec::base64_encoded(command),
                        retire: false,
                    },
                    session_id: id,
                })
            }
            &&& !takes_writes(context, route.client_id) ==> {
                &&& table::get(after, id) == Some(
                    RouteModel { touched: clock, finishing: ending, retired: true, ..route },
                )
                &&& step == ForwardModel::Act(
                    told(context, route, id, Some("EIO:outer terminal transfer queue is full"@)),
                )
            }
        }),
{
    reading_laws::lemma_eight_actions();
    lemma_passed_on(
        routes,
        context.panes@[pane_id]@,
        source,
        command,
        action,
        id,
        context,
        clock,
        other,
    );
}

/// A session begins with `send` and with `receive`, unless the server stops, the id is in use, 64
/// sessions are recorded, or the client in front cannot carry it out. It belongs to the runtime
/// that the command came from and to the client in front, and the command goes to that client. In
/// each other case the pane is told the first of these reasons, and no session changes.
pub proof fn law_sessions_begin(
    routes: Seq<(Seq<char>, RouteModel)>,
    pane_id: u64,
    source: u64,
    command: Seq<u8>,
    action: Seq<char>,
    id: Seq<char>,
    context: &ServerContext,
    clock: u64,
    other: Seq<char>,
)
    requires
        server::is_wf(routes),
        arrives(context, pane_id, source),
        frame::frame_of(command) == Some((action, id)),
        action == "send"@ || action == "receive"@,
    ensures
        ({
            let terminal_id = context.panes@[pane_id]@;
            let front = context.foreground_client_id->0;
            let (after, step) = server::forwarded(
                routes,
                pane_id,
                source,
                command,
                context,
                clock,
            );
            let failure = |message: Seq<char>|
                ForwardModel::Act(
                    seq![
                        ActionModel::Input {
                            terminal_id,
                            bytes: frame::failure_frame(id, message),
                        },
                    ],
                );
            if context.handoff_in_progress || context.shutting_down {
                after == routes && step == failure("ENOTCONN:server is stopping"@)
            } else if table::get(routes, id) is Some || routes.len() >= 64 {
                after == routes && step == failure("EBUSY:transfer session limit or id collision"@)
            } else if context.foreground_client_id is None || !carries_out(context, front) {
                after == routes && step == failure(
                    "ENOTSUP:outer client does not support transfers"@,
                )
            } else {
                &&& table::get(after, id) == Some(
                    RouteModel {
                        terminal_id,
                        source,
                        client_id: front,
                        touched: clock,
                        finishing: false,
                        retired: false,
                    },
                )
                &&& other != id ==> table::get(after, other) == table::get(routes, other)
                &&& step == (ForwardModel::Send {
                    client_id: front,
                    control: ControlModel {
                        boot_id: context.boot_id@,
                        terminal_id,
                        command: codec::base64_encoded(command),
                        retire: false,
                    },
                    session_id: id,
                })
            }
        }),
{
    reading_laws::lemma_eight_actions();
    frame_laws::lemma_frame_id(command);
    let terminal_id = context.panes@[pane_id]@;
    table::lemma_get_has(routes, id);
    assert(context.terminal_of(pane_id) == Some(terminal_id));
    if server::start_failure(routes, id, context) is None {
        let begun = RouteModel {
            terminal_id,
            source,
            client_id: context.transfer_client()->0,
            touched: clock,
            finishing: false,
            retired: false,
        };
        server::lemma_route_wf(routes, id, begun);
        table::lemma_put(routes, id, begun, id);
        table::lemma_put(routes, id, begun, other);
        lemma_passed_on(
            table::put(routes, id, begun),
            terminal_id,
            source,
            command,
            action,
            id,
            context,
            clock,
            other,
        );
    }
}

/// Nothing else is forwarded, and nothing else changes a session: neither what comes from a pane
/// that is not known or from a runtime that its terminal has no more, nor what is not a frame, nor
/// a command, other than a start, of a session that is not recorded, is retired, or began in
/// another terminal or another runtime.
pub proof fn law_other_commands_are_dropped(
    routes: Seq<(Seq<char>, RouteModel)>,
    pane_id: u64,
    source: u64,
    command: Seq<u8>,
    context: &ServerContext,
    clock: u64,
)
    requires
        ({
            ||| !arrives(context, pane_id, source)
            ||| frame::frame_of(command) is None
            ||| {
                let (action, id) = frame::frame_of(command)->0;
                &&& action != "send"@
                &&& action != "receive"@
                &&& match table::get(routes, id) {
                    None => true,
                    Some(route) => route.retired || route.source != source || route.terminal_id
                        != context.panes@[pane_id]@,
                }
            }
        }),
    ensures
        server::forwarded(routes, pane_id, source, command, context, clock) == (
            routes,
            ForwardModel::Act(Seq::empty()),
        ),
{
}

/// A session whose command was taken goes on. One whose command was not taken is retired, and those
/// concerned are told.
pub proof fn law_undelivered_commands_end_the_session(
    routes: Seq<(Seq<char>, RouteModel)>,
    id: Seq<char>,
    context: &ServerContext,
    clock: u64,
)
    requires
        server::is_wf(routes),
        table::get(routes, id) matches Some(route) && !route.retired,
    ensures
        server::delivery_settled(routes, id, true, context, clock) == (
            routes,
            Seq::<ActionModel>::empty(),
        ),
        ({
            let route = table::get(routes, id)->0;
            let (after, actions) = server::delivery_settled(routes, id, false, context, clock);
            &&& table::get(after, id) == Some(
                RouteModel { retired: true, touched: clock, ..route },
            )
            &&& actions == told(
                context,
                route,
                id,
                Some("EIO:outer terminal transfer queue is full"@),
            )
        }),
{
    lemma_retired_route(routes, id, Some(server::QUEUE_FAILURE@), context, clock);
}

/// Whenever a command is forwarded, be it the first of its session or a later one, the session
/// that is recorded afterwards is live, belongs to the client that gets the command, and counts as
/// used at that moment.
pub proof fn law_forwarded_commands_renew(
    routes: Seq<(Seq<char>, RouteModel)>,
    pane_id: u64,
    source: u64,
    command: Seq<u8>,
    context: &ServerContext,
    clock: u64,
)
    requires
        server::is_wf(routes),
        server::forwarded(routes, pane_id, source, command, context, clock).1 is Send,
    ensures
        ({
            let (after, step) = server::forwarded(
                routes,
                pane_id,
                source,
                command,
                context,
                clock,
            );
            &&& step matches ForwardModel::Send { client_id, control, session_id } && {
                &&& frame::frame_of(command) matches Some((action, id)) && id == session_id
                &&& table::get(after, session_id) matches Some(route) && {
                    &&& route.touched == clock
                    &&& !route.retired
                    &&& route.client_id == client_id
                    &&& route.source == source
                    &&& route.terminal_id == control.terminal_id
                }
            }
        }),
{
    let (action, id) = frame::frame_of(command)->0;
    reading_laws::law_frames_are_written(command);
    let fields = choose|fields: Seq<Seq<u8>>| #[trigger] reading_laws::is_written(command, fields);
    reading_laws::law_only_frames_are_read(command, fields);
    if action == "send"@ || action == "receive"@ {
        law_sessions_begin(
            routes,
            pane_id,
            source,
            command,
            action,
            id,
            context,
            clock,
            Seq::empty(),
        );
    } else {
        law_commands_are_forwarded(
            routes,
            pane_id,
            source,
            command,
            action,
            id,
            context,
            clock,
            Seq::empty(),
        );
    }
}

/// An upkeep, session by session. A live session stays as it is while the runtime that it began in
/// is there and it was used less than five minutes ago, or, once it is ending, less than thirty
/// seconds ago. Otherwise it is retired. A retired session is kept for thirty seconds.
pub proof fn law_upkeep_by_the_clock(
    routes: Seq<(Seq<char>, RouteModel)>,
    context: &ServerContext,
    now: u64,
    clock: u64,
    id: Seq<char>,
)
    requires
        server::is_wf(routes),
    ensures
        ({
            let after = server::maintained(routes, context, now, clock).0;
            match table::get(routes, id) {
                None => table::get(after, id) is None,
                Some(route) => if route.retired {
                    table::get(after, id) == (if now < route.touched + 30_000_000_000 {
                        Some(route)
                    } else {
                        None
                    })
                } else if runs(context, route.terminal_id, route.source) && now < route.touched + (
                if route.finishing {
                    30_000_000_000int
                } else {
                    300_000_000_000int
                }) {
                    table::get(after, id) == Some(route)
                } else {
                    table::get(after, id) == (if now < clock + 30_000_000_000 {
                        Some(RouteModel { retired: true, touched: clock, ..route })
                    } else {
                        None
                    })
                },
            }
        }),
{
    let due = server::expired_sessions(routes, context, now);
    let (middle, actions) = server::retired_each(routes, due, context, clock);
    server_laws::lemma_retired_each(routes, due, context, clock, id);
    let picked = |entry: (Seq<char>, RouteModel)| server::is_expired(entry.1, context, now);
    let named = |entry: (Seq<char>, RouteModel)|
        (
            entry.0,
            if entry.1.finishing {
                None
            } else {
                Some(server::EXPIRED_FAILURE@)
            },
        );
    server_laws::lemma_picked_is_due(routes, picked, named, id);
    assert(due == routes.filter(picked).map_values(named));
    let keep = |entry: (Seq<char>, RouteModel)| server::is_kept(entry.1, now);
    table::lemma_filter(middle, keep, id);
    assert(server::maintained(routes, context, now, clock).0 == middle.filter(keep));
}

/// A session in use is not retired: an upkeep less than thirty seconds after a command was
/// forwarded leaves its session live, and one less than five minutes after it does so unless the
/// session is ending, as long as the runtime is there.
pub proof fn law_used_sessions_survive(
    routes: Seq<(Seq<char>, RouteModel)>,
    pane_id: u64,
    source: u64,
    command: Seq<u8>,
    context: &ServerContext,
    clock: u64,
    later: &ServerContext,
    now: u64,
    late_clock: u64,
)
    requires
        server::is_wf(routes),
        server::forwarded(routes, pane_id, source, command, context, clock).1 is Send,
        runs(later, context.panes@[pane_id]@, source),
    ensures
        ({
            let (after, step) = server::forwarded(
                routes,
                pane_id,
                source,
                command,
                context,
                clock,
            );
            let (action, id) = frame::frame_of(command)->0;
            let kept = server::maintained(after, later, now, late_clock).0;
            let was_ending = table::get(routes, id) matches Some(route) && route.finishing;
            &&& now < clock + 30_000_000_000 ==> server_laws::is_live(kept, id)
            &&& now < clock + 300_000_000_000 && !was_ending && action != "finish"@ && action
                != "cancel"@ ==> server_laws::is_live(kept, id)
        }),
{
    let after = server::forwarded(routes, pane_id, source, command, context, clock).0;
    let (action, id) = frame::frame_of(command)->0;
    law_forwarded_commands_renew(routes, pane_id, source, command, context, clock);
    lemma_forwarded_wf(routes, pane_id, source, command, context, clock);
    law_upkeep_by_the_clock(after, later, now, late_clock, id);
    reading_laws::law_frames_are_written(command);
    let fields = choose|fields: Seq<Seq<u8>>| #[trigger] reading_laws::is_written(command, fields);
    reading_laws::law_only_frames_are_read(command, fields);
    if action == "send"@ || action == "receive"@ {
        law_sessions_begin(
            routes,
            pane_id,
            source,
            command,
            action,
            id,
            context,
            clock,
            Seq::empty(),
        );
    } else {
        law_commands_are_forwarded(
            routes,
            pane_id,
            source,
            command,
            action,
            id,
            context,
            clock,
            Seq::empty(),
        );
    }
}

proof fn lemma_forwarded_wf(
    routes: Seq<(Seq<char>, RouteModel)>,
    pane_id: u64,
    source: u64,
    command: Seq<u8>,
    context: &ServerContext,
    clock: u64,
)
    requires
        server::is_wf(routes),
    ensures
        server::is_wf(server::forwarded(routes, pane_id, source, command, context, clock).0),
{
    if context.terminal_of(pane_id) is Some && frame::frame_of(command) is Some {
        let terminal_id = context.terminal_of(pane_id)->0;
        let (action, id) = frame::frame_of(command)->0;
        frame_laws::lemma_frame_id(command);
        table::lemma_get_has(routes, id);
        if !frame::is_start_action(action) {
            lemma_passed_on_wf(
                routes,
                terminal_id,
                source,
                command,
                action,
                id,
                context,
                clock,
            );
        } else if server::start_failure(routes, id, context) is None {
            let begun = RouteModel {
                terminal_id,
                source,
                client_id: context.transfer_client()->0,
                touched: clock,
                finishing: false,
                retired: false,
            };
            server::lemma_route_wf(routes, id, begun);
            lemma_passed_on_wf(
                table::put(routes, id, begun),
                terminal_id,
                source,
                command,
                action,
                id,
                context,
                clock,
            );
        }
    }
}

proof fn lemma_passed_on_wf(
    routes: Seq<(Seq<char>, RouteModel)>,
    terminal_id: Seq<char>,
    source: u64,
    command: Seq<u8>,
    action: Seq<char>,
    id: Seq<char>,
    context: &ServerContext,
    clock: u64,
)
    requires
        server::is_wf(routes),
    ensures
        server::is_wf(
            server::passed_on(
                routes,
                terminal_id,
                source,
                command,
                action,
                id,
                context,
                clock,
            ).0,
        ),
{
    if let Some(route) = table::get(routes, id) {
        let used = RouteModel {
            touched: clock,
            finishing: route.finishing || frame::is_end_action(action),
            ..route
        };
        server::lemma_recorded_id(routes, id);
        server::lemma_route_wf(routes, id, used);
        server::lemma_retired_wf(
            table::put(routes, id, used),
            id,
            Some(server::QUEUE_FAILURE@),
            context,
            clock,
        );
    }
}

/// A reply of the owner of a live session, whose runtime is there, is handed to the terminal as it
/// was sent, if it is an answer in that session: `status`, `file`, `data` or `end_data`. It is
/// refused if it is too long, is not base64, or is anything else. No session changes before it is
/// known what became of the reply.
pub proof fn law_replies_are_injected(
    routes: Seq<(Seq<char>, RouteModel)>,
    client_id: u64,
    terminal_id: Seq<char>,
    session_id: Seq<char>,
    data: Seq<char>,
    context: &ServerContext,
    clock: u64,
)
    requires
        table::get(routes, session_id) matches Some(route) && {
            &&& route.client_id == client_id
            &&& route.terminal_id == terminal_id
            &&& !route.retired
            &&& runs(context, terminal_id, route.source)
        },
    ensures
        ({
            let refused = |refusal: TransferRefusal|
                RequestStepModel::Answer(Seq::empty(), Err(refusal));
            let (after, step) = server::request_received(
                routes,
                client_id,
                OperationModel::Reply { terminal_id, session_id, data },
                context,
                clock,
            );
            &&& after == routes
            &&& if encode_utf8(data).len() > 87384 {
                step == refused(TransferRefusal::ReplyTooLarge)
            } else {
                match codec::base64_decoded(encode_utf8(data)) {
                    None => step == refused(TransferRefusal::ReplyNotBase64),
                    Some(bytes) => match frame::frame_of(bytes) {
                        Some((action, id)) if id == session_id && (action == "status"@ || action
                            == "file"@ || action == "data"@ || action == "end_data"@) => step == (
                        RequestStepModel::Inject {
                            terminal_id,
                            bytes,
                            session_id,
                            ended: frame::is_session_error(bytes),
                        }),
                        _ => step == refused(TransferRefusal::ReplyMismatch),
                    },
                }
            }
        }),
{
    if let Some(bytes) = codec::base64_decoded(encode_utf8(data)) {
        if let Some((action, id)) = frame::frame_of(bytes) {
            reading_laws::law_answers_are_four_of_eight(bytes, action, id);
            reading_laws::lemma_eight_actions();
        }
    }
}

/// A cancellation by the owner of a live session, whose runtime is there, retires the session and
/// tells the pane the reason, of up to 256 bytes. A longer one is refused, and changes nothing.
pub proof fn law_cancellations_retire(
    routes: Seq<(Seq<char>, RouteModel)>,
    client_id: u64,
    terminal_id: Seq<char>,
    session_id: Seq<char>,
    message: Seq<char>,
    context: &ServerContext,
    clock: u64,
)
    requires
        server::is_wf(routes),
        table::get(routes, session_id) matches Some(route) && {
            &&& route.client_id == client_id
            &&& route.terminal_id == terminal_id
            &&& !route.retired
            &&& runs(context, terminal_id, route.source)
        },
    ensures
        ({
            let route = table::get(routes, session_id)->0;
            let (after, step) = server::request_received(
                routes,
                client_id,
                OperationModel::Cancel { terminal_id, session_id, message },
                context,
                clock,
            );
            if encode_utf8(message).len() > 256 {
                &&& after == routes
                &&& step == RequestStepModel::Answer(
                    Seq::empty(),
                    Err(TransferRefusal::MessageTooLarge),
                )
            } else {
                &&& table::get(after, session_id) == Some(
                    RouteModel { retired: true, touched: clock, ..route },
                )
                &&& step == RequestStepModel::Answer(
                    told(context, route, session_id, Some("EIO:"@ + message)),
                    Ok(()),
                )
            }
        }),
{
    lemma_retired_route(
        routes,
        session_id,
        Some(server::CANCEL_PREFIX@ + message),
        context,
        clock,
    );
}

/// What the server answers to everyone else: an unknown session is unavailable, a session of
/// another client or another terminal is foreign, and neither request changes anything. What comes
/// late is taken and dropped. Where the runtime is gone the session is retired, without a word to
/// the terminal.
pub proof fn law_other_requests_are_answered(
    routes: Seq<(Seq<char>, RouteModel)>,
    client_id: u64,
    operation: OperationModel,
    terminal_id: Seq<char>,
    session_id: Seq<char>,
    context: &ServerContext,
    clock: u64,
)
    requires
        server::is_wf(routes),
        match operation {
            OperationModel::Reply { terminal_id: t, session_id: s, .. } => t == terminal_id && s
                == session_id,
            OperationModel::Cancel { terminal_id: t, session_id: s, .. } => t == terminal_id && s
                == session_id,
        },
    ensures
        ({
            let (after, step) = server::request_received(
                routes,
                client_id,
                operation,
                context,
                clock,
            );
            match table::get(routes, session_id) {
                None => {
                    &&& after == routes
                    &&& step == RequestStepModel::Answer(
                        Seq::empty(),
                        Err(TransferRefusal::SessionUnavailable),
                    )
                },
                Some(route) => {
                    &&& route.client_id != client_id || route.terminal_id != terminal_id ==> {
                        &&& after == routes
                        &&& step == RequestStepModel::Answer(
                            Seq::empty(),
                            Err(TransferRefusal::ForeignSession),
                        )
                    }
                    &&& route.client_id == client_id && route.terminal_id == terminal_id
                        && route.retired ==> {
                        &&& after == routes
                        &&& step == RequestStepModel::Answer(Seq::empty(), Ok(()))
                    }
                    &&& route.client_id == client_id && route.terminal_id == terminal_id
                        && !route.retired && !runs(context, terminal_id, route.source) ==> {
                        &&& table::get(after, session_id) == Some(
                            RouteModel { retired: true, touched: clock, ..route },
                        )
                        &&& step == RequestStepModel::Answer(
                            told(context, route, session_id, None),
                            Err(TransferRefusal::RuntimeReplaced),
                        )
                    }
                },
            }
        }),
{
    if server_laws::is_live(routes, session_id) {
        lemma_retired_route(routes, session_id, None, context, clock);
    }
}

/// A reply that the terminal took keeps its session in use, unless it reports an error of the
/// session, which ends it without a further word to the terminal. A reply that the terminal did not
/// take ends the session, and the terminal is told so.
pub proof fn law_injections_are_settled(
    routes: Seq<(Seq<char>, RouteModel)>,
    id: Seq<char>,
    ended: bool,
    accepted: bool,
    context: &ServerContext,
    clock: u64,
)
    requires
        server::is_wf(routes),
        table::get(routes, id) matches Some(route) && !route.retired,
    ensures
        ({
            let route = table::get(routes, id)->0;
            let (after, actions, answer) = server::injection_settled(
                routes,
                id,
                ended,
                accepted,
                context,
                clock,
            );
            &&& table::get(after, id) == Some(
                RouteModel { touched: clock, retired: ended || !accepted, ..route },
            )
            &&& accepted && !ended ==> actions == Seq::<ActionModel>::empty() && answer == Ok::<
                (),
                TransferRefusal,
            >(())
            &&& accepted && ended ==> actions == told(context, route, id, None) && answer == Ok::<
                (),
                TransferRefusal,
            >(())
            &&& !accepted ==> actions == told(
                context,
                route,
                id,
                Some("EIO:terminal transfer input queue is full"@),
            ) && answer == Err::<(), TransferRefusal>(TransferRefusal::InputQueueFull)
        }),
{
    let route = table::get(routes, id)->0;
    lemma_retired_route(routes, id, None, context, clock);
    lemma_retired_route(routes, id, Some(server::INPUT_FAILURE@), context, clock);
    table::lemma_put(routes, id, RouteModel { touched: clock, ..route }, id);
}

/// Whether all of these actions are among those.
pub open spec fn says_all(actions: Seq<ActionModel>, words: Seq<ActionModel>) -> bool {
    forall|m: int| 0 <= m < words.len() ==> actions.contains(#[trigger] words[m])
}

/// The pane of a session that is retired together with others is told what it would be told alone.
proof fn lemma_each_is_told(
    routes: Seq<(Seq<char>, RouteModel)>,
    due: Seq<(Seq<char>, Option<Seq<char>>)>,
    context: &ServerContext,
    clock: u64,
    k: int,
)
    requires
        server::is_wf(routes),
        0 <= k < due.len(),
        forall|i: int, j: int|
            0 <= i < j < due.len() ==> (#[trigger] due[i]).0 != (#[trigger] due[j]).0,
        table::get(routes, due[k].0) matches Some(route) && !route.retired,
    ensures
        ({
            let actions = server::retired_each(routes, due, context, clock).1;
            let words = told(context, table::get(routes, due[k].0)->0, due[k].0, due[k].1);
            says_all(actions, words)
        }),
    decreases due.len(),
{
    let rest = due.drop_last();
    let (before, early) = server::retired_each(routes, rest, context, clock);
    let more = server::retired(before, due.last().0, due.last().1, context, clock).1;
    let words = told(context, table::get(routes, due[k].0)->0, due[k].0, due[k].1);
    let actions = early + more;
    server_laws::lemma_retired_each(routes, rest, context, clock, due[k].0);
    assert forall|m: int| 0 <= m < words.len() implies actions.contains(#[trigger] words[m]) by {
        if k == due.len() - 1 {
            assert(!upkeep::is_due(rest, due[k].0)) by {
                if upkeep::is_due(rest, due[k].0) {
                    let i = choose|i: int|
                        0 <= i < rest.len() && (#[trigger] rest[i]).0 == due[k].0;
                    assert(due[i].0 == due[k].0);
                }
            }
            lemma_retired_route(before, due[k].0, due[k].1, context, clock);
            assert(actions[early.len() + m] == words[m]);
        } else {
            assert forall|i: int, j: int| 0 <= i < j < rest.len() implies (#[trigger] rest[i]).0
                != (#[trigger] rest[j]).0 by {
                assert(due[i].0 != due[j].0);
            }
            assert(rest[k] == due[k]);
            lemma_each_is_told(routes, rest, context, clock, k);
            assert(says_all(early, words));
            assert(early.contains(words[m]));
            let at = choose|at: int| 0 <= at < early.len() && early[at] == words[m];
            assert(actions[at] == words[m]);
        }
    }
}

/// Where a session was picked out of a table, with what is told about it, it stands there under
/// some place, and no id stands there twice.
proof fn lemma_picked_at(
    routes: Seq<(Seq<char>, RouteModel)>,
    picked: spec_fn((Seq<char>, RouteModel)) -> bool,
    named: spec_fn((Seq<char>, RouteModel)) -> (Seq<char>, Option<Seq<char>>),
    id: Seq<char>,
) -> (k: int)
    requires
        server::is_wf(routes),
        forall|entry: (Seq<char>, RouteModel)| (#[trigger] named(entry)).0 == entry.0,
        table::get(routes, id) matches Some(route) && picked((id, route)),
    ensures
        ({
            let due = routes.filter(picked).map_values(named);
            &&& 0 <= k < due.len()
            &&& due[k] == named((id, table::get(routes, id)->0))
            &&& forall|i: int, j: int|
                0 <= i < j < due.len() ==> (#[trigger] due[i]).0 != (#[trigger] due[j]).0
        }),
{
    let route = table::get(routes, id)->0;
    let chosen = routes.filter(picked);
    let due = chosen.map_values(named);
    table::lemma_filter(routes, picked, id);
    table::lemma_get_has(routes, id);
    let j = choose|j: int| 0 <= j < routes.len() && routes[j] == (id, route);
    routes.lemma_filter_contains(picked, j);
    let k = choose|k: int| 0 <= k < chosen.len() && chosen[k] == (id, route);
    assert forall|a: int, b: int| 0 <= a < b < due.len() implies (#[trigger] due[a]).0 != (
    #[trigger] due[b]).0 by {
        assert(due[a] == named(chosen[a]) && due[b] == named(chosen[b]));
        assert(chosen[a].0 != chosen[b].0);
    }
    assert(due[k] == named(chosen[k]));
    k
}

/// Whether a live session is over: the runtime that it began in is gone, or it has not been used
/// for five minutes, or for thirty seconds once it is ending.
pub open spec fn is_over(context: &ServerContext, route: RouteModel, now: u64) -> bool {
    !route.retired && (!runs(context, route.terminal_id, route.source) || now >= route.touched + (
    if route.finishing {
        30_000_000_000int
    } else {
        300_000_000_000int
    }))
}

/// An upkeep tells those concerned about every session that it retires: the pane that its session
/// has expired, unless the session was ending, and the client to cancel. Where no session is over
/// it tells nobody anything.
pub proof fn law_upkeep_tells_of_the_end(
    routes: Seq<(Seq<char>, RouteModel)>,
    context: &ServerContext,
    now: u64,
    clock: u64,
)
    requires
        server::is_wf(routes),
    ensures
        ({
            let actions = server::maintained(routes, context, now, clock).1;
            &&& forall|id: Seq<char>|
                (#[trigger] table::get(routes, id) matches Some(route) && is_over(
                    context,
                    route,
                    now,
                )) ==> {
                    let words = told(
                        context,
                        table::get(routes, id)->0,
                        id,
                        if (table::get(routes, id)->0).finishing {
                            None
                        } else {
                            Some("ETIMEDOUT:terminal transfer expired"@)
                        },
                    );
                    says_all(actions, words)
                }
            &&& (forall|i: int|
                0 <= i < routes.len() ==> !is_over(context, (#[trigger] routes[i]).1, now))
                ==> actions == Seq::<ActionModel>::empty()
        }),
{
    let due = server::expired_sessions(routes, context, now);
    let picked = |entry: (Seq<char>, RouteModel)| server::is_expired(entry.1, context, now);
    let named = |entry: (Seq<char>, RouteModel)|
        (
            entry.0,
            if entry.1.finishing {
                None
            } else {
                Some(server::EXPIRED_FAILURE@)
            },
        );
    let actions = server::maintained(routes, context, now, clock).1;
    assert(due == routes.filter(picked).map_values(named));
    assert forall|id: Seq<char>|
        (#[trigger] table::get(routes, id) matches Some(route) && is_over(
            context,
            route,
            now,
        )) implies {
        let words = told(
            context,
            table::get(routes, id)->0,
            id,
            if (table::get(routes, id)->0).finishing {
                None
            } else {
                Some("ETIMEDOUT:terminal transfer expired"@)
            },
        );
        says_all(actions, words)
    } by {
        let k = lemma_picked_at(routes, picked, named, id);
        lemma_each_is_told(routes, due, context, clock, k);
        assert(due[k].0 == id);
    }
    if forall|i: int| 0 <= i < routes.len() ==> !is_over(context, (#[trigger] routes[i]).1, now) {
        table::lemma_kept(routes, picked);
        let chosen = routes.filter(picked);
        if chosen.len() > 0 {
            assert(picked(chosen[0]) && routes.contains(chosen[0]));
            let j = choose|j: int| 0 <= j < routes.len() && routes[j] == chosen[0];
            assert(!is_over(context, routes[j].1, now));
        }
        assert(due.len() == 0);
    }
}

/// When a client goes away, its live sessions are retired at that moment, and their panes are told
/// so.
pub proof fn law_departure_is_told(
    routes: Seq<(Seq<char>, RouteModel)>,
    client_id: u64,
    context: &ServerContext,
    clock: u64,
    id: Seq<char>,
)
    requires
        server::is_wf(routes),
        table::get(routes, id) matches Some(route) && !route.retired && route.client_id
            == client_id,
    ensures
        ({
            let route = table::get(routes, id)->0;
            let (after, actions) = server::client_left(routes, client_id, context, clock);
            let words = told(
                context,
                route,
                id,
                Some("ENOTCONN:transfer client disconnected"@),
            );
            &&& says_all(actions, words)
            &&& table::get(after, id) == Some(
                RouteModel { retired: true, touched: clock, ..route },
            )
        }),
{
    let due = server::sessions_of_client(routes, client_id);
    let picked = |entry: (Seq<char>, RouteModel)|
        entry.1.client_id == client_id && !entry.1.retired;
    let named = |entry: (Seq<char>, RouteModel)| (entry.0, Some(server::DISCONNECTED_FAILURE@));
    assert(due == routes.filter(picked).map_values(named));
    let k = lemma_picked_at(routes, picked, named, id);
    lemma_each_is_told(routes, due, context, clock, k);
    assert(due[k] == (id, Some(server::DISCONNECTED_FAILURE@)));
    server_laws::lemma_retired_each(routes, due, context, clock, id);
    assert(due[k].0 == id);
}

/// What each refusal is called, and how it is put.
pub proof fn law_refusals_are_named(refusal: TransferRefusal)
    ensures
        (refusal.code_text(), refusal.message_text()) == (match refusal {
            TransferRefusal::SessionUnavailable => (
                "transfer_unavailable"@,
                "transfer session is unavailable"@,
            ),
            TransferRefusal::ForeignSession => (
                "stale_transfer"@,
                "transfer session belongs to another terminal or client"@,
            ),
            TransferRefusal::RuntimeReplaced => (
                "stale_transfer"@,
                "terminal runtime was replaced"@,
            ),
            TransferRefusal::ReplyTooLarge => (
                "invalid_transfer"@,
                "transfer response is too large"@,
            ),
            TransferRefusal::ReplyNotBase64 => (
                "invalid_transfer"@,
                "transfer response is not base64"@,
            ),
            TransferRefusal::ReplyMismatch => (
                "invalid_transfer"@,
                "expected one matching OSC 5113 response"@,
            ),
            TransferRefusal::InputQueueFull => (
                "transfer_backpressure"@,
                "terminal input queue is full"@,
            ),
            TransferRefusal::MessageTooLarge => (
                "invalid_transfer"@,
                "cancellation message is too large"@,
            ),
        }),
{
}

/// A request, the outcome of a reply and the outcome of a command each concern one session, and
/// leave every other one as it is.
pub proof fn law_steps_concern_one_session(
    routes: Seq<(Seq<char>, RouteModel)>,
    client_id: u64,
    operation: OperationModel,
    id: Seq<char>,
    flag: bool,
    accepted: bool,
    context: &ServerContext,
    clock: u64,
    other: Seq<char>,
)
    requires
        server::is_wf(routes),
        other != id,
        match operation {
            OperationModel::Reply { session_id, .. } => session_id == id,
            OperationModel::Cancel { session_id, .. } => session_id == id,
        },
    ensures
        table::get(
            server::request_received(routes, client_id, operation, context, clock).0,
            other,
        ) == table::get(routes, other),
        table::get(
            server::injection_settled(routes, id, flag, accepted, context, clock).0,
            other,
        ) == table::get(routes, other),
        table::get(
            server::delivery_settled(routes, id, accepted, context, clock).0,
            other,
        ) == table::get(routes, other),
{
    assert forall|error: Option<Seq<char>>|
        table::get(
            (#[trigger] server::retired(routes, id, error, context, clock)).0,
            other,
        ) == table::get(routes, other) by {
        server_laws::lemma_retired_keeps(routes, id, error, context, clock, other);
    }
    if let Some(route) = table::get(routes, id) {
        table::lemma_put(routes, id, RouteModel { touched: clock, ..route }, other);
    }
}

} // verus!
