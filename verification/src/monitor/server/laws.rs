use crate::monitor::server::client::{
    client_step, fresh_client, ClientInput, ClientPhase, ClientState,
};
use crate::monitor::server::{
    failure_report, free_slot, fresh_server, server_run, server_step, stop_reports, ErrorView,
    ServerInput, ServerPhase, ServerState,
};
use crate::monitor::status::Status;
use crate::reporters::{
    lemma_occurrences_absent, lemma_occurrences_concat, lemma_occurrences_single, occurrences,
    EventView,
};
use crate::utils::IoFailureView;
use vstd::prelude::*;

verus! {

/// Whether `state` is a state that a server can be in: its handlers were accepted
/// on its port and know their peer; a server that never listened has none; and
/// no handler outlives its server.
pub open spec fn server_wf(state: ServerState) -> bool {
    &&& state.phase == ServerPhase::Created ==> state.clients.len() == 0
    &&& state.phase == ServerPhase::Finished ==> forall|i: int|
        0 <= i < state.clients.len() ==> (#[trigger] state.clients[i]).phase
            == ClientPhase::Finished
    &&& forall|i: int|
        0 <= i < state.clients.len() ==> (#[trigger] state.clients[i]).port == state.port
            && state.clients[i].phase != ClientPhase::Created
}

/// The first free place of a table is a place of the table or its length; it is
/// free where it is a place, and no place before it is.
pub proof fn lemma_free_slot_is_first(clients: Seq<ClientState>)
    ensures
        free_slot(clients) <= clients.len(),
        free_slot(clients) < clients.len() ==> clients[free_slot(clients) as int].phase
            == ClientPhase::Finished,
        forall|j: int|
            0 <= j < free_slot(clients) ==> (#[trigger] clients[j]).phase != ClientPhase::Finished,
    decreases clients.len(),
{
    if clients.len() > 0 && clients[0].phase != ClientPhase::Finished {
        let rest = clients.skip(1);
        lemma_free_slot_is_first(rest);
        assert forall|j: int| 0 <= j < free_slot(clients) implies (#[trigger] clients[j]).phase
            != ClientPhase::Finished by {
            if j > 0 {
                assert(rest[j - 1] == clients[j]);
            }
        }
        if free_slot(clients) < clients.len() {
            assert(rest[free_slot(rest) as int] == clients[free_slot(clients) as int]);
        }
    }
}

/// Whatever comes, a server keeps its port and stays a server: every state that a
/// server reaches is one that `server_wf` accepts.
pub proof fn lemma_server_step_preserves_wf(state: ServerState, input: ServerInput)
    requires
        server_wf(state),
    ensures
        server_wf(server_step(state, input).state),
        server_step(state, input).state.port == state.port,
        state.phase == ServerPhase::Finished ==> server_step(state, input).state == state,
{
    let after = server_step(state, input).state;
    if state.phase == ServerPhase::Listening {
        match input {
            ServerInput::Accepted(peer) => {
                lemma_free_slot_is_first(state.clients);
            },
            ServerInput::Stop => {
                assert forall|i: int| 0 <= i < after.clients.len() implies (
                #[trigger] after.clients[i]).phase == ClientPhase::Finished
                    && after.clients[i].port == state.port by {
                    assert(state.clients[i].port == state.port);
                }
            },
            _ => {},
        }
    }
}

/// A connection that is accepted by a listening server and whose peer is known is
/// reported, gets the first free place of the table, and displaces no handler
/// that still reads.
pub proof fn lemma_accept_keeps_connections(state: ServerState, peer: u16)
    requires
        server_wf(state),
        state.phase == ServerPhase::Listening,
    ensures
        ({
            let answer = server_step(state, ServerInput::Accepted(Ok(peer)));
            let slot = free_slot(state.clients) as int;
            &&& answer.events == seq![
                EventView::ClientConnected { id: peer as usize, port: state.port },
            ]
            &&& answer.conn == Some(slot as usize)
            &&& answer.state.clients[slot].phase == ClientPhase::Reading
            &&& answer.state.clients[slot].id == peer as usize
            &&& forall|j: int|
                0 <= j < state.clients.len() && (#[trigger] state.clients[j]).phase
                    == ClientPhase::Reading ==> j != slot && answer.state.clients[j]
                    == state.clients[j]
        }),
{
    lemma_free_slot_is_first(state.clients);
    let step = client_step(fresh_client(state.port), ClientInput::Peer(Ok(peer)));
    assert(step.events + failure_report(step.status) =~= step.events);
}

/// The number of handlers of `clients` that read.
pub open spec fn live_count(clients: Seq<ClientState>) -> nat
    decreases clients.len(),
{
    if clients.len() == 0 {
        0
    } else {
        live_count(clients.drop_last()) + if clients.last().phase == ClientPhase::Reading {
            1nat
        } else {
            0nat
        }
    }
}

/// Whether `event` reports the disconnection of a handler of `clients` that reads.
pub open spec fn disconnects_one_of(clients: Seq<ClientState>, event: EventView) -> bool {
    exists|j: int|
        0 <= j < clients.len() && (#[trigger] clients[j]).phase == ClientPhase::Reading && event
            == (EventView::ClientDisconnected { id: clients[j].id })
}

/// What the handlers of a table report when they are stopped: one disconnection
/// for each handler that reads, under that handler's identifier, and nothing else.
pub proof fn lemma_stop_reports(clients: Seq<ClientState>)
    requires
        forall|i: int|
            0 <= i < clients.len() ==> (#[trigger] clients[i]).phase != ClientPhase::Created,
    ensures
        stop_reports(clients).len() == live_count(clients),
        forall|k: int|
            0 <= k < stop_reports(clients).len() ==> disconnects_one_of(
                clients,
                #[trigger] stop_reports(clients)[k],
            ),
        forall|j: int|
            0 <= j < clients.len() && (#[trigger] clients[j]).phase == ClientPhase::Reading
                ==> stop_reports(clients).contains(
                EventView::ClientDisconnected { id: clients[j].id },
            ),
    decreases clients.len(),
{
    if clients.len() > 0 {
        let front = clients.drop_last();
        let last = clients.last();
        lemma_stop_reports(front);
        let reports = stop_reports(clients);
        let before = stop_reports(front);
        let added = client_step(last, ClientInput::Stop).events;
        assert(reports == before + added);
        assert forall|k: int| 0 <= k < reports.len() implies disconnects_one_of(
            clients,
            #[trigger] reports[k],
        ) by {
            if k < before.len() {
                assert(disconnects_one_of(front, before[k]));
                let j = choose|j: int|
                    0 <= j < front.len() && (#[trigger] front[j]).phase == ClientPhase::Reading
                        && before[k] == (EventView::ClientDisconnected { id: front[j].id });
                assert(clients[j] == front[j]);
            } else {
                assert(clients[clients.len() - 1] == last);
            }
        }
        assert forall|j: int|
            0 <= j < clients.len() && (#[trigger] clients[j]).phase
                == ClientPhase::Reading implies reports.contains(
            EventView::ClientDisconnected { id: clients[j].id },
        ) by {
            if j < front.len() {
                assert(front[j] == clients[j]);
                let wanted = EventView::ClientDisconnected { id: clients[j].id };
                let k = choose|k: int| 0 <= k < before.len() && before[k] == wanted;
                assert(reports[k] == wanted);
            } else {
                assert(reports[before.len() as int] == added[0]);
            }
        }
    }
}

/// How a listening server stops. It reports that it is stopping first and that it
/// stopped last, each once; between the two stands one disconnection for each
/// handler that still read, and nothing else; afterwards the server and all its
/// handlers are done.
pub proof fn lemma_server_stop(state: ServerState)
    requires
        server_wf(state),
        state.phase == ServerPhase::Listening,
    ensures
        ({
            let answer = server_step(state, ServerInput::Stop);
            let between = stop_reports(state.clients);
            &&& answer.events == seq![EventView::ServerStopping { port: state.port }] + between
                + seq![EventView::ServerStopped { port: state.port }]
            &&& answer.events.len() == live_count(state.clients) + 2
            &&& forall|k: int|
                0 <= k < between.len() ==> disconnects_one_of(state.clients, #[trigger] between[k])
            &&& forall|j: int|
                0 <= j < state.clients.len() && (#[trigger] state.clients[j]).phase
                    == ClientPhase::Reading ==> between.contains(
                    EventView::ClientDisconnected { id: state.clients[j].id },
                )
            &&& answer.state.phase == ServerPhase::Finished
            &&& server_wf(answer.state)
            &&& answer.status == Status::<ErrorView>::Finished(Ok(()))
        }),
{
    lemma_stop_reports(state.clients);
    lemma_server_step_preserves_wf(state, ServerInput::Stop);
}

/// How often a server reports, when it is told to stop, that the server of `port`
/// is stopping, and how often that it stopped: once each if it is that server and
/// listens, and never else.
pub proof fn lemma_server_stop_pair(state: ServerState, port: u16)
    requires
        server_wf(state),
    ensures
        ({
            let events = server_step(state, ServerInput::Stop).events;
            let once = if state.phase == ServerPhase::Listening && state.port == port {
                1nat
            } else {
                0nat
            };
            &&& occurrences(events, EventView::ServerStopping { port }) == once
            &&& occurrences(events, EventView::ServerStopped { port }) == once
        }),
{
    let events = server_step(state, ServerInput::Stop).events;
    let stopping = EventView::ServerStopping { port };
    let stopped = EventView::ServerStopped { port };
    if state.phase == ServerPhase::Listening {
        lemma_server_stop(state);
        let between = stop_reports(state.clients);
        let first = seq![EventView::ServerStopping { port: state.port }];
        let last = seq![EventView::ServerStopped { port: state.port }];
        lemma_occurrences_absent(between, stopping);
        lemma_occurrences_absent(between, stopped);
        lemma_occurrences_single(first[0], stopping);
        lemma_occurrences_single(first[0], stopped);
        lemma_occurrences_single(last[0], stopping);
        lemma_occurrences_single(last[0], stopped);
        assert(first =~= seq![first[0]]);
        assert(last =~= seq![last[0]]);
        lemma_occurrences_concat(first, between, stopping);
        lemma_occurrences_concat(first, between, stopped);
        lemma_occurrences_concat(first + between, last, stopping);
        lemma_occurrences_concat(first + between, last, stopped);
    } else {
        assert(events =~= Seq::<EventView>::empty());
    }
}

/// Whether the report `event` belongs to an unwinding: it says that the monitor
/// or a server is stopping or stopped.
pub open spec fn is_unwinding(event: EventView) -> bool {
    event is Stopping || event is Stopped || event is ServerStopping || event is ServerStopped
}

/// A server that is not told to stop reports nothing of an unwinding.
pub proof fn lemma_server_is_quiet(state: ServerState, input: ServerInput)
    requires
        !(input is Stop),
    ensures
        forall|k: int|
            0 <= k < server_step(state, input).events.len() ==> !is_unwinding(
                #[trigger] server_step(state, input).events[k],
            ),
{
}

/// What happens to one connection stays with that connection. When a read returns
/// on the connection at place `conn` of a listening server, the server reports
/// what the handler at that place reports and, if the handler failed, its failure;
/// the handler at that place is afterwards what its own rule makes of the read;
/// every other handler is as it was; and the server listens on and goes on.
pub proof fn lemma_read_is_local(
    state: ServerState,
    conn: usize,
    read: Result<Seq<u8>, IoFailureView>,
)
    requires
        state.phase == ServerPhase::Listening,
        conn < state.clients.len(),
    ensures
        ({
            let answer = server_step(state, ServerInput::Read { conn, read });
            let handled = client_step(state.clients[conn as int], ClientInput::Read(read));
            &&& answer.events == handled.events + failure_report(handled.status)
            &&& answer.state.clients.len() == state.clients.len()
            &&& answer.state.clients[conn as int] == handled.state
            &&& forall|j: int|
                0 <= j < state.clients.len() && j != conn ==> (#[trigger] answer.state.clients[j])
                    == state.clients[j]
            &&& answer.state.phase == ServerPhase::Listening
            &&& answer.status is Pending
        }),
{
}

/// Handlers that are told to stop report disconnections, and nothing else.
pub proof fn lemma_stop_reports_are_disconnections(clients: Seq<ClientState>)
    ensures
        forall|k: int|
            0 <= k < stop_reports(clients).len() ==> #[trigger] stop_reports(clients)[k]
                is ClientDisconnected,
    decreases clients.len(),
{
    if clients.len() > 0 {
        lemma_stop_reports_are_disconnections(clients.drop_last());
        let lead = stop_reports(clients.drop_last());
        let all = stop_reports(clients);
        assert forall|k: int| 0 <= k < all.len() implies #[trigger] all[k]
            is ClientDisconnected by {
            if k < lead.len() {
                assert(all[k] == lead[k]);
            }
        }
    }
}

/// Whether `input` makes a server in `state` begin to listen: it has not listened
/// yet and is told that it listens now.
pub open spec fn begins_to_listen(state: ServerState, input: ServerInput) -> bool {
    state.phase == ServerPhase::Created && match input {
        ServerInput::Bound(Ok(_)) => true,
        _ => false,
    }
}

/// How often a server that is given `input` reports that the server of `port`
/// started: once if it is that server, has not listened yet and is told that it
/// listens now, and never else.
pub proof fn lemma_server_start_count(state: ServerState, input: ServerInput, port: u16)
    ensures
        occurrences(server_step(state, input).events, EventView::ServerStarted { port })
            == if begins_to_listen(state, input) && state.port == port {
            1nat
        } else {
            0nat
        },
{
    let events = server_step(state, input).events;
    let started = EventView::ServerStarted { port };
    match state.phase {
        ServerPhase::Created => {
            match input {
                ServerInput::Bound(Ok(_)) => {
                    assert(events =~= seq![EventView::ServerStarted { port: state.port }]);
                    lemma_occurrences_single(
                        EventView::ServerStarted { port: state.port },
                        started,
                    );
                },
                ServerInput::Bound(Err(cause)) => {
                    assert(events.len() == 1);
                    assert(events[0] is Error);
                    lemma_occurrences_absent(events, started);
                },
                _ => {
                    assert(events.len() == 0);
                    lemma_occurrences_absent(events, started);
                },
            }
        },
        ServerPhase::Listening => {
            match input {
                ServerInput::Stop => {
                    lemma_stop_reports_are_disconnections(state.clients);
                    let between = stop_reports(state.clients);
                    assert forall|k: int| 0 <= k < events.len() implies #[trigger] events[k]
                        != started by {
                        if 0 < k < events.len() - 1 {
                            assert(events[k] == between[k - 1]);
                        }
                    }
                },
                ServerInput::Accepted(peer) => {
                    let step = client_step(fresh_client(state.port), ClientInput::Peer(peer));
                    lemma_passed_reports_start_nothing(step.events, step.status, started);
                },
                ServerInput::Read { conn, read } => {
                    if conn < state.clients.len() {
                        let step = client_step(state.clients[conn as int], ClientInput::Read(read));
                        lemma_passed_reports_start_nothing(step.events, step.status, started);
                    } else {
                        assert(events.len() == 0);
                    }
                },
                ServerInput::AcceptFailed(cause) => {
                    if !cause.kind.spec_is_timeout() {
                        assert(events.len() == 1);
                        assert(events[0] is Error);
                    } else {
                        assert(events.len() == 0);
                    }
                },
                ServerInput::Bound(_) => {
                    assert(events.len() == 0);
                },
            }
            lemma_occurrences_absent(events, started);
        },
        ServerPhase::Finished => {
            assert(events.len() == 0);
            lemma_occurrences_absent(events, started);
        },
    }
}

/// What a server passes on of a handler's answer holds no report of a server.
proof fn lemma_passed_reports_start_nothing(
    events: Seq<EventView>,
    status: Status<crate::monitor::server::client::ErrorView>,
    started: EventView,
)
    requires
        started is ServerStarted,
        forall|k: int| 0 <= k < events.len() ==> !(#[trigger] events[k] is ServerStarted),
    ensures
        forall|k: int|
            0 <= k < (events + failure_report(status)).len() ==> (#[trigger] (events
                + failure_report(status))[k]) != started,
{
    let all = events + failure_report(status);
    assert forall|k: int| 0 <= k < all.len() implies (#[trigger] all[k]) != started by {
        if k < events.len() {
            assert(all[k] == events[k]);
        } else {
            assert(all[k] == failure_report(status)[k - events.len()]);
        }
    }
}

/// One if `handler` reads under the identifier `id`, and zero if not.
pub open spec fn reads_as(handler: ClientState, id: usize) -> nat {
    if handler.phase == ClientPhase::Reading && handler.id == id {
        1
    } else {
        0
    }
}

/// The number of handlers of `clients` that read under the identifier `id`.
pub open spec fn live_with(clients: Seq<ClientState>, id: usize) -> nat
    decreases clients.len(),
{
    if clients.len() == 0 {
        0
    } else {
        live_with(clients.drop_last(), id) + reads_as(clients.last(), id)
    }
}

/// How often `events` report that a connection known as `id` was accepted on `port`.
pub open spec fn connected_count(events: Seq<EventView>, id: usize, port: u16) -> nat {
    occurrences(events, EventView::ClientConnected { id, port })
}

/// How often `events` report that a connection known as `id` is over.
pub open spec fn disconnected_count(events: Seq<EventView>, id: usize) -> nat {
    occurrences(events, EventView::ClientDisconnected { id })
}

/// A handler more in the table is a reader more under its identifier, if it reads.
pub proof fn lemma_live_with_push(clients: Seq<ClientState>, handler: ClientState, id: usize)
    ensures
        live_with(clients.push(handler), id) == live_with(clients, id) + reads_as(handler, id),
{
    assert(clients.push(handler).drop_last() =~= clients);
}

/// Another handler at a place of the table counts in place of the one that was
/// there.
pub proof fn lemma_live_with_update(
    clients: Seq<ClientState>,
    slot: int,
    handler: ClientState,
    id: usize,
)
    requires
        0 <= slot < clients.len(),
    ensures
        live_with(clients.update(slot, handler), id) + reads_as(clients[slot], id) == live_with(
            clients,
            id,
        ) + reads_as(handler, id),
    decreases clients.len(),
{
    let updated = clients.update(slot, handler);
    if slot == clients.len() - 1 {
        assert(updated.drop_last() =~= clients.drop_last());
    } else {
        lemma_live_with_update(clients.drop_last(), slot, handler, id);
        assert(updated.drop_last() =~= clients.drop_last().update(slot, handler));
    }
}

/// Where every handler is done, none reads.
pub proof fn lemma_no_reader_is_left(clients: Seq<ClientState>, id: usize)
    requires
        forall|i: int|
            0 <= i < clients.len() ==> (#[trigger] clients[i]).phase != ClientPhase::Reading,
    ensures
        live_with(clients, id) == 0,
    decreases clients.len(),
{
    if clients.len() > 0 {
        let front = clients.drop_last();
        assert forall|i: int| 0 <= i < front.len() implies (#[trigger] front[i]).phase
            != ClientPhase::Reading by {
            assert(front[i] == clients[i]);
        }
        lemma_no_reader_is_left(front, id);
        assert(clients[clients.len() - 1].phase != ClientPhase::Reading);
    }
}

/// Handlers that are told to stop report the disconnection of `id` once for each
/// of them that read under `id`.
pub proof fn lemma_stop_reports_count(clients: Seq<ClientState>, id: usize)
    ensures
        disconnected_count(stop_reports(clients), id) == live_with(clients, id),
    decreases clients.len(),
{
    if clients.len() > 0 {
        let last = clients.last();
        let own = client_step(last, ClientInput::Stop).events;
        lemma_stop_reports_count(clients.drop_last(), id);
        lemma_occurrences_concat(
            stop_reports(clients.drop_last()),
            own,
            EventView::ClientDisconnected { id },
        );
        if last.phase == ClientPhase::Reading {
            assert(own =~= seq![EventView::ClientDisconnected { id: last.id }]);
            lemma_occurrences_single(
                EventView::ClientDisconnected { id: last.id },
                EventView::ClientDisconnected { id },
            );
        } else {
            assert(own.len() == 0);
            lemma_occurrences_absent(own, EventView::ClientDisconnected { id });
        }
    }
}

/// What a server adds to a handler's reports tells of no connection: with it or
/// without it, connections and disconnections are reported equally often.
proof fn lemma_failure_report_counts_nothing(
    events: Seq<EventView>,
    status: Status<crate::monitor::server::client::ErrorView>,
    event: EventView,
)
    requires
        !(event is Error),
    ensures
        occurrences(events + failure_report(status), event) == occurrences(events, event),
{
    let added = failure_report(status);
    assert forall|k: int| 0 <= k < added.len() implies #[trigger] added[k] != event by {
        assert(added[k] is Error);
    }
    lemma_occurrences_absent(added, event);
    lemma_occurrences_concat(events, added, event);
}

/// What one input does to the connections known as `id`, for a handler's rule: the
/// handler reports the connection when it begins to read under `id`, and the
/// disconnection when it ceases to.
proof fn lemma_client_step_balances(
    handler: ClientState,
    input: ClientInput,
    id: usize,
)
    ensures
        ({
            let step = client_step(handler, input);
            &&& connected_count(step.events, id, handler.port) + reads_as(handler, id)
                == disconnected_count(step.events, id) + reads_as(step.state, id)
            &&& step.state.port == handler.port
        }),
{
    let step = client_step(handler, input);
    let connected = EventView::ClientConnected { id, port: handler.port };
    let disconnected = EventView::ClientDisconnected { id };
    if step.events.len() == 0 {
        lemma_occurrences_absent(step.events, connected);
        lemma_occurrences_absent(step.events, disconnected);
    } else {
        assert(step.events =~= seq![step.events[0]]);
        lemma_occurrences_single(step.events[0], connected);
        lemma_occurrences_single(step.events[0], disconnected);
    }
}

/// What one input does to the connections known as `id`, for a server's rule.
/// Whatever comes: the connections under `id` that the server reports as accepted,
/// together with its handlers that read under `id` before, are as many as the
/// disconnections of `id` that it reports, together with its handlers that read
/// under `id` afterwards.
pub proof fn lemma_server_step_balances(state: ServerState, input: ServerInput, id: usize)
    requires
        server_wf(state),
    ensures
        ({
            let answer = server_step(state, input);
            connected_count(answer.events, id, state.port) + live_with(state.clients, id)
                == disconnected_count(answer.events, id) + live_with(answer.state.clients, id)
        }),
{
    let answer = server_step(state, input);
    let connected = EventView::ClientConnected { id, port: state.port };
    let disconnected = EventView::ClientDisconnected { id };
    match state.phase {
        ServerPhase::Listening => {
            match input {
                ServerInput::Accepted(peer) => {
                    let fresh = fresh_client(state.port);
                    let step = client_step(fresh, ClientInput::Peer(peer));
                    lemma_client_step_balances(fresh, ClientInput::Peer(peer), id);
                    lemma_failure_report_counts_nothing(step.events, step.status, connected);
                    lemma_failure_report_counts_nothing(step.events, step.status, disconnected);
                    if step.state.phase == ClientPhase::Reading {
                        lemma_free_slot_is_first(state.clients);
                        let slot = free_slot(state.clients) as int;
                        if slot < state.clients.len() {
                            lemma_live_with_update(state.clients, slot, step.state, id);
                        } else {
                            lemma_live_with_push(state.clients, step.state, id);
                        }
                    }
                },
                ServerInput::Read { conn, read } => {
                    if conn < state.clients.len() {
                        let handler = state.clients[conn as int];
                        let step = client_step(handler, ClientInput::Read(read));
                        assert(handler.port == state.port);
                        lemma_client_step_balances(handler, ClientInput::Read(read), id);
                        lemma_failure_report_counts_nothing(step.events, step.status, connected);
                        lemma_failure_report_counts_nothing(
                            step.events,
                            step.status,
                            disconnected,
                        );
                        lemma_live_with_update(state.clients, conn as int, step.state, id);
                    } else {
                        lemma_occurrences_absent(answer.events, connected);
                        lemma_occurrences_absent(answer.events, disconnected);
                    }
                },
                ServerInput::Stop => {
                    let between = stop_reports(state.clients);
                    let first = seq![EventView::ServerStopping { port: state.port }];
                    let last = seq![EventView::ServerStopped { port: state.port }];
                    lemma_stop_reports_count(state.clients, id);
                    lemma_stop_reports_are_disconnections(state.clients);
                    lemma_occurrences_absent(between, connected);
                    lemma_occurrences_single(first[0], connected);
                    lemma_occurrences_single(first[0], disconnected);
                    lemma_occurrences_single(last[0], connected);
                    lemma_occurrences_single(last[0], disconnected);
                    assert(first =~= seq![first[0]]);
                    assert(last =~= seq![last[0]]);
                    lemma_occurrences_concat(first, between, connected);
                    lemma_occurrences_concat(first, between, disconnected);
                    lemma_occurrences_concat(first + between, last, connected);
                    lemma_occurrences_concat(first + between, last, disconnected);
                    lemma_server_step_preserves_wf(state, input);
                    assert forall|i: int| 0 <= i < answer.state.clients.len() implies (
                    #[trigger] answer.state.clients[i]).phase != ClientPhase::Reading by {}
                    lemma_no_reader_is_left(answer.state.clients, id);
                },
                ServerInput::AcceptFailed(cause) => {
                    if cause.kind.spec_is_timeout() {
                        lemma_occurrences_absent(answer.events, connected);
                        lemma_occurrences_absent(answer.events, disconnected);
                    } else {
                        assert(answer.events =~= seq![answer.events[0]]);
                        lemma_occurrences_single(answer.events[0], connected);
                        lemma_occurrences_single(answer.events[0], disconnected);
                    }
                },
                ServerInput::Bound(_) => {
                    lemma_occurrences_absent(answer.events, connected);
                    lemma_occurrences_absent(answer.events, disconnected);
                },
            }
        },
        ServerPhase::Created => {
            if answer.events.len() == 0 {
                lemma_occurrences_absent(answer.events, connected);
                lemma_occurrences_absent(answer.events, disconnected);
            } else {
                assert(answer.events =~= seq![answer.events[0]]);
                lemma_occurrences_single(answer.events[0], connected);
                lemma_occurrences_single(answer.events[0], disconnected);
            }
        },
        ServerPhase::Finished => {
            lemma_occurrences_absent(answer.events, connected);
            lemma_occurrences_absent(answer.events, disconnected);
        },
    }
}

/// What a whole run of a server does to the connections known as `id`. Whatever
/// the server is given, and in whatever order: the connections under `id` that it
/// reported as accepted, together with its handlers that read under `id` before
/// the run, are as many as the disconnections of `id` that it reported, together
/// with its handlers that read under `id` after it.
pub proof fn lemma_server_run_balances(state: ServerState, inputs: Seq<ServerInput>, id: usize)
    requires
        server_wf(state),
    ensures
        ({
            let run = server_run(state, inputs);
            &&& server_wf(run.state)
            &&& run.state.port == state.port
            &&& connected_count(run.events, id, state.port) + live_with(state.clients, id)
                == disconnected_count(run.events, id) + live_with(run.state.clients, id)
        }),
    decreases inputs.len(),
{
    let connected = EventView::ClientConnected { id, port: state.port };
    let disconnected = EventView::ClientDisconnected { id };
    if inputs.len() > 0 {
        let first = server_step(state, inputs[0]);
        lemma_server_step_preserves_wf(state, inputs[0]);
        lemma_server_step_balances(state, inputs[0], id);
        if first.status is Pending {
            let rest = server_run(first.state, inputs.skip(1));
            lemma_server_run_balances(first.state, inputs.skip(1), id);
            lemma_occurrences_concat(first.events, rest.events, connected);
            lemma_occurrences_concat(first.events, rest.events, disconnected);
        }
    } else {
        lemma_occurrences_absent(Seq::<EventView>::empty(), connected);
        lemma_occurrences_absent(Seq::<EventView>::empty(), disconnected);
    }
}

/// Every connection is followed by one disconnection. In a run of a new server
/// that is over, whatever it was given: for every identifier, the server reported
/// the disconnection of that identifier exactly as often as it reported a
/// connection under it.
pub proof fn lemma_every_connection_is_disconnected(
    port: u16,
    inputs: Seq<ServerInput>,
    id: usize,
)
    requires
        server_run(fresh_server(port), inputs).state.phase == ServerPhase::Finished,
    ensures
        connected_count(server_run(fresh_server(port), inputs).events, id, port)
            == disconnected_count(server_run(fresh_server(port), inputs).events, id),
{
    let state = fresh_server(port);
    lemma_server_run_balances(state, inputs, id);
    let run = server_run(state, inputs);
    assert forall|i: int| 0 <= i < run.state.clients.len() implies (
    #[trigger] run.state.clients[i]).phase != ClientPhase::Reading by {}
    lemma_no_reader_is_left(run.state.clients, id);
    lemma_no_reader_is_left(state.clients, id);
}

/// A handler that is the only one to read under its identifier: where the handler
/// at place `slot` reads and no other handler reads under the same identifier,
/// one handler reads under it.
pub proof fn lemma_one_reader(clients: Seq<ClientState>, slot: int)
    requires
        0 <= slot < clients.len(),
        clients[slot].phase == ClientPhase::Reading,
        forall|k: int|
            0 <= k < clients.len() && k != slot && (#[trigger] clients[k]).phase
                == ClientPhase::Reading ==> clients[k].id != clients[slot].id,
    ensures
        live_with(clients, clients[slot].id) == 1,
{
    let id = clients[slot].id;
    let done = ClientState { phase: ClientPhase::Finished, ..clients[slot] };
    let others = clients.update(slot, done);
    lemma_live_with_update(clients, slot, done, id);
    assert forall|i: int| 0 <= i < others.len() implies reads_as(#[trigger] others[i], id)
        == 0 by {
        if i != slot {
            assert(others[i] == clients[i]);
        }
    }
    lemma_no_reader_under(others, id);
}

/// Where no handler reads under `id`, the number of those that do is zero.
proof fn lemma_no_reader_under(clients: Seq<ClientState>, id: usize)
    requires
        forall|i: int| 0 <= i < clients.len() ==> reads_as(#[trigger] clients[i], id) == 0,
    ensures
        live_with(clients, id) == 0,
    decreases clients.len(),
{
    if clients.len() > 0 {
        let front = clients.drop_last();
        assert forall|i: int| 0 <= i < front.len() implies reads_as(#[trigger] front[i], id)
            == 0 by {
            assert(front[i] == clients[i]);
        }
        lemma_no_reader_under(front, id);
        assert(reads_as(clients[clients.len() - 1], id) == 0);
    }
}

/// How a listening server ends the connection of a handler that still reads. If
/// the handler at place `slot` is the only one to read under its identifier, the
/// server that is told to stop reports the disconnection of that identifier
/// exactly once, and it does so before it reports that it stopped, which is its
/// last report. (Two connections on one port can be known by the same identifier,
/// when their peers use the same port on different hosts; the server then
/// reports one disconnection for each.)
pub proof fn lemma_stop_disconnects_each_once(state: ServerState, slot: int)
    requires
        server_wf(state),
        state.phase == ServerPhase::Listening,
        0 <= slot < state.clients.len(),
        state.clients[slot].phase == ClientPhase::Reading,
        forall|k: int|
            0 <= k < state.clients.len() && k != slot && (#[trigger] state.clients[k]).phase
                == ClientPhase::Reading ==> state.clients[k].id != state.clients[slot].id,
    ensures
        ({
            let events = server_step(state, ServerInput::Stop).events;
            let gone = EventView::ClientDisconnected { id: state.clients[slot].id };
            &&& disconnected_count(events, state.clients[slot].id) == 1
            &&& events.last() == EventView::ServerStopped { port: state.port }
            &&& occurrences(events, EventView::ServerStopped { port: state.port }) == 1
            &&& exists|k: int| 0 <= k < events.len() - 1 && #[trigger] events[k] == gone
        }),
{
    let id = state.clients[slot].id;
    let events = server_step(state, ServerInput::Stop).events;
    let gone = EventView::ClientDisconnected { id };
    lemma_one_reader(state.clients, slot);
    lemma_server_step_balances(state, ServerInput::Stop, id);
    lemma_server_step_preserves_wf(state, ServerInput::Stop);
    let after = server_step(state, ServerInput::Stop).state;
    assert forall|i: int| 0 <= i < after.clients.len() implies (#[trigger] after.clients[i]).phase
        != ClientPhase::Reading by {}
    lemma_no_reader_is_left(after.clients, id);
    lemma_stop_reports_are_disconnections(state.clients);
    let between = stop_reports(state.clients);
    assert forall|k: int| 0 <= k < events.len() implies #[trigger] events[k]
        != (EventView::ClientConnected { id, port: state.port }) by {
        if 0 < k < events.len() - 1 {
            assert(events[k] == between[k - 1]);
        }
    }
    lemma_occurrences_absent(events, EventView::ClientConnected { id, port: state.port });
    lemma_server_stop_pair(state, state.port);
    lemma_stop_reports(state.clients);
    assert(between.contains(gone));
    let at = choose|k: int| 0 <= k < between.len() && between[k] == gone;
    assert(events[at + 1] == gone);
}

} // verus!
