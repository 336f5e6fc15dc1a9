use crate::monitor::server::client::{ClientPhase, ClientState};
use crate::monitor::server::laws::{
    is_unwinding, lemma_server_is_quiet, lemma_server_start_count,
    lemma_server_step_preserves_wf, lemma_server_stop, lemma_server_stop_pair,
    lemma_stop_reports_are_disconnections, server_wf,
};
use crate::monitor::server::{
    fresh_server, server_step, stop_reports, ErrorView, ServerInput, ServerPhase, ServerState,
};
use crate::monitor::status::Status;
use crate::monitor::{
    all_finished, all_stop_reports, fresh_monitor, monitor_answer, monitor_routes, monitor_run,
    monitor_step,
    planned_servers, port_count, run_result, MonitorInput, MonitorPhase, MonitorState,
};
use crate::reporters::{
    lemma_occurrences_absent, lemma_occurrences_concat, lemma_occurrences_single, occurrences,
    EventView,
};
use crate::utils::IoFailureView;
use vstd::prelude::*;

verus! {

/// Whether `state` is a state that a monitor can be in. Before it starts, a monitor
/// has no server. From then on it has exactly one server for each port of its
/// range, in rising order, and each is a server that `server_wf` accepts; while
/// it runs, one of them is not done; and no server outlives the run.
pub open spec fn monitor_wf(state: MonitorState) -> bool {
    &&& state.phase == MonitorPhase::Created ==> state.servers.len() == 0 && state.failure is None
    &&& state.phase != MonitorPhase::Created ==> state.servers.len() == port_count(
        state.start,
        state.end,
    )
    &&& forall|i: int|
        0 <= i < state.servers.len() ==> (#[trigger] state.servers[i]).port == state.start + i
            && server_wf(state.servers[i])
    &&& state.phase == MonitorPhase::Running ==> !all_finished(state.servers)
    &&& state.phase == MonitorPhase::Finished ==> all_finished(state.servers) && state.failure
        is None
}

/// The input that tells a monitor what `input` tells the server of `port`, if
/// there is one: telling a single server to stop has none.
pub open spec fn addressed(port: u16, input: ServerInput) -> Option<MonitorInput> {
    match input {
        ServerInput::Bound(bound) => Some(MonitorInput::Bound { port, bound }),
        ServerInput::Accepted(peer) => Some(MonitorInput::Accepted { port, peer }),
        ServerInput::AcceptFailed(cause) => Some(MonitorInput::AcceptFailed { port, cause }),
        ServerInput::Read { conn, read } => Some(MonitorInput::Read { port, conn, read }),
        ServerInput::Stop => None,
    }
}

/// One server for each port of the range: as many servers as ports, the server at
/// place `i` for the port `start + i`, so that no port of the range is left out,
/// none outside it is served, and none is served twice.
pub proof fn lemma_one_server_per_port(start: u16, end: u16)
    requires
        start <= end,
    ensures
        planned_servers(start, end).len() == end - start + 1,
        forall|port: u16|
            start <= port <= end ==> (#[trigger] planned_servers(start, end)[port - start])
                == fresh_server(port),
        forall|i: int|
            0 <= i < planned_servers(start, end).len() ==> start <= (#[trigger] planned_servers(
                start,
                end,
            )[i]).port <= end,
        forall|i: int, j: int|
            0 <= i < j < planned_servers(start, end).len() ==> (#[trigger] planned_servers(
                start,
                end,
            )[i]).port != (#[trigger] planned_servers(start, end)[j]).port,
{
}

/// A monitor that starts has exactly the servers of its range, is a monitor that
/// `monitor_wf` accepts, and reports that it started before anything else.
pub proof fn lemma_start_sets_up_servers(start: u16, end: u16)
    ensures
        ({
            let answer = monitor_step(fresh_monitor(start, end), MonitorInput::Start);
            &&& monitor_wf(fresh_monitor(start, end))
            &&& monitor_wf(answer.state)
            &&& answer.events[0] == EventView::Started
            &&& start <= end ==> answer.state.servers == planned_servers(start, end)
                && answer.state.phase == MonitorPhase::Running && answer.events == seq![
                EventView::Started,
            ]
        }),
{
    let answer = monitor_step(fresh_monitor(start, end), MonitorInput::Start);
    if start <= end {
        assert(planned_servers(start, end)[0].phase != ServerPhase::Finished);
    }
}

/// Whatever comes, a monitor stays a monitor: its range never changes, and from
/// its start on neither do the number of its servers nor their ports.
pub proof fn lemma_monitor_step_preserves_wf(state: MonitorState, input: MonitorInput)
    requires
        monitor_wf(state),
    ensures
        ({
            let after = monitor_step(state, input).state;
            &&& monitor_wf(after)
            &&& after.start == state.start
            &&& after.end == state.end
            &&& state.phase != MonitorPhase::Created ==> after.servers.len() == state.servers.len()
            &&& state.phase == MonitorPhase::Finished ==> after == state
        }),
{
    let after = monitor_step(state, input).state;
    match state.phase {
        MonitorPhase::Created => {
            lemma_start_sets_up_servers(state.start, state.end);
            if input is Start && state.start <= state.end {
                assert(planned_servers(state.start, state.end)[0].phase != ServerPhase::Finished);
            }
        },
        MonitorPhase::Running => {
            match input {
                MonitorInput::Start => {},
                MonitorInput::Stop => {
                    assert forall|i: int| 0 <= i < after.servers.len() implies (
                    #[trigger] after.servers[i]).port == state.start + i && server_wf(
                        after.servers[i],
                    ) && after.servers[i].phase == ServerPhase::Finished by {
                        assert(server_wf(state.servers[i]));
                        lemma_server_step_preserves_wf(state.servers[i], ServerInput::Stop);
                    }
                },
                MonitorInput::Bound { port, bound } => {
                    lemma_routing_preserves_wf(state, port, ServerInput::Bound(bound));
                },
                MonitorInput::Accepted { port, peer } => {
                    lemma_routing_preserves_wf(state, port, ServerInput::Accepted(peer));
                },
                MonitorInput::AcceptFailed { port, cause } => {
                    lemma_routing_preserves_wf(state, port, ServerInput::AcceptFailed(cause));
                },
                MonitorInput::Read { port, conn, read } => {
                    lemma_routing_preserves_wf(state, port, ServerInput::Read { conn, read });
                },
            }
        },
        MonitorPhase::Finished => {},
    }
}

/// What goes to one server leaves a running monitor a monitor.
proof fn lemma_routing_preserves_wf(state: MonitorState, port: u16, input: ServerInput)
    requires
        monitor_wf(state),
        state.phase == MonitorPhase::Running,
        !(input is Stop),
    ensures
        monitor_wf(monitor_routes(state, port, input).state),
        monitor_routes(state, port, input).state.servers.len() == state.servers.len(),
{
    if state.start <= port <= state.end && port - state.start < state.servers.len() {
        let index = port - state.start;
        let before = state.servers[index];
        assert(server_wf(before));
        lemma_server_step_preserves_wf(before, input);
        let step = server_step(before, input);
        let servers = state.servers.update(index, step.state);
        let after = monitor_routes(state, port, input).state;
        assert(after.servers == servers);
        assert forall|i: int| 0 <= i < servers.len() implies (#[trigger] servers[i]).port
            == state.start + i && server_wf(servers[i]) by {
            if i != index {
                assert(servers[i] == state.servers[i]);
            }
        }
        if !(step.status is Finished) {
            let witness = choose|i: int|
                0 <= i < state.servers.len() && (#[trigger] state.servers[i]).phase
                    != ServerPhase::Finished;
            if witness == index {
                assert(servers[index].phase != ServerPhase::Finished);
            } else {
                assert(servers[witness] == state.servers[witness]);
            }
        }
    }
}

/// What goes to one server touches no other: every other server is afterwards as
/// it was before.
pub proof fn lemma_routing_is_local(state: MonitorState, port: u16, input: ServerInput, other: u16)
    requires
        monitor_wf(state),
        state.phase == MonitorPhase::Running,
        state.start <= other <= state.end,
        other != port,
    ensures
        monitor_routes(state, port, input).state.servers[other - state.start]
            == state.servers[other - state.start],
{
}

/// A port on which the monitor cannot listen does not stand in the way of the
/// others. After such a failure on `port`, the server of every other port `other`
/// is as it was; the run goes on as long as a server is left that is not done;
/// and what then comes for `other` is answered by its server as if nothing had
/// happened: it starts when it listens, and it takes the connections it accepts.
pub proof fn lemma_bind_failure_is_local(
    state: MonitorState,
    port: u16,
    cause: IoFailureView,
    other: u16,
    input: ServerInput,
)
    requires
        monitor_wf(state),
        state.phase == MonitorPhase::Running,
        state.start <= port <= state.end,
        state.start <= other <= state.end,
        other != port,
        state.servers[other - state.start].phase != ServerPhase::Finished,
        addressed(other, input) is Some,
    ensures
        ({
            let failed = monitor_step(state, MonitorInput::Bound { port, bound: Err(cause) });
            let server = state.servers[other - state.start];
            let answer = monitor_step(failed.state, addressed(other, input)->0);
            let expected = server_step(server, input);
            &&& failed.state.phase == MonitorPhase::Running
            &&& failed.status is Pending
            &&& failed.state.servers[other - state.start] == server
            &&& answer.state.servers[other - state.start] == expected.state
            &&& answer.events.take(expected.events.len() as int) == expected.events
            &&& answer.conn == expected.conn
            &&& server.phase == ServerPhase::Created && input == ServerInput::Bound(Ok(()))
                ==> answer.events == seq![EventView::ServerStarted { port: other }]
        }),
{
    let failed = monitor_step(state, MonitorInput::Bound { port, bound: Err(cause) });
    lemma_failed_bind_goes_on(state, port, cause, other);
    lemma_answer_is_the_servers(failed.state, other, input);
}

/// After a port could not be bound, the run goes on with every other server that
/// is not done as it was.
proof fn lemma_failed_bind_goes_on(state: MonitorState, port: u16, cause: IoFailureView, other: u16)
    requires
        monitor_wf(state),
        state.phase == MonitorPhase::Running,
        state.start <= other <= state.end,
        other != port,
        state.servers[other - state.start].phase != ServerPhase::Finished,
    ensures
        ({
            let failed = monitor_step(state, MonitorInput::Bound { port, bound: Err(cause) });
            &&& monitor_wf(failed.state)
            &&& failed.state.phase == MonitorPhase::Running
            &&& failed.status is Pending
            &&& failed.state.start == state.start
            &&& failed.state.end == state.end
            &&& failed.state.servers[other - state.start] == state.servers[other - state.start]
        }),
{
    let bound = ServerInput::Bound(Err(cause));
    let failed = monitor_routes(state, port, bound);
    lemma_routing_preserves_wf(state, port, bound);
    let index = other - state.start;
    assert(failed.state.servers[index] == state.servers[index]);
    assert(!all_finished(failed.state.servers));
}

/// What comes for the server of a port is answered by a running monitor as that
/// server answers it: the server's new state takes its place, its reports come
/// first, and its connection is passed on.
proof fn lemma_answer_is_the_servers(state: MonitorState, other: u16, input: ServerInput)
    requires
        monitor_wf(state),
        state.phase == MonitorPhase::Running,
        state.start <= other <= state.end,
        addressed(other, input) is Some,
    ensures
        ({
            let server = state.servers[other - state.start];
            let answer = monitor_step(state, addressed(other, input)->0);
            let expected = server_step(server, input);
            &&& answer.state.servers[other - state.start] == expected.state
            &&& answer.events.take(expected.events.len() as int) == expected.events
            &&& answer.conn == expected.conn
            &&& server.phase == ServerPhase::Created && input == ServerInput::Bound(Ok(()))
                ==> answer.events == expected.events && expected.events == seq![
                EventView::ServerStarted { port: other },
            ]
        }),
{
    let index = other - state.start;
    let server = state.servers[index];
    let answer = monitor_routes(state, other, input);
    let expected = server_step(server, input);
    assert(server_wf(server));
    assert(answer.events.take(expected.events.len() as int) =~= expected.events);
}

/// What a series of servers reports when each is told to stop: what the first ones
/// report, then what the later ones report.
pub proof fn lemma_all_stop_reports_concat(front: Seq<ServerState>, back: Seq<ServerState>)
    ensures
        all_stop_reports(front + back) == all_stop_reports(front) + all_stop_reports(back),
    decreases back.len(),
{
    if back.len() == 0 {
        assert(front + back =~= front);
        assert(all_stop_reports(front) + all_stop_reports(back) =~= all_stop_reports(front));
    } else {
        assert((front + back).drop_last() =~= front + back.drop_last());
        assert((front + back).last() == back.last());
        lemma_all_stop_reports_concat(front, back.drop_last());
        let tail = server_step(back.last(), ServerInput::Stop).events;
        assert((all_stop_reports(front) + all_stop_reports(back.drop_last())) + tail
            =~= all_stop_reports(front) + (all_stop_reports(back.drop_last()) + tail));
    }
}

/// Whether one of `servers` is the server of `port` and listens.
pub open spec fn listens_on(servers: Seq<ServerState>, port: u16) -> bool {
    exists|i: int|
        0 <= i < servers.len() && (#[trigger] servers[i]).port == port && servers[i].phase
            == ServerPhase::Listening
}

/// How often servers that are told to stop report that the server of `port` is
/// stopping, and how often that it stopped: once each if one of them is that
/// server and listens, and never else.
pub proof fn lemma_stop_pairs(servers: Seq<ServerState>, port: u16)
    requires
        forall|i: int| 0 <= i < servers.len() ==> server_wf(#[trigger] servers[i]),
        forall|i: int, j: int|
            0 <= i < j < servers.len() ==> (#[trigger] servers[i]).port != (
            #[trigger] servers[j]).port,
    ensures
        ({
            let once = if listens_on(servers, port) {
                1nat
            } else {
                0nat
            };
            &&& occurrences(all_stop_reports(servers), EventView::ServerStopping { port }) == once
            &&& occurrences(all_stop_reports(servers), EventView::ServerStopped { port }) == once
        }),
    decreases servers.len(),
{
    if servers.len() > 0 {
        let front = servers.drop_last();
        let last = servers.last();
        assert forall|i: int| 0 <= i < front.len() implies server_wf(#[trigger] front[i]) by {
            assert(front[i] == servers[i]);
        }
        assert forall|i: int, j: int| 0 <= i < j < front.len() implies (#[trigger] front[i]).port
            != (#[trigger] front[j]).port by {
            assert(front[i] == servers[i]);
            assert(front[j] == servers[j]);
        }
        lemma_stop_pairs(front, port);
        assert(server_wf(servers[servers.len() - 1]));
        lemma_server_stop_pair(last, port);
        let tail = server_step(last, ServerInput::Stop).events;
        lemma_occurrences_concat(all_stop_reports(front), tail, EventView::ServerStopping { port });
        lemma_occurrences_concat(all_stop_reports(front), tail, EventView::ServerStopped { port });
        if listens_on(front, port) {
            let i = choose|i: int|
                0 <= i < front.len() && (#[trigger] front[i]).port == port && front[i].phase
                    == ServerPhase::Listening;
            assert(servers[i] == front[i]);
            assert(servers[i].port != servers[servers.len() - 1].port);
            assert(listens_on(servers, port));
        } else if last.port == port && last.phase == ServerPhase::Listening {
            assert(servers[servers.len() - 1] == last);
            assert(listens_on(servers, port));
        } else {
            if listens_on(servers, port) {
                let i = choose|i: int|
                    0 <= i < servers.len() && (#[trigger] servers[i]).port == port
                        && servers[i].phase == ServerPhase::Listening;
                if i < front.len() {
                    assert(front[i] == servers[i]);
                }
            }
        }
    }
}

/// Where, in what a stopping monitor reports, the reports of the server at place
/// `index` begin.
pub open spec fn stop_offset(servers: Seq<ServerState>, index: int) -> int {
    1 + all_stop_reports(servers.take(index)).len() as int
}

/// Whether `events`, the reports of a stopping monitor, hold what the server at
/// place `index` of `servers` has to report, where it belongs: its own stretch of
/// reports stands at `stop_offset`, after the monitor's first report and before
/// its last; for a server that listens the stretch is the report that it is
/// stopping, then the disconnections of its handlers, then the report that it
/// stopped, and for any other server it is empty; and the two reports about the
/// server's port occur once in all of `events` if the server listens, and not at
/// all otherwise.
pub open spec fn unwinds_in_place(
    servers: Seq<ServerState>,
    index: int,
    events: Seq<EventView>,
) -> bool {
    let server = servers[index];
    let own = server_step(server, ServerInput::Stop).events;
    let from = stop_offset(servers, index);
    let once = if server.phase == ServerPhase::Listening {
        1nat
    } else {
        0nat
    };
    &&& 0 < from && from + own.len() < events.len()
    &&& events.subrange(from, from + own.len()) == own
    &&& server.phase == ServerPhase::Listening ==> own == seq![
        EventView::ServerStopping { port: server.port },
    ] + stop_reports(server.clients) + seq![EventView::ServerStopped { port: server.port }]
    &&& server.phase != ServerPhase::Listening ==> own.len() == 0
    &&& occurrences(events, EventView::ServerStopping { port: server.port }) == once
    &&& occurrences(events, EventView::ServerStopped { port: server.port }) == once
}

/// How a running monitor stops. It reports that it is stopping first and that it
/// stopped last. Between the two, each server has its own stretch of reports, in
/// the order of the ports: a server that listens reports that it is stopping, then
/// the disconnection of each of its handlers that still read, then that it
/// stopped, so that every disconnection stands before the report that its server
/// stopped; a server that does not listen reports nothing. For each port the two
/// reports of its server occur exactly once if the server listened, and not at
/// all otherwise. Afterwards the run is over, every server and every handler is
/// done, and the result is the first failure of a server, or success.
pub proof fn lemma_stop_unwinds_everything(state: MonitorState)
    requires
        monitor_wf(state),
        state.phase == MonitorPhase::Running,
    ensures
        ({
            let answer = monitor_step(state, MonitorInput::Stop);
            &&& answer.events.first() == EventView::Stopping
            &&& answer.events.last() == EventView::Stopped
            &&& answer.state.phase == MonitorPhase::Finished
            &&& answer.status == Status::<ErrorView>::Finished(run_result(state.failure))
            &&& monitor_wf(answer.state)
            &&& all_finished(answer.state.servers)
            &&& forall|i: int, j: int|
                0 <= i < answer.state.servers.len() && 0 <= j
                    < answer.state.servers[i].clients.len() ==> (
                #[trigger] answer.state.servers[i].clients[j]).phase == ClientPhase::Finished
            &&& forall|i: int|
                0 <= i < state.servers.len() ==> #[trigger] unwinds_in_place(
                    state.servers,
                    i,
                    answer.events,
                )
        }),
{
    let answer = monitor_step(state, MonitorInput::Stop);
    let servers = state.servers;
    let middle = all_stop_reports(servers);
    let first = seq![EventView::Stopping];
    let last = seq![EventView::Stopped];
    lemma_monitor_step_preserves_wf(state, MonitorInput::Stop);
    assert(answer.events == first + middle + last);
    assert forall|i: int| 0 <= i < servers.len() implies #[trigger] unwinds_in_place(
        servers,
        i,
        answer.events,
    ) by {
        let server = servers[i];
        let own = server_step(server, ServerInput::Stop).events;
        let port = server.port;
        let before = servers.take(i);
        let after = servers.skip(i + 1);
        assert(servers =~= (before + seq![server]) + after);
        lemma_all_stop_reports_concat(before + seq![server], after);
        lemma_all_stop_reports_concat(before, seq![server]);
        assert(seq![server].drop_last() =~= Seq::<ServerState>::empty());
        assert(seq![server].last() == server);
        assert(all_stop_reports(seq![server].drop_last()) =~= Seq::<EventView>::empty());
        assert(all_stop_reports(seq![server]) =~= own);
        let lead = all_stop_reports(before);
        let rest = all_stop_reports(after);
        assert(middle == (lead + own) + rest);
        let from = stop_offset(servers, i);
        assert(answer.events.subrange(from, from + own.len()) =~= own);
        assert(server_wf(server));
        if server.phase == ServerPhase::Listening {
            lemma_server_stop(server);
        }
        assert forall|a: int, b: int| 0 <= a < b < servers.len() implies (
        #[trigger] servers[a]).port != (#[trigger] servers[b]).port by {}
        assert forall|a: int| 0 <= a < servers.len() implies server_wf(#[trigger] servers[a]) by {}
        lemma_stop_pairs(servers, port);
        if listens_on(servers, port) {
            let j = choose|j: int|
                0 <= j < servers.len() && (#[trigger] servers[j]).port == port && servers[j].phase
                    == ServerPhase::Listening;
            assert(j == i);
        }
        let stopping = EventView::ServerStopping { port };
        let stopped = EventView::ServerStopped { port };
        lemma_occurrences_single(first[0], stopping);
        lemma_occurrences_single(first[0], stopped);
        lemma_occurrences_single(last[0], stopping);
        lemma_occurrences_single(last[0], stopped);
        assert(first =~= seq![first[0]]);
        assert(last =~= seq![last[0]]);
        lemma_occurrences_concat(first, middle, stopping);
        lemma_occurrences_concat(first, middle, stopped);
        lemma_occurrences_concat(first + middle, last, stopping);
        lemma_occurrences_concat(first + middle, last, stopped);
    }
}

/// Once the run is over, nothing is reported any more, whatever comes.
pub proof fn lemma_finished_monitor_is_silent(state: MonitorState, input: MonitorInput)
    requires
        state.phase == MonitorPhase::Finished,
    ensures
        monitor_step(state, input).state == state,
        monitor_step(state, input).events == Seq::<EventView>::empty(),
        monitor_step(state, input).status == Status::<ErrorView>::Closed,
{
}

/// How often `events` report that the server of `port` is stopping.
pub open spec fn stopping_count(events: Seq<EventView>, port: u16) -> nat {
    occurrences(events, EventView::ServerStopping { port })
}

/// How often `events` report that the server of `port` stopped.
pub open spec fn stopped_count(events: Seq<EventView>, port: u16) -> nat {
    occurrences(events, EventView::ServerStopped { port })
}

/// Whether `events` report at most once that the server of `port` is stopping,
/// and exactly as often that it stopped.
pub open spec fn pairs_once(events: Seq<EventView>, port: u16) -> bool {
    stopping_count(events, port) == stopped_count(events, port) && stopped_count(events, port) <= 1
}

/// Whether `events` hold nothing of an unwinding.
pub open spec fn is_quiet(events: Seq<EventView>) -> bool {
    forall|k: int| 0 <= k < events.len() ==> !is_unwinding(#[trigger] events[k])
}

/// Whether `events` hold one whole unwinding: last, and only then, the report that
/// the monitor stopped; at most once that the monitor is stopping; and for every
/// port at most once that its server is stopping, and exactly as often that it
/// stopped.
pub open spec fn is_unwound(events: Seq<EventView>) -> bool {
    &&& events.len() > 0
    &&& events.last() == EventView::Stopped
    &&& occurrences(events, EventView::Stopped) == 1
    &&& occurrences(events, EventView::Stopping) <= 1
    &&& forall|port: u16| #[trigger] pairs_once(events, port)
}

/// Whether `events` hold of an unwinding what a run may report that is `finished`
/// or not: one whole unwinding if it is over, and nothing of one if it is not.
pub open spec fn unwound_once(events: Seq<EventView>, finished: bool) -> bool {
    if finished {
        is_unwound(events)
    } else {
        is_quiet(events)
    }
}

/// Reports that hold nothing of an unwinding, followed by the report that the
/// monitor stopped, hold one whole unwinding.
proof fn lemma_quiet_then_stopped(quiet: Seq<EventView>)
    requires
        is_quiet(quiet),
    ensures
        is_unwound(quiet + seq![EventView::Stopped]),
{
    let events = quiet + seq![EventView::Stopped];
    let last = seq![EventView::Stopped];
    assert(events.last() == EventView::Stopped);
    lemma_occurrences_absent(quiet, EventView::Stopped);
    lemma_occurrences_absent(quiet, EventView::Stopping);
    lemma_occurrences_single(EventView::Stopped, EventView::Stopped);
    lemma_occurrences_single(EventView::Stopped, EventView::Stopping);
    lemma_occurrences_concat(quiet, last, EventView::Stopped);
    lemma_occurrences_concat(quiet, last, EventView::Stopping);
    assert forall|port: u16| #[trigger] pairs_once(events, port) by {
        let stopping = EventView::ServerStopping { port };
        let stopped = EventView::ServerStopped { port };
        lemma_occurrences_absent(quiet, stopping);
        lemma_occurrences_absent(quiet, stopped);
        lemma_occurrences_single(EventView::Stopped, stopping);
        lemma_occurrences_single(EventView::Stopped, stopped);
        lemma_occurrences_concat(quiet, last, stopping);
        lemma_occurrences_concat(quiet, last, stopped);
    }
}

/// Reports that hold nothing of an unwinding, followed by reports that hold one
/// whole unwinding, hold one whole unwinding.
proof fn lemma_quiet_before_unwound(front: Seq<EventView>, back: Seq<EventView>)
    requires
        is_quiet(front),
        is_unwound(back),
    ensures
        is_unwound(front + back),
{
    let events = front + back;
    assert(events.last() == back.last());
    lemma_occurrences_absent(front, EventView::Stopped);
    lemma_occurrences_absent(front, EventView::Stopping);
    lemma_occurrences_concat(front, back, EventView::Stopped);
    lemma_occurrences_concat(front, back, EventView::Stopping);
    assert forall|port: u16| #[trigger] pairs_once(events, port) by {
        let stopping = EventView::ServerStopping { port };
        let stopped = EventView::ServerStopped { port };
        lemma_occurrences_absent(front, stopping);
        lemma_occurrences_absent(front, stopped);
        lemma_occurrences_concat(front, back, stopping);
        lemma_occurrences_concat(front, back, stopped);
        assert(pairs_once(back, port));
    }
}

/// Reports that hold nothing of an unwinding, one after the other, hold nothing
/// of one.
proof fn lemma_quiet_concat(front: Seq<EventView>, back: Seq<EventView>)
    requires
        is_quiet(front),
        is_quiet(back),
    ensures
        is_quiet(front + back),
{
    let events = front + back;
    assert forall|k: int| 0 <= k < events.len() implies !is_unwinding(#[trigger] events[k]) by {
        if k >= front.len() {
            assert(events[k] == back[k - front.len()]);
        } else {
            assert(events[k] == front[k]);
        }
    }
}

/// What goes to one server makes a running monitor report what that server
/// reports, which holds nothing of an unwinding, and, if the run ends with it,
/// that the monitor stopped.
proof fn lemma_routing_unwinds_once(state: MonitorState, port: u16, input: ServerInput)
    requires
        state.phase == MonitorPhase::Running,
        !(input is Stop),
    ensures
        unwound_once(
            monitor_routes(state, port, input).events,
            monitor_routes(state, port, input).state.phase == MonitorPhase::Finished,
        ),
{
    let answer = monitor_routes(state, port, input);
    if state.start <= port <= state.end && port - state.start < state.servers.len() {
        let index = port - state.start;
        lemma_server_is_quiet(state.servers[index], input);
        let step = server_step(state.servers[index], input);
        assert(is_quiet(step.events));
        if answer.state.phase == MonitorPhase::Finished {
            assert(answer.events == step.events + seq![EventView::Stopped]);
            lemma_quiet_then_stopped(step.events);
        } else {
            assert(answer.events == step.events);
        }
    } else {
        assert(is_quiet(answer.events));
    }
}

/// A running monitor that is told to stop reports one whole unwinding.
proof fn lemma_stop_unwinds_once(state: MonitorState)
    requires
        monitor_wf(state),
        state.phase == MonitorPhase::Running,
    ensures
        is_unwound(monitor_step(state, MonitorInput::Stop).events),
{
    let events = monitor_step(state, MonitorInput::Stop).events;
    let first = seq![EventView::Stopping];
    let middle = all_stop_reports(state.servers);
    let last = seq![EventView::Stopped];
    assert(events == first + middle + last);
    assert(events.last() == EventView::Stopped);
    assert forall|a: int, b: int| 0 <= a < b < state.servers.len() implies (
    #[trigger] state.servers[a]).port != (#[trigger] state.servers[b]).port by {}
    assert forall|a: int| 0 <= a < state.servers.len() implies server_wf(
        #[trigger] state.servers[a],
    ) by {}
    lemma_all_stop_reports_hold_pairs_only(state.servers);
    lemma_occurrences_absent(middle, EventView::Stopping);
    lemma_occurrences_absent(middle, EventView::Stopped);
    lemma_count_around(middle, EventView::Stopping);
    lemma_count_around(middle, EventView::Stopped);
    assert forall|port: u16| #[trigger] pairs_once(events, port) by {
        lemma_stop_pairs(state.servers, port);
        lemma_count_around(middle, EventView::ServerStopping { port });
        lemma_count_around(middle, EventView::ServerStopped { port });
    }
}

/// How often `event` stands in `middle` with the report that the monitor is
/// stopping before it and the report that it stopped behind it.
proof fn lemma_count_around(middle: Seq<EventView>, event: EventView)
    ensures
        occurrences(seq![EventView::Stopping] + middle + seq![EventView::Stopped], event)
            == occurrences(middle, event) + (if event == EventView::Stopping {
            1nat
        } else {
            0nat
        }) + (if event == EventView::Stopped {
            1nat
        } else {
            0nat
        }),
{
    let first = seq![EventView::Stopping];
    let last = seq![EventView::Stopped];
    lemma_occurrences_single(EventView::Stopping, event);
    lemma_occurrences_single(EventView::Stopped, event);
    lemma_occurrences_concat(first, middle, event);
    lemma_occurrences_concat(first + middle, last, event);
}

/// Servers that are told to stop report nothing about the monitor itself.
proof fn lemma_all_stop_reports_hold_pairs_only(servers: Seq<ServerState>)
    requires
        forall|i: int| 0 <= i < servers.len() ==> server_wf(#[trigger] servers[i]),
    ensures
        forall|k: int|
            0 <= k < all_stop_reports(servers).len() ==> (#[trigger] all_stop_reports(servers)[k])
                != EventView::Stopping && all_stop_reports(servers)[k] != EventView::Stopped,
    decreases servers.len(),
{
    if servers.len() > 0 {
        let front = servers.drop_last();
        assert forall|i: int| 0 <= i < front.len() implies server_wf(#[trigger] front[i]) by {
            assert(front[i] == servers[i]);
        }
        lemma_all_stop_reports_hold_pairs_only(front);
        let last = servers.last();
        assert(server_wf(servers[servers.len() - 1]));
        let own = server_step(last, ServerInput::Stop).events;
        if last.phase == ServerPhase::Listening {
            lemma_server_stop(last);
        }
        let all = all_stop_reports(servers);
        assert forall|k: int| 0 <= k < all.len() implies (#[trigger] all[k]) != EventView::Stopping
            && all[k] != EventView::Stopped by {
            let lead = all_stop_reports(front);
            if k >= lead.len() {
                let at = k - lead.len();
                assert(all[k] == own[at]);
                if 0 < at < own.len() - 1 {
                    assert(own[at] == stop_reports(last.clients)[at - 1]);
                }
            }
        }
    }
}

/// What one input makes a monitor report of an unwinding: nothing, as long as the
/// run goes on; and one whole unwinding, if the run ends with this input.
pub proof fn lemma_step_unwinds_once(state: MonitorState, input: MonitorInput)
    requires
        monitor_wf(state),
        state.phase != MonitorPhase::Finished,
    ensures
        unwound_once(
            monitor_step(state, input).events,
            monitor_step(state, input).state.phase == MonitorPhase::Finished,
        ),
{
    let answer = monitor_step(state, input);
    match state.phase {
        MonitorPhase::Created => {
            if answer.state.phase == MonitorPhase::Finished {
                let first = seq![EventView::Started];
                assert(is_quiet(first));
                lemma_quiet_then_stopped(first);
                assert(answer.events =~= first + seq![EventView::Stopped]);
            } else {
                assert(is_quiet(answer.events));
            }
        },
        MonitorPhase::Running => {
            match input {
                MonitorInput::Start => {
                    assert(is_quiet(answer.events));
                },
                MonitorInput::Stop => {
                    lemma_stop_unwinds_once(state);
                },
                MonitorInput::Bound { port, bound } => {
                    lemma_routing_unwinds_once(state, port, ServerInput::Bound(bound));
                },
                MonitorInput::Accepted { port, peer } => {
                    lemma_routing_unwinds_once(state, port, ServerInput::Accepted(peer));
                },
                MonitorInput::AcceptFailed { port, cause } => {
                    lemma_routing_unwinds_once(state, port, ServerInput::AcceptFailed(cause));
                },
                MonitorInput::Read { port, conn, read } => {
                    lemma_routing_unwinds_once(state, port, ServerInput::Read { conn, read });
                },
            }
        },
        MonitorPhase::Finished => {},
    }
}

/// Whether a monitor that is not done goes on after an input is settled by where
/// it stands afterwards: it is pending exactly if its run is not over, and it is
/// never found closed.
pub proof fn lemma_status_tells_the_phase(state: MonitorState, input: MonitorInput)
    requires
        state.phase != MonitorPhase::Finished,
    ensures
        ({
            let answer = monitor_step(state, input);
            &&& answer.status is Pending <==> answer.state.phase != MonitorPhase::Finished
            &&& answer.status is Finished <==> answer.state.phase == MonitorPhase::Finished
        }),
{
}

/// How a whole run reports its unwinding. Whatever a monitor that `monitor_wf`
/// accepts is given, and in whatever order: as long as its run is not over, it has
/// reported nothing of an unwinding; and once it is over, it has reported that it
/// stopped exactly once and as its last report, that it is stopping at most once,
/// and for every port at most once that its server is stopping and exactly as
/// often that its server stopped.
pub proof fn lemma_run_unwinds_once(state: MonitorState, inputs: Seq<MonitorInput>)
    requires
        monitor_wf(state),
        state.phase != MonitorPhase::Finished,
    ensures
        ({
            let run = monitor_run(state, inputs);
            let finished = run.state.phase == MonitorPhase::Finished;
            &&& monitor_wf(run.state)
            &&& unwound_once(run.events, finished)
            &&& run.status is Finished <==> finished
            &&& run.status is Pending <==> !finished
        }),
    decreases inputs.len(),
{
    reveal(monitor_answer);
    if inputs.len() > 0 {
        let first = monitor_step(state, inputs[0]);
        lemma_monitor_step_preserves_wf(state, inputs[0]);
        lemma_step_unwinds_once(state, inputs[0]);
        lemma_status_tells_the_phase(state, inputs[0]);
        if first.status is Pending {
            let rest = monitor_run(first.state, inputs.skip(1));
            lemma_run_unwinds_once(first.state, inputs.skip(1));
            if rest.state.phase == MonitorPhase::Finished {
                lemma_quiet_before_unwound(first.events, rest.events);
            } else {
                lemma_quiet_concat(first.events, rest.events);
            }
        }
    } else {
        assert(is_quiet(Seq::<EventView>::empty()));
    }
}

/// Once the run is over, nothing is reported any more, however much comes.
pub proof fn lemma_finished_run_is_silent(state: MonitorState, inputs: Seq<MonitorInput>)
    requires
        state.phase == MonitorPhase::Finished,
    ensures
        monitor_run(state, inputs).state == state,
        monitor_run(state, inputs).events == Seq::<EventView>::empty(),
{
    reveal(monitor_answer);
}

/// A monitor that has started never reports again that it started.
pub proof fn lemma_started_is_not_repeated(state: MonitorState, inputs: Seq<MonitorInput>)
    requires
        state.phase != MonitorPhase::Created,
    ensures
        monitor_run(state, inputs).state.phase != MonitorPhase::Created,
        forall|k: int|
            0 <= k < monitor_run(state, inputs).events.len() ==> (#[trigger] monitor_run(
                state,
                inputs,
            ).events[k]) != EventView::Started,
    decreases inputs.len(),
{
    reveal(monitor_answer);
    if inputs.len() > 0 {
        let first = monitor_step(state, inputs[0]);
        assert forall|k: int| 0 <= k < first.events.len() implies (#[trigger] first.events[k])
            != EventView::Started by {
            if state.phase == MonitorPhase::Running {
                if input_is_for_server(inputs[0]) {
                    lemma_running_is_quiet_about_start(state, inputs[0]);
                } else if inputs[0] is Stop {
                    lemma_stop_is_quiet_about_start(state);
                }
            }
        }
        if first.status is Pending {
            let rest = monitor_run(first.state, inputs.skip(1));
            let all = first.events + rest.events;
            lemma_started_is_not_repeated(first.state, inputs.skip(1));
            assert forall|k: int| 0 <= k < all.len() implies (#[trigger] all[k])
                != EventView::Started by {
                if k >= first.events.len() {
                    assert(all[k] == rest.events[k - first.events.len()]);
                }
            }
            assert(monitor_run(state, inputs).events == all);
        }
    }
}

/// Whether `input` is about a listener or a connection.
pub open spec fn input_is_for_server(input: MonitorInput) -> bool {
    input is Bound || input is Accepted || input is AcceptFailed || input is Read
}

/// What goes to a server does not make a running monitor report that it started.
proof fn lemma_running_is_quiet_about_start(state: MonitorState, input: MonitorInput)
    requires
        state.phase == MonitorPhase::Running,
        input_is_for_server(input),
    ensures
        forall|k: int|
            0 <= k < monitor_step(state, input).events.len() ==> (#[trigger] monitor_step(
                state,
                input,
            ).events[k]) != EventView::Started,
{
}

/// A monitor that stops does not report that it started.
proof fn lemma_stop_is_quiet_about_start(state: MonitorState)
    requires
        state.phase == MonitorPhase::Running,
    ensures
        forall|k: int|
            0 <= k < monitor_step(state, MonitorInput::Stop).events.len() ==> (
            #[trigger] monitor_step(state, MonitorInput::Stop).events[k]) != EventView::Started,
{
    let events = monitor_step(state, MonitorInput::Stop).events;
    let middle = all_stop_reports(state.servers);
    lemma_all_stop_reports_are_not_starts(state.servers);
    assert forall|k: int| 0 <= k < events.len() implies (#[trigger] events[k])
        != EventView::Started by {
        if 0 < k < events.len() - 1 {
            assert(events[k] == middle[k - 1]);
        }
    }
}

/// Servers that are told to stop do not report that the monitor started.
proof fn lemma_all_stop_reports_are_not_starts(servers: Seq<ServerState>)
    ensures
        forall|k: int|
            0 <= k < all_stop_reports(servers).len() ==> (#[trigger] all_stop_reports(servers)[k])
                != EventView::Started,
    decreases servers.len(),
{
    if servers.len() > 0 {
        lemma_all_stop_reports_are_not_starts(servers.drop_last());
        let lead = all_stop_reports(servers.drop_last());
        let own = server_step(servers.last(), ServerInput::Stop).events;
        lemma_stop_reports_are_disconnections(servers.last().clients);
        let all = all_stop_reports(servers);
        assert forall|k: int| 0 <= k < all.len() implies (#[trigger] all[k])
            != EventView::Started by {
            if k >= lead.len() {
                let at = k - lead.len();
                assert(all[k] == own[at]);
                if servers.last().phase == ServerPhase::Listening && 0 < at < own.len() - 1 {
                    assert(own[at] == stop_reports(servers.last().clients)[at - 1]);
                }
            }
        }
    }
}

/// How a whole run begins. Whatever a new monitor is given: the first thing it
/// reports, if it reports anything, is that it started, and it reports that only
/// once.
pub proof fn lemma_run_starts_once(start: u16, end: u16, inputs: Seq<MonitorInput>)
    ensures
        ({
            let run = monitor_run(fresh_monitor(start, end), inputs);
            &&& run.events.len() > 0 ==> run.events[0] == EventView::Started
            &&& occurrences(run.events, EventView::Started) <= 1
            &&& run.events.len() > 0 <==> run.state.phase != MonitorPhase::Created
        }),
    decreases inputs.len(),
{
    reveal(monitor_answer);
    let state = fresh_monitor(start, end);
    if inputs.len() > 0 {
        let first = monitor_step(state, inputs[0]);
        if inputs[0] is Start {
            let begun = seq![EventView::Started];
            assert(first.events =~= begun + first.events.skip(1));
            lemma_occurrences_single(EventView::Started, EventView::Started);
            lemma_occurrences_absent(first.events.skip(1), EventView::Started);
            lemma_occurrences_concat(begun, first.events.skip(1), EventView::Started);
            if first.status is Pending {
                let rest = monitor_run(first.state, inputs.skip(1));
                lemma_started_is_not_repeated(first.state, inputs.skip(1));
                lemma_occurrences_absent(rest.events, EventView::Started);
                lemma_occurrences_concat(first.events, rest.events, EventView::Started);
            }
        } else {
            assert(first.state == state);
            let rest = monitor_run(first.state, inputs.skip(1));
            lemma_run_starts_once(start, end, inputs.skip(1));
            assert(first.events + rest.events =~= rest.events);
        }
    } else {
        assert(occurrences(Seq::<EventView>::empty(), EventView::Started) == 0);
    }
}

/// How often `events` report that the server of `port` started.
pub open spec fn started_count(events: Seq<EventView>, port: u16) -> nat {
    occurrences(events, EventView::ServerStarted { port })
}

/// One if one of `servers` is the server of `port` and listens, and zero if not.
pub open spec fn listening(servers: Seq<ServerState>, port: u16) -> nat {
    if listens_on(servers, port) {
        1
    } else {
        0
    }
}

/// Among servers with one port each, in rising order from `start`, whether the
/// server of a port listens is a matter of that server alone: a new state for the
/// server at place `index` changes it for that server's port, and for no other.
proof fn lemma_listening_after_update(
    start: u16,
    servers: Seq<ServerState>,
    index: int,
    after: ServerState,
    port: u16,
)
    requires
        0 <= index < servers.len(),
        forall|i: int| 0 <= i < servers.len() ==> (#[trigger] servers[i]).port == start + i,
        after.port == servers[index].port,
    ensures
        listening(servers, after.port) == if servers[index].phase == ServerPhase::Listening {
            1nat
        } else {
            0nat
        },
        listening(servers.update(index, after), port) == if port == after.port {
            if after.phase == ServerPhase::Listening {
                1nat
            } else {
                0nat
            }
        } else {
            listening(servers, port)
        },
{
    let updated = servers.update(index, after);
    if servers[index].phase == ServerPhase::Listening {
        assert(listens_on(servers, after.port));
    }
    if listens_on(servers, after.port) {
        let i = choose|i: int|
            0 <= i < servers.len() && (#[trigger] servers[i]).port == after.port
                && servers[i].phase == ServerPhase::Listening;
        assert(i == index);
    }
    if port == after.port {
        if after.phase == ServerPhase::Listening {
            assert(updated[index].port == port);
            assert(listens_on(updated, port));
        }
        if listens_on(updated, port) {
            let i = choose|i: int|
                0 <= i < updated.len() && (#[trigger] updated[i]).port == port && updated[i].phase
                    == ServerPhase::Listening;
            if i != index {
                assert(updated[i] == servers[i]);
            }
        }
    } else {
        if listens_on(servers, port) {
            let i = choose|i: int|
                0 <= i < servers.len() && (#[trigger] servers[i]).port == port && servers[i].phase
                    == ServerPhase::Listening;
            assert(updated[i] == servers[i]);
            assert(listens_on(updated, port));
        }
        if listens_on(updated, port) {
            let i = choose|i: int|
                0 <= i < updated.len() && (#[trigger] updated[i]).port == port && updated[i].phase
                    == ServerPhase::Listening;
            assert(i != index);
            assert(updated[i] == servers[i]);
            assert(listens_on(servers, port));
        }
    }
}

/// Servers that are told to stop do not report that a server started.
proof fn lemma_all_stop_reports_start_nothing(servers: Seq<ServerState>, port: u16)
    ensures
        started_count(all_stop_reports(servers), port) == 0,
    decreases servers.len(),
{
    if servers.len() > 0 {
        lemma_all_stop_reports_start_nothing(servers.drop_last(), port);
        lemma_server_start_count(servers.last(), ServerInput::Stop, port);
        lemma_occurrences_concat(
            all_stop_reports(servers.drop_last()),
            server_step(servers.last(), ServerInput::Stop).events,
            EventView::ServerStarted { port },
        );
    }
}

/// What goes to one server makes a running monitor report that a server started
/// exactly if that server begins to listen.
proof fn lemma_routing_starts_what_listens(
    state: MonitorState,
    at: u16,
    input: ServerInput,
    port: u16,
)
    requires
        monitor_wf(state),
        state.phase == MonitorPhase::Running,
        !(input is Stop),
    ensures
        ({
            let answer = monitor_routes(state, at, input);
            &&& started_count(answer.events, port) + listening(state.servers, port) == listening(
                answer.state.servers,
                port,
            )
            &&& stopping_count(answer.events, port) == 0
        }),
{
    let answer = monitor_routes(state, at, input);
    let started = EventView::ServerStarted { port };
    let stopping = EventView::ServerStopping { port };
    if state.start <= at <= state.end && at - state.start < state.servers.len() {
        let index = at - state.start;
        let server = state.servers[index];
        let step = server_step(server, input);
        assert(server_wf(server));
        lemma_server_step_preserves_wf(server, input);
        lemma_server_start_count(server, input, port);
        lemma_server_is_quiet(server, input);
        lemma_listening_after_update(state.start, state.servers, index, step.state, port);
        lemma_occurrences_absent(step.events, stopping);
        if answer.state.phase == MonitorPhase::Finished {
            let last = seq![EventView::Stopped];
            assert(answer.events == step.events + last);
            lemma_occurrences_single(EventView::Stopped, started);
            lemma_occurrences_single(EventView::Stopped, stopping);
            lemma_occurrences_concat(step.events, last, started);
            lemma_occurrences_concat(step.events, last, stopping);
        } else {
            assert(answer.events == step.events);
        }
    } else {
        assert(occurrences(answer.events, started) == 0);
        assert(occurrences(answer.events, stopping) == 0);
    }
}

/// What one input makes a monitor report about the server of `port`: that it
/// started, exactly if it begins to listen; and, if the run ends with this input,
/// that it is stopping, exactly if it listened or began to.
pub proof fn lemma_step_stops_what_started(state: MonitorState, input: MonitorInput, port: u16)
    requires
        monitor_wf(state),
        state.phase != MonitorPhase::Finished,
    ensures
        ({
            let answer = monitor_step(state, input);
            let before = started_count(answer.events, port) + listening(state.servers, port);
            &&& answer.state.phase != MonitorPhase::Finished ==> before == listening(
                answer.state.servers,
                port,
            ) && stopping_count(answer.events, port) == 0
            &&& answer.state.phase == MonitorPhase::Finished ==> before == stopping_count(
                answer.events,
                port,
            )
        }),
{
    let answer = monitor_step(state, input);
    let started = EventView::ServerStarted { port };
    let stopping = EventView::ServerStopping { port };
    lemma_monitor_step_preserves_wf(state, input);
    match state.phase {
        MonitorPhase::Created => {
            assert(!listens_on(state.servers, port));
            if input is Start {
                lemma_occurrences_single(EventView::Started, started);
                lemma_occurrences_single(EventView::Started, stopping);
                if answer.state.phase == MonitorPhase::Finished {
                    let first = seq![EventView::Started];
                    let last = seq![EventView::Stopped];
                    assert(answer.events =~= first + last);
                    lemma_occurrences_single(EventView::Stopped, started);
                    lemma_occurrences_single(EventView::Stopped, stopping);
                    lemma_occurrences_concat(first, last, started);
                    lemma_occurrences_concat(first, last, stopping);
                } else {
                    assert(!listens_on(answer.state.servers, port));
                }
            } else {
                assert(occurrences(answer.events, started) == 0);
                assert(occurrences(answer.events, stopping) == 0);
            }
        },
        MonitorPhase::Running => {
            match input {
                MonitorInput::Start => {
                    assert(occurrences(answer.events, started) == 0);
                    assert(occurrences(answer.events, stopping) == 0);
                },
                MonitorInput::Stop => {
                    let middle = all_stop_reports(state.servers);
                    assert forall|a: int, b: int|
                        0 <= a < b < state.servers.len() implies (#[trigger] state.servers[a]).port
                        != (#[trigger] state.servers[b]).port by {}
                    assert forall|a: int| 0 <= a < state.servers.len() implies server_wf(
                        #[trigger] state.servers[a],
                    ) by {}
                    lemma_stop_pairs(state.servers, port);
                    lemma_all_stop_reports_start_nothing(state.servers, port);
                    lemma_count_around(middle, started);
                    lemma_count_around(middle, stopping);
                },
                MonitorInput::Bound { port: at, bound } => {
                    lemma_routing_starts_what_listens(state, at, ServerInput::Bound(bound), port);
                },
                MonitorInput::Accepted { port: at, peer } => {
                    lemma_routing_starts_what_listens(state, at, ServerInput::Accepted(peer), port);
                },
                MonitorInput::AcceptFailed { port: at, cause } => {
                    lemma_routing_starts_what_listens(
                        state,
                        at,
                        ServerInput::AcceptFailed(cause),
                        port,
                    );
                },
                MonitorInput::Read { port: at, conn, read } => {
                    lemma_routing_starts_what_listens(
                        state,
                        at,
                        ServerInput::Read { conn, read },
                        port,
                    );
                },
            }
            if answer.state.phase == MonitorPhase::Finished && !(input is Stop) {
                assert(!listens_on(answer.state.servers, port));
            }
        },
        MonitorPhase::Finished => {},
    }
}

/// What a whole run reports about the server of `port`. As long as the run is not
/// over, the server has been reported as started exactly if it listens or did so
/// before the run; once the run is over, it has been reported as stopping exactly
/// as often as it was reported as started or listened before.
pub proof fn lemma_run_stops_what_started(
    state: MonitorState,
    inputs: Seq<MonitorInput>,
    port: u16,
)
    requires
        monitor_wf(state),
        state.phase != MonitorPhase::Finished,
    ensures
        ({
            let run = monitor_run(state, inputs);
            let before = started_count(run.events, port) + listening(state.servers, port);
            &&& run.state.phase != MonitorPhase::Finished ==> before == listening(
                run.state.servers,
                port,
            ) && stopping_count(run.events, port) == 0
            &&& run.state.phase == MonitorPhase::Finished ==> before == stopping_count(
                run.events,
                port,
            )
        }),
    decreases inputs.len(),
{
    reveal(monitor_answer);
    let started = EventView::ServerStarted { port };
    let stopping = EventView::ServerStopping { port };
    if inputs.len() > 0 {
        let first = monitor_step(state, inputs[0]);
        lemma_monitor_step_preserves_wf(state, inputs[0]);
        lemma_status_tells_the_phase(state, inputs[0]);
        lemma_step_stops_what_started(state, inputs[0], port);
        if first.status is Pending {
            let rest = monitor_run(first.state, inputs.skip(1));
            lemma_run_stops_what_started(first.state, inputs.skip(1), port);
            lemma_occurrences_concat(first.events, rest.events, started);
            lemma_occurrences_concat(first.events, rest.events, stopping);
        }
    } else {
        assert(occurrences(Seq::<EventView>::empty(), started) == 0);
        assert(occurrences(Seq::<EventView>::empty(), stopping) == 0);
    }
}

/// Every server that started is stopped, once. In a run of a new monitor that is
/// over, whatever it was given: for every port, the reports that its server
/// started, that it is stopping and that it stopped are equally many, and at most
/// one each.
pub proof fn lemma_every_started_server_is_stopped_once(
    start: u16,
    end: u16,
    inputs: Seq<MonitorInput>,
    port: u16,
)
    requires
        monitor_run(fresh_monitor(start, end), inputs).state.phase == MonitorPhase::Finished,
    ensures
        ({
            let events = monitor_run(fresh_monitor(start, end), inputs).events;
            &&& started_count(events, port) == stopping_count(events, port)
            &&& stopping_count(events, port) == stopped_count(events, port)
            &&& stopped_count(events, port) <= 1
        }),
{
    let state = fresh_monitor(start, end);
    assert(!listens_on(state.servers, port));
    lemma_run_stops_what_started(state, inputs, port);
    lemma_run_unwinds_once(state, inputs);
    let events = monitor_run(state, inputs).events;
    assert(pairs_once(events, port));
}

} // verus!
