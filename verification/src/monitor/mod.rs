use crate::reporters::{add_events, no_events, one_event, Event, EventView};
use crate::utils::{IoFailure, IoFailureView};
use vstd::prelude::*;
use vstd::string::StringExecFns;

pub mod laws;
pub mod plain;
pub mod server;
pub mod status;

pub use server::Error;

use server::client::{copy_read, peer_view, read_view};
use server::{
    fresh_server, server_step, ErrorView, Server, ServerInput, ServerPhase, ServerState,
    ServerStep, ServerStepView,
};
use status::Status;

verus! {

/// The last of the ports that only the superuser may listen on.
pub const PRIVILEGED_LIMIT: u16 = 1024;

/// Why a range of ports cannot be monitored.
#[derive(Clone, Copy, Debug, PartialEq, Eq, Structural)]
pub enum RangeError {
    /// The range begins behind its end.
    WrongRange,
    /// The range begins among the privileged ports, and the user is not the superuser.
    PrivilegedPorts,
}

/// Whether the user `uid` may have the ports from `start` to `end` monitored. A
/// range that begins behind its end is wrong for every user; one that begins at or
/// below `PRIVILEGED_LIMIT` is for the superuser (user 0) only.
pub open spec fn range_verdict(start: u16, end: u16, uid: u32) -> Result<(), RangeError> {
    if start > end {
        Err(RangeError::WrongRange)
    } else if start <= PRIVILEGED_LIMIT && uid != 0 {
        Err(RangeError::PrivilegedPorts)
    } else {
        Ok(())
    }
}

/// Decides whether the user `uid` may have the ports from `start` to `end`
/// monitored.
pub fn check_range(start: u16, end: u16, uid: u32) -> (verdict: Result<(), RangeError>)
    ensures
        verdict == range_verdict(start, end, uid),
{
    if start > end {
        Err(RangeError::WrongRange)
    } else if start <= PRIVILEGED_LIMIT && uid != 0 {
        Err(RangeError::PrivilegedPorts)
    } else {
        Ok(())
    }
}

impl RangeError {
    /// The text that describes this error.
    pub fn message(&self) -> (text: String)
        ensures
            text@ == (match *self {
                RangeError::WrongRange => "RANGE_START must be lesser or equal to RANGE_END"@,
                RangeError::PrivilegedPorts => "must be root to use ports from 1 to 1024"@,
            }),
    {
        match self {
            RangeError::WrongRange => String::from_str(
                "RANGE_START must be lesser or equal to RANGE_END",
            ),
            RangeError::PrivilegedPorts => String::from_str(
                "must be root to use ports from 1 to 1024",
            ),
        }
    }
}

/// The stages of a monitor's life.
#[derive(Clone, Copy, Debug, PartialEq, Eq, Structural)]
pub enum MonitorPhase {
    /// It has its range of ports and has not started.
    Created,
    /// Its servers run.
    Running,
    /// Its run is over.
    Finished,
}

/// The monitor of the ports from `start` to `end`, both included. It only decides:
/// whoever owns the listeners and the connections tells it what they did, and
/// reports what it answers.
///
/// A port on which the monitor cannot listen does not end the run: the failure
/// is reported, the servers of the other ports go on, and the result of the run
/// is the first such failure.
#[derive(Debug)]
pub struct Monitor {
    start: u16,
    end: u16,
    phase: MonitorPhase,
    servers: Vec<Server>,
    failure: Option<Error>,
}

/// The state of a monitor: its range, its stage, its servers in the order of
/// their ports, and the first failure of a server so far.
pub struct MonitorState {
    pub start: u16,
    pub end: u16,
    pub phase: MonitorPhase,
    pub servers: Seq<ServerState>,
    pub failure: Option<ErrorView>,
}

impl View for Monitor {
    type V = MonitorState;

    closed spec fn view(&self) -> MonitorState {
        MonitorState {
            start: self.start,
            end: self.end,
            phase: self.phase,
            servers: self.servers.deep_view(),
            failure: match self.failure {
                Some(error) => Some(error@),
                None => None,
            },
        }
    }
}

/// What can happen to a monitor.
pub enum MonitorInput {
    /// It is told to start.
    Start,
    /// The attempt to listen on `port` returned.
    Bound { port: u16, bound: Result<(), IoFailureView> },
    /// A connection was accepted on `port`, and its peer's address was asked for.
    Accepted { port: u16, peer: Result<u16, IoFailureView> },
    /// An attempt to accept a connection on `port` failed.
    AcceptFailed { port: u16, cause: IoFailureView },
    /// A read returned on the connection at place `conn` of the server of `port`.
    Read { port: u16, conn: usize, read: Result<Seq<u8>, IoFailureView> },
    /// It is told to stop.
    Stop,
}

/// What a monitor answers to one input.
pub struct MonitorStepView {
    /// The monitor afterwards.
    pub state: MonitorState,
    /// What is to be reported, in this order.
    pub events: Seq<EventView>,
    /// Whether the run goes on.
    pub status: Status<ErrorView>,
    /// The place of the connection that the input was about, if its handler reads on.
    pub conn: Option<usize>,
}

/// The number of ports from `start` to `end`, both included.
pub open spec fn port_count(start: u16, end: u16) -> nat {
    if start <= end {
        (end - start + 1) as nat
    } else {
        0
    }
}

/// The servers of a run over the ports from `start` to `end`: one for each port,
/// in rising order, none of which has done anything yet.
pub open spec fn planned_servers(start: u16, end: u16) -> Seq<ServerState> {
    Seq::new(port_count(start, end), |i: int| fresh_server((start + i) as u16))
}

/// The monitor of the ports from `start` to `end`, before it started.
pub open spec fn fresh_monitor(start: u16, end: u16) -> MonitorState {
    MonitorState {
        start,
        end,
        phase: MonitorPhase::Created,
        servers: Seq::empty(),
        failure: None,
    }
}

/// Whether every server of `servers` is done.
pub open spec fn all_finished(servers: Seq<ServerState>) -> bool {
    forall|i: int| 0 <= i < servers.len() ==> (#[trigger] servers[i]).phase == ServerPhase::Finished
}

/// The result of a run in which `failure` was the first failure of a server.
pub open spec fn run_result(failure: Option<ErrorView>) -> Result<(), ErrorView> {
    match failure {
        Some(error) => Err(error),
        None => Ok(()),
    }
}

/// The first failure of a run that knew `failure` before one of its servers
/// answered with `status`.
pub open spec fn first_failure(failure: Option<ErrorView>, status: Status<ErrorView>) -> Option<
    ErrorView,
> {
    match (failure, status) {
        (None, Status::Finished(Err(error))) => Some(error),
        _ => failure,
    }
}

/// What the servers of `servers` report when each is told to stop, in the order of
/// their ports.
pub open spec fn all_stop_reports(servers: Seq<ServerState>) -> Seq<EventView>
    decreases servers.len(),
{
    if servers.len() == 0 {
        Seq::empty()
    } else {
        all_stop_reports(servers.drop_last()) + server_step(
            servers.last(),
            ServerInput::Stop,
        ).events
    }
}

/// The servers of `servers` after each was told to stop.
pub open spec fn stopped_servers(servers: Seq<ServerState>) -> Seq<ServerState> {
    servers.map_values(|s: ServerState| server_step(s, ServerInput::Stop).state)
}

/// The answer in which nothing happens: `state` goes on as it is.
pub open spec fn monitor_ignores(state: MonitorState) -> MonitorStepView {
    MonitorStepView { state, events: Seq::empty(), status: Status::Pending, conn: None }
}

/// The answer of a running monitor to what the server of `port` made of its input.
/// The server's answer `step` takes the server's place and its reports are passed
/// on. A failure of the server is kept if it is the first. If the server ended and
/// no server is left that runs, the monitor reports that it stopped, and its run
/// ends with the first failure, or well if there was none.
pub open spec fn monitor_passes(
    state: MonitorState,
    index: int,
    step: ServerStepView,
) -> MonitorStepView {
    monitor_settles(
        MonitorState { servers: state.servers.update(index, step.state), ..state },
        step.events,
        step.status,
        step.conn,
    )
}

/// What a running monitor makes of a server's answer, once the server's new state
/// stands in `state`.
pub open spec fn monitor_settles(
    state: MonitorState,
    events: Seq<EventView>,
    status: Status<ErrorView>,
    conn: Option<usize>,
) -> MonitorStepView {
    let failure = first_failure(state.failure, status);
    if status is Finished && all_finished(state.servers) {
        MonitorStepView {
            state: MonitorState { phase: MonitorPhase::Finished, failure: None, ..state },
            events: events + seq![EventView::Stopped],
            status: Status::Finished(run_result(failure)),
            conn,
        }
    } else {
        MonitorStepView {
            state: MonitorState { failure, ..state },
            events,
            status: Status::Pending,
            conn,
        }
    }
}

/// The answer of a running monitor to `input` for the server of `port`: that of
/// `monitor_passes` where the monitor has a server for that port, and none where
/// it has not.
pub open spec fn monitor_routes(
    state: MonitorState,
    port: u16,
    input: ServerInput,
) -> MonitorStepView {
    if state.start <= port <= state.end && port - state.start < state.servers.len() {
        let index = port - state.start;
        monitor_passes(state, index, server_step(state.servers[index], input))
    } else {
        monitor_ignores(state)
    }
}

/// The monitor's rule: what it becomes and what it reports when `input` comes in
/// `state`.
///
/// Told to start, a new monitor reports that it started and has one server for
/// each port of its range from then on; with an empty range it reports at once
/// that it stopped, and its run ends well. While it runs, what a listener or a
/// connection did goes to the server of its port. Told to stop, a running monitor
/// reports that it is stopping, stops every server in the order of the ports, and
/// only then reports that it stopped; its run ends with the first failure of a
/// server, or well if there was none. An input that does not fit the stage is
/// dropped, and a finished monitor drops everything.
pub open spec fn monitor_step(state: MonitorState, input: MonitorInput) -> MonitorStepView {
    match state.phase {
        MonitorPhase::Created => match input {
            MonitorInput::Start => {
                let servers = planned_servers(state.start, state.end);
                if servers.len() == 0 {
                    MonitorStepView {
                        state: MonitorState { phase: MonitorPhase::Finished, ..state },
                        events: seq![EventView::Started, EventView::Stopped],
                        status: Status::Finished(Ok(())),
                        conn: None,
                    }
                } else {
                    MonitorStepView {
                        state: MonitorState { phase: MonitorPhase::Running, servers, ..state },
                        events: seq![EventView::Started],
                        status: Status::Pending,
                        conn: None,
                    }
                }
            },
            _ => monitor_ignores(state),
        },
        MonitorPhase::Running => match input {
            MonitorInput::Start => monitor_ignores(state),
            MonitorInput::Bound { port, bound } => monitor_routes(
                state,
                port,
                ServerInput::Bound(bound),
            ),
            MonitorInput::Accepted { port, peer } => monitor_routes(
                state,
                port,
                ServerInput::Accepted(peer),
            ),
            MonitorInput::AcceptFailed { port, cause } => monitor_routes(
                state,
                port,
                ServerInput::AcceptFailed(cause),
            ),
            MonitorInput::Read { port, conn, read } => monitor_routes(
                state,
                port,
                ServerInput::Read { conn, read },
            ),
            MonitorInput::Stop => MonitorStepView {
                state: MonitorState {
                    phase: MonitorPhase::Finished,
                    servers: stopped_servers(state.servers),
                    failure: None,
                    ..state
                },
                events: seq![EventView::Stopping] + all_stop_reports(state.servers) + seq![
                    EventView::Stopped,
                ],
                status: Status::Finished(run_result(state.failure)),
                conn: None,
            },
        },
        MonitorPhase::Finished => MonitorStepView {
            state,
            events: Seq::empty(),
            status: Status::Closed,
            conn: None,
        },
    }
}

/// What a monitor in `state` answers to `input`: `monitor_step`, folded away for
/// those who only pass answers on. To see what is inside, `reveal` it.
#[verifier::opaque]
pub open spec fn monitor_answer(state: MonitorState, input: MonitorInput) -> MonitorStepView {
    monitor_step(state, input)
}

/// What a monitor answers to a series of inputs, given one after the other until
/// one of them does not leave it pending: the monitor afterwards, all reports in
/// their order, and the status and the connection of the last input that was
/// given. With no input the monitor is as before and nothing is reported.
pub open spec fn monitor_run(state: MonitorState, inputs: Seq<MonitorInput>) -> MonitorStepView
    decreases inputs.len(),
{
    if inputs.len() == 0 {
        monitor_ignores(state)
    } else {
        let first = monitor_answer(state, inputs[0]);
        if first.status is Pending {
            monitor_run_after(
                first.events,
                first.conn,
                monitor_run(first.state, inputs.skip(1)),
                inputs.len() - 1,
            )
        } else {
            first
        }
    }
}

/// The answer `rest` to the `left` inputs that were still to be given, with the
/// reports of `reported` in front of its own, and with `conn` as its connection
/// where no input was left.
pub open spec fn monitor_run_after(
    reported: Seq<EventView>,
    conn: Option<usize>,
    rest: MonitorStepView,
    left: int,
) -> MonitorStepView {
    MonitorStepView {
        state: rest.state,
        events: reported + rest.events,
        status: rest.status,
        conn: if left == 0 {
            conn
        } else {
            rest.conn
        },
    }
}

/// What can happen to a monitor, as a value to hand over.
#[derive(Debug, PartialEq, Eq)]
pub enum Input {
    /// It is told to start.
    Start,
    /// The attempt to listen on `port` returned.
    Bound { port: u16, bound: Result<(), IoFailure> },
    /// A connection was accepted on `port`, and its peer's address was asked for.
    Accepted { port: u16, peer: Result<u16, IoFailure> },
    /// An attempt to accept a connection on `port` failed.
    AcceptFailed { port: u16, cause: IoFailure },
    /// A read returned on the connection at place `conn` of the server of `port`.
    Read { port: u16, conn: usize, read: Result<Vec<u8>, IoFailure> },
    /// It is told to stop.
    Stop,
}

impl View for Input {
    type V = MonitorInput;

    open spec fn view(&self) -> MonitorInput {
        match *self {
            Input::Start => MonitorInput::Start,
            Input::Bound { port, bound: Ok(()) } => MonitorInput::Bound { port, bound: Ok(()) },
            Input::Bound { port, bound: Err(cause) } => MonitorInput::Bound {
                port,
                bound: Err(cause@),
            },
            Input::Accepted { port, peer } => MonitorInput::Accepted {
                port,
                peer: peer_view(peer),
            },
            Input::AcceptFailed { port, cause } => MonitorInput::AcceptFailed {
                port,
                cause: cause@,
            },
            Input::Read { port, conn, read } => MonitorInput::Read {
                port,
                conn,
                read: read_view(read),
            },
            Input::Stop => MonitorInput::Stop,
        }
    }
}

impl DeepView for Input {
    type V = MonitorInput;

    open spec fn deep_view(&self) -> MonitorInput {
        self@
    }
}

impl Clone for Input {
    fn clone(&self) -> (copy: Input)
        ensures
            copy@ == self@,
    {
        match self {
            Input::Start => Input::Start,
            Input::Bound { port, bound: Ok(()) } => Input::Bound { port: *port, bound: Ok(()) },
            Input::Bound { port, bound: Err(cause) } => Input::Bound {
                port: *port,
                bound: Err(cause.clone()),
            },
            Input::Accepted { port, peer: Ok(peer) } => Input::Accepted {
                port: *port,
                peer: Ok(*peer),
            },
            Input::Accepted { port, peer: Err(cause) } => Input::Accepted {
                port: *port,
                peer: Err(cause.clone()),
            },
            Input::AcceptFailed { port, cause } => Input::AcceptFailed {
                port: *port,
                cause: cause.clone(),
            },
            Input::Read { port, conn, read } => Input::Read {
                port: *port,
                conn: *conn,
                read: copy_read(read),
            },
            Input::Stop => Input::Stop,
        }
    }
}

/// What a monitor answers to one input.
#[derive(Debug, PartialEq, Eq)]
pub struct MonitorStep {
    /// What is to be reported, in this order.
    pub events: Vec<Event>,
    /// Whether the run goes on.
    pub status: Status<Error>,
    /// The place of the connection that the input was about, if its handler reads on.
    pub conn: Option<usize>,
}

impl MonitorStep {
    /// Whether this answer is the one that the rule gives, with `state` as the
    /// monitor afterwards.
    pub open spec fn matches(self, state: MonitorState, expected: MonitorStepView) -> bool {
        &&& state == expected.state
        &&& self.events.deep_view() == expected.events
        &&& self.status@ == expected.status
        &&& self.conn == expected.conn
    }
}

/// Whether a run over `all` that began in `origin` is accounted for once `done` of
/// its inputs were given: it has reached `state`, made the reports of `reported`,
/// and the last input left `status` and `conn`. If the run still goes on, the whole
/// run is what the inputs that are left make of `state`, behind those reports; if
/// not, the whole run is what was reached.
#[verifier::opaque]
spec fn run_stands(
    origin: MonitorState,
    all: Seq<MonitorInput>,
    done: int,
    state: MonitorState,
    reported: Seq<EventView>,
    status: Status<ErrorView>,
    conn: Option<usize>,
) -> bool {
    &&& 0 <= done <= all.len()
    &&& monitor_run(origin, all) == if status is Pending {
        monitor_run_after(reported, conn, monitor_run(state, all.skip(done)), all.len() - done)
    } else {
        MonitorStepView { state, events: reported, status, conn }
    }
}

/// Before any input is given, a run stands where it began.
proof fn lemma_run_begins(origin: MonitorState, all: Seq<MonitorInput>)
    ensures
        run_stands(origin, all, 0, origin, Seq::empty(), Status::Pending, None),
{
    reveal(run_stands);
    assert(all.skip(0) =~= all);
    let whole = monitor_run(origin, all);
    assert(Seq::<EventView>::empty() + whole.events =~= whole.events);
}

/// One more input of a run: if the run stands at `state` after `done` inputs and
/// still goes on, and `first` is the answer to the next input, then it stands at
/// the state that `first` leaves after one input more, with the reports of `first`
/// behind the earlier ones.
proof fn lemma_run_goes_on(
    origin: MonitorState,
    all: Seq<MonitorInput>,
    done: int,
    state: MonitorState,
    reported: Seq<EventView>,
    conn: Option<usize>,
    first: MonitorStepView,
)
    requires
        run_stands(origin, all, done, state, reported, Status::Pending, conn),
        done < all.len(),
        first == monitor_answer(state, all[done]),
    ensures
        run_stands(
            origin,
            all,
            done + 1,
            first.state,
            reported + first.events,
            first.status,
            first.conn,
        ),
{
    reveal(run_stands);
    let left = all.skip(done);
    assert(left[0] == all[done]);
    assert(left.skip(1) =~= all.skip(done + 1));
    if first.status is Pending {
        let rest = monitor_run(first.state, all.skip(done + 1));
        assert(reported + (first.events + rest.events) =~= (reported + first.events) + rest.events);
    }
}

/// The end of a run: once no input is left or the run does not go on, the whole
/// run is what was reached.
proof fn lemma_run_ends(
    origin: MonitorState,
    all: Seq<MonitorInput>,
    done: int,
    state: MonitorState,
    reported: Seq<EventView>,
    status: Status<ErrorView>,
    conn: Option<usize>,
)
    requires
        run_stands(origin, all, done, state, reported, status, conn),
        done == all.len() || !(status is Pending),
    ensures
        monitor_run(origin, all) == (MonitorStepView { state, events: reported, status, conn }),
{
    reveal(run_stands);
    if status is Pending {
        assert(all.skip(done).len() == 0);
        assert(reported + Seq::<EventView>::empty() =~= reported);
    }
}

/// The monitor of the ports from `start` to `end`, both included.
pub fn new(start: u16, end: u16) -> (monitor: Monitor)
    ensures
        monitor@ == fresh_monitor(start, end),
{
    let monitor = Monitor {
        start,
        end,
        phase: MonitorPhase::Created,
        servers: Vec::new(),
        failure: None,
    };
    assert(monitor.servers.deep_view() =~= Seq::<ServerState>::empty());
    monitor
}

impl Monitor {
    /// The monitor of the ports from `start` to `stop`, both included.
    pub fn new(start: u16, stop: u16) -> (monitor: Monitor)
        ensures
            monitor@ == fresh_monitor(start, stop),
    {
        self::new(start, stop)
    }

    /// The monitor's stage.
    pub fn phase(&self) -> (phase: MonitorPhase)
        ensures
            phase == self@.phase,
    {
        self.phase
    }

    /// Whether the run is over.
    pub fn is_finished(&self) -> (b: bool)
        ensures
            b == (self@.phase == MonitorPhase::Finished),
    {
        match self.phase {
            MonitorPhase::Finished => true,
            _ => false,
        }
    }

    /// The first port of the range.
    pub fn first_port(&self) -> (port: u16)
        ensures
            port == self@.start,
    {
        self.start
    }

    /// The last port of the range.
    pub fn last_port(&self) -> (port: u16)
        ensures
            port == self@.end,
    {
        self.end
    }

    /// The monitor's servers, in the order of their ports.
    pub fn servers(&self) -> (servers: &Vec<Server>)
        ensures
            servers.deep_view() == self@.servers,
    {
        &self.servers
    }

    /// Whether every server is done.
    fn all_done(&self) -> (b: bool)
        ensures
            b == all_finished(self@.servers),
    {
        let mut i: usize = 0;
        while i < self.servers.len()
            invariant
                i <= self.servers.len(),
                forall|j: int|
                    0 <= j < i ==> (#[trigger] self.servers.deep_view()[j]).phase
                        == ServerPhase::Finished,
            decreases self.servers.len() - i,
        {
            if !self.servers[i].is_finished() {
                assert(self.servers.deep_view()[i as int].phase != ServerPhase::Finished);
                return false;
            }
            i += 1;
        }
        true
    }

    /// The result of the run, taken out of the monitor.
    fn take_result(&mut self) -> (result: Result<(), Error>)
        ensures
            Status::<Error>::Finished(result)@ == Status::<ErrorView>::Finished(
                run_result(old(self)@.failure),
            ),
            final(self)@ == (MonitorState { failure: None, ..old(self)@ }),
    {
        match self.failure.take() {
            Some(error) => Err(error),
            None => Ok(()),
        }
    }

    /// The answer of a monitor that drops its input.
    fn ignore(&self) -> (step: MonitorStep)
        ensures
            self@.phase != MonitorPhase::Finished ==> step.matches(self@, monitor_ignores(self@)),
            self@.phase == MonitorPhase::Finished ==> step.matches(
                self@,
                MonitorStepView {
                    state: self@,
                    events: Seq::empty(),
                    status: Status::Closed,
                    conn: None,
                },
            ),
    {
        match self.phase {
            MonitorPhase::Finished => MonitorStep {
                events: no_events(),
                status: Status::Closed,
                conn: None,
            },
            _ => MonitorStep { events: no_events(), status: Status::Pending, conn: None },
        }
    }

    /// The place of the server of `port`, if the monitor has one.
    fn index_of(&self, port: u16) -> (index: Option<usize>)
        ensures
            index is Some <==> self@.start <= port <= self@.end && port - self@.start
                < self@.servers.len(),
            index is Some ==> index->0 == port - self@.start,
    {
        if self.start <= port && port <= self.end {
            let index: usize = (port - self.start) as usize;
            if index < self.servers.len() {
                return Some(index);
            }
        }
        None
    }

    /// What the monitor makes of `answer`, the answer of one of its servers.
    fn settle(&mut self, answer: ServerStep) -> (step: MonitorStep)
        ensures
            step.matches(
                final(self)@,
                monitor_settles(
                    old(self)@,
                    answer.events.deep_view(),
                    answer.status@,
                    answer.conn,
                ),
            ),
    {
        let ServerStep { events, status, conn } = answer;
        let mut events = events;
        match status {
            Status::Finished(result) => {
                match result {
                    Err(error) => {
                        if self.failure.is_none() {
                            self.failure = Some(error);
                        }
                    },
                    Ok(()) => {},
                }
                if self.all_done() {
                    add_events(&mut events, one_event(Event::Stopped));
                    self.phase = MonitorPhase::Finished;
                    let result = self.take_result();
                    MonitorStep { events, status: Status::Finished(result), conn }
                } else {
                    MonitorStep { events, status: Status::Pending, conn }
                }
            },
            _ => MonitorStep { events, status: Status::Pending, conn },
        }
    }

    /// Tells the monitor to start: it reports that it started and sets up one
    /// server for each port of its range.
    pub fn start(&mut self) -> (step: MonitorStep)
        ensures
            step.matches(final(self)@, monitor_step(old(self)@, MonitorInput::Start)),
    {
        match self.phase {
            MonitorPhase::Created => {
                let mut events = one_event(Event::Started);
                if self.start > self.end {
                    self.phase = MonitorPhase::Finished;
                    add_events(&mut events, one_event(Event::Stopped));
                    assert(events.deep_view() =~= seq![EventView::Started, EventView::Stopped]);
                    return MonitorStep { events, status: Status::Finished(Ok(())), conn: None };
                }
                let count: usize = (self.end - self.start) as usize + 1;
                let mut servers: Vec<Server> = Vec::new();
                let mut i: usize = 0;
                while i < count
                    invariant
                        i <= count,
                        count == port_count(self.start, self.end),
                        self.start <= self.end,
                        servers.len() == i,
                        forall|j: int|
                            0 <= j < i ==> (#[trigger] servers.deep_view()[j]) == fresh_server(
                                (self.start + j) as u16,
                            ),
                    decreases count - i,
                {
                    let ghost built = servers.deep_view();
                    let server = server::new((self.start as usize + i) as u16);
                    servers.push(server);
                    assert(servers.deep_view() =~= built.push(server@));
                    i += 1;
                }
                assert(servers.deep_view() =~= planned_servers(self.start, self.end));
                self.servers = servers;
                self.phase = MonitorPhase::Running;
                MonitorStep { events, status: Status::Pending, conn: None }
            },
            _ => self.ignore(),
        }
    }

    /// Tells the monitor what the attempt to listen on `port` gave.
    pub fn on_bind(&mut self, port: u16, bound: Result<(), IoFailure>) -> (step: MonitorStep)
        ensures
            step.matches(
                final(self)@,
                monitor_step(
                    old(self)@,
                    MonitorInput::Bound {
                        port,
                        bound: match bound {
                            Ok(()) => Ok(()),
                            Err(cause) => Err(cause@),
                        },
                    },
                ),
            ),
    {
        match self.phase {
            MonitorPhase::Running => match self.index_of(port) {
                Some(index) => {
                    let ghost table = self.servers.deep_view();
                    let answer = self.servers[index].on_bind(bound);
                    assert(self.servers.deep_view() =~= table.update(
                        index as int,
                        self.servers[index as int]@,
                    ));
                    self.settle(answer)
                },
                None => self.ignore(),
            },
            _ => self.ignore(),
        }
    }

    /// Tells the monitor that a connection was accepted on `port`, and what asking
    /// for its peer's address gave.
    pub fn on_accept(&mut self, port: u16, peer: Result<u16, IoFailure>) -> (step: MonitorStep)
        ensures
            step.matches(
                final(self)@,
                monitor_step(old(self)@, MonitorInput::Accepted { port, peer: peer_view(peer) }),
            ),
    {
        match self.phase {
            MonitorPhase::Running => match self.index_of(port) {
                Some(index) => {
                    let ghost table = self.servers.deep_view();
                    let answer = self.servers[index].on_accept(peer);
                    assert(self.servers.deep_view() =~= table.update(
                        index as int,
                        self.servers[index as int]@,
                    ));
                    self.settle(answer)
                },
                None => self.ignore(),
            },
            _ => self.ignore(),
        }
    }

    /// Tells the monitor that an attempt to accept a connection on `port` failed.
    pub fn on_accept_error(&mut self, port: u16, cause: IoFailure) -> (step: MonitorStep)
        ensures
            step.matches(
                final(self)@,
                monitor_step(old(self)@, MonitorInput::AcceptFailed { port, cause: cause@ }),
            ),
    {
        match self.phase {
            MonitorPhase::Running => match self.index_of(port) {
                Some(index) => {
                    let ghost table = self.servers.deep_view();
                    let answer = self.servers[index].on_accept_error(cause);
                    assert(self.servers.deep_view() =~= table.update(
                        index as int,
                        self.servers[index as int]@,
                    ));
                    self.settle(answer)
                },
                None => self.ignore(),
            },
            _ => self.ignore(),
        }
    }

    /// Tells the monitor what a read gave on the connection at place `conn` of the
    /// server of `port`: the bytes it brought (none at the end of the stream), or
    /// why it failed.
    pub fn on_read(&mut self, port: u16, conn: usize, read: Result<Vec<u8>, IoFailure>) -> (step:
        MonitorStep)
        ensures
            step.matches(
                final(self)@,
                monitor_step(
                    old(self)@,
                    MonitorInput::Read { port, conn, read: read_view(read) },
                ),
            ),
    {
        match self.phase {
            MonitorPhase::Running => match self.index_of(port) {
                Some(index) => {
                    let ghost table = self.servers.deep_view();
                    let answer = self.servers[index].on_read(conn, read);
                    assert(self.servers.deep_view() =~= table.update(
                        index as int,
                        self.servers[index as int]@,
                    ));
                    self.settle(answer)
                },
                None => self.ignore(),
            },
            _ => self.ignore(),
        }
    }

    /// Gives the monitor one input.
    pub fn step(&mut self, input: Input) -> (step: MonitorStep)
        ensures
            step.matches(final(self)@, monitor_step(old(self)@, input@)),
    {
        match input {
            Input::Start => self.start(),
            Input::Bound { port, bound } => self.on_bind(port, bound),
            Input::Accepted { port, peer } => self.on_accept(port, peer),
            Input::AcceptFailed { port, cause } => self.on_accept_error(port, cause),
            Input::Read { port, conn, read } => self.on_read(port, conn, read),
            Input::Stop => self.stop(),
        }
    }

    /// Gives the monitor one input, for a caller that only passes the answer on.
    fn step_folded(&mut self, input: Input) -> (step: MonitorStep)
        ensures
            step.matches(final(self)@, monitor_answer(old(self)@, input@)),
    {
        reveal(monitor_answer);
        self.step(input)
    }

    /// Runs the monitor over what happened: gives it the inputs of `inputs` one
    /// after the other, for as long as it stays pending.
    pub fn run(&mut self, inputs: &[Input]) -> (step: MonitorStep)
        ensures
            step.matches(final(self)@, monitor_run(old(self)@, inputs.deep_view())),
    {
        let ghost all = inputs.deep_view();
        let mut events = no_events();
        let mut status: Status<Error> = Status::Pending;
        let mut conn: Option<usize> = None;
        let mut i: usize = 0;
        proof {
            lemma_run_begins(self@, all);
        }
        while i < inputs.len() && status.is_pending()
            invariant
                i <= inputs.len(),
                all == inputs.deep_view(),
                all.len() == inputs.len(),
                run_stands(old(self)@, all, i as int, self@, events.deep_view(), status@, conn),
            decreases inputs.len() - i,
        {
            let ghost reported = events.deep_view();
            let ghost before = self@;
            let ghost had = conn;
            assert(all[i as int] == inputs[i as int]@);
            let next = self.step_folded(inputs[i].clone());
            proof {
                lemma_run_goes_on(
                    old(self)@,
                    all,
                    i as int,
                    before,
                    reported,
                    had,
                    monitor_answer(before, all[i as int]),
                );
            }
            add_events(&mut events, next.events);
            status = next.status;
            conn = next.conn;
            i += 1;
        }
        proof {
            lemma_run_ends(old(self)@, all, i as int, self@, events.deep_view(), status@, conn);
        }
        MonitorStep { events, status, conn }
    }

    /// Tells the monitor to stop.
    pub fn stop(&mut self) -> (step: MonitorStep)
        ensures
            step.matches(final(self)@, monitor_step(old(self)@, MonitorInput::Stop)),
    {
        match self.phase {
            MonitorPhase::Running => {
                let ghost before = self.servers.deep_view();
                let mut events = one_event(Event::Stopping);
                let mut i: usize = 0;
                assert(before.take(0) =~= Seq::<ServerState>::empty());
                while i < self.servers.len()
                    invariant
                        i <= self.servers.len(),
                        self.servers.len() == before.len(),
                        self.start == old(self).start,
                        self.end == old(self).end,
                        self.phase == old(self).phase,
                        self.failure == old(self).failure,
                        forall|j: int|
                            0 <= j < i ==> (#[trigger] self.servers.deep_view()[j]) == server_step(
                                before[j],
                                ServerInput::Stop,
                            ).state,
                        forall|j: int|
                            i <= j < before.len() ==> (#[trigger] self.servers.deep_view()[j])
                                == before[j],
                        events.deep_view() == seq![EventView::Stopping] + all_stop_reports(
                            before.take(i as int),
                        ),
                    decreases self.servers.len() - i,
                {
                    let ghost table = self.servers.deep_view();
                    let ghost reported = all_stop_reports(before.take(i as int));
                    assert(table[i as int] == before[i as int]);
                    let answer = self.servers[i].stop();
                    let ghost added = answer.events.deep_view();
                    add_events(&mut events, answer.events);
                    proof {
                        assert(self.servers.deep_view() =~= table.update(
                            i as int,
                            self.servers[i as int]@,
                        ));
                        let upto = before.take(i as int + 1);
                        assert(upto.drop_last() =~= before.take(i as int));
                        assert(upto.last() == before[i as int]);
                        let lead = seq![EventView::Stopping];
                        assert((lead + reported) + added =~= lead + (reported + added));
                    }
                    i += 1;
                }
                add_events(&mut events, one_event(Event::Stopped));
                self.phase = MonitorPhase::Finished;
                proof {
                    assert(before.take(before.len() as int) =~= before);
                    assert(self.servers.deep_view() =~= stopped_servers(before));
                }
                let result = self.take_result();
                MonitorStep { events, status: Status::Finished(result), conn: None }
            },
            _ => self.ignore(),
        }
    }
}

} // verus!
