use crate::monitor::status::Status;
use crate::reporters::{add_events, no_events, one_event, Event, EventView};
use crate::utils::{decimal_digits, push_decimal, IoFailure, IoFailureView};
use vstd::prelude::*;
use vstd::string::StringExecFns;

pub mod client;
pub mod laws;

use client::{
    client_step, fresh_client, Client, ClientInput, ClientPhase, ClientState, ClientStep,
    ClientStepView,
};

verus! {

/// Why a server failed.
#[derive(Debug, PartialEq, Eq)]
pub enum Error {
    /// It could not listen on `port`.
    IO { port: u16, cause: IoFailure },
}

/// The mathematical content of an `Error`.
pub enum ErrorView {
    IO { port: u16, cause: IoFailureView },
}

impl View for Error {
    type V = ErrorView;

    open spec fn view(&self) -> ErrorView {
        match *self {
            Error::IO { port, cause } => ErrorView::IO { port, cause: cause@ },
        }
    }
}

/// The text that describes `error`.
pub open spec fn error_text(error: ErrorView) -> Seq<char> {
    match error {
        ErrorView::IO { port, cause } => "fatal error (IO="@ + cause.message,
    }
}

impl Error {
    /// The text that describes this error.
    pub fn message(&self) -> (text: String)
        ensures
            text@ == error_text(self@),
    {
        match self {
            Error::IO { port, cause } => {
                let mut text = String::from_str("fatal error (IO=");
                text.append(cause.message.as_str());
                text
            },
        }
    }

    /// The port of the server that failed.
    pub fn port(&self) -> (port: u16)
        ensures
            self@ matches ErrorView::IO { port: p, .. } && p == port,
    {
        match self {
            Error::IO { port, .. } => *port,
        }
    }
}

/// The stages of a server's life.
#[derive(Clone, Copy, Debug, PartialEq, Eq, Structural)]
pub enum ServerPhase {
    /// It has a port and does not listen yet.
    Created,
    /// It listens and accepts connections.
    Listening,
    /// It is done: it could not listen, or it was stopped.
    Finished,
}

/// The server of one port. It only decides: whoever owns the listener and the
/// connections tells it what they did, and reports what it answers. A place in
/// its table of handlers stands for each connection that it accepted; the place
/// of a finished handler is given to a later connection.
#[derive(Debug)]
pub struct Server {
    port: u16,
    phase: ServerPhase,
    clients: Vec<Client>,
}

/// The state of a server: its port, its stage, and its table of handlers.
pub struct ServerState {
    pub port: u16,
    pub phase: ServerPhase,
    pub clients: Seq<ClientState>,
}

impl View for Server {
    type V = ServerState;

    closed spec fn view(&self) -> ServerState {
        ServerState { port: self.port, phase: self.phase, clients: self.clients.deep_view() }
    }
}

impl DeepView for Server {
    type V = ServerState;

    open spec fn deep_view(&self) -> ServerState {
        self@
    }
}

/// What a listener and its connections can do to their server.
pub enum ServerInput {
    /// The attempt to listen on the port returned.
    Bound(Result<(), IoFailureView>),
    /// A connection was accepted, and its peer's address was asked for.
    Accepted(Result<u16, IoFailureView>),
    /// An attempt to accept a connection failed.
    AcceptFailed(IoFailureView),
    /// A read returned on the connection at place `conn` of the table.
    Read { conn: usize, read: Result<Seq<u8>, IoFailureView> },
    /// The server is told to stop.
    Stop,
}

/// What a server answers to one input.
pub struct ServerStepView {
    /// The server afterwards.
    pub state: ServerState,
    /// What is to be reported, in this order.
    pub events: Seq<EventView>,
    /// Whether the server goes on.
    pub status: Status<ErrorView>,
    /// The place of the connection that the input was about, if its handler reads on.
    pub conn: Option<usize>,
}

/// The server of `port`, before anything happened.
pub open spec fn fresh_server(port: u16) -> ServerState {
    ServerState { port, phase: ServerPhase::Created, clients: Seq::empty() }
}

/// The text of the report of a failure of the listener on `port`.
pub open spec fn server_failure_text(port: u16, cause: IoFailureView) -> Seq<char> {
    "error in server for port "@ + decimal_digits(port as nat) + ": "@ + cause.message
}

/// The text of the report of a handler's failure.
pub open spec fn client_failure_text(error: client::ErrorView) -> Seq<char> {
    "client failed: "@ + client::error_text(error)
}

/// What a server adds to a handler's reports: the report of its failure, where it
/// ended with one.
pub open spec fn failure_report(status: Status<client::ErrorView>) -> Seq<EventView> {
    match status {
        Status::Finished(Err(error)) => seq![EventView::Error { msg: client_failure_text(error) }],
        _ => Seq::empty(),
    }
}

/// The first place of the table whose handler has finished, or the table's length
/// where none has.
pub open spec fn free_slot(clients: Seq<ClientState>) -> nat
    decreases clients.len(),
{
    if clients.len() == 0 {
        0
    } else if clients[0].phase == ClientPhase::Finished {
        0
    } else {
        1 + free_slot(clients.skip(1))
    }
}

/// The table with `handler` at `slot`: in place of the handler that was there, or,
/// where `slot` is the table's length, behind the others.
pub open spec fn with_client(clients: Seq<ClientState>, slot: int, handler: ClientState) -> Seq<
    ClientState,
> {
    if 0 <= slot < clients.len() {
        clients.update(slot, handler)
    } else {
        clients.push(handler)
    }
}

/// What the handlers of `clients` report when each is told to stop, in the order of
/// the table.
pub open spec fn stop_reports(clients: Seq<ClientState>) -> Seq<EventView>
    decreases clients.len(),
{
    if clients.len() == 0 {
        Seq::empty()
    } else {
        stop_reports(clients.drop_last()) + client_step(clients.last(), ClientInput::Stop).events
    }
}

/// The handlers of `clients` after each was told to stop.
pub open spec fn stopped_clients(clients: Seq<ClientState>) -> Seq<ClientState> {
    clients.map_values(|c: ClientState| client_step(c, ClientInput::Stop).state)
}

/// The answer in which nothing happens: `state` goes on as it is.
pub open spec fn server_ignores(state: ServerState) -> ServerStepView {
    ServerStepView { state, events: Seq::empty(), status: Status::Pending, conn: None }
}

/// The answer of a server that listens to what the handler at `slot` made of its
/// input: the handler's answer `step` goes into the table, its reports and, where
/// it failed, the report of its failure are passed on, and the server goes on.
pub open spec fn server_passes(
    state: ServerState,
    slot: int,
    step: ClientStepView,
) -> ServerStepView {
    ServerStepView {
        state: ServerState { clients: with_client(state.clients, slot, step.state), ..state },
        events: step.events + failure_report(step.status),
        status: Status::Pending,
        conn: if step.state.phase == ClientPhase::Reading {
            Some(slot as usize)
        } else {
            None
        },
    }
}

/// The server's rule: what it becomes and what it reports when `input` comes in
/// `state`.
///
/// A server first learns whether it listens. If it does, it reports that it
/// started; if not, it reports the failure and ends with it. While it listens,
/// each accepted connection gets a handler, which is told its peer at once and, if
/// it then reads, the first free place of the table; a read goes to the handler at
/// the place it names; a failed accept is reported unless it is a timeout, and the
/// server listens on. Told to stop, a listening server reports that it is
/// stopping, stops every handler in the order of the table, and only then reports
/// that it stopped. An input that does not fit the stage is dropped, and a
/// finished server drops everything.
pub open spec fn server_step(state: ServerState, input: ServerInput) -> ServerStepView {
    match state.phase {
        ServerPhase::Created => match input {
            ServerInput::Bound(Ok(())) => ServerStepView {
                state: ServerState { phase: ServerPhase::Listening, ..state },
                events: seq![EventView::ServerStarted { port: state.port }],
                status: Status::Pending,
                conn: None,
            },
            ServerInput::Bound(Err(cause)) => ServerStepView {
                state: ServerState { phase: ServerPhase::Finished, ..state },
                events: seq![EventView::Error { msg: server_failure_text(state.port, cause) }],
                status: Status::Finished(Err(ErrorView::IO { port: state.port, cause })),
                conn: None,
            },
            ServerInput::Stop => ServerStepView {
                state: ServerState { phase: ServerPhase::Finished, ..state },
                events: Seq::empty(),
                status: Status::Finished(Ok(())),
                conn: None,
            },
            _ => server_ignores(state),
        },
        ServerPhase::Listening => match input {
            ServerInput::Bound(_) => server_ignores(state),
            ServerInput::Accepted(peer) => {
                let step = client_step(fresh_client(state.port), ClientInput::Peer(peer));
                if step.state.phase == ClientPhase::Reading {
                    server_passes(state, free_slot(state.clients) as int, step)
                } else {
                    ServerStepView {
                        state,
                        events: step.events + failure_report(step.status),
                        status: Status::Pending,
                        conn: None,
                    }
                }
            },
            ServerInput::AcceptFailed(cause) => if cause.kind.spec_is_timeout() {
                server_ignores(state)
            } else {
                ServerStepView {
                    state,
                    events: seq![EventView::Error { msg: server_failure_text(state.port, cause) }],
                    status: Status::Pending,
                    conn: None,
                }
            },
            ServerInput::Read { conn, read } => if conn < state.clients.len() {
                server_passes(
                    state,
                    conn as int,
                    client_step(state.clients[conn as int], ClientInput::Read(read)),
                )
            } else {
                server_ignores(state)
            },
            ServerInput::Stop => ServerStepView {
                state: ServerState {
                    phase: ServerPhase::Finished,
                    clients: stopped_clients(state.clients),
                    ..state
                },
                events: seq![EventView::ServerStopping { port: state.port }] + stop_reports(
                    state.clients,
                ) + seq![EventView::ServerStopped { port: state.port }],
                status: Status::Finished(Ok(())),
                conn: None,
            },
        },
        ServerPhase::Finished => ServerStepView {
            state,
            events: Seq::empty(),
            status: Status::Closed,
            conn: None,
        },
    }
}

/// What a server answers to a series of inputs, given one after the other until
/// one of them does not leave it pending: the server afterwards, all reports in
/// their order, and the status and the connection of the last input that was
/// given. With no input the server is as before and nothing is reported.
pub open spec fn server_run(state: ServerState, inputs: Seq<ServerInput>) -> ServerStepView
    decreases inputs.len(),
{
    if inputs.len() == 0 {
        server_ignores(state)
    } else {
        let first = server_step(state, inputs[0]);
        if first.status is Pending {
            server_run_after(
                first.events,
                first.conn,
                server_run(first.state, inputs.skip(1)),
                inputs.len() - 1,
            )
        } else {
            first
        }
    }
}

/// The answer `rest` to the `left` inputs that were still to be given, with the
/// reports of `reported` in front of its own, and with `conn` as its connection
/// where no input was left.
pub open spec fn server_run_after(
    reported: Seq<EventView>,
    conn: Option<usize>,
    rest: ServerStepView,
    left: int,
) -> ServerStepView {
    ServerStepView {
        state: rest.state,
        events: reported + rest.events,
        status: rest.status,
        conn: if left == 0 {
            conn
        } else {
            rest.conn
        },
    }
}

/// What a listener and its connections can do to their server, as a value to hand
/// over.
#[derive(Debug, PartialEq, Eq)]
pub enum Input {
    /// The attempt to listen on the port returned.
    Bound(Result<(), IoFailure>),
    /// A connection was accepted, and its peer's address was asked for.
    Accepted(Result<u16, IoFailure>),
    /// An attempt to accept a connection failed.
    AcceptFailed(IoFailure),
    /// A read returned on the connection at place `conn` of the table.
    Read { conn: usize, read: Result<Vec<u8>, IoFailure> },
    /// The server is told to stop.
    Stop,
}

impl View for Input {
    type V = ServerInput;

    open spec fn view(&self) -> ServerInput {
        match *self {
            Input::Bound(Ok(())) => ServerInput::Bound(Ok(())),
            Input::Bound(Err(cause)) => ServerInput::Bound(Err(cause@)),
            Input::Accepted(peer) => ServerInput::Accepted(client::peer_view(peer)),
            Input::AcceptFailed(cause) => ServerInput::AcceptFailed(cause@),
            Input::Read { conn, read } => ServerInput::Read { conn, read: client::read_view(read) },
            Input::Stop => ServerInput::Stop,
        }
    }
}

impl DeepView for Input {
    type V = ServerInput;

    open spec fn deep_view(&self) -> ServerInput {
        self@
    }
}

impl Clone for Input {
    fn clone(&self) -> (copy: Input)
        ensures
            copy@ == self@,
    {
        match self {
            Input::Bound(Ok(())) => Input::Bound(Ok(())),
            Input::Bound(Err(cause)) => Input::Bound(Err(cause.clone())),
            Input::Accepted(Ok(peer)) => Input::Accepted(Ok(*peer)),
            Input::Accepted(Err(cause)) => Input::Accepted(Err(cause.clone())),
            Input::AcceptFailed(cause) => Input::AcceptFailed(cause.clone()),
            Input::Read { conn, read } => Input::Read {
                conn: *conn,
                read: client::copy_read(read),
            },
            Input::Stop => Input::Stop,
        }
    }
}

/// What a server answers to one input.
#[derive(Debug, PartialEq, Eq)]
pub struct ServerStep {
    /// What is to be reported, in this order.
    pub events: Vec<Event>,
    /// Whether the server goes on.
    pub status: Status<Error>,
    /// The place of the connection that the input was about, if its handler reads on.
    pub conn: Option<usize>,
}

impl ServerStep {
    /// Whether this answer is the one that the rule gives, with `state` as the
    /// server afterwards.
    pub open spec fn matches(self, state: ServerState, expected: ServerStepView) -> bool {
        &&& state == expected.state
        &&& self.events.deep_view() == expected.events
        &&& self.status@ == expected.status
        &&& self.conn == expected.conn
    }
}

/// The server for `port`.
pub fn new(port: u16) -> (server: Server)
    ensures
        server@ == fresh_server(port),
{
    let server = Server { port, phase: ServerPhase::Created, clients: Vec::new() };
    assert(server.clients.deep_view() =~= Seq::<ClientState>::empty());
    server
}

/// The report of a failure of the listener on `port`.
fn server_failure_event(port: u16, cause: &IoFailure) -> (event: Event)
    ensures
        event@ == (EventView::Error { msg: server_failure_text(port, cause@) }),
{
    let mut msg = String::from_str("error in server for port ");
    push_decimal(&mut msg, port as usize);
    msg.append(": ");
    msg.append(cause.message.as_str());
    Event::Error { msg }
}

/// What a server adds to a handler's reports.
fn failure_events(status: &Status<client::Error>) -> (events: Vec<Event>)
    ensures
        events.deep_view() == failure_report(status@),
{
    match status {
        Status::Finished(Err(error)) => {
            let mut msg = String::from_str("client failed: ");
            let text = error.message();
            msg.append(text.as_str());
            one_event(Event::Error { msg })
        },
        _ => no_events(),
    }
}

/// If `slot` is a place up to which no handler of `clients` has finished, and the
/// handler at `slot` has, or `slot` is the table's length, then `slot` is the
/// first free place.
proof fn lemma_free_slot(clients: Seq<ClientState>, slot: int)
    requires
        0 <= slot <= clients.len(),
        forall|j: int| 0 <= j < slot ==> (#[trigger] clients[j]).phase != ClientPhase::Finished,
        slot < clients.len() ==> clients[slot].phase == ClientPhase::Finished,
    ensures
        free_slot(clients) == slot,
    decreases clients.len(),
{
    if clients.len() > 0 && slot > 0 {
        assert(clients[0].phase != ClientPhase::Finished);
        assert forall|j: int| 0 <= j < slot - 1 implies (#[trigger] clients.skip(1)[j]).phase
            != ClientPhase::Finished by {
            assert(clients.skip(1)[j] == clients[j + 1]);
        }
        lemma_free_slot(clients.skip(1), slot - 1);
    }
}

impl Server {
    /// The server's port.
    pub fn port(&self) -> (port: u16)
        ensures
            port == self@.port,
    {
        self.port
    }

    /// The server's stage.
    pub fn phase(&self) -> (phase: ServerPhase)
        ensures
            phase == self@.phase,
    {
        self.phase
    }

    /// Whether the server is done.
    pub fn is_finished(&self) -> (b: bool)
        ensures
            b == (self@.phase == ServerPhase::Finished),
    {
        match self.phase {
            ServerPhase::Finished => true,
            _ => false,
        }
    }

    /// The number of places in the table of handlers.
    pub fn slots(&self) -> (n: usize)
        ensures
            n == self@.clients.len(),
    {
        self.clients.len()
    }

    /// The handler at place `conn` of the table, if there is such a place.
    pub fn client(&self, conn: usize) -> (handler: Option<Client>)
        ensures
            conn < self@.clients.len() ==> handler is Some
                && handler->0@ == self@.clients[conn as int],
            conn >= self@.clients.len() ==> handler is None,
    {
        if conn < self.clients.len() {
            Some(self.clients[conn])
        } else {
            None
        }
    }

    /// The first place of the table whose handler has finished, or the table's
    /// length where none has.
    fn first_free(&self) -> (slot: usize)
        ensures
            slot == free_slot(self@.clients),
            slot <= self@.clients.len(),
    {
        let mut slot: usize = 0;
        while slot < self.clients.len()
            invariant
                slot <= self.clients.len(),
                forall|j: int|
                    0 <= j < slot ==> (#[trigger] self.clients.deep_view()[j]).phase
                        != ClientPhase::Finished,
            decreases self.clients.len() - slot,
        {
            if self.clients[slot].is_finished() {
                proof {
                    lemma_free_slot(self.clients.deep_view(), slot as int);
                }
                return slot;
            }
            slot += 1;
        }
        proof {
            lemma_free_slot(self.clients.deep_view(), slot as int);
        }
        slot
    }

    /// The answer of a server that drops its input.
    fn ignore(&self) -> (step: ServerStep)
        ensures
            self@.phase != ServerPhase::Finished ==> step.matches(self@, server_ignores(self@)),
            self@.phase == ServerPhase::Finished ==> step.matches(
                self@,
                ServerStepView {
                    state: self@,
                    events: Seq::empty(),
                    status: Status::Closed,
                    conn: None,
                },
            ),
    {
        match self.phase {
            ServerPhase::Finished => ServerStep {
                events: no_events(),
                status: Status::Closed,
                conn: None,
            },
            _ => ServerStep { events: no_events(), status: Status::Pending, conn: None },
        }
    }

    /// Puts `handler`, which answered `answer`, at `slot` of the table, and passes
    /// its reports on.
    fn pass(&mut self, slot: usize, handler: Client, answer: ClientStep) -> (step: ServerStep)
        requires
            slot <= old(self)@.clients.len(),
        ensures
            step.matches(
                final(self)@,
                server_passes(
                    old(self)@,
                    slot as int,
                    ClientStepView {
                        state: handler@,
                        events: answer.events.deep_view(),
                        status: answer.status@,
                    },
                ),
            ),
    {
        if slot < self.clients.len() {
            self.clients.set(slot, handler);
            assert(self.clients.deep_view() =~= old(self).clients.deep_view().update(
                slot as int,
                handler@,
            ));
        } else {
            self.clients.push(handler);
            assert(self.clients.deep_view() =~= old(self).clients.deep_view().push(handler@));
        }
        let mut events = answer.events;
        add_events(&mut events, failure_events(&answer.status));
        let conn = if handler.is_finished() {
            None
        } else {
            match handler.phase() {
                ClientPhase::Reading => Some(slot),
                _ => None,
            }
        };
        ServerStep { events, status: Status::Pending, conn }
    }

    /// Tells the server what the attempt to listen on its port gave.
    pub fn on_bind(&mut self, bound: Result<(), IoFailure>) -> (step: ServerStep)
        ensures
            step.matches(
                final(self)@,
                server_step(
                    old(self)@,
                    ServerInput::Bound(
                        match bound {
                            Ok(()) => Ok(()),
                            Err(cause) => Err(cause@),
                        },
                    ),
                ),
            ),
    {
        match self.phase {
            ServerPhase::Created => match bound {
                Ok(()) => {
                    self.phase = ServerPhase::Listening;
                    ServerStep {
                        events: one_event(Event::ServerStarted { port: self.port }),
                        status: Status::Pending,
                        conn: None,
                    }
                },
                Err(cause) => {
                    self.phase = ServerPhase::Finished;
                    let events = one_event(server_failure_event(self.port, &cause));
                    ServerStep {
                        events,
                        status: Status::Finished(Err(Error::IO { port: self.port, cause })),
                        conn: None,
                    }
                },
            },
            _ => self.ignore(),
        }
    }

    /// Tells the server that a connection was accepted, and what asking for its
    /// peer's address gave.
    pub fn on_accept(&mut self, peer: Result<u16, IoFailure>) -> (step: ServerStep)
        ensures
            step.matches(
                final(self)@,
                server_step(old(self)@, ServerInput::Accepted(client::peer_view(peer))),
            ),
    {
        match self.phase {
            ServerPhase::Listening => {
                let mut handler = client::new(self.port);
                let answer = handler.on_peer(peer);
                match handler.phase() {
                    ClientPhase::Reading => {
                        let slot: usize = self.first_free();
                        self.pass(slot, handler, answer)
                    },
                    _ => {
                        let mut events = answer.events;
                        add_events(&mut events, failure_events(&answer.status));
                        ServerStep { events, status: Status::Pending, conn: None }
                    },
                }
            },
            _ => self.ignore(),
        }
    }

    /// Tells the server that an attempt to accept a connection failed.
    pub fn on_accept_error(&mut self, cause: IoFailure) -> (step: ServerStep)
        ensures
            step.matches(final(self)@, server_step(old(self)@, ServerInput::AcceptFailed(cause@))),
    {
        match self.phase {
            ServerPhase::Listening => {
                if cause.is_timeout() {
                    self.ignore()
                } else {
                    ServerStep {
                        events: one_event(server_failure_event(self.port, &cause)),
                        status: Status::Pending,
                        conn: None,
                    }
                }
            },
            _ => self.ignore(),
        }
    }

    /// Tells the server what a read gave on the connection at place `conn` of its
    /// table: the bytes it brought (none at the end of the stream), or why it failed.
    pub fn on_read(&mut self, conn: usize, read: Result<Vec<u8>, IoFailure>) -> (step: ServerStep)
        ensures
            step.matches(
                final(self)@,
                server_step(
                    old(self)@,
                    ServerInput::Read { conn, read: client::read_view(read) },
                ),
            ),
    {
        match self.phase {
            ServerPhase::Listening => {
                if conn < self.clients.len() {
                    let mut handler = self.clients[conn];
                    let answer = handler.on_read(read);
                    self.pass(conn, handler, answer)
                } else {
                    self.ignore()
                }
            },
            _ => self.ignore(),
        }
    }

    /// Gives the server one input.
    pub fn step(&mut self, input: Input) -> (step: ServerStep)
        ensures
            step.matches(final(self)@, server_step(old(self)@, input@)),
    {
        match input {
            Input::Bound(bound) => self.on_bind(bound),
            Input::Accepted(peer) => self.on_accept(peer),
            Input::AcceptFailed(cause) => self.on_accept_error(cause),
            Input::Read { conn, read } => self.on_read(conn, read),
            Input::Stop => self.stop(),
        }
    }

    /// Runs the server over what its listener and its connections did: gives it the
    /// inputs of `inputs` one after the other, for as long as it stays pending.
    pub fn run(&mut self, inputs: &[Input]) -> (step: ServerStep)
        ensures
            step.matches(final(self)@, server_run(old(self)@, inputs.deep_view())),
    {
        let ghost all = inputs.deep_view();
        let mut events = no_events();
        let mut status: Status<Error> = Status::Pending;
        let mut conn: Option<usize> = None;
        let mut i: usize = 0;
        proof {
            assert(all.skip(0) =~= all);
            let whole = server_run(self@, all);
            assert(Seq::<EventView>::empty() + whole.events =~= whole.events);
        }
        while i < inputs.len() && status.is_pending()
            invariant
                i <= inputs.len(),
                all == inputs.deep_view(),
                all.len() == inputs.len(),
                status@ is Pending ==> server_run(old(self)@, all) == server_run_after(
                    events.deep_view(),
                    conn,
                    server_run(self@, all.skip(i as int)),
                    all.len() - i,
                ),
                !(status@ is Pending) ==> server_run(old(self)@, all) == (ServerStepView {
                    state: self@,
                    events: events.deep_view(),
                    status: status@,
                    conn,
                }),
            decreases inputs.len() - i,
        {
            let ghost reported = events.deep_view();
            let ghost left = all.skip(i as int);
            assert(left[0] == inputs[i as int]@);
            assert(left.skip(1) =~= all.skip(i as int + 1));
            let next = self.step(inputs[i].clone());
            let ghost added = next.events.deep_view();
            add_events(&mut events, next.events);
            status = next.status;
            conn = next.conn;
            proof {
                let rest = server_run(self@, all.skip(i as int + 1));
                assert(reported + (added + rest.events) =~= (reported + added) + rest.events);
            }
            i += 1;
        }
        proof {
            if status@ is Pending {
                assert(all.skip(i as int).len() == 0);
                assert(events.deep_view() + Seq::<EventView>::empty() =~= events.deep_view());
            }
        }
        ServerStep { events, status, conn }
    }

    /// Tells the server to stop.
    pub fn stop(&mut self) -> (step: ServerStep)
        ensures
            step.matches(final(self)@, server_step(old(self)@, ServerInput::Stop)),
    {
        match self.phase {
            ServerPhase::Created => {
                self.phase = ServerPhase::Finished;
                ServerStep { events: no_events(), status: Status::Finished(Ok(())), conn: None }
            },
            ServerPhase::Listening => {
                let ghost before = self.clients.deep_view();
                let mut events = one_event(Event::ServerStopping { port: self.port });
                let mut i: usize = 0;
                assert(before.take(0) =~= Seq::<ClientState>::empty());
                while i < self.clients.len()
                    invariant
                        i <= self.clients.len(),
                        self.clients.len() == before.len(),
                        self.port == old(self).port,
                        self.phase == old(self).phase,
                        forall|j: int|
                            0 <= j < i ==> (#[trigger] self.clients.deep_view()[j]) == client_step(
                                before[j],
                                ClientInput::Stop,
                            ).state,
                        forall|j: int|
                            i <= j < before.len() ==> (#[trigger] self.clients.deep_view()[j])
                                == before[j],
                        events.deep_view() == seq![
                            EventView::ServerStopping { port: self.port },
                        ] + stop_reports(before.take(i as int)),
                    decreases self.clients.len() - i,
                {
                    let ghost table = self.clients.deep_view();
                    let ghost reported = stop_reports(before.take(i as int));
                    let mut handler = self.clients[i];
                    assert(handler@ == table[i as int]);
                    let answer = handler.stop();
                    let ghost added = answer.events.deep_view();
                    self.clients.set(i, handler);
                    add_events(&mut events, answer.events);
                    proof {
                        assert(self.clients.deep_view() =~= table.update(i as int, handler@));
                        let upto = before.take(i as int + 1);
                        assert(upto.drop_last() =~= before.take(i as int));
                        assert(upto.last() == before[i as int]);
                        let lead = seq![EventView::ServerStopping { port: self.port }];
                        assert((lead + reported) + added =~= lead + (reported + added));
                    }
                    i += 1;
                }
                add_events(&mut events, one_event(Event::ServerStopped { port: self.port }));
                self.phase = ServerPhase::Finished;
                proof {
                    assert(before.take(before.len() as int) =~= before);
                    assert(self.clients.deep_view() =~= stopped_clients(before));
                }
                ServerStep { events, status: Status::Finished(Ok(())), conn: None }
            },
            ServerPhase::Finished => self.ignore(),
        }
    }
}

} // verus!
