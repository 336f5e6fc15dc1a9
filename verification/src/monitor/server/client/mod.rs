use crate::monitor::status::Status;
use crate::reporters::{Event, EventView};
use crate::utils::{IoFailure, IoFailureView};
use vstd::prelude::*;
use vstd::string::StringExecFns;

pub mod laws;

verus! {

/// How many bytes a client handler asks for in one read.
pub const BUFFER_SIZE: usize = 1024;

/// Why a client handler failed.
#[derive(Debug, PartialEq, Eq)]
pub enum Error {
    /// Its connection failed.
    IO(IoFailure),
}

/// The mathematical content of an `Error`.
pub enum ErrorView {
    IO(IoFailureView),
}

impl View for Error {
    type V = ErrorView;

    open spec fn view(&self) -> ErrorView {
        match *self {
            Error::IO(cause) => ErrorView::IO(cause@),
        }
    }
}

/// The text that describes `error`.
pub open spec fn error_text(error: ErrorView) -> Seq<char> {
    match error {
        ErrorView::IO(cause) => "fatal error (IO="@ + cause.message,
    }
}

impl Error {
    /// The text that describes this error.
    pub fn message(&self) -> (text: String)
        ensures
            text@ == error_text(self@),
    {
        match self {
            Error::IO(cause) => {
                let mut text = String::from_str("fatal error (IO=");
                text.append(cause.message.as_str());
                text
            },
        }
    }
}

/// The stages of a client handler's life.
#[derive(Clone, Copy, Debug, PartialEq, Eq, Structural)]
pub enum ClientPhase {
    /// It holds a connection and does not know its peer yet.
    Created,
    /// It has reported the connection and reads from it.
    Reading,
    /// It is done with the connection.
    Finished,
}

/// The handler of one accepted connection. It only decides: whoever owns the
/// connection tells it what the connection did, and reports what it answers.
#[derive(Clone, Copy, Debug)]
pub struct Client {
    port: u16,
    id: usize,
    phase: ClientPhase,
}

/// The state of a client handler: the port it was accepted on, the identifier
/// under which it reports (meaningful once it reads), and its stage.
pub struct ClientState {
    pub port: u16,
    pub id: usize,
    pub phase: ClientPhase,
}

impl View for Client {
    type V = ClientState;

    closed spec fn view(&self) -> ClientState {
        ClientState { port: self.port, id: self.id, phase: self.phase }
    }
}

impl DeepView for Client {
    type V = ClientState;

    open spec fn deep_view(&self) -> ClientState {
        self@
    }
}

/// What a connection can do to its handler.
pub enum ClientInput {
    /// The peer's address was asked for: its port, or why it could not be had.
    Peer(Result<u16, IoFailureView>),
    /// A read returned: the bytes it brought (none at the end of the stream), or
    /// why it failed.
    Read(Result<Seq<u8>, IoFailureView>),
    /// The handler is told to stop.
    Stop,
}

/// What a client handler answers to one input.
pub struct ClientStepView {
    /// The handler afterwards.
    pub state: ClientState,
    /// What is to be reported, in this order.
    pub events: Seq<EventView>,
    /// Whether the handler goes on.
    pub status: Status<ErrorView>,
}

/// The handler of a connection that was just accepted on `port`.
pub open spec fn fresh_client(port: u16) -> ClientState {
    ClientState { port, id: 0, phase: ClientPhase::Created }
}

/// The answer in which nothing happens: `state` goes on as it is.
pub open spec fn client_ignores(state: ClientState) -> ClientStepView {
    ClientStepView { state, events: Seq::empty(), status: Status::Pending }
}

/// The answer that ends the handler's run with `result`, after reporting `events`.
pub open spec fn client_finishes(
    state: ClientState,
    events: Seq<EventView>,
    result: Result<(), ErrorView>,
) -> ClientStepView {
    ClientStepView {
        state: ClientState { phase: ClientPhase::Finished, ..state },
        events,
        status: Status::Finished(result),
    }
}

/// The handler's rule: what it becomes and what it reports when `input` comes
/// in `state`.
///
/// A handler learns its peer first. If the peer's port is known, it takes that port
/// as its identifier, reports the connection and reads; if not, it fails without a
/// report. While it reads, every read that brings bytes is reported with exactly
/// those bytes; a read that fails for want of data (a timeout) changes nothing; the
/// end of the stream, any other failure and a stop end the run, and each of them
/// reports the disconnection first. An input that does not fit the stage is
/// dropped, and a finished handler drops everything.
pub open spec fn client_step(state: ClientState, input: ClientInput) -> ClientStepView {
    match state.phase {
        ClientPhase::Created => match input {
            ClientInput::Peer(Ok(peer)) => ClientStepView {
                state: ClientState { id: peer as usize, phase: ClientPhase::Reading, ..state },
                events: seq![EventView::ClientConnected { id: peer as usize, port: state.port }],
                status: Status::Pending,
            },
            ClientInput::Peer(Err(cause)) => client_finishes(
                state,
                Seq::empty(),
                Err(ErrorView::IO(cause)),
            ),
            ClientInput::Read(_) => client_ignores(state),
            ClientInput::Stop => client_finishes(state, Seq::empty(), Ok(())),
        },
        ClientPhase::Reading => match input {
            ClientInput::Peer(_) => client_ignores(state),
            ClientInput::Read(Ok(bytes)) => if bytes.len() > 0 {
                ClientStepView {
                    state,
                    events: seq![EventView::ClientMessageReceived { id: state.id, msg: bytes }],
                    status: Status::Pending,
                }
            } else {
                client_finishes(state, seq![EventView::ClientDisconnected { id: state.id }], Ok(()))
            },
            ClientInput::Read(Err(cause)) => if cause.kind.spec_is_timeout() {
                client_ignores(state)
            } else {
                client_finishes(
                    state,
                    seq![EventView::ClientDisconnected { id: state.id }],
                    Err(ErrorView::IO(cause)),
                )
            },
            ClientInput::Stop => client_finishes(
                state,
                seq![EventView::ClientDisconnected { id: state.id }],
                Ok(()),
            ),
        },
        ClientPhase::Finished => ClientStepView {
            state,
            events: Seq::empty(),
            status: Status::Closed,
        },
    }
}

/// What a client handler answers to a series of inputs, given one after the
/// other until one of them does not leave it pending: the handler afterwards, all
/// reports in their order, and the status after the last input that was given.
/// With no input the handler is as before and nothing is reported.
pub open spec fn client_run(state: ClientState, inputs: Seq<ClientInput>) -> ClientStepView
    decreases inputs.len(),
{
    if inputs.len() == 0 {
        client_ignores(state)
    } else {
        let first = client_step(state, inputs[0]);
        if first.status is Pending {
            let rest = client_run(first.state, inputs.skip(1));
            ClientStepView {
                state: rest.state,
                events: first.events + rest.events,
                status: rest.status,
            }
        } else {
            first
        }
    }
}

/// The inputs of a connection whose peer was asked for first and that then
/// returned `reads`, one after the other.
pub open spec fn session(
    peer: Result<u16, IoFailureView>,
    reads: Seq<Result<Seq<u8>, IoFailureView>>,
) -> Seq<ClientInput> {
    seq![ClientInput::Peer(peer)] + reads.map_values(
        |read: Result<Seq<u8>, IoFailureView>| ClientInput::Read(read),
    )
}

/// The outcomes of a series of reads, as the rule reads them.
pub open spec fn reads_view(reads: Seq<Result<Vec<u8>, IoFailure>>) -> Seq<
    Result<Seq<u8>, IoFailureView>,
> {
    reads.map_values(|read: Result<Vec<u8>, IoFailure>| read_view(read))
}

/// What a client handler answers to one input.
#[derive(Debug, PartialEq, Eq)]
pub struct ClientStep {
    /// What is to be reported, in this order.
    pub events: Vec<Event>,
    /// Whether the handler goes on.
    pub status: Status<Error>,
}

impl ClientStep {
    /// Whether this answer is the one that the rule gives, with `state` as the
    /// handler afterwards.
    pub open spec fn matches(self, state: ClientState, expected: ClientStepView) -> bool {
        &&& state == expected.state
        &&& self.events.deep_view() == expected.events
        &&& self.status@ == expected.status
    }
}

/// The outcome of asking for the peer's address, as the rule reads it.
pub open spec fn peer_view(peer: Result<u16, IoFailure>) -> Result<u16, IoFailureView> {
    match peer {
        Ok(port) => Ok(port),
        Err(cause) => Err(cause@),
    }
}

/// The outcome of a read, as the rule reads it.
pub open spec fn read_view(read: Result<Vec<u8>, IoFailure>) -> Result<Seq<u8>, IoFailureView> {
    match read {
        Ok(bytes) => Ok(bytes@),
        Err(cause) => Err(cause@),
    }
}

/// The handler for a connection that was just accepted on `port`.
pub fn new(port: u16) -> (client: Client)
    ensures
        client@ == fresh_client(port),
{
    Client { port, id: 0, phase: ClientPhase::Created }
}

/// The answer `rest`, with the reports of `reported` in front of its own.
spec fn run_after(reported: Seq<EventView>, rest: ClientStepView) -> ClientStepView {
    ClientStepView { state: rest.state, events: reported + rest.events, status: rest.status }
}

/// The answer made of `state`, `events` and `status`.
spec fn step_view(
    state: ClientState,
    events: Vec<Event>,
    status: Status<Error>,
) -> ClientStepView {
    ClientStepView { state, events: events.deep_view(), status: status@ }
}

/// A copy of the outcome of a read.
pub fn copy_read(read: &Result<Vec<u8>, IoFailure>) -> (copy: Result<Vec<u8>, IoFailure>)
    ensures
        read_view(copy) == read_view(*read),
{
    match read {
        Ok(bytes) => {
            let copy = bytes.clone();
            assert(copy@ =~= bytes@);
            Ok(copy)
        },
        Err(cause) => Err(cause.clone()),
    }
}

impl Client {
    /// The port on which the connection was accepted.
    pub fn port(&self) -> (port: u16)
        ensures
            port == self@.port,
    {
        self.port
    }

    /// The identifier under which the handler reports.
    pub fn id(&self) -> (id: usize)
        ensures
            id == self@.id,
    {
        self.id
    }

    /// The handler's stage.
    pub fn phase(&self) -> (phase: ClientPhase)
        ensures
            phase == self@.phase,
    {
        self.phase
    }

    /// Whether the handler is done with its connection.
    pub fn is_finished(&self) -> (b: bool)
        ensures
            b == (self@.phase == ClientPhase::Finished),
    {
        match self.phase {
            ClientPhase::Finished => true,
            _ => false,
        }
    }

    /// Ends the run with `result`, after the reports of `events`.
    fn finish(&mut self, events: Vec<Event>, result: Result<(), Error>) -> (step: ClientStep)
        ensures
            step.matches(
                final(self)@,
                client_finishes(
                    old(self)@,
                    events.deep_view(),
                    match result {
                        Ok(()) => Ok(()),
                        Err(e) => Err(e@),
                    },
                ),
            ),
    {
        self.phase = ClientPhase::Finished;
        ClientStep { events, status: Status::Finished(result) }
    }

    /// The answer of a handler that drops its input.
    fn ignore(&self) -> (step: ClientStep)
        ensures
            self@.phase != ClientPhase::Finished ==> step.matches(self@, client_ignores(self@)),
            self@.phase == ClientPhase::Finished ==> step.matches(
                self@,
                ClientStepView { state: self@, events: Seq::empty(), status: Status::Closed },
            ),
    {
        let events: Vec<Event> = Vec::new();
        assert(events.deep_view() =~= Seq::<EventView>::empty());
        match self.phase {
            ClientPhase::Finished => ClientStep { events, status: Status::Closed },
            _ => ClientStep { events, status: Status::Pending },
        }
    }

    /// Tells the handler what asking for the peer's address gave.
    pub fn on_peer(&mut self, peer: Result<u16, IoFailure>) -> (step: ClientStep)
        ensures
            step.matches(final(self)@, client_step(old(self)@, ClientInput::Peer(peer_view(peer)))),
    {
        match self.phase {
            ClientPhase::Created => match peer {
                Ok(port) => {
                    let id: usize = port as usize;
                    self.id = id;
                    self.phase = ClientPhase::Reading;
                    let mut events: Vec<Event> = Vec::new();
                    events.push(Event::ClientConnected { id, port: self.port });
                    assert(events.deep_view() =~= seq![
                        EventView::ClientConnected { id, port: self.port },
                    ]);
                    ClientStep { events, status: Status::Pending }
                },
                Err(cause) => {
                    let events: Vec<Event> = Vec::new();
                    assert(events.deep_view() =~= Seq::<EventView>::empty());
                    self.finish(events, Err(Error::IO(cause)))
                },
            },
            _ => self.ignore(),
        }
    }

    /// Tells the handler what a read gave: the bytes it brought (none at the end of
    /// the stream), or why it failed.
    pub fn on_read(&mut self, read: Result<Vec<u8>, IoFailure>) -> (step: ClientStep)
        ensures
            step.matches(final(self)@, client_step(old(self)@, ClientInput::Read(read_view(read)))),
    {
        match self.phase {
            ClientPhase::Reading => match read {
                Ok(bytes) => {
                    let mut events: Vec<Event> = Vec::new();
                    if bytes.len() > 0 {
                        let ghost content = bytes@;
                        events.push(Event::ClientMessageReceived { id: self.id, msg: bytes });
                        assert(events.deep_view() =~= seq![
                            EventView::ClientMessageReceived { id: self.id, msg: content },
                        ]);
                        ClientStep { events, status: Status::Pending }
                    } else {
                        events.push(Event::ClientDisconnected { id: self.id });
                        assert(events.deep_view() =~= seq![
                            EventView::ClientDisconnected { id: self.id },
                        ]);
                        self.finish(events, Ok(()))
                    }
                },
                Err(cause) => {
                    if cause.is_timeout() {
                        self.ignore()
                    } else {
                        let mut events: Vec<Event> = Vec::new();
                        events.push(Event::ClientDisconnected { id: self.id });
                        assert(events.deep_view() =~= seq![
                            EventView::ClientDisconnected { id: self.id },
                        ]);
                        self.finish(events, Err(Error::IO(cause)))
                    }
                },
            },
            _ => self.ignore(),
        }
    }

    /// Runs the handler over a whole connection: tells it `peer`, then the
    /// outcomes in `reads` one after the other, for as long as it stays pending.
    pub fn run(
        &mut self,
        peer: Result<u16, IoFailure>,
        reads: &[Result<Vec<u8>, IoFailure>],
    ) -> (step: ClientStep)
        ensures
            step.matches(
                final(self)@,
                client_run(old(self)@, session(peer_view(peer), reads_view(reads@))),
            ),
    {
        let ghost inputs = session(peer_view(peer), reads_view(reads@));
        let first = self.on_peer(peer);
        let mut events = first.events;
        let mut status = first.status;
        let mut i: usize = 0;
        assert(inputs.skip(1).len() == reads@.len());
        while i < reads.len() && status.is_pending()
            invariant
                i <= reads@.len(),
                inputs == session(peer_view(peer), reads_view(reads@)),
                inputs.len() == reads@.len() + 1,
                status@ is Pending ==> client_run(old(self)@, inputs) == run_after(
                    events.deep_view(),
                    client_run(self@, inputs.skip(i + 1)),
                ),
                !(status@ is Pending) ==> step_view(self@, events, status) == client_run(
                    old(self)@,
                    inputs,
                ),
            decreases reads@.len() - i,
        {
            let ghost before = self@;
            let ghost reported = events.deep_view();
            let next = self.on_read(copy_read(&reads[i]));
            let mut more = next.events;
            let ghost added = more.deep_view();
            events.append(&mut more);
            status = next.status;
            proof {
                assert(inputs[i + 1] == ClientInput::Read(read_view(reads@[i as int])));
                assert(inputs.skip(i + 1).skip(1) =~= inputs.skip(i + 2));
                assert(events.deep_view() =~= reported + added);
                let rest = client_run(self@, inputs.skip(i + 2));
                assert(reported + (added + rest.events) =~= (reported + added) + rest.events);
            }
            i += 1;
        }
        proof {
            if status@ is Pending {
                assert(inputs.skip(i + 1).len() == 0);
                assert(events.deep_view() + Seq::<EventView>::empty() =~= events.deep_view());
            }
        }
        ClientStep { events, status }
    }

    /// Tells the handler to stop.
    pub fn stop(&mut self) -> (step: ClientStep)
        ensures
            step.matches(final(self)@, client_step(old(self)@, ClientInput::Stop)),
    {
        match self.phase {
            ClientPhase::Created => {
                let events: Vec<Event> = Vec::new();
                assert(events.deep_view() =~= Seq::<EventView>::empty());
                self.finish(events, Ok(()))
            },
            ClientPhase::Reading => {
                let mut events: Vec<Event> = Vec::new();
                events.push(Event::ClientDisconnected { id: self.id });
                assert(events.deep_view() =~= seq![EventView::ClientDisconnected { id: self.id }]);
                self.finish(events, Ok(()))
            },
            ClientPhase::Finished => self.ignore(),
        }
    }
}

} // verus!
