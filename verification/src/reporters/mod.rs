use vstd::prelude::*;

pub mod console;

verus! {

/// One notification that the monitor, a server or a client handler hands to a reporter.
#[derive(Debug, PartialEq, Eq)]
#[allow(inconsistent_fields)]
pub enum Event {
    /// The monitor began its run.
    Started,
    /// The listener on `port` is bound and accepts connections.
    ServerStarted { port: u16 },
    /// A connection known as `id` was accepted on `port`.
    ClientConnected { id: usize, port: u16 },
    /// The connection known as `id` delivered the bytes `msg`.
    ClientMessageReceived { id: usize, msg: Vec<u8> },
    /// The connection known as `id` is over.
    ClientDisconnected { id: usize },
    /// The listener on `port` was told to stop.
    ServerStopping { port: u16 },
    /// The listener on `port` and all its connections are gone.
    ServerStopped { port: u16 },
    /// The monitor was told to stop.
    Stopping,
    /// The monitor's run is over.
    Stopped,
    /// Something failed.
    Error { msg: String },
    /// Something deserves attention.
    Warning { msg: String },
}

/// The mathematical content of an `Event`.
#[allow(inconsistent_fields)]
pub enum EventView {
    Started,
    ServerStarted { port: u16 },
    ClientConnected { id: usize, port: u16 },
    ClientMessageReceived { id: usize, msg: Seq<u8> },
    ClientDisconnected { id: usize },
    ServerStopping { port: u16 },
    ServerStopped { port: u16 },
    Stopping,
    Stopped,
    Error { msg: Seq<char> },
    Warning { msg: Seq<char> },
}

impl View for Event {
    type V = EventView;

    open spec fn view(&self) -> EventView {
        match *self {
            Event::Started => EventView::Started,
            Event::ServerStarted { port } => EventView::ServerStarted { port },
            Event::ClientConnected { id, port } => EventView::ClientConnected { id, port },
            Event::ClientMessageReceived { id, msg } => EventView::ClientMessageReceived {
                id,
                msg: msg@,
            },
            Event::ClientDisconnected { id } => EventView::ClientDisconnected { id },
            Event::ServerStopping { port } => EventView::ServerStopping { port },
            Event::ServerStopped { port } => EventView::ServerStopped { port },
            Event::Stopping => EventView::Stopping,
            Event::Stopped => EventView::Stopped,
            Event::Error { msg } => EventView::Error { msg: msg@ },
            Event::Warning { msg } => EventView::Warning { msg: msg@ },
        }
    }
}

impl Clone for Event {
    fn clone(&self) -> (copy: Event)
        ensures
            copy@ == self@,
    {
        match self {
            Event::Started => Event::Started,
            Event::ServerStarted { port } => Event::ServerStarted { port: *port },
            Event::ClientConnected { id, port } => Event::ClientConnected { id: *id, port: *port },
            Event::ClientMessageReceived { id, msg } => {
                let copy = msg.clone();
                assert(copy@ =~= msg@);
                Event::ClientMessageReceived { id: *id, msg: copy }
            },
            Event::ClientDisconnected { id } => Event::ClientDisconnected { id: *id },
            Event::ServerStopping { port } => Event::ServerStopping { port: *port },
            Event::ServerStopped { port } => Event::ServerStopped { port: *port },
            Event::Stopping => Event::Stopping,
            Event::Stopped => Event::Stopped,
            Event::Error { msg } => Event::Error { msg: msg.clone() },
            Event::Warning { msg } => Event::Warning { msg: msg.clone() },
        }
    }
}

impl DeepView for Event {
    type V = EventView;

    open spec fn deep_view(&self) -> EventView {
        self@
    }
}

/// How often `event` stands in `events`.
pub open spec fn occurrences(events: Seq<EventView>, event: EventView) -> nat
    decreases events.len(),
{
    if events.len() == 0 {
        0
    } else {
        occurrences(events.drop_last(), event) + if events.last() == event {
            1nat
        } else {
            0nat
        }
    }
}

/// What stands in two series of reports, one after the other, stands in the first
/// or in the second.
pub proof fn lemma_occurrences_concat(front: Seq<EventView>, back: Seq<EventView>, event: EventView)
    ensures
        occurrences(front + back, event) == occurrences(front, event) + occurrences(back, event),
    decreases back.len(),
{
    if back.len() == 0 {
        assert(front + back =~= front);
    } else {
        assert((front + back).drop_last() =~= front + back.drop_last());
        assert((front + back).last() == back.last());
        lemma_occurrences_concat(front, back.drop_last(), event);
    }
}

/// What stands nowhere in a series of reports occurs zero times in it.
pub proof fn lemma_occurrences_absent(events: Seq<EventView>, event: EventView)
    requires
        forall|k: int| 0 <= k < events.len() ==> #[trigger] events[k] != event,
    ensures
        occurrences(events, event) == 0,
    decreases events.len(),
{
    if events.len() > 0 {
        assert(events[events.len() - 1] != event);
        lemma_occurrences_absent(events.drop_last(), event);
    }
}

/// The one report `event` holds `event` once and nothing else.
pub proof fn lemma_occurrences_single(only: EventView, event: EventView)
    ensures
        occurrences(seq![only], event) == if only == event {
            1nat
        } else {
            0nat
        },
{
    assert(seq![only].drop_last() =~= Seq::<EventView>::empty());
    assert(occurrences(Seq::<EventView>::empty(), event) == 0);
    assert(seq![only].last() == only);
}

/// The sink for everything the monitor has to tell. Each call hands over one
/// notification and expects nothing back. What a reporter does with it is its own
/// affair: `console::ConsoleReporter` is the one that this library brings.
pub trait Reporter {
    /// The monitor began its run.
    fn started(&mut self);

    /// The listener on `port` is bound and accepts connections.
    fn server_started(&mut self, port: u16);

    /// A connection known as `id` was accepted on `port`.
    fn client_connected(&mut self, id: usize, port: u16);

    /// The connection known as `id` delivered the bytes `msg`.
    fn client_message_received(&mut self, id: usize, msg: &[u8]);

    /// The connection known as `id` is over.
    fn client_disconnected(&mut self, id: usize);

    /// The listener on `port` was told to stop.
    fn server_stopping(&mut self, port: u16);

    /// The listener on `port` and all its connections are gone.
    fn server_stopped(&mut self, port: u16);

    /// The monitor was told to stop.
    fn stopping(&mut self);

    /// The monitor's run is over.
    fn stopped(&mut self);

    /// Something failed.
    fn error(&mut self, msg: String);

    /// Something deserves attention.
    fn warning(&mut self, msg: String);
}

/// No report.
pub(crate) fn no_events() -> (events: Vec<Event>)
    ensures
        events.deep_view() == Seq::<EventView>::empty(),
{
    let events: Vec<Event> = Vec::new();
    assert(events.deep_view() =~= Seq::<EventView>::empty());
    events
}

/// The one report `event`.
pub(crate) fn one_event(event: Event) -> (events: Vec<Event>)
    ensures
        events.deep_view() == seq![event@],
{
    let mut events: Vec<Event> = Vec::new();
    events.push(event);
    assert(events.deep_view() =~= seq![event@]);
    events
}

/// Puts the reports of `more` behind those of `events`.
pub(crate) fn add_events(events: &mut Vec<Event>, more: Vec<Event>)
    ensures
        final(events).deep_view() == old(events).deep_view() + more.deep_view(),
{
    let ghost added = more.deep_view();
    let mut more = more;
    events.append(&mut more);
    assert(events.deep_view() =~= old(events).deep_view() + added);
}

} // verus!
