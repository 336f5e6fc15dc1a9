use crate::monitor::server::client::{
    client_run, client_step, fresh_client, session, ClientInput, ClientPhase, ClientState,
    ErrorView,
};
use crate::monitor::status::Status;
use crate::reporters::EventView;
use crate::utils::IoFailureView;
use vstd::prelude::*;

verus! {

/// Whether `event` reports bytes of the connection known as `id`.
pub open spec fn is_message_of(event: EventView, id: usize) -> bool {
    event matches EventView::ClientMessageReceived { id: from, msg } && from == id && msg.len() > 0
}

/// Whether `events` is what a handler that reads reports from then on: messages
/// of `id` only, and after them, if and only if it has `finished`, one disconnection.
pub open spec fn reading_trace(events: Seq<EventView>, id: usize, finished: bool) -> bool {
    if finished {
        &&& events.len() >= 1
        &&& events.last() == EventView::ClientDisconnected { id }
        &&& forall|i: int| 0 <= i < events.len() - 1 ==> is_message_of(#[trigger] events[i], id)
    } else {
        forall|i: int| 0 <= i < events.len() ==> is_message_of(#[trigger] events[i], id)
    }
}

/// Whether `events` is the whole report of a connection: first that `id` connected
/// on `port`, then its messages, and last, if and only if the handler has
/// `finished`, that it disconnected.
pub open spec fn connection_trace(
    events: Seq<EventView>,
    id: usize,
    port: u16,
    finished: bool,
) -> bool {
    &&& events.len() >= 1
    &&& events[0] == EventView::ClientConnected { id, port }
    &&& reading_trace(events.skip(1), id, finished)
}

/// The bytes that `events` report as received, in the order of the reports.
pub open spec fn payload(events: Seq<EventView>) -> Seq<u8>
    decreases events.len(),
{
    if events.len() == 0 {
        Seq::empty()
    } else {
        let rest = payload(events.skip(1));
        match events[0] {
            EventView::ClientMessageReceived { id, msg } => msg + rest,
            _ => rest,
        }
    }
}

/// The bytes that a connection delivers through `reads`: those of each read, up to
/// the end of the stream or the first failure that is no timeout.
pub open spec fn delivered(reads: Seq<Result<Seq<u8>, IoFailureView>>) -> Seq<u8>
    decreases reads.len(),
{
    if reads.len() == 0 {
        Seq::empty()
    } else {
        match reads[0] {
            Ok(bytes) => if bytes.len() > 0 {
                bytes + delivered(reads.skip(1))
            } else {
                Seq::empty()
            },
            Err(cause) => if cause.kind.spec_is_timeout() {
                delivered(reads.skip(1))
            } else {
                Seq::empty()
            },
        }
    }
}

/// The inputs that stand for `reads`.
pub open spec fn read_inputs(reads: Seq<Result<Seq<u8>, IoFailureView>>) -> Seq<ClientInput> {
    reads.map_values(|read: Result<Seq<u8>, IoFailureView>| ClientInput::Read(read))
}

/// A finished handler stays as it is and reports nothing, whatever comes.
pub proof fn lemma_finished_is_silent(state: ClientState, inputs: Seq<ClientInput>)
    requires
        state.phase == ClientPhase::Finished,
    ensures
        client_run(state, inputs).state == state,
        client_run(state, inputs).events == Seq::<EventView>::empty(),
{
}

/// From a handler that reads, whatever comes: it reports messages under its
/// identifier and nothing else, until it reports its disconnection, which it does
/// exactly when it finishes, once and as the last report.
pub proof fn lemma_reading_lifecycle(state: ClientState, inputs: Seq<ClientInput>)
    requires
        state.phase == ClientPhase::Reading,
    ensures
        ({
            let run = client_run(state, inputs);
            &&& run.state.id == state.id
            &&& run.state.port == state.port
            &&& run.state.phase != ClientPhase::Created
            &&& (run.state.phase == ClientPhase::Finished <==> run.status is Finished)
            &&& reading_trace(run.events, state.id, run.state.phase == ClientPhase::Finished)
        }),
    decreases inputs.len(),
{
    if inputs.len() > 0 {
        let first = client_step(state, inputs[0]);
        if first.status is Pending {
            lemma_reading_lifecycle(first.state, inputs.skip(1));
            let rest = client_run(first.state, inputs.skip(1));
            let all = first.events + rest.events;
            let finished = rest.state.phase == ClientPhase::Finished;
            assert(reading_trace(all, state.id, finished)) by {
                if finished {
                    assert(all.last() == rest.events.last());
                    assert forall|i: int| 0 <= i < all.len() - 1 implies is_message_of(
                        #[trigger] all[i],
                        state.id,
                    ) by {
                        if i >= first.events.len() {
                            assert(all[i] == rest.events[i - first.events.len()]);
                        }
                    }
                } else {
                    assert forall|i: int| 0 <= i < all.len() implies is_message_of(
                        #[trigger] all[i],
                        state.id,
                    ) by {
                        if i >= first.events.len() {
                            assert(all[i] == rest.events[i - first.events.len()]);
                        }
                    }
                }
            }
        }
    }
}

/// The order of a connection's reports. Whatever a new handler is given, either it
/// reports nothing (its peer was never known), or its reports are: the connection
/// first, under the peer's port as identifier; then messages under that identifier
/// only; and the disconnection exactly once, as the last report, if and only if
/// the handler has finished.
pub proof fn lemma_connection_lifecycle(port: u16, inputs: Seq<ClientInput>)
    ensures
        ({
            let run = client_run(fresh_client(port), inputs);
            run.events.len() == 0 || connection_trace(
                run.events,
                run.state.id,
                port,
                run.state.phase == ClientPhase::Finished,
            )
        }),
    decreases inputs.len(),
{
    let state = fresh_client(port);
    if inputs.len() > 0 {
        let first = client_step(state, inputs[0]);
        if first.status is Pending {
            let rest = client_run(first.state, inputs.skip(1));
            let all = first.events + rest.events;
            if first.state.phase == ClientPhase::Reading {
                lemma_reading_lifecycle(first.state, inputs.skip(1));
                assert(all.skip(1) =~= rest.events);
            } else {
                assert(first.state == state);
                lemma_connection_lifecycle(port, inputs.skip(1));
                assert(all =~= rest.events);
            }
        }
    }
}

/// A connection that is closed at once: the handler reports that it connected and,
/// right after, that it disconnected, with no message between, and ends well.
pub proof fn lemma_immediate_close(port: u16, peer: u16)
    ensures
        ({
            let run = client_run(fresh_client(port), session(Ok(peer), seq![Ok(Seq::empty())]));
            &&& run.events == seq![
                EventView::ClientConnected { id: peer as usize, port },
                EventView::ClientDisconnected { id: peer as usize },
            ]
            &&& run.status == Status::<ErrorView>::Finished(Ok(()))
        }),
{
    let inputs = session(Ok(peer), seq![Ok(Seq::<u8>::empty())]);
    let first = client_step(fresh_client(port), inputs[0]);
    assert(inputs.skip(1)[0] == ClientInput::Read(Ok(Seq::<u8>::empty())));
    let second = client_step(first.state, inputs.skip(1)[0]);
    assert(client_run(first.state, inputs.skip(1)) == second);
    assert(first.events + second.events =~= seq![
        EventView::ClientConnected { id: peer as usize, port },
        EventView::ClientDisconnected { id: peer as usize },
    ]);
}

/// Bytes that arrive in one read are reported in one message, unchanged and
/// unsplit.
pub proof fn lemma_single_read_is_one_message(port: u16, peer: u16, bytes: Seq<u8>)
    requires
        bytes.len() > 0,
    ensures
        ({
            let run = client_run(fresh_client(port), session(Ok(peer), seq![Ok(bytes)]));
            &&& run.events == seq![
                EventView::ClientConnected { id: peer as usize, port },
                EventView::ClientMessageReceived { id: peer as usize, msg: bytes },
            ]
            &&& run.status is Pending
        }),
{
    let inputs = session(Ok(peer), seq![Ok(bytes)]);
    let first = client_step(fresh_client(port), inputs[0]);
    assert(inputs.skip(1)[0] == ClientInput::Read(Ok(bytes)));
    let second = client_step(first.state, inputs.skip(1)[0]);
    assert(inputs.skip(1).skip(1).len() == 0);
    let third = client_run(second.state, inputs.skip(1).skip(1));
    assert(client_run(first.state, inputs.skip(1)).events =~= second.events);
    assert(first.events + second.events =~= seq![
        EventView::ClientConnected { id: peer as usize, port },
        EventView::ClientMessageReceived { id: peer as usize, msg: bytes },
    ]);
}

/// The bytes that a handler that reads reports are the bytes that its reads
/// delivered, in their order.
pub proof fn lemma_reading_reports_what_was_read(
    state: ClientState,
    reads: Seq<Result<Seq<u8>, IoFailureView>>,
)
    requires
        state.phase == ClientPhase::Reading,
    ensures
        payload(client_run(state, read_inputs(reads)).events) == delivered(reads),
    decreases reads.len(),
{
    let inputs = read_inputs(reads);
    if reads.len() > 0 {
        let first = client_step(state, inputs[0]);
        assert(inputs.skip(1) =~= read_inputs(reads.skip(1)));
        if first.status is Pending {
            lemma_reading_reports_what_was_read(first.state, reads.skip(1));
            let rest = client_run(first.state, inputs.skip(1));
            lemma_payload_concat(first.events, rest.events);
            lemma_payload_of_one(first.events);
        } else {
            lemma_payload_of_one(first.events);
        }
    }
}

/// The bytes reported by two series of reports, one after the other.
pub proof fn lemma_payload_concat(front: Seq<EventView>, back: Seq<EventView>)
    ensures
        payload(front + back) == payload(front) + payload(back),
    decreases front.len(),
{
    if front.len() == 0 {
        assert(front + back =~= back);
        assert(payload(front) + payload(back) =~= payload(back));
    } else {
        lemma_payload_concat(front.skip(1), back);
        assert((front + back).skip(1) =~= front.skip(1) + back);
        assert((front + back)[0] == front[0]);
        match front[0] {
            EventView::ClientMessageReceived { id, msg } => {
                assert(msg + (payload(front.skip(1)) + payload(back)) =~= (msg + payload(
                    front.skip(1),
                )) + payload(back));
            },
            _ => {},
        }
    }
}

/// The bytes reported by at most one report.
proof fn lemma_payload_of_one(events: Seq<EventView>)
    requires
        events.len() <= 1,
    ensures
        events.len() == 0 ==> payload(events) == Seq::<u8>::empty(),
        events.len() == 1 ==> payload(events) == (match events[0] {
            EventView::ClientMessageReceived { id, msg } => msg,
            _ => Seq::empty(),
        }),
{
    if events.len() == 1 {
        assert(events.skip(1).len() == 0);
        assert(payload(events.skip(1)) == Seq::<u8>::empty());
        match events[0] {
            EventView::ClientMessageReceived { id, msg } => {
                assert(msg + Seq::<u8>::empty() =~= msg);
            },
            _ => {},
        }
    }
}

/// The reads that bring `chunks`, one chunk each.
pub open spec fn chunk_reads(chunks: Seq<Seq<u8>>) -> Seq<Result<Seq<u8>, IoFailureView>> {
    chunks.map_values(|chunk: Seq<u8>| Ok::<Seq<u8>, IoFailureView>(chunk))
}

/// A payload that arrives in several reads, however it was cut: the handler
/// reports one message for each read, and the bytes of the messages, put together
/// in the order of their reports, are the payload.
pub proof fn lemma_chunks_concatenate(port: u16, peer: u16, chunks: Seq<Seq<u8>>)
    requires
        forall|i: int| 0 <= i < chunks.len() ==> (#[trigger] chunks[i]).len() > 0,
    ensures
        ({
            let run = client_run(fresh_client(port), session(Ok(peer), chunk_reads(chunks)));
            &&& run.events.len() == 1 + chunks.len()
            &&& payload(run.events) == chunks.flatten()
            &&& run.status is Pending
        }),
{
    let reads = chunk_reads(chunks);
    let inputs = session(Ok(peer), reads);
    let first = client_step(fresh_client(port), inputs[0]);
    assert(inputs.skip(1) =~= read_inputs(reads));
    let rest = client_run(first.state, read_inputs(reads));
    lemma_reading_reports_what_was_read(first.state, reads);
    lemma_chunks_delivered(first.state, chunks);
    lemma_payload_concat(first.events, rest.events);
    lemma_payload_of_one(first.events);
    assert(Seq::<u8>::empty() + payload(rest.events) =~= payload(rest.events));
}

/// Reads that all bring bytes deliver all of them, in one message each.
proof fn lemma_chunks_delivered(state: ClientState, chunks: Seq<Seq<u8>>)
    requires
        state.phase == ClientPhase::Reading,
        forall|i: int| 0 <= i < chunks.len() ==> (#[trigger] chunks[i]).len() > 0,
    ensures
        delivered(chunk_reads(chunks)) == chunks.flatten(),
        client_run(state, read_inputs(chunk_reads(chunks))).events.len() == chunks.len(),
        client_run(state, read_inputs(chunk_reads(chunks))).status is Pending,
    decreases chunks.len(),
{
    let reads = chunk_reads(chunks);
    let inputs = read_inputs(reads);
    if chunks.len() > 0 {
        assert(chunks[0].len() > 0);
        assert(reads.skip(1) =~= chunk_reads(chunks.skip(1)));
        assert(inputs.skip(1) =~= read_inputs(chunk_reads(chunks.skip(1))));
        assert(chunks.drop_first() =~= chunks.skip(1));
        assert forall|i: int| 0 <= i < chunks.skip(1).len() implies (#[trigger] chunks.skip(
            1,
        )[i]).len() > 0 by {
            assert(chunks.skip(1)[i] == chunks[i + 1]);
        }
        lemma_chunks_delivered(client_step(state, inputs[0]).state, chunks.skip(1));
    }
}

/// The messages that report `chunks` under `id`, one message for each chunk.
pub open spec fn chunk_messages(id: usize, chunks: Seq<Seq<u8>>) -> Seq<EventView> {
    chunks.map_values(|chunk: Seq<u8>| EventView::ClientMessageReceived { id, msg: chunk })
}

/// Reads that all bring bytes leave a handler that reads as it is: it reports each
/// of them whole, in one message, in the order of the reads, and then goes on with
/// whatever comes after them as if it came first.
pub proof fn lemma_reading_passes_chunks_on(
    state: ClientState,
    chunks: Seq<Seq<u8>>,
    then: Seq<ClientInput>,
)
    requires
        state.phase == ClientPhase::Reading,
        forall|i: int| 0 <= i < chunks.len() ==> (#[trigger] chunks[i]).len() > 0,
    ensures
        ({
            let run = client_run(state, read_inputs(chunk_reads(chunks)) + then);
            let rest = client_run(state, then);
            &&& run.state == rest.state
            &&& run.events == chunk_messages(state.id, chunks) + rest.events
            &&& run.status == rest.status
        }),
    decreases chunks.len(),
{
    let inputs = read_inputs(chunk_reads(chunks)) + then;
    let rest = client_run(state, then);
    if chunks.len() == 0 {
        assert(inputs =~= then);
        assert(chunk_messages(state.id, chunks) + rest.events =~= rest.events);
    } else {
        let later = chunks.skip(1);
        assert(chunks[0].len() > 0);
        assert(inputs[0] == ClientInput::Read(Ok(chunks[0])));
        assert(inputs.skip(1) =~= read_inputs(chunk_reads(later)) + then);
        assert forall|i: int| 0 <= i < later.len() implies (#[trigger] later[i]).len() > 0 by {
            assert(later[i] == chunks[i + 1]);
        }
        lemma_reading_passes_chunks_on(state, later, then);
        let first = seq![EventView::ClientMessageReceived { id: state.id, msg: chunks[0] }];
        assert(chunk_messages(state.id, chunks) =~= first + chunk_messages(state.id, later));
        assert(first + (chunk_messages(state.id, later) + rest.events) =~= (first + chunk_messages(
            state.id,
            later,
        )) + rest.events);
    }
}

/// Chunks of at most `buffer` bytes each hold at most `buffer` bytes for each of
/// them: a payload takes at least as many chunks as it has bytes, divided by
/// `buffer` and rounded up.
pub proof fn lemma_chunks_fill_buffers(chunks: Seq<Seq<u8>>, buffer: nat)
    requires
        forall|i: int| 0 <= i < chunks.len() ==> (#[trigger] chunks[i]).len() <= buffer,
    ensures
        chunks.flatten().len() <= chunks.len() * buffer,
    decreases chunks.len(),
{
    if chunks.len() > 0 {
        let later = chunks.drop_first();
        assert forall|i: int| 0 <= i < later.len() implies (#[trigger] later[i]).len()
            <= buffer by {
            assert(later[i] == chunks[i + 1]);
        }
        lemma_chunks_fill_buffers(later, buffer);
        assert(chunks.first().len() <= buffer);
        assert(chunks.flatten() == chunks.first() + later.flatten());
        assert((later.len() + 1) * buffer == later.len() * buffer + buffer) by (nonlinear_arith);
    }
}

/// A payload that comes through a buffer. Where a connection's payload arrives in
/// reads of at least one and at most `buffer` bytes each, and the stream then
/// ends: the handler reports the connection, then one message for each read with
/// exactly the bytes of that read, so that no message holds more than `buffer`
/// bytes, then the disconnection. The messages are at least as many as the
/// payload's length divided by `buffer`, rounded up, hence two or more for a
/// payload that the buffer cannot hold; their bytes, put together in the order of
/// the reports, are the payload; and the run ends well.
pub proof fn lemma_buffered_payload(port: u16, peer: u16, chunks: Seq<Seq<u8>>, buffer: nat)
    requires
        forall|i: int| 0 <= i < chunks.len() ==> 1 <= (#[trigger] chunks[i]).len() <= buffer,
    ensures
        ({
            let reads = chunk_reads(chunks).push(Ok(Seq::empty()));
            let run = client_run(fresh_client(port), session(Ok(peer), reads));
            let id = peer as usize;
            &&& run.events == seq![EventView::ClientConnected { id, port }] + chunk_messages(
                id,
                chunks,
            ) + seq![EventView::ClientDisconnected { id }]
            &&& forall|k: int|
                1 <= k <= chunks.len() ==> (#[trigger] run.events[k])
                    == (EventView::ClientMessageReceived { id, msg: chunks[k - 1] }) && 1
                    <= chunks[k - 1].len() <= buffer
            &&& payload(run.events) == chunks.flatten()
            &&& chunks.flatten().len() <= chunks.len() * buffer
            &&& chunks.flatten().len() > buffer ==> chunks.len() >= 2
            &&& run.status == Status::<ErrorView>::Finished(Ok(()))
        }),
{
    let id = peer as usize;
    let reads = chunk_reads(chunks).push(Ok(Seq::empty()));
    let inputs = session(Ok(peer), reads);
    let first = client_step(fresh_client(port), inputs[0]);
    let end = seq![ClientInput::Read(Ok(Seq::<u8>::empty()))];
    assert(inputs.skip(1) =~= read_inputs(chunk_reads(chunks)) + end);
    assert forall|i: int| 0 <= i < chunks.len() implies (#[trigger] chunks[i]).len() > 0 by {}
    lemma_reading_passes_chunks_on(first.state, chunks, end);
    let last = client_run(first.state, end);
    assert(end.skip(1).len() == 0);
    assert(last.events =~= seq![EventView::ClientDisconnected { id }]);
    let run = client_run(fresh_client(port), inputs);
    let messages = chunk_messages(id, chunks);
    let closing = seq![EventView::ClientDisconnected { id }];
    assert(run.events =~= first.events + messages + closing);
    assert forall|k: int| 1 <= k <= chunks.len() implies (#[trigger] run.events[k])
        == (EventView::ClientMessageReceived { id, msg: chunks[k - 1] }) && 1 <= chunks[k
        - 1].len() <= buffer by {
        assert(run.events[k] == messages[k - 1]);
    }
    lemma_chunks_fill_buffers(chunks, buffer);
    if chunks.flatten().len() > buffer && chunks.len() < 2 {
        assert(chunks.len() * buffer <= buffer) by (nonlinear_arith)
            requires
                chunks.len() < 2,
        ;
    }
    lemma_chunks_concatenate(port, peer, chunks);
    let open = client_run(fresh_client(port), session(Ok(peer), chunk_reads(chunks)));
    assert(session(Ok(peer), chunk_reads(chunks)).skip(1) =~= read_inputs(chunk_reads(chunks))
        + Seq::<ClientInput>::empty());
    lemma_reading_passes_chunks_on(first.state, chunks, Seq::empty());
    assert(open.events =~= first.events + messages);
    lemma_payload_concat(first.events + messages, closing);
    lemma_payload_of_one(closing);
    assert(payload(first.events + messages) + Seq::<u8>::empty() =~= payload(
        first.events + messages,
    ));
}

} // verus!
