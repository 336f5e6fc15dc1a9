use rusty_ports::monitor::server::client::{self, ClientPhase, ClientStep, Error, BUFFER_SIZE};
use rusty_ports::monitor::status::Status;
use rusty_ports::reporters::Event;
use rusty_ports::utils::{FailureKind, IoFailure};

fn failure(kind: FailureKind, message: &str) -> IoFailure {
    IoFailure { kind, message: message.to_string() }
}

#[test]
fn it_handles_messages() {
    let content = "ABC 123".as_bytes();
    let addr: ([u8; 4], u16) = ([127, 0, 0, 1], 1337);

    let mut client = client::new(42);
    let run = client.run(Ok(addr.1), &[Ok(content.to_vec()), Ok(vec![])]);
    assert_eq!(
        run.events,
        vec![
            Event::ClientConnected { id: 1337, port: 42 },
            Event::ClientMessageReceived { id: 1337, msg: "ABC 123".as_bytes().to_vec() },
            Event::ClientDisconnected { id: 1337 },
        ]
    );
    assert!(matches!(run.status, Status::Finished(Ok(()))));
}

#[test]
fn a_new_client_waits_for_its_peer() {
    let client = client::new(42);
    assert_eq!(client.port(), 42);
    assert_eq!(client.phase(), ClientPhase::Created);
    assert!(!client.is_finished());
}

#[test]
fn a_connection_is_reported_before_anything_else() {
    let mut client = client::new(8080);
    let step = client.on_peer(Ok(50123));
    assert_eq!(
        step,
        ClientStep {
            events: vec![Event::ClientConnected { id: 50123, port: 8080 }],
            status: Status::Pending,
        }
    );
    assert_eq!(client.id(), 50123);
    assert_eq!(client.phase(), ClientPhase::Reading);
}

#[test]
fn an_unknown_peer_fails_the_client_without_a_report() {
    let mut client = client::new(8080);
    let step = client.on_peer(Err(failure(FailureKind::Other, "not connected")));
    assert_eq!(
        step,
        ClientStep {
            events: vec![],
            status: Status::Finished(Err(Error::IO(failure(FailureKind::Other, "not connected")))),
        }
    );
    assert!(client.is_finished());
}

#[test]
fn an_immediate_close_gives_connected_then_disconnected() {
    let mut client = client::new(9000);
    let run = client.run(Ok(40000), &[Ok(vec![])]);
    assert_eq!(
        run.events,
        vec![
            Event::ClientConnected { id: 40000, port: 9000 },
            Event::ClientDisconnected { id: 40000 },
        ]
    );
    assert_eq!(run.status, Status::Finished(Ok(())));
    assert!(client.is_finished());
}

#[test]
fn three_bytes_in_one_write_are_one_message() {
    let mut client = client::new(9000);
    let run = client.run(Ok(40000), &[Ok(vec![0x41, 0x42, 0x43])]);
    assert_eq!(
        run.events,
        vec![
            Event::ClientConnected { id: 40000, port: 9000 },
            Event::ClientMessageReceived { id: 40000, msg: vec![0x41, 0x42, 0x43] },
        ]
    );
    assert_eq!(run.status, Status::Pending);
    assert_eq!(client.phase(), ClientPhase::Reading);
}

#[test]
fn a_payload_larger_than_the_buffer_comes_in_messages_that_add_up() {
    let payload: Vec<u8> = (0..3000usize).map(|i| (i % 251) as u8).collect();
    let reads: Vec<Result<Vec<u8>, IoFailure>> =
        payload.chunks(BUFFER_SIZE).map(|chunk| Ok(chunk.to_vec())).collect();
    assert_eq!(reads.len(), 3);
    let mut client = client::new(9000);
    let run = client.run(Ok(40000), &reads);
    assert_eq!(run.events.len(), 4);
    let mut received: Vec<u8> = Vec::new();
    let mut messages: usize = 0;
    for event in &run.events {
        if let Event::ClientMessageReceived { id, msg } = event {
            assert_eq!(*id, 40000);
            received.extend_from_slice(msg);
            messages += 1;
        }
    }
    assert_eq!(messages, 3);
    assert_eq!(received, payload);
    assert_eq!(run.status, Status::Pending);
}

#[test]
fn a_payload_that_comes_through_the_buffer_is_reported_read_by_read() {
    let payload: Vec<u8> = (0..2500usize).map(|i| (i % 241) as u8).collect();
    let mut reads: Vec<Result<Vec<u8>, IoFailure>> =
        payload.chunks(BUFFER_SIZE).map(|chunk| Ok(chunk.to_vec())).collect();
    reads.push(Ok(vec![]));
    let mut client = client::new(9000);
    let run = client.run(Ok(40000), &reads);
    assert_eq!(
        run.events,
        vec![
            Event::ClientConnected { id: 40000, port: 9000 },
            Event::ClientMessageReceived { id: 40000, msg: payload[..1024].to_vec() },
            Event::ClientMessageReceived { id: 40000, msg: payload[1024..2048].to_vec() },
            Event::ClientMessageReceived { id: 40000, msg: payload[2048..].to_vec() },
            Event::ClientDisconnected { id: 40000 },
        ]
    );
    let mut messages: usize = 0;
    for event in &run.events {
        if let Event::ClientMessageReceived { msg, .. } = event {
            assert!(1 <= msg.len() && msg.len() <= BUFFER_SIZE);
            messages += 1;
        }
    }
    assert!(messages >= (payload.len() + BUFFER_SIZE - 1) / BUFFER_SIZE);
    assert!(messages >= 2);
    assert_eq!(run.status, Status::Finished(Ok(())));
}

#[test]
fn a_timeout_is_no_error_and_reports_nothing() {
    let mut client = client::new(9000);
    client.on_peer(Ok(40000));
    let timed_out = client.on_read(Err(failure(FailureKind::TimedOut, "timed out")));
    assert_eq!(timed_out, ClientStep { events: vec![], status: Status::Pending });
    let would_block = client.on_read(Err(failure(FailureKind::WouldBlock, "would block")));
    assert_eq!(would_block, ClientStep { events: vec![], status: Status::Pending });
    assert_eq!(client.phase(), ClientPhase::Reading);
    let step = client.on_read(Ok(vec![1, 2]));
    assert_eq!(step.events, vec![Event::ClientMessageReceived { id: 40000, msg: vec![1, 2] }]);
}

#[test]
fn a_read_error_disconnects_and_fails_the_client() {
    let mut client = client::new(9000);
    let run = client.run(
        Ok(40000),
        &[
            Ok(vec![7]),
            Err(failure(FailureKind::TimedOut, "timed out")),
            Err(failure(FailureKind::Other, "connection reset")),
            Ok(vec![8]),
        ],
    );
    assert_eq!(
        run.events,
        vec![
            Event::ClientConnected { id: 40000, port: 9000 },
            Event::ClientMessageReceived { id: 40000, msg: vec![7] },
            Event::ClientDisconnected { id: 40000 },
        ]
    );
    assert_eq!(
        run.status,
        Status::Finished(Err(Error::IO(failure(FailureKind::Other, "connection reset"))))
    );
}

#[test]
fn a_stop_disconnects_a_reading_client_once() {
    let mut client = client::new(9000);
    client.on_peer(Ok(40000));
    let step = client.stop();
    assert_eq!(
        step,
        ClientStep {
            events: vec![Event::ClientDisconnected { id: 40000 }],
            status: Status::Finished(Ok(())),
        }
    );
    let again = client.stop();
    assert_eq!(again, ClientStep { events: vec![], status: Status::Closed });
    let late = client.on_read(Ok(vec![1]));
    assert_eq!(late, ClientStep { events: vec![], status: Status::Closed });
    let later = client.on_peer(Ok(1));
    assert_eq!(later, ClientStep { events: vec![], status: Status::Closed });
}

#[test]
fn a_stop_before_the_peer_is_known_reports_nothing() {
    let mut client = client::new(9000);
    let step = client.stop();
    assert_eq!(step, ClientStep { events: vec![], status: Status::Finished(Ok(())) });
    assert!(client.is_finished());
}

#[test]
fn inputs_out_of_turn_are_dropped() {
    let mut client = client::new(9000);
    let early = client.on_read(Ok(vec![1, 2, 3]));
    assert_eq!(early, ClientStep { events: vec![], status: Status::Pending });
    assert_eq!(client.phase(), ClientPhase::Created);
    client.on_peer(Ok(40000));
    let twice = client.on_peer(Ok(40001));
    assert_eq!(twice, ClientStep { events: vec![], status: Status::Pending });
    assert_eq!(client.id(), 40000);
}

#[test]
fn a_run_without_reads_only_connects() {
    let mut client = client::new(1);
    let run = client.run(Ok(2), &[]);
    assert_eq!(run.events, vec![Event::ClientConnected { id: 2, port: 1 }]);
    assert_eq!(run.status, Status::Pending);
}

#[test]
fn a_status_is_pending_until_the_run_ends() {
    assert!(Status::<Error>::Pending.is_pending());
    assert!(!Status::<Error>::Finished(Ok(())).is_pending());
    assert!(!Status::<Error>::Closed.is_pending());
}

#[test]
fn a_client_error_says_what_failed() {
    let error = Error::IO(failure(FailureKind::Other, "broken pipe"));
    assert_eq!(error.message(), "fatal error (IO=broken pipe");
}
