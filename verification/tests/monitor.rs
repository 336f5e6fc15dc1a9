use rusty_ports::monitor::plain::new_client;
use rusty_ports::monitor::server::{self, Input as ServerInput, ServerPhase, ServerStep};
use rusty_ports::monitor::status::Status;
use rusty_ports::monitor::{
    self, check_range, Error, Input, Monitor, MonitorPhase, MonitorStep, RangeError,
};
use rusty_ports::reporters::Event;
use rusty_ports::utils::{FailureKind, IoFailure};

fn failure(kind: FailureKind, message: &str) -> IoFailure {
    IoFailure { kind, message: message.to_string() }
}

#[test]
fn it_handles_client() {
    let lines = new_client(42, &[Ok(vec![])]);
    assert_eq!(lines, vec!["client connected on port 42".to_string()]);
}

#[test]
fn the_plain_account_shows_bytes_and_ends_with_the_first_failure() {
    let lines = new_client(
        42,
        &[
            Ok(vec![0x41, 0x42, 0x43]),
            Err(failure(FailureKind::TimedOut, "timed out")),
            Ok(vec![0x00]),
            Err(failure(FailureKind::WouldBlock, "would block")),
            Ok(vec![0x0a, 0xff]),
            Err(failure(FailureKind::Other, "reset")),
            Err(failure(FailureKind::Other, "reset")),
            Ok(vec![0x01]),
        ],
    );
    assert_eq!(
        lines,
        vec![
            "client connected on port 42".to_string(),
            "client on port 42: 41 42 43".to_string(),
            "client on port 42: 00".to_string(),
            "client on port 42: 0a ff".to_string(),
            "error in client for port 42: reset".to_string(),
        ]
    );
}

#[test]
fn the_plain_account_shows_a_lasting_failure_once() {
    let lines = new_client(
        42,
        &[
            Err(failure(FailureKind::Other, "broken pipe")),
            Err(failure(FailureKind::Other, "broken pipe")),
            Err(failure(FailureKind::Other, "broken pipe")),
        ],
    );
    assert_eq!(
        lines,
        vec![
            "client connected on port 42".to_string(),
            "error in client for port 42: broken pipe".to_string(),
        ]
    );
}

#[test]
fn the_plain_account_ends_at_the_end_of_the_stream() {
    let lines = new_client(
        42,
        &[Ok(vec![0x10]), Ok(vec![]), Ok(vec![0x11]), Err(failure(FailureKind::Other, "late"))],
    );
    assert_eq!(
        lines,
        vec!["client connected on port 42".to_string(), "client on port 42: 10".to_string()]
    );
}

#[test]
fn the_plain_account_shows_no_timeout() {
    let lines = new_client(
        42,
        &[
            Err(failure(FailureKind::TimedOut, "timed out")),
            Err(failure(FailureKind::WouldBlock, "would block")),
        ],
    );
    assert_eq!(lines, vec!["client connected on port 42".to_string()]);
}

#[test]
fn the_plain_account_of_no_read_is_the_connection_alone() {
    assert_eq!(new_client(65535, &[]), vec!["client connected on port 65535".to_string()]);
}

#[test]
fn a_range_is_checked_for_order_and_privilege() {
    assert_eq!(check_range(2000, 1999, 0), Err(RangeError::WrongRange));
    assert_eq!(check_range(2000, 1999, 1000), Err(RangeError::WrongRange));
    assert_eq!(check_range(80, 90, 1000), Err(RangeError::PrivilegedPorts));
    assert_eq!(check_range(1024, 1024, 1000), Err(RangeError::PrivilegedPorts));
    assert_eq!(check_range(0, 0, 1), Err(RangeError::PrivilegedPorts));
    assert_eq!(check_range(80, 90, 0), Ok(()));
    assert_eq!(check_range(1025, 1025, 1000), Ok(()));
    assert_eq!(check_range(1025, 65535, 1000), Ok(()));
    assert_eq!(check_range(0, 65535, 0), Ok(()));
    assert_eq!(
        RangeError::WrongRange.message(),
        "RANGE_START must be lesser or equal to RANGE_END"
    );
    assert_eq!(
        RangeError::PrivilegedPorts.message(),
        "must be root to use ports from 1 to 1024"
    );
}

#[test]
fn a_monitor_has_one_server_for_each_port() {
    let mut monitor = monitor::new(8000, 8003);
    assert_eq!(monitor.phase(), MonitorPhase::Created);
    assert_eq!(monitor.servers().len(), 0);
    let step = monitor.start();
    assert_eq!(
        step,
        MonitorStep { events: vec![Event::Started], status: Status::Pending, conn: None }
    );
    assert_eq!(monitor.phase(), MonitorPhase::Running);
    assert_eq!(monitor.first_port(), 8000);
    assert_eq!(monitor.last_port(), 8003);
    let ports: Vec<u16> = monitor.servers().iter().map(|server| server.port()).collect();
    assert_eq!(ports, vec![8000, 8001, 8002, 8003]);
    for server in monitor.servers() {
        assert_eq!(server.phase(), ServerPhase::Created);
        assert_eq!(server.slots(), 0);
    }
}

#[test]
fn a_monitor_of_one_port_has_one_server() {
    let mut monitor = Monitor::new(65535, 65535);
    monitor.start();
    assert_eq!(monitor.servers().len(), 1);
    assert_eq!(monitor.servers()[0].port(), 65535);
}

#[test]
fn a_monitor_of_all_ports_has_a_server_for_each() {
    let mut monitor = Monitor::new(0, 65535);
    monitor.start();
    assert_eq!(monitor.servers().len(), 65536);
    for (i, server) in monitor.servers().iter().enumerate() {
        assert_eq!(server.port() as usize, i);
    }
}

#[test]
fn a_monitor_of_an_empty_range_is_over_at_once() {
    let mut monitor = monitor::new(10, 9);
    let step = monitor.start();
    assert_eq!(
        step,
        MonitorStep {
            events: vec![Event::Started, Event::Stopped],
            status: Status::Finished(Ok(())),
            conn: None,
        }
    );
    assert!(monitor.is_finished());
    assert_eq!(monitor.servers().len(), 0);
}

#[test]
fn a_stop_unwinds_every_server_and_every_client() {
    let mut monitor = monitor::new(9000, 9002);
    monitor.start();
    assert_eq!(
        monitor.on_bind(9000, Ok(())).events,
        vec![Event::ServerStarted { port: 9000 }]
    );
    assert_eq!(
        monitor.on_bind(9001, Ok(())).events,
        vec![Event::ServerStarted { port: 9001 }]
    );
    let first = monitor.on_accept(9000, Ok(50001));
    assert_eq!(first.events, vec![Event::ClientConnected { id: 50001, port: 9000 }]);
    assert_eq!(first.conn, Some(0));
    let second = monitor.on_accept(9000, Ok(50002));
    assert_eq!(second.conn, Some(1));
    let third = monitor.on_accept(9001, Ok(50003));
    assert_eq!(third.conn, Some(0));
    let closed = monitor.on_read(9000, 0, Ok(vec![]));
    assert_eq!(closed.events, vec![Event::ClientDisconnected { id: 50001 }]);
    assert_eq!(closed.conn, None);
    assert_eq!(closed.status, Status::Pending);

    let stop = monitor.stop();
    assert_eq!(
        stop,
        MonitorStep {
            events: vec![
                Event::Stopping,
                Event::ServerStopping { port: 9000 },
                Event::ClientDisconnected { id: 50002 },
                Event::ServerStopped { port: 9000 },
                Event::ServerStopping { port: 9001 },
                Event::ClientDisconnected { id: 50003 },
                Event::ServerStopped { port: 9001 },
                Event::Stopped,
            ],
            status: Status::Finished(Ok(())),
            conn: None,
        }
    );
    assert!(monitor.is_finished());
    for server in monitor.servers() {
        assert!(server.is_finished());
        for conn in 0..server.slots() {
            assert!(server.client(conn).unwrap().is_finished());
        }
    }

    let late = monitor.on_read(9000, 1, Ok(vec![1, 2, 3]));
    assert_eq!(late, MonitorStep { events: vec![], status: Status::Closed, conn: None });
    let again = monitor.stop();
    assert_eq!(again, MonitorStep { events: vec![], status: Status::Closed, conn: None });
}

#[test]
fn a_port_that_cannot_be_bound_leaves_the_others_alone() {
    let mut monitor = monitor::new(9000, 9001);
    monitor.start();
    let failed = monitor.on_bind(9000, Err(failure(FailureKind::Other, "address in use")));
    assert_eq!(
        failed,
        MonitorStep {
            events: vec![Event::Error {
                msg: "error in server for port 9000: address in use".to_string()
            }],
            status: Status::Pending,
            conn: None,
        }
    );
    assert_eq!(monitor.phase(), MonitorPhase::Running);
    assert!(monitor.servers()[0].is_finished());

    let started = monitor.on_bind(9001, Ok(()));
    assert_eq!(started.events, vec![Event::ServerStarted { port: 9001 }]);
    let accepted = monitor.on_accept(9001, Ok(40000));
    assert_eq!(accepted.events, vec![Event::ClientConnected { id: 40000, port: 9001 }]);
    assert_eq!(accepted.conn, Some(0));
    let message = monitor.on_read(9001, 0, Ok(vec![0x41, 0x42, 0x43]));
    assert_eq!(
        message.events,
        vec![Event::ClientMessageReceived { id: 40000, msg: vec![0x41, 0x42, 0x43] }]
    );
    assert_eq!(message.conn, Some(0));

    let dropped = monitor.on_accept(9000, Ok(40001));
    assert_eq!(dropped, MonitorStep { events: vec![], status: Status::Pending, conn: None });

    let stop = monitor.stop();
    assert_eq!(
        stop.events,
        vec![
            Event::Stopping,
            Event::ServerStopping { port: 9001 },
            Event::ClientDisconnected { id: 40000 },
            Event::ServerStopped { port: 9001 },
            Event::Stopped,
        ]
    );
    assert_eq!(
        stop.status,
        Status::Finished(Err(Error::IO {
            port: 9000,
            cause: failure(FailureKind::Other, "address in use"),
        }))
    );
}

#[test]
fn a_run_whose_ports_all_fail_ends_with_the_first_failure() {
    let mut monitor = monitor::new(9000, 9001);
    monitor.start();
    let first = monitor.on_bind(9001, Err(failure(FailureKind::Other, "permission denied")));
    assert_eq!(first.status, Status::Pending);
    let second = monitor.on_bind(9000, Err(failure(FailureKind::Other, "address in use")));
    assert_eq!(
        second,
        MonitorStep {
            events: vec![
                Event::Error { msg: "error in server for port 9000: address in use".to_string() },
                Event::Stopped,
            ],
            status: Status::Finished(Err(Error::IO {
                port: 9001,
                cause: failure(FailureKind::Other, "permission denied"),
            })),
            conn: None,
        }
    );
    assert!(monitor.is_finished());
}

#[test]
fn inputs_for_ports_outside_the_range_are_dropped() {
    let mut monitor = monitor::new(9000, 9001);
    let early = monitor.on_bind(9000, Ok(()));
    assert_eq!(early, MonitorStep { events: vec![], status: Status::Pending, conn: None });
    let early_stop = monitor.stop();
    assert_eq!(early_stop, MonitorStep { events: vec![], status: Status::Pending, conn: None });
    monitor.start();
    let twice = monitor.start();
    assert_eq!(twice, MonitorStep { events: vec![], status: Status::Pending, conn: None });
    let below = monitor.on_bind(8999, Ok(()));
    assert_eq!(below, MonitorStep { events: vec![], status: Status::Pending, conn: None });
    let above = monitor.on_accept(9002, Ok(1));
    assert_eq!(above, MonitorStep { events: vec![], status: Status::Pending, conn: None });
    assert_eq!(monitor.servers()[0].phase(), ServerPhase::Created);
    assert_eq!(monitor.servers()[1].phase(), ServerPhase::Created);
}

#[test]
fn a_server_reports_accept_errors_and_listens_on() {
    let mut server = server::new(7000);
    assert_eq!(server.port(), 7000);
    server.on_bind(Ok(()));
    assert_eq!(server.phase(), ServerPhase::Listening);
    let polled = server.on_accept_error(failure(FailureKind::WouldBlock, "would block"));
    assert_eq!(polled, ServerStep { events: vec![], status: Status::Pending, conn: None });
    let timed_out = server.on_accept_error(failure(FailureKind::TimedOut, "timed out"));
    assert_eq!(timed_out, ServerStep { events: vec![], status: Status::Pending, conn: None });
    let broken = server.on_accept_error(failure(FailureKind::Other, "too many open files"));
    assert_eq!(
        broken,
        ServerStep {
            events: vec![Event::Error {
                msg: "error in server for port 7000: too many open files".to_string()
            }],
            status: Status::Pending,
            conn: None,
        }
    );
    let accepted = server.on_accept(Ok(1234));
    assert_eq!(accepted.conn, Some(0));
    assert_eq!(server.phase(), ServerPhase::Listening);
}

#[test]
fn a_server_reports_a_failed_client_and_goes_on() {
    let mut server = server::new(7000);
    server.on_bind(Ok(()));
    let accepted = server.on_accept(Ok(1234));
    assert_eq!(accepted.conn, Some(0));
    let failed = server.on_read(0, Err(failure(FailureKind::Other, "connection reset")));
    assert_eq!(
        failed,
        ServerStep {
            events: vec![
                Event::ClientDisconnected { id: 1234 },
                Event::Error {
                    msg: "client failed: fatal error (IO=connection reset".to_string()
                },
            ],
            status: Status::Pending,
            conn: None,
        }
    );
    let unknown = server.on_accept(Err(failure(FailureKind::Other, "not connected")));
    assert_eq!(
        unknown,
        ServerStep {
            events: vec![Event::Error {
                msg: "client failed: fatal error (IO=not connected".to_string()
            }],
            status: Status::Pending,
            conn: None,
        }
    );
    assert_eq!(server.phase(), ServerPhase::Listening);
}

#[test]
fn a_server_gives_the_place_of_a_finished_client_to_the_next() {
    let mut server = server::new(7000);
    server.on_bind(Ok(()));
    assert_eq!(server.on_accept(Ok(1)).conn, Some(0));
    assert_eq!(server.on_accept(Ok(2)).conn, Some(1));
    assert_eq!(server.on_accept(Ok(3)).conn, Some(2));
    assert_eq!(server.on_read(1, Ok(vec![])).conn, None);
    assert_eq!(server.on_accept(Ok(4)).conn, Some(1));
    assert_eq!(server.on_accept(Ok(5)).conn, Some(3));
    assert_eq!(server.slots(), 4);
    assert_eq!(server.client(1).unwrap().id(), 4);
    assert!(server.client(4).is_none());
    let stale = server.on_read(9, Ok(vec![1]));
    assert_eq!(stale, ServerStep { events: vec![], status: Status::Pending, conn: None });
    let stop = server.stop();
    assert_eq!(
        stop.events,
        vec![
            Event::ServerStopping { port: 7000 },
            Event::ClientDisconnected { id: 1 },
            Event::ClientDisconnected { id: 4 },
            Event::ClientDisconnected { id: 3 },
            Event::ClientDisconnected { id: 5 },
            Event::ServerStopped { port: 7000 },
        ]
    );
    assert_eq!(stop.status, Status::Finished(Ok(())));
}

#[test]
fn a_server_that_cannot_listen_fails_with_its_port() {
    let mut server = server::new(80);
    let step = server.on_bind(Err(failure(FailureKind::Other, "permission denied")));
    assert_eq!(
        step,
        ServerStep {
            events: vec![Event::Error {
                msg: "error in server for port 80: permission denied".to_string()
            }],
            status: Status::Finished(Err(Error::IO {
                port: 80,
                cause: failure(FailureKind::Other, "permission denied"),
            })),
            conn: None,
        }
    );
    assert!(server.is_finished());
    let error = Error::IO { port: 80, cause: failure(FailureKind::Other, "permission denied") };
    assert_eq!(error.message(), "fatal error (IO=permission denied");
    assert_eq!(error.port(), 80);
    let late = server.on_accept(Ok(1));
    assert_eq!(late, ServerStep { events: vec![], status: Status::Closed, conn: None });
}

#[test]
fn a_server_that_never_listened_stops_silently() {
    let mut server = server::new(7000);
    let early = server.on_accept(Ok(1));
    assert_eq!(early, ServerStep { events: vec![], status: Status::Pending, conn: None });
    let step = server.stop();
    assert_eq!(step, ServerStep { events: vec![], status: Status::Finished(Ok(())), conn: None });
}

#[test]
fn a_server_runs_over_what_happened_until_it_is_done() {
    let mut server = server::new(7000);
    let run = server.run(&[
        ServerInput::Bound(Ok(())),
        ServerInput::AcceptFailed(failure(FailureKind::WouldBlock, "would block")),
        ServerInput::Accepted(Ok(1111)),
        ServerInput::Read { conn: 0, read: Ok(vec![0x68, 0x69]) },
        ServerInput::Accepted(Ok(2222)),
        ServerInput::Read { conn: 0, read: Ok(vec![]) },
        ServerInput::Stop,
        ServerInput::Accepted(Ok(3333)),
    ]);
    assert_eq!(
        run,
        ServerStep {
            events: vec![
                Event::ServerStarted { port: 7000 },
                Event::ClientConnected { id: 1111, port: 7000 },
                Event::ClientMessageReceived { id: 1111, msg: vec![0x68, 0x69] },
                Event::ClientConnected { id: 2222, port: 7000 },
                Event::ClientDisconnected { id: 1111 },
                Event::ServerStopping { port: 7000 },
                Event::ClientDisconnected { id: 2222 },
                Event::ServerStopped { port: 7000 },
            ],
            status: Status::Finished(Ok(())),
            conn: None,
        }
    );
    assert!(server.is_finished());
    assert_eq!(server.slots(), 2);
}

#[test]
fn a_server_run_that_is_not_over_stays_pending() {
    let mut server = server::new(7000);
    let nothing = server.run(&[]);
    assert_eq!(nothing, ServerStep { events: vec![], status: Status::Pending, conn: None });
    let run = server.run(&[ServerInput::Bound(Ok(())), ServerInput::Accepted(Ok(1111))]);
    assert_eq!(
        run,
        ServerStep {
            events: vec![
                Event::ServerStarted { port: 7000 },
                Event::ClientConnected { id: 1111, port: 7000 },
            ],
            status: Status::Pending,
            conn: Some(0),
        }
    );
    let step = server.step(ServerInput::Read { conn: 0, read: Ok(vec![1]) });
    assert_eq!(step.events, vec![Event::ClientMessageReceived { id: 1111, msg: vec![1] }]);
    let closed = server.run(&[ServerInput::Stop, ServerInput::Stop]);
    assert_eq!(closed.status, Status::Finished(Ok(())));
    let after = server.run(&[ServerInput::Bound(Ok(()))]);
    assert_eq!(after, ServerStep { events: vec![], status: Status::Closed, conn: None });
}

#[test]
fn a_monitor_runs_over_what_happened_until_it_is_done() {
    let mut monitor = monitor::new(9000, 9001);
    let run = monitor.run(&[
        Input::Start,
        Input::Bound { port: 9001, bound: Ok(()) },
        Input::Bound { port: 9000, bound: Err(failure(FailureKind::Other, "address in use")) },
        Input::Accepted { port: 9001, peer: Ok(40000) },
        Input::AcceptFailed { port: 9001, cause: failure(FailureKind::TimedOut, "timed out") },
        Input::Read { port: 9001, conn: 0, read: Ok(vec![0x41, 0x42, 0x43]) },
        Input::Stop,
        Input::Accepted { port: 9001, peer: Ok(40001) },
    ]);
    assert_eq!(
        run,
        MonitorStep {
            events: vec![
                Event::Started,
                Event::ServerStarted { port: 9001 },
                Event::Error { msg: "error in server for port 9000: address in use".to_string() },
                Event::ClientConnected { id: 40000, port: 9001 },
                Event::ClientMessageReceived { id: 40000, msg: vec![0x41, 0x42, 0x43] },
                Event::Stopping,
                Event::ServerStopping { port: 9001 },
                Event::ClientDisconnected { id: 40000 },
                Event::ServerStopped { port: 9001 },
                Event::Stopped,
            ],
            status: Status::Finished(Err(Error::IO {
                port: 9000,
                cause: failure(FailureKind::Other, "address in use"),
            })),
            conn: None,
        }
    );
    assert!(monitor.is_finished());
    let after = monitor.step(Input::Start);
    assert_eq!(after, MonitorStep { events: vec![], status: Status::Closed, conn: None });
}

#[test]
fn every_run_reports_its_start_first_and_its_stop_last_and_once() {
    let scripts: Vec<Vec<Input>> = vec![
        vec![Input::Start, Input::Stop],
        vec![Input::Stop, Input::Start, Input::Start, Input::Stop, Input::Stop],
        vec![
            Input::Start,
            Input::Bound { port: 9000, bound: Ok(()) },
            Input::Bound { port: 9001, bound: Ok(()) },
            Input::Bound { port: 9002, bound: Err(failure(FailureKind::Other, "denied")) },
            Input::Accepted { port: 9000, peer: Ok(1) },
            Input::Accepted { port: 9001, peer: Ok(1) },
            Input::Read { port: 9000, conn: 0, read: Err(failure(FailureKind::Other, "reset")) },
            Input::Stop,
        ],
        vec![
            Input::Start,
            Input::Bound { port: 9000, bound: Err(failure(FailureKind::Other, "denied")) },
            Input::Bound { port: 9001, bound: Err(failure(FailureKind::Other, "denied")) },
            Input::Bound { port: 9002, bound: Err(failure(FailureKind::Other, "denied")) },
            Input::Stop,
        ],
    ];
    for script in &scripts {
        let mut monitor = monitor::new(9000, 9002);
        let run = monitor.run(script);
        assert!(monitor.is_finished());
        assert!(matches!(run.status, Status::Finished(_)));
        assert_eq!(run.events.first(), Some(&Event::Started));
        assert_eq!(run.events.last(), Some(&Event::Stopped));
        assert_eq!(run.events.iter().filter(|e| **e == Event::Started).count(), 1);
        assert_eq!(run.events.iter().filter(|e| **e == Event::Stopped).count(), 1);
        assert!(run.events.iter().filter(|e| **e == Event::Stopping).count() <= 1);
        for port in 9000u16..=9002u16 {
            let started =
                run.events.iter().filter(|e| **e == Event::ServerStarted { port }).count();
            let stopping =
                run.events.iter().filter(|e| **e == Event::ServerStopping { port }).count();
            let stopped =
                run.events.iter().filter(|e| **e == Event::ServerStopped { port }).count();
            assert!(started <= 1);
            assert_eq!(stopping, started);
            assert_eq!(stopped, started);
        }
    }
}

#[test]
fn every_connection_of_a_server_is_disconnected_as_often_as_it_connected() {
    let mut server = server::new(7000);
    let run = server.run(&[
        ServerInput::Bound(Ok(())),
        ServerInput::Accepted(Ok(1111)),
        ServerInput::Accepted(Ok(2222)),
        ServerInput::Accepted(Ok(1111)),
        ServerInput::Read { conn: 0, read: Ok(vec![]) },
        ServerInput::Accepted(Ok(3333)),
        ServerInput::Read { conn: 1, read: Err(failure(FailureKind::Other, "reset")) },
        ServerInput::Accepted(Err(failure(FailureKind::Other, "not connected"))),
        ServerInput::Accepted(Ok(1111)),
        ServerInput::Stop,
    ]);
    assert_eq!(run.status, Status::Finished(Ok(())));
    assert_eq!(run.events.last(), Some(&Event::ServerStopped { port: 7000 }));
    for id in [1111usize, 2222, 3333, 4444] {
        let connected = run
            .events
            .iter()
            .filter(|e| **e == Event::ClientConnected { id, port: 7000 })
            .count();
        let disconnected =
            run.events.iter().filter(|e| **e == Event::ClientDisconnected { id }).count();
        assert_eq!(connected, disconnected);
    }
    let of_1111 =
        run.events.iter().filter(|e| **e == Event::ClientDisconnected { id: 1111 }).count();
    assert_eq!(of_1111, 3);
}

#[test]
fn a_stop_disconnects_each_client_that_still_reads_once_and_before_the_server_stopped() {
    let mut server = server::new(7000);
    server.run(&[
        ServerInput::Bound(Ok(())),
        ServerInput::Accepted(Ok(1111)),
        ServerInput::Accepted(Ok(2222)),
        ServerInput::Accepted(Ok(3333)),
        ServerInput::Read { conn: 1, read: Ok(vec![]) },
    ]);
    let stop = server.stop();
    let stopped = stop
        .events
        .iter()
        .position(|e| *e == Event::ServerStopped { port: 7000 })
        .unwrap();
    assert_eq!(stopped, stop.events.len() - 1);
    for id in [1111usize, 3333] {
        let places: Vec<usize> = stop
            .events
            .iter()
            .enumerate()
            .filter(|(_, e)| **e == Event::ClientDisconnected { id })
            .map(|(k, _)| k)
            .collect();
        assert_eq!(places.len(), 1);
        assert!(places[0] < stopped);
    }
    assert!(!stop.events.contains(&Event::ClientDisconnected { id: 2222 }));
}
