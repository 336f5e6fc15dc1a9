use rusty_ports::reporters::console::{
    self, format_hex, printable_char, ConsoleReporter, Level, Record, Tag,
};
use rusty_ports::reporters::{Event, Reporter};

fn expect_log_contains(reporter: &mut ConsoleReporter, expected: &str, level: Level) {
    let captured_logs = reporter.take_records();
    assert_eq!(captured_logs.len(), 1);
    assert_eq!(captured_logs[0].body, expected);
    assert_eq!(captured_logs[0].level, level);
}

#[test]
fn it_notifies_start_stop() {
    let mut reporter = console::new();

    reporter.started();
    expect_log_contains(&mut reporter, "[MONIT] Started", Level::Info);

    reporter.stopping();
    expect_log_contains(&mut reporter, "[MONIT] Stopping...", Level::Info);

    reporter.stopped();
    expect_log_contains(&mut reporter, "[MONIT] Stopped", Level::Info);
}

#[test]
fn it_notifies_error_warning() {
    let mut reporter = console::new();

    reporter.error("123".to_owned());
    expect_log_contains(&mut reporter, "123", Level::Error);

    reporter.warning("456".to_owned());
    expect_log_contains(&mut reporter, "456", Level::Warn);
}

#[test]
fn it_notifies_server_changes() {
    let mut reporter = console::new();

    reporter.server_started(42);
    expect_log_contains(&mut reporter, "[SERVR][42] Started", Level::Info);

    reporter.server_stopping(42);
    expect_log_contains(&mut reporter, "[SERVR][42] Stopping...", Level::Info);

    reporter.server_stopped(42);
    expect_log_contains(&mut reporter, "[SERVR][42] Stopped", Level::Info);
}

#[test]
fn it_notifies_client_changes() {
    let mut reporter = console::new();

    reporter.client_connected(1337, 42);
    expect_log_contains(&mut reporter, "[CLIEN][1337] Connected on port 42", Level::Info);

    reporter.client_message_received(1337, &[1, 2, 3, 4, 5, 6, 56, 67, 78]);
    expect_log_contains(
        &mut reporter,
        "[CLIEN][1337] Received message:\n\t01020304 05063843 4e                |......8CN       |\n",
        Level::Info,
    );

    reporter.client_message_received(
        1337,
        &[1, 2, 3, 4, 5, 6, 56, 67, 78, 1, 2, 3, 4, 5, 6, 7, 8],
    );
    expect_log_contains(
        &mut reporter,
        "[CLIEN][1337] Received message:\n\t01020304 05063843 4e010203 04050607 |......8CN.......|\n\t08                                  |.               |\n",
        Level::Info,
    );

    reporter.client_disconnected(1337);
    expect_log_contains(&mut reporter, "[CLIEN][1337] Disconnected", Level::Info);
}

#[test]
fn a_report_names_who_speaks() {
    let mut reporter = console::new();
    reporter.report(&Tag::Monitor, "hello");
    expect_log_contains(&mut reporter, "[MONIT] hello", Level::Info);
    reporter.report(&Tag::Server { port: 0 }, "");
    expect_log_contains(&mut reporter, "[SERVR][0] ", Level::Info);
    reporter.report(&Tag::Client { id: 18446744073709551615 }, "bye");
    expect_log_contains(&mut reporter, "[CLIEN][18446744073709551615] bye", Level::Info);
}

#[test]
fn a_new_console_reporter_holds_no_record() {
    let mut reporter = console::new();
    assert_eq!(reporter.len(), 0);
    assert!(reporter.records().is_empty());
    assert!(reporter.take_records().is_empty());
}

#[test]
fn records_queue_in_the_order_of_the_calls() {
    let mut reporter = console::new();
    reporter.started();
    reporter.server_started(65535);
    reporter.client_connected(0, 0);
    assert_eq!(reporter.len(), 3);
    assert_eq!(
        reporter.records(),
        &vec![
            Record { level: Level::Info, body: "[MONIT] Started".to_string() },
            Record { level: Level::Info, body: "[SERVR][65535] Started".to_string() },
            Record { level: Level::Info, body: "[CLIEN][0] Connected on port 0".to_string() },
        ]
    );
    let taken = reporter.take_records();
    assert_eq!(taken.len(), 3);
    assert_eq!(reporter.len(), 0);
}

#[test]
fn notify_queues_the_record_of_each_event() {
    let events = vec![
        Event::Started,
        Event::ServerStarted { port: 7 },
        Event::ClientConnected { id: 50000, port: 7 },
        Event::ClientMessageReceived { id: 50000, msg: vec![0x41, 0x42, 0x43] },
        Event::ClientDisconnected { id: 50000 },
        Event::ServerStopping { port: 7 },
        Event::ServerStopped { port: 7 },
        Event::Stopping,
        Event::Stopped,
        Event::Error { msg: "bad".to_string() },
        Event::Warning { msg: "odd".to_string() },
    ];
    let mut all_at_once = console::new();
    all_at_once.notify_all(&events);
    let mut one_by_one = console::new();
    for event in &events {
        one_by_one.notify(event);
    }
    let expected = vec![
        Record { level: Level::Info, body: "[MONIT] Started".to_string() },
        Record { level: Level::Info, body: "[SERVR][7] Started".to_string() },
        Record { level: Level::Info, body: "[CLIEN][50000] Connected on port 7".to_string() },
        Record {
            level: Level::Info,
            body: "[CLIEN][50000] Received message:\n\t414243                              |ABC             |\n"
                .to_string(),
        },
        Record { level: Level::Info, body: "[CLIEN][50000] Disconnected".to_string() },
        Record { level: Level::Info, body: "[SERVR][7] Stopping...".to_string() },
        Record { level: Level::Info, body: "[SERVR][7] Stopped".to_string() },
        Record { level: Level::Info, body: "[MONIT] Stopping...".to_string() },
        Record { level: Level::Info, body: "[MONIT] Stopped".to_string() },
        Record { level: Level::Error, body: "bad".to_string() },
        Record { level: Level::Warn, body: "odd".to_string() },
    ];
    assert_eq!(all_at_once.take_records(), expected);
    assert_eq!(one_by_one.take_records(), expected);
}

#[test]
fn format_hex_of_nothing_is_the_title_alone() {
    assert_eq!(format_hex(&[]), "Received message:\n");
}

#[test]
fn format_hex_of_one_byte() {
    assert_eq!(
        format_hex(&[0x00]),
        "Received message:\n\t00                                  |.               |\n"
    );
}

#[test]
fn format_hex_of_a_full_line() {
    let bytes: Vec<u8> = (0x30u8..0x40u8).collect();
    assert_eq!(
        format_hex(&bytes),
        "Received message:\n\t30313233 34353637 38393a3b 3c3d3e3f |0123456789:;<=>?|\n"
    );
}

#[test]
fn format_hex_groups_and_pads() {
    assert_eq!(
        format_hex(&[0xde, 0xad, 0xbe, 0xef, 0x7e]),
        "Received message:\n\tdeadbeef 7e                         |\u{de}\u{ad}\u{be}\u{ef}~           |\n"
    );
    assert_eq!(
        format_hex(&[0x61, 0x62, 0x63, 0x64]),
        "Received message:\n\t61626364                            |abcd            |\n"
    );
    assert_eq!(
        format_hex(&[0x61, 0x62, 0x63, 0x64, 0x65, 0x66, 0x67, 0x68]),
        "Received message:\n\t61626364 65666768                   |abcdefgh        |\n"
    );
}

#[test]
fn format_hex_of_two_full_lines_and_a_rest() {
    let bytes: Vec<u8> = (0u8..33u8).map(|b| b + 0x41).collect();
    assert_eq!(
        format_hex(&bytes),
        "Received message:\n\
         \t41424344 45464748 494a4b4c 4d4e4f50 |ABCDEFGHIJKLMNOP|\n\
         \t51525354 55565758 595a5b5c 5d5e5f60 |QRSTUVWXYZ[\\]^_`|\n\
         \t61                                  |a               |\n"
    );
}

#[test]
fn printable_char_hides_control_characters_only() {
    for b in 0u8..=255u8 {
        let c = b as char;
        let expected = if c.is_control() { '.' } else { c };
        assert_eq!(printable_char(b), expected);
    }
}

#[test]
fn every_line_of_a_dump_is_fifty_six_characters_wide() {
    for len in 1usize..=40usize {
        let bytes: Vec<u8> = (0..len).map(|i| (i * 7 % 256) as u8).collect();
        let dump = format_hex(&bytes);
        let mut lines = dump.split('\n');
        assert_eq!(lines.next(), Some("Received message:"));
        let mut count: usize = 0;
        for line in lines {
            if line.is_empty() {
                continue;
            }
            assert_eq!(line.chars().count(), 55);
            count += 1;
        }
        assert_eq!(count, (len + 15) / 16);
    }
}
