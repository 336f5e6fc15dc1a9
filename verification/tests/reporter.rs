use rusty_ports::monitor;
use rusty_ports::reporters::console;
use rusty_ports::reporters::{Event, Reporter};

struct Recorder {
    events: Vec<Event>,
}

impl Reporter for Recorder {
    fn started(&mut self) {
        self.events.push(Event::Started);
    }

    fn server_started(&mut self, port: u16) {
        self.events.push(Event::ServerStarted { port });
    }

    fn client_connected(&mut self, id: usize, port: u16) {
        self.events.push(Event::ClientConnected { id, port });
    }

    fn client_message_received(&mut self, id: usize, msg: &[u8]) {
        self.events.push(Event::ClientMessageReceived { id, msg: msg.to_vec() });
    }

    fn client_disconnected(&mut self, id: usize) {
        self.events.push(Event::ClientDisconnected { id });
    }

    fn server_stopping(&mut self, port: u16) {
        self.events.push(Event::ServerStopping { port });
    }

    fn server_stopped(&mut self, port: u16) {
        self.events.push(Event::ServerStopped { port });
    }

    fn stopping(&mut self) {
        self.events.push(Event::Stopping);
    }

    fn stopped(&mut self) {
        self.events.push(Event::Stopped);
    }

    fn error(&mut self, msg: String) {
        self.events.push(Event::Error { msg });
    }

    fn warning(&mut self, msg: String) {
        self.events.push(Event::Warning { msg });
    }
}

fn tell(reporter: &mut impl Reporter, event: &Event) {
    match event {
        Event::Started => reporter.started(),
        Event::ServerStarted { port } => reporter.server_started(*port),
        Event::ClientConnected { id, port } => reporter.client_connected(*id, *port),
        Event::ClientMessageReceived { id, msg } => reporter.client_message_received(*id, msg),
        Event::ClientDisconnected { id } => reporter.client_disconnected(*id),
        Event::ServerStopping { port } => reporter.server_stopping(*port),
        Event::ServerStopped { port } => reporter.server_stopped(*port),
        Event::Stopping => reporter.stopping(),
        Event::Stopped => reporter.stopped(),
        Event::Error { msg } => reporter.error(msg.clone()),
        Event::Warning { msg } => reporter.warning(msg.clone()),
    }
}

#[test]
fn a_reporter_of_ones_own_can_be_told_what_a_run_reports() {
    let mut recorder = Recorder { events: Vec::new() };
    let mut console = console::new();
    let mut monitor = monitor::new(9000, 9000);
    let mut expected: Vec<Event> = Vec::new();
    for step in [
        monitor.start(),
        monitor.on_bind(9000, Ok(())),
        monitor.on_accept(9000, Ok(50000)),
        monitor.on_read(9000, 0, Ok(vec![0x41, 0x42, 0x43])),
        monitor.stop(),
    ] {
        for event in &step.events {
            tell(&mut recorder, event);
            tell(&mut console, event);
        }
        expected.extend(step.events);
    }
    assert_eq!(recorder.events, expected);
    assert_eq!(
        recorder.events,
        vec![
            Event::Started,
            Event::ServerStarted { port: 9000 },
            Event::ClientConnected { id: 50000, port: 9000 },
            Event::ClientMessageReceived { id: 50000, msg: vec![0x41, 0x42, 0x43] },
            Event::Stopping,
            Event::ServerStopping { port: 9000 },
            Event::ClientDisconnected { id: 50000 },
            Event::ServerStopped { port: 9000 },
            Event::Stopped,
        ]
    );
    let mut direct = console::new();
    direct.notify_all(&expected);
    assert_eq!(console.take_records(), direct.take_records());
}
