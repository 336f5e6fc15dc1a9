use crate::reporters::{Event, EventView, Reporter};
use crate::utils::{decimal_digits, push_decimal};
use vstd::prelude::*;
use vstd::string::StringExecFns;

verus! {

/// How much a record matters.
#[derive(Clone, Copy, Debug, PartialEq, Eq, Structural)]
pub enum Level {
    Error,
    Warn,
    Info,
}

/// One line for the console: its level and its text.
#[derive(Debug, PartialEq, Eq)]
pub struct Record {
    pub level: Level,
    pub body: String,
}

/// The mathematical content of a `Record`.
pub struct RecordView {
    pub level: Level,
    pub body: Seq<char>,
}

impl View for Record {
    type V = RecordView;

    open spec fn view(&self) -> RecordView {
        RecordView { level: self.level, body: self.body@ }
    }
}

impl DeepView for Record {
    type V = RecordView;

    open spec fn deep_view(&self) -> RecordView {
        self@
    }
}

/// Who speaks in a record: the monitor, the server of a port, or a connection.
#[derive(Clone, Copy, Debug, PartialEq, Eq, Structural)]
pub enum Tag {
    Monitor,
    Server { port: u16 },
    Client { id: usize },
}

/// The bracketed prefix that names the speaker.
pub open spec fn header(tag: Tag) -> Seq<char> {
    match tag {
        Tag::Monitor => "[MONIT]"@,
        Tag::Server { port } => "[SERVR]["@ + decimal_digits(port as nat) + "]"@,
        Tag::Client { id } => "[CLIEN]["@ + decimal_digits(id as nat) + "]"@,
    }
}

/// The informational record in which `tag` says `msg`.
pub open spec fn tagged(tag: Tag, msg: Seq<char>) -> RecordView {
    RecordView { level: Level::Info, body: header(tag) + " "@ + msg }
}

/// The record that the console shows for `event`.
pub open spec fn render(event: EventView) -> RecordView {
    match event {
        EventView::Started => tagged(Tag::Monitor, "Started"@),
        EventView::ServerStarted { port } => tagged(Tag::Server { port }, "Started"@),
        EventView::ClientConnected { id, port } => tagged(
            Tag::Client { id },
            "Connected on port "@ + decimal_digits(port as nat),
        ),
        EventView::ClientMessageReceived { id, msg } => tagged(Tag::Client { id }, hex_dump(msg)),
        EventView::ClientDisconnected { id } => tagged(Tag::Client { id }, "Disconnected"@),
        EventView::ServerStopping { port } => tagged(Tag::Server { port }, "Stopping..."@),
        EventView::ServerStopped { port } => tagged(Tag::Server { port }, "Stopped"@),
        EventView::Stopping => tagged(Tag::Monitor, "Stopping..."@),
        EventView::Stopped => tagged(Tag::Monitor, "Stopped"@),
        EventView::Error { msg } => RecordView { level: Level::Error, body: msg },
        EventView::Warning { msg } => RecordView { level: Level::Warn, body: msg },
    }
}

/// The records that the console shows for `events`, one for each.
pub open spec fn render_all(events: Seq<EventView>) -> Seq<RecordView> {
    events.map_values(|event: EventView| render(event))
}

/// A reporter for the console. It turns each notification into a record and
/// queues it; whoever owns the console takes the queue and prints it.
pub struct ConsoleReporter {
    records: Vec<Record>,
}

impl View for ConsoleReporter {
    type V = Seq<RecordView>;

    /// The records that wait to be taken, oldest first.
    closed spec fn view(&self) -> Seq<RecordView> {
        self.records.deep_view()
    }
}

/// A console reporter that has been told nothing yet.
pub fn new() -> (reporter: ConsoleReporter)
    ensures
        reporter@ == Seq::<RecordView>::empty(),
{
    let reporter = ConsoleReporter { records: Vec::new() };
    assert(reporter.records.deep_view() =~= Seq::<RecordView>::empty());
    reporter
}

impl ConsoleReporter {
    /// Queues the informational record in which `tag` says `msg`.
    pub fn report(&mut self, tag: &Tag, msg: &str)
        ensures
            final(self)@ == old(self)@.push(tagged(*tag, msg@)),
    {
        let mut body = match tag {
            Tag::Monitor => String::from_str("[MONIT]"),
            Tag::Server { port } => {
                let mut header = String::from_str("[SERVR][");
                push_decimal(&mut header, *port as usize);
                header.append("]");
                header
            },
            Tag::Client { id } => {
                let mut header = String::from_str("[CLIEN][");
                push_decimal(&mut header, *id);
                header.append("]");
                header
            },
        };
        body.append(" ");
        body.append(msg);
        self.queue(Record { level: Level::Info, body });
    }

    /// Queues `record`.
    fn queue(&mut self, record: Record)
        ensures
            final(self)@ == old(self)@.push(record@),
    {
        self.records.push(record);
        assert(self.records.deep_view() =~= old(self).records.deep_view().push(record@));
    }

    /// Queues the record for `event`.
    pub fn notify(&mut self, event: &Event)
        ensures
            final(self)@ == old(self)@.push(render(event@)),
    {
        match event {
            Event::Started => self.started(),
            Event::ServerStarted { port } => self.server_started(*port),
            Event::ClientConnected { id, port } => self.client_connected(*id, *port),
            Event::ClientMessageReceived { id, msg } => self.client_message_received(
                *id,
                msg.as_slice(),
            ),
            Event::ClientDisconnected { id } => self.client_disconnected(*id),
            Event::ServerStopping { port } => self.server_stopping(*port),
            Event::ServerStopped { port } => self.server_stopped(*port),
            Event::Stopping => self.stopping(),
            Event::Stopped => self.stopped(),
            Event::Error { msg } => self.error(msg.clone()),
            Event::Warning { msg } => self.warning(msg.clone()),
        }
    }

    /// Queues the records for `events`, first to last.
    pub fn notify_all(&mut self, events: &Vec<Event>)
        ensures
            final(self)@ == old(self)@ + render_all(events.deep_view()),
    {
        let ghost all = events.deep_view();
        let mut i: usize = 0;
        assert(old(self)@ + render_all(all).take(0) =~= old(self)@);
        while i < events.len()
            invariant
                i <= events.len(),
                all == events.deep_view(),
                self@ == old(self)@ + render_all(all).take(i as int),
            decreases events.len() - i,
        {
            self.notify(&events[i]);
            proof {
                let records = render_all(all);
                assert(records.take(i as int).push(records[i as int]) =~= records.take(
                    i as int + 1,
                ));
                assert((old(self)@ + records.take(i as int)).push(records[i as int]) =~= old(self)@
                    + records.take(i as int + 1));
            }
            i += 1;
        }
        assert(render_all(all).take(all.len() as int) =~= render_all(all));
    }

    /// The number of records that wait to be taken.
    pub fn len(&self) -> (n: usize)
        ensures
            n == self@.len(),
    {
        self.records.len()
    }

    /// The records that wait to be taken, oldest first.
    pub fn records(&self) -> (records: &Vec<Record>)
        ensures
            records.deep_view() == self@,
    {
        &self.records
    }

    /// Takes the queue: returns the waiting records, oldest first, and leaves none.
    pub fn take_records(&mut self) -> (records: Vec<Record>)
        ensures
            records.deep_view() == old(self)@,
            final(self)@ == Seq::<RecordView>::empty(),
    {
        let mut records: Vec<Record> = Vec::new();
        std::mem::swap(&mut records, &mut self.records);
        assert(self.records.deep_view() =~= Seq::<RecordView>::empty());
        records
    }
}

impl Reporter for ConsoleReporter {
    fn started(&mut self)
        ensures
            final(self)@ == old(self)@.push(render(EventView::Started)),
    {
        self.report(&Tag::Monitor, "Started");
    }

    fn server_started(&mut self, port: u16)
        ensures
            final(self)@ == old(self)@.push(render(EventView::ServerStarted { port })),
    {
        self.report(&Tag::Server { port }, "Started");
    }

    fn client_connected(&mut self, id: usize, port: u16)
        ensures
            final(self)@ == old(self)@.push(render(EventView::ClientConnected { id, port })),
    {
        let mut msg = String::from_str("Connected on port ");
        push_decimal(&mut msg, port as usize);
        self.report(&Tag::Client { id }, msg.as_str());
    }

    fn client_message_received(&mut self, id: usize, msg: &[u8])
        ensures
            final(self)@ == old(self)@.push(
                render(EventView::ClientMessageReceived { id, msg: msg@ }),
            ),
    {
        let dump = format_hex(msg);
        self.report(&Tag::Client { id }, dump.as_str());
    }

    fn client_disconnected(&mut self, id: usize)
        ensures
            final(self)@ == old(self)@.push(render(EventView::ClientDisconnected { id })),
    {
        self.report(&Tag::Client { id }, "Disconnected");
    }

    fn server_stopping(&mut self, port: u16)
        ensures
            final(self)@ == old(self)@.push(render(EventView::ServerStopping { port })),
    {
        self.report(&Tag::Server { port }, "Stopping...");
    }

    fn server_stopped(&mut self, port: u16)
        ensures
            final(self)@ == old(self)@.push(render(EventView::ServerStopped { port })),
    {
        self.report(&Tag::Server { port }, "Stopped");
    }

    fn stopping(&mut self)
        ensures
            final(self)@ == old(self)@.push(render(EventView::Stopping)),
    {
        self.report(&Tag::Monitor, "Stopping...");
    }

    fn stopped(&mut self)
        ensures
            final(self)@ == old(self)@.push(render(EventView::Stopped)),
    {
        self.report(&Tag::Monitor, "Stopped");
    }

    fn error(&mut self, msg: String)
        ensures
            final(self)@ == old(self)@.push(render(EventView::Error { msg: msg@ })),
    {
        self.queue(Record { level: Level::Error, body: msg });
    }

    fn warning(&mut self, msg: String)
        ensures
            final(self)@ == old(self)@.push(render(EventView::Warning { msg: msg@ })),
    {
        self.queue(Record { level: Level::Warn, body: msg });
    }
}

/// How many bytes of a message one line of a dump shows.
pub const CHUNK_SIZE: usize = 16;

/// How many bytes stand together before a blank separates them from the next ones.
pub const CHUNK_GROUPS: usize = 4;

/// The lower-case hexadecimal digit for `n`.
pub open spec fn hex_digit(n: nat) -> char
    recommends
        n < 16,
{
    if n < 10 {
        (48 + n) as char
    } else {
        (87 + n) as char
    }
}

/// Whether `b`, read as a Unicode code point, is a control character.
pub open spec fn is_control(b: u8) -> bool {
    b < 0x20 || (0x7f <= b && b <= 0x9f)
}

/// What a dump shows for `b` in its text column: the character with that
/// code point, or a dot in place of a control character.
pub open spec fn printable(b: u8) -> char {
    if is_control(b) {
        '.'
    } else {
        b as char
    }
}

/// The character at place `j` of the hexadecimal column of a line that shows `chunk`.
/// The column is made of four groups of eight digits, one blank after each of the
/// first three; where the chunk has no byte left, blanks stand for its digits.
pub open spec fn hex_column_char(chunk: Seq<u8>, j: int) -> char {
    let byte = 4 * (j / 9) + (j % 9) / 2;
    if j % 9 == 8 || byte >= chunk.len() {
        ' '
    } else if (j % 9) % 2 == 0 {
        hex_digit((chunk[byte] / 16) as nat)
    } else {
        hex_digit((chunk[byte] % 16) as nat)
    }
}

/// The hexadecimal column of a line that shows `chunk`: 35 characters wide.
pub open spec fn hex_column(chunk: Seq<u8>) -> Seq<char> {
    Seq::new(35, |j: int| hex_column_char(chunk, j))
}

/// The text column of a line that shows `chunk`: 16 characters wide.
pub open spec fn text_column(chunk: Seq<u8>) -> Seq<char> {
    Seq::new(
        16,
        |j: int|
            if j < chunk.len() {
                printable(chunk[j])
            } else {
                ' '
            },
    )
}

/// One line of a dump, for a chunk of 1 to 16 bytes.
pub open spec fn hex_line(chunk: Seq<u8>) -> Seq<char> {
    seq!['\t'] + hex_column(chunk) + seq![' ', '|'] + text_column(chunk) + seq!['|', '\n']
}

/// The lines of a dump of `msg`, one for each 16 bytes and one for what is left.
pub open spec fn hex_lines(msg: Seq<u8>) -> Seq<char>
    decreases msg.len(),
{
    if msg.len() == 0 {
        Seq::empty()
    } else if msg.len() <= 16 {
        hex_line(msg)
    } else {
        hex_line(msg.take(16)) + hex_lines(msg.skip(16))
    }
}

/// The dump of `msg`: a title line, then the lines that show its bytes.
pub open spec fn hex_dump(msg: Seq<u8>) -> Seq<char> {
    "Received message:\n"@ + hex_lines(msg)
}

/// The lower-case hexadecimal digit for `n`.
fn hex_digit_of(n: u8) -> (c: char)
    requires
        n < 16,
    ensures
        c == hex_digit(n as nat),
{
    if n < 10 {
        (48u8 + n) as char
    } else {
        (87u8 + n) as char
    }
}

/// What a dump shows for `b` in its text column.
pub fn printable_char(b: u8) -> (c: char)
    ensures
        c == printable(b),
{
    if b < 0x20 || (0x7f <= b && b <= 0x9f) {
        '.'
    } else {
        b as char
    }
}

/// Appends `count` blanks to `out`.
fn push_blanks(out: &mut String, count: usize)
    ensures
        final(out)@ == old(out)@ + Seq::new(count as nat, |j: int| ' '),
{
    let mut done: usize = 0;
    while done < count
        invariant
            done <= count,
            out@ == old(out)@ + Seq::new(done as nat, |j: int| ' '),
        decreases count - done,
    {
        out.push(' ');
        done += 1;
        assert(out@ =~= old(out)@ + Seq::new(done as nat, |j: int| ' '));
    }
}

/// Where the hexadecimal column stands once the digits of `i` bytes are written
/// (and, before a byte that opens a group, not yet the blank in front of it).
spec fn hex_width(i: int) -> int {
    if i == 0 {
        0
    } else {
        2 * i + (i - 1) / 4
    }
}

/// Where the digits of the byte at place `i` of `chunk` stand in the hexadecimal
/// column: right behind the digits of the bytes before it, or, where the byte
/// opens a group that is not the first, one blank behind them.
proof fn lemma_hex_column_at(chunk: Seq<u8>, i: int)
    requires
        0 <= i < chunk.len() <= 16,
    ensures
        ({
            let column = hex_column(chunk);
            let before = hex_width(i);
            let at = hex_width(i + 1) - 2;
            &&& 0 <= before <= at
            &&& at + 2 <= 35
            &&& column[at] == hex_digit((chunk[i] / 16) as nat)
            &&& column[at + 1] == hex_digit((chunk[i] % 16) as nat)
            &&& i % 4 == 0 && i != 0 ==> at == before + 1 && column[before] == ' '
            &&& !(i % 4 == 0 && i != 0) ==> at == before
        }),
{
    let at = hex_width(i + 1) - 2;
    assert(at == 9 * (i / 4) + 2 * (i % 4));
    assert(at / 9 == i / 4 && at % 9 == 2 * (i % 4));
    assert((at + 1) / 9 == i / 4 && (at + 1) % 9 == 2 * (i % 4) + 1);
    if i % 4 == 0 && i != 0 {
        let before = hex_width(i);
        assert(before == 9 * (i / 4) - 1);
        assert(before % 9 == 8);
    }
}

/// Appends to `out` the line of a dump that shows `msg[from..to]`.
fn push_hex_line(out: &mut String, msg: &[u8], from: usize, to: usize)
    requires
        from < to <= msg@.len(),
        to - from <= 16,
    ensures
        final(out)@ == old(out)@ + hex_line(msg@.subrange(from as int, to as int)),
{
    let ghost chunk = msg@.subrange(from as int, to as int);
    let ghost column = hex_column(chunk);
    let ghost text = text_column(chunk);
    let ghost base = old(out)@ + seq!['\t'];
    let len: usize = to - from;
    let len_diff: usize = CHUNK_SIZE - len;
    out.push('\t');
    let mut i: usize = 0;
    while i < len
        invariant
            i <= len,
            len == to - from,
            from < to <= msg@.len(),
            len <= 16,
            chunk == msg@.subrange(from as int, to as int),
            column == hex_column(chunk),
            out@ == base + column.take(hex_width(i as int)),
        decreases len - i,
    {
        let ghost before = hex_width(i as int);
        let ghost at = hex_width(i as int + 1) - 2;
        let c: u8 = msg[from + i];
        assert(c == chunk[i as int]);
        proof {
            lemma_hex_column_at(chunk, i as int);
        }
        if i % CHUNK_GROUPS == 0 && i != 0 {
            out.push(' ');
            assert(column.take(before).push(' ') =~= column.take(at));
        }
        out.push(hex_digit_of(c / 16));
        out.push(hex_digit_of(c % 16));
        assert(column.take(at).push(column[at]).push(column[at + 1]) =~= column.take(at + 2));
        i += 1;
    }
    let padding_len: usize = len_diff * 2 + len_diff / CHUNK_GROUPS;
    let ghost filled = hex_width(len as int);
    push_blanks(out, padding_len);
    proof {
        assert(filled + padding_len == 35);
        assert forall|j: int| filled <= j < 35 implies column[j] == ' ' by {
            assert(j % 9 == 8 || 4 * (j / 9) + (j % 9) / 2 >= len);
        }
        assert(column.take(filled) + Seq::new(padding_len as nat, |j: int| ' ') =~= column);
        assert(out@ =~= base + column);
    }
    out.push(' ');
    out.push('|');
    let ghost lead = base + column + seq![' ', '|'];
    assert(out@ =~= lead);
    let mut k: usize = 0;
    while k < len
        invariant
            k <= len,
            len == to - from,
            from < to <= msg@.len(),
            len <= 16,
            chunk == msg@.subrange(from as int, to as int),
            text == text_column(chunk),
            out@ == lead + text.take(k as int),
        decreases len - k,
    {
        let c: u8 = msg[from + k];
        assert(c == chunk[k as int]);
        out.push(printable_char(c));
        assert(text.take(k as int).push(text[k as int]) =~= text.take(k as int + 1));
        k += 1;
    }
    push_blanks(out, len_diff);
    assert(text.take(len as int) + Seq::new(len_diff as nat, |j: int| ' ') =~= text);
    out.push('|');
    out.push('\n');
    assert(out@ =~= old(out)@ + hex_line(chunk));
}

/// Renders `msg` as a dump: the title "Received message:", then one line for each
/// 16 bytes, with the bytes in hexadecimal on the left and as text on the right.
pub fn format_hex(msg: &[u8]) -> (s: String)
    ensures
        s@ == hex_dump(msg@),
{
    let mut s = String::from_str("Received message:\n");
    let mut from: usize = 0;
    assert(msg@.skip(0) =~= msg@);
    while from < msg.len()
        invariant
            from <= msg@.len(),
            s@ + hex_lines(msg@.skip(from as int)) == hex_dump(msg@),
        decreases msg@.len() - from,
    {
        let ghost rest = msg@.skip(from as int);
        let to: usize = if msg.len() - from > CHUNK_SIZE {
            from + CHUNK_SIZE
        } else {
            msg.len()
        };
        push_hex_line(&mut s, msg, from, to);
        proof {
            let chunk = msg@.subrange(from as int, to as int);
            if rest.len() <= 16 {
                assert(chunk =~= rest);
                assert(msg@.skip(to as int).len() == 0);
            } else {
                assert(chunk =~= rest.take(16));
                assert(msg@.skip(to as int) =~= rest.skip(16));
            }
            assert(hex_lines(rest) =~= hex_line(chunk) + hex_lines(msg@.skip(to as int)));
        }
        from = to;
    }
    assert(hex_lines(msg@.skip(from as int)) =~= Seq::<char>::empty());
    assert(s@ + Seq::<char>::empty() =~= s@);
    s
}

} // verus!
