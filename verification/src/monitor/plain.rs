use crate::reporters::console::hex_digit;
use crate::utils::{decimal_digits, push_decimal, IoFailure, IoFailureView};
use itertools::Itertools;
use vstd::prelude::*;
use vstd::string::StringExecFns;

verus! {

/// The two hexadecimal digits of `byte`.
pub open spec fn hex_pair(byte: u8) -> Seq<char> {
    seq![hex_digit((byte / 16) as nat), hex_digit((byte % 16) as nat)]
}

/// The bytes of `bytes` in hexadecimal, two digits each, with one blank between
/// one byte and the next.
pub open spec fn spaced_hex(bytes: Seq<u8>) -> Seq<char>
    decreases bytes.len(),
{
    if bytes.len() == 0 {
        Seq::empty()
    } else if bytes.len() == 1 {
        hex_pair(bytes[0])
    } else {
        spaced_hex(bytes.drop_last()) + seq![' '] + hex_pair(bytes.last())
    }
}

/// Formats `bytes` through `Itertools::format` with a blank as separator and the
/// format `{:02x}`: itertools writes the first element, then for each further one
/// the separator and the element, each element with the format that was asked for,
/// which for a byte is its two lower-case hexadecimal digits.
#[verifier::external_body]
fn hex_bytes(bytes: &[u8]) -> (text: String)
    ensures
        text@ == spaced_hex(bytes@),
{
    format!("{:02x}", bytes.iter().format(" "))
}

/// The line that says that a connection was accepted on `port`.
pub open spec fn connected_line(port: u16) -> Seq<char> {
    "client connected on port "@ + decimal_digits(port as nat)
}

/// The line that shows `bytes`, received on `port`.
pub open spec fn data_line(port: u16, bytes: Seq<u8>) -> Seq<char> {
    "client on port "@ + decimal_digits(port as nat) + ": "@ + spaced_hex(bytes)
}

/// The line that says that a read failed on `port`.
pub open spec fn error_line(port: u16, cause: IoFailureView) -> Seq<char> {
    "error in client for port "@ + decimal_digits(port as nat) + ": "@ + cause.message
}

/// The lines for `reads`, the outcomes of the reads of a connection on `port`: one
/// line for each read that brought bytes, up to the end of the connection. A read
/// that failed for want of data (a timeout) is tried again and leaves no line. The
/// connection ends with the read that found the end of the stream, which leaves
/// no line, or with the first read that failed otherwise, which leaves the line of
/// its failure as the last one.
pub open spec fn read_lines(port: u16, reads: Seq<Result<Seq<u8>, IoFailureView>>) -> Seq<
    Seq<char>,
>
    decreases reads.len(),
{
    if reads.len() == 0 {
        Seq::empty()
    } else {
        match reads[0] {
            Ok(bytes) => if bytes.len() == 0 {
                Seq::empty()
            } else {
                seq![data_line(port, bytes)] + read_lines(port, reads.skip(1))
            },
            Err(cause) => if cause.kind.spec_is_timeout() {
                read_lines(port, reads.skip(1))
            } else {
                seq![error_line(port, cause)]
            },
        }
    }
}

/// The plain account of a connection on `port`: that it was accepted, then the
/// lines for its reads.
pub open spec fn plain_lines(port: u16, reads: Seq<Result<Seq<u8>, IoFailureView>>) -> Seq<
    Seq<char>,
> {
    seq![connected_line(port)] + read_lines(port, reads)
}

/// The line for the outcome of one read: for the bytes that it brought, or for its
/// failure.
fn read_line(port: u16, read: &Result<Vec<u8>, IoFailure>) -> (line: String)
    requires
        read matches Ok(bytes) ==> bytes@.len() > 0,
    ensures
        line@ == (match read {
            Ok(bytes) => data_line(port, bytes@),
            Err(cause) => error_line(port, cause@),
        }),
{
    match read {
        Ok(bytes) => {
            let mut line = String::from_str("client on port ");
            push_decimal(&mut line, port as usize);
            line.append(": ");
            let hex = hex_bytes(bytes.as_slice());
            line.append(hex.as_str());
            line
        },
        Err(cause) => {
            let mut line = String::from_str("error in client for port ");
            push_decimal(&mut line, port as usize);
            line.append(": ");
            line.append(cause.message.as_str());
            line
        },
    }
}

/// Follows a connection that was accepted on `port` and whose reads returned
/// `reads`, up to its end, and gives the lines of its plain account, for whoever
/// prints them: a failure that is no timeout ends the connection and is shown
/// once; a timeout is not shown.
pub fn new_client(port: u16, reads: &[Result<Vec<u8>, IoFailure>]) -> (lines: Vec<String>)
    ensures
        lines.deep_view() == plain_lines(port, crate::monitor::server::client::reads_view(reads@)),
{
    let ghost all = crate::monitor::server::client::reads_view(reads@);
    let mut first = String::from_str("client connected on port ");
    push_decimal(&mut first, port as usize);
    let mut lines: Vec<String> = Vec::new();
    lines.push(first);
    assert(lines.deep_view() =~= seq![connected_line(port)]);
    assert(all.skip(0) =~= all);
    let mut i: usize = 0;
    while i < reads.len()
        invariant
            i <= reads@.len(),
            all == crate::monitor::server::client::reads_view(reads@),
            lines.deep_view() + read_lines(port, all.skip(i as int)) == plain_lines(port, all),
        decreases reads@.len() - i,
    {
        let ghost written = lines.deep_view();
        let ghost rest = all.skip(i as int);
        assert(rest[0] == crate::monitor::server::client::read_view(reads@[i as int]));
        assert(rest.skip(1) =~= all.skip(i as int + 1));
        match &reads[i] {
            Ok(bytes) => {
                if bytes.len() == 0 {
                    assert(written + Seq::<Seq<char>>::empty() =~= written);
                    return lines;
                }
                let line = read_line(port, &reads[i]);
                lines.push(line);
                proof {
                    assert(lines.deep_view() =~= written.push(line@));
                    let tail = read_lines(port, all.skip(i as int + 1));
                    assert(written.push(line@) + tail =~= written + (seq![line@] + tail));
                }
            },
            Err(cause) => {
                if !cause.is_timeout() {
                    let line = read_line(port, &reads[i]);
                    lines.push(line);
                    assert(lines.deep_view() =~= written + seq![line@]);
                    return lines;
                }
            },
        }
        i += 1;
    }
    assert(lines.deep_view() + Seq::<Seq<char>>::empty() =~= lines.deep_view());
    lines
}

} // verus!
