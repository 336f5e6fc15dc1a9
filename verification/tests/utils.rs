use rusty_ports::utils::{is_timeout_error, push_decimal, FailureKind, IoFailure};
use std::io;

#[test]
fn it_finds_a_timeout() {
    assert!(is_timeout_error(&io::Error::from(io::ErrorKind::TimedOut)));
    assert!(is_timeout_error(&io::Error::from(
        io::ErrorKind::WouldBlock
    )));
    assert!(!is_timeout_error(&io::Error::from(io::ErrorKind::NotFound)));
    assert!(!is_timeout_error(&io::Error::from(
        io::ErrorKind::ConnectionAborted
    )));
}

#[test]
fn failure_kinds_that_are_timeouts() {
    assert!(FailureKind::TimedOut.is_timeout());
    assert!(FailureKind::WouldBlock.is_timeout());
    assert!(!FailureKind::Other.is_timeout());
}

#[test]
fn a_failure_keeps_the_kind_and_the_text_of_its_error() {
    let timed_out = IoFailure::from_io(&io::Error::new(io::ErrorKind::TimedOut, "too slow"));
    assert_eq!(timed_out.kind, FailureKind::TimedOut);
    assert_eq!(timed_out.message, "too slow");
    assert!(timed_out.is_timeout());

    let would_block = IoFailure::from_io(&io::Error::new(io::ErrorKind::WouldBlock, "later"));
    assert_eq!(would_block.kind, FailureKind::WouldBlock);
    assert!(would_block.is_timeout());

    let in_use = IoFailure::from_io(&io::Error::new(io::ErrorKind::AddrInUse, "taken"));
    assert_eq!(in_use.kind, FailureKind::Other);
    assert_eq!(in_use.message, "taken");
    assert!(!in_use.is_timeout());
    assert_eq!(in_use.clone(), in_use);
}

#[test]
fn push_decimal_writes_numbers_as_display_does() {
    for n in [0usize, 1, 9, 10, 11, 42, 99, 100, 1024, 1337, 65535, 65536, 1234567890] {
        let mut out = String::from("n=");
        push_decimal(&mut out, n);
        assert_eq!(out, format!("n={}", n));
    }
    let mut out = String::new();
    push_decimal(&mut out, usize::MAX);
    assert_eq!(out, format!("{}", usize::MAX));
}
