use vstd::prelude::*;

verus! {

/// The standard library's I/O error, carried through the library as an opaque value.
#[verifier::external_type_specification]
#[verifier::external_body]
pub struct ExIoError(std::io::Error);

/// What the library distinguishes about the cause of an I/O failure.
#[derive(Clone, Copy, Debug, PartialEq, Eq, Structural)]
pub enum FailureKind {
    /// The operation ran into its deadline.
    TimedOut,
    /// The operation would have had to block.
    WouldBlock,
    /// Any other cause.
    Other,
}

impl FailureKind {
    /// Whether this kind only says "nothing yet" rather than reporting a real fault.
    pub open spec fn spec_is_timeout(self) -> bool {
        self is TimedOut || self is WouldBlock
    }

    /// Whether this kind only says "nothing yet" rather than reporting a real fault.
    #[verifier::when_used_as_spec(spec_is_timeout)]
    pub fn is_timeout(self) -> (b: bool)
        ensures
            b == self.spec_is_timeout(),
    {
        match self {
            FailureKind::TimedOut => true,
            FailureKind::WouldBlock => true,
            FailureKind::Other => false,
        }
    }
}

/// The kind that `std::io::Error::kind` reports for `err`, reduced to the three
/// classes of `FailureKind`.
pub uninterp spec fn io_error_kind(err: std::io::Error) -> FailureKind;

/// Calls `std::io::Error::kind` and maps `ErrorKind::TimedOut` and
/// `ErrorKind::WouldBlock` to the variants of the same name, every other kind to
/// `FailureKind::Other`. The contract only names the outcome: the same error
/// always has the same kind.
#[verifier::external_body]
fn kind_of(err: &std::io::Error) -> (kind: FailureKind)
    ensures
        kind == io_error_kind(*err),
{
    match err.kind() {
        std::io::ErrorKind::TimedOut => FailureKind::TimedOut,
        std::io::ErrorKind::WouldBlock => FailureKind::WouldBlock,
        _ => FailureKind::Other,
    }
}

/// Whether `err` stands for "no data yet" (a timeout or a would-block condition).
pub fn is_timeout_error(err: &std::io::Error) -> (b: bool)
    ensures
        b == io_error_kind(*err).spec_is_timeout(),
{
    kind_of(err).is_timeout()
}

/// `String::push` appends one character to the end of the string.
pub assume_specification[ String::push ](s: &mut String, ch: char)
    ensures
        final(s)@ == old(s)@.push(ch),
;

/// The character for a decimal digit.
pub open spec fn digit_char(d: nat) -> char
    recommends
        d < 10,
{
    (48 + d) as char
}

/// The decimal notation of `n`, without sign and without leading zeros.
pub open spec fn decimal_digits(n: nat) -> Seq<char>
    decreases n,
{
    if n < 10 {
        seq![digit_char(n)]
    } else {
        decimal_digits(n / 10).push(digit_char(n % 10))
    }
}

/// Appends the decimal notation of `n` to `out`.
pub fn push_decimal(out: &mut String, n: usize)
    ensures
        final(out)@ == old(out)@ + decimal_digits(n as nat),
    decreases n,
{
    if n >= 10 {
        push_decimal(out, n / 10);
    }
    let d: u8 = (n % 10) as u8;
    out.push((48u8 + d) as char);
    proof {
        if n < 10 {
            assert(old(out)@.push(digit_char(n as nat)) =~= old(out)@ + seq![digit_char(n as nat)]);
        } else {
            let head = decimal_digits((n / 10) as nat);
            assert((old(out)@ + head).push(digit_char((n % 10) as nat)) =~= old(out)@ + head.push(
                digit_char((n % 10) as nat),
            ));
        }
    }
}

/// An I/O failure as the library sees it: the class of its cause and its text.
#[derive(Debug, PartialEq, Eq)]
pub struct IoFailure {
    pub kind: FailureKind,
    pub message: String,
}

/// The mathematical content of an `IoFailure`.
pub struct IoFailureView {
    pub kind: FailureKind,
    pub message: Seq<char>,
}

impl View for IoFailure {
    type V = IoFailureView;

    open spec fn view(&self) -> IoFailureView {
        IoFailureView { kind: self.kind, message: self.message@ }
    }
}

impl Clone for IoFailure {
    fn clone(&self) -> (copy: IoFailure)
        ensures
            copy@ == self@,
    {
        IoFailure { kind: self.kind, message: self.message.clone() }
    }
}

impl IoFailure {
    /// The failure that stands for `err`: its kind reduced to a `FailureKind`, and
    /// the text that the error displays, which the system words.
    pub fn from_io(err: &std::io::Error) -> (failure: IoFailure)
        ensures
            failure.kind == io_error_kind(*err),
            vstd::string::to_string_from_display_ensures::<std::io::Error>(err, failure.message),
    {
        IoFailure { kind: kind_of(err), message: err.to_string() }
    }

    /// Whether this failure only says "nothing yet".
    pub fn is_timeout(&self) -> (b: bool)
        ensures
            b == self@.kind.spec_is_timeout(),
    {
        self.kind.is_timeout()
    }
}

} // verus!
