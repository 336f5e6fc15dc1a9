use std::time::Duration;
use vstd::prelude::*;

verus! {

/// A stream whose reads and writes can be given a deadline.
pub trait RWTimeoutable {
    /// Sets how long a read may take; `None` lets it wait for ever.
    fn set_read_timeout(&self, dur: Option<Duration>) -> Result<(), std::io::Error>;

    /// How long a read may take.
    fn read_timeout(&self) -> Result<Option<Duration>, std::io::Error>;

    /// Sets how long a write may take; `None` lets it wait for ever.
    fn set_write_timeout(&self, dur: Option<Duration>) -> Result<(), std::io::Error>;

    /// How long a write may take.
    fn write_timeout(&self) -> Result<Option<Duration>, std::io::Error>;
}

} // verus!
