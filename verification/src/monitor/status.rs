use vstd::prelude::*;

verus! {

/// Where a monitor, a server or a client handler stands after it was given an input.
#[derive(Debug, PartialEq, Eq)]
pub enum Status<E> {
    /// It goes on and waits for more input.
    Pending,
    /// This input ended its run, with this result.
    Finished(Result<(), E>),
    /// Its run was over before this input came; the input was dropped.
    Closed,
}

impl<E: View> View for Status<E> {
    type V = Status<E::V>;

    open spec fn view(&self) -> Status<E::V> {
        match *self {
            Status::Pending => Status::Pending,
            Status::Finished(Ok(())) => Status::Finished(Ok(())),
            Status::Finished(Err(e)) => Status::Finished(Err(e@)),
            Status::Closed => Status::Closed,
        }
    }
}

impl<E> Status<E> {
    /// Whether the run goes on.
    pub fn is_pending(&self) -> (b: bool)
        ensures
            b == (self is Pending),
    {
        match self {
            Status::Pending => true,
            _ => false,
        }
    }
}

} // verus!
