use vstd::prelude::*;

use crate::event::DecodeError;

verus! {

/// Failures of a stream of events.
#[derive(Clone, Copy, Debug, PartialEq, Eq)]
pub enum EventStreamError {
    /// The other end of the stream has gone away.
    Closed,
}

/// Failures of the log's core.
#[derive(Clone, Debug, PartialEq, Eq)]
pub enum DatabaseError {
    /// Opening, seeking or reading the log failed; the text says why.
    IoError(String),
    /// A line of the log does not hold an event.
    DecodeError(DecodeError),
    /// A command or an event could not be delivered.
    EventStreamError(EventStreamError),
}

} // verus!
