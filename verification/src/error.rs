//! Errors of the protocol engine.

use vstd::prelude::*;

verus! {

/// Why the engine gave up on a connection.
#[derive(Clone, Copy, Debug, PartialEq, Eq, Structural)]
pub enum ProtocolError {
    /// A record header carries a version other than 1, or a record body is
    /// shorter than its type demands.
    MalformedRecord,
    /// A name-value list ends inside a length prefix or inside a name or value.
    MalformedParams,
    /// A record that the state of the connection does not allow: one for a
    /// request id that is not active, a second BEGIN_REQUEST for the active
    /// id, or a stream record out of order.
    Violation,
}

/// Why a write to a response stream was refused.
#[derive(Clone, Copy, Debug, PartialEq, Eq, Structural)]
pub enum StreamError {
    /// The connection to the peer is gone.
    Disconnected,
}

} // verus!
