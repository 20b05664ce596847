//! Errors an endpoint reports to its caller.

use vstd::prelude::*;

verus! {

/// Why an operation on a connection was refused.
#[derive(Debug, Clone, Copy, PartialEq, Eq, Structural)]
pub enum ConnectionError {
    /// There is no connection for the peer or slot.
    Disconnected,
    /// A connection exists but is still being set up or torn down.
    ConnectionNotReady,
}

impl ConnectionError {
    /// A short description of the error.
    pub fn message(&self) -> (r: &'static str)
        ensures
            self is Disconnected ==> r@ == "Connection could not be found"@,
            self is ConnectionNotReady ==> r@ == "Connection is not ready"@,
    {
        match self {
            ConnectionError::Disconnected => "Connection could not be found",
            ConnectionError::ConnectionNotReady => "Connection is not ready",
        }
    }
}

} // verus!
