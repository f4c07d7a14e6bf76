//! The decisions of a server, apart from the sockets that they are about.

use vstd::prelude::*;

pub mod accept;
pub mod epoll;
pub mod exchange;
pub mod read;

verus! {

/// What a connection setup hook wants done with a connection.
#[derive(Debug)]
pub enum ConnectionSetupAction<S> {
    Proceed(S),
    Drop,
    StopAccepting,
}

/// What a hook that runs before routing wants done with a request.
#[derive(Debug, Clone, Copy, PartialEq, Eq, Structural)]
pub enum PreRoutingAction {
    Proceed,
    Drop,
}

} // verus!
