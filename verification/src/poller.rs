//! What the server asks of the readiness poller, and a model of the poller's
//! registrations to hold those requests against.

use vstd::prelude::*;

verus! {

/// The token under which the listening socket is registered. No client is
/// ever given it.
pub const LISTENER: usize = 0;

/// The readiness that a socket is registered for.
#[derive(Clone, Copy, Debug, PartialEq, Eq, Structural)]
pub enum Interest {
    /// Readable only.
    Readable,
    /// Writable only.
    Writable,
    /// Readable and writable.
    Both,
}

impl Interest {
    /// Whether readiness to read is asked for.
    pub open spec fn readable(self) -> bool {
        self != Interest::Writable
    }

    /// Whether readiness to write is asked for.
    pub open spec fn writable(self) -> bool {
        self != Interest::Readable
    }

    /// Whether readiness to read is asked for.
    pub fn is_readable(self) -> (yes: bool)
        ensures
            yes == self.readable(),
    {
        self != Interest::Writable
    }

    /// Whether readiness to write is asked for.
    pub fn is_writable(self) -> (yes: bool)
        ensures
            yes == self.writable(),
    {
        self != Interest::Readable
    }
}

/// One readiness event, as the poller reported it.
#[derive(Clone, Copy, Debug, PartialEq, Eq, Structural)]
pub struct Readiness {
    /// The token that the socket was registered under.
    pub token: usize,
    /// The socket can be read.
    pub readable: bool,
    /// The socket can be written.
    pub writable: bool,
    /// The peer has closed its side.
    pub read_closed: bool,
}

/// One change to the poller's registrations.
#[derive(Clone, Copy, Debug, PartialEq, Eq, Structural)]
pub enum PollerOp {
    /// Register a socket that is not registered yet.
    Register { token: usize, interest: Interest },
    /// Replace the interest of a registered socket.
    Reregister { token: usize, interest: Interest },
    /// Drop a registered socket.
    Deregister { token: usize },
}

impl PollerOp {
    /// The token that the change is about.
    pub open spec fn token(self) -> usize {
        match self {
            PollerOp::Register { token, .. } => token,
            PollerOp::Reregister { token, .. } => token,
            PollerOp::Deregister { token } => token,
        }
    }
}

/// The registration of the listening socket, made once before the first
/// wait and never changed.
pub fn listener_registration() -> (op: PollerOp)
    ensures
        op == (PollerOp::Register { token: LISTENER, interest: Interest::Readable }),
{
    PollerOp::Register { token: LISTENER, interest: Interest::Readable }
}

/// The registration of a client that was just accepted: it is to be read,
/// and the greeting is to be written to it.
pub fn register_rw(token: usize) -> (op: PollerOp)
    ensures
        op == (PollerOp::Register { token, interest: Interest::Both }),
{
    PollerOp::Register { token, interest: Interest::Both }
}

/// What makes the poller say when the client can be written to again.
pub open spec fn rearm(token: usize) -> PollerOp {
    PollerOp::Reregister { token, interest: Interest::Both }
}

/// One `rearm` for each of `tokens`, in their order.
pub open spec fn rearm_all(tokens: Seq<usize>) -> Seq<PollerOp> {
    tokens.map_values(|token: usize| rearm(token))
}

/// The change that makes the poller say when the client can be written to
/// again.
pub fn reregister_rw(token: usize) -> (op: PollerOp)
    ensures
        op == rearm(token),
{
    PollerOp::Reregister { token, interest: Interest::Both }
}

/// The registrations after `op`, or `None` where the poller refuses it: a
/// second registration of a token, or a change to one that is not registered.
pub open spec fn apply_op(registry: Map<usize, Interest>, op: PollerOp) -> Option<
    Map<usize, Interest>,
> {
    match op {
        PollerOp::Register { token, interest } => if registry.dom().contains(token) {
            None
        } else {
            Some(registry.insert(token, interest))
        },
        PollerOp::Reregister { token, interest } => if registry.dom().contains(token) {
            Some(registry.insert(token, interest))
        } else {
            None
        },
        PollerOp::Deregister { token } => if registry.dom().contains(token) {
            Some(registry.remove(token))
        } else {
            None
        },
    }
}

/// The registrations after the changes in `ops`, made in order, or `None`
/// where the poller refuses one of them.
pub open spec fn apply_ops(registry: Map<usize, Interest>, ops: Seq<PollerOp>) -> Option<
    Map<usize, Interest>,
>
    decreases ops.len(),
{
    if ops.len() == 0 {
        Some(registry)
    } else {
        match apply_ops(registry, ops.drop_last()) {
            Some(before) => apply_op(before, ops.last()),
            None => None,
        }
    }
}

} // verus!
