//! Lifecycle state of one bulk-transport session.
//!
//! A connection is created unbound, bound to a transport session once
//! device discovery succeeds, and released explicitly. Using it before it
//! is bound and binding it twice are distinct error conditions. The
//! transport itself lives outside the library; this type carries the
//! capability state that guards it.

use vstd::prelude::*;
use crate::err;

verus! {

/// Whether a connection is bound to a transport session.
#[derive(Clone, Copy, Debug, PartialEq, Eq, Structural)]
pub enum LinkState {
    /// Created, not yet bound to a device.
    Unbound,
    /// Bound to an open transport session.
    Bound,
}

/// The capability state of one connection.
pub struct Connection {
    state: LinkState,
}

impl Connection {
    /// The current lifecycle state.
    pub closed spec fn spec_state(self) -> LinkState {
        self.state
    }

    /// A fresh, unbound connection.
    pub fn new() -> (r: Connection)
        ensures
            r.spec_state() == LinkState::Unbound,
    {
        Connection { state: LinkState::Unbound }
    }

    /// Marks the connection bound after successful device discovery.
    /// Binding twice is refused.
    pub fn bind(&mut self) -> (r: i32)
        ensures
            old(self).spec_state() == LinkState::Unbound ==> (r == err::CRING_EOK
                && final(self).spec_state() == LinkState::Bound),
            old(self).spec_state() == LinkState::Bound ==> (r == err::CRING_EALREADY
                && final(self).spec_state() == LinkState::Bound),
    {
        match self.state {
            LinkState::Unbound => {
                self.state = LinkState::Bound;
                err::CRING_EOK
            },
            LinkState::Bound => err::CRING_EALREADY,
        }
    }

    /// Checks that transfers may be issued: using the connection before
    /// it is bound is refused.
    pub fn require_bound(&self) -> (r: i32)
        ensures
            self.spec_state() == LinkState::Bound ==> r == err::CRING_EOK,
            self.spec_state() == LinkState::Unbound ==> r == err::CRING_EINVAL,
    {
        match self.state {
            LinkState::Bound => err::CRING_EOK,
            LinkState::Unbound => err::CRING_EINVAL,
        }
    }

    /// Releases the binding. Releasing an unbound connection is refused.
    pub fn release(&mut self) -> (r: i32)
        ensures
            old(self).spec_state() == LinkState::Bound ==> (r == err::CRING_EOK
                && final(self).spec_state() == LinkState::Unbound),
            old(self).spec_state() == LinkState::Unbound ==> (r == err::CRING_EINVAL
                && final(self).spec_state() == LinkState::Unbound),
    {
        match self.state {
            LinkState::Bound => {
                self.state = LinkState::Unbound;
                err::CRING_EOK
            },
            LinkState::Unbound => err::CRING_EINVAL,
        }
    }
}

} // verus!
