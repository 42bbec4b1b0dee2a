//! Shared client/server identities and the simulation tick counter.

use vstd::prelude::*;

verus! {

/// A stable handle to one connected client.
#[derive(Clone, Copy, Debug, PartialEq, Eq, Structural, Hash)]
pub struct ClientId(pub u64);

/// The simulation tick counter.
#[derive(Clone, Copy, Debug, PartialEq, Eq, Structural, Hash)]
pub struct Tick(pub u64);

impl Tick {
    /// Advances to the next tick.
    pub fn inc(&mut self)
        requires
            old(self).0 < u64::MAX,
        ensures
            final(self).0 == old(self).0 + 1,
    {
        self.0 = self.0 + 1;
    }
}

} // verus!
