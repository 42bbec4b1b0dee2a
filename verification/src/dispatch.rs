//! System dispatch: a registry of systems invoked in registration order.
//!
//! A system reacts to a submitted event, to the periodic tick, or to both;
//! the event type is chosen by the composition root and opaque to the
//! dispatcher.  Dispatch hands each system exclusive access to the world in
//! turn, so a system's own state and the world both survive from tick to
//! tick.

use vstd::prelude::*;

use crate::world::World;

verus! {

/// One system: its reactions to a submitted event and to the periodic
/// tick.  Both default to doing nothing, so a system implements only what
/// it reacts to.  Either reaction may rework the world, but must leave it
/// well formed.
pub trait System {
    /// The event type the composition root dispatches.
    type Event;

    /// Reacts to one submitted event.
    fn event(&mut self, _world: &mut World, _event: &Self::Event)
        requires
            old(_world).wf(),
        ensures
            final (_world).wf(),
    {
    }

    /// Reacts to one tick.
    fn tick(&mut self, _world: &mut World)
        requires
            old(_world).wf(),
        ensures
            final (_world).wf(),
    {
    }
}

/// The ordered registry of systems.  Within one `tick` or `submit` call,
/// systems run strictly in registration order.
pub struct Dispatcher<S: System> {
    pub systems: Vec<S>,
}

impl<S: System> Dispatcher<S> {
    /// Creates an empty registry.
    pub fn new() -> (r: Self)
        ensures
            r.systems@.len() == 0,
    {
        Self { systems: Vec::new() }
    }

    /// Registers one more system, after all already registered.
    pub fn with_system(self, system: S) -> (r: Self)
        ensures
            r.systems@.len() == self.systems@.len() + 1,
    {
        let mut d = self;
        d.systems.push(system);
        d
    }

    /// The number of registered systems.
    pub fn len(&self) -> (r: usize)
        ensures
            r == self.systems@.len(),
    {
        self.systems.len()
    }

    /// Invokes every system's tick reaction, in registration order.
    pub fn tick(&mut self, world: &mut World)
        requires
            old(world).wf(),
        ensures
            final (world).wf(),
            final (self).systems@.len() == old(self).systems@.len(),
            old(self).systems@.len() == 0 ==> *final (world) == *old(world) && *final (self)
                == *old(self),
    {
        let n = self.systems.len();
        for i in 0..n
            invariant
                n == self.systems@.len(),
                world.wf(),
                n == 0 ==> *world == *old(world) && *self == *old(self),
        {
            let s = crate::idx_mut(&mut self.systems, i);
            s.tick(world);
        }
    }

    /// Invokes every system's event reaction for one event, in
    /// registration order.
    pub fn submit(&mut self, world: &mut World, event: &S::Event)
        requires
            old(world).wf(),
        ensures
            final (world).wf(),
            final (self).systems@.len() == old(self).systems@.len(),
            old(self).systems@.len() == 0 ==> *final (world) == *old(world) && *final (self)
                == *old(self),
    {
        let n = self.systems.len();
        for i in 0..n
            invariant
                n == self.systems@.len(),
                world.wf(),
                n == 0 ==> *world == *old(world) && *self == *old(self),
        {
            let s = crate::idx_mut(&mut self.systems, i);
            s.event(world, event);
        }
    }
}

} // verus!
