//! Small shared utilities: timers, a frame clock, and common component
//! types.
//!
//! The library holds no clock of its own: the composition root reads the
//! time and passes it in as plain milliseconds, so everything here is
//! verified for every possible reading.

use vstd::prelude::*;

use crate::value::Value;

verus! {

/// A one-shot timer over millisecond timestamps supplied by the caller.
/// A timer that was never started reports itself done.
#[derive(Clone, Copy, Debug)]
pub struct Timer {
    pub start: Option<u64>,
    pub duration: u64,
}

impl Timer {
    /// Creates an unstarted timer with the given duration in milliseconds.
    pub fn new(duration: u64) -> (r: Self)
        ensures
            r.start is None,
            r.duration == duration,
    {
        Self { start: None, duration }
    }

    /// Starts (or restarts) the timer at time `now`.
    pub fn start(&mut self, now: u64)
        ensures
            final(self).start == Some(now),
            final(self).duration == old(self).duration,
    {
        self.start = Some(now);
    }

    /// Whether the timer's duration has elapsed by time `now`.  An
    /// unstarted timer is done; a started one is done once strictly more
    /// than `duration` milliseconds have passed.
    pub fn done(&self, now: u64) -> (r: bool)
        ensures
            r <==> match self.start {
                Option::None => true,
                Option::Some(s) => now > s + self.duration,
            },
    {
        match self.start {
            None => true,
            Some(s) => now > s && now - s > self.duration,
        }
    }
}

/// Frame timing over millisecond timestamps supplied by the caller:
/// `delta` is the time between the two most recent ticks.
#[derive(Clone, Copy, Debug)]
pub struct Clock {
    pub delta: u64,
    pub start: u64,
    pub last: u64,
}

impl Clock {
    /// Creates a clock whose epoch and last tick are both `now`.
    pub fn new(now: u64) -> (r: Self)
        ensures
            r.delta == 0,
            r.start == now,
            r.last == now,
    {
        Self { delta: 0, start: now, last: now }
    }

    /// Advances the clock to time `now`, recording the time elapsed since
    /// the previous tick (zero if the reading went backwards).
    pub fn tick(&mut self, now: u64)
        ensures
            final(self).start == old(self).start,
            final(self).last == now,
            final(self).delta == if now >= old(self).last {
                now - old(self).last
            } else {
                0
            },
    {
        if now >= self.last {
            self.delta = now - self.last;
        } else {
            self.delta = 0;
        }
        self.last = now;
    }

    /// The clock as a resource row, for storage in a world.
    pub fn to_values(&self) -> (r: Vec<Value>)
        ensures
            r@ =~= seq![
                Value::UInt(self.delta),
                Value::UInt(self.start),
                Value::UInt(self.last),
            ],
    {
        let mut v: Vec<Value> = Vec::new();
        v.push(Value::UInt(self.delta));
        v.push(Value::UInt(self.start));
        v.push(Value::UInt(self.last));
        v
    }

    /// Reads a clock back out of a resource row; `None` when the row does
    /// not have the clock's shape.
    pub fn from_values(values: &Vec<Value>) -> (r: Option<Clock>)
        ensures
            r is Some <==> (values@.len() == 3 && values@[0] is UInt && values@[1] is UInt
                && values@[2] is UInt),
            r matches Some(c) ==> values@ =~= seq![
                Value::UInt(c.delta),
                Value::UInt(c.start),
                Value::UInt(c.last),
            ],
    {
        if values.len() != 3 {
            return None;
        }
        match (values[0], values[1], values[2]) {
            (Value::UInt(delta), Value::UInt(start), Value::UInt(last)) => {
                Some(Clock { delta, start, last })
            },
            _ => None,
        }
    }
}

/// Whether a run-loop is live.
#[derive(Clone, Copy, Debug, PartialEq, Eq, Structural)]
pub enum State {
    Stopped,
    Running,
}

/// A display name carried by an entity or resource.
#[derive(Clone, Debug)]
pub struct Name(pub String);

impl Name {
    /// The name as text.
    pub fn as_str(&self) -> (r: &str)
        ensures
            r@ == self.0@,
    {
        self.0.as_str()
    }
}

} // verus!
