//! An archetype-based entity-component-system runtime.
//!
//! The store is column-oriented: every archetype (a fixed, ordered list of
//! component type identities) owns one table, and every component of that
//! archetype lives in its own dynamically typed column.  Entities are stable
//! handles into the store; despawning compacts rows by swap-remove and the
//! world repoints the handle whose row was moved.  Queries select the tables
//! that match a conjunction of filters and concatenate their columns in
//! registration order.  Scenes capture a subset of live entities as plain
//! rows of values, keyed by archetype identity, and can be replayed into a
//! world in which the same archetypes are registered.
//!
//! Component values are dynamically typed: a column holds [`value::Value`]s
//! and is bound to a [`value::TypeTag`], the runtime identity the
//! composition root assigns to each component type; every accessor checks
//! the tag it is handed against the bound one.  An archetype is likewise a
//! runtime schema descriptor, consumed by the generic add, remove and get
//! operations of its table, so the declared component list and the code
//! that populates rows can never drift apart.
//!
//! Systems own their state and receive the world by exclusive reference,
//! one at a time, from a [`dispatch::Dispatcher`] kept beside the world;
//! single-threaded dispatch makes that exclusive handoff equivalent to the
//! usual shared-access-with-interior-mutability discipline, and it is the
//! form a verifier can reason about.

pub mod codec;
pub mod combat;
pub mod data;
pub mod dispatch;
pub mod equipment;
pub mod item;
pub mod protocol;
pub mod task;
pub mod utils;
pub mod value;
pub mod world;
pub mod query;
pub mod scene;
pub mod table;
pub mod vecany;

use vstd::prelude::*;

verus! {

/// Borrows one element of a vector mutably, relating the vector's final
/// value to whatever the caller writes through the borrow.
pub(crate) fn idx_mut<T>(v: &mut Vec<T>, i: usize) -> (element: &mut T)
    requires
        i < old(v).len(),
    ensures
        *element == old(v)@[i as int],
        final(v)@ == old(v)@.update(i as int, *final(element)),
{
    &mut v[i]
}

} // verus!
