//! Dynamically typed component values and runtime type identities.
//!
//! Columns store values whose element type is known only at run time.  The
//! store models such a value as a tagged union over a small set of scalar
//! representations, and models a type identity as an opaque integer chosen
//! by the composition root when it registers its component types.

use vstd::prelude::*;

verus! {

/// The runtime identity of a component or archetype type.
///
/// Identities are assigned by the composition root; two component types are
/// the same exactly when their tags are equal.
#[derive(Clone, Copy, Debug, PartialEq, Eq, Structural, Hash)]
pub struct TypeTag(pub u64);

/// One dynamically typed component value.
#[derive(Clone, Copy, Debug, PartialEq, Eq, Structural, Hash)]
pub enum Value {
    Int(i64),
    UInt(u64),
    Bool(bool),
}

/// Copies a vector of values.
pub fn copy_values(src: &Vec<Value>) -> (r: Vec<Value>)
    ensures
        r@ == src@,
{
    let mut out: Vec<Value> = Vec::new();
    let n = src.len();
    for i in 0..n
        invariant
            n == src@.len(),
            out@ == src@.take(i as int),
    {
        proof {
            assert(src@.take(i + 1) =~= src@.take(i as int).push(src@[i as int]));
        }
        out.push(src[i]);
    }
    proof {
        assert(src@.take(n as int) =~= src@);
    }
    out
}

} // verus!
