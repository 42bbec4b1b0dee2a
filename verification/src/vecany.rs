//! A growable, homogeneous sequence whose element type is fixed at run time.
//!
//! A `VecAny` is bound to one [`TypeTag`] for its whole lifetime.  Every
//! accessor takes the tag the caller believes the contents to have; when the
//! tags disagree the accessor reports absence (or does nothing) instead of
//! handing back data of the wrong type.

use vstd::prelude::*;

use crate::value::{TypeTag, Value};

verus! {

/// A type-erased growable buffer: a sequence of [`Value`]s bound to the
/// [`TypeTag`] it was created for.
pub struct VecAny {
    pub ty: TypeTag,
    pub data: Vec<Value>,
}

impl View for VecAny {
    type V = Seq<Value>;

    open spec fn view(&self) -> Seq<Value> {
        self.data@
    }
}

impl VecAny {
    /// Creates an empty buffer bound to `ty`.
    pub fn new(ty: TypeTag) -> (r: Self)
        ensures
            r.ty == ty,
            r@ =~= Seq::<Value>::empty(),
    {
        Self { ty, data: Vec::new() }
    }

    /// Creates an empty buffer bound to an externally supplied identity;
    /// a table pre-creates all its columns this way, from the declared
    /// component list alone, before any row exists.
    pub fn new_uninit(ty: TypeTag) -> (r: Self)
        ensures
            r.ty == ty,
            r@ =~= Seq::<Value>::empty(),
    {
        Self::new(ty)
    }

    /// Wraps an existing vector of values, binding it to `ty`.
    pub fn from_vec(ty: TypeTag, data: Vec<Value>) -> (r: Self)
        ensures
            r.ty == ty,
            r@ == data@,
    {
        Self { ty, data }
    }

    /// Appends `item` if and only if `ty` matches the buffer's bound
    /// identity; a mismatched push leaves the buffer untouched.
    pub fn push(&mut self, ty: TypeTag, item: Value)
        ensures
            old(self).ty == ty ==> final(self)@ == old(self)@.push(item),
            old(self).ty != ty ==> *final(self) == *old(self),
            final(self).ty == old(self).ty,
    {
        if self.ty == ty {
            self.data.push(item);
        }
    }

    /// The full contents, or `None` on an identity mismatch.
    pub fn downcast_ref(&self, ty: TypeTag) -> (r: Option<&Vec<Value>>)
        ensures
            self.ty == ty <==> r is Some,
            r matches Some(v) ==> v@ == self@,
    {
        if self.ty == ty {
            Some(&self.data)
        } else {
            None
        }
    }

    /// The value at `index`, or `None` on an identity mismatch or an index
    /// past the end.
    pub fn get(&self, ty: TypeTag, index: usize) -> (r: Option<Value>)
        ensures
            r is Some <==> (self.ty == ty && index < self@.len()),
            r matches Some(v) ==> v == self@[index as int],
    {
        if self.ty == ty && index < self.data.len() {
            Some(self.data[index])
        } else {
            None
        }
    }

    /// Overwrites the value at `index`; reports whether it did.  A
    /// mismatched identity or an index past the end is a silent no-op.
    pub fn set(&mut self, ty: TypeTag, index: usize, item: Value) -> (r: bool)
        ensures
            r <==> (old(self).ty == ty && index < old(self)@.len()),
            r ==> final(self)@ == old(self)@.update(index as int, item),
            !r ==> *final(self) == *old(self),
            final(self).ty == old(self).ty,
    {
        if self.ty == ty && index < self.data.len() {
            self.data[index] = item;
            true
        } else {
            false
        }
    }

    /// Removes the value at `index` by swapping the last value into its
    /// place, and returns it.  A mismatched identity is a silent no-op.
    pub fn swap_remove(&mut self, ty: TypeTag, index: usize) -> (r: Option<Value>)
        requires
            old(self).ty == ty ==> index < old(self)@.len(),
        ensures
            old(self).ty == ty ==> {
                &&& r == Some(old(self)@[index as int])
                &&& final(self)@ == old(self)@.update(index as int, old(self)@.last()).drop_last()
            },
            old(self).ty != ty ==> r is None && *final(self) == *old(self),
            final(self).ty == old(self).ty,
    {
        if self.ty == ty {
            Some(self.data.swap_remove(index))
        } else {
            None
        }
    }

    /// The number of live values.
    pub fn len(&self) -> (r: usize)
        ensures
            r == self@.len(),
    {
        self.data.len()
    }

    /// Whether the buffer holds no values.
    pub fn is_empty(&self) -> (r: bool)
        ensures
            r <==> self@.len() == 0,
    {
        self.data.is_empty()
    }

    /// The identity the buffer is bound to.
    pub fn ty(&self) -> (r: TypeTag)
        ensures
            r == self.ty,
    {
        self.ty
    }
}

} // verus!
