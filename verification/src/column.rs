//! One archetype column: a type-erased growable buffer, one slot per row.
//!
//! The store is type-erased at run time; the verified logic reads and writes
//! each component as its plain payload word.  The buffer itself is an
//! `any_vec::AnyVec` holding those payloads, opaque to the verifier; every
//! operation on it goes through the trusted wrappers below, whose contracts
//! speak of [`column_elems`].

use any_vec::any_value::AnyValueWrapper;
use vstd::prelude::*;

verus! {

/// A column of component payloads, index-aligned with its archetype's entity
/// list.
#[verifier::external_body]
pub struct Column {
    values: any_vec::AnyVec,
}

/// The sequence of payloads stored in the underlying `any_vec::AnyVec`.
pub uninterp spec fn column_elems(c: Column) -> Seq<u64>;

impl View for Column {
    type V = Seq<u64>;

    open spec fn view(&self) -> Seq<u64> {
        column_elems(*self)
    }
}

impl Column {
    /// Relies on `any_vec::AnyVec::new`: creates an empty vector.
    #[verifier::external_body]
    pub fn new() -> (r: Self)
        ensures
            column_elems(r) == Seq::<u64>::empty(),
    {
        Column { values: any_vec::AnyVec::new::<u64>() }
    }

    /// Relies on `any_vec::AnyVec::push`: appends the value at the end.
    #[verifier::external_body]
    pub fn push(&mut self, v: u64)
        ensures
            column_elems(*final(self)) == column_elems(*old(self)).push(v),
    {
        self.values.push(AnyValueWrapper::new(v));
    }

    /// Relies on `any_vec::AnyVec::get`: a reference to the element at the
    /// index.
    #[verifier::external_body]
    pub fn get(&self, i: usize) -> (v: u64)
        requires
            i < column_elems(*self).len(),
        ensures
            v == column_elems(*self)[i as int],
    {
        *self.values.get(i).unwrap().downcast_ref::<u64>().unwrap()
    }

    /// Relies on `any_vec::AnyVec::get_mut`: a mutable reference to the
    /// element at the index, overwritten in place.
    #[verifier::external_body]
    pub fn set(&mut self, i: usize, v: u64)
        requires
            i < column_elems(*old(self)).len(),
        ensures
            column_elems(*final(self)) == column_elems(*old(self)).update(i as int, v),
    {
        *self.values.get_mut(i).unwrap().downcast_mut::<u64>().unwrap() = v;
    }

    /// Relies on `any_vec::AnyVec::swap_remove`: drops the element at the
    /// index, moves the last element into its slot and shrinks by one.
    #[verifier::external_body]
    pub fn swap_remove(&mut self, i: usize)
        requires
            i < column_elems(*old(self)).len(),
        ensures
            column_elems(*final(self)) == column_elems(*old(self)).update(
                i as int,
                column_elems(*old(self)).last(),
            ).drop_last(),
    {
        self.values.swap_remove(i);
    }
}

} // verus!
