//! Signatures as sets of component ids, backed by `bit_set::BitSet`.
//!
//! A signature describes either the exact component set of an entity or the
//! required / excluded predicate of a query.  In contracts a signature is the
//! mathematical set of the component ids it holds.

use vstd::prelude::*;

verus! {

/// A set of component ids, one bit per id.
///
/// The stored `bit_set::BitSet` is opaque to the verifier; every operation on
/// it goes through the trusted wrappers below, whose contracts speak of
/// [`bitset_elems`].
#[verifier::external_body]
pub struct EntityBitmask {
    bits: bit_set::BitSet,
}

/// The set of ids stored in the underlying `bit_set::BitSet`.
pub uninterp spec fn bitset_elems(s: EntityBitmask) -> Set<usize>;

impl View for EntityBitmask {
    type V = Set<usize>;

    open spec fn view(&self) -> Set<usize> {
        bitset_elems(*self)
    }
}

impl EntityBitmask {
    /// Relies on `bit_set::BitSet::new`: creates a set with no elements.
    #[verifier::external_body]
    pub fn new() -> (r: Self)
        ensures
            bitset_elems(r) == Set::<usize>::empty(),
    {
        EntityBitmask { bits: bit_set::BitSet::new() }
    }

    /// Relies on `bit_set::BitSet::insert`: adds the id to the set and
    /// reports whether it was absent before.
    #[verifier::external_body]
    pub fn insert(&mut self, id: usize) -> (was_new: bool)
        ensures
            bitset_elems(*final(self)) == bitset_elems(*old(self)).insert(id),
            was_new == !bitset_elems(*old(self)).contains(id),
    {
        self.bits.insert(id)
    }

    /// Relies on `bit_set::BitSet::is_subset`: every id of `self` is in
    /// `other`.
    #[verifier::external_body]
    pub fn is_subset(&self, other: &Self) -> (r: bool)
        ensures
            r == bitset_elems(*self).subset_of(bitset_elems(*other)),
    {
        self.bits.is_subset(&other.bits)
    }

    /// Relies on `bit_set::BitSet::is_disjoint`: the two sets share no id.
    #[verifier::external_body]
    pub fn is_disjoint(&self, other: &Self) -> (r: bool)
        ensures
            r == bitset_elems(*self).disjoint(bitset_elems(*other)),
    {
        self.bits.is_disjoint(&other.bits)
    }

    /// Relies on `bit_set::BitSet::difference_with`: removes every id of
    /// `other` from `self`.
    #[verifier::external_body]
    pub fn difference_with(&mut self, other: &Self)
        ensures
            bitset_elems(*final(self)) == bitset_elems(*old(self)).difference(bitset_elems(*other)),
    {
        self.bits.difference_with(&other.bits)
    }

    /// Relies on `bit_set::BitSet::clone`: an independent copy with the same
    /// elements.
    #[verifier::external_body]
    pub fn duplicate(&self) -> (r: Self)
        ensures
            bitset_elems(r) == bitset_elems(*self),
    {
        EntityBitmask { bits: self.bits.clone() }
    }

    /// Relies on `bit_set::BitSet::iter`: yields exactly the stored ids, in
    /// ascending order.
    #[verifier::external_body]
    pub fn elements(&self) -> (r: Vec<usize>)
        ensures
            forall|i: int, j: int| 0 <= i < j < r@.len() ==> r@[i] < r@[j],
            forall|i: int| 0 <= i < r@.len() ==> bitset_elems(*self).contains(#[trigger] r@[i]),
            forall|c: usize| bitset_elems(*self).contains(c) ==> r@.contains(c),
    {
        self.bits.iter().collect()
    }

    /// An archetype signature matches a query when it holds every required id
    /// and none of the excluded ids.
    pub fn matches_query(&self, query: &Self, restrictions: &Self) -> (r: bool)
        ensures
            r == (query@.subset_of(self@) && restrictions@.disjoint(self@)),
    {
        query.is_subset(self) && restrictions.is_disjoint(self)
    }
}

} // verus!
