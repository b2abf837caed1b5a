//! Registry that assigns a dense, stable id to each distinct component type.
//!
//! A component type is identified by an opaque `u64` key chosen by the host
//! (for example a hash of a language-level type identifier).  The registry
//! maps each key, on first sight, to the next value of a monotonically
//! increasing counter starting at 0.  Ids are never reused or freed.

use std::collections::HashMap;
use vstd::prelude::*;

verus! {

broadcast use vstd::std_specs::hash::group_hash_axioms;

/// Identifier of a registered component type: a small dense integer.
pub type ComponentId = usize;

/// Assigns a stable [`ComponentId`] to each distinct component-type key.
pub struct ComponentManager {
    /// Map from component-type key to its assigned id.
    pub components: HashMap<u64, ComponentId>,
    /// The next id to hand out; equal to the number of ids assigned so far.
    pub last_used_id: ComponentId,
}

/// The registry invariant over its mathematical content: every assigned id
/// lies below the counter, and no two keys share an id.
pub open spec fn registry_wf(m: Map<u64, ComponentId>, next: int) -> bool {
    &&& forall|k: u64| #[trigger] m.contains_key(k) ==> m[k] < next
    &&& forall|k1: u64, k2: u64|
        m.contains_key(k1) && m.contains_key(k2) && k1 != k2 ==> #[trigger] m[k1] != #[trigger] m[k2]
}

/// The id that a registration of `key` yields: the already-assigned id if the
/// key was seen before, the counter value otherwise.
pub open spec fn registered_id(m: Map<u64, ComponentId>, next: int, key: u64) -> int {
    if m.contains_key(key) {
        m[key] as int
    } else {
        next
    }
}

/// The registry content after a registration of `key`.
pub open spec fn after_register(m: Map<u64, ComponentId>, next: int, key: u64) -> (Map<
    u64,
    ComponentId,
>, int) {
    if m.contains_key(key) {
        (m, next)
    } else {
        (m.insert(key, next as usize), next + 1)
    }
}

impl ComponentManager {
    /// The registry invariant, stated over this instance's fields.
    pub open spec fn wf(self) -> bool {
        registry_wf(self.components@, self.last_used_id as int)
    }

    /// Creates an empty registry.
    pub fn new() -> (r: Self)
        ensures
            r.wf(),
            r.components@ == Map::<u64, ComponentId>::empty(),
            r.last_used_id == 0,
    {
        ComponentManager { components: HashMap::new(), last_used_id: 0 }
    }

    /// Takes the next value of the id counter.
    pub fn get_new_id(&mut self) -> (id: ComponentId)
        requires
            old(self).last_used_id < usize::MAX,
        ensures
            id == old(self).last_used_id,
            final(self).last_used_id == old(self).last_used_id + 1,
            final(self).components == old(self).components,
    {
        let id = self.last_used_id;
        self.last_used_id = self.last_used_id + 1;
        id
    }

    /// Assigns a fresh id to a key that has never been registered.
    pub fn register_component_unchecked(&mut self, key: u64) -> (id: ComponentId)
        requires
            old(self).wf(),
            !old(self).components@.contains_key(key),
            old(self).last_used_id < usize::MAX,
        ensures
            final(self).wf(),
            id == old(self).last_used_id,
            final(self).components@ == old(self).components@.insert(key, id),
            final(self).last_used_id == old(self).last_used_id + 1,
    {
        let id = self.get_new_id();
        self.components.insert(key, id);
        id
    }

    /// Looks the key up without allocating an id.
    pub fn get_component_id(&self, key: u64) -> (r: Option<ComponentId>)
        ensures
            r == if self.components@.contains_key(key) {
                Some(self.components@[key])
            } else {
                None::<ComponentId>
            },
    {
        match self.components.get(&key) {
            Some(id) => Some(*id),
            None => None,
        }
    }

    /// Registers the key if it is new, and returns its id either way.
    pub fn register_component_if_not_exists(&mut self, key: u64) -> (id: ComponentId)
        requires
            old(self).wf(),
            old(self).last_used_id < usize::MAX,
        ensures
            final(self).wf(),
            id == registered_id(old(self).components@, old(self).last_used_id as int, key),
            (final(self).components@, final(self).last_used_id as int) == after_register(
                old(self).components@,
                old(self).last_used_id as int,
                key,
            ),
            final(self).components@.contains_key(key) && final(self).components@[key] == id,
            final(self).last_used_id >= old(self).last_used_id,
    {
        match self.get_component_id(key) {
            Some(id) => id,
            None => self.register_component_unchecked(key),
        }
    }

    /// Reports whether the key has been registered.
    pub fn component_exists(&self, key: u64) -> (r: bool)
        ensures
            r == self.components@.contains_key(key),
    {
        self.components.contains_key(&key)
    }
}

/// The registry content after registering a whole list of keys in order.
pub open spec fn reg_after_keys(m: Map<u64, ComponentId>, next: int, keys: Seq<u64>) -> (Map<
    u64,
    ComponentId,
>, int)
    decreases keys.len(),
{
    if keys.len() == 0 {
        (m, next)
    } else {
        let (m1, n1) = after_register(m, next, keys[0]);
        reg_after_keys(m1, n1, keys.drop_first())
    }
}

/// Registering a list of keys advances the counter by at most one per key.
pub proof fn lemma_reg_after_keys_bound(m: Map<u64, ComponentId>, next: int, keys: Seq<u64>)
    ensures
        next <= reg_after_keys(m, next, keys).1 <= next + keys.len(),
    decreases keys.len(),
{
    if keys.len() > 0 {
        let (m1, n1) = after_register(m, next, keys[0]);
        lemma_reg_after_keys_bound(m1, n1, keys.drop_first());
    }
}

/// Registration is idempotent: registering a key a second time changes nothing
/// and yields the same id, while registrations of two distinct keys always
/// yield distinct ids.
pub proof fn lemma_registry_idempotent(m: Map<u64, ComponentId>, next: int, t: u64, u: u64)
    requires
        registry_wf(m, next),
        0 <= next <= usize::MAX,
    ensures
        ({
            let (m1, n1) = after_register(m, next, t);
            let id1 = registered_id(m, next, t);
            let id2 = registered_id(m1, n1, t);
            &&& id2 == id1
            &&& after_register(m1, n1, t) == (m1, n1)
        }),
        t != u ==> ({
            let (m1, n1) = after_register(m, next, t);
            registered_id(m1, n1, u) != registered_id(m, next, t)
        }),
{
}

} // verus!
