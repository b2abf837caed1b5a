//! A minimal archetype-based entity-component store.
//!
//! Entities are grouped by their exact component signature into archetypes,
//! each holding one type-erased column per component.  Queries enumerate the
//! archetypes whose signature covers a required set and avoids an excluded
//! set.  A registration-time safety check proves that no two parameters of
//! one system can observe overlapping mutable state, and structural changes
//! requested while systems run are buffered and applied between cycles.

use vstd::prelude::*;

pub mod bits;
pub mod column;
pub mod component;
pub mod entity;
pub mod query;
pub mod system;

use crate::component::{reg_after_keys, ComponentId, ComponentManager};
use crate::entity::{bundle_component_map, bundle_keys, distinct_keys, EntityId, EntityManager};
use crate::query::{distinct_u64s, keys_disjoint, keys_id_seq, keys_id_set, Query};
use crate::system::{
    params_key_count, params_wf, safety_fold, SystemDecl, SystemParamError, SystemsManager,
};

verus! {

/// One buffered structural mutation.
pub enum Command {
    /// Insert one entity carrying this bundle of (type key, payload) pairs.
    Spawn {
        /// The entity id handed out when the spawn was queued.
        id: EntityId,
        /// The component bundle the entity is born with.
        bundle: Vec<(u64, u64)>,
    },
    /// Remove one entity, if it still exists when the queue is applied.
    Despawn {
        /// The entity to remove.
        id: EntityId,
    },
}

/// How many component-type keys the queued mutations may register.
pub open spec fn queue_key_count(q: Seq<Command>) -> int
    decreases q.len(),
{
    if q.len() == 0 {
        0
    } else {
        (match q[0] {
            Command::Spawn { id, bundle } => bundle@.len() as int,
            Command::Despawn { id } => 0,
        }) + queue_key_count(q.drop_first())
    }
}

/// A queue never registers a negative number of keys.
pub proof fn lemma_queue_key_count_nonneg(q: Seq<Command>)
    ensures
        queue_key_count(q) >= 0,
    decreases q.len(),
{
    if q.len() > 0 {
        lemma_queue_key_count_nonneg(q.drop_first());
    }
}

/// What applying the queued mutations in submission order does to the store's
/// content and the registry: each spawn registers its bundle's keys and
/// inserts the entity, each despawn removes the entity if present.
pub open spec fn apply_fold(
    m: Map<usize, Map<usize, u64>>,
    reg: Map<u64, ComponentId>,
    next: int,
    q: Seq<Command>,
) -> (Map<usize, Map<usize, u64>>, Map<u64, ComponentId>, int)
    decreases q.len(),
{
    if q.len() == 0 {
        (m, reg, next)
    } else {
        match q[0] {
            Command::Spawn { id, bundle } => {
                let (reg1, next1) = reg_after_keys(reg, next, bundle_keys(bundle@));
                apply_fold(
                    m.insert(id.0, bundle_component_map(reg1, bundle@)),
                    reg1,
                    next1,
                    q.drop_first(),
                )
            },
            Command::Despawn { id } => apply_fold(m.remove(id.0), reg, next, q.drop_first()),
        }
    }
}

/// Applying a queue touches no entity but those the queue spawns: every id
/// live afterwards was live before or was spawned by the queue.
pub proof fn lemma_apply_fold_dom(
    m: Map<usize, Map<usize, u64>>,
    reg: Map<u64, ComponentId>,
    next: int,
    q: Seq<Command>,
)
    ensures
        forall|e: usize|
            #[trigger] apply_fold(m, reg, next, q).0.contains_key(e) ==> m.contains_key(e)
                || exists|i: int|
                0 <= i < q.len() && ((#[trigger] q[i]) matches Command::Spawn { id, bundle }
                    && id.0 == e),
    decreases q.len(),
{
    if q.len() > 0 {
        match q[0] {
            Command::Spawn { id, bundle } => {
                let (reg1, next1) = reg_after_keys(reg, next, bundle_keys(bundle@));
                let m1 = m.insert(id.0, bundle_component_map(reg1, bundle@));
                lemma_apply_fold_dom(m1, reg1, next1, q.drop_first());
                assert(apply_fold(m, reg, next, q) == apply_fold(m1, reg1, next1, q.drop_first()));
                assert forall|e: usize|
                    #[trigger] apply_fold(m, reg, next, q).0.contains_key(e) implies m.contains_key(
                    e,
                ) || exists|i: int|
                    0 <= i < q.len() && ((#[trigger] q[i]) matches Command::Spawn { id, bundle }
                        && id.0 == e) by {
                    assert(apply_fold(m1, reg1, next1, q.drop_first()).0.contains_key(e));
                    if !m.contains_key(e) {
                        if e == id.0 {
                            assert((q[0]) matches Command::Spawn { id, bundle } && id.0 == e);
                        } else {
                            let i = choose|i: int|
                                0 <= i < q.drop_first().len() && ((
                                #[trigger] q.drop_first()[i]) matches Command::Spawn {
                                    id,
                                    bundle,
                                } && id.0 == e);
                            assert(q[i + 1] == q.drop_first()[i]);
                        }
                    }
                }
            },
            Command::Despawn { id } => {
                lemma_apply_fold_dom(m.remove(id.0), reg, next, q.drop_first());
                assert(apply_fold(m, reg, next, q) == apply_fold(
                    m.remove(id.0),
                    reg,
                    next,
                    q.drop_first(),
                ));
                assert forall|e: usize|
                    #[trigger] apply_fold(m, reg, next, q).0.contains_key(e) implies m.contains_key(
                    e,
                ) || exists|i: int|
                    0 <= i < q.len() && ((#[trigger] q[i]) matches Command::Spawn { id, bundle }
                        && id.0 == e) by {
                    assert(apply_fold(m.remove(id.0), reg, next, q.drop_first()).0.contains_key(e));
                    if !m.contains_key(e) {
                        let i = choose|i: int|
                            0 <= i < q.drop_first().len() && ((
                            #[trigger] q.drop_first()[i]) matches Command::Spawn { id, bundle }
                                && id.0 == e);
                        assert(q[i + 1] == q.drop_first()[i]);
                    }
                }
            },
        }
    }
}

/// Queued mutations apply first-in first-out: a spawn followed by a despawn
/// of the id it returned leaves the store exactly as it was, with the entity
/// absent.  (Applied in reverse order, the despawn would find nothing and
/// the spawn would leave the entity alive.)
pub proof fn lemma_command_ordering(
    m: Map<usize, Map<usize, u64>>,
    reg: Map<u64, ComponentId>,
    next: int,
    id: EntityId,
    bundle: Vec<(u64, u64)>,
)
    requires
        !m.contains_key(id.0),
    ensures
        ({
            let q = seq![Command::Spawn { id, bundle }, Command::Despawn { id }];
            let (m2, reg2, next2) = apply_fold(m, reg, next, q);
            &&& !m2.contains_key(id.0)
            &&& m2 =~= m
        }),
{
    let q = seq![Command::Spawn { id, bundle }, Command::Despawn { id }];
    let (reg1, next1) = reg_after_keys(reg, next, bundle_keys(bundle@));
    let m1 = m.insert(id.0, bundle_component_map(reg1, bundle@));
    let q1 = q.drop_first();
    assert(q[0] == (Command::Spawn { id, bundle }));
    assert(q1 =~= seq![Command::Despawn { id }]);
    assert(q1[0] == (Command::Despawn { id }));
    assert(apply_fold(m, reg, next, q) == apply_fold(m1, reg1, next1, q1));
    assert(apply_fold(m1, reg1, next1, q1) == apply_fold(
        m1.remove(id.0),
        reg1,
        next1,
        q1.drop_first(),
    ));
    assert(q1.drop_first() =~= Seq::<Command>::empty());
    assert(apply_fold(m1.remove(id.0), reg1, next1, q1.drop_first()).0 == m1.remove(id.0));
}

/// Buffers structural mutations (spawn and despawn) requested while systems
/// run, and allocates entity ids.  Ids are handed out synchronously, so a
/// system can refer to an entity it just spawned; the row itself appears only
/// when the queue is applied.
pub struct Commands {
    /// The pending mutations, oldest first.
    pub actions_queue: Vec<Command>,
    /// The next entity id to hand out; ids are never reused.
    pub next_id: usize,
}

impl Commands {
    /// Every queued spawn carries a duplicate-free bundle and an id below the
    /// counter, and no two queued spawns share an id.
    pub open spec fn queue_wf(self) -> bool {
        &&& forall|i: int|
            0 <= i < self.actions_queue@.len() ==> (match #[trigger] self.actions_queue@[i] {
                Command::Spawn { id, bundle } => distinct_keys(bundle@) && id.0 < self.next_id,
                Command::Despawn { id } => true,
            })
        &&& forall|i: int, j: int|
            0 <= i < j < self.actions_queue@.len() ==> (match (
                #[trigger] self.actions_queue@[i],
                #[trigger] self.actions_queue@[j],
            ) {
                (
                    Command::Spawn { id: id1, bundle: b1 },
                    Command::Spawn { id: id2, bundle: b2 },
                ) => id1.0 != id2.0,
                _ => true,
            })
    }

    /// Creates an empty queue with the id counter at zero.
    pub fn new() -> (r: Self)
        ensures
            r.queue_wf(),
            r.actions_queue@ == Seq::<Command>::empty(),
            r.next_id == 0,
    {
        Commands { actions_queue: Vec::new(), next_id: 0 }
    }

    /// Hands out the next entity id.
    fn new_entity_id(&mut self) -> (r: EntityId)
        requires
            old(self).next_id < usize::MAX,
        ensures
            r.0 == old(self).next_id,
            final(self).next_id == old(self).next_id + 1,
            final(self).actions_queue == old(self).actions_queue,
    {
        let new_entity = EntityId::new(self.next_id);
        self.next_id = self.next_id + 1;
        new_entity
    }

    /// Queues a spawn and returns the entity's id at once, so the caller can
    /// refer to the entity before the row exists.
    pub fn spawn(&mut self, tospawn: Vec<(u64, u64)>) -> (id: EntityId)
        requires
            old(self).queue_wf(),
            distinct_keys(tospawn@),
            old(self).next_id < usize::MAX,
        ensures
            final(self).queue_wf(),
            id.0 == old(self).next_id,
            final(self).next_id == old(self).next_id + 1,
            final(self).actions_queue@ == old(self).actions_queue@.push(
                Command::Spawn { id, bundle: tospawn },
            ),
    {
        let id = self.new_entity_id();
        self.actions_queue.push(Command::Spawn { id, bundle: tospawn });
        id
    }

    /// Queues a despawn of the given entity.
    pub fn despawn(&mut self, todespawn: EntityId)
        requires
            old(self).queue_wf(),
        ensures
            final(self).queue_wf(),
            final(self).next_id == old(self).next_id,
            final(self).actions_queue@ == old(self).actions_queue@.push(
                Command::Despawn { id: todespawn },
            ),
    {
        self.actions_queue.push(Command::Despawn { id: todespawn });
    }

    /// Drains the queue in submission order against the live storage.
    pub fn apply(
        &mut self,
        entity_manager: &mut EntityManager,
        components_manager: &mut ComponentManager,
    )
        requires
            old(self).queue_wf(),
            old(entity_manager).wf(),
            old(components_manager).wf(),
            forall|i: int|
                0 <= i < old(self).actions_queue@.len() ==> (match #[trigger] old(self).actions_queue@[i] {
                    Command::Spawn { id, bundle } => !old(entity_manager)@.contains_key(id.0),
                    Command::Despawn { id } => true,
                }),
            old(components_manager).last_used_id + queue_key_count(old(self).actions_queue@)
                <= usize::MAX,
        ensures
            final(self).actions_queue@ == Seq::<Command>::empty(),
            final(self).next_id == old(self).next_id,
            final(entity_manager).wf(),
            final(components_manager).wf(),
            ({
                let (m1, reg1, next1) = apply_fold(
                    old(entity_manager)@,
                    old(components_manager).components@,
                    old(components_manager).last_used_id as int,
                    old(self).actions_queue@,
                );
                &&& final(entity_manager)@ == m1
                &&& final(components_manager).components@ == reg1
                &&& final(components_manager).last_used_id as int == next1
            }),
    {
        let n = self.actions_queue.len();
        proof {
            assert(self.actions_queue@.skip(0) =~= self.actions_queue@);
        }
        let mut i: usize = 0;
        while i < n
            invariant
                n == self.actions_queue@.len(),
                i <= n,
                self.actions_queue == old(self).actions_queue,
                self.next_id == old(self).next_id,
                self.queue_wf(),
                entity_manager.wf(),
                components_manager.wf(),
                components_manager.last_used_id + queue_key_count(
                    self.actions_queue@.skip(i as int),
                ) <= usize::MAX,
                apply_fold(
                    old(entity_manager)@,
                    old(components_manager).components@,
                    old(components_manager).last_used_id as int,
                    self.actions_queue@,
                ) == apply_fold(
                    entity_manager@,
                    components_manager.components@,
                    components_manager.last_used_id as int,
                    self.actions_queue@.skip(i as int),
                ),
                forall|j: int|
                    i <= j < n ==> (match #[trigger] self.actions_queue@[j] {
                        Command::Spawn { id, bundle } => !entity_manager@.contains_key(id.0),
                        Command::Despawn { id } => true,
                    }),
            decreases n - i,
        {
            let ghost em0 = *entity_manager;
            proof {
                assert(self.actions_queue@.skip(i as int)[0] == self.actions_queue@[i as int]);
                assert(self.actions_queue@.skip(i as int).drop_first() == self.actions_queue@.skip(
                    i + 1,
                ));
                lemma_queue_key_count_nonneg(self.actions_queue@.skip(i + 1));
            }
            let cmd = &self.actions_queue[i];
            match cmd {
                Command::Spawn { id, bundle } => {
                    proof {
                        assert(!entity_manager.index@.contains_key(id.0));
                    }
                    entity_manager.spawn(*id, bundle, components_manager);
                    proof {
                        assert forall|j: int|
                            i + 1 <= j < n implies (match #[trigger] self.actions_queue@[j] {
                            Command::Spawn { id: id2, bundle: b2 } => !entity_manager@.contains_key(
                                id2.0,
                            ),
                            Command::Despawn { id: id2 } => true,
                        }) by {
                            match self.actions_queue@[j] {
                                Command::Spawn { id: id2, bundle: b2 } => {
                                    assert(id2.0 != id.0);
                                    assert(!em0@.contains_key(id2.0));
                                },
                                Command::Despawn { id: id2 } => {},
                            }
                        }
                    }
                },
                Command::Despawn { id } => {
                    let _ = entity_manager.despawn(id);
                },
            }
            i = i + 1;
        }
        proof {
            assert(self.actions_queue@.skip(n as int) =~= Seq::<Command>::empty());
        }
        self.actions_queue = Vec::new();
    }
}

/// The store, the registry, the registered systems and the command queue,
/// owned together.
pub struct World {
    /// The component-type registry.
    pub components_manager: ComponentManager,
    /// The archetype storage and entity index.
    pub entity_manager: EntityManager,
    /// The registered systems.
    pub systems_manager: SystemsManager,
    /// The deferred structural mutations.
    pub commands: Commands,
}

impl World {
    /// The pieces agree: registry and storage are well formed, the queue is
    /// well formed, every live entity's id lies below the id counter, and no
    /// queued spawn reuses a live id.
    pub open spec fn wf(self) -> bool {
        &&& self.components_manager.wf()
        &&& self.entity_manager.wf()
        &&& self.commands.queue_wf()
        &&& forall|e: usize|
            #[trigger] self.entity_manager@.contains_key(e) ==> e < self.commands.next_id
        &&& forall|i: int|
            0 <= i < self.commands.actions_queue@.len() ==> (
            match #[trigger] self.commands.actions_queue@[i] {
                Command::Spawn { id, bundle } => !self.entity_manager@.contains_key(id.0),
                Command::Despawn { id } => true,
            })
    }

    /// Creates an empty world.
    pub fn new() -> (r: Self)
        ensures
            r.wf(),
            r.entity_manager@ == Map::<usize, Map<usize, u64>>::empty(),
            r.components_manager.components@ == Map::<u64, ComponentId>::empty(),
            r.systems_manager.systems@ == Seq::<SystemDecl>::empty(),
            r.commands.actions_queue@ == Seq::<Command>::empty(),
            r.commands.next_id == 0,
    {
        World {
            components_manager: ComponentManager::new(),
            entity_manager: EntityManager::new(),
            systems_manager: SystemsManager::new(),
            commands: Commands::new(),
        }
    }

    /// Spawns an entity immediately: queues the spawn and applies the whole
    /// queue at once.
    pub fn spawn(&mut self, components: Vec<(u64, u64)>) -> (id: EntityId)
        requires
            old(self).wf(),
            distinct_keys(components@),
            old(self).commands.next_id < usize::MAX,
            old(self).components_manager.last_used_id + queue_key_count(
                old(self).commands.actions_queue@,
            ) + components@.len() <= usize::MAX,
        ensures
            final(self).wf(),
            id.0 == old(self).commands.next_id,
            final(self).commands.next_id == old(self).commands.next_id + 1,
            final(self).commands.actions_queue@ == Seq::<Command>::empty(),
            final(self).systems_manager == old(self).systems_manager,
            ({
                let q = old(self).commands.actions_queue@.push(
                    Command::Spawn { id, bundle: components },
                );
                let (m1, reg1, next1) = apply_fold(
                    old(self).entity_manager@,
                    old(self).components_manager.components@,
                    old(self).components_manager.last_used_id as int,
                    q,
                );
                &&& final(self).entity_manager@ == m1
                &&& final(self).components_manager.components@ == reg1
                &&& final(self).components_manager.last_used_id as int == next1
            }),
            old(self).commands.actions_queue@.len() == 0 ==> final(self).entity_manager@ == old(self).entity_manager@.insert(
                id.0,
                bundle_component_map(final(self).components_manager.components@, components@),
            ),
    {
        let ghost pre = *old(self);
        let id = self.commands.spawn(components);
        proof {
            let q = self.commands.actions_queue@;
            lemma_queue_key_count_nonneg(pre.commands.actions_queue@);
            assert(q.drop_last() =~= pre.commands.actions_queue@);
            lemma_queue_key_count_concat(pre.commands.actions_queue@, q.last());
            assert forall|i: int| 0 <= i < q.len() implies (match #[trigger] q[i] {
                Command::Spawn { id: id2, bundle } => !self.entity_manager@.contains_key(id2.0),
                Command::Despawn { id: id2 } => true,
            }) by {
                if i < q.len() - 1 {
                    assert(q[i] == pre.commands.actions_queue@[i]);
                }
            }
        }
        self.commands.apply(&mut self.entity_manager, &mut self.components_manager);
        proof {
            let q = pre.commands.actions_queue@.push(Command::Spawn { id, bundle: components });
            lemma_apply_fold_dom(
                pre.entity_manager@,
                pre.components_manager.components@,
                pre.components_manager.last_used_id as int,
                q,
            );
            assert forall|e: usize|
                #[trigger] self.entity_manager@.contains_key(e) implies e
                < self.commands.next_id by {
                if !pre.entity_manager@.contains_key(e) {
                    let i = choose|i: int|
                        0 <= i < q.len() && ((#[trigger] q[i]) matches Command::Spawn {
                            id: id2,
                            bundle: b2,
                        } && id2.0 == e);
                    if i < q.len() - 1 {
                        assert(q[i] == pre.commands.actions_queue@[i]);
                    }
                }
            }
            if pre.commands.actions_queue@.len() == 0 {
                assert(q.drop_first() =~= Seq::<Command>::empty());
                assert(q[0] == (Command::Spawn { id, bundle: components }));
                let (reg1, next1) = reg_after_keys(
                    pre.components_manager.components@,
                    pre.components_manager.last_used_id as int,
                    bundle_keys(components@),
                );
                let m1 = pre.entity_manager@.insert(
                    id.0,
                    bundle_component_map(reg1, components@),
                );
                assert(apply_fold(
                    pre.entity_manager@,
                    pre.components_manager.components@,
                    pre.components_manager.last_used_id as int,
                    q,
                ) == apply_fold(m1, reg1, next1, q.drop_first()));
                assert(apply_fold(m1, reg1, next1, q.drop_first()).0 == m1);
            }
        }
        id
    }

    /// Queues a spawn for the next flush and returns the entity's id at once.
    pub fn queue_spawn(&mut self, components: Vec<(u64, u64)>) -> (id: EntityId)
        requires
            old(self).wf(),
            distinct_keys(components@),
            old(self).commands.next_id < usize::MAX,
        ensures
            final(self).wf(),
            id.0 == old(self).commands.next_id,
            final(self).commands.next_id == old(self).commands.next_id + 1,
            final(self).commands.actions_queue@ == old(self).commands.actions_queue@.push(
                Command::Spawn { id, bundle: components },
            ),
            final(self).entity_manager == old(self).entity_manager,
            final(self).components_manager == old(self).components_manager,
            final(self).systems_manager == old(self).systems_manager,
    {
        let id = self.commands.spawn(components);
        id
    }

    /// Queues a despawn for the next flush.
    pub fn queue_despawn(&mut self, id: EntityId)
        requires
            old(self).wf(),
        ensures
            final(self).wf(),
            final(self).commands.next_id == old(self).commands.next_id,
            final(self).commands.actions_queue@ == old(self).commands.actions_queue@.push(
                Command::Despawn { id },
            ),
            final(self).entity_manager == old(self).entity_manager,
            final(self).components_manager == old(self).components_manager,
            final(self).systems_manager == old(self).systems_manager,
    {
        self.commands.despawn(id);
    }

    /// Applies every queued mutation, in submission order, and empties the
    /// queue.  This is the flush that ends a run cycle.
    pub fn apply_commands(&mut self)
        requires
            old(self).wf(),
            old(self).components_manager.last_used_id + queue_key_count(
                old(self).commands.actions_queue@,
            ) <= usize::MAX,
        ensures
            final(self).wf(),
            final(self).commands.actions_queue@ == Seq::<Command>::empty(),
            final(self).commands.next_id == old(self).commands.next_id,
            final(self).systems_manager == old(self).systems_manager,
            ({
                let (m1, reg1, next1) = apply_fold(
                    old(self).entity_manager@,
                    old(self).components_manager.components@,
                    old(self).components_manager.last_used_id as int,
                    old(self).commands.actions_queue@,
                );
                &&& final(self).entity_manager@ == m1
                &&& final(self).components_manager.components@ == reg1
                &&& final(self).components_manager.last_used_id as int == next1
            }),
    {
        let ghost pre = *old(self);
        self.commands.apply(&mut self.entity_manager, &mut self.components_manager);
        proof {
            lemma_apply_fold_dom(
                pre.entity_manager@,
                pre.components_manager.components@,
                pre.components_manager.last_used_id as int,
                pre.commands.actions_queue@,
            );
            assert forall|e: usize|
                #[trigger] self.entity_manager@.contains_key(e) implies e
                < self.commands.next_id by {
                if !pre.entity_manager@.contains_key(e) {
                    let i = choose|i: int|
                        0 <= i < pre.commands.actions_queue@.len() && ((
                        #[trigger] pre.commands.actions_queue@[i]) matches Command::Spawn {
                            id: id2,
                            bundle: b2,
                        } && id2.0 == e);
                }
            }
        }
    }

    /// Resolves a query against the live storage, registering the named keys.
    pub fn query(&mut self, required: &Vec<u64>, excluded: &Vec<u64>) -> (q: Query)
        requires
            old(self).wf(),
            distinct_u64s(required@),
            distinct_u64s(excluded@),
            keys_disjoint(required@, excluded@),
            old(self).components_manager.last_used_id + required@.len() + excluded@.len()
                <= usize::MAX,
        ensures
            final(self).wf(),
            final(self).entity_manager == old(self).entity_manager,
            final(self).systems_manager == old(self).systems_manager,
            final(self).commands == old(self).commands,
            crate::query::results_view(q.results@) == crate::query::query_rows(
                final(self).entity_manager.archetypes@,
                keys_id_seq(final(self).components_manager.components@, required@),
                keys_id_set(final(self).components_manager.components@, excluded@),
            ),
            q.info.query_bitmask@ == keys_id_set(
                final(self).components_manager.components@,
                required@,
            ),
            q.info.restrictions_bitmask@ == keys_id_set(
                final(self).components_manager.components@,
                excluded@,
            ),
            forall|k: u64|
                #[trigger] old(self).components_manager.components@.contains_key(k) ==> final(self).components_manager.components@.contains_key(k) && final(self).components_manager.components@[k] == old(self).components_manager.components@[k],
            forall|i: int|
                0 <= i < required@.len() ==> final(self).components_manager.components@.contains_key(#[trigger] required@[i]),
    {
        Query::init(required, excluded, &mut self.components_manager, &self.entity_manager)
    }

    /// Registers a system after the aliasing-safety check; a rejected system
    /// is returned with the first error of the check and never stored.
    pub fn add_system(&mut self, decl: SystemDecl) -> (r: Result<(), SystemParamError>)
        requires
            old(self).wf(),
            params_wf(decl.params@),
            old(self).components_manager.last_used_id + params_key_count(decl.params@)
                <= usize::MAX,
        ensures
            final(self).wf(),
            final(self).entity_manager == old(self).entity_manager,
            final(self).commands == old(self).commands,
            ({
                let (cons1, has1, reg1, next1, errop) = safety_fold(
                    Map::<usize, Set<usize>>::empty(),
                    false,
                    old(self).components_manager.components@,
                    old(self).components_manager.last_used_id as int,
                    decl.params@,
                );
                &&& final(self).components_manager.components@ == reg1
                &&& final(self).components_manager.last_used_id as int == next1
                &&& match errop {
                    Option::None => r == Ok::<(), SystemParamError>(()) && final(self).systems_manager.systems@ == old(self).systems_manager.systems@.push(decl),
                    Option::Some(e) => r == Err::<(), SystemParamError>(e) && final(self).systems_manager.systems == old(self).systems_manager.systems,
                }
            }),
    {
        self.systems_manager.add_system(decl, &mut self.components_manager)
    }

    /// Registers a system without the safety check: the caller takes
    /// responsibility for aliasing.
    pub fn add_system_unchecked(&mut self, decl: SystemDecl)
        requires
            old(self).wf(),
        ensures
            final(self).wf(),
            final(self).entity_manager == old(self).entity_manager,
            final(self).components_manager == old(self).components_manager,
            final(self).commands == old(self).commands,
            final(self).systems_manager.systems@ == old(self).systems_manager.systems@.push(decl),
    {
        self.systems_manager.add_system_unchecked(decl);
    }

    /// Reports whether the entity currently resolves to a row.
    pub fn entity_exists(&self, id: &EntityId) -> (r: bool)
        ensures
            r == self.entity_manager@.contains_key(id.0),
    {
        self.entity_manager.entity_exists(id)
    }

    /// Reports whether the component-type key has been registered.
    pub fn component_exists(&self, key: u64) -> (r: bool)
        ensures
            r == self.components_manager.components@.contains_key(key),
    {
        self.components_manager.component_exists(key)
    }

    /// Reads one component of one entity, naming the component by its key.
    pub fn get_component(&self, entity: &EntityId, key: u64) -> (r: Option<u64>)
        requires
            self.wf(),
        ensures
            r == ({
                let reg = self.components_manager.components@;
                let m = self.entity_manager@;
                if reg.contains_key(key) && m.contains_key(entity.0) && m[entity.0].contains_key(
                    reg[key],
                ) {
                    Some(m[entity.0][reg[key]])
                } else {
                    None::<u64>
                }
            }),
    {
        match self.components_manager.get_component_id(key) {
            None => None,
            Some(cid) => self.entity_manager.get_component(entity, cid),
        }
    }

    /// Overwrites one component of one entity in place, naming the component
    /// by its key.  Returns whether entity and component were found.
    pub fn set_component(&mut self, entity: &EntityId, key: u64, value: u64) -> (found: bool)
        requires
            old(self).wf(),
        ensures
            final(self).wf(),
            final(self).components_manager == old(self).components_manager,
            final(self).systems_manager == old(self).systems_manager,
            final(self).commands == old(self).commands,
            found == ({
                let reg = old(self).components_manager.components@;
                let m = old(self).entity_manager@;
                reg.contains_key(key) && m.contains_key(entity.0) && m[entity.0].contains_key(
                    reg[key],
                )
            }),
            found ==> final(self).entity_manager@ == old(self).entity_manager@.insert(
                entity.0,
                old(self).entity_manager@[entity.0].insert(
                    old(self).components_manager.components@[key],
                    value,
                ),
            ),
            !found ==> final(self).entity_manager == old(self).entity_manager,
    {
        match self.components_manager.get_component_id(key) {
            None => false,
            Some(cid) => self.entity_manager.set_component(entity, cid, value),
        }
    }
}

/// Pushing one command adds its key demand to the queue's.
proof fn lemma_queue_key_count_concat(q: Seq<Command>, c: Command)
    ensures
        queue_key_count(q.push(c)) == queue_key_count(q) + (match c {
            Command::Spawn { id, bundle } => bundle@.len() as int,
            Command::Despawn { id } => 0,
        }),
    decreases q.len(),
{
    if q.len() == 0 {
        assert(q.push(c)[0] == c);
        assert(q.push(c).drop_first() =~= Seq::<Command>::empty());
        assert(queue_key_count(Seq::<Command>::empty()) == 0);
        assert(queue_key_count(q) == 0);
        assert(queue_key_count(q.push(c)) == (match c {
            Command::Spawn { id, bundle } => bundle@.len() as int,
            Command::Despawn { id } => 0,
        }) + queue_key_count(q.push(c).drop_first()));
    } else {
        assert(q.push(c)[0] == q[0]);
        assert(q.push(c).drop_first() =~= q.drop_first().push(c));
        assert(q.push(c).drop_first() == q.drop_first().push(c));
        lemma_queue_key_count_concat(q.drop_first(), c);
        assert(queue_key_count(q.push(c)) == (match q[0] {
            Command::Spawn { id, bundle } => bundle@.len() as int,
            Command::Despawn { id } => 0,
        }) + queue_key_count(q.drop_first().push(c)));
        assert(queue_key_count(q) == (match q[0] {
            Command::Spawn { id, bundle } => bundle@.len() as int,
            Command::Despawn { id } => 0,
        }) + queue_key_count(q.drop_first()));
    }
}

} // verus!
