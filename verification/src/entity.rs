//! Archetype storage and entity bookkeeping.
//!
//! Entities sharing one exact component signature live in one archetype: an
//! ordered entity list plus one column per component id, index-aligned with
//! the list.  An index maps each live entity id to its archetype and row.
//! Rows are removed by swapping with the last row, so the index entry of the
//! displaced entity is rewritten — the invariant that makes despawn O(1).

use std::collections::HashMap;
use vstd::prelude::*;

use crate::bits::EntityBitmask;
use crate::column::Column;
use crate::component::{after_register, reg_after_keys, ComponentId, ComponentManager};

verus! {

broadcast use vstd::std_specs::hash::group_hash_axioms;

/// Identifier of one entity: unique for the lifetime of a world, monotonically
/// assigned, never reused after despawn.
#[derive(Debug, Clone, Copy, PartialEq, Eq, Hash, Structural)]
pub struct EntityId(pub usize);

impl EntityId {
    /// Wraps a raw id value.
    pub fn new(id: usize) -> (r: Self)
        ensures
            r.0 == id,
    {
        EntityId(id)
    }
}

/// Where an entity currently lives: which archetype, and which row inside it.
#[derive(Debug, Clone, Copy, PartialEq, Eq, Structural)]
pub struct EntityLocation {
    /// Position of the archetype in the store's archetype list.
    pub archetype: usize,
    /// Row inside that archetype.
    pub row: usize,
}

/// A sequence of component ids in strictly ascending order (hence without
/// duplicates): the canonical column order of an archetype.
pub open spec fn strictly_increasing(s: Seq<usize>) -> bool {
    forall|i: int, j: int| 0 <= i < j < s.len() ==> s[i] < s[j]
}

/// The component map described by parallel id and payload lists.
pub open spec fn bundle_map(ids: Seq<usize>, vals: Seq<u64>) -> Map<usize, u64> {
    Map::new(|c: usize| ids.contains(c), |c: usize| vals[ids.index_of(c)])
}

/// The keys of a bundle, in bundle order.
pub open spec fn bundle_keys(bundle: Seq<(u64, u64)>) -> Seq<u64> {
    Seq::new(bundle.len(), |i: int| bundle[i].0)
}

/// No component-type key appears twice in the bundle.
pub open spec fn distinct_keys(bundle: Seq<(u64, u64)>) -> bool {
    forall|i: int, j: int| 0 <= i < j < bundle.len() ==> bundle[i].0 != bundle[j].0
}

/// The component map described by a bundle of (type key, payload) pairs,
/// read through a registry: each registered key's id, bound to the payload
/// the bundle gives for that key.
pub open spec fn bundle_component_map(
    reg: Map<u64, ComponentId>,
    bundle: Seq<(u64, u64)>,
) -> Map<usize, u64> {
    Map::new(
        |c: usize|
            exists|i: int|
                0 <= i < bundle.len() && reg.contains_key((#[trigger] bundle[i]).0)
                    && reg[bundle[i].0] == c,
        |c: usize|
            {
                let i = choose|i: int|
                    0 <= i < bundle.len() && reg.contains_key((#[trigger] bundle[i]).0)
                        && reg[bundle[i].0] == c;
                bundle[i].1
            },
    )
}

/// In a strictly ascending sequence every value sits at exactly one index, so
/// `index_of` returns that index.
pub proof fn lemma_sorted_index_of(ids: Seq<usize>, k: int, c: usize)
    requires
        strictly_increasing(ids),
        0 <= k < ids.len(),
        ids[k] == c,
    ensures
        ids.index_of(c) == k,
        ids.contains(c),
{
    assert(ids.contains(c));
    let j = ids.index_of(c);
    assert(0 <= j < ids.len() && ids[j] == c);
    if j < k {
        assert(ids[j] < ids[k]);
    } else if k < j {
        assert(ids[k] < ids[j]);
    }
}

/// Two strictly ascending sequences holding the same set of ids are equal.
pub proof fn lemma_sorted_set_eq(s1: Seq<usize>, s2: Seq<usize>)
    requires
        strictly_increasing(s1),
        strictly_increasing(s2),
        s1.to_set() =~= s2.to_set(),
    ensures
        s1 =~= s2,
    decreases s1.len(),
{
    if s1.len() == 0 {
        if s2.len() > 0 {
            assert(s2.to_set().contains(s2[0]));
        }
    } else {
        assert(s1.to_set().contains(s1[0]));
        assert(s2.to_set().contains(s1[0]));
        assert(s2.len() > 0);
        // The head of each sequence is the minimum of the shared set.
        let i1 = choose|i: int| 0 <= i < s2.len() && s2[i] == s1[0];
        assert(s2[0] <= s2[i1]);
        assert(s2.to_set().contains(s2[0]));
        assert(s1.to_set().contains(s2[0]));
        let i2 = choose|i: int| 0 <= i < s1.len() && s1[i] == s2[0];
        assert(s1[0] <= s1[i2]);
        assert(s1[0] == s2[0]);
        assert(s1.drop_first().to_set() =~= s2.drop_first().to_set()) by {
            lemma_drop_first_set(s1);
            lemma_drop_first_set(s2);
        }
        assert(strictly_increasing(s1.drop_first())) by {
            assert(forall|i: int, j: int|
                0 <= i < j < s1.drop_first().len() ==> s1.drop_first()[i] == s1[i + 1]
                    && s1.drop_first()[j] == s1[j + 1]);
        }
        assert(strictly_increasing(s2.drop_first())) by {
            assert(forall|i: int, j: int|
                0 <= i < j < s2.drop_first().len() ==> s2.drop_first()[i] == s2[i + 1]
                    && s2.drop_first()[j] == s2[j + 1]);
        }
        lemma_sorted_set_eq(s1.drop_first(), s2.drop_first());
        assert(s1 =~= s2) by {
            assert(forall|i: int|
                1 <= i < s1.len() ==> s1[i] == s1.drop_first()[i - 1] && s2[i] == s2.drop_first()[i
                    - 1]);
        }
    }
}

/// Dropping the head of a strictly ascending sequence removes exactly the head
/// from its set of values.
proof fn lemma_drop_first_set(s: Seq<usize>)
    requires
        strictly_increasing(s),
        s.len() > 0,
    ensures
        s.drop_first().to_set() =~= s.to_set().remove(s[0]),
{
    let rest = s.drop_first();
    assert forall|c: usize| rest.to_set().contains(c) implies s.to_set().remove(s[0]).contains(
        c,
    ) by {
        let i = choose|i: int| 0 <= i < rest.len() && rest[i] == c;
        assert(s[i + 1] == c);
        assert(s[0] < s[i + 1]);
    }
    assert forall|c: usize| s.to_set().remove(s[0]).contains(c) implies rest.to_set().contains(
        c,
    ) by {
        let i = choose|i: int| 0 <= i < s.len() && s[i] == c;
        assert(i != 0);
        assert(rest[i - 1] == c);
    }
}

/// The view of a `Vec` never exceeds the machine's address range.
pub proof fn lemma_vec_len_bound<T>(v: &Vec<T>)
    ensures
        v@.len() <= usize::MAX,
{
    assert(vstd::std_specs::vec::spec_vec_len(v) == v@.len()) by {
        vstd::std_specs::vec::axiom_spec_len(v);
    }
}

/// One storage table: all entities sharing one exact signature, with one
/// payload column per component id, columns ordered by ascending id.
pub struct Archetype {
    /// The signature as a bit set, used for query matching.
    pub bitmask: EntityBitmask,
    /// The signature as a strictly ascending id list; `columns[j]` holds the
    /// payloads of component `component_ids[j]`.
    pub component_ids: Vec<ComponentId>,
    /// The rows: one entity per row, insertion order except for swap-removal.
    pub entities: Vec<EntityId>,
    /// One column per component id, each as long as the entity list.
    pub columns: Vec<Column>,
}

impl Archetype {
    /// The signature as a set of component ids.
    pub open spec fn sig(self) -> Set<usize> {
        self.component_ids@.to_set()
    }

    /// Every column is aligned with the entity list and the id list is the
    /// canonical (ascending) order matching the bit set.
    pub open spec fn wf(self) -> bool {
        &&& self.bitmask@ =~= self.sig()
        &&& strictly_increasing(self.component_ids@)
        &&& self.columns@.len() == self.component_ids@.len()
        &&& forall|j: int|
            0 <= j < self.columns@.len() ==> (#[trigger] self.columns@[j])@.len()
                == self.entities@.len()
    }

    /// The column position of component `c`.
    pub open spec fn col_of(self, c: usize) -> int {
        self.component_ids@.index_of(c)
    }

    /// The component map of row `r`: each id of the signature, bound to the
    /// payload stored for that row.
    pub open spec fn row_map(self, r: int) -> Map<usize, u64> {
        Map::new(
            |c: usize| self.sig().contains(c),
            |c: usize| self.columns@[self.col_of(c)]@[r],
        )
    }

    /// Finds the column position of component `c`, if the signature holds it.
    pub fn find_col(&self, c: ComponentId) -> (r: Option<usize>)
        requires
            self.wf(),
        ensures
            match r {
                Some(j) => j < self.component_ids@.len() && self.component_ids@[j as int] == c && j
                    == self.col_of(c) && self.sig().contains(c),
                None => !self.sig().contains(c),
            },
    {
        let n = self.component_ids.len();
        let mut j: usize = 0;
        while j < n
            invariant
                n == self.component_ids@.len(),
                j <= n,
                self.wf(),
                forall|i: int| 0 <= i < j ==> self.component_ids@[i] != c,
            decreases n - j,
        {
            if self.component_ids[j] == c {
                proof {
                    lemma_sorted_index_of(self.component_ids@, j as int, c);
                }
                return Some(j);
            }
            j = j + 1;
        }
        proof {
            if self.sig().contains(c) {
                let i = choose|i: int|
                    0 <= i < self.component_ids@.len() && self.component_ids@[i] == c;
                assert(self.component_ids@[i] != c);
            }
        }
        None
    }

    /// Appends one row: the entity and one payload per column, in column
    /// order.
    pub fn push_row(&mut self, id: EntityId, vals: &Vec<u64>)
        requires
            old(self).wf(),
            vals@.len() == old(self).component_ids@.len(),
        ensures
            final(self).wf(),
            final(self).component_ids == old(self).component_ids,
            final(self).bitmask == old(self).bitmask,
            final(self).entities@ == old(self).entities@.push(id),
            final(self).columns@.len() == old(self).columns@.len(),
            forall|j: int|
                0 <= j < old(self).columns@.len() ==> (#[trigger] final(self).columns@[j])@ == old(self).columns@[j]@.push(vals@[j]),
    {
        self.entities.push(id);
        let n = self.columns.len();
        let mut j: usize = 0;
        while j < n
            invariant
                n == self.columns@.len(),
                j <= n,
                n == old(self).columns@.len(),
                n == vals@.len(),
                self.component_ids == old(self).component_ids,
                self.bitmask == old(self).bitmask,
                self.entities@ == old(self).entities@.push(id),
                forall|i: int|
                    0 <= i < j ==> (#[trigger] self.columns@[i])@ == old(self).columns@[i]@.push(
                        vals@[i],
                    ),
                forall|i: int| j <= i < n ==> self.columns@[i] == old(self).columns@[i],
                forall|i: int|
                    0 <= i < n ==> (#[trigger] old(self).columns@[i])@.len() == old(self).entities@.len(),
            decreases n - j,
        {
            let v = vals[j];
            let col = &mut self.columns[j];
            col.push(v);
            j = j + 1;
        }
    }

    /// Removes one row by swapping the last row into its place on the entity
    /// list and on every column, then shrinking all of them by one.
    pub fn swap_remove_row(&mut self, row: usize)
        requires
            old(self).wf(),
            row < old(self).entities@.len(),
        ensures
            final(self).wf(),
            final(self).component_ids == old(self).component_ids,
            final(self).bitmask == old(self).bitmask,
            final(self).entities@ == old(self).entities@.update(
                row as int,
                old(self).entities@.last(),
            ).drop_last(),
            final(self).columns@.len() == old(self).columns@.len(),
            forall|j: int|
                0 <= j < old(self).columns@.len() ==> (#[trigger] final(self).columns@[j])@ == old(self).columns@[j]@.update(row as int, old(self).columns@[j]@.last()).drop_last(),
    {
        self.entities.swap_remove(row);
        let n = self.columns.len();
        let mut j: usize = 0;
        while j < n
            invariant
                n == self.columns@.len(),
                j <= n,
                n == old(self).columns@.len(),
                row < old(self).entities@.len(),
                self.component_ids == old(self).component_ids,
                self.bitmask == old(self).bitmask,
                self.entities@ == old(self).entities@.update(
                    row as int,
                    old(self).entities@.last(),
                ).drop_last(),
                forall|i: int|
                    0 <= i < j ==> (#[trigger] self.columns@[i])@ == old(self).columns@[i]@.update(
                        row as int,
                        old(self).columns@[i]@.last(),
                    ).drop_last(),
                forall|i: int| j <= i < n ==> self.columns@[i] == old(self).columns@[i],
                forall|i: int|
                    0 <= i < n ==> (#[trigger] old(self).columns@[i])@.len() == old(self).entities@.len(),
            decreases n - j,
        {
            let col = &mut self.columns[j];
            col.swap_remove(row);
            j = j + 1;
        }
    }
}

/// Compares two id lists element by element.
fn vec_ids_eq(x: &Vec<ComponentId>, y: &Vec<ComponentId>) -> (r: bool)
    ensures
        r == (x@ =~= y@),
{
    if x.len() != y.len() {
        return false;
    }
    let n = x.len();
    let mut i: usize = 0;
    while i < n
        invariant
            n == x@.len(),
            n == y@.len(),
            i <= n,
            forall|j: int| 0 <= j < i ==> x@[j] == y@[j],
        decreases n - i,
    {
        if x[i] != y[i] {
            return false;
        }
        i = i + 1;
    }
    true
}

/// Finds the payload paired with the first occurrence of an id.
fn lookup_value(rids: &Vec<ComponentId>, rvals: &Vec<u64>, c: ComponentId) -> (r: Option<u64>)
    requires
        rvals@.len() == rids@.len(),
    ensures
        match r {
            Some(v) => exists|i: int| 0 <= i < rids@.len() && rids@[i] == c && rvals@[i] == v,
            None => forall|i: int| 0 <= i < rids@.len() ==> rids@[i] != c,
        },
{
    let n = rids.len();
    let mut i: usize = 0;
    while i < n
        invariant
            n == rids@.len(),
            n == rvals@.len(),
            i <= n,
            forall|t: int| 0 <= t < i ==> rids@[t] != c,
        decreases n - i,
    {
        if rids[i] == c {
            return Some(rvals[i]);
        }
        i = i + 1;
    }
    None
}

/// Groups entities by signature and maps each live entity id to its archetype
/// and row.
///
/// Its mathematical content is a map from entity id to that entity's
/// component map (component id to payload).
pub struct EntityManager {
    /// The per-signature tables, in creation order.
    pub archetypes: Vec<Archetype>,
    /// Per live entity id: which archetype it lives in, and its row there.
    pub index: HashMap<usize, EntityLocation>,
}

impl View for EntityManager {
    type V = Map<usize, Map<usize, u64>>;

    open spec fn view(&self) -> Map<usize, Map<usize, u64>> {
        Map::new(
            |e: usize| self.index@.contains_key(e),
            |e: usize|
                self.archetypes@[self.index@[e].archetype as int].row_map(
                    self.index@[e].row as int,
                ),
        )
    }
}

impl EntityManager {
    /// Every archetype is well formed, no two archetypes share a signature,
    /// and the entity index and the archetype rows agree in both directions.
    pub open spec fn wf(self) -> bool {
        &&& forall|a: int| 0 <= a < self.archetypes@.len() ==> (#[trigger] self.archetypes@[a]).wf()
        &&& forall|a: int, b: int|
            0 <= a < b < self.archetypes@.len() ==> #[trigger] self.archetypes@[a].sig()
                != #[trigger] self.archetypes@[b].sig()
        &&& forall|e: usize|
            #[trigger] self.index@.contains_key(e) ==> {
                let l = self.index@[e];
                &&& (l.archetype as int) < self.archetypes@.len()
                &&& (l.row as int) < self.archetypes@[l.archetype as int].entities@.len()
                &&& self.archetypes@[l.archetype as int].entities@[l.row as int].0 == e
            }
        &&& forall|a: int, r: int|
            0 <= a < self.archetypes@.len() && 0 <= r < self.archetypes@[a].entities@.len() ==> {
                let e = (#[trigger] self.archetypes@[a].entities@[r]).0;
                &&& self.index@.contains_key(e)
                &&& self.index@[e] == (EntityLocation { archetype: a as usize, row: r as usize })
            }
    }

    /// Creates an empty store.
    pub fn new() -> (r: Self)
        ensures
            r.wf(),
            r@ == Map::<usize, Map<usize, u64>>::empty(),
            r.archetypes@.len() == 0,
    {
        let r = EntityManager { archetypes: Vec::new(), index: HashMap::new() };
        proof {
            assert(r@ =~= Map::<usize, Map<usize, u64>>::empty());
        }
        r
    }

    /// Reports whether the entity currently resolves to a row.
    pub fn entity_exists(&self, entity_id: &EntityId) -> (r: bool)
        ensures
            r == self@.contains_key(entity_id.0),
    {
        self.index.contains_key(&entity_id.0)
    }

    /// Finds the archetype whose canonical id list is exactly `ids`.
    fn find_archetype(&self, ids: &Vec<ComponentId>) -> (r: Option<usize>)
        ensures
            match r {
                Some(a) => (a as int) < self.archetypes@.len() && self.archetypes@[
                    a as int
                ].component_ids@ == ids@,
                None => forall|b: int|
                    0 <= b < self.archetypes@.len() ==> (
                    #[trigger] self.archetypes@[b]).component_ids@ != ids@,
            },
    {
        let n = self.archetypes.len();
        let mut a: usize = 0;
        while a < n
            invariant
                n == self.archetypes@.len(),
                a <= n,
                forall|b: int|
                    0 <= b < a ==> (#[trigger] self.archetypes@[b]).component_ids@ != ids@,
            decreases n - a,
        {
            if vec_ids_eq(&self.archetypes[a].component_ids, ids) {
                return Some(a);
            }
            a = a + 1;
        }
        None
    }

    /// Inserts one entity with the given canonical component list: looks the
    /// archetype up (creating it empty if the signature is new), appends the
    /// entity as the last row, and records its location in the index.
    pub fn add_entity(
        &mut self,
        id: EntityId,
        ids: Vec<ComponentId>,
        vals: Vec<u64>,
        bitmask: EntityBitmask,
    )
        requires
            old(self).wf(),
            strictly_increasing(ids@),
            vals@.len() == ids@.len(),
            bitmask@ =~= ids@.to_set(),
            !old(self).index@.contains_key(id.0),
        ensures
            final(self).wf(),
            final(self)@ == old(self)@.insert(id.0, bundle_map(ids@, vals@)),
            final(self).index@.contains_key(id.0),
            ({
                let l = final(self).index@[id.0];
                let a = l.archetype as int;
                &&& a < final(self).archetypes@.len()
                &&& final(self).archetypes@[a].component_ids@ == ids@
                &&& l.row as int == final(self).archetypes@[a].entities@.len() - 1
                &&& forall|b: int|
                    0 <= b < final(self).archetypes@.len() && b != a ==> b < old(self).archetypes@.len() && #[trigger] final(self).archetypes@[b] == old(self).archetypes@[b]
                &&& if a < old(self).archetypes@.len() {
                    &&& final(self).archetypes@.len() == old(self).archetypes@.len()
                    &&& final(self).archetypes@[a].entities@ == old(self).archetypes@[a].entities@.push(id)
                } else {
                    &&& a == old(self).archetypes@.len()
                    &&& final(self).archetypes@.len() == old(self).archetypes@.len() + 1
                    &&& final(self).archetypes@[a].entities@ =~= seq![id]
                }
            }),
    {
        let ghost pre = *old(self);
        match self.find_archetype(&ids) {
            Some(ai) => {
                let row = self.archetypes[ai].entities.len();
                let arch = &mut self.archetypes[ai];
                proof {
                    assert(pre.archetypes@[ai as int].wf());
                }
                arch.push_row(id, &vals);
                self.index.insert(id.0, EntityLocation { archetype: ai, row });
                proof {
                    self.lemma_add_entity_post(pre, id, ids@, vals@, ai, row);
                }
            },
            None => {
                let m = ids.len();
                let mut columns: Vec<Column> = Vec::new();
                let mut j: usize = 0;
                while j < m
                    invariant
                        j <= m,
                        columns@.len() == j,
                        forall|i: int| 0 <= i < j ==> (#[trigger] columns@[i])@.len() == 0,
                    decreases m - j,
                {
                    columns.push(Column::new());
                    j = j + 1;
                }
                let ghost ids_seq = ids@;
                let mut arch = Archetype {
                    bitmask,
                    component_ids: ids,
                    entities: Vec::new(),
                    columns,
                };
                assert(arch.wf());
                arch.push_row(id, &vals);
                let ai = self.archetypes.len();
                self.archetypes.push(arch);
                self.index.insert(id.0, EntityLocation { archetype: ai, row: 0 });
                proof {
                    assert forall|b: int| 0 <= b < pre.archetypes@.len() implies (
                    #[trigger] self.archetypes@[b]).sig() != self.archetypes@[
                        ai as int
                    ].sig() by {
                        if self.archetypes@[b].sig() == self.archetypes@[ai as int].sig() {
                            lemma_sorted_set_eq(
                                pre.archetypes@[b].component_ids@,
                                ids_seq,
                            );
                        }
                    }
                    self.lemma_add_entity_post(pre, id, ids_seq, vals@, ai, 0);
                }
            },
        }
    }

    /// The shared postcondition argument of `add_entity`: after appending one
    /// row for a fresh entity at `(ai, row)` and indexing it, the store is
    /// well formed and its content is the old content plus that entity.
    proof fn lemma_add_entity_post(
        self,
        pre: EntityManager,
        id: EntityId,
        ids: Seq<ComponentId>,
        vals: Seq<u64>,
        ai: usize,
        row: usize,
    )
        requires
            pre.wf(),
            strictly_increasing(ids),
            vals.len() == ids.len(),
            !pre.index@.contains_key(id.0),
            (ai as int) < self.archetypes@.len(),
            // the updated archetype
            self.archetypes@[ai as int].component_ids@ == ids,
            self.archetypes@[ai as int].wf(),
            row as int == self.archetypes@[ai as int].entities@.len() - 1,
            self.archetypes@[ai as int].entities@[row as int] == id,
            forall|j: int|
                0 <= j < ids.len() ==> (#[trigger] self.archetypes@[ai as int].columns@[j])@[
                    row as int
                ] == vals[j],
            // untouched archetypes, and row prefixes of the updated one
            forall|b: int|
                0 <= b < self.archetypes@.len() && b != ai as int ==> b < pre.archetypes@.len() && (
                #[trigger] self.archetypes@[b]) == pre.archetypes@[b],
            (ai as int) < pre.archetypes@.len() ==> self.archetypes@.len()
                == pre.archetypes@.len() && self.archetypes@[ai as int].entities@
                == pre.archetypes@[ai as int].entities@.push(id) && pre.archetypes@[
                ai as int
            ].component_ids@ == ids && forall|j: int, r: int|
                0 <= j < ids.len() && 0 <= r < row as int ==> (
                #[trigger] self.archetypes@[ai as int].columns@[j]@[r]) == pre.archetypes@[
                    ai as int
                ].columns@[j]@[r],
            ai as int == pre.archetypes@.len() ==> self.archetypes@.len() == pre.archetypes@.len()
                + 1 && row == 0,
            (ai as int) < pre.archetypes@.len() || ai as int == pre.archetypes@.len(),
            // signatures stay pairwise distinct
            forall|a: int, b: int|
                0 <= a < b < self.archetypes@.len() ==> #[trigger] self.archetypes@[a].sig()
                    != #[trigger] self.archetypes@[b].sig(),
            // the index
            self.index@ == pre.index@.insert(id.0, EntityLocation { archetype: ai, row }),
        ensures
            self.wf(),
            self@ == pre@.insert(id.0, bundle_map(ids, vals)),
    {
        let larch = self.archetypes@[ai as int];
        // both directions of the index invariant
        assert forall|e: usize| #[trigger] self.index@.contains_key(e) implies {
            let l = self.index@[e];
            &&& (l.archetype as int) < self.archetypes@.len()
            &&& (l.row as int) < self.archetypes@[l.archetype as int].entities@.len()
            &&& self.archetypes@[l.archetype as int].entities@[l.row as int].0 == e
        } by {
            if e != id.0 {
                assert(pre.index@.contains_key(e));
                let l = pre.index@[e];
                if l.archetype as int == ai as int {
                    assert(self.archetypes@[ai as int].entities@[l.row as int] == pre.archetypes@[
                        ai as int
                    ].entities@[l.row as int]);
                }
            }
        }
        assert forall|a: int, r: int|
            0 <= a < self.archetypes@.len() && 0 <= r
                < self.archetypes@[a].entities@.len() implies {
            let e = (#[trigger] self.archetypes@[a].entities@[r]).0;
            &&& self.index@.contains_key(e)
            &&& self.index@[e] == (EntityLocation { archetype: a as usize, row: r as usize })
        } by {
            let e = self.archetypes@[a].entities@[r].0;
            if a == ai as int && r == row as int {
                assert(e == id.0);
            } else if a == ai as int {
                assert(self.archetypes@[a].entities@[r] == pre.archetypes@[a].entities@[r]);
                assert(pre.index@.contains_key(e) && pre.index@[e] == (EntityLocation {
                    archetype: a as usize,
                    row: r as usize,
                }));
                assert(e != id.0);
            } else {
                assert(pre.index@.contains_key(e) && pre.index@[e] == (EntityLocation {
                    archetype: a as usize,
                    row: r as usize,
                }));
                assert(e != id.0);
            }
        }
        assert(self.wf());
        // the new row reads back as the bundle's component map
        assert(larch.row_map(row as int) =~= bundle_map(ids, vals)) by {
            assert forall|c: usize| larch.sig().contains(c) implies larch.row_map(row as int)[c]
                == bundle_map(ids, vals)[c] && bundle_map(ids, vals).dom().contains(c) by {
                assert(ids.contains(c));
                let k = ids.index_of(c);
                assert(0 <= k < ids.len() && ids[k] == c);
                lemma_sorted_index_of(ids, k, c);
                assert(larch.columns@[k]@[row as int] == vals[k]);
            }
            assert forall|c: usize|
                bundle_map(ids, vals).dom().contains(c) implies larch.sig().contains(c) by {}
        }
        // every other live entity reads back unchanged
        assert forall|e: usize| pre.index@.contains_key(e) implies self@[e] == pre@[e] by {
            assert(e != id.0);
            let l = pre.index@[e];
            if l.archetype as int == ai as int {
                assert((ai as int) < pre.archetypes@.len());
                assert(larch.row_map(l.row as int) =~= pre.archetypes@[ai as int].row_map(
                    l.row as int,
                )) by {
                    assert forall|c: usize| larch.sig().contains(c) implies larch.row_map(
                        l.row as int,
                    )[c] == pre.archetypes@[ai as int].row_map(l.row as int)[c] by {
                        assert(ids.contains(c));
                        let k = ids.index_of(c);
                        assert(0 <= k < ids.len() && ids[k] == c);
                        lemma_sorted_index_of(ids, k, c);
                        assert((l.row as int) < row as int);
                        assert(larch.columns@[k]@[l.row as int] == pre.archetypes@[
                            ai as int
                        ].columns@[k]@[l.row as int]);
                    }
                }
                assert(self@[e] == larch.row_map(l.row as int));
                assert(pre@[e] == pre.archetypes@[ai as int].row_map(l.row as int));
            }
        }
        assert(self@ =~= pre@.insert(id.0, bundle_map(ids, vals)));
    }

    /// Removes one entity: swap-removes its row, rewrites the index entry of
    /// the entity displaced from the last row (if any), and drops the
    /// despawned id from the index.  Returns whether the entity existed.
    pub fn despawn(&mut self, entity_id: &EntityId) -> (found: bool)
        requires
            old(self).wf(),
        ensures
            final(self).wf(),
            found == old(self)@.contains_key(entity_id.0),
            final(self)@ == old(self)@.remove(entity_id.0),
            !found ==> *final(self) == *old(self),
            found ==> ({
                let l = old(self).index@[entity_id.0];
                let a = l.archetype as int;
                let olda = old(self).archetypes@[a];
                &&& final(self).archetypes@.len() == old(self).archetypes@.len()
                &&& forall|b: int|
                    0 <= b < old(self).archetypes@.len() && b != a ==> #[trigger] final(self).archetypes@[b] == old(self).archetypes@[b]
                &&& final(self).archetypes@[a].component_ids == olda.component_ids
                &&& final(self).archetypes@[a].entities@ == olda.entities@.update(
                    l.row as int,
                    olda.entities@.last(),
                ).drop_last()
                &&& forall|j: int|
                    0 <= j < olda.columns@.len() ==> (#[trigger] final(self).archetypes@[a].columns@[j])@ == olda.columns@[j]@.update(
                        l.row as int,
                        olda.columns@[j]@.last(),
                    ).drop_last()
            }),
    {
        let eid = entity_id.0;
        let loc: EntityLocation = match self.index.get(&eid) {
            None => {
                proof {
                    assert(self@ =~= self@.remove(eid));
                }
                return false;
            },
            Some(l) => *l,
        };
        let ghost pre = *old(self);
        self.index.remove(&eid);
        let arch = &mut self.archetypes[loc.archetype];
        arch.swap_remove_row(loc.row);
        let new_len = arch.entities.len();
        let moved: Option<EntityId> = if loc.row < new_len {
            Some(arch.entities[loc.row])
        } else {
            None
        };
        match moved {
            Some(mid) => {
                proof {
                    // the displaced entity is a different one
                    assert(pre.archetypes@[loc.archetype as int].entities@[
                        pre.archetypes@[loc.archetype as int].entities@.len() - 1
                    ].0 == mid.0);
                    assert(mid.0 != eid);
                }
                self.index.insert(mid.0, EntityLocation { archetype: loc.archetype, row: loc.row });
            },
            None => {},
        }
        proof {
            self.lemma_despawn_post(pre, eid, loc);
        }
        true
    }

    /// The postcondition argument of `despawn`: after swap-removing the row
    /// of `eid` and patching the index, the store is well formed and its
    /// content is the old content without that entity.
    proof fn lemma_despawn_post(self, pre: EntityManager, eid: usize, loc: EntityLocation)
        requires
            pre.wf(),
            pre.index@.contains_key(eid),
            loc == pre.index@[eid],
            self.archetypes@.len() == pre.archetypes@.len(),
            forall|b: int|
                0 <= b < self.archetypes@.len() && b != loc.archetype as int ==> (
                #[trigger] self.archetypes@[b]) == pre.archetypes@[b],
            self.archetypes@[loc.archetype as int].wf(),
            self.archetypes@[loc.archetype as int].component_ids == pre.archetypes@[
                loc.archetype as int
            ].component_ids,
            self.archetypes@[loc.archetype as int].entities@ == pre.archetypes@[
                loc.archetype as int
            ].entities@.update(
                loc.row as int,
                pre.archetypes@[loc.archetype as int].entities@.last(),
            ).drop_last(),
            forall|j: int|
                0 <= j < pre.archetypes@[loc.archetype as int].columns@.len() ==> (
                #[trigger] self.archetypes@[loc.archetype as int].columns@[j])@ == pre.archetypes@[
                    loc.archetype as int
                ].columns@[j]@.update(
                    loc.row as int,
                    pre.archetypes@[loc.archetype as int].columns@[j]@.last(),
                ).drop_last(),
            ({
                let a = loc.archetype as int;
                let n = pre.archetypes@[a].entities@.len();
                if (loc.row as int) < n - 1 {
                    self.index@ == pre.index@.remove(eid).insert(
                        pre.archetypes@[a].entities@[n - 1].0,
                        loc,
                    )
                } else {
                    self.index@ == pre.index@.remove(eid)
                }
            }),
        ensures
            self.wf(),
            self@ == pre@.remove(eid),
    {
        let a = loc.archetype as int;
        let row = loc.row as int;
        let olda = pre.archetypes@[a];
        let newa = self.archetypes@[a];
        let n = olda.entities@.len();
        lemma_vec_len_bound(&pre.archetypes);
        lemma_vec_len_bound(&olda.entities);
        let mid = olda.entities@[n - 1].0;
        assert(olda.entities@[row].0 == eid);
        // the index keeps pointing at the right rows
        assert forall|e: usize| #[trigger] self.index@.contains_key(e) implies {
            let l = self.index@[e];
            &&& (l.archetype as int) < self.archetypes@.len()
            &&& (l.row as int) < self.archetypes@[l.archetype as int].entities@.len()
            &&& self.archetypes@[l.archetype as int].entities@[l.row as int].0 == e
        } by {
            if row < n - 1 && e == mid {
                assert(newa.entities@[row].0 == mid);
            } else {
                assert(pre.index@.contains_key(e) && e != eid);
                let l = pre.index@[e];
                assert(self.index@[e] == l);
                if l.archetype as int == a {
                    assert(l.row as int != row);
                    assert((l.row as int) < n - 1);
                    assert(newa.entities@[l.row as int] == olda.entities@[l.row as int]);
                }
            }
        }
        assert forall|b: int, r: int|
            0 <= b < self.archetypes@.len() && 0 <= r
                < self.archetypes@[b].entities@.len() implies {
            let e = (#[trigger] self.archetypes@[b].entities@[r]).0;
            &&& self.index@.contains_key(e)
            &&& self.index@[e] == (EntityLocation { archetype: b as usize, row: r as usize })
        } by {
            let e = self.archetypes@[b].entities@[r].0;
            if b == a {
                if r == row && row < n - 1 {
                    assert(e == mid);
                    assert(self.index@[e] == loc);
                } else {
                    assert(newa.entities@[r] == olda.entities@[r]);
                    assert(pre.index@[e] == (EntityLocation {
                        archetype: b as usize,
                        row: r as usize,
                    }));
                    assert(e != eid);
                    if row < n - 1 {
                        assert(e != mid) by {
                            if e == mid {
                                assert(pre.index@[mid] == (EntityLocation {
                                    archetype: a as usize,
                                    row: (n - 1) as usize,
                                }));
                            }
                        }
                    }
                }
            } else {
                assert(pre.index@[e] == (EntityLocation {
                    archetype: b as usize,
                    row: r as usize,
                }));
                assert(e != eid);
                if row < n - 1 {
                    assert(e != mid) by {
                        if e == mid {
                            assert(pre.index@[mid] == (EntityLocation {
                                archetype: a as usize,
                                row: (n - 1) as usize,
                            }));
                        }
                    }
                }
            }
        }
        assert(self.wf());
        // surviving entities read back unchanged
        assert forall|e: usize| self.index@.contains_key(e) implies self@[e] == pre@[e] by {
            let l = self.index@[e];
            if row < n - 1 && e == mid {
                assert(l == loc);
                assert(pre.index@[mid] == (EntityLocation {
                    archetype: a as usize,
                    row: (n - 1) as usize,
                }));
                assert(newa.row_map(row) =~= olda.row_map(n - 1)) by {
                    assert forall|c: usize| olda.sig().contains(c) implies newa.row_map(row)[c]
                        == olda.row_map(n - 1)[c] by {
                        assert(olda.component_ids@.contains(c));
                        let k = olda.component_ids@.index_of(c);
                        assert(0 <= k < olda.component_ids@.len() && olda.component_ids@[k] == c);
                        assert(newa.columns@[k]@[row] == olda.columns@[k]@[n - 1]);
                    }
                }
            } else {
                assert(pre.index@.contains_key(e) && self.index@[e] == pre.index@[e]);
                if l.archetype as int == a {
                    assert(l.row as int != row && (l.row as int) < n - 1);
                    assert(newa.row_map(l.row as int) =~= olda.row_map(l.row as int)) by {
                        assert forall|c: usize| olda.sig().contains(c) implies newa.row_map(
                            l.row as int,
                        )[c] == olda.row_map(l.row as int)[c] by {
                            assert(olda.component_ids@.contains(c));
                            let k = olda.component_ids@.index_of(c);
                            assert(0 <= k < olda.component_ids@.len() && olda.component_ids@[k]
                                == c);
                            assert(newa.columns@[k]@[l.row as int] == olda.columns@[k]@[
                                l.row as int
                            ]);
                        }
                    }
                }
            }
        }
        assert(self@ =~= pre@.remove(eid));
    }

    /// Reads one component payload of one entity, if both exist.
    pub fn get_component(&self, entity_id: &EntityId, component: ComponentId) -> (r: Option<u64>)
        requires
            self.wf(),
        ensures
            r == if self@.contains_key(entity_id.0) && self@[entity_id.0].contains_key(component) {
                Some(self@[entity_id.0][component])
            } else {
                None::<u64>
            },
    {
        match self.index.get(&entity_id.0) {
            None => None,
            Some(l) => {
                let loc = *l;
                let arch = &self.archetypes[loc.archetype];
                match arch.find_col(component) {
                    None => None,
                    Some(j) => {
                        let v = arch.columns[j].get(loc.row);
                        proof {
                            assert(self@[entity_id.0] == arch.row_map(loc.row as int));
                        }
                        Some(v)
                    },
                }
            },
        }
    }

    /// Overwrites one component payload of one entity in place.  Returns
    /// whether the entity exists and its signature holds the component.
    pub fn set_component(
        &mut self,
        entity_id: &EntityId,
        component: ComponentId,
        value: u64,
    ) -> (found: bool)
        requires
            old(self).wf(),
        ensures
            final(self).wf(),
            found == (old(self)@.contains_key(entity_id.0) && old(self)@[
                entity_id.0
            ].contains_key(component)),
            found ==> final(self)@ == old(self)@.insert(
                entity_id.0,
                old(self)@[entity_id.0].insert(component, value),
            ),
            !found ==> *final(self) == *old(self),
    {
        let loc: EntityLocation = match self.index.get(&entity_id.0) {
            None => {
                return false;
            },
            Some(l) => *l,
        };
        let ghost pre = *old(self);
        let j_opt = self.archetypes[loc.archetype].find_col(component);
        match j_opt {
            None => {
                proof {
                    assert(pre@[entity_id.0] == pre.archetypes@[loc.archetype as int].row_map(
                        loc.row as int,
                    ));
                }
                false
            },
            Some(j) => {
                let arch = &mut self.archetypes[loc.archetype];
                let col = &mut arch.columns[j];
                col.set(loc.row, value);
                proof {
                    self.lemma_set_component_post(pre, entity_id.0, component, value, loc, j);
                }
                true
            },
        }
    }

    /// The postcondition argument of `set_component`: overwriting one cell of
    /// one column rewrites exactly one component of one entity.
    proof fn lemma_set_component_post(
        self,
        pre: EntityManager,
        eid: usize,
        component: ComponentId,
        value: u64,
        loc: EntityLocation,
        j: usize,
    )
        requires
            pre.wf(),
            pre.index@.contains_key(eid),
            loc == pre.index@[eid],
            (j as int) < pre.archetypes@[loc.archetype as int].component_ids@.len(),
            pre.archetypes@[loc.archetype as int].component_ids@[j as int] == component,
            self.index@ == pre.index@,
            self.archetypes@.len() == pre.archetypes@.len(),
            forall|b: int|
                0 <= b < self.archetypes@.len() && b != loc.archetype as int ==> (
                #[trigger] self.archetypes@[b]) == pre.archetypes@[b],
            self.archetypes@[loc.archetype as int].component_ids == pre.archetypes@[
                loc.archetype as int
            ].component_ids,
            self.archetypes@[loc.archetype as int].bitmask == pre.archetypes@[
                loc.archetype as int
            ].bitmask,
            self.archetypes@[loc.archetype as int].entities == pre.archetypes@[
                loc.archetype as int
            ].entities,
            self.archetypes@[loc.archetype as int].columns@.len() == pre.archetypes@[
                loc.archetype as int
            ].columns@.len(),
            forall|t: int|
                0 <= t < pre.archetypes@[loc.archetype as int].columns@.len() && t != j as int ==> (
                #[trigger] self.archetypes@[loc.archetype as int].columns@[t]) == pre.archetypes@[
                    loc.archetype as int
                ].columns@[t],
            self.archetypes@[loc.archetype as int].columns@[j as int]@ == pre.archetypes@[
                loc.archetype as int
            ].columns@[j as int]@.update(loc.row as int, value),
        ensures
            self.wf(),
            self@ == pre@.insert(eid, pre@[eid].insert(component, value)),
    {
        let a = loc.archetype as int;
        let row = loc.row as int;
        let olda = pre.archetypes@[a];
        let newa = self.archetypes@[a];
        assert(olda.wf());
        assert(newa.wf());
        assert(self.wf());
        lemma_sorted_index_of(olda.component_ids@, j as int, component);
        // the touched entity reads back with exactly one component changed
        assert(newa.row_map(row) =~= olda.row_map(row).insert(component, value)) by {
            assert forall|c: usize| olda.sig().contains(c) && c != component implies newa.row_map(
                row,
            )[c] == olda.row_map(row)[c] by {
                assert(olda.component_ids@.contains(c));
                let k = olda.component_ids@.index_of(c);
                assert(0 <= k < olda.component_ids@.len() && olda.component_ids@[k] == c);
                assert(k != j as int);
                assert(newa.columns@[k]@[row] == olda.columns@[k]@[row]);
            }
            assert(newa.row_map(row)[component] == value);
        }
        // every other entity reads back unchanged
        assert forall|e: usize| self.index@.contains_key(e) && e != eid implies self@[e] == pre@[
            e
        ] by {
            let l = pre.index@[e];
            if l.archetype as int == a {
                lemma_vec_len_bound(&olda.entities);
                assert(l.row as int != row);
                assert(newa.row_map(l.row as int) =~= olda.row_map(l.row as int)) by {
                    assert forall|c: usize| olda.sig().contains(c) implies newa.row_map(
                        l.row as int,
                    )[c] == olda.row_map(l.row as int)[c] by {
                        assert(olda.component_ids@.contains(c));
                        let k = olda.component_ids@.index_of(c);
                        assert(0 <= k < olda.component_ids@.len() && olda.component_ids@[k] == c);
                        assert(newa.columns@[k]@[l.row as int] == olda.columns@[k]@[l.row as int]);
                    }
                }
            }
        }
        assert(self@ =~= pre@.insert(eid, pre@[eid].insert(component, value)));
    }

    /// Spawns one entity: registers every component-type key of the bundle,
    /// computes the canonical (ascending-id) column order, and inserts the
    /// row.  The store gains exactly this entity, carrying the bundle's
    /// component map read through the final registry.
    pub fn spawn(
        &mut self,
        new_entity_id: EntityId,
        components: &Vec<(u64, u64)>,
        components_manager: &mut ComponentManager,
    )
        requires
            old(self).wf(),
            old(components_manager).wf(),
            distinct_keys(components@),
            !old(self).index@.contains_key(new_entity_id.0),
            old(components_manager).last_used_id + components@.len() <= usize::MAX,
        ensures
            final(self).wf(),
            final(components_manager).wf(),
            forall|k: u64|
                old(components_manager).components@.contains_key(k) ==> final(components_manager).components@.contains_key(k) && final(components_manager).components@[k] == old(components_manager).components@[k],
            forall|i: int|
                0 <= i < components@.len() ==> final(components_manager).components@.contains_key(
                    (#[trigger] components@[i]).0,
                ),
            forall|k: u64|
                #[trigger] final(components_manager).components@.contains_key(k) ==> old(components_manager).components@.contains_key(k) || exists|i: int|
                    0 <= i < components@.len() && (#[trigger] components@[i]).0 == k,
            old(components_manager).last_used_id <= final(components_manager).last_used_id <= old(components_manager).last_used_id + components@.len(),
            (final(components_manager).components@, final(components_manager).last_used_id as int) == reg_after_keys(
                old(components_manager).components@,
                old(components_manager).last_used_id as int,
                bundle_keys(components@),
            ),
            final(self)@ == old(self)@.insert(
                new_entity_id.0,
                bundle_component_map(final(components_manager).components@, components@),
            ),
    {
        let ghost pre_cm = *old(components_manager);
        let n = components.len();
        let mut rids: Vec<ComponentId> = Vec::new();
        let mut rvals: Vec<u64> = Vec::new();
        proof {
            assert(bundle_keys(components@).skip(0) =~= bundle_keys(components@));
        }
        let mut i: usize = 0;
        while i < n
            invariant
                n == components@.len(),
                i <= n,
                components_manager.wf(),
                rids@.len() == i,
                rvals@.len() == i,
                distinct_keys(components@),
                forall|k: u64|
                    #[trigger] pre_cm.components@.contains_key(k)
                        ==> components_manager.components@.contains_key(k)
                        && components_manager.components@[k] == pre_cm.components@[k],
                forall|k: u64|
                    #[trigger] components_manager.components@.contains_key(k)
                        ==> pre_cm.components@.contains_key(k) || exists|j: int|
                        0 <= j < i && (#[trigger] components@[j]).0 == k,
                pre_cm.last_used_id <= components_manager.last_used_id <= pre_cm.last_used_id + i,
                pre_cm.last_used_id + n <= usize::MAX,
                reg_after_keys(
                    pre_cm.components@,
                    pre_cm.last_used_id as int,
                    bundle_keys(components@),
                ) == reg_after_keys(
                    components_manager.components@,
                    components_manager.last_used_id as int,
                    bundle_keys(components@).skip(i as int),
                ),
                forall|j: int|
                    0 <= j < i ==> components_manager.components@.contains_key(
                        (#[trigger] components@[j]).0,
                    ) && components_manager.components@[components@[j].0] == rids@[j] && rvals@[j]
                        == components@[j].1,
            decreases n - i,
        {
            let key = components[i].0;
            let value = components[i].1;
            let ghost cm0 = *components_manager;
            let cid = components_manager.register_component_if_not_exists(key);
            proof {
                assert(components_manager.components@ == after_register(
                    cm0.components@,
                    cm0.last_used_id as int,
                    key,
                ).0);
                assert forall|k: u64|
                    pre_cm.components@.contains_key(k) implies components_manager.components@.contains_key(
                    k,
                ) && components_manager.components@[k] == pre_cm.components@[k] by {
                    assert(cm0.components@.contains_key(k) && cm0.components@[k]
                        == pre_cm.components@[k]);
                }
                assert(bundle_keys(components@).skip(i as int).drop_first() =~= bundle_keys(
                    components@,
                ).skip(i + 1));
                assert(bundle_keys(components@).skip(i as int)[0] == components@[i as int].0);
            }
            rids.push(cid);
            rvals.push(value);
            i = i + 1;
        }
        proof {
            assert(bundle_keys(components@).skip(n as int) =~= Seq::<u64>::empty());
        }
        let mut bitmask = EntityBitmask::new();
        let mut t: usize = 0;
        while t < n
            invariant
                n == rids@.len(),
                t <= n,
                forall|c: usize|
                    #[trigger] bitmask@.contains(c) <==> exists|j: int|
                        0 <= j < t && rids@[j] == c,
            decreases n - t,
        {
            let ghost bm0 = bitmask@;
            let c_t = rids[t];
            bitmask.insert(c_t);
            proof {
                assert forall|c: usize| #[trigger] bitmask@.contains(c) implies exists|j: int|
                    0 <= j <= t && rids@[j] == c by {
                    if c == c_t {
                        assert(0 <= t as int <= t as int && rids@[t as int] == c);
                    } else {
                        assert(bm0.contains(c));
                        let j = choose|j: int| 0 <= j < t && rids@[j] == c;
                        assert(0 <= j <= t && rids@[j] == c);
                    }
                }
                assert forall|c: usize| (exists|j: int| 0 <= j <= t && rids@[j] == c) implies
                    #[trigger] bitmask@.contains(c) by {
                    let j = choose|j: int| 0 <= j <= t && rids@[j] == c;
                    if j < t {
                        assert(bm0.contains(c));
                    }
                }
            }
            t = t + 1;
        }
        let sorted_ids = bitmask.elements();
        proof {
            assert(bitmask@ =~= sorted_ids@.to_set()) by {
                assert forall|c: usize| sorted_ids@.to_set().contains(c) implies bitmask@.contains(
                    c,
                ) by {
                    let k = choose|k: int| 0 <= k < sorted_ids@.len() && sorted_ids@[k] == c;
                    assert(bitmask@.contains(sorted_ids@[k]));
                }
            }
        }
        let m = sorted_ids.len();
        let mut vals: Vec<u64> = Vec::new();
        let mut j: usize = 0;
        while j < m
            invariant
                m == sorted_ids@.len(),
                j <= m,
                vals@.len() == j,
                n == rids@.len(),
                n == rvals@.len(),
                forall|c: usize|
                    #[trigger] bitmask@.contains(c) <==> exists|q: int|
                        0 <= q < n && rids@[q] == c,
                forall|q: int| 0 <= q < m ==> bitmask@.contains(#[trigger] sorted_ids@[q]),
                forall|t2: int|
                    0 <= t2 < j ==> exists|q: int|
                        0 <= q < n && rids@[q] == #[trigger] sorted_ids@[t2] && vals@[t2]
                            == rvals@[q],
            decreases m - j,
        {
            let c = sorted_ids[j];
            let v = match lookup_value(&rids, &rvals, c) {
                Some(v) => v,
                None => {
                    proof {
                        assert(bitmask@.contains(c));
                        let q = choose|q: int| 0 <= q < n && rids@[q] == c;
                        assert(rids@[q] != c);
                        assert(false);
                    }
                    0
                },
            };
            vals.push(v);
            proof {
                let q = choose|q: int| 0 <= q < rids@.len() && rids@[q] == c && rvals@[q] == v;
                assert(0 <= q < n && rids@[q] == sorted_ids@[j as int] && vals@[j as int]
                    == rvals@[q]);
            }
            j = j + 1;
        }
        let ghost pre_self = *self;
        self.add_entity(new_entity_id, sorted_ids, vals, bitmask);
        proof {
            let reg = components_manager.components@;
            let sids = sorted_ids@;
            // the canonical row reads back as the bundle's component map
            assert(bundle_map(sids, vals@) =~= bundle_component_map(reg, components@)) by {
                assert forall|c: usize| #[trigger] sids.contains(c) implies bundle_component_map(
                    reg,
                    components@,
                ).dom().contains(c) && bundle_map(sids, vals@)[c] == bundle_component_map(
                    reg,
                    components@,
                )[c] by {
                    let t2 = sids.index_of(c);
                    assert(0 <= t2 < sids.len() && sids[t2] == c);
                    assert(bitmask@.contains(c));
                    let q = choose|q: int| 0 <= q < n && rids@[q] == sids[t2] && vals@[t2]
                        == rvals@[q];
                    assert(reg.contains_key(components@[q].0) && reg[components@[q].0] == c);
                    let i2 = choose|i2: int|
                        0 <= i2 < components@.len() && reg.contains_key((#[trigger] components@[
                            i2
                        ]).0) && reg[components@[i2].0] == c;
                    // the registry is injective and keys are distinct, so both
                    // witnesses are the same bundle position
                    assert(i2 == q) by {
                        if i2 != q {
                            assert(components@[i2].0 != components@[q].0);
                            assert(reg[components@[i2].0] != reg[components@[q].0]);
                        }
                    }
                    assert(bundle_map(sids, vals@)[c] == rvals@[q]);
                }
                assert forall|c: usize|
                    bundle_component_map(reg, components@).dom().contains(c) implies #[trigger] sids.contains(
                    c,
                ) by {
                    let i2 = choose|i2: int|
                        0 <= i2 < components@.len() && reg.contains_key((#[trigger] components@[
                            i2
                        ]).0) && reg[components@[i2].0] == c;
                    assert(rids@[i2] == c);
                    assert(bitmask@.contains(c));
                }
            }
            assert(self@ =~= pre_self@.insert(
                new_entity_id.0,
                bundle_component_map(reg, components@),
            ));
        }
    }
}

} // verus!
