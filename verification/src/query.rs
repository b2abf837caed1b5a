//! Query resolution: enumerate the archetypes whose signature covers the
//! required set and avoids the excluded set, and produce one result per
//! matching row, in archetype order and row order.

use vstd::prelude::*;

use crate::bits::EntityBitmask;
use crate::component::{ComponentId, ComponentManager};
use crate::entity::{Archetype, EntityId, EntityLocation, EntityManager};

verus! {

/// No key appears twice in the list.
pub open spec fn distinct_u64s(s: Seq<u64>) -> bool {
    forall|i: int, j: int| 0 <= i < j < s.len() ==> s[i] != s[j]
}

/// The two key lists share no key.
pub open spec fn keys_disjoint(a: Seq<u64>, b: Seq<u64>) -> bool {
    forall|i: int, j: int| 0 <= i < a.len() && 0 <= j < b.len() ==> a[i] != b[j]
}

/// The ids that a registry assigns to a list of keys, as a set.
pub open spec fn keys_id_set(reg: Map<u64, ComponentId>, keys: Seq<u64>) -> Set<usize> {
    Set::new(
        |c: usize|
            exists|i: int|
                0 <= i < keys.len() && reg.contains_key(#[trigger] keys[i]) && reg[keys[i]] == c,
    )
}

/// The ids that a registry assigns to a list of keys, in list order.
pub open spec fn keys_id_seq(reg: Map<u64, ComponentId>, keys: Seq<u64>) -> Seq<usize> {
    Seq::new(keys.len(), |i: int| reg[keys[i]])
}

/// Whether an archetype's signature is a superset of the required ids and
/// disjoint from the excluded ids.
pub open spec fn arch_matches(a: Archetype, req: Set<usize>, excl: Set<usize>) -> bool {
    req.subset_of(a.sig()) && excl.disjoint(a.sig())
}

/// The payloads of row `r`, one per required id, in required order.
pub open spec fn row_components(a: Archetype, req_ids: Seq<usize>, r: int) -> Seq<u64> {
    Seq::new(req_ids.len(), |j: int| a.columns@[a.col_of(req_ids[j])]@[r])
}

/// All results one archetype contributes: every row in row order if it
/// matches, nothing otherwise.
pub open spec fn arch_results(a: Archetype, req_ids: Seq<usize>, excl: Set<usize>) -> Seq<
    (EntityId, Seq<u64>),
> {
    if arch_matches(a, req_ids.to_set(), excl) {
        Seq::new(a.entities@.len(), |r: int| (a.entities@[r], row_components(a, req_ids, r)))
    } else {
        Seq::empty()
    }
}

/// All results of a query: the matching archetypes' rows, in archetype order.
pub open spec fn query_rows(archs: Seq<Archetype>, req_ids: Seq<usize>, excl: Set<usize>) -> Seq<
    (EntityId, Seq<u64>),
>
    decreases archs.len(),
{
    if archs.len() == 0 {
        Seq::empty()
    } else {
        query_rows(archs.drop_last(), req_ids, excl) + arch_results(archs.last(), req_ids, excl)
    }
}

/// Unfolds `query_rows` one archetype at a time over a growing prefix.
proof fn lemma_query_rows_take(archs: Seq<Archetype>, k: int, req_ids: Seq<usize>, excl: Set<usize>)
    requires
        0 <= k < archs.len(),
    ensures
        query_rows(archs.take(k + 1), req_ids, excl) == query_rows(archs.take(k), req_ids, excl)
            + arch_results(archs[k], req_ids, excl),
{
    let t = archs.take(k + 1);
    assert(t.drop_last() =~= archs.take(k));
    assert(t.last() == archs[k]);
}

/// The required and excluded signature of one query.
pub struct QueryInfo {
    /// Ids every matching entity must have.
    pub query_bitmask: EntityBitmask,
    /// Ids no matching entity may have.
    pub restrictions_bitmask: EntityBitmask,
}

impl QueryInfo {
    /// Pairs the two signatures up.
    pub fn new(query_bitmask: EntityBitmask, restrictions_bitmask: EntityBitmask) -> (r: Self)
        ensures
            r.query_bitmask == query_bitmask,
            r.restrictions_bitmask == restrictions_bitmask,
    {
        QueryInfo { query_bitmask, restrictions_bitmask }
    }

    /// Builds the two signatures from key lists, registering every key on
    /// first sight.
    pub fn from_query(
        required: &Vec<u64>,
        excluded: &Vec<u64>,
        components_manager: &mut ComponentManager,
    ) -> (r: Self)
        requires
            old(components_manager).wf(),
            distinct_u64s(required@),
            distinct_u64s(excluded@),
            keys_disjoint(required@, excluded@),
            old(components_manager).last_used_id + required@.len() + excluded@.len()
                <= usize::MAX,
        ensures
            final(components_manager).wf(),
            forall|k: u64|
                #[trigger] old(components_manager).components@.contains_key(k) ==> final(components_manager).components@.contains_key(k) && final(components_manager).components@[k] == old(components_manager).components@[k],
            forall|i: int|
                0 <= i < required@.len() ==> final(components_manager).components@.contains_key(
                    #[trigger] required@[i],
                ),
            forall|i: int|
                0 <= i < excluded@.len() ==> final(components_manager).components@.contains_key(
                    #[trigger] excluded@[i],
                ),
            forall|k: u64|
                #[trigger] final(components_manager).components@.contains_key(k) ==> old(components_manager).components@.contains_key(k) || required@.contains(k) || excluded@.contains(k),
            old(components_manager).last_used_id <= final(components_manager).last_used_id <= old(components_manager).last_used_id + required@.len() + excluded@.len(),
            ({
                let (m1, n1) = crate::component::reg_after_keys(
                    old(components_manager).components@,
                    old(components_manager).last_used_id as int,
                    required@,
                );
                (final(components_manager).components@, final(components_manager).last_used_id as int) == crate::component::reg_after_keys(m1, n1, excluded@)
            }),
            r.query_bitmask@ == keys_id_set(final(components_manager).components@, required@),
            r.restrictions_bitmask@ == keys_id_set(
                final(components_manager).components@,
                excluded@,
            ),
            r.query_bitmask@.disjoint(r.restrictions_bitmask@),
    {
        let ghost pre_cm = *components_manager;
        let query_bitmask = register_keys_into_mask(required, components_manager);
        let ghost mid_cm = *components_manager;
        let restrictions_bitmask = register_keys_into_mask(excluded, components_manager);
        proof {
            let reg = components_manager.components@;
            // the required keys kept their ids through the second pass
            assert(query_bitmask@ =~= keys_id_set(reg, required@)) by {
                assert forall|c: usize|
                    keys_id_set(mid_cm.components@, required@).contains(c) implies keys_id_set(
                    reg,
                    required@,
                ).contains(c) by {
                    let i = choose|i: int|
                        0 <= i < required@.len() && mid_cm.components@.contains_key(
                            #[trigger] required@[i],
                        ) && mid_cm.components@[required@[i]] == c;
                    assert(reg.contains_key(required@[i]) && reg[required@[i]] == c);
                }
                assert forall|c: usize| keys_id_set(reg, required@).contains(c) implies keys_id_set(
                    mid_cm.components@,
                    required@,
                ).contains(c) by {
                    let i = choose|i: int|
                        0 <= i < required@.len() && reg.contains_key(#[trigger] required@[i])
                            && reg[required@[i]] == c;
                    assert(mid_cm.components@.contains_key(required@[i])
                        && mid_cm.components@[required@[i]] == c);
                }
            }
            // disjoint key lists get disjoint id sets, the registry being injective
            assert forall|c: usize|
                keys_id_set(reg, required@).contains(c) implies !keys_id_set(
                reg,
                excluded@,
            ).contains(c) by {
                let i = choose|i: int|
                    0 <= i < required@.len() && reg.contains_key(#[trigger] required@[i])
                        && reg[required@[i]] == c;
                if keys_id_set(reg, excluded@).contains(c) {
                    let j = choose|j: int|
                        0 <= j < excluded@.len() && reg.contains_key(#[trigger] excluded@[j])
                            && reg[excluded@[j]] == c;
                    assert(required@[i] != excluded@[j]);
                }
            }
        }
        QueryInfo::new(query_bitmask, restrictions_bitmask)
    }
}

/// Registers every key of the list and collects the assigned ids into a
/// signature.
fn register_keys_into_mask(keys: &Vec<u64>, components_manager: &mut ComponentManager) -> (bm:
    EntityBitmask)
    requires
        old(components_manager).wf(),
        old(components_manager).last_used_id + keys@.len() <= usize::MAX,
    ensures
        final(components_manager).wf(),
        forall|k: u64|
            #[trigger] old(components_manager).components@.contains_key(k) ==> final(components_manager).components@.contains_key(k) && final(components_manager).components@[k] == old(components_manager).components@[k],
        forall|i: int|
            0 <= i < keys@.len() ==> final(components_manager).components@.contains_key(
                #[trigger] keys@[i],
            ),
        forall|k: u64|
            #[trigger] final(components_manager).components@.contains_key(k) ==> old(components_manager).components@.contains_key(k) || keys@.contains(k),
        old(components_manager).last_used_id <= final(components_manager).last_used_id <= old(components_manager).last_used_id + keys@.len(),
        (final(components_manager).components@, final(components_manager).last_used_id as int)
            == crate::component::reg_after_keys(
            old(components_manager).components@,
            old(components_manager).last_used_id as int,
            keys@,
        ),
        bm@ == keys_id_set(final(components_manager).components@, keys@),
{
    let ghost pre_cm = *components_manager;
    let n = keys.len();
    let mut bm = EntityBitmask::new();
    proof {
        assert(keys@.skip(0) =~= keys@);
    }
    let mut i: usize = 0;
    while i < n
        invariant
            n == keys@.len(),
            i <= n,
            components_manager.wf(),
            forall|k: u64|
                #[trigger] pre_cm.components@.contains_key(k)
                    ==> components_manager.components@.contains_key(k)
                    && components_manager.components@[k] == pre_cm.components@[k],
            forall|j: int|
                0 <= j < i ==> components_manager.components@.contains_key(#[trigger] keys@[j]),
            forall|k: u64|
                #[trigger] components_manager.components@.contains_key(k)
                    ==> pre_cm.components@.contains_key(k) || keys@.contains(k),
            pre_cm.last_used_id <= components_manager.last_used_id <= pre_cm.last_used_id + i,
            pre_cm.last_used_id + n <= usize::MAX,
            crate::component::reg_after_keys(
                pre_cm.components@,
                pre_cm.last_used_id as int,
                keys@,
            ) == crate::component::reg_after_keys(
                components_manager.components@,
                components_manager.last_used_id as int,
                keys@.skip(i as int),
            ),
            forall|c: usize|
                #[trigger] bm@.contains(c) <==> exists|j: int|
                    0 <= j < i && components_manager.components@.contains_key(#[trigger] keys@[j])
                        && components_manager.components@[keys@[j]] == c,
        decreases n - i,
    {
        let key = keys[i];
        let ghost cm0 = *components_manager;
        let ghost bm0 = bm@;
        let cid = components_manager.register_component_if_not_exists(key);
        bm.insert(cid);
        proof {
            assert(components_manager.components@ == crate::component::after_register(
                cm0.components@,
                cm0.last_used_id as int,
                key,
            ).0);
            assert(keys@.skip(i as int).drop_first() =~= keys@.skip(i + 1));
            assert(keys@.skip(i as int)[0] == keys@[i as int]);
            assert forall|k: u64|
                #[trigger] pre_cm.components@.contains_key(k) implies components_manager.components@.contains_key(
                k,
            ) && components_manager.components@[k] == pre_cm.components@[k] by {
                assert(cm0.components@.contains_key(k) && cm0.components@[k]
                    == pre_cm.components@[k]);
            }
            assert forall|c: usize| #[trigger] bm@.contains(c) implies exists|j: int|
                0 <= j <= i && components_manager.components@.contains_key(#[trigger] keys@[j])
                    && components_manager.components@[keys@[j]] == c by {
                if c == cid {
                    assert(components_manager.components@.contains_key(keys@[i as int])
                        && components_manager.components@[keys@[i as int]] == c);
                } else {
                    assert(bm0.contains(c));
                    let j = choose|j: int|
                        0 <= j < i && cm0.components@.contains_key(#[trigger] keys@[j])
                            && cm0.components@[keys@[j]] == c;
                    assert(components_manager.components@.contains_key(keys@[j])
                        && components_manager.components@[keys@[j]] == c);
                }
            }
            assert forall|c: usize|
                (exists|j: int|
                    0 <= j <= i && components_manager.components@.contains_key(#[trigger] keys@[j])
                        && components_manager.components@[keys@[j]] == c) implies #[trigger] bm@.contains(
                c,
            ) by {
                let j = choose|j: int|
                    0 <= j <= i && components_manager.components@.contains_key(#[trigger] keys@[j])
                        && components_manager.components@[keys@[j]] == c;
                if j < i {
                    assert(cm0.components@.contains_key(keys@[j]) && cm0.components@[keys@[j]]
                        == c);
                    assert(bm0.contains(c));
                }
            }
        }
        i = i + 1;
    }
    proof {
        assert(keys@.skip(n as int) =~= Seq::<u64>::empty());
        assert(bm@ =~= keys_id_set(components_manager.components@, keys@));
    }
    bm
}

/// One query result: an entity and one payload per required component, in
/// required order.
#[derive(Debug)]
pub struct QueryResult {
    /// The matched entity.
    pub entity: EntityId,
    /// The payloads of the required components, in the query's order.
    pub components: Vec<u64>,
}

impl View for QueryResult {
    type V = (EntityId, Seq<u64>);

    open spec fn view(&self) -> (EntityId, Seq<u64>) {
        (self.entity, self.components@)
    }
}

impl core::convert::From<(EntityId, Vec<u64>)> for QueryResult {
    /// Pairs an entity with its component payloads.
    fn from(value: (EntityId, Vec<u64>)) -> (r: Self) {
        QueryResult { entity: value.0, components: value.1 }
    }
}

impl vstd::std_specs::convert::FromSpecImpl<(EntityId, Vec<u64>)> for QueryResult {
    open spec fn obeys_from_spec() -> bool {
        true
    }

    open spec fn from_spec(v: (EntityId, Vec<u64>)) -> QueryResult {
        QueryResult { entity: v.0, components: v.1 }
    }
}

/// The views of a result list.
pub open spec fn results_view(rs: Seq<QueryResult>) -> Seq<(EntityId, Seq<u64>)> {
    rs.map_values(|r: QueryResult| r@)
}

/// One resolved query: its signatures and all matching rows.
pub struct Query {
    /// One entry per matching row, in archetype order then row order.
    pub results: Vec<QueryResult>,
    /// The signatures the query was resolved against.
    pub info: QueryInfo,
}

impl Query {
    /// Resolves a query against the live storage: registers the named keys,
    /// then walks every archetype in creation order and every matching row in
    /// row order.
    pub fn init(
        required: &Vec<u64>,
        excluded: &Vec<u64>,
        components_manager: &mut ComponentManager,
        entity_manager: &EntityManager,
    ) -> (q: Query)
        requires
            old(components_manager).wf(),
            entity_manager.wf(),
            distinct_u64s(required@),
            distinct_u64s(excluded@),
            keys_disjoint(required@, excluded@),
            old(components_manager).last_used_id + required@.len() + excluded@.len()
                <= usize::MAX,
        ensures
            final(components_manager).wf(),
            forall|k: u64|
                #[trigger] old(components_manager).components@.contains_key(k) ==> final(components_manager).components@.contains_key(k) && final(components_manager).components@[k] == old(components_manager).components@[k],
            forall|i: int|
                0 <= i < required@.len() ==> final(components_manager).components@.contains_key(
                    #[trigger] required@[i],
                ),
            forall|i: int|
                0 <= i < excluded@.len() ==> final(components_manager).components@.contains_key(
                    #[trigger] excluded@[i],
                ),
            forall|k: u64|
                #[trigger] final(components_manager).components@.contains_key(k) ==> old(components_manager).components@.contains_key(k) || required@.contains(k) || excluded@.contains(k),
            old(components_manager).last_used_id <= final(components_manager).last_used_id <= old(components_manager).last_used_id + required@.len() + excluded@.len(),
            q.info.query_bitmask@ == keys_id_set(final(components_manager).components@, required@),
            q.info.restrictions_bitmask@ == keys_id_set(
                final(components_manager).components@,
                excluded@,
            ),
            results_view(q.results@) == query_rows(
                entity_manager.archetypes@,
                keys_id_seq(final(components_manager).components@, required@),
                keys_id_set(final(components_manager).components@, excluded@),
            ),
    {
        let info = QueryInfo::from_query(required, excluded, components_manager);
        // the required ids, in the query's declared order
        let nreq = required.len();
        let mut req_ids: Vec<ComponentId> = Vec::new();
        let mut i: usize = 0;
        while i < nreq
            invariant
                nreq == required@.len(),
                i <= nreq,
                req_ids@.len() == i,
                components_manager.wf(),
                forall|j: int|
                    0 <= j < nreq ==> components_manager.components@.contains_key(
                        #[trigger] required@[j],
                    ),
                forall|j: int|
                    0 <= j < i ==> req_ids@[j] == components_manager.components@[
                        #[trigger] required@[j]
                    ],
            decreases nreq - i,
        {
            let cid = match components_manager.get_component_id(required[i]) {
                Some(c) => c,
                None => {
                    proof {
                        assert(false);
                    }
                    0
                },
            };
            req_ids.push(cid);
            i = i + 1;
        }
        let ghost reg = components_manager.components@;
        let ghost req_seq = keys_id_seq(reg, required@);
        let ghost excl_set = keys_id_set(reg, excluded@);
        proof {
            assert(req_ids@ =~= req_seq);
            // every required id is in the required id set
            assert forall|j: int| 0 <= j < req_seq.len() implies info.query_bitmask@.contains(
                #[trigger] req_seq[j],
            ) by {
                assert(reg.contains_key(required@[j]) && reg[required@[j]] == req_seq[j]);
            }
            assert forall|c: usize| req_seq.to_set().contains(c) implies info.query_bitmask@.contains(
                c,
            ) by {
                let j = choose|j: int| 0 <= j < req_seq.len() && req_seq[j] == c;
                assert(info.query_bitmask@.contains(req_seq[j]));
            }
            assert forall|c: usize| info.query_bitmask@.contains(c) implies req_seq.to_set().contains(
                c,
            ) by {
                let j = choose|j: int|
                    0 <= j < required@.len() && reg.contains_key(#[trigger] required@[j])
                        && reg[required@[j]] == c;
                assert(req_seq[j] == c);
            }
            assert(req_seq.to_set() =~= info.query_bitmask@);
        }
        let mut results: Vec<QueryResult> = Vec::new();
        let narch = entity_manager.archetypes.len();
        let mut a: usize = 0;
        while a < narch
            invariant
                narch == entity_manager.archetypes@.len(),
                a <= narch,
                entity_manager.wf(),
                nreq == required@.len(),
                nreq == req_ids@.len(),
                req_ids@ == req_seq,
                req_seq.to_set() == info.query_bitmask@,
                info.query_bitmask@ == keys_id_set(reg, required@),
                info.restrictions_bitmask@ == excl_set,
                results_view(results@) == query_rows(
                    entity_manager.archetypes@.take(a as int),
                    req_seq,
                    excl_set,
                ),
            decreases narch - a,
        {
            let arch = &entity_manager.archetypes[a];
            let matched = arch.bitmask.matches_query(
                &info.query_bitmask,
                &info.restrictions_bitmask,
            );
            proof {
                assert(arch.bitmask@ =~= arch.sig());
                assert(matched == arch_matches(*arch, req_seq.to_set(), excl_set));
            }
            if matched {
                // map each required id to its column in this archetype
                let mut order: Vec<usize> = Vec::new();
                let mut j: usize = 0;
                while j < nreq
                    invariant
                        nreq == req_ids@.len(),
                        j <= nreq,
                        order@.len() == j,
                        arch.wf(),
                        req_seq.to_set().subset_of(arch.sig()),
                        req_ids@ == req_seq,
                        forall|t: int|
                            0 <= t < j ==> (#[trigger] order@[t]) as int == arch.col_of(req_seq[t])
                                && (order@[t] as int) < arch.columns@.len(),
                    decreases nreq - j,
                {
                    let cid = req_ids[j];
                    proof {
                        assert(req_seq.to_set().contains(req_seq[j as int]));
                    }
                    let col = match arch.find_col(cid) {
                        Some(c) => c,
                        None => {
                            proof {
                                assert(false);
                            }
                            0
                        },
                    };
                    order.push(col);
                    j = j + 1;
                }
                let nrows = arch.entities.len();
                let mut r: usize = 0;
                while r < nrows
                    invariant
                        nrows == arch.entities@.len(),
                        r <= nrows,
                        arch.wf(),
                        nreq == req_ids@.len(),
                        order@.len() == nreq,
                        req_ids@ == req_seq,
                        arch_matches(*arch, req_seq.to_set(), excl_set),
                        forall|t: int|
                            0 <= t < nreq ==> (#[trigger] order@[t]) as int == arch.col_of(
                                req_seq[t],
                            ) && (order@[t] as int) < arch.columns@.len(),
                        results_view(results@) == query_rows(
                            entity_manager.archetypes@.take(a as int),
                            req_seq,
                            excl_set,
                        ) + arch_results(*arch, req_seq, excl_set).take(r as int),
                    decreases nrows - r,
                {
                    let mut comps: Vec<u64> = Vec::new();
                    let mut t: usize = 0;
                    while t < nreq
                        invariant
                            nreq == order@.len(),
                            t <= nreq,
                            comps@.len() == t,
                            arch.wf(),
                            r < arch.entities@.len(),
                            forall|u: int|
                                0 <= u < nreq ==> ((#[trigger] order@[u]) as int)
                                    < arch.columns@.len(),
                            forall|u: int|
                                0 <= u < t ==> #[trigger] comps@[u] == arch.columns@[
                                    order@[u] as int
                                ]@[r as int],
                        decreases nreq - t,
                    {
                        let v = arch.columns[order[t]].get(r);
                        comps.push(v);
                        t = t + 1;
                    }
                    let ghost results0 = results@;
                    results.push(QueryResult { entity: arch.entities[r], components: comps });
                    proof {
                        assert(comps@ =~= row_components(*arch, req_seq, r as int));
                        let row_res = arch_results(*arch, req_seq, excl_set);
                        assert(row_res[r as int] == (arch.entities@[r as int], comps@));
                        assert(results_view(results@) =~= results_view(results0).push(
                            (arch.entities@[r as int], comps@),
                        ));
                        assert(row_res.take(r + 1) =~= row_res.take(r as int).push(
                            row_res[r as int],
                        ));
                    }
                    r = r + 1;
                }
                proof {
                    lemma_query_rows_take(entity_manager.archetypes@, a as int, req_seq, excl_set);
                    assert(arch_results(*arch, req_seq, excl_set).take(nrows as int) =~= arch_results(
                        *arch,
                        req_seq,
                        excl_set,
                    ));
                }
            } else {
                proof {
                    lemma_query_rows_take(entity_manager.archetypes@, a as int, req_seq, excl_set);
                    assert(arch_results(*arch, req_seq, excl_set) =~= Seq::<(
                        EntityId,
                        Seq<u64>,
                    )>::empty());
                }
            }
            a = a + 1;
        }
        proof {
            assert(entity_manager.archetypes@.take(narch as int) =~= entity_manager.archetypes@);
        }
        Query { results, info }
    }
}

/// Every result that one archetype contributes appears in the full result
/// list.
proof fn lemma_query_rows_decompose(
    archs: Seq<Archetype>,
    req_ids: Seq<usize>,
    excl: Set<usize>,
    k: int,
    r: int,
)
    requires
        0 <= k < archs.len(),
        0 <= r < arch_results(archs[k], req_ids, excl).len(),
    ensures
        exists|i: int|
            0 <= i < query_rows(archs, req_ids, excl).len() && query_rows(archs, req_ids, excl)[i]
                == arch_results(archs[k], req_ids, excl)[r],
    decreases archs.len(),
{
    let whole = query_rows(archs, req_ids, excl);
    let front = query_rows(archs.drop_last(), req_ids, excl);
    let back = arch_results(archs.last(), req_ids, excl);
    if k == archs.len() - 1 {
        assert(archs[k] == archs.last());
        assert(whole[front.len() + r] == back[r]);
    } else {
        assert(archs.drop_last()[k] == archs[k]);
        lemma_query_rows_decompose(archs.drop_last(), req_ids, excl, k, r);
        let i = choose|i: int|
            0 <= i < front.len() && front[i] == arch_results(archs.drop_last()[k], req_ids, excl)[
                r
            ];
        assert(whole[i] == front[i]);
    }
}

/// Every entry of the full result list comes from one matching archetype's
/// row.
proof fn lemma_query_rows_source(
    archs: Seq<Archetype>,
    req_ids: Seq<usize>,
    excl: Set<usize>,
    i: int,
)
    requires
        0 <= i < query_rows(archs, req_ids, excl).len(),
    ensures
        exists|k: int, r: int|
            0 <= k < archs.len() && 0 <= r < archs[k].entities@.len() && arch_matches(
                archs[k],
                req_ids.to_set(),
                excl,
            ) && query_rows(archs, req_ids, excl)[i] == (
            archs[k].entities@[r],
            row_components(archs[k], req_ids, r),
            ),
    decreases archs.len(),
{
    let whole = query_rows(archs, req_ids, excl);
    let front = query_rows(archs.drop_last(), req_ids, excl);
    let back = arch_results(archs.last(), req_ids, excl);
    if i < front.len() {
        lemma_query_rows_source(archs.drop_last(), req_ids, excl, i);
        let (k, r) = choose|k: int, r: int|
            0 <= k < archs.drop_last().len() && 0 <= r < archs.drop_last()[k].entities@.len()
                && arch_matches(archs.drop_last()[k], req_ids.to_set(), excl) && front[i] == (
            archs.drop_last()[k].entities@[r],
            row_components(archs.drop_last()[k], req_ids, r),
            );
        assert(archs.drop_last()[k] == archs[k]);
        assert(whole[i] == front[i]);
        assert(0 <= k < archs.len() && 0 <= r < archs[k].entities@.len() && arch_matches(
            archs[k],
            req_ids.to_set(),
            excl,
        ) && whole[i] == (archs[k].entities@[r], row_components(archs[k], req_ids, r)));
    } else {
        let r = i - front.len();
        assert(whole[i] == back[r]);
        assert(back.len() > 0);
        assert(arch_matches(archs.last(), req_ids.to_set(), excl));
        let k = archs.len() - 1;
        assert(archs[k] == archs.last());
        assert(0 <= k < archs.len() && 0 <= r < archs[k].entities@.len() && arch_matches(
            archs[k],
            req_ids.to_set(),
            excl,
        ) && whole[i] == (archs[k].entities@[r], row_components(archs[k], req_ids, r)));
    }
}

/// An entity appears among a query's results exactly when it is live and its
/// signature holds every required id and none of the excluded ids.
pub proof fn lemma_query_membership(
    em: EntityManager,
    req_ids: Seq<usize>,
    excl: Set<usize>,
    e: usize,
)
    requires
        em.wf(),
    ensures
        (exists|i: int|
            0 <= i < query_rows(em.archetypes@, req_ids, excl).len() && (
            #[trigger] query_rows(em.archetypes@, req_ids, excl)[i]).0.0 == e) <==> (
        em@.contains_key(e) && req_ids.to_set().subset_of(em@[e].dom()) && excl.disjoint(
            em@[e].dom(),
        )),
{
    let rows = query_rows(em.archetypes@, req_ids, excl);
    if exists|i: int| 0 <= i < rows.len() && (#[trigger] rows[i]).0.0 == e {
        let i = choose|i: int| 0 <= i < rows.len() && (#[trigger] rows[i]).0.0 == e;
        lemma_query_rows_source(em.archetypes@, req_ids, excl, i);
        crate::entity::lemma_vec_len_bound(&em.archetypes);
        let (k, r) = choose|k: int, r: int|
            0 <= k < em.archetypes@.len() && 0 <= r < em.archetypes@[k].entities@.len()
                && arch_matches(em.archetypes@[k], req_ids.to_set(), excl) && rows[i] == (
            em.archetypes@[k].entities@[r],
            row_components(em.archetypes@[k], req_ids, r),
            );
        let arch = em.archetypes@[k];
        crate::entity::lemma_vec_len_bound(&arch.entities);
        assert(arch.entities@[r].0 == e);
        assert(em.index@.contains_key(e) && em.index@[e] == (EntityLocation {
            archetype: k as usize,
            row: r as usize,
        }));
        assert(em@[e] == arch.row_map(r));
        assert(em@[e].dom() =~= arch.sig());
    }
    if em@.contains_key(e) && req_ids.to_set().subset_of(em@[e].dom()) && excl.disjoint(
        em@[e].dom(),
    ) {
        let l = em.index@[e];
        let k = l.archetype as int;
        let r = l.row as int;
        let arch = em.archetypes@[k];
        assert(em@[e] == arch.row_map(r));
        assert(em@[e].dom() =~= arch.sig());
        assert(arch_matches(arch, req_ids.to_set(), excl));
        lemma_query_rows_decompose(em.archetypes@, req_ids, excl, k, r);
        assert(arch_results(arch, req_ids, excl)[r] == (
            arch.entities@[r],
            row_components(arch, req_ids, r),
        ));
        let i = choose|i: int|
            0 <= i < rows.len() && rows[i] == arch_results(arch, req_ids, excl)[r];
        assert(rows[i].0.0 == e);
    }
}

/// Each query result carries exactly the matched entity's stored payloads,
/// one per required id, in the query's required order.
pub proof fn lemma_query_values(
    em: EntityManager,
    req_ids: Seq<usize>,
    excl: Set<usize>,
    i: int,
)
    requires
        em.wf(),
        0 <= i < query_rows(em.archetypes@, req_ids, excl).len(),
    ensures
        ({
            let (eid, comps) = query_rows(em.archetypes@, req_ids, excl)[i];
            &&& em@.contains_key(eid.0)
            &&& comps.len() == req_ids.len()
            &&& forall|j: int|
                0 <= j < req_ids.len() ==> em@[eid.0].contains_key(#[trigger] req_ids[j])
                    && comps[j] == em@[eid.0][req_ids[j]]
        }),
{
    lemma_query_rows_source(em.archetypes@, req_ids, excl, i);
    crate::entity::lemma_vec_len_bound(&em.archetypes);
    let (k, r) = choose|k: int, r: int|
        0 <= k < em.archetypes@.len() && 0 <= r < em.archetypes@[k].entities@.len()
            && arch_matches(em.archetypes@[k], req_ids.to_set(), excl) && query_rows(
            em.archetypes@,
            req_ids,
            excl,
        )[i] == (em.archetypes@[k].entities@[r], row_components(em.archetypes@[k], req_ids, r));
    let arch = em.archetypes@[k];
    crate::entity::lemma_vec_len_bound(&arch.entities);
    let eid = arch.entities@[r];
    assert(em.index@.contains_key(eid.0) && em.index@[eid.0] == (EntityLocation {
        archetype: k as usize,
        row: r as usize,
    }));
    assert(em@[eid.0] == arch.row_map(r));
    assert forall|j: int| 0 <= j < req_ids.len() implies em@[eid.0].contains_key(
        #[trigger] req_ids[j],
    ) && row_components(arch, req_ids, r)[j] == em@[eid.0][req_ids[j]] by {
        assert(req_ids.to_set().contains(req_ids[j]));
        assert(arch.sig().contains(req_ids[j]));
    }
}

/// Spawn/despawn round trip: spawning an entity that did not exist and then
/// despawning it restores the store's content, so the entity appears in no
/// query's results and no longer exists.
pub proof fn lemma_spawn_despawn_round_trip(
    em0: EntityManager,
    em1: EntityManager,
    em2: EntityManager,
    e: usize,
    comps: Map<usize, u64>,
    req_ids: Seq<usize>,
    excl: Set<usize>,
)
    requires
        em2.wf(),
        !em0@.contains_key(e),
        em1@ == em0@.insert(e, comps),
        em2@ == em1@.remove(e),
    ensures
        em2@ =~= em0@,
        !em2@.contains_key(e),
        forall|i: int|
            0 <= i < query_rows(em2.archetypes@, req_ids, excl).len() ==> (
            #[trigger] query_rows(em2.archetypes@, req_ids, excl)[i]).0.0 != e,
{
    assert(em2@ =~= em0@);
    lemma_query_membership(em2, req_ids, excl, e);
}

/// Deferred visibility: a spawn that still sits in the command queue has not
/// touched the store, so no query of the running cycle can see the entity;
/// once the queue is applied, a query sees it exactly when the bundle's
/// signature matches.
pub proof fn lemma_deferred_spawn_visibility(
    em: EntityManager,
    em_after: EntityManager,
    e: usize,
    comps: Map<usize, u64>,
    req_ids: Seq<usize>,
    excl: Set<usize>,
)
    requires
        em.wf(),
        em_after.wf(),
        !em@.contains_key(e),
        em_after@ == em@.insert(e, comps),
    ensures
        forall|i: int|
            0 <= i < query_rows(em.archetypes@, req_ids, excl).len() ==> (
            #[trigger] query_rows(em.archetypes@, req_ids, excl)[i]).0.0 != e,
        (exists|i: int|
            0 <= i < query_rows(em_after.archetypes@, req_ids, excl).len() && (
            #[trigger] query_rows(em_after.archetypes@, req_ids, excl)[i]).0.0 == e) <==> (
        req_ids.to_set().subset_of(comps.dom()) && excl.disjoint(comps.dom())),
{
    lemma_query_membership(em, req_ids, excl, e);
    lemma_query_membership(em_after, req_ids, excl, e);
    assert(em_after@[e] == comps);
}

} // verus!
