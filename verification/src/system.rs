//! System registration and the aliasing-safety check.
//!
//! A system is declared as an ordered list of parameters: at most one command
//! buffer, and queries given by required and excluded key lists.  At
//! registration time the checker walks the parameters in order and proves
//! that no two of them can observe overlapping mutable state: a component
//! claimed by an earlier query may be required again only if the two queries
//! exclude one another.  A rejected system never runs.

use std::collections::HashMap;
use vstd::prelude::*;

use crate::bits::EntityBitmask;
use crate::component::{reg_after_keys, ComponentId, ComponentManager};
use crate::entity::{lemma_sorted_set_eq, strictly_increasing};
use crate::query::{distinct_u64s, keys_disjoint, keys_id_set, QueryInfo};

verus! {

broadcast use vstd::std_specs::hash::group_hash_axioms;

/// The error that rejects a system at registration time.
#[derive(Debug)]
pub enum SystemParamError {
    /// More than one command-buffer parameter in one system.
    DuplicateCommands,
    /// Two parameters could alias a component without a proven mutual
    /// exclusion.
    MustRestrictQuery {
        /// A caller-supplied description of the offending query parameter.
        query_string: String,
        /// The component both parameters could borrow mutably.
        component_id: ComponentId,
    },
}

impl SystemParamError {
    /// Builds the aliasing error for one query parameter.
    pub fn new_query_error(query_string: String, component_id: ComponentId) -> (r: Self)
        ensures
            r == (SystemParamError::MustRestrictQuery { query_string, component_id }),
    {
        SystemParamError::MustRestrictQuery { query_string, component_id }
    }
}

/// What the safety check needs to know of one parameter.
pub enum SafetyInfo {
    /// The parameter is the command buffer.
    Commands,
    /// The parameter is a query with these signatures.
    Query(QueryInfo),
}

/// The ascending enumeration of a set of ids.  For the finite sets the
/// checker builds, the strictly ascending sequence holding exactly the set's
/// elements is unique.
pub open spec fn set_to_sorted_seq(s: Set<usize>) -> Seq<usize> {
    choose|q: Seq<usize>| strictly_increasing(q) && q.to_set() == s
}

/// One step of the aliasing check per required id, in ascending order: an id
/// already claimed by an earlier parameter whose (narrowed) exclusion set the
/// current required set avoids entirely is a conflict; otherwise the claim is
/// recorded, or narrowed by the current required set.  Returns the claims
/// when the walk stops and the first conflicting id, if any.
pub open spec fn check_ids(
    consumed: Map<usize, Set<usize>>,
    ids: Seq<usize>,
    req: Set<usize>,
    excl: Set<usize>,
) -> (Map<usize, Set<usize>>, Option<usize>)
    decreases ids.len(),
{
    if ids.len() == 0 {
        (consumed, None)
    } else {
        let c = ids[0];
        if consumed.contains_key(c) {
            if req.disjoint(consumed[c]) {
                (consumed, Some(c))
            } else {
                check_ids(
                    consumed.insert(c, consumed[c].difference(req)),
                    ids.drop_first(),
                    req,
                    excl,
                )
            }
        } else {
            check_ids(consumed.insert(c, excl), ids.drop_first(), req, excl)
        }
    }
}

/// Two parameters that could alias are always rejected: a query requiring a
/// component already claimed by an earlier parameter, while sharing nothing
/// with the exclusion set recorded for that claim, stops the safety walk with
/// a conflict.  Only a pair of queries provably mutually exclusive via their
/// restrictions may require the same component.
pub proof fn lemma_overlap_without_restriction_rejected(
    consumed: Map<usize, Set<usize>>,
    ids: Seq<usize>,
    req: Set<usize>,
    excl: Set<usize>,
    c: usize,
)
    requires
        ids.contains(c),
        consumed.contains_key(c),
        req.disjoint(consumed[c]),
    ensures
        check_ids(consumed, ids, req, excl).1 is Some,
    decreases ids.len(),
{
    let c0 = ids[0];
    if c0 != c {
        assert(ids.drop_first().contains(c)) by {
            let i = choose|i: int| 0 <= i < ids.len() && ids[i] == c;
            assert(i != 0);
            assert(ids.drop_first()[i - 1] == c);
        }
        if consumed.contains_key(c0) {
            if !req.disjoint(consumed[c0]) {
                let consumed1 = consumed.insert(c0, consumed[c0].difference(req));
                lemma_overlap_without_restriction_rejected(
                    consumed1,
                    ids.drop_first(),
                    req,
                    excl,
                    c,
                );
            }
        } else {
            lemma_overlap_without_restriction_rejected(
                consumed.insert(c0, excl),
                ids.drop_first(),
                req,
                excl,
                c,
            );
        }
    }
}

/// The registration-time aliasing checker: which component each earlier
/// parameter has claimed, narrowed by the queries seen since, and whether a
/// command buffer was seen.
pub struct SafetyCheck {
    /// Per claimed component: the exclusion set that still separates it from
    /// later queries.
    pub consumed_bitmasks: HashMap<ComponentId, EntityBitmask>,
    /// Whether a command-buffer parameter was already seen.
    pub has_commands: bool,
}

impl SafetyCheck {
    /// The claims as a map from component id to exclusion set.
    pub open spec fn consumed(self) -> Map<usize, Set<usize>> {
        Map::new(
            |c: usize| self.consumed_bitmasks@.contains_key(c),
            |c: usize| self.consumed_bitmasks@[c]@,
        )
    }

    /// Creates a checker with no claims.
    pub fn new() -> (r: Self)
        ensures
            r.consumed() == Map::<usize, Set<usize>>::empty(),
            !r.has_commands,
    {
        let r = SafetyCheck { consumed_bitmasks: HashMap::new(), has_commands: false };
        proof {
            assert(r.consumed() =~= Map::<usize, Set<usize>>::empty());
        }
        r
    }

    /// Checks one query parameter against the earlier claims, recording or
    /// narrowing claims as it walks the required ids in ascending order, and
    /// stopping at the first conflict.
    pub fn check_query(&mut self, info: &QueryInfo, query_string: &String) -> (r: Result<
        (),
        SystemParamError,
    >)
        ensures
            final(self).has_commands == old(self).has_commands,
            ({
                let ids = set_to_sorted_seq(info.query_bitmask@);
                let (cons1, errop) = check_ids(
                    old(self).consumed(),
                    ids,
                    info.query_bitmask@,
                    info.restrictions_bitmask@,
                );
                &&& final(self).consumed() == cons1
                &&& match errop {
                    Option::None => r == Ok::<(), SystemParamError>(()),
                    Option::Some(c) => r == Err::<(), SystemParamError>(
                        SystemParamError::MustRestrictQuery {
                            query_string: *query_string,
                            component_id: c,
                        },
                    ),
                }
            }),
    {
        let ghost pre = *old(self);
        let ghost req = info.query_bitmask@;
        let ghost excl = info.restrictions_bitmask@;
        let ids = info.query_bitmask.elements();
        proof {
            assert(ids@.to_set() =~= req) by {
                assert forall|c: usize| ids@.to_set().contains(c) implies req.contains(c) by {
                    let k = choose|k: int| 0 <= k < ids@.len() && ids@[k] == c;
                    assert(req.contains(ids@[k]));
                }
            }
            assert(strictly_increasing(ids@));
            let q = set_to_sorted_seq(req);
            assert(exists|q2: Seq<usize>| strictly_increasing(q2) && q2.to_set() == req) by {
                assert(strictly_increasing(ids@) && ids@.to_set() == req);
            }
            assert(strictly_increasing(q) && q.to_set() == req);
            lemma_sorted_set_eq(q, ids@);
            assert(set_to_sorted_seq(req) == ids@);
            assert(ids@.skip(0) =~= ids@);
        }
        let n = ids.len();
        let mut i: usize = 0;
        while i < n
            invariant
                n == ids@.len(),
                i <= n,
                pre == *old(self),
                req == info.query_bitmask@,
                excl == info.restrictions_bitmask@,
                set_to_sorted_seq(req) == ids@,
                self.has_commands == pre.has_commands,
                check_ids(pre.consumed(), ids@, req, excl) == check_ids(
                    self.consumed(),
                    ids@.skip(i as int),
                    req,
                    excl,
                ),
            decreases n - i,
        {
            let c = ids[i];
            let ghost cur = self.consumed();
            proof {
                assert(ids@.skip(i as int)[0] == ids@[i as int]);
                assert(ids@.skip(i as int).drop_first() =~= ids@.skip(i + 1));
            }
            match self.consumed_bitmasks.get(&c) {
                Some(restriction) => {
                    proof {
                        assert(cur.contains_key(c) && cur[c] == restriction@);
                    }
                    if info.query_bitmask.is_disjoint(restriction) {
                        proof {
                            assert(ids@.skip(i as int).len() > 0);
                            assert(cur.contains_key(c));
                            assert(req.disjoint(cur[c]));
                            assert(check_ids(cur, ids@.skip(i as int), req, excl) == (
                                cur,
                                Some(c),
                            ));
                        }
                        return Err(SystemParamError::new_query_error(query_string.clone(), c));
                    }
                    let mut narrowed = restriction.duplicate();
                    narrowed.difference_with(&info.query_bitmask);
                    self.consumed_bitmasks.insert(c, narrowed);
                    proof {
                        assert(self.consumed() =~= cur.insert(c, cur[c].difference(req)));
                    }
                },
                None => {
                    proof {
                        assert(!cur.contains_key(c));
                    }
                    let cloned = info.restrictions_bitmask.duplicate();
                    self.consumed_bitmasks.insert(c, cloned);
                    proof {
                        assert(self.consumed() =~= cur.insert(c, excl));
                    }
                },
            }
            i = i + 1;
        }
        proof {
            assert(ids@.skip(n as int) =~= Seq::<usize>::empty());
        }
        Ok(())
    }

    /// Checks the command-buffer parameter: at most one per system.
    pub fn check_commands(&mut self) -> (r: Result<(), SystemParamError>)
        ensures
            final(self).consumed_bitmasks == old(self).consumed_bitmasks,
            old(self).has_commands ==> r == Err::<(), SystemParamError>(
                SystemParamError::DuplicateCommands,
            ) && final(self).has_commands,
            !old(self).has_commands ==> r == Ok::<(), SystemParamError>(()) && final(self).has_commands,
    {
        if self.has_commands {
            return Err(SystemParamError::DuplicateCommands);
        }
        self.has_commands = true;
        Ok(())
    }

    /// Dispatches one parameter's info to the matching check.
    pub fn check(&mut self, info: SafetyInfo, query_string: &String) -> (r: Result<
        (),
        SystemParamError,
    >)
        ensures
            match info {
                SafetyInfo::Commands => {
                    &&& final(self).consumed_bitmasks == old(self).consumed_bitmasks
                    &&& final(self).has_commands
                    &&& old(self).has_commands ==> r == Err::<(), SystemParamError>(
                        SystemParamError::DuplicateCommands,
                    )
                    &&& !old(self).has_commands ==> r == Ok::<(), SystemParamError>(())
                },
                SafetyInfo::Query(qinfo) => {
                    let ids = set_to_sorted_seq(qinfo.query_bitmask@);
                    let (cons1, errop) = check_ids(
                        old(self).consumed(),
                        ids,
                        qinfo.query_bitmask@,
                        qinfo.restrictions_bitmask@,
                    );
                    &&& final(self).has_commands == old(self).has_commands
                    &&& final(self).consumed() == cons1
                    &&& match errop {
                        Option::None => r == Ok::<(), SystemParamError>(()),
                        Option::Some(c) => r == Err::<(), SystemParamError>(
                            SystemParamError::MustRestrictQuery {
                                query_string: *query_string,
                                component_id: c,
                            },
                        ),
                    }
                },
            },
    {
        match info {
            SafetyInfo::Commands => self.check_commands(),
            SafetyInfo::Query(query_info) => self.check_query(&query_info, query_string),
        }
    }
}

/// One declared parameter of a system: the command buffer, or a query given
/// by its required and excluded key lists and a description used in error
/// reports.
pub enum SystemParamDecl {
    /// The system asks for the command buffer.
    Commands,
    /// The system asks for a query.
    Query {
        /// Keys of the components every matched entity must have.
        required: Vec<u64>,
        /// Keys of the components no matched entity may have.
        excluded: Vec<u64>,
        /// A description of the parameter, carried into rejection errors.
        label: String,
    },
}

impl SystemParamDecl {
    /// Key lists of a query parameter are duplicate-free and disjoint.
    pub open spec fn param_wf(self) -> bool {
        match self {
            SystemParamDecl::Commands => true,
            SystemParamDecl::Query { required, excluded, label } => {
                &&& distinct_u64s(required@)
                &&& distinct_u64s(excluded@)
                &&& keys_disjoint(required@, excluded@)
            },
        }
    }

    /// How many keys this parameter may register.
    pub open spec fn key_count(self) -> int {
        match self {
            SystemParamDecl::Commands => 0,
            SystemParamDecl::Query { required, excluded, label } => required@.len()
                + excluded@.len() as int,
        }
    }

    /// Builds what the safety check needs to know of this parameter,
    /// registering a query's keys on the way.
    pub fn safety_info(&self, components_manager: &mut ComponentManager) -> (r: SafetyInfo)
        requires
            old(components_manager).wf(),
            self.param_wf(),
            old(components_manager).last_used_id + self.key_count() <= usize::MAX,
        ensures
            final(components_manager).wf(),
            match *self {
                SystemParamDecl::Commands => r == SafetyInfo::Commands && *final(components_manager) == *old(components_manager),
                SystemParamDecl::Query { required, excluded, label } => {
                    let (reg1, next1) = reg_after_keys(
                        old(components_manager).components@,
                        old(components_manager).last_used_id as int,
                        required@,
                    );
                    let (reg2, next2) = reg_after_keys(reg1, next1, excluded@);
                    &&& final(components_manager).components@ == reg2
                    &&& final(components_manager).last_used_id as int == next2
                    &&& r matches SafetyInfo::Query(qi) && qi.query_bitmask@ == keys_id_set(
                        reg2,
                        required@,
                    ) && qi.restrictions_bitmask@ == keys_id_set(reg2, excluded@)
                },
            },
    {
        match self {
            SystemParamDecl::Commands => SafetyInfo::Commands,
            SystemParamDecl::Query { required, excluded, label } => SafetyInfo::Query(
                QueryInfo::from_query(required, excluded, components_manager),
            ),
        }
    }
}

/// Every query parameter of the list has well-formed key lists.
pub open spec fn params_wf(params: Seq<SystemParamDecl>) -> bool {
    forall|i: int| 0 <= i < params.len() ==> (#[trigger] params[i]).param_wf()
}

/// How many keys the whole parameter list may register.
pub open spec fn params_key_count(params: Seq<SystemParamDecl>) -> int
    decreases params.len(),
{
    if params.len() == 0 {
        0
    } else {
        params[0].key_count() + params_key_count(params.drop_first())
    }
}

/// A parameter list never registers a negative number of keys.
pub proof fn lemma_params_key_count_nonneg(params: Seq<SystemParamDecl>)
    ensures
        params_key_count(params) >= 0,
    decreases params.len(),
{
    if params.len() > 0 {
        lemma_params_key_count_nonneg(params.drop_first());
    }
}

/// The whole safety check, walked over the parameter list in declaration
/// order: the claims, the command-buffer flag and the registry after the walk,
/// and the error that stopped it, if any.
pub open spec fn safety_fold(
    consumed: Map<usize, Set<usize>>,
    has_commands: bool,
    reg: Map<u64, ComponentId>,
    next: int,
    params: Seq<SystemParamDecl>,
) -> (Map<usize, Set<usize>>, bool, Map<u64, ComponentId>, int, Option<SystemParamError>)
    decreases params.len(),
{
    if params.len() == 0 {
        (consumed, has_commands, reg, next, None)
    } else {
        match params[0] {
            SystemParamDecl::Commands => {
                if has_commands {
                    (consumed, true, reg, next, Some(SystemParamError::DuplicateCommands))
                } else {
                    safety_fold(consumed, true, reg, next, params.drop_first())
                }
            },
            SystemParamDecl::Query { required, excluded, label } => {
                let (reg1, next1) = reg_after_keys(reg, next, required@);
                let (reg2, next2) = reg_after_keys(reg1, next1, excluded@);
                let req = keys_id_set(reg2, required@);
                let excl = keys_id_set(reg2, excluded@);
                let (cons1, errop) = check_ids(consumed, set_to_sorted_seq(req), req, excl);
                match errop {
                    Option::Some(c) => (
                        cons1,
                        has_commands,
                        reg2,
                        next2,
                        Some(
                            SystemParamError::MustRestrictQuery {
                                query_string: label,
                                component_id: c,
                            },
                        ),
                    ),
                    Option::None => safety_fold(
                        cons1,
                        has_commands,
                        reg2,
                        next2,
                        params.drop_first(),
                    ),
                }
            },
        }
    }
}

/// A system that passes the safety walk asks for the command buffer at most
/// once; and once one command-buffer parameter was seen, an accepted
/// remainder holds none at all.
pub proof fn lemma_accepted_system_single_commands(
    consumed: Map<usize, Set<usize>>,
    has_commands: bool,
    reg: Map<u64, ComponentId>,
    next: int,
    params: Seq<SystemParamDecl>,
)
    requires
        safety_fold(consumed, has_commands, reg, next, params).4 is None,
    ensures
        forall|i: int, j: int|
            0 <= i < j < params.len() ==> !((#[trigger] params[i]) matches SystemParamDecl::Commands
                && (#[trigger] params[j]) matches SystemParamDecl::Commands),
        has_commands ==> forall|i: int|
            0 <= i < params.len() ==> !((#[trigger] params[i]) matches SystemParamDecl::Commands),
    decreases params.len(),
{
    if params.len() > 0 {
        let rest = params.drop_first();
        assert(forall|i: int| 0 <= i < rest.len() ==> rest[i] == #[trigger] params[i + 1]);
        match params[0] {
            SystemParamDecl::Commands => {
                assert(!has_commands);
                lemma_accepted_system_single_commands(consumed, true, reg, next, rest);
                assert forall|j: int|
                    1 <= j < params.len() implies !((#[trigger] params[j]) matches SystemParamDecl::Commands) by {
                    assert(rest[j - 1] == params[j]);
                }
            },
            SystemParamDecl::Query { required, excluded, label } => {
                let (reg1, next1) = reg_after_keys(reg, next, required@);
                let (reg2, next2) = reg_after_keys(reg1, next1, excluded@);
                let req = keys_id_set(reg2, required@);
                let excl = keys_id_set(reg2, excluded@);
                let (cons1, errop) = check_ids(consumed, set_to_sorted_seq(req), req, excl);
                assert(errop is None);
                lemma_accepted_system_single_commands(cons1, has_commands, reg2, next2, rest);
                assert forall|i: int, j: int|
                    1 <= i < j < params.len() implies !((
                    #[trigger] params[i]) matches SystemParamDecl::Commands && (
                    #[trigger] params[j]) matches SystemParamDecl::Commands) by {
                    assert(rest[i - 1] == params[i]);
                    assert(rest[j - 1] == params[j]);
                }
                if has_commands {
                    assert forall|i: int|
                        0 <= i < params.len() implies !((
                        #[trigger] params[i]) matches SystemParamDecl::Commands) by {
                        if i >= 1 {
                            assert(rest[i - 1] == params[i]);
                        }
                    }
                }
            },
        }
    }
}

/// One registered system: its ordered parameter list.
pub struct SystemDecl {
    /// The declared parameters, in declaration order.
    pub params: Vec<SystemParamDecl>,
}

/// Holds every registered system, in registration order.
pub struct SystemsManager {
    /// The registered systems.
    pub systems: Vec<SystemDecl>,
}

impl SystemsManager {
    /// Creates an empty manager.
    pub fn new() -> (r: Self)
        ensures
            r.systems@ == Seq::<SystemDecl>::empty(),
    {
        SystemsManager { systems: Vec::new() }
    }

    /// Registers a system after proving its parameters alias-free: walks the
    /// parameters in order and stores the declaration only when no check
    /// fails.  The system is rejected with exactly the first error of the
    /// safety walk.
    pub fn add_system(
        &mut self,
        decl: SystemDecl,
        components_manager: &mut ComponentManager,
    ) -> (r: Result<(), SystemParamError>)
        requires
            old(components_manager).wf(),
            params_wf(decl.params@),
            old(components_manager).last_used_id + params_key_count(decl.params@) <= usize::MAX,
        ensures
            final(components_manager).wf(),
            ({
                let (cons1, has1, reg1, next1, errop) = safety_fold(
                    Map::<usize, Set<usize>>::empty(),
                    false,
                    old(components_manager).components@,
                    old(components_manager).last_used_id as int,
                    decl.params@,
                );
                &&& final(components_manager).components@ == reg1
                &&& final(components_manager).last_used_id as int == next1
                &&& match errop {
                    Option::None => r == Ok::<(), SystemParamError>(()) && final(self).systems@
                        == old(self).systems@.push(decl),
                    Option::Some(e) => r == Err::<(), SystemParamError>(e) && final(self).systems
                        == old(self).systems,
                }
            }),
    {
        let ghost pre_cm = *old(components_manager);
        let mut safety_check = SafetyCheck::new();
        let no_label = String::new();
        let n = decl.params.len();
        proof {
            assert(decl.params@.skip(0) =~= decl.params@);
        }
        let mut i: usize = 0;
        while i < n
            invariant
                n == decl.params@.len(),
                i <= n,
                pre_cm == *old(components_manager),
                *self == *old(self),
                components_manager.wf(),
                params_wf(decl.params@),
                components_manager.last_used_id + params_key_count(decl.params@.skip(i as int))
                    <= usize::MAX,
                safety_fold(
                    Map::<usize, Set<usize>>::empty(),
                    false,
                    pre_cm.components@,
                    pre_cm.last_used_id as int,
                    decl.params@,
                ) == safety_fold(
                    safety_check.consumed(),
                    safety_check.has_commands,
                    components_manager.components@,
                    components_manager.last_used_id as int,
                    decl.params@.skip(i as int),
                ),
            decreases n - i,
        {
            let ghost cons0 = safety_check.consumed();
            let ghost has0 = safety_check.has_commands;
            let ghost reg0 = components_manager.components@;
            let ghost next0 = components_manager.last_used_id as int;
            proof {
                assert(decl.params@.skip(i as int)[0] == decl.params@[i as int]);
                assert(decl.params@.skip(i as int).drop_first() == decl.params@.skip(i + 1));
                assert(decl.params@[i as int].param_wf());
                lemma_params_key_count_nonneg(decl.params@.skip(i + 1));
            }
            let p = &decl.params[i];
            let info = p.safety_info(components_manager);
            proof {
                match decl.params@[i as int] {
                    SystemParamDecl::Commands => {},
                    SystemParamDecl::Query { required, excluded, label } => {
                        let (reg1, next1) = reg_after_keys(reg0, next0, required@);
                        crate::component::lemma_reg_after_keys_bound(reg0, next0, required@);
                        crate::component::lemma_reg_after_keys_bound(reg1, next1, excluded@);
                    },
                }
            }
            let res = match p {
                SystemParamDecl::Commands => safety_check.check(info, &no_label),
                SystemParamDecl::Query { required, excluded, label } => safety_check.check(
                    info,
                    label,
                ),
            };
            match res {
                Ok(()) => {},
                Err(e) => {
                    return Err(e);
                },
            }
            i = i + 1;
        }
        proof {
            assert(decl.params@.skip(n as int) =~= Seq::<SystemParamDecl>::empty());
        }
        self.systems.push(decl);
        Ok(())
    }

    /// Registers a system without any safety check: the caller takes
    /// responsibility for aliasing.
    pub fn add_system_unchecked(&mut self, decl: SystemDecl)
        ensures
            final(self).systems@ == old(self).systems@.push(decl),
    {
        self.systems.push(decl);
    }
}

} // verus!
