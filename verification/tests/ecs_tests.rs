use tinysimpleecs::component::ComponentManager;
use tinysimpleecs::entity::EntityId;
use tinysimpleecs::query::Query;
use tinysimpleecs::system::{SystemDecl, SystemParamDecl, SystemParamError};
use tinysimpleecs::World;

const BANANA: u64 = 101;
const BANANA2: u64 = 202;

fn assert_within_query(query: &Query, id: usize) {
    assert!(query.results.iter().any(|r| r.entity == EntityId::new(id)));
}

fn assert_banana2_values(query: &Query, component_index: usize, expected: &[u64]) {
    let mut values: Vec<u64> = expected.to_vec();
    assert!(
        query.results.len() == values.len(),
        "values' ({:?}) len ({}) does not match result's ({:?}) len ({})",
        values,
        values.len(),
        query.results,
        query.results.len()
    );
    for r in query.results.iter() {
        let index = values.iter().position(|n| *n == r.components[component_index]);
        assert!(
            index.is_some(),
            "value: {:?} from {:?} not found in values: {:?}",
            r.components[component_index],
            r,
            values
        );
        values.remove(index.unwrap());
    }
}

#[test]
fn manual_spawn_entity() {
    let mut world = World::new();
    let id = world.spawn(vec![(BANANA, 0), (BANANA2, 23)]);
    assert!(world.entity_exists(&id));
    assert!(world.component_exists(BANANA));
    assert!(world.component_exists(BANANA2));
}

#[test]
fn query_entities() {
    let mut world = World::new();
    let _ = world.spawn(vec![(BANANA, 0)]);
    let _ = world.spawn(vec![(BANANA, 0), (BANANA2, 23)]);
    let _ = world.spawn(vec![(BANANA2, 24)]);

    {
        let query = world.query(&vec![BANANA], &vec![]);
        assert_within_query(&query, 0);
        assert_within_query(&query, 1);
        assert_eq!(query.results.len(), 2);
    }

    {
        let query = world.query(&vec![BANANA2], &vec![]);
        assert_eq!(query.results.len(), 2);
        assert_within_query(&query, 1);
        assert_within_query(&query, 2);
        assert_banana2_values(&query, 0, &[24, 23]);
        let target = query.results[1].entity;
        let bumped = query.results[1].components[0] + 1;
        assert!(world.set_component(&target, BANANA2, bumped));
    }

    {
        let query = world.query(&vec![BANANA, BANANA2], &vec![]);
        assert_eq!(query.results.len(), 1);
        assert_within_query(&query, 1);
    }

    {
        let query = world.query(&vec![BANANA], &vec![BANANA2]);
        assert_eq!(query.results.len(), 1);
        assert_within_query(&query, 0);
    }

    {
        // Re-run the query to check new state
        let query = world.query(&vec![BANANA2], &vec![]);
        assert_within_query(&query, 1);
        assert_within_query(&query, 2);
        assert_banana2_values(&query, 0, &[23, 25]);
    }
}

#[test]
fn systems_test() {
    let mut world = World::new();
    let _ = world.spawn(vec![(BANANA, 0)]);
    let _ = world.spawn(vec![(BANANA, 0), (BANANA2, 23)]);
    let _ = world.spawn(vec![(BANANA2, 24)]);

    let decl = SystemDecl {
        params: vec![
            SystemParamDecl::Commands,
            SystemParamDecl::Query {
                required: vec![BANANA2],
                excluded: vec![],
                label: "banana2 query".to_owned(),
            },
            SystemParamDecl::Query {
                required: vec![BANANA],
                excluded: vec![],
                label: "banana query".to_owned(),
            },
        ],
    };
    world.add_system(decl).unwrap();

    // run the registered system twice: its body spawns one entity and reads
    // the second query's results; the flush ends each cycle
    let mut cycle: usize = 0;
    while cycle < 2 {
        let _query = world.query(&vec![BANANA2], &vec![]);
        let query2 = world.query(&vec![BANANA], &vec![]);
        world.queue_spawn(vec![(BANANA, 0)]);
        for result in query2.results.iter() {
            let _ = &result.components;
        }
        world.apply_commands();
        cycle += 1;
    }
}

#[test]
fn registry_idempotence() {
    let mut cm = ComponentManager::new();
    let a1 = cm.register_component_if_not_exists(BANANA);
    let a2 = cm.register_component_if_not_exists(BANANA);
    assert_eq!(a1, a2);
    let b = cm.register_component_if_not_exists(BANANA2);
    assert_ne!(a1, b);
    assert_eq!(cm.get_component_id(BANANA), Some(a1));
    assert_eq!(cm.get_component_id(BANANA2), Some(b));
    assert_eq!(cm.get_component_id(777), None);
    assert!(cm.component_exists(BANANA));
    assert!(!cm.component_exists(777));
}

#[test]
fn spawn_despawn_round_trip() {
    let mut world = World::new();
    let id = world.spawn(vec![(BANANA, 5)]);
    assert!(world.entity_exists(&id));
    {
        let query = world.query(&vec![BANANA], &vec![]);
        assert_eq!(query.results.len(), 1);
    }
    world.queue_despawn(id);
    world.apply_commands();
    assert!(!world.entity_exists(&id));
    let query = world.query(&vec![BANANA], &vec![]);
    assert!(query.results.iter().all(|r| r.entity != id));
    assert_eq!(query.results.len(), 0);
}

#[test]
fn archetype_row_integrity() {
    let mut world = World::new();
    let a = world.spawn(vec![(BANANA, 1)]);
    let b = world.spawn(vec![(BANANA, 2)]);
    let c = world.spawn(vec![(BANANA, 3)]);
    world.queue_despawn(b);
    world.apply_commands();
    {
        let query = world.query(&vec![BANANA], &vec![]);
        assert_eq!(query.results.len(), 2);
        let ids: Vec<EntityId> = query.results.iter().map(|r| r.entity).collect();
        assert!(ids.contains(&a));
        assert!(ids.contains(&c));
        // the swap-removal moved the last row (C) into B's old slot
        assert_eq!(query.results[1].entity, c);
        assert_eq!(query.results[1].components[0], 3);
    }
    // despawning the occupant of B's old slot leaves only A
    world.queue_despawn(c);
    world.apply_commands();
    let query = world.query(&vec![BANANA], &vec![]);
    assert_eq!(query.results.len(), 1);
    assert_eq!(query.results[0].entity, a);
    assert_eq!(query.results[0].components[0], 1);
}

#[test]
fn query_correctness_scenario() {
    const TAG: u64 = 1;
    const VALUE: u64 = 2;
    let mut world = World::new();
    let e1 = world.spawn(vec![(TAG, 0)]);
    let e2 = world.spawn(vec![(TAG, 0), (VALUE, 23)]);
    let e3 = world.spawn(vec![(VALUE, 24)]);

    {
        let query = world.query(&vec![TAG], &vec![]);
        let mut ids: Vec<EntityId> = query.results.iter().map(|r| r.entity).collect();
        ids.sort_by_key(|e| e.0);
        assert_eq!(ids, vec![e1, e2]);
    }
    {
        let query = world.query(&vec![VALUE], &vec![]);
        assert_eq!(query.results.len(), 2);
        for r in query.results.iter() {
            if r.entity == e2 {
                assert_eq!(r.components[0], 23);
            } else {
                assert_eq!(r.entity, e3);
                assert_eq!(r.components[0], 24);
            }
        }
    }
    {
        let query = world.query(&vec![TAG], &vec![VALUE]);
        assert_eq!(query.results.len(), 1);
        assert_eq!(query.results[0].entity, e1);
    }
    assert!(world.set_component(&e3, VALUE, 25));
    {
        let query = world.query(&vec![VALUE], &vec![]);
        for r in query.results.iter() {
            if r.entity == e3 {
                assert_eq!(r.components[0], 25);
            }
        }
    }
}

#[test]
fn safety_checker_conflict() {
    const TAG: u64 = 1;
    let mut world = World::new();
    let conflicting = SystemDecl {
        params: vec![
            SystemParamDecl::Query {
                required: vec![TAG],
                excluded: vec![],
                label: "first".to_owned(),
            },
            SystemParamDecl::Query {
                required: vec![TAG],
                excluded: vec![],
                label: "second".to_owned(),
            },
        ],
    };
    let r = world.add_system(conflicting);
    match r {
        Err(SystemParamError::MustRestrictQuery { query_string, component_id }) => {
            assert_eq!(query_string, "second".to_owned());
            assert_eq!(component_id, world.components_manager.get_component_id(TAG).unwrap());
        }
        _ => panic!("expected a MustRestrictQuery rejection"),
    }
}

#[test]
fn safety_checker_duplicate_commands() {
    let mut world = World::new();
    let decl = SystemDecl {
        params: vec![SystemParamDecl::Commands, SystemParamDecl::Commands],
    };
    let r = world.add_system(decl);
    assert!(matches!(r, Err(SystemParamError::DuplicateCommands)));
}

#[test]
fn safety_checker_unchecked_accepts_conflicts() {
    const TAG: u64 = 1;
    let mut world = World::new();
    world.add_system_unchecked(SystemDecl {
        params: vec![
            SystemParamDecl::Query {
                required: vec![TAG],
                excluded: vec![],
                label: "first".to_owned(),
            },
            SystemParamDecl::Query {
                required: vec![TAG],
                excluded: vec![],
                label: "second".to_owned(),
            },
        ],
    });
    world.add_system_unchecked(SystemDecl {
        params: vec![SystemParamDecl::Commands, SystemParamDecl::Commands],
    });
    assert_eq!(world.systems_manager.systems.len(), 2);
}

#[test]
fn safety_checker_restriction_allows_overlap() {
    const TAG: u64 = 1;
    const OTHER: u64 = 2;
    let mut world = World::new();
    // the first query claims TAG but excludes OTHER; the second requires both,
    // so the two can never match the same entity
    let decl = SystemDecl {
        params: vec![
            SystemParamDecl::Query {
                required: vec![TAG],
                excluded: vec![OTHER],
                label: "restricted".to_owned(),
            },
            SystemParamDecl::Query {
                required: vec![TAG, OTHER],
                excluded: vec![],
                label: "both".to_owned(),
            },
        ],
    };
    assert!(world.add_system(decl).is_ok());
}

#[test]
fn command_ordering() {
    const TAG: u64 = 1;
    let mut world = World::new();
    let x = world.queue_spawn(vec![(TAG, 9)]);
    world.queue_despawn(x);
    world.apply_commands();
    assert!(!world.entity_exists(&x));
    let query = world.query(&vec![TAG], &vec![]);
    assert_eq!(query.results.len(), 0);
}

#[test]
fn deferred_visibility() {
    const TAG: u64 = 1;
    let mut world = World::new();
    let _anchor = world.spawn(vec![(TAG, 1)]);
    let x = world.queue_spawn(vec![(TAG, 2)]);
    // the spawn is queued: no query of this cycle sees the entity
    let query = world.query(&vec![TAG], &vec![]);
    assert!(query.results.iter().all(|r| r.entity != x));
    assert_eq!(query.results.len(), 1);
    assert!(!world.entity_exists(&x));
    // the next cycle sees it
    world.apply_commands();
    assert!(world.entity_exists(&x));
    let query = world.query(&vec![TAG], &vec![]);
    assert!(query.results.iter().any(|r| r.entity == x));
    assert_eq!(query.results.len(), 2);
}

#[test]
fn empty_bundle_and_empty_query() {
    let mut world = World::new();
    let unit = world.spawn(vec![]);
    let tagged = world.spawn(vec![(BANANA, 4)]);
    assert!(world.entity_exists(&unit));
    // an empty required set matches every entity not excluded
    let query = world.query(&vec![], &vec![]);
    assert_eq!(query.results.len(), 2);
    let query = world.query(&vec![], &vec![BANANA]);
    assert_eq!(query.results.len(), 1);
    assert_eq!(query.results[0].entity, unit);
    let query = world.query(&vec![BANANA], &vec![]);
    assert_eq!(query.results.len(), 1);
    assert_eq!(query.results[0].entity, tagged);
}

#[test]
fn canonical_column_order() {
    // registering keys in one order and spawning with them in the other must
    // still bind each payload to its own component
    let mut world = World::new();
    let first = world.spawn(vec![(BANANA, 10)]);
    let second = world.spawn(vec![(BANANA2, 20), (BANANA, 11)]);
    assert_eq!(world.get_component(&first, BANANA), Some(10));
    assert_eq!(world.get_component(&second, BANANA), Some(11));
    assert_eq!(world.get_component(&second, BANANA2), Some(20));
    assert_eq!(world.get_component(&second, 999), None);
    let query = world.query(&vec![BANANA2, BANANA], &vec![]);
    assert_eq!(query.results.len(), 1);
    assert_eq!(query.results[0].components, vec![20, 11]);
}

#[test]
fn get_and_set_component() {
    let mut world = World::new();
    let id = world.spawn(vec![(BANANA, 7)]);
    assert_eq!(world.get_component(&id, BANANA), Some(7));
    assert!(world.set_component(&id, BANANA, 8));
    assert_eq!(world.get_component(&id, BANANA), Some(8));
    assert!(!world.set_component(&id, BANANA2, 1));
    let stranger = EntityId::new(55);
    assert!(!world.set_component(&stranger, BANANA, 1));
    assert_eq!(world.get_component(&stranger, BANANA), None);
}

#[test]
fn query_result_from_pair() {
    let r = tinysimpleecs::query::QueryResult::from((EntityId::new(3), vec![7, 8]));
    assert_eq!(r.entity, EntityId::new(3));
    assert_eq!(r.components, vec![7, 8]);
}

#[test]
fn safety_checker_narrows_claims() {
    const A: u64 = 1;
    const B: u64 = 2;
    const C: u64 = 3;
    let mut world = World::new();
    // the first query claims A excluded by {B, C}; the second overlaps on A
    // via B and narrows A's claim down to {C}; the third overlaps on B but no
    // longer on A's remaining restriction, so it is rejected at A
    let decl = SystemDecl {
        params: vec![
            SystemParamDecl::Query {
                required: vec![A],
                excluded: vec![B, C],
                label: "one".to_owned(),
            },
            SystemParamDecl::Query {
                required: vec![A, B],
                excluded: vec![],
                label: "two".to_owned(),
            },
            SystemParamDecl::Query {
                required: vec![A, B],
                excluded: vec![],
                label: "three".to_owned(),
            },
        ],
    };
    match world.add_system(decl) {
        Err(SystemParamError::MustRestrictQuery { query_string, component_id }) => {
            assert_eq!(query_string, "three".to_owned());
            assert_eq!(component_id, world.components_manager.get_component_id(A).unwrap());
        }
        _ => panic!("expected a MustRestrictQuery rejection"),
    }
}
