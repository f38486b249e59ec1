use hecs::{register, Allocator, Builder, CloneRegistry, EcsError, Entity, World};

const POSITION: u32 = 1;
const VELOCITY: u32 = 2;
const A: u32 = 10;
const B: u32 = 11;

#[test]
fn position_follows_velocity() {
    let mut world: World<f32> = World::new();
    let e = world.spawn(&vec![(POSITION, 0.0), (VELOCITY, 1.0)]).unwrap();
    for _ in 0..100 {
        for (f, values) in world.query_with(&vec![POSITION, VELOCITY]) {
            world.insert_component(f, POSITION, values[0] + values[1]).unwrap();
        }
    }
    assert_eq!(world.get(e, POSITION), Ok(100.0));
    assert_eq!(world.get(e, VELOCITY), Ok(1.0));
}

#[test]
fn batch_of_thousand_fills_one_archetype() {
    let mut world: World<u64> = World::new();
    let bundles: Vec<Vec<(u32, u64)>> = (0..1000).map(|_| vec![(POSITION, 0), (VELOCITY, 0)]).collect();
    let ids = world.spawn_batch(&bundles);
    assert_eq!(ids.len(), 1000);
    assert_eq!(world.archetype_count(), 1);
    assert_eq!(world.archetype_len(0), 1000);
    assert_eq!(world.len(), 1000);
}

#[test]
fn removed_type_leaves_query() {
    let mut world: World<i32> = World::new();
    let e = world.spawn(&vec![(A, 1), (B, 2)]).unwrap();
    assert_eq!(world.remove_component(e, B), Ok(2));
    assert_eq!(world.query(&vec![A]), vec![e]);
    assert!(world.query(&vec![B]).is_empty());
    assert!(world.query(&vec![A, B]).is_empty());
    assert_eq!(world.get(e, A), Ok(1));
}

#[test]
fn query_visits_each_spawned_entity_once() {
    for n in [0usize, 1, 7, 300] {
        let mut world: World<u8> = World::new();
        let mut spawned = Vec::new();
        for i in 0..n {
            spawned.push(world.spawn(&vec![(A, i as u8), (B, 0)]).unwrap());
        }
        let mut found = world.query(&vec![B, A]);
        assert_eq!(found.len(), n);
        found.sort_by_key(|e| (e.id, e.generation));
        found.dedup();
        assert_eq!(found.len(), n);
        for e in &spawned {
            assert!(found.contains(e));
        }
    }
}

#[test]
fn batch_then_query_yields_batch() {
    let mut world: World<u8> = World::new();
    let other = world.spawn(&vec![(A, 9)]).unwrap();
    let bundles: Vec<Vec<(u32, u8)>> = (0..5).map(|i| vec![(A, i), (B, i)]).collect();
    let ids = world.spawn_batch(&bundles);
    assert_eq!(ids.len(), 5);
    let found = world.query(&vec![A, B]);
    assert_eq!(found, ids);
    for (i, e) in ids.iter().enumerate() {
        assert!(world.contains(*e));
        assert_eq!(world.get(*e, B), Ok(i as u8));
    }
    assert_eq!(world.query(&vec![A]).len(), 6);
    assert!(world.contains(other));
}

#[test]
fn insert_then_remove_restores_entity() {
    let mut world: World<i64> = World::new();
    let e = world.spawn(&vec![(A, 5)]).unwrap();
    let f = world.spawn(&vec![(A, 6)]).unwrap();
    world.insert_component(e, B, 7).unwrap();
    assert_eq!(world.archetype_count(), 2);
    assert_eq!(world.get(e, B), Ok(7));
    assert_eq!(world.get(f, A), Ok(6));
    assert_eq!(world.remove_component(e, B), Ok(7));
    assert_eq!(world.get(e, A), Ok(5));
    assert_eq!(world.get(e, B), Err(EcsError::MissingComponent));
    assert_eq!(world.archetype_len(0), 2);
    assert_eq!(world.archetype_len(1), 0);
    assert_eq!(world.get(f, A), Ok(6));
}

#[test]
fn insert_existing_type_overwrites_in_place() {
    let mut world: World<i64> = World::new();
    let e = world.spawn(&vec![(A, 1), (B, 2)]).unwrap();
    world.insert_component(e, A, 3).unwrap();
    assert_eq!(world.archetype_count(), 1);
    assert_eq!(world.get(e, A), Ok(3));
    assert_eq!(world.get(e, B), Ok(2));
}

#[test]
fn removing_absent_type_changes_nothing() {
    let mut world: World<i64> = World::new();
    let e = world.spawn(&vec![(A, 1)]).unwrap();
    assert_eq!(world.remove_component(e, B), Err(EcsError::MissingComponent));
    assert_eq!(world.archetype_count(), 1);
    assert_eq!(world.archetype_len(0), 1);
    assert_eq!(world.get(e, A), Ok(1));
}

#[test]
fn clone_keeps_handles_and_values() {
    let mut world: World<i64> = World::new();
    let e = world.spawn(&vec![(A, 1), (B, 2)]).unwrap();
    let f = world.spawn(&vec![(A, 3)]).unwrap();
    let g = world.spawn(&vec![(B, 4)]).unwrap();
    world.despawn(f).unwrap();
    let registry = CloneRegistry::new().register(A).register(B).register(A);
    let copy = world.clone_with(&registry).unwrap();
    assert_eq!(copy.len(), world.len());
    assert_eq!(copy.len(), 2);
    assert_eq!(copy.get(e, A), Ok(1));
    assert_eq!(copy.get(e, B), Ok(2));
    assert_eq!(copy.get(g, B), Ok(4));
    assert!(!copy.contains(f));
    world.insert_component(e, A, 100).unwrap();
    assert_eq!(copy.get(e, A), Ok(1));
}

#[test]
fn clone_with_unregistered_type_fails() {
    let mut world: World<i64> = World::new();
    world.spawn(&vec![(A, 1), (B, 2)]).unwrap();
    let registry = CloneRegistry::new().register(A);
    assert!(matches!(world.clone_with(&registry), Err(EcsError::Unregistered)));
    assert!(registry.contains(A));
    assert!(!registry.contains(B));
    assert_eq!(register(B).key, B);
}

#[test]
fn clone_ignores_unregistered_type_of_empty_archetype() {
    let mut world: World<i64> = World::new();
    let e = world.spawn(&vec![(A, 1), (B, 2)]).unwrap();
    world.despawn(e).unwrap();
    world.spawn(&vec![(A, 3)]).unwrap();
    let registry = CloneRegistry::new().register(A);
    let copy = world.clone_with(&registry).unwrap();
    assert_eq!(copy.len(), 1);
}

#[test]
fn freed_slot_gets_larger_generation() {
    let mut alloc = Allocator::new();
    let a = alloc.allocate().unwrap();
    assert_eq!(a, Entity { id: 0, generation: 0 });
    let b = alloc.allocate().unwrap();
    assert_eq!(b, Entity { id: 1, generation: 0 });
    alloc.free(a).unwrap();
    assert_eq!(alloc.free(a), Err(EcsError::StaleEntity));
    let c = alloc.allocate().unwrap();
    assert_eq!(c, Entity { id: 0, generation: 1 });
    assert!(!alloc.contains(a));
    alloc.free(c).unwrap();
    alloc.free(b).unwrap();
    let d = alloc.allocate().unwrap();
    assert_eq!(d, Entity { id: 1, generation: 1 });
    let e = alloc.allocate().unwrap();
    assert_eq!(e, Entity { id: 0, generation: 2 });
    assert_eq!(alloc.live_count(), 2);
}

#[test]
fn stale_handle_is_rejected() {
    let mut world: World<i64> = World::new();
    let e = world.spawn(&vec![(A, 1)]).unwrap();
    world.despawn(e).unwrap();
    assert_eq!(world.despawn(e), Err(EcsError::StaleEntity));
    assert_eq!(world.get(e, A), Err(EcsError::StaleEntity));
    assert_eq!(world.insert_component(e, A, 2), Err(EcsError::StaleEntity));
    assert_eq!(world.remove_component(e, A), Err(EcsError::StaleEntity));
    let f = world.spawn(&vec![(A, 2)]).unwrap();
    assert_eq!(f.id, e.id);
    assert_ne!(f, e);
    assert!(!world.contains(e));
    assert_eq!(world.get(f, A), Ok(2));
}

#[test]
fn spawn_at_uses_given_handle() {
    let mut world: World<i64> = World::new();
    let h = Entity { id: 5, generation: 3 };
    assert_eq!(world.spawn_at(h, &vec![(A, 1)]), Ok(()));
    assert!(world.contains(h));
    assert_eq!(world.get(h, A), Ok(1));
    assert_eq!(world.spawn_at(Entity { id: 5, generation: 4 }, &vec![(A, 2)]), Err(EcsError::DuplicateEntity));
    assert_eq!(
        world.spawn_at(Entity { id: 2, generation: u32::MAX }, &vec![(A, 2)]),
        Err(EcsError::CapacityOverflow)
    );
    let mut seen = Vec::new();
    for _ in 0..5 {
        let e = world.spawn(&vec![(B, 0)]).unwrap();
        assert_ne!(e.id, 5);
        seen.push(e.id);
    }
    seen.sort();
    assert_eq!(seen, vec![0, 1, 2, 3, 4]);
    assert_eq!(world.spawn(&vec![(B, 0)]).unwrap().id, 6);
}

#[test]
fn later_entry_overrides_earlier() {
    let mut world: World<i64> = World::new();
    let e = world.spawn(&vec![(A, 1), (B, 2), (A, 3)]).unwrap();
    assert_eq!(world.get(e, A), Ok(3));
    let mut builder = Builder::new();
    builder.add(A, 1);
    builder.add(B, 2);
    builder.add(A, 4);
    let entries = builder.build();
    assert_eq!(entries, vec![(A, 4), (B, 2)]);
    assert!(builder.build().is_empty());
    let from = Builder::from_entries(&vec![(B, 1), (B, 5)]).build();
    assert_eq!(from, vec![(B, 5)]);
}

#[test]
fn despawn_moves_last_row() {
    let mut world: World<i64> = World::new();
    let e0 = world.spawn(&vec![(A, 0)]).unwrap();
    let e1 = world.spawn(&vec![(A, 1)]).unwrap();
    let e2 = world.spawn(&vec![(A, 2)]).unwrap();
    world.despawn(e0).unwrap();
    assert_eq!(world.get(e1, A), Ok(1));
    assert_eq!(world.get(e2, A), Ok(2));
    assert_eq!(world.query(&vec![A]), vec![e2, e1]);
    assert_eq!(world.len(), 2);
}

#[test]
fn entity_copy_keeps_handles() {
    let mut world: World<i64> = World::new();
    let e = world.spawn(&vec![(A, 1), (B, 2)]).unwrap();
    let f = world.spawn(&vec![(A, 3)]).unwrap();
    world.despawn(e).unwrap();
    let g = world.spawn(&vec![(B, 4), (A, 5)]).unwrap();
    let registry = CloneRegistry::new().register(A).register(B);
    let copy = world.clone_entities(&registry, false).unwrap();
    assert_eq!(copy.len(), 2);
    assert!(!copy.contains(e));
    assert_eq!(copy.get(f, A), Ok(3));
    assert_eq!(copy.get(g, A), Ok(5));
    assert_eq!(copy.get(g, B), Ok(4));
}

#[test]
fn entity_copy_fails_or_omits_unregistered() {
    let mut world: World<i64> = World::new();
    let e = world.spawn(&vec![(A, 1), (B, 2)]).unwrap();
    let f = world.spawn(&vec![(B, 3)]).unwrap();
    let registry = CloneRegistry::default().register(A);
    assert!(matches!(world.clone_entities(&registry, false), Err(EcsError::Unregistered)));
    let copy = world.clone_entities(&registry, true).unwrap();
    assert_eq!(copy.len(), 2);
    assert_eq!(copy.get(e, A), Ok(1));
    assert_eq!(copy.get(e, B), Err(EcsError::MissingComponent));
    assert!(copy.contains(f));
    assert_eq!(copy.get(f, B), Err(EcsError::MissingComponent));
    assert_eq!(copy.query(&vec![A]), vec![e]);
}

#[test]
fn fetch_gives_values_in_key_order() {
    let mut world: World<i64> = World::new();
    let e = world.spawn(&vec![(A, 1), (B, 2)]).unwrap();
    assert_eq!(world.fetch(e, &vec![B, A]), Ok(vec![2, 1]));
    assert_eq!(world.fetch(e, &vec![A, POSITION]), Err(EcsError::MissingComponent));
    assert_eq!(world.fetch(e, &vec![]), Ok(vec![]));
    let rows = world.query_with(&vec![B]);
    assert_eq!(rows, vec![(e, vec![2])]);
    world.despawn(e).unwrap();
    assert_eq!(world.fetch(e, &vec![A]), Err(EcsError::StaleEntity));
}
