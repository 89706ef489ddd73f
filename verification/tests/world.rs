use hecs::{Cell, Entity, EntityBuilder, TypeInfo, World};
use std::sync::atomic::{AtomicUsize, Ordering};
use std::sync::Arc;

struct Counted(Arc<AtomicUsize>);

impl Drop for Counted {
    fn drop(&mut self) {
        self.0.fetch_add(1, Ordering::SeqCst);
    }
}

#[test]
fn smoke() {
    let mut world = World::new();
    let e = world.spawn(("hi", 42));
    assert_eq!(world.get::<&'static str>(e), Some(&"hi"));
    assert_eq!(world.get::<i32>(e), Some(&42));
}

#[test]
fn new_world_is_empty() {
    let world = World::new();
    assert!(world.can_spawn());
    assert_eq!(world.archetypes().len(), 0);
}

#[test]
fn first_handles_count_up_from_zero() {
    let mut world = World::new();
    let a = world.spawn((1u8,));
    let b = world.spawn((2u8,));
    assert_eq!((a.id(), a.generation()), (0, 0));
    assert_eq!((b.id(), b.generation()), (1, 0));
    assert!(world.contains(a));
    assert!(world.contains(b));
}

#[test]
fn missing_component_is_absent() {
    let mut world = World::new();
    let e = world.spawn(("hi", 42));
    assert_eq!(world.get::<u64>(e), None);
    assert!(world.get_mut::<u64>(e).is_none());
    assert_eq!(world.get::<&'static str>(e), Some(&"hi"));
    assert_eq!(world.get::<i32>(e), Some(&42));
}

#[test]
fn despawn_is_idempotent() {
    let mut world = World::new();
    let e = world.spawn((1u8,));
    assert!(world.despawn(e));
    assert!(!world.despawn(e));
    assert!(!world.despawn(e));
    assert_eq!(world.get::<u8>(e), None);
    assert!(!world.contains(e));
}

#[test]
fn stale_handle_stays_stale_after_reuse() {
    let mut world = World::new();
    let a = world.spawn((1u8,));
    let b = world.spawn((2u8,));
    let c = world.spawn((3u8,));
    assert!(world.despawn(b));
    assert_eq!(world.get::<u8>(b), None);
    assert_eq!(world.get::<u8>(a), Some(&1));
    assert_eq!(world.get::<u8>(c), Some(&3));
    let d = world.spawn((4u8,));
    assert_eq!(d.id(), b.id());
    assert_eq!(d.generation(), b.generation() + 1);
    assert_ne!(d, b);
    assert_eq!(world.get::<u8>(d), Some(&4));
    assert_eq!(world.get::<u8>(b), None);
    assert!(world.get_mut::<u8>(b).is_none());
    assert!(!world.despawn(b));
    assert_eq!(world.get::<u8>(d), Some(&4));
}

#[test]
fn ids_are_reused_last_freed_first() {
    let mut world = World::new();
    let handles: Vec<Entity> = (0..4u32).map(|i| world.spawn((i,))).collect();
    assert!(world.despawn(handles[1]));
    assert!(world.despawn(handles[3]));
    assert!(world.despawn(handles[0]));
    let x = world.spawn((10u32,));
    let y = world.spawn((11u32,));
    let z = world.spawn((12u32,));
    let fresh = world.spawn((13u32,));
    assert_eq!((x.id(), x.generation()), (0, 1));
    assert_eq!((y.id(), y.generation()), (3, 1));
    assert_eq!((z.id(), z.generation()), (1, 1));
    assert_eq!((fresh.id(), fresh.generation()), (4, 0));
    assert_eq!(world.get::<u32>(handles[2]), Some(&2));
}

#[test]
fn unissued_handles_are_not_live() {
    let mut world = World::new();
    let mut other = World::new();
    let _ = world.spawn((1u8,));
    let a = other.spawn((1u8,));
    let b = other.spawn((2u8,));
    assert!(other.despawn(a));
    let c = other.spawn((3u8,));
    assert_eq!(c.generation(), 1);
    assert_eq!(world.get::<u8>(b), None);
    assert!(!world.despawn(b));
    assert_eq!(world.get::<u8>(c), None);
    assert!(!world.despawn(c));
}

#[test]
fn same_types_in_any_order_share_one_archetype() {
    let mut world = World::new();
    let a = world.spawn(("hi", 42));
    assert_eq!(world.archetypes().len(), 1);
    let b = world.spawn((42, "hi"));
    assert_eq!(world.archetypes().len(), 1);
    assert_eq!(world.location(a).unwrap().archetype, world.location(b).unwrap().archetype);
    assert_eq!(world.location(a).unwrap().row, 0);
    assert_eq!(world.location(b).unwrap().row, 1);
    let c = world.spawn((42,));
    assert_eq!(world.archetypes().len(), 2);
    assert_ne!(world.location(a).unwrap().archetype, world.location(c).unwrap().archetype);
    let d = world.spawn((1u8, 2u16, 3u32));
    let e = world.spawn((3u32, 1u8, 2u16));
    let f = world.spawn((2u16, 3u32, 1u8));
    assert_eq!(world.archetypes().len(), 3);
    assert_eq!(world.location(d).unwrap().archetype, world.location(e).unwrap().archetype);
    assert_eq!(world.location(d).unwrap().archetype, world.location(f).unwrap().archetype);
    assert_eq!(world.get::<u16>(f), Some(&2));
}

#[test]
fn archetypes_survive_their_entities() {
    let mut world = World::new();
    let a = world.spawn((1u8,));
    assert!(world.despawn(a));
    assert_eq!(world.archetypes().len(), 1);
    assert_eq!(world.archetypes()[0].len(), 0);
    let b = world.spawn((2u8,));
    assert_eq!(world.archetypes().len(), 1);
    assert_eq!(world.get::<u8>(b), Some(&2));
}

#[test]
fn despawn_moves_the_last_row_and_keeps_the_others() {
    let mut world = World::new();
    let a = world.spawn((String::from("a"), 1u32));
    let b = world.spawn((String::from("b"), 2u32));
    let c = world.spawn((String::from("c"), 3u32));
    let d = world.spawn((String::from("d"), 4u32));
    assert_eq!(world.location(d).unwrap().row, 3);
    assert!(world.despawn(b));
    assert_eq!(world.get::<String>(b), None);
    assert_eq!(world.location(b), None);
    assert_eq!(world.location(a).unwrap().row, 0);
    assert_eq!(world.location(d).unwrap().row, 1);
    assert_eq!(world.location(c).unwrap().row, 2);
    assert_eq!(world.get::<String>(a).unwrap(), "a");
    assert_eq!(world.get::<String>(c).unwrap(), "c");
    assert_eq!(world.get::<String>(d).unwrap(), "d");
    assert_eq!(world.get::<u32>(a), Some(&1));
    assert_eq!(world.get::<u32>(c), Some(&3));
    assert_eq!(world.get::<u32>(d), Some(&4));
    assert!(world.despawn(c));
    assert_eq!(world.location(d).unwrap().row, 1);
    assert_eq!(world.get::<String>(d).unwrap(), "d");
    assert!(world.despawn(a));
    assert_eq!(world.location(d).unwrap().row, 0);
    assert_eq!(world.get::<u32>(d), Some(&4));
    assert_eq!(world.archetypes()[0].len(), 1);
}

#[test]
fn get_mut_writes_through() {
    let mut world = World::new();
    let e = world.spawn((String::from("a"), 5u32));
    let other = world.spawn((String::from("z"), 9u32));
    *world.get_mut::<u32>(e).unwrap() += 1;
    world.get_mut::<String>(e).unwrap().push('b');
    assert_eq!(world.get::<u32>(e), Some(&6));
    assert_eq!(world.get::<String>(e).map(|s| s.as_str()), Some("ab"));
    assert_eq!(world.get::<u32>(other), Some(&9));
    assert_eq!(world.get::<String>(other).map(|s| s.as_str()), Some("z"));
}

#[test]
fn repeated_type_keeps_the_last_value() {
    let mut world = World::new();
    let e = world.spawn((1u8, 2u8, 7u32, 3u8));
    assert_eq!(world.get::<u8>(e), Some(&3));
    assert_eq!(world.get::<u32>(e), Some(&7));
    let f = world.spawn((9u8, 8u32));
    assert_eq!(world.archetypes().len(), 1);
    assert_eq!(world.location(e).unwrap().archetype, world.location(f).unwrap().archetype);
}

#[test]
fn dynamic_lookup_returns_the_cell() {
    let mut world = World::new();
    let e: Entity = world.spawn_dynamic(vec![Cell::new(7u16), Cell::new(true)]);
    let cell = world.get_dynamic(e, &TypeInfo::of::<u16>()).unwrap();
    assert_eq!(cell.downcast_ref::<u16>(), Some(&7));
    assert!(cell.info().same_type(&TypeInfo::of::<u16>()));
    assert!(world.get_dynamic(e, &TypeInfo::of::<u8>()).is_none());
    assert!(world.despawn(e));
    assert!(world.get_dynamic(e, &TypeInfo::of::<u16>()).is_none());
}

#[test]
fn empty_bundle_spawns_an_entity_without_components() {
    let mut world = World::new();
    let e = world.spawn_dynamic(Vec::new());
    assert!(world.contains(e));
    assert_eq!(world.get::<u8>(e), None);
    assert_eq!(world.archetypes().len(), 1);
    assert_eq!(world.archetypes()[0].types().len(), 0);
    assert!(world.despawn(e));
    assert!(!world.contains(e));
}

#[test]
fn fifteen_components() {
    let mut world = World::new();
    let e = world.spawn((
        1u8, 2u16, 3u32, 4u64, 5u128, 6i8, 7i16, 8i32, 9i64, 10i128, 11usize, 12isize, true, 'x',
        "s",
    ));
    assert_eq!(world.get::<u8>(e), Some(&1));
    assert_eq!(world.get::<u128>(e), Some(&5));
    assert_eq!(world.get::<i128>(e), Some(&10));
    assert_eq!(world.get::<isize>(e), Some(&12));
    assert_eq!(world.get::<bool>(e), Some(&true));
    assert_eq!(world.get::<char>(e), Some(&'x'));
    assert_eq!(world.get::<&str>(e), Some(&"s"));
    assert_eq!(world.archetypes()[0].types().len(), 15);
}

#[test]
fn components_are_dropped_once_on_despawn() {
    let drops = Arc::new(AtomicUsize::new(0));
    let mut world = World::new();
    let a = world.spawn((Counted(drops.clone()), 1u8));
    let b = world.spawn((Counted(drops.clone()), 2u8));
    assert_eq!(drops.load(Ordering::SeqCst), 0);
    assert!(world.despawn(a));
    assert_eq!(drops.load(Ordering::SeqCst), 1);
    assert!(!world.despawn(a));
    assert_eq!(drops.load(Ordering::SeqCst), 1);
    assert_eq!(world.get::<u8>(b), Some(&2));
    drop(world);
    assert_eq!(drops.load(Ordering::SeqCst), 2);
}

#[test]
fn many_spawns_and_despawns_agree_with_a_plain_list() {
    let mut world = World::new();
    let mut live: Vec<(Entity, u64, Option<String>)> = Vec::new();
    let mut dead: Vec<Entity> = Vec::new();
    let mut seed: u64 = 0x2545F4914F6CDD1D;
    for round in 0..2000u64 {
        seed = seed.wrapping_mul(6364136223846793005).wrapping_add(1442695040888963407);
        let pick = (seed >> 33) as usize;
        if pick % 3 != 0 || live.is_empty() {
            if pick % 2 == 0 {
                let e = world.spawn((round, format!("n{}", round)));
                live.push((e, round, Some(format!("n{}", round))));
            } else {
                let e = world.spawn((round,));
                live.push((e, round, None));
            }
        } else {
            let (e, _, _) = live.swap_remove(pick % live.len());
            assert!(world.despawn(e));
            dead.push(e);
        }
        if round % 97 == 0 {
            for (e, number, text) in &live {
                assert_eq!(world.get::<u64>(*e), Some(number));
                assert_eq!(world.get::<String>(*e), text.as_ref());
            }
            for e in &dead {
                assert_eq!(world.get::<u64>(*e), None);
                assert!(!world.contains(*e));
            }
        }
    }
    assert_eq!(world.archetypes().len(), 2);
    let rows: usize = world.archetypes().iter().map(|t| t.len()).sum();
    assert_eq!(rows, live.len());
    for e in &dead {
        assert!(!world.despawn(*e));
    }
    for (e, number, _) in &live {
        assert_eq!(world.get::<u64>(*e), Some(number));
    }
}

#[test]
fn builder_spawns() {
    let mut world = World::new();
    let mut builder = EntityBuilder::new();
    builder.add(123).add("abc");
    let e = world.spawn(builder.build());
    assert_eq!(*world.get::<i32>(e).unwrap(), 123);
    assert_eq!(*world.get::<&str>(e).unwrap(), "abc");
}

#[test]
fn builder_and_tuple_share_an_archetype() {
    let mut world = World::new();
    let mut builder = EntityBuilder::new();
    builder.add("abc").add(123);
    let a = world.spawn(builder.build());
    let b = world.spawn((7, "x"));
    builder.add(5).add("y");
    let c = world.spawn(builder.build());
    assert_eq!(world.archetypes().len(), 1);
    assert_eq!(world.location(a).unwrap().archetype, world.location(b).unwrap().archetype);
    assert_eq!(world.location(a).unwrap().archetype, world.location(c).unwrap().archetype);
    assert_eq!(world.get::<i32>(c), Some(&5));
    assert_eq!(world.get::<&str>(c), Some(&"y"));
}

fn sendable<T: Send + Sync>() {}

#[test]
fn stores_can_cross_threads() {
    sendable::<World>();
    sendable::<EntityBuilder>();
    sendable::<Cell>();
    sendable::<Entity>();
}

#[test]
fn despawning_the_first_of_three_keeps_the_other_two() {
    let mut w = World::new();
    let a = w.spawn((1i32, "a"));
    let b = w.spawn((2i32, "b"));
    let c = w.spawn((3i32, "c"));
    assert_eq!(w.archetypes().len(), 1);
    assert_eq!(w.archetypes()[0].len(), 3);
    assert!(w.despawn(a));
    assert_eq!(w.archetypes()[0].len(), 2);
    assert_eq!(w.get::<i32>(c), Some(&3));
    assert_eq!(w.get::<&'static str>(c), Some(&"c"));
    assert_eq!(w.get::<i32>(b), Some(&2));
    assert_eq!(w.get::<&'static str>(b), Some(&"b"));
    assert_eq!(w.location(c).map(|at| at.row), Some(0));
    assert_eq!(w.location(b).map(|at| at.row), Some(1));
    assert_eq!(w.archetypes()[0].entity_at(0), Some(c.id()));
    assert_eq!(w.archetypes()[0].entity_at(1), Some(b.id()));
    let d = w.spawn((4i32, "d"));
    assert_eq!((d.id(), d.generation()), (a.id(), a.generation() + 1));
    assert_eq!(w.location(d).map(|at| at.row), Some(2));
    assert_eq!(w.get::<i32>(a), None);
}
