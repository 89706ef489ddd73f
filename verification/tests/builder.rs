use hecs::arena::{checked_next_power_of_two, is_power_of_two, next_power_of_two, Arena};
use hecs::{Archetype, EntityBuilder, StoreError, TypeInfo, World};
use std::sync::atomic::{AtomicUsize, Ordering};
use std::sync::Arc;

struct Counted(Arc<AtomicUsize>);

impl Drop for Counted {
    fn drop(&mut self) {
        self.0.fetch_add(1, Ordering::SeqCst);
    }
}

#[test]
fn powers_of_two() {
    assert_eq!(next_power_of_two(0), 1);
    assert_eq!(next_power_of_two(1), 1);
    assert_eq!(next_power_of_two(2), 2);
    assert_eq!(next_power_of_two(3), 4);
    assert_eq!(next_power_of_two(64), 64);
    assert_eq!(next_power_of_two(65), 128);
    assert_eq!(next_power_of_two(164), 256);
    for n in 0..5000usize {
        assert_eq!(next_power_of_two(n), n.next_power_of_two());
    }
}

#[test]
fn powers_of_two_are_told_apart() {
    assert!(!is_power_of_two(0));
    assert!(is_power_of_two(1));
    assert!(is_power_of_two(2));
    assert!(!is_power_of_two(3));
    assert!(is_power_of_two(64));
    assert!(!is_power_of_two(96));
    assert!(is_power_of_two(1 << 40));
    assert!(!is_power_of_two(usize::MAX));
    for n in 0..5000usize {
        assert_eq!(is_power_of_two(n), n.is_power_of_two());
        assert_eq!(checked_next_power_of_two(n), n.checked_next_power_of_two());
    }
    assert_eq!(checked_next_power_of_two(usize::MAX), None);
    assert_eq!(checked_next_power_of_two(usize::MAX / 2 + 2), None);
    assert_eq!(checked_next_power_of_two(usize::MAX / 2 + 1), Some(usize::MAX / 2 + 1));
}

#[test]
fn arena_tells_what_it_can_take() {
    let mut arena = Arena::new();
    assert!(arena.can_reserve(0, 1));
    assert!(arena.can_reserve(64, 16));
    assert!(arena.can_reserve(usize::MAX / 2 + 1, 1));
    assert!(!arena.can_reserve(usize::MAX / 2 + 2, 1));
    assert_eq!(arena.reserve(4, 4), 60);
    assert!(arena.can_reserve(60, 1));
    assert!(arena.can_reserve(usize::MAX / 2 - 63, 1));
    assert!(!arena.can_reserve(usize::MAX / 2 - 62, 1));
    assert!(!arena.can_reserve(usize::MAX, 1));
}

#[test]
fn arena_starts_empty() {
    let arena = Arena::new();
    assert_eq!(arena.len(), 0);
    assert_eq!(arena.used(), 0);
    assert_eq!(arena.max_align(), 16);
}

#[test]
fn arena_fills_from_the_end() {
    let mut arena = Arena::new();
    assert_eq!(arena.reserve(4, 4), 60);
    assert_eq!(arena.len(), 64);
    assert_eq!(arena.used(), 4);
    assert_eq!(arena.reserve(8, 8), 48);
    assert_eq!(arena.used(), 16);
    assert_eq!(arena.reserve(1, 1), 47);
    assert_eq!(arena.reserve(2, 2), 44);
    assert_eq!(arena.reserve(0, 1), 44);
    assert_eq!(arena.reserve(0, 16), 32);
    assert_eq!(arena.len(), 64);
    assert_eq!(arena.max_align(), 16);
}

#[test]
fn arena_grows_to_a_power_of_two_and_keeps_the_tail() {
    let mut arena = Arena::new();
    assert_eq!(arena.reserve(4, 4), 60);
    assert_eq!(arena.reserve(8, 8), 48);
    assert_eq!(arena.reserve(100, 1), 92);
    assert_eq!(arena.len(), 256);
    assert_eq!(arena.used(), 164);
    assert_eq!(arena.reserve(92, 1), 0);
    assert_eq!(arena.len(), 256);
    assert_eq!(arena.used(), 256);
    assert_eq!(arena.reserve(1, 1), 255);
    assert_eq!(arena.len(), 512);
    assert_eq!(arena.used(), 257);
    let mut arena = Arena::new();
    arena.grow(0);
    assert_eq!((arena.len(), arena.used()), (64, 0));
    arena.grow(1);
    assert_eq!((arena.len(), arena.used()), (128, 64));
    arena.grow(1000);
    assert_eq!((arena.len(), arena.used()), (2048, 128));
}

#[test]
fn growth_counts_the_whole_old_region_as_taken() {
    let mut arena = Arena::new();
    assert_eq!(arena.reserve(40, 1), 24);
    assert_eq!((arena.len(), arena.used()), (64, 40));
    arena.grow(40);
    assert_eq!(arena.len(), 128);
    assert_eq!(arena.used(), 64);
    assert_eq!(arena.len() - arena.used(), 64);
    assert_eq!(arena.reserve(8, 8), 56);
    let mut arena = Arena::new();
    assert_eq!(arena.reserve(40, 1), 24);
    assert_eq!(arena.reserve(30, 1), 34);
    assert_eq!((arena.len(), arena.used()), (128, 94));
}

#[test]
fn arena_is_a_multiple_of_the_largest_alignment() {
    let mut arena = Arena::new();
    assert_eq!(arena.reserve(8, 128), 0);
    assert_eq!(arena.len(), 128);
    assert_eq!(arena.max_align(), 128);
    let mut arena = Arena::new();
    assert_eq!(arena.reserve(4, 4), 60);
    assert_eq!(arena.reserve(1, 256), 0);
    assert_eq!(arena.len(), 256);
    assert_eq!(arena.max_align(), 256);
    assert_eq!(arena.used(), 256);
    arena.reset();
    assert_eq!(arena.used(), 0);
    assert_eq!(arena.len(), 256);
    assert_eq!(arena.max_align(), 256);
    assert_eq!(arena.reserve(4, 4), 252);
    assert_eq!(arena.reserve(300, 2), 468);
    assert_eq!(arena.len(), 1024);
    assert_eq!(arena.used(), 556);
}

#[test]
fn builder_gives_each_component_a_place() {
    let mut builder = EntityBuilder::new();
    assert_eq!(builder.len(), 0);
    assert_eq!(builder.arena_len(), 0);
    assert_eq!(builder.offset(0), None);
    builder.add(1i32);
    assert_eq!(builder.len(), 1);
    assert_eq!(builder.arena_len(), 64);
    assert_eq!(builder.offset(0), Some(60));
    builder.add(2u64).add(3u8);
    assert_eq!(builder.len(), 3);
    assert_eq!(builder.offset(0), Some(60));
    assert_eq!(builder.offset(1), Some(48));
    assert_eq!(builder.offset(2), Some(47));
    assert_eq!(builder.offset(3), None);
    builder.add([0u8; 100]);
    assert_eq!(builder.arena_len(), 256);
    assert_eq!(builder.offset(0), Some(252));
    assert_eq!(builder.offset(1), Some(240));
    assert_eq!(builder.offset(2), Some(239));
    assert_eq!(builder.offset(3), Some(92));
}

#[test]
fn build_lists_types_in_canonical_order() {
    let mut builder = EntityBuilder::new();
    builder.add(1u8).add("s").add(2u32);
    let built = builder.build();
    let ids = built.type_ids().clone();
    assert_eq!(ids.len(), 3);
    assert!(ids[0] < ids[1] && ids[1] < ids[2]);
    let infos = built.type_info();
    assert_eq!(infos.len(), 3);
    for i in 0..3 {
        assert_eq!(infos[i].id(), ids[i]);
    }
    assert_eq!(built.with_ids(|ids| ids.to_vec()), ids);
    let mut other = EntityBuilder::new();
    other.add(5u32).add(6u8).add("t");
    assert_eq!(other.build().type_ids(), &ids);
}

#[test]
fn build_empties_the_builder_and_keeps_the_region() {
    let mut world = World::new();
    let mut builder = EntityBuilder::new();
    builder.add(1u8).add([0u64; 20]);
    assert_eq!(builder.arena_len(), 256);
    let e = world.spawn(builder.build());
    assert_eq!(builder.len(), 0);
    assert_eq!(builder.arena_len(), 256);
    builder.add(2u16);
    assert_eq!(builder.len(), 1);
    assert_eq!(builder.offset(0), Some(254));
    let f = world.spawn(builder.build());
    assert_eq!(world.get::<u8>(e), Some(&1));
    assert_eq!(world.get::<u16>(e), None);
    assert_eq!(world.get::<u16>(f), Some(&2));
    assert_eq!(world.get::<u8>(f), None);
}

#[test]
fn build_keeps_the_last_of_a_repeated_type() {
    let mut world = World::new();
    let mut builder = EntityBuilder::new();
    builder.add(1u8).add("x").add(2u8);
    let built = builder.build();
    assert_eq!(built.type_ids().len(), 2);
    let e = world.spawn(built);
    assert_eq!(world.get::<u8>(e), Some(&2));
    assert_eq!(world.get::<&str>(e), Some(&"x"));
}

#[test]
fn discarded_bundle_drops_each_value_once() {
    let drops = Arc::new(AtomicUsize::new(0));
    let mut builder = EntityBuilder::new();
    builder.add(Counted(drops.clone())).add(7u8).add(String::from("gone"));
    assert_eq!(drops.load(Ordering::SeqCst), 0);
    let built = builder.build();
    assert_eq!(drops.load(Ordering::SeqCst), 0);
    drop(built);
    assert_eq!(drops.load(Ordering::SeqCst), 1);
    assert_eq!(builder.len(), 0);
    let mut world = World::new();
    builder.add(1.5f32).add(Counted(drops.clone()));
    let e = world.spawn(builder.build());
    assert_eq!(drops.load(Ordering::SeqCst), 1);
    assert_eq!(world.get::<f32>(e), Some(&1.5));
    assert_eq!(world.get::<u8>(e), None);
    assert!(world.despawn(e));
    assert_eq!(drops.load(Ordering::SeqCst), 2);
    drop(builder);
    drop(world);
    assert_eq!(drops.load(Ordering::SeqCst), 2);
}

#[test]
fn replaced_value_of_a_repeated_type_is_dropped_once() {
    let drops = Arc::new(AtomicUsize::new(0));
    let mut builder = EntityBuilder::new();
    builder.add(Counted(drops.clone())).add(Counted(drops.clone()));
    let built = builder.build();
    assert_eq!(drops.load(Ordering::SeqCst), 1);
    drop(built);
    assert_eq!(drops.load(Ordering::SeqCst), 2);
}

#[test]
fn bundle_stores_itself_in_a_row() {
    let mut builder = EntityBuilder::new();
    builder.add(1u8).add("s");
    let built = builder.build();
    let mut table = Archetype::new(built.type_info());
    assert_eq!(built.store(&mut table, 0), Err(StoreError::RowOutOfRange));
    let row = table.allocate(3);
    builder.add(2u8);
    assert_eq!(builder.build().store(&mut table, row), Err(StoreError::SignatureMismatch));
    builder.add(2u8).add("t").add(1u16);
    assert_eq!(builder.build().store(&mut table, row), Err(StoreError::SignatureMismatch));
    builder.add(2u16).add("t");
    assert_eq!(builder.build().store(&mut table, row), Err(StoreError::SignatureMismatch));
    assert_eq!(table.get::<u8>(row), None);
    builder.add("u").add(9u8);
    assert_eq!(builder.build().store(&mut table, row), Ok(()));
    assert_eq!(table.get::<u8>(row), Some(&9));
    assert_eq!(table.get::<&str>(row), Some(&"u"));
    assert!(table.types()[0].same_type(&TypeInfo::of::<u8>()) || table.types()[1].same_type(&TypeInfo::of::<u8>()));
}

#[test]
fn values_without_size_need_no_region() {
    let mut builder = EntityBuilder::new();
    builder.add(()).add([0u32; 0]);
    assert_eq!(builder.len(), 2);
    assert_eq!(builder.arena_len(), 0);
    assert_eq!(builder.offset(0), Some(0));
    assert_eq!(builder.offset(1), Some(0));
    assert!(builder.has_room_for(0, 1));
    assert!(builder.has_room_for(1 << 20, 64));
    assert!(!builder.has_room_for(usize::MAX, 1));
    assert!(!builder.has_room_for(usize::MAX / 2 + 2, 1));
    assert!(!builder.has_room_for(8, 0));
    assert!(!builder.has_room_for(8, 3));
    assert!(!builder.has_room_for(8, 48));
    let mut world = World::new();
    let e = world.spawn(builder.build());
    assert_eq!(world.get::<()>(e), Some(&()));
    assert_eq!(world.get::<[u32; 0]>(e), Some(&[]));
}

#[test]
fn ids_depend_on_the_types_alone() {
    let mut x = EntityBuilder::new();
    let mut y = EntityBuilder::new();
    x.add(1u8).add("s").add(2.5f64);
    y.add(0.5f64).add(9u8).add("t");
    let ids_x = x.build().with_ids(|s| s.to_vec());
    let built_y = y.build();
    let ids_y = built_y.with_ids(|s| s.to_vec());
    assert_eq!(ids_x, ids_y);
    let infos = built_y.type_info();
    assert_eq!(infos.len(), ids_y.len());
    for i in 0..infos.len() {
        assert_eq!(infos[i].id(), ids_y[i]);
    }
    let mut empty = EntityBuilder::new();
    assert_eq!(empty.build().with_ids(|s| s.len()), 0);
    assert!(empty.build().type_info().is_empty());
}
