use hecs::{EntityIndex, Location};

fn at(archetype: usize, row: usize) -> Location {
    Location { archetype, row }
}

#[test]
fn allocate_locate_release() {
    let mut index = EntityIndex::new();
    assert!(index.can_allocate());
    let a = index.allocate(at(0, 0));
    let b = index.allocate(at(1, 5));
    assert_eq!((a.id(), a.generation()), (0, 0));
    assert_eq!((b.id(), b.generation()), (1, 0));
    assert_eq!(index.locate(a), Some(at(0, 0)));
    assert_eq!(index.locate(b), Some(at(1, 5)));
    assert_eq!(index.release(a), Some(at(0, 0)));
    assert_eq!(index.locate(a), None);
    assert_eq!(index.release(a), None);
    assert_eq!(index.locate(b), Some(at(1, 5)));
    let c = index.allocate(at(2, 2));
    assert_eq!((c.id(), c.generation()), (0, 1));
    assert_eq!(index.locate(c), Some(at(2, 2)));
    assert_eq!(index.locate(a), None);
    assert_eq!(index.release(a), None);
    assert_eq!(index.locate(c), Some(at(2, 2)));
}

#[test]
fn relocate_moves_one_entity() {
    let mut index = EntityIndex::new();
    let a = index.allocate(at(0, 0));
    let b = index.allocate(at(0, 1));
    assert!(index.relocate(b.id(), at(0, 0)));
    assert_eq!(index.locate(b), Some(at(0, 0)));
    assert_eq!(index.locate(a), Some(at(0, 0)));
    assert!(index.relocate(a.id(), at(3, 4)));
    assert_eq!(index.locate(a), Some(at(3, 4)));
    assert_eq!(index.locate(b), Some(at(0, 0)));
    assert!(!index.relocate(7, at(9, 9)));
    assert_eq!(index.release(a), Some(at(3, 4)));
    assert!(!index.relocate(a.id(), at(1, 1)));
    assert_eq!(index.locate(a), None);
    assert_eq!(index.locate(b), Some(at(0, 0)));
}

#[test]
fn generations_grow_by_one_per_release() {
    let mut index = EntityIndex::new();
    let mut last = index.allocate(at(0, 0));
    for generation in 1..50u32 {
        assert_eq!(index.release(last), Some(at(0, 0)));
        let next = index.allocate(at(0, 0));
        assert_eq!(next.id(), 0);
        assert_eq!(next.generation(), generation);
        assert_eq!(index.locate(last), None);
        last = next;
    }
}
