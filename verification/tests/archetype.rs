use hecs::bundle::canonicalize;
use hecs::type_info::in_canonical_order;
use hecs::{Archetype, Cell, StoreError, TypeInfo};

fn table_of(cells: Vec<Cell>) -> Archetype {
    let types: Vec<TypeInfo> = canonicalize(cells).iter().map(|c| c.info()).collect();
    Archetype::new(types)
}

fn fill(table: &mut Archetype, id: u32, number: u32, text: &'static str) -> usize {
    let row = table.allocate(id);
    assert_eq!(table.put_dynamic(Cell::new(number), row), Ok(()));
    assert_eq!(table.put_dynamic(Cell::new(text), row), Ok(()));
    row
}

#[test]
fn new_table_has_columns_and_no_rows() {
    let table = table_of(vec![Cell::new(0u32), Cell::new("")]);
    assert_eq!(table.len(), 0);
    assert_eq!(table.capacity(), 0);
    assert_eq!(table.types().len(), 2);
    assert!(table.types()[0].precedes(&table.types()[1]));
    assert_eq!(table.entity_at(0), None);
    assert_eq!(table.get::<u32>(0), None);
    assert!(table.column_of(&TypeInfo::of::<u32>()).is_some());
    assert!(table.column_of(&TypeInfo::of::<&str>()).is_some());
    assert_ne!(table.column_of(&TypeInfo::of::<u32>()), table.column_of(&TypeInfo::of::<&str>()));
    assert_eq!(table.column_of(&TypeInfo::of::<u8>()), None);
}

#[test]
fn allocated_row_is_empty_until_stored() {
    let mut table = table_of(vec![Cell::new(0u32), Cell::new("")]);
    let row = table.allocate(9);
    assert_eq!(row, 0);
    assert_eq!(table.len(), 1);
    assert_eq!(table.entity_at(0), Some(9));
    assert_eq!(table.entity_at(1), None);
    assert_eq!(table.get::<u32>(0), None);
    assert!(table.get_dynamic(&TypeInfo::of::<u32>(), 0).is_none());
    assert_eq!(table.put_dynamic(Cell::new(5u32), 0), Ok(()));
    assert_eq!(table.get::<u32>(0), Some(&5));
    assert_eq!(table.get::<&str>(0), None);
    assert_eq!(table.put_dynamic(Cell::new(6u32), 0), Ok(()));
    assert_eq!(table.get::<u32>(0), Some(&6));
}

#[test]
fn capacity_doubles_from_sixty_four() {
    let mut table = table_of(vec![Cell::new(0u32)]);
    assert_eq!(table.capacity(), 0);
    table.grow();
    assert_eq!(table.capacity(), 64);
    table.grow();
    assert_eq!(table.capacity(), 128);
    let mut table = table_of(vec![Cell::new(0u32)]);
    for id in 0..64u32 {
        assert_eq!(table.allocate(id), id as usize);
        assert_eq!(table.put_dynamic(Cell::new(id * 2), id as usize), Ok(()));
        assert_eq!(table.capacity(), 64);
    }
    assert_eq!(table.allocate(64), 64);
    assert_eq!(table.capacity(), 128);
    for id in 0..64u32 {
        assert_eq!(table.get::<u32>(id as usize), Some(&(id * 2)));
        assert_eq!(table.entity_at(id as usize), Some(id));
    }
    assert_eq!(table.get::<u32>(64), None);
}

#[test]
fn put_dynamic_refuses_what_does_not_fit() {
    let mut table = table_of(vec![Cell::new(0u32), Cell::new("")]);
    assert_eq!(table.put_dynamic(Cell::new(1u32), 0), Err(StoreError::RowOutOfRange));
    assert_eq!(table.put_dynamic(Cell::new(1u8), 0), Err(StoreError::RowOutOfRange));
    let row = table.allocate(0);
    assert_eq!(table.put_dynamic(Cell::new(1u8), row), Err(StoreError::MissingColumn));
    assert_eq!(table.put_dynamic(Cell::new(1u32), row + 1), Err(StoreError::RowOutOfRange));
    assert_eq!(table.get::<u32>(row), None);
    assert_eq!(table.put_dynamic(Cell::new(1u32), row), Ok(()));
    assert_eq!(table.get::<u32>(row), Some(&1));
}

#[test]
fn canonical_order_can_be_tested() {
    let a = TypeInfo::of::<u8>();
    let b = TypeInfo::of::<u16>();
    let (low, high) = if a.precedes(&b) { (a, b) } else { (b, a) };
    assert!(in_canonical_order(&vec![]));
    assert!(in_canonical_order(&vec![low]));
    assert!(in_canonical_order(&vec![low, high]));
    assert!(!in_canonical_order(&vec![high, low]));
    assert!(!in_canonical_order(&vec![low, low]));
    assert!(!in_canonical_order(&vec![low, high, high]));
}

#[test]
fn remove_moves_the_last_row_into_the_gap() {
    let mut table = table_of(vec![Cell::new(0u32), Cell::new("")]);
    fill(&mut table, 10, 100, "a");
    fill(&mut table, 11, 101, "b");
    fill(&mut table, 12, 102, "c");
    assert_eq!(table.remove(3), Err(StoreError::RowOutOfRange));
    assert_eq!(table.len(), 3);
    assert_eq!(table.remove(0), Ok(Some(12)));
    assert_eq!(table.len(), 2);
    assert_eq!(table.entity_at(0), Some(12));
    assert_eq!(table.get::<u32>(0), Some(&102));
    assert_eq!(table.get::<&str>(0), Some(&"c"));
    assert_eq!(table.entity_at(1), Some(11));
    assert_eq!(table.get::<u32>(1), Some(&101));
    assert_eq!(table.get::<&str>(1), Some(&"b"));
    assert_eq!(table.get::<u32>(2), None);
    assert_eq!(table.remove(1), Ok(None));
    assert_eq!(table.len(), 1);
    assert_eq!(table.get::<&str>(0), Some(&"c"));
    assert_eq!(table.remove(0), Ok(None));
    assert_eq!(table.len(), 0);
    assert_eq!(table.remove(0), Err(StoreError::RowOutOfRange));
}

#[test]
fn get_mut_writes_one_slot() {
    let mut table = table_of(vec![Cell::new(0u32), Cell::new("")]);
    fill(&mut table, 1, 5, "a");
    fill(&mut table, 2, 6, "b");
    *table.get_mut::<u32>(1).unwrap() = 60;
    assert!(table.get_mut::<u8>(1).is_none());
    assert!(table.get_mut::<u32>(2).is_none());
    assert_eq!(table.get::<u32>(0), Some(&5));
    assert_eq!(table.get::<u32>(1), Some(&60));
    assert_eq!(table.get::<&str>(1), Some(&"b"));
}
