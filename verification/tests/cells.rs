use hecs::bundle::canonicalize;
use hecs::{Cell, TypeInfo};

#[test]
fn cell_keeps_value_and_type() {
    let mut cell = Cell::new(42i32);
    assert_eq!(cell.downcast_ref::<i32>(), Some(&42));
    assert_eq!(cell.downcast_ref::<u32>(), None);
    *cell.downcast_mut::<i32>().unwrap() = 7;
    assert_eq!(cell.downcast_ref::<i32>(), Some(&7));
    assert!(cell.info().same_type(&TypeInfo::of::<i32>()));
    assert!(!cell.info().same_type(&TypeInfo::of::<u32>()));
}

#[test]
fn downcast_to_another_type_changes_nothing() {
    let mut cell = Cell::new(String::from("kept"));
    assert!(cell.downcast_mut::<u8>().is_none());
    assert!(cell.downcast_mut::<&str>().is_none());
    assert_eq!(cell.downcast_ref::<String>().map(|s| s.as_str()), Some("kept"));
    assert!(cell.info().same_type(&TypeInfo::of::<String>()));
}

#[test]
fn descriptor_gives_size_and_alignment() {
    let info = TypeInfo::of::<u64>();
    assert_eq!(info.size(), 8);
    assert_eq!(info.align(), std::mem::align_of::<u64>());
    let info = TypeInfo::of::<[u8; 3]>();
    assert_eq!(info.size(), 3);
    assert_eq!(info.align(), 1);
    let info = TypeInfo::of::<()>();
    assert_eq!(info.size(), 0);
    assert_eq!(info.align(), 1);
    assert_eq!(TypeInfo::of::<u32>().id(), std::any::TypeId::of::<u32>());
    assert_eq!(Cell::new(1u16).info().size(), 2);
    assert_eq!(Cell::new(1u16).info().align(), 2);
}

#[test]
fn descriptors_compare_by_type() {
    let a = TypeInfo::of::<u8>();
    let b = TypeInfo::of::<u8>();
    assert!(a.same_type(&b));
    assert!(!a.precedes(&b));
    assert!(!b.precedes(&a));
    assert!(a.same_layout(&b));
    let c = TypeInfo::of::<i8>();
    assert!(!a.same_type(&c));
    assert!(a.same_layout(&c));
    assert!(!a.same_layout(&TypeInfo::of::<u16>()));
}

#[test]
fn canonical_order_is_a_strict_total_order() {
    let infos = [
        TypeInfo::of::<u8>(),
        TypeInfo::of::<u16>(),
        TypeInfo::of::<u32>(),
        TypeInfo::of::<String>(),
        TypeInfo::of::<&str>(),
        TypeInfo::of::<Vec<u8>>(),
        TypeInfo::of::<()>(),
    ];
    for (i, a) in infos.iter().enumerate() {
        for (j, b) in infos.iter().enumerate() {
            let before = a.precedes(b);
            let after = b.precedes(a);
            let same = a.same_type(b);
            assert_eq!(same, i == j);
            assert_eq!(before as u8 + after as u8 + same as u8, 1);
            assert_eq!(before, a.id() < b.id());
            for c in infos.iter() {
                if a.precedes(b) && b.precedes(c) {
                    assert!(a.precedes(c));
                }
            }
        }
    }
}

fn types_of(cells: &[Cell]) -> Vec<TypeInfo> {
    cells.iter().map(|c| c.info()).collect()
}

#[test]
fn canonicalize_sorts_by_type() {
    let one = canonicalize(vec![Cell::new(1u8), Cell::new(2u16), Cell::new(3u32), Cell::new("s")]);
    let two = canonicalize(vec![Cell::new("t"), Cell::new(6u32), Cell::new(5u16), Cell::new(4u8)]);
    assert_eq!(one.len(), 4);
    assert_eq!(two.len(), 4);
    let a = types_of(&one);
    let b = types_of(&two);
    for i in 0..4 {
        assert!(a[i].same_type(&b[i]));
        if i > 0 {
            assert!(a[i - 1].precedes(&a[i]));
        }
    }
    let bytes: Vec<&Cell> = two.iter().filter(|c| c.info().same_type(&TypeInfo::of::<u8>())).collect();
    assert_eq!(bytes.len(), 1);
    assert_eq!(bytes[0].downcast_ref::<u8>(), Some(&4));
}

#[test]
fn canonicalize_keeps_the_last_of_each_type() {
    let cells = canonicalize(vec![
        Cell::new(1u8),
        Cell::new("a"),
        Cell::new(2u8),
        Cell::new("b"),
        Cell::new(3u8),
    ]);
    assert_eq!(cells.len(), 2);
    for cell in &cells {
        if let Some(n) = cell.downcast_ref::<u8>() {
            assert_eq!(*n, 3);
        } else {
            assert_eq!(cell.downcast_ref::<&str>(), Some(&"b"));
        }
    }
    assert_eq!(canonicalize(Vec::new()).len(), 0);
}
