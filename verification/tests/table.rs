use shsc::traits::RefC;
use shsc::traits::RefCopy;
use shsc::traits::ToStr;
use shsc::Data;
use shsc::Error;
use shsc::Heap;
use shsc::List;
use shsc::Table;

#[test]
fn a_new_table_is_empty() {
    let mut heap = Heap::new();
    let table = Table::new(&mut heap);
    assert_eq!(table.len(&heap), 0);
    assert_eq!(table.slots(&heap), 0);
    assert_eq!(table.get(&heap, "a"), None);
    assert_eq!(table.getrc(&heap), 1);
    assert_eq!(table.tostr(&heap), "{}");
}

#[test]
fn insert_then_get_returns_the_value() {
    let mut heap = Heap::new();
    let mut table = Table::new(&mut heap);
    table.insert(&mut heap, "a", Data::from(1i32));
    table.insert(&mut heap, "b", Data::from(2i32));
    assert_eq!(table.get(&heap, "a"), Some(&Data::from(1i32)));
    assert_eq!(table.get(&heap, "b"), Some(&Data::from(2i32)));
    assert_eq!(table.get(&heap, "c"), None);
    assert_eq!(table.len(&heap), 2);
    assert_eq!(table.slots(&heap), 2);
}

#[test]
fn inserting_a_bound_key_overwrites_without_growth() {
    let mut heap = Heap::new();
    let mut table = Table::new(&mut heap);
    table.insert(&mut heap, "k", Data::from(1i32));
    assert_eq!(table.slots(&heap), 1);
    table.insert(&mut heap, "k", Data::from('z'));
    assert_eq!(table.slots(&heap), 1);
    assert_eq!(table.len(&heap), 1);
    assert_eq!(table.get(&heap, "k"), Some(&Data::from('z')));
}

#[test]
fn overwriting_drops_the_value_that_was_bound() {
    let mut heap = Heap::new();
    let mut inner = List::from(&mut heap, vec![Data::from(1u8)]);
    let kept = inner.refcopy(&mut heap);
    let mut table = Table::new(&mut heap);
    table.insert(&mut heap, "k", Data::from(inner));
    assert_eq!(kept.getrc(&heap), 2);
    table.insert(&mut heap, "k", Data::null());
    assert_eq!(kept.getrc(&heap), 1);
    assert_eq!(kept.len(&heap), 1);
}

#[test]
fn remove_leaves_a_tombstone() {
    let mut heap = Heap::new();
    let mut table = Table::new(&mut heap);
    table.insert(&mut heap, "a", Data::from(1i32));
    table.insert(&mut heap, "b", Data::from(2i32));
    table.insert(&mut heap, "c", Data::from(3i32));
    let alias = table.refcopy(&mut heap);
    assert_eq!(table.remove(&mut heap, "b"), Some(Data::from(2i32)));
    assert_eq!(table.get(&heap, "b"), None);
    assert_eq!(alias.get(&heap, "b"), None);
    assert_eq!(alias.len(&heap), 2);
    assert_eq!(alias.slots(&heap), 3);
    assert_eq!(table.tostr(&heap), "{a: 1, c: 3}");
    assert_eq!(alias.tostr(&heap), "{a: 1, c: 3}");
    assert_eq!(table.remove(&mut heap, "b"), None);
    assert_eq!(table.slots(&heap), 3);
}

#[test]
fn a_removed_key_takes_a_new_slot_when_inserted_again() {
    let mut heap = Heap::new();
    let mut table = Table::new(&mut heap);
    table.insert(&mut heap, "a", Data::from(1i32));
    table.insert(&mut heap, "b", Data::from(2i32));
    assert_eq!(table.remove(&mut heap, "a"), Some(Data::from(1i32)));
    table.insert(&mut heap, "a", Data::from(5i32));
    assert_eq!(table.slots(&heap), 3);
    assert_eq!(table.get(&heap, "a"), Some(&Data::from(5i32)));
    assert_eq!(table.tostr(&heap), "{b: 2, a: 5}");
}

#[test]
fn rendering_lists_each_key_once_in_insertion_order() {
    let mut heap = Heap::new();
    let mut table = Table::new(&mut heap);
    table.insert(&mut heap, "a", Data::from(1i32));
    table.insert(&mut heap, "b", Data::from(2i32));
    let text = table.tostr(&heap);
    assert_eq!(text, "{a: 1, b: 2}");
    assert_eq!(text.matches("a: 1").count(), 1);
    assert_eq!(text.matches("b: 2").count(), 1);
}

#[test]
fn rendering_skips_a_null_value() {
    let mut heap = Heap::new();
    let mut table = Table::new(&mut heap);
    table.insert(&mut heap, "a", Data::null());
    table.insert(&mut heap, "b", Data::from(2i32));
    table.insert(&mut heap, "c", Data::null());
    assert_eq!(table.tostr(&heap), "{b: 2}");
}

#[test]
fn from_pairs_binds_pair_i_to_slot_i() {
    let mut heap = Heap::new();
    let pairs = vec![
        ("x".to_owned(), Data::from(10u8)),
        ("y".to_owned(), Data::from(20u8)),
        ("z".to_owned(), Data::from(30u8)),
    ];
    let table = Table::from(&mut heap, pairs);
    assert_eq!(table.len(&heap), 3);
    assert_eq!(table.slots(&heap), 3);
    assert_eq!(table.get(&heap, "y"), Some(&Data::from(20u8)));
    assert_eq!(table.keys(&heap), vec!["x".to_owned(), "y".to_owned(), "z".to_owned()]);
    assert_eq!(table.tostr(&heap), "{x: 10, y: 20, z: 30}");
}

#[test]
fn index_refuses_a_key_that_is_not_bound() {
    let mut heap = Heap::new();
    let mut table = Table::new(&mut heap);
    table.insert(&mut heap, "a", Data::from(1i32));
    assert_eq!(table.index(&heap, "a"), Ok(&Data::from(1i32)));
    assert_eq!(table.index(&heap, "b"), Err(Error::InvalidKey("b".to_owned())));
    assert!(matches!(table.index_mut(&mut heap, "b"), Err(Error::InvalidKey(_))));
}

#[test]
fn get_mut_writes_the_bound_value() {
    let mut heap = Heap::new();
    let mut table = Table::new(&mut heap);
    table.insert(&mut heap, "a", Data::from(1i32));
    *table.get_mut(&mut heap, "a").unwrap() = Data::from(20i32);
    assert_eq!(table.get(&heap, "a"), Some(&Data::from(20i32)));
    *table.index_mut(&mut heap, "a").unwrap() = Data::from(30i32);
    assert_eq!(table.get(&heap, "a"), Some(&Data::from(30i32)));
    assert!(table.get_mut(&mut heap, "b").is_none());
}

#[test]
fn a_deep_copy_of_a_table_is_independent_and_compact() {
    let mut heap = Heap::new();
    let mut table = Table::new(&mut heap);
    table.insert(&mut heap, "a", Data::from(1i32));
    table.insert(&mut heap, "b", Data::from(2i32));
    table.insert(&mut heap, "c", Data::from(3i32));
    assert_eq!(table.remove(&mut heap, "a"), Some(Data::from(1i32)));
    let _alias = table.refcopy(&mut heap);
    let copy = table.clone(&mut heap);
    assert_ne!(copy, table);
    assert_eq!(copy.getrc(&heap), 1);
    assert_eq!(table.getrc(&heap), 2);
    assert_eq!(copy.slots(&heap), 2);
    assert_eq!(copy.tostr(&heap), "{b: 2, c: 3}");
    table.insert(&mut heap, "d", Data::from(4i32));
    assert_eq!(copy.get(&heap, "d"), None);
    assert_eq!(copy.tostr(&heap), "{b: 2, c: 3}");
}

#[test]
fn releasing_a_table_gives_up_its_values() {
    let mut heap = Heap::new();
    let mut inner = List::from(&mut heap, vec![Data::from(1u8)]);
    let kept = inner.refcopy(&mut heap);
    let mut table = Table::new(&mut heap);
    table.insert(&mut heap, "k", Data::from(inner));
    assert_eq!(kept.getrc(&heap), 2);
    let mut probe = Data::from(table);
    let seen = probe.refcopy(&mut heap);
    assert_eq!(seen.getrc(&heap), 2);
    probe.refdrop(&mut heap);
    assert_eq!(seen.getrc(&heap), 1);
    assert_eq!(kept.getrc(&heap), 2);
    seen.refdrop(&mut heap);
    assert_eq!(kept.getrc(&heap), 1);
}

#[test]
fn within_counts_the_table_itself() {
    let mut heap = Heap::new();
    let mut table = Table::new(&mut heap);
    assert!(!table.within(&heap, 0));
    assert!(table.within(&heap, 1));
    let inner = List::from(&mut heap, vec![Data::from(1u8)]);
    table.insert(&mut heap, "k", Data::from(inner));
    assert!(!table.within(&heap, 1));
    assert!(table.within(&heap, 2));
}
