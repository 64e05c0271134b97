use shsc::traits::RefC;
use shsc::traits::RefCopy;
use shsc::traits::ToStr;
use shsc::util::allocator::allocate;
use shsc::util::allocator::deallocate;
use shsc::util::allocator::reallocate;
use shsc::Data;
use shsc::Heap;
use shsc::List;

#[test]
fn a_new_sequence_counts_one_reference() {
    let mut heap = Heap::new();
    let list = List::new(&mut heap);
    assert_eq!(list.getrc(&heap), 1);
}

#[test]
fn the_counter_stops_at_zero() {
    let mut heap = Heap::new();
    let mut list = List::from(&mut heap, vec![Data::from(1u8)]);
    list.incrc(&mut heap);
    assert_eq!(list.getrc(&heap), 2);
    list.decrc(&mut heap);
    assert_eq!(list.getrc(&heap), 1);
    list.decrc(&mut heap);
    assert_eq!(list.getrc(&heap), 0);
    list.decrc(&mut heap);
    assert_eq!(list.getrc(&heap), 0);
    assert_eq!(list.len(&heap), 1);
}

#[test]
fn refdrop_lowers_the_count_until_the_last_reference() {
    let mut heap = Heap::new();
    let mut list = List::from(&mut heap, vec![Data::from(1u8)]);
    let first = list.refcopy(&mut heap);
    let second = list.refcopy(&mut heap);
    assert_eq!(list.getrc(&heap), 3);
    first.refdrop(&mut heap);
    assert_eq!(list.getrc(&heap), 2);
    second.refdrop(&mut heap);
    assert_eq!(list.getrc(&heap), 1);
    assert!(list.is_live(&heap));
    assert_eq!(list.len(&heap), 1);
}

#[test]
fn refdrop_releases_at_the_last_reference() {
    let mut heap = Heap::new();
    let mut list = List::from(&mut heap, vec![Data::from(1u8)]);
    let mut alias = list.refcopy(&mut heap);
    let uncounted = alias.refcopy(&mut heap);
    alias.decrc(&mut heap);
    assert_eq!(list.getrc(&heap), 2);
    list.refdrop(&mut heap);
    assert!(uncounted.is_live(&heap));
    assert_eq!(uncounted.getrc(&heap), 1);
    alias.refdrop(&mut heap);
    assert!(!uncounted.is_live(&heap));
    assert_eq!(uncounted.getrc(&heap), 0);
}

#[test]
fn releasing_a_sequence_gives_up_its_elements() {
    let mut heap = Heap::new();
    let mut inner = List::from(&mut heap, vec![Data::from(1u8)]);
    let kept = inner.refcopy(&mut heap);
    let mut middle = List::from(&mut heap, vec![Data::from(inner)]);
    let middle_kept = middle.refcopy(&mut heap);
    let outer = List::from(&mut heap, vec![Data::from(middle), Data::from(2u8)]);
    assert_eq!(kept.getrc(&heap), 2);
    assert_eq!(middle_kept.getrc(&heap), 2);
    outer.refdrop(&mut heap);
    assert_eq!(middle_kept.getrc(&heap), 1);
    assert_eq!(kept.getrc(&heap), 2);
    middle_kept.refdrop(&mut heap);
    assert_eq!(kept.getrc(&heap), 1);
    assert_eq!(kept.tostr(&heap), "[1]");
}

#[test]
fn a_released_handle_counts_nothing() {
    let mut heap = Heap::new();
    let mut list = List::new(&mut heap);
    let mut value = Data::from(list.refcopy(&mut heap));
    list.decrc(&mut heap);
    list.refdrop(&mut heap);
    assert_eq!(value.getrc(&heap), 0);
    value.incrc(&mut heap);
    assert_eq!(value.getrc(&heap), 0);
    value.refdrop(&mut heap);
}

#[test]
fn a_sequence_that_holds_itself_is_not_released() {
    let mut heap = Heap::new();
    let mut list = List::new(&mut heap);
    let inside = list.refcopy(&mut heap);
    let witness = list.refcopy(&mut heap);
    list.append(&mut heap, Data::from(inside));
    assert_eq!(list.getrc(&heap), 3);
    list.refdrop(&mut heap);
    witness.refdrop(&mut heap);
    let fresh = List::new(&mut heap);
    assert_eq!(fresh.getrc(&heap), 1);
}

#[test]
fn allocate_gives_slots_that_hold_null() {
    let row = allocate(32);
    assert_eq!(row.len(), 32);
    assert!(row.iter().all(|slot| slot.is_null()));
    assert_eq!(allocate(0).len(), 0);
    deallocate(row, 32);
}

#[test]
fn reallocate_keeps_the_rows_that_stay() {
    let mut table = vec![allocate(2), allocate(2)];
    table[0][1] = Data::from(7u8);
    reallocate(&mut table, 3);
    assert_eq!(table.len(), 3);
    assert_eq!(table[0][1], Data::from(7u8));
    assert_eq!(table[1].len(), 2);
    assert_eq!(table[2].len(), 0);
    reallocate(&mut table, 1);
    assert_eq!(table.len(), 1);
    assert_eq!(table[0][1], Data::from(7u8));
}

#[test]
fn is_live_tells_whether_the_storage_exists() {
    let mut heap = Heap::new();
    let mut list = List::new(&mut heap);
    let witness = list.refcopy(&mut heap);
    assert!(witness.is_live(&heap));
    list.refdrop(&mut heap);
    assert!(witness.is_live(&heap));
    let mut last = witness;
    let dangling = last.refcopy(&mut heap);
    last.decrc(&mut heap);
    last.refdrop(&mut heap);
    assert!(!dangling.is_live(&heap));
    let mut table = shsc::Table::new(&mut heap);
    let alias = table.refcopy(&mut heap);
    assert!(alias.is_live(&heap));
    table.decrc(&mut heap);
    table.refdrop(&mut heap);
    assert!(!alias.is_live(&heap));
}
