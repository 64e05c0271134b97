use shsc::traits::RefC;
use shsc::traits::RefCopy;
use shsc::traits::ToStr;
use shsc::Data;
use shsc::Error;
use shsc::Heap;
use shsc::List;

fn numbers(heap: &mut Heap, n: i32) -> List {
    let mut values = Vec::new();
    for i in 0..n {
        values.push(Data::from(i));
    }
    List::from(heap, values)
}

#[test]
fn append_then_get_returns_each_value() {
    let mut heap = Heap::new();
    let mut list = List::new(&mut heap);
    for i in 0..100i32 {
        list.append(&mut heap, Data::from(i));
    }
    assert_eq!(list.len(&heap), 100);
    for i in 0..100usize {
        assert_eq!(list.get(&heap, i), Some(&Data::from(i as i32)));
    }
    assert_eq!(list.get(&heap, 100), None);
}

#[test]
fn thirty_three_values_take_two_rows() {
    let mut heap = Heap::new();
    let mut list = List::new(&mut heap);
    assert_eq!(list.rows(&heap), 0);
    for i in 0..32i32 {
        list.append(&mut heap, Data::from(i));
    }
    assert_eq!(list.rows(&heap), 1);
    list.append(&mut heap, Data::from(32i32));
    assert_eq!(list.rows(&heap), 2);
    for i in 0..33usize {
        assert_eq!(list.get(&heap, i), Some(&Data::from(i as i32)));
    }
}

#[test]
fn insert_then_remove_restores_the_sequence() {
    let mut heap = Heap::new();
    let mut list = numbers(&mut heap, 40);
    assert_eq!(list.insert(&mut heap, 7, Data::from('x')), Ok(()));
    assert_eq!(list.len(&heap), 41);
    assert_eq!(list.get(&heap, 7), Some(&Data::from('x')));
    assert_eq!(list.get(&heap, 8), Some(&Data::from(7i32)));
    assert_eq!(list.remove(&mut heap, 7), Ok(Data::from('x')));
    assert_eq!(list.len(&heap), 40);
    for i in 0..40usize {
        assert_eq!(list.get(&heap, i), Some(&Data::from(i as i32)));
    }
}

#[test]
fn insert_beyond_the_length_is_refused() {
    let mut heap = Heap::new();
    let mut list = numbers(&mut heap, 3);
    assert_eq!(list.insert(&mut heap, 4, Data::null()), Err(Error::OutOfBounds(4)));
    assert_eq!(list.len(&heap), 3);
    assert_eq!(list.insert(&mut heap, 3, Data::null()), Ok(()));
    assert_eq!(list.remove(&mut heap, 4), Err(Error::OutOfBounds(4)));
}

#[test]
fn an_alias_sees_what_is_appended() {
    let mut heap = Heap::new();
    let mut a = numbers(&mut heap, 3);
    let b = a.refcopy(&mut heap);
    assert_eq!(a, b);
    assert_eq!(a.getrc(&heap), 2);
    a.append(&mut heap, Data::from(9u8));
    assert_eq!(b.len(&heap), 4);
    assert_eq!(b.get(&heap, 3), Some(&Data::from(9u8)));
}

#[test]
fn a_new_sequence_is_empty() {
    let mut heap = Heap::new();
    let list = List::new(&mut heap);
    assert_eq!(list.len(&heap), 0);
    assert_eq!(list.rows(&heap), 0);
    assert_eq!(list.get(&heap, 0), None);
    assert!(list.as_vec(&heap).is_empty());
}

#[test]
fn from_allocates_one_row_for_every_32_values_begun() {
    let mut heap = Heap::new();
    for (n, rows) in [(0, 0), (1, 1), (31, 1), (32, 1), (33, 2), (64, 2), (65, 3), (100, 4)] {
        let list = numbers(&mut heap, n);
        assert_eq!(list.len(&heap), n as usize);
        assert_eq!(list.rows(&heap), rows);
    }
}

#[test]
fn removing_gives_no_row_back() {
    let mut heap = Heap::new();
    let mut list = numbers(&mut heap, 33);
    assert_eq!(list.rows(&heap), 2);
    assert_eq!(list.remove(&mut heap, 32), Ok(Data::from(32i32)));
    assert_eq!(list.remove(&mut heap, 0), Ok(Data::from(0i32)));
    assert_eq!(list.len(&heap), 31);
    assert_eq!(list.rows(&heap), 2);
    assert_eq!(list.get(&heap, 0), Some(&Data::from(1i32)));
    assert_eq!(list.get(&heap, 30), Some(&Data::from(31i32)));
}

#[test]
fn insert_shifts_across_a_row_boundary() {
    let mut heap = Heap::new();
    let mut list = numbers(&mut heap, 32);
    assert_eq!(list.insert(&mut heap, 0, Data::from(-1i32)), Ok(()));
    assert_eq!(list.rows(&heap), 2);
    assert_eq!(list.len(&heap), 33);
    for i in 0..33usize {
        assert_eq!(list.get(&heap, i), Some(&Data::from(i as i32 - 1)));
    }
}

#[test]
fn as_vec_lists_the_elements_in_order() {
    let mut heap = Heap::new();
    let list = numbers(&mut heap, 40);
    let all = list.as_vec(&heap);
    assert_eq!(all.len(), 40);
    for (i, value) in all.iter().enumerate() {
        assert_eq!(**value, Data::from(i as i32));
    }
}

#[test]
fn take_leaves_null_in_the_slot() {
    let mut heap = Heap::new();
    let list = numbers(&mut heap, 3);
    assert_eq!(list.take(&mut heap, 1), Some(Data::from(1i32)));
    assert_eq!(list.get(&heap, 1), Some(&Data::null()));
    assert_eq!(list.len(&heap), 3);
    assert_eq!(list.take(&mut heap, 3), None);
}

#[test]
fn get_mut_writes_the_element() {
    let mut heap = Heap::new();
    let mut list = numbers(&mut heap, 3);
    *list.get_mut(&mut heap, 1).unwrap() = Data::from('x');
    assert_eq!(list.get(&heap, 1), Some(&Data::from('x')));
    assert!(list.get_mut(&mut heap, 3).is_none());
    *list.index_mut(&mut heap, 2).unwrap() = Data::from('y');
    assert_eq!(list.index(&heap, 2), Ok(&Data::from('y')));
    assert_eq!(list.index(&heap, 3), Err(Error::OutOfBounds(3)));
    assert!(matches!(list.index_mut(&mut heap, 3), Err(Error::OutOfBounds(3))));
}

#[test]
fn a_deep_copy_does_not_see_what_is_appended() {
    let mut heap = Heap::new();
    let mut a = numbers(&mut heap, 3);
    let _b = a.refcopy(&mut heap);
    let c = a.clone(&mut heap);
    assert_ne!(a, c);
    assert_eq!(c.getrc(&heap), 1);
    assert_eq!(a.getrc(&heap), 2);
    a.append(&mut heap, Data::from(9u8));
    assert_eq!(a.len(&heap), 4);
    assert_eq!(c.len(&heap), 3);
    for i in 0..3usize {
        assert_eq!(c.get(&heap, i), Some(&Data::from(i as i32)));
    }
}

#[test]
fn a_moved_element_stays_the_same_handle() {
    let mut heap = Heap::new();
    let mut inner = List::new(&mut heap);
    let witness = inner.refcopy(&mut heap);
    let mut list = numbers(&mut heap, 2);
    list.append(&mut heap, Data::from(inner));
    assert_eq!(list.insert(&mut heap, 0, Data::null()), Ok(()));
    assert_eq!(witness.getrc(&heap), 2);
    let back = list.remove(&mut heap, 3).unwrap();
    assert_eq!(witness.getrc(&heap), 2);
    let mut through = witness;
    through.append(&mut heap, Data::from(1u8));
    assert_eq!(back.tostr(&heap), "[1]");
}

#[test]
fn within_counts_the_sequence_itself() {
    let mut heap = Heap::new();
    let flat = numbers(&mut heap, 3);
    assert!(!flat.within(&heap, 0));
    assert!(flat.within(&heap, 1));
    let nested = List::from(&mut heap, vec![Data::from(flat)]);
    assert!(!nested.within(&heap, 1));
    assert!(nested.within(&heap, 2));
}

#[test]
fn as_vec_mut_writes_through_to_the_elements() {
    let mut heap = Heap::new();
    let mut list = numbers(&mut heap, 40);
    {
        let all = list.as_vec_mut(&mut heap);
        assert_eq!(all.len(), 40);
        for (i, slot) in all.into_iter().enumerate() {
            assert_eq!(*slot, Data::from(i as i32));
            *slot = Data::from(2 * i as i32);
        }
    }
    assert_eq!(list.len(&heap), 40);
    assert_eq!(list.rows(&heap), 2);
    for i in 0..40usize {
        assert_eq!(list.get(&heap, i), Some(&Data::from(2 * i as i32)));
    }
    let mut empty = List::new(&mut heap);
    assert!(empty.as_vec_mut(&mut heap).is_empty());
}

#[test]
fn set_gives_up_the_element_it_overwrites() {
    let mut heap = Heap::new();
    let mut inner = List::new(&mut heap);
    let witness = inner.refcopy(&mut heap);
    let mut list = List::from(&mut heap, vec![Data::from(1u8), Data::from(inner)]);
    assert_eq!(witness.getrc(&heap), 2);
    assert_eq!(list.set(&mut heap, 1, Data::from(2u8)), Ok(()));
    assert_eq!(witness.getrc(&heap), 1);
    assert_eq!(list.get(&heap, 1), Some(&Data::from(2u8)));
    assert_eq!(list.set(&mut heap, 0, Data::from('a')), Ok(()));
    assert_eq!(list.tostr(&heap), "[a,2]");
    assert_eq!(list.set(&mut heap, 2, Data::null()), Err(Error::OutOfBounds(2)));
    assert_eq!(list.len(&heap), 2);
}

#[test]
fn as_vec_mut_reaches_every_slot_of_a_long_sequence() {
    let mut heap = Heap::new();
    let mut list = numbers(&mut heap, 100_003);
    for (i, slot) in list.as_vec_mut(&mut heap).into_iter().enumerate() {
        assert_eq!(*slot, Data::from(i as i32));
        *slot = Data::from(i as i32 + 1);
    }
    assert_eq!(list.len(&heap), 100_003);
    assert_eq!(list.rows(&heap), 3126);
    assert_eq!(list.get(&heap, 0), Some(&Data::from(1i32)));
    assert_eq!(list.get(&heap, 31), Some(&Data::from(32i32)));
    assert_eq!(list.get(&heap, 32), Some(&Data::from(33i32)));
    assert_eq!(list.get(&heap, 100_002), Some(&Data::from(100_003i32)));
}
