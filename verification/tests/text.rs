use shsc::traits::Append;
use shsc::traits::Insert;
use shsc::traits::RefC;
use shsc::traits::RefCopy;
use shsc::traits::ToStr;
use shsc::Data;
use shsc::Error;
use shsc::Heap;
use shsc::String;

#[test]
fn a_new_text_is_empty() {
    let mut heap = Heap::new();
    let text = String::new(&mut heap);
    assert_eq!(text.len(&heap), 0);
    assert_eq!(text.tostr(&heap), "");
    assert_eq!(text.getrc(&heap), 1);
}

#[test]
fn from_holds_one_character_per_element() {
    let mut heap = Heap::new();
    let text = String::from(&mut heap, "héllo");
    assert_eq!(text.len(&heap), 5);
    assert_eq!(text.tostr(&heap), "héllo");
    let elements = text.as_vec(&heap);
    assert_eq!(elements.len(), 5);
    assert_eq!(elements[1], &Data::from('é'));
}

#[test]
fn concat_joins_two_texts() {
    let mut heap = Heap::new();
    let hi = String::from(&mut heap, "hi");
    let bang = String::from(&mut heap, "!");
    let both = hi.concat(&mut heap, &bang);
    assert_eq!(both.tostr(&heap), "hi!");
    assert_eq!(hi.tostr(&heap), "hi");
    assert_eq!(bang.tostr(&heap), "!");
    assert_eq!(both.getrc(&heap), 1);
}

#[test]
fn append_takes_a_character_a_text_and_a_str() {
    let mut heap = Heap::new();
    let mut text = String::from(&mut heap, "hello");
    text.append(&mut heap, ' ');
    let world = String::from(&mut heap, "wor");
    text.append(&mut heap, &world);
    text.append(&mut heap, "ld");
    assert_eq!(text.tostr(&heap), "hello world");
    assert_eq!(text.len(&heap), 11);
}

#[test]
fn appending_a_text_to_itself_doubles_it() {
    let mut heap = Heap::new();
    let mut text = String::from(&mut heap, "ab");
    let alias = text.refcopy(&mut heap);
    text.append(&mut heap, &alias);
    assert_eq!(text.tostr(&heap), "abab");
}

#[test]
fn insert_puts_a_character_at_the_index() {
    let mut heap = Heap::new();
    let mut text = String::from(&mut heap, "hllo");
    assert_eq!(text.insert(&mut heap, 1, 'e'), Ok(()));
    assert_eq!(text.tostr(&heap), "hello");
    assert_eq!(text.insert(&mut heap, 5, '!'), Ok(()));
    assert_eq!(text.tostr(&heap), "hello!");
    assert_eq!(text.insert(&mut heap, 7, '?'), Err(Error::OutOfBounds(7)));
    assert_eq!(text.tostr(&heap), "hello!");
}

#[test]
fn inserting_a_str_puts_it_at_the_index_in_its_order() {
    let mut heap = Heap::new();
    let mut text = String::from(&mut heap, "hello");
    assert_eq!(text.insert(&mut heap, 5, " world"), Ok(()));
    assert_eq!(text.tostr(&heap), "hello world");
    assert_eq!(text.len(&heap), 11);
    assert_eq!(text.insert(&mut heap, 0, ">> "), Ok(()));
    assert_eq!(text.tostr(&heap), ">> hello world");
    assert_eq!(text.insert(&mut heap, 8, ","), Ok(()));
    assert_eq!(text.tostr(&heap), ">> hello, world");
    assert_eq!(text.insert(&mut heap, 16, "x"), Err(Error::OutOfBounds(16)));
    assert_eq!(text.tostr(&heap), ">> hello, world");
    assert_eq!(text.insert(&mut heap, 3, ""), Ok(()));
    assert_eq!(text.tostr(&heap), ">> hello, world");
}

#[test]
fn inserting_a_text_puts_it_at_the_index_in_its_order() {
    let mut heap = Heap::new();
    let mut text = String::from(&mut heap, "ad");
    let other = String::from(&mut heap, "bc");
    assert_eq!(text.insert(&mut heap, 1, &other), Ok(()));
    assert_eq!(text.tostr(&heap), "abcd");
    assert_eq!(other.tostr(&heap), "bc");
    let alias = text.refcopy(&mut heap);
    assert_eq!(text.insert(&mut heap, 2, &alias), Ok(()));
    assert_eq!(text.tostr(&heap), "ababcdcd");
    assert_eq!(text.insert(&mut heap, 9, &other), Err(Error::OutOfBounds(9)));
}

#[test]
fn inserting_a_long_str_crosses_rows() {
    let mut heap = Heap::new();
    let mut text = String::from(&mut heap, "[]");
    let long = "abcdefghijklmnopqrstuvwxyzABCDEFGHIJKLMNOPQRSTUVWXYZ0123456789-_=+";
    assert_eq!(text.insert(&mut heap, 1, long), Ok(()));
    assert_eq!(text.len(&heap), 68);
    assert_eq!(text.tostr(&heap), format!("[{}]", long));
}

#[test]
fn a_long_text_spans_rows() {
    let mut heap = Heap::new();
    let long = "abcdefghijklmnopqrstuvwxyzABCDEFGHIJKLMNOPQRSTUVWXYZ0123456789-_=+";
    let text = String::from(&mut heap, long);
    assert_eq!(text.len(&heap), 66);
    assert_eq!(text.tostr(&heap), long);
}

#[test]
fn an_alias_of_a_text_sees_what_is_appended() {
    let mut heap = Heap::new();
    let mut text = String::from(&mut heap, "ab");
    let alias = text.refcopy(&mut heap);
    assert_eq!(alias, text);
    assert_eq!(text.getrc(&heap), 2);
    text.append(&mut heap, 'c');
    assert_eq!(alias.tostr(&heap), "abc");
}

#[test]
fn a_deep_copy_of_a_text_is_independent() {
    let mut heap = Heap::new();
    let mut text = String::from(&mut heap, "ab");
    let copy = text.clone(&mut heap);
    assert_ne!(copy, text);
    text.append(&mut heap, 'c');
    assert_eq!(copy.tostr(&heap), "ab");
    assert_eq!(text.tostr(&heap), "abc");
    assert_eq!(copy.getrc(&heap), 1);
}

#[test]
fn counting_a_text_counts_its_sequence() {
    let mut heap = Heap::new();
    let mut text = String::from(&mut heap, "ab");
    text.incrc(&mut heap);
    assert_eq!(text.getrc(&heap), 2);
    text.decrc(&mut heap);
    text.decrc(&mut heap);
    text.decrc(&mut heap);
    assert_eq!(text.getrc(&heap), 0);
    assert_eq!(text.tostr(&heap), "ab");
}

#[test]
fn is_valid_tells_a_text_from_a_released_one() {
    let mut heap = Heap::new();
    let text = String::from(&mut heap, "ab");
    assert!(text.is_valid(&heap));
    let mut gone = String::from(&mut heap, "cd");
    let dangling = gone.refcopy(&mut heap);
    gone.decrc(&mut heap);
    gone.refdrop(&mut heap);
    assert!(!dangling.is_valid(&heap));
}

#[test]
fn as_vec_mut_writes_through_to_the_characters() {
    let mut heap = Heap::new();
    let mut text = String::from(&mut heap, "abc");
    for slot in text.as_vec_mut(&mut heap) {
        *slot = Data::from('z');
    }
    assert_eq!(text.tostr(&heap), "zzz");
}
