use shsc::traits::RefC;
use shsc::traits::RefCopy;
use shsc::traits::ToStr;
use shsc::Data;
use shsc::DataTypes;
use shsc::Heap;
use shsc::List;
use shsc::Piece;
use shsc::String;
use shsc::Table;

#[test]
fn from_picks_the_variant_of_the_type() {
    assert_eq!(Data::from(true).data, DataTypes::BOOL(true));
    assert_eq!(Data::from(1u8).data, DataTypes::UINT8(1));
    assert_eq!(Data::from(2u16).data, DataTypes::UINT16(2));
    assert_eq!(Data::from(3u32).data, DataTypes::UINT32(3));
    assert_eq!(Data::from(4u64).data, DataTypes::UINT64(4));
    assert_eq!(Data::from(-1i8).data, DataTypes::INT8(-1));
    assert_eq!(Data::from(-2i16).data, DataTypes::INT16(-2));
    assert_eq!(Data::from(-3i32).data, DataTypes::INT32(-3));
    assert_eq!(Data::from(-4i64).data, DataTypes::INT64(-4));
    assert_eq!(Data::from('c').data, DataTypes::CHAR('c'));
    assert_eq!(Data::float(1.5f64.to_bits()).data, DataTypes::FLOAT64(0x3ff8_0000_0000_0000));
    assert_eq!(Data::null().data, DataTypes::NULL);
}

#[test]
fn typename_names_each_variant() {
    let mut heap = Heap::new();
    let text = String::new(&mut heap);
    let list = List::new(&mut heap);
    let table = Table::new(&mut heap);
    assert_eq!(Data::from(true).typename(), "BOOL");
    assert_eq!(Data::from(1u8).typename(), "UINT8");
    assert_eq!(Data::from(1u16).typename(), "UINT16");
    assert_eq!(Data::from(1u32).typename(), "UINT32");
    assert_eq!(Data::from(1u64).typename(), "UINT64");
    assert_eq!(Data::from(1i8).typename(), "INT8");
    assert_eq!(Data::from(1i16).typename(), "INT16");
    assert_eq!(Data::from(1i32).typename(), "INT32");
    assert_eq!(Data::from(1i64).typename(), "INT64");
    assert_eq!(Data::float(0).typename(), "FLOAT64");
    assert_eq!(Data::from('c').typename(), "CHAR");
    assert_eq!(Data::from(text).typename(), "STRING");
    assert_eq!(Data::from(list).typename(), "LIST");
    assert_eq!(Data::from(table).typename(), "MAP");
    assert_eq!(Data::null().typename(), "NULL");
    assert_eq!(DataTypes::CHAR('\0').typename(), "CHAR");
}

#[test]
fn is_null_holds_of_null_only() {
    assert!(Data::null().is_null());
    assert!(!Data::from(0u8).is_null());
    assert!(!Data::from(false).is_null());
}

#[test]
fn primitives_render_in_their_natural_form() {
    let heap = Heap::new();
    assert_eq!(Data::from(true).tostr(&heap), "true");
    assert_eq!(Data::from(false).tostr(&heap), "false");
    assert_eq!(Data::from(0u8).tostr(&heap), "0");
    assert_eq!(Data::from(255u8).tostr(&heap), "255");
    assert_eq!(Data::from(65535u16).tostr(&heap), "65535");
    assert_eq!(Data::from(4294967295u32).tostr(&heap), "4294967295");
    assert_eq!(Data::from(u64::MAX).tostr(&heap), "18446744073709551615");
    assert_eq!(Data::from(-128i8).tostr(&heap), "-128");
    assert_eq!(Data::from(127i8).tostr(&heap), "127");
    assert_eq!(Data::from(-32768i16).tostr(&heap), "-32768");
    assert_eq!(Data::from(-2147483648i32).tostr(&heap), "-2147483648");
    assert_eq!(Data::from(i64::MIN).tostr(&heap), "-9223372036854775808");
    assert_eq!(Data::from(i64::MAX).tostr(&heap), "9223372036854775807");
    assert_eq!(Data::from(-1i64).tostr(&heap), "-1");
    assert_eq!(Data::from(10i32).tostr(&heap), "10");
    assert_eq!(Data::from(1000u32).tostr(&heap), "1000");
    assert_eq!(Data::from('x').tostr(&heap), "x");
    assert_eq!(Data::null().tostr(&heap), "NULL");
}

#[test]
fn a_float_renders_as_its_bit_pattern() {
    let heap = Heap::new();
    assert_eq!(Data::float(1.5f64.to_bits()).tostr(&heap), "0x3ff8000000000000");
    assert_eq!(Data::float(0).tostr(&heap), "0x0000000000000000");
    assert_eq!(Data::float(u64::MAX).tostr(&heap), "0xffffffffffffffff");
    assert_eq!(Data::float(0x0123_4567_89ab_cdef).tostr(&heap), "0x0123456789abcdef");
}

#[test]
fn a_sequence_renders_between_brackets() {
    let mut heap = Heap::new();
    let list = List::from(&mut heap, vec![Data::from(1i32), Data::from(2i32), Data::from(3i32)]);
    assert_eq!(list.tostr(&heap), "[1,2,3]");
    let empty = List::new(&mut heap);
    assert_eq!(empty.tostr(&heap), "[]");
    let one = List::from(&mut heap, vec![Data::null()]);
    assert_eq!(one.tostr(&heap), "[NULL]");
}

#[test]
fn containers_render_what_they_contain() {
    let mut heap = Heap::new();
    let text = String::from(&mut heap, "hi");
    let inner = List::from(&mut heap, vec![Data::from(1u8), Data::from(text)]);
    let mut table = Table::new(&mut heap);
    table.insert(&mut heap, "in", Data::from(inner));
    table.insert(&mut heap, "n", Data::from(-7i16));
    let outer = List::from(&mut heap, vec![Data::from(table), Data::from(true)]);
    assert_eq!(outer.tostr(&heap), "[{in: [1,hi], n: -7},true]");
    assert_eq!(Data::from(outer).tostr(&heap), "[{in: [1,hi], n: -7},true]");
}

#[test]
fn counting_on_a_primitive_does_nothing() {
    let mut heap = Heap::new();
    let mut value = Data::from(5u8);
    value.incrc(&mut heap);
    assert_eq!(value.getrc(&heap), 0);
    value.decrc(&mut heap);
    assert_eq!(value.getrc(&heap), 0);
    let copy = value.refcopy(&mut heap);
    assert_eq!(copy, value);
    copy.refdrop(&mut heap);
    assert_eq!(value, Data::from(5u8));
}

#[test]
fn counting_on_a_container_value_counts_on_its_storage() {
    let mut heap = Heap::new();
    let mut list = List::new(&mut heap);
    let mut value = Data::from(list.refcopy(&mut heap));
    assert_eq!(value.getrc(&heap), 2);
    value.incrc(&mut heap);
    assert_eq!(list.getrc(&heap), 3);
    value.decrc(&mut heap);
    assert_eq!(list.getrc(&heap), 2);
    let alias = value.refcopy(&mut heap);
    assert_eq!(alias, value);
    assert_eq!(list.getrc(&heap), 3);
    alias.refdrop(&mut heap);
    value.refdrop(&mut heap);
    assert_eq!(list.getrc(&heap), 1);
}

#[test]
fn a_deep_copy_of_a_value_copies_what_it_contains() {
    let mut heap = Heap::new();
    let mut inner = List::from(&mut heap, vec![Data::from(1u8)]);
    let inner_alias = inner.refcopy(&mut heap);
    let outer = List::from(&mut heap, vec![Data::from(inner), Data::from(2u8)]);
    let value = Data::from(outer);
    let copy = value.clone(&mut heap);
    assert_ne!(copy, value);
    assert_eq!(copy.tostr(&heap), "[[1],2]");
    let mut inner_alias = inner_alias;
    inner_alias.append(&mut heap, Data::from(9u8));
    assert_eq!(value.tostr(&heap), "[[1,9],2]");
    assert_eq!(copy.tostr(&heap), "[[1],2]");
    assert_eq!(copy.getrc(&heap), 1);
    assert_eq!(Data::from(7u8).clone(&mut heap), Data::from(7u8));
    assert_eq!(Data::null().clone(&mut heap), Data::null());
}

#[test]
fn within_tells_how_deep_a_value_goes() {
    let mut heap = Heap::new();
    let mut inner = List::from(&mut heap, vec![Data::from(1u8)]);
    let inner_alias = inner.refcopy(&mut heap);
    let mut outer = List::from(&mut heap, vec![Data::from(inner)]);
    let outer_alias = outer.refcopy(&mut heap);
    let value = Data::from(outer);
    assert!(Data::from(1u8).within(&heap, 0));
    assert!(!value.within(&heap, 0));
    assert!(!value.within(&heap, 1));
    assert!(value.within(&heap, 2));
    assert!(value.within(&heap, 3));
    let mut looped = List::new(&mut heap);
    let inside = looped.refcopy(&mut heap);
    looped.append(&mut heap, Data::from(inside));
    assert!(!Data::from(looped).within(&heap, 64));
    let text = String::from(&mut heap, "ab");
    assert!(Data::from(text).within(&heap, 0));
    let mut gone = List::new(&mut heap);
    let dangling = Data::from(gone.refcopy(&mut heap));
    gone.decrc(&mut heap);
    gone.refdrop(&mut heap);
    assert!(!dangling.within(&heap, 8));
    inner_alias.refdrop(&mut heap);
    outer_alias.refdrop(&mut heap);
}

#[test]
fn from_str_and_from_vec_allocate_the_container() {
    let mut heap = Heap::new();
    let text = Data::from_str(&mut heap, "hi");
    assert_eq!(text.typename(), "STRING");
    assert_eq!(text.tostr(&heap), "hi");
    assert_eq!(text.getrc(&heap), 1);
    let list = Data::from_vec(&mut heap, vec![Data::from(1i32), text]);
    assert_eq!(list.typename(), "LIST");
    assert_eq!(list.tostr(&heap), "[1,hi]");
    assert_eq!(list.getrc(&heap), 1);
}

fn joined(pieces: Vec<Piece>) -> std::string::String {
    let mut out = std::string::String::new();
    for piece in pieces {
        match piece {
            Piece::Text(text) => out.push_str(&text),
            Piece::Float(bits) => out.push_str(&f64::from_bits(bits).to_string()),
        }
    }
    out
}

fn floats(pieces: &[Piece]) -> Vec<u64> {
    let mut out = Vec::new();
    for piece in pieces {
        if let Piece::Float(bits) = piece {
            out.push(*bits);
        }
    }
    out
}

#[test]
fn pieces_leave_each_float_as_its_bits() {
    let mut heap = Heap::new();
    let inner = List::from(&mut heap, vec![Data::float(0.1f64.to_bits()), Data::from('x')]);
    let mut table = Table::new(&mut heap);
    table.insert(&mut heap, "pi", Data::float(3.25f64.to_bits()));
    table.insert(&mut heap, "in", Data::from(inner));
    table.insert(&mut heap, "gone", Data::null());
    let outer = List::from(
        &mut heap,
        vec![Data::from(1i32), Data::float(1.5f64.to_bits()), Data::from(table)],
    );
    let value = Data::from(outer);
    let pieces = value.pieces(&heap);
    assert_eq!(floats(&pieces), vec![1.5f64.to_bits(), 3.25f64.to_bits(), 0.1f64.to_bits()]);
    assert_eq!(joined(pieces), "[1,1.5,{pi: 3.25, in: [0.1,x]}]");
    assert_eq!(
        value.tostr(&heap),
        "[1,0x3ff8000000000000,{pi: 0x400a000000000000, in: [0x3fb999999999999a,x]}]"
    );
}

#[test]
fn pieces_of_a_value_without_floats_are_its_text() {
    let mut heap = Heap::new();
    let text = String::from(&mut heap, "hi");
    let list = List::from(&mut heap, vec![Data::from(true), Data::from(text), Data::null()]);
    let value = Data::from(list);
    let pieces = value.pieces(&heap);
    assert!(floats(&pieces).is_empty());
    assert_eq!(joined(pieces), value.tostr(&heap));
    assert_eq!(value.tostr(&heap), "[true,hi,NULL]");
    assert_eq!(joined(Data::from(7u8).pieces(&heap)), "7");
    let alone = Data::float((-2.5f64).to_bits()).pieces(&heap);
    assert_eq!(floats(&alone), vec![(-2.5f64).to_bits()]);
    assert_eq!(joined(alone), "-2.5");
}
