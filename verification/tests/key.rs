use iradix::key::RadixKey;

fn collect<K: RadixKey + ?Sized>(key: &K) -> Vec<K::Owned> {
    key.components()
}

#[test]
fn slice_components_in_order() {
    let key: &[u8] = b"abc";
    assert_eq!(collect(key), vec![b'a', b'b', b'c']);
}

#[test]
fn vec_components_in_order() {
    let key: Vec<u8> = b"xyz".to_vec();
    assert_eq!(collect(&key), vec![b'x', b'y', b'z']);
}

#[test]
fn str_components_are_chars() {
    let key = "ab€";
    assert_eq!(collect(key), vec!['a', 'b', '€']);
}

#[test]
fn str_aliases_vec_char() {
    let s = "héllo";
    let v: Vec<char> = "héllo".chars().collect();
    assert_eq!(collect(s), collect(&v));
}

#[test]
fn empty_keys_yield_no_components() {
    let empty_slice: &[u8] = &[];
    let empty_vec: Vec<u8> = Vec::new();
    assert!(empty_slice.components().is_empty());
    assert!(empty_vec.components().is_empty());
    assert!("".components().is_empty());
}

#[test]
fn string_aliases_str() {
    let s = String::from("héllo");
    assert_eq!(collect(&s), collect("héllo"));
}

#[test]
fn array_and_box_slice_are_element_keyed() {
    let arr: [u8; 3] = [1, 2, 3];
    assert_eq!(collect(&arr), vec![1u8, 2, 3]);
    let bx: Box<[u8]> = vec![4u8, 5].into_boxed_slice();
    assert_eq!(collect(&bx), vec![4u8, 5]);
}

#[test]
fn unsigned_int_is_big_endian_and_order_preserving() {
    assert_eq!(collect(&0x0102_0304u32), vec![0x01u8, 0x02, 0x03, 0x04]);
    assert!(collect(&1u32) < collect(&2u32));
    assert!(collect(&255u32) < collect(&256u32));
}

#[test]
fn signed_int_is_order_preserving_across_zero() {
    assert!(collect(&i32::MIN) < collect(&-1i32));
    assert!(collect(&-1i32) < collect(&0i32));
    assert!(collect(&0i32) < collect(&1i32));
    assert!(collect(&1i32) < collect(&i32::MAX));
}

#[test]
fn integer_encoding_is_per_type_only() {
    assert_eq!(collect(&0i8), collect(&128u8));
    assert_eq!(collect(&-1i8), collect(&127u8));
    assert!(collect(&256u16) < collect(&255u8));
}
