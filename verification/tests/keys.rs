use grug::keys::{
    encode_length, extend_one_byte, increment_last_byte, nested_namespaces_with_key, trim,
};

#[test]
fn encode_length_is_big_endian() {
    assert_eq!(encode_length(b"abc"), [0, 3]);
    assert_eq!(encode_length(&vec![7u8; 300]), [1, 44]);
    assert_eq!(encode_length(&vec![0u8; 0xffff]), [0xff, 0xff]);
}

#[test]
fn nested_namespaces_with_key_layout() {
    let out = nested_namespaces_with_key(Some(b"ns"), &[b"a".to_vec(), b"bc".to_vec()], Some(b"key"));
    assert_eq!(out, b"\x00\x02ns\x00\x01a\x00\x02bckey".to_vec());
    let no_ns = nested_namespaces_with_key(None, &[b"a".to_vec()], None);
    assert_eq!(no_ns, b"\x00\x01a".to_vec());
    assert!(nested_namespaces_with_key(None, &[], None).is_empty());
}

#[test]
fn concat_then_trim() {
    let joined = grug::keys::concat(b"prefix", b"key");
    assert_eq!(joined, b"prefixkey".to_vec());
    assert_eq!(trim(b"prefix", &joined), b"key".to_vec());
}

#[test]
fn extend_one_byte_appends_zero() {
    assert_eq!(extend_one_byte(b"ab".to_vec()), b"ab\x00".to_vec());
    assert_eq!(extend_one_byte(vec![]), vec![0]);
}

#[test]
fn increment_last_byte_carries() {
    assert_eq!(increment_last_byte(vec![1, 2, 3]), vec![1, 2, 4]);
    assert_eq!(increment_last_byte(vec![1, 2, 255]), vec![1, 3, 0]);
    assert_eq!(increment_last_byte(vec![1, 255, 255]), vec![2, 0, 0]);
    assert_eq!(increment_last_byte(vec![255, 255]), vec![0, 0]);
    assert_eq!(increment_last_byte(vec![]), Vec::<u8>::new());
}

#[test]
fn increment_bounds_keys_under_prefix() {
    let p = b"\x00\x03bal".to_vec();
    let end = increment_last_byte(p.clone());
    let under = grug::keys::concat(&p, b"anything\xff\xff");
    assert!(under.as_slice() >= p.as_slice() && under.as_slice() < end.as_slice());
    let next = b"\x00\x03bam".to_vec();
    assert!(!(next.as_slice() < end.as_slice()));
}
