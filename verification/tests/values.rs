use water::format::{decimal_bytes, hex_bytes};
use water::heap::{Heap, ObjectKind};
use water::value::{
    is_bool, is_int, is_pointer, tag_bool, tag_int, tag_pointer, untag_bool, untag_int,
    untag_pointer,
};

#[test]
fn int_roundtrip() {
    for n in [0i64, 1, -1, 42, -42, (1i64 << 60) - 1, -(1i64 << 60)] {
        let v = tag_int(n);
        assert!(is_int(v));
        assert!(!is_bool(v));
        assert!(!is_pointer(v));
        assert_eq!(untag_int(v), n);
    }
    assert_eq!(tag_int(5), 41);
}

#[test]
fn bool_roundtrip() {
    assert_eq!(tag_bool(true), 0b1011);
    assert_eq!(tag_bool(false), 0b0011);
    assert!(untag_bool(tag_bool(true)));
    assert!(!untag_bool(tag_bool(false)));
    assert!(is_bool(tag_bool(true)));
}

#[test]
fn pointer_roundtrip() {
    let v = tag_pointer(64);
    assert!(is_pointer(v));
    assert_eq!(untag_pointer(v), 64);
}

#[test]
fn decimal_and_hex() {
    assert_eq!(decimal_bytes(0), b"0".to_vec());
    assert_eq!(decimal_bytes(-1234), b"-1234".to_vec());
    assert_eq!(decimal_bytes(i64::MIN), b"-9223372036854775808".to_vec());
    assert_eq!(hex_bytes(255), b"ff".to_vec());
    assert_eq!(hex_bytes(0), b"0".to_vec());
}

#[test]
fn heap_allocates_with_header() {
    let mut h = Heap::new(64);
    let a = h.allocate(ObjectKind::Array, 10).unwrap();
    assert_eq!(a, 0);
    assert_eq!(h.get_kind(a), 1);
    assert_eq!(h.get_size(a), 10);
    assert!(!h.get_mark(a));
    assert_eq!(h.data_ptr(a), 16);
    let b = h.allocate(ObjectKind::String, 3).unwrap();
    // 16 header bytes and 10 data bytes, rounded up to 32.
    assert_eq!(b, 32);
    assert_eq!(h.get_kind(b), 0);
    assert_eq!(h.allocate(ObjectKind::String, 100), None);
}

#[test]
fn heap_read_after_write() {
    let mut h = Heap::new(32);
    h.write_u64(8, 0x0102_0304_0506_0708);
    assert_eq!(h.read_u64(8), 0x0102_0304_0506_0708);
    assert_eq!(h.read_bytes(8, 2), &[8u8, 7u8][..]);
    h.write_bytes(0, b"hi");
    assert_eq!(h.read_bytes(0, 2), b"hi");
    assert_eq!(h.read_u64(8), 0x0102_0304_0506_0708);
    assert_eq!(h.capacity(), 32);
}

#[test]
fn heap_mark_roundtrip() {
    let mut h = Heap::new(32);
    let a = h.allocate(ObjectKind::String, 1).unwrap();
    h.set_mark(a, true);
    assert!(h.get_mark(a));
    assert_eq!(h.get_size(a), 1);
    h.set_mark(a, false);
    assert!(!h.get_mark(a));
}
