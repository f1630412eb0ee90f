use integrity_checker::keys::{compare_keys, KeyOrder};

#[test]
fn equal_keys_compare_equal() {
    assert_eq!(compare_keys(b"notes.txt", b"notes.txt"), KeyOrder::Equal);
    assert_eq!(compare_keys(b"", b""), KeyOrder::Equal);
}

#[test]
fn a_proper_prefix_comes_first() {
    assert_eq!(compare_keys(b"doc", b"docs"), KeyOrder::Less);
    assert_eq!(compare_keys(b"docs", b"doc"), KeyOrder::Greater);
    assert_eq!(compare_keys(b"", b"a"), KeyOrder::Less);
    assert_eq!(compare_keys(b"a", b""), KeyOrder::Greater);
}

#[test]
fn the_first_differing_byte_decides() {
    assert_eq!(compare_keys(b"abc", b"abd"), KeyOrder::Less);
    assert_eq!(compare_keys(b"abd", b"abc"), KeyOrder::Greater);
    assert_eq!(compare_keys(b"b", b"abc"), KeyOrder::Greater);
    assert_eq!(compare_keys(b"Zebra", b"apple"), KeyOrder::Less);
}

#[test]
fn bytes_are_compared_unsigned() {
    assert_eq!(compare_keys(b"\x7f", b"\x80"), KeyOrder::Less);
    assert_eq!(compare_keys(b"\xff", b"\x00"), KeyOrder::Greater);
    assert_eq!(compare_keys("é".as_bytes(), b"z"), KeyOrder::Greater);
}
