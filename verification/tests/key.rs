use mini_lsm::key::compare_keys;
use mini_lsm::key::KeyOrder;

#[test]
fn compare_keys_orders_by_first_difference() {
    assert_eq!(compare_keys(b"abc", b"abd"), KeyOrder::Less);
    assert_eq!(compare_keys(b"abd", b"abc"), KeyOrder::Greater);
    assert_eq!(compare_keys(b"b", b"abc"), KeyOrder::Greater);
    assert_eq!(compare_keys(&[0x00, 0xff], &[0x01, 0x00]), KeyOrder::Less);
}

#[test]
fn compare_keys_puts_a_prefix_first() {
    assert_eq!(compare_keys(b"ab", b"abc"), KeyOrder::Less);
    assert_eq!(compare_keys(b"abc", b"ab"), KeyOrder::Greater);
    assert_eq!(compare_keys(b"", b"a"), KeyOrder::Less);
}

#[test]
fn compare_keys_finds_equal_keys_equal() {
    assert_eq!(compare_keys(b"abc", b"abc"), KeyOrder::Equal);
    assert_eq!(compare_keys(b"", b""), KeyOrder::Equal);
}

#[test]
fn compare_keys_agrees_with_slice_order() {
    let keys: Vec<&[u8]> = vec![b"", b"a", b"aa", b"ab", b"b", b"ba", &[0xff], &[0xff, 0x00]];
    for a in &keys {
        for b in &keys {
            let expected = match a.cmp(b) {
                std::cmp::Ordering::Less => KeyOrder::Less,
                std::cmp::Ordering::Equal => KeyOrder::Equal,
                std::cmp::Ordering::Greater => KeyOrder::Greater,
            };
            assert_eq!(compare_keys(a, b), expected);
        }
    }
}
