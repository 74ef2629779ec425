use tylsmdb::key::{bytes_less, compare_user_key, internal_key_less, InternalKey, ValueType};

#[test]
fn internal_key_orders_user_key_asc_and_sequence_desc() {
    let mut keys = [
        InternalKey::new(b"a".to_vec(), 7, ValueType::Put),
        InternalKey::new(b"a".to_vec(), 9, ValueType::Put),
        InternalKey::new(b"b".to_vec(), 1, ValueType::Put),
    ];

    keys.sort();

    assert_eq!(keys[0].sequence(), 9);
    assert_eq!(keys[1].sequence(), 7);
    assert_eq!(keys[2].user_key(), b"b");
}

#[test]
fn verified_order_agrees_with_sorting() {
    let a9 = InternalKey::new(b"a".to_vec(), 9, ValueType::Put);
    let a7 = InternalKey::new(b"a".to_vec(), 7, ValueType::Put);
    let b1 = InternalKey::new(b"b".to_vec(), 1, ValueType::Put);
    assert!(internal_key_less(&a9, &a7));
    assert!(internal_key_less(&a7, &b1));
    assert!(!internal_key_less(&b1, &a9));
    assert!(!internal_key_less(&a7, &a7));
}

#[test]
fn user_keys_compare_bytewise_with_prefix_first() {
    assert!(bytes_less(b"ab", b"abc"));
    assert!(bytes_less(b"abc", b"abd"));
    assert!(!bytes_less(b"b", b"abc"));
    assert_eq!(compare_user_key(b"x", b"x"), std::cmp::Ordering::Equal);
    assert_eq!(compare_user_key(b"a", b"b"), std::cmp::Ordering::Less);
    assert_eq!(compare_user_key(b"ba", b"b"), std::cmp::Ordering::Greater);
}

#[test]
fn value_type_codes() {
    assert_eq!(ValueType::Put.code(), 1);
    assert_eq!(ValueType::Delete.code(), 2);
}
