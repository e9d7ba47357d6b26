use protohackers::unusual_database::Store;

#[test]
fn insert_then_retrieve() {
    let mut store = Store::new();
    assert_eq!(store.handle(b"foo=bar"), None);
    assert_eq!(store.handle(b"foo"), Some(b"foo=bar".to_vec()));
    assert_eq!(store.handle(b"foo=baz"), None);
    assert_eq!(store.handle(b"foo"), Some(b"foo=baz".to_vec()));
}

#[test]
fn unknown_key_has_no_value() {
    let mut store = Store::new();
    assert_eq!(store.handle(b"foo"), Some(b"foo=".to_vec()));
    assert_eq!(store.handle(b""), Some(b"=".to_vec()));
}

#[test]
fn only_the_first_equals_sign_parts() {
    let mut store = Store::new();
    assert_eq!(store.handle(b"foo=bar=baz"), None);
    assert_eq!(store.handle(b"foo"), Some(b"foo=bar=baz".to_vec()));
    assert_eq!(store.handle(b"foo==="), None);
    assert_eq!(store.handle(b"foo"), Some(b"foo===".to_vec()));
    assert_eq!(store.handle(b"foo="), None);
    assert_eq!(store.handle(b"foo"), Some(b"foo=".to_vec()));
}

#[test]
fn empty_key() {
    let mut store = Store::new();
    assert_eq!(store.handle(b"=foo"), None);
    assert_eq!(store.handle(b""), Some(b"=foo".to_vec()));
}

#[test]
fn version_cannot_be_set() {
    let mut store = Store::new();
    assert_eq!(store.handle(b"version"), Some(b"version=Ken's Key-Value Store 1.0".to_vec()));
    assert_eq!(store.handle(b"version=mine"), None);
    assert_eq!(store.handle(b"version"), Some(b"version=Ken's Key-Value Store 1.0".to_vec()));
    assert_eq!(store.handle(b"Version=mine"), None);
    assert_eq!(store.handle(b"Version"), Some(b"Version=mine".to_vec()));
}

#[test]
fn keys_are_kept_apart() {
    let mut store = Store::new();
    for i in 0..50 {
        let message = format!("key{}=value{}", i, i);
        assert_eq!(store.handle(message.as_bytes()), None);
    }
    store.handle(b"key7=seven");
    for i in 0..50 {
        let key = format!("key{}", i);
        let expected = if i == 7 { "key7=seven".to_string() } else { format!("key{}=value{}", i, i) };
        assert_eq!(store.handle(key.as_bytes()), Some(expected.into_bytes()));
    }
}
