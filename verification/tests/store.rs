use redis_starter_rust::store::Store;

#[test]
fn set_then_get_returns_value() {
    let mut store = Store::new();
    store.set("k".to_string(), "v".to_string(), None, 0);
    assert_eq!(store.get("k", 0).map(String::as_str), Some("v"));
    // without an expiry the key persists at any later time
    assert_eq!(store.get("k", u64::MAX).map(String::as_str), Some("v"));
}

#[test]
fn get_of_absent_key_is_none() {
    let store = Store::new();
    assert_eq!(store.get("missing", 0), None);
}

#[test]
fn set_overwrites_value() {
    let mut store = Store::new();
    store.set("k".to_string(), "v1".to_string(), None, 0);
    store.set("k".to_string(), "v2".to_string(), None, 1);
    assert_eq!(store.get("k", 2).map(String::as_str), Some("v2"));
}

#[test]
fn ttl_expires_strictly_after_deadline() {
    let mut store = Store::new();
    store.set("k".to_string(), "v".to_string(), Some(100), 0);
    assert_eq!(store.get("k", 0).map(String::as_str), Some("v"));
    assert_eq!(store.get("k", 50).map(String::as_str), Some("v"));
    // the deadline itself is not yet expired: the comparison is strict
    assert_eq!(store.get("k", 100).map(String::as_str), Some("v"));
    assert_eq!(store.get("k", 101), None);
}

#[test]
fn ttl_zero_expires_immediately_after() {
    let mut store = Store::new();
    store.set("k".to_string(), "v".to_string(), Some(0), 10);
    assert_eq!(store.get("k", 10).map(String::as_str), Some("v"));
    assert_eq!(store.get("k", 11), None);
}

#[test]
fn reset_without_px_clears_expiry() {
    let mut store = Store::new();
    store.set("k".to_string(), "v1".to_string(), Some(10), 0);
    store.set("k".to_string(), "v2".to_string(), None, 5);
    assert_eq!(store.get("k", 1_000_000).map(String::as_str), Some("v2"));
}

#[test]
fn reset_with_px_replaces_expiry() {
    let mut store = Store::new();
    store.set("k".to_string(), "v".to_string(), None, 0);
    store.set("k".to_string(), "v".to_string(), Some(10), 0);
    assert_eq!(store.get("k", 11), None);
}

#[test]
fn sweep_removes_exactly_the_expired() {
    let mut store = Store::new();
    store.set("persistent".to_string(), "a".to_string(), None, 0);
    store.set("short".to_string(), "b".to_string(), Some(50), 0);
    store.set("long".to_string(), "c".to_string(), Some(500), 0);
    store.clean_expired_keys(100);
    assert_eq!(store.get("persistent", 100).map(String::as_str), Some("a"));
    assert_eq!(store.get("short", 100), None);
    assert_eq!(store.get("long", 100).map(String::as_str), Some("c"));
    // the survivors keep their own deadlines
    assert_eq!(store.get("long", 501), None);
}

#[test]
fn sweep_of_empty_store_is_harmless() {
    let mut store = Store::new();
    store.clean_expired_keys(0);
    assert_eq!(store.get("k", 0), None);
}

#[test]
fn config_get_dir_and_dbfilename() {
    let mut store = Store::new();
    assert_eq!(store.get_config("dir"), None);
    assert_eq!(store.get_config("dbfilename"), None);
    store.set_rdb_dir("/data".to_string());
    store.set_rdb_file_name("dump.rdb".to_string());
    assert_eq!(store.get_config("dir").map(String::as_str), Some("/data"));
    assert_eq!(
        store.get_config("dbfilename").map(String::as_str),
        Some("dump.rdb")
    );
}

#[test]
fn config_get_unknown_key_is_none() {
    let mut store = Store::new();
    store.set_rdb_dir("/data".to_string());
    assert_eq!(store.get_config("port"), None);
    // configuration keys match exactly, not case-insensitively
    assert_eq!(store.get_config("DIR"), None);
}
