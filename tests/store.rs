use redis_lite::snapshot::{DataType, RdbReader};
use redis_lite::store::{Lookup, Store, NUM_DATABASES};

const MS: u128 = 1_000_000;

fn text(v: Option<DataType>) -> Option<String> {
    match v {
        Some(DataType::String(s)) => Some(s),
        Some(_) => panic!("expected a string value"),
        None => None,
    }
}

#[test]
fn ttl_expires_lazily() {
    let mut store = Store::new();
    let t0: u128 = 1_000 * MS;
    store.set(0, "k".to_string(), "v".to_string(), Some(50 * MS), t0);
    assert_eq!(text(store.get(0, &"k".to_string(), t0)), Some("v".to_string()));
    assert_eq!(store.list_keys(0).unwrap(), vec!["k".to_string()]);
    let later = t0 + 60 * MS;
    assert!(matches!(store.lookup(0, &"k".to_string(), later), Lookup::Expired));
    assert_eq!(store.list_keys(0).unwrap(), vec!["k".to_string()]);
    assert_eq!(text(store.get(0, &"k".to_string(), later)), None);
    assert!(store.list_keys(0).unwrap().is_empty());
}

#[test]
fn set_then_get_in_every_namespace() {
    let mut store = Store::new();
    for db in 0..NUM_DATABASES {
        let key = format!("key{}", db);
        store.set(db, key.clone(), format!("value{}", db), None, 5);
        assert_eq!(text(store.get(db, &key, u128::MAX)), Some(format!("value{}", db)));
    }
}

#[test]
fn zero_ttl_is_expired_at_any_later_instant() {
    let mut store = Store::new();
    store.set(3, "k".to_string(), "v".to_string(), Some(0), 100);
    assert_eq!(text(store.get(3, &"k".to_string(), 101)), None);
}

#[test]
fn set_without_ttl_clears_an_earlier_ttl() {
    let mut store = Store::new();
    store.set(1, "k".to_string(), "a".to_string(), Some(10), 0);
    store.set(1, "k".to_string(), "b".to_string(), None, 0);
    assert_eq!(text(store.get(1, &"k".to_string(), 1_000)), Some("b".to_string()));
}

#[test]
fn namespaces_are_separate() {
    let mut store = Store::new();
    store.set(0, "k".to_string(), "zero".to_string(), None, 0);
    store.set(15, "k".to_string(), "fifteen".to_string(), None, 0);
    assert_eq!(text(store.get(0, &"k".to_string(), 0)), Some("zero".to_string()));
    assert_eq!(text(store.get(15, &"k".to_string(), 0)), Some("fifteen".to_string()));
    assert_eq!(text(store.get(7, &"k".to_string(), 0)), None);
}

#[test]
fn namespace_out_of_range() {
    let mut store = Store::new();
    store.set(16, "k".to_string(), "v".to_string(), None, 0);
    assert_eq!(text(store.get(16, &"k".to_string(), 0)), None);
    assert!(store.list_keys(16).is_none());
    for db in 0..NUM_DATABASES {
        assert!(store.list_keys(db).unwrap().is_empty());
    }
}

#[test]
fn eviction_is_idempotent() {
    let mut store = Store::new();
    store.set(2, "k".to_string(), "v".to_string(), None, 0);
    store.evict(2, &"k".to_string());
    store.evict(2, &"k".to_string());
    store.evict(2, &"absent".to_string());
    assert!(store.list_keys(2).unwrap().is_empty());
}

#[test]
fn load_replaces_everything() {
    let mut store = Store::new();
    store.set(0, "old".to_string(), "x".to_string(), None, 0);
    let mut data = b"REDIS0011".to_vec();
    data.extend_from_slice(&[0xFE, 0x00, 0x00, 0x03]);
    data.extend_from_slice(b"foo");
    data.push(0x03);
    data.extend_from_slice(b"bar");
    data.push(0xFC);
    data.extend_from_slice(&2_000u64.to_le_bytes());
    data.extend_from_slice(&[0x00, 0x01, b't', 0x01, b'1']);
    data.push(0xFF);
    data.extend_from_slice(&[0; 8]);
    let rdb = RdbReader::read(&data).unwrap();
    store.load(&rdb);
    assert_eq!(text(store.get(0, &"old".to_string(), 0)), None);
    assert_eq!(text(store.get(0, &"foo".to_string(), u128::MAX)), Some("bar".to_string()));
    assert_eq!(text(store.get(0, &"t".to_string(), 2_000 * MS)), Some("1".to_string()));
    assert_eq!(text(store.get(0, &"t".to_string(), 2_000 * MS + 1)), None);
}

#[test]
fn zero_ttl_is_expired_at_the_same_instant() {
    let mut store = Store::new();
    store.set(0, "k".to_string(), "v".to_string(), Some(0), 1_000);
    assert_eq!(text(store.get(0, &"k".to_string(), 1_000)), None);
    assert!(store.list_keys(0).unwrap().is_empty());
}

#[test]
fn positive_ttl_lasts_through_its_expiry_instant() {
    let mut store = Store::new();
    store.set(0, "k".to_string(), "v".to_string(), Some(50), 1_000);
    assert_eq!(text(store.get(0, &"k".to_string(), 1_050)), Some("v".to_string()));
    assert_eq!(text(store.get(0, &"k".to_string(), 1_051)), None);
}
