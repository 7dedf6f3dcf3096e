use learn::storage::sleddb::flip;
use learn::{Kvpair, MemTable, Sleddb, Storage, Value};
use tempfile::tempdir;

fn test_base_interface(mut store: impl Storage) {
    let v = store.set("t1", "hello", "world".into());
    assert!(v.unwrap().is_none());
    let v1 = store.set("t1", "hello", "world1".into());
    assert_eq!(v1.unwrap(), Some("world".into()));
    let v = store.get("t1", "hello");
    assert_eq!(v.unwrap(), Some("world1".into()));
    assert_eq!(None, store.get("t1", "hello1").unwrap());
    assert!(store.get("t2", "hello").unwrap().is_none());

    assert!(store.contains("t1", "hello").unwrap());
    assert!(!store.contains("t1", "hello1").unwrap());
    assert!(!store.contains("t2", "hello").unwrap());

    let v = store.del("t1", "hello");
    assert_eq!(v.unwrap(), Some("world1".into()));

    assert_eq!(None, store.del("t1", "hello1").unwrap());
    assert_eq!(None, store.del("t1", "hello").unwrap());
}

fn test_get_all(mut store: impl Storage) {
    store.set("t2", "k1", "v1".into()).unwrap();
    store.set("t2", "k2", "v2".into()).unwrap();
    let mut data = store.get_all("t2").unwrap();
    data.sort_by(|a, b| a.partial_cmp(b).unwrap());
    assert_eq!(
        data,
        vec![Kvpair::new("k1", "v1".into()), Kvpair::new("k2", "v2".into())]
    )
}

fn test_get_iter(mut store: impl Storage) {
    store.set("t2", "k1", "v1".into()).unwrap();
    store.set("t2", "k2", "v2".into()).unwrap();
    let mut data: Vec<_> = store.get_iter("t2").unwrap().collect_rest();
    data.sort_by(|a, b| a.partial_cmp(b).unwrap());
    assert_eq!(
        data,
        vec![Kvpair::new("k1", "v1".into()), Kvpair::new("k2", "v2".into())]
    )
}

fn open_sled(dir: &tempfile::TempDir) -> Sleddb {
    Sleddb::new(dir.path().to_str().unwrap()).unwrap()
}

#[test]
fn mem_table_base_interface_should_work() {
    let store = MemTable::new();
    test_base_interface(store);
}

#[test]
fn mem_table_get_all_should_work() {
    let store = MemTable::new();
    test_get_all(store);
}

#[test]
fn mem_table_get_get_iter_should_work() {
    let store = MemTable::new();
    test_get_iter(store);
}

#[test]
fn sleddb_table_base_interface_should_work() {
    let dir = tempdir().unwrap();
    let store = open_sled(&dir);
    test_base_interface(store);
}

#[test]
fn sleddb_table_get_all_should_work() {
    let dir = tempdir().unwrap();
    let store = open_sled(&dir);
    test_get_all(store);
}

#[test]
fn sleddb_table_get_get_iter_should_work() {
    let dir = tempdir().unwrap();
    let store = open_sled(&dir);
    test_get_iter(store);
}

#[test]
fn mem_table_keeps_tables_apart() {
    let mut store = MemTable::new();
    store.set("a", "k", "1".into()).unwrap();
    store.set("b", "k", "2".into()).unwrap();
    assert_eq!(store.get("a", "k").unwrap(), Some("1".into()));
    assert_eq!(store.get("b", "k").unwrap(), Some("2".into()));
    let all = store.get_all("a").unwrap();
    assert_eq!(all, vec![Kvpair::new("k", "1".into())]);
    assert!(store.get_all("c").unwrap().is_empty());
}

#[test]
fn mem_table_read_after_write_and_delete() {
    let mut store = MemTable::new();
    assert_eq!(store.set("t", "k", Value::from(7i64)).unwrap(), None);
    assert_eq!(store.get("t", "k").unwrap(), Some(Value::from(7i64)));
    assert_eq!(store.set("t", "k", Value::from(true)).unwrap(), Some(Value::from(7i64)));
    assert_eq!(store.del("t", "k").unwrap(), Some(Value::from(true)));
    assert_eq!(store.get("t", "k").unwrap(), None);
    assert!(!store.contains("t", "k").unwrap());
}

#[test]
fn mem_table_stores_empty_value() {
    let mut store = MemTable::new();
    store.set("t", "k", Value::default()).unwrap();
    assert!(store.contains("t", "k").unwrap());
    assert_eq!(store.get("t", "k").unwrap(), Some(Value::default()));
}

#[test]
fn sleddb_keeps_values_of_every_kind() {
    let dir = tempdir().unwrap();
    let mut store = open_sled(&dir);
    let values = vec![
        Value::default(),
        Value::from("text"),
        Value::from(-5i64),
        Value::from(false),
        Value { value: Some(learn::value::Value::Binary(vec![0, 255, 7])) },
        Value { value: Some(learn::value::Value::Float(1.5f64.to_bits())) },
    ];
    for (i, v) in values.iter().enumerate() {
        let key = format!("k{}", i);
        store.set("t", &key, v.clone()).unwrap();
    }
    for (i, v) in values.iter().enumerate() {
        let key = format!("k{}", i);
        assert_eq!(store.get("t", &key).unwrap(), Some(v.clone()));
    }
}

#[test]
fn sleddb_full_keys_can_collide_across_tables() {
    let dir = tempdir().unwrap();
    let mut store = open_sled(&dir);
    store.set("a:b", "c", "first".into()).unwrap();
    // Table "a" with key "b:c" has the same full key "a:b:c".
    assert_eq!(store.get("a", "b:c").unwrap(), Some("first".into()));
}

#[test]
fn sleddb_listing_cuts_keys_at_the_next_colon() {
    let dir = tempdir().unwrap();
    let mut store = open_sled(&dir);
    store.set("t", "x:y", "v".into()).unwrap();
    assert!(matches!(store.can_list("t"), Ok(true)));
    assert_eq!(store.get_all("t").unwrap(), vec![Kvpair::new("x", "v".into())]);
}

#[test]
fn sleddb_keys_and_prefixes() {
    assert_eq!(Sleddb::get_full_key("t1", "k1"), "t1:k1");
    assert_eq!(Sleddb::get_table_prefix("t1"), "t1:");
    assert_eq!(learn::storage::sleddb::ivec_to_key(b"t1:k1"), "k1");
    assert_eq!(learn::storage::sleddb::ivec_to_key(b"t1:k1:rest"), "k1");
    assert_eq!(learn::storage::sleddb::ivec_to_key(b"t1:"), "");
}

#[test]
fn flip_moves_the_result_out() {
    assert_eq!(flip::<i32, i32>(None), Ok(None));
    assert_eq!(flip::<i32, i32>(Some(Ok(3))), Ok(Some(3)));
    assert_eq!(flip::<i32, i32>(Some(Err(4))), Err(4));
}

#[test]
fn storage_iter_hands_out_in_order() {
    let mut it = learn::StorageIter::new(vec![1, 2, 3]);
    assert_eq!(it.next(), Some(1));
    assert_eq!(it.next(), Some(2));
    assert_eq!(it.collect_rest(), vec![3]);
    let mut empty = learn::StorageIter::<u8>::new(vec![]);
    assert_eq!(empty.next(), None);
}
