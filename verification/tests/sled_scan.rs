use learn::pb::codec::encode_value;
use learn::storage::sleddb::{ivec_to_key, pairs_from_scan, scan_check};
use learn::{KvError, Kvpair, Sleddb};

#[test]
fn a_scan_of_readable_entries_can_be_listed() {
    let items = vec![Ok((b"t:a".to_vec(), encode_value(&1i64.into())))];
    assert!(matches!(scan_check(&items), Ok(true)));
}

#[test]
fn a_key_that_is_not_text_with_a_decodable_value_cannot_be_listed() {
    let items = vec![
        Ok((b"t:a".to_vec(), encode_value(&1i64.into()))),
        Ok((vec![b't', b':', 0xFF], encode_value(&2i64.into()))),
    ];
    assert!(matches!(scan_check(&items), Ok(false)));
}

#[test]
fn a_key_that_is_not_text_with_an_undecodable_value_stands_for_the_empty_pair() {
    let items = vec![Ok((vec![b't', b':', 0xFF], vec![7]))];
    assert!(matches!(scan_check(&items), Ok(true)));
    assert_eq!(pairs_from_scan(&items), vec![Kvpair::default()]);
}

#[test]
fn a_failed_scan_step_is_a_storage_error_and_an_empty_pair() {
    let items = vec![Err(sled::Error::Unsupported("gone".into()))];
    assert!(matches!(scan_check(&items), Err(KvError::StorageError(_))));
    assert_eq!(pairs_from_scan(&items), vec![Kvpair::default()]);
}

#[test]
fn taking_the_key_back_undoes_building_the_full_key() {
    let full = Sleddb::get_full_key("table", "key");
    assert_eq!(ivec_to_key(full.as_bytes()), "key");
}
