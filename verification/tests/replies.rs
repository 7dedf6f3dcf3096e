use learn::service::command_service::{
    hexist_reply_of, hget_reply_of, listing_reply_of, presence_value_of, value_of_answer,
    write_reply_of,
};
use learn::{CommandResponse, KvError, Kvpair, Value};

fn ok_values(values: Vec<Value>) -> CommandResponse {
    CommandResponse { status: 200, message: String::new(), values, pairs: vec![] }
}

fn failure(status: u32, message: &str) -> CommandResponse {
    CommandResponse { status, message: message.into(), values: vec![], pairs: vec![] }
}

#[test]
fn hget_reply_carries_the_found_value() {
    let r = hget_reply_of(Ok(Some("v".into())), "t", "k");
    assert_eq!(r, ok_values(vec!["v".into()]));
}

#[test]
fn hget_reply_for_a_missing_key_is_not_found() {
    let r = hget_reply_of(Ok(None), "t", "k");
    assert_eq!(r, failure(404, "Not found: table t,key k"));
}

#[test]
fn hget_reply_for_a_storage_error_is_that_error() {
    let r = hget_reply_of(Err(KvError::StorageError("disk".into())), "t", "k");
    assert_eq!(r, failure(500, "Storage error: disk"));
}

#[test]
fn write_reply_gives_the_replaced_value_or_the_empty_one() {
    assert_eq!(write_reply_of(Ok(Some(7i64.into()))), ok_values(vec![7i64.into()]));
    assert_eq!(write_reply_of(Ok(None)), ok_values(vec![Value::default()]));
    assert_eq!(
        write_reply_of(Err(KvError::StorageError("disk".into()))),
        failure(500, "Storage error: disk")
    );
}

#[test]
fn hexist_reply_carries_the_answer() {
    assert_eq!(hexist_reply_of(Ok(true)), ok_values(vec![true.into()]));
    assert_eq!(hexist_reply_of(Ok(false)), ok_values(vec![false.into()]));
    assert_eq!(
        hexist_reply_of(Err(KvError::StorageError("disk".into()))),
        failure(500, "Storage error: disk")
    );
}

#[test]
fn listing_reply_carries_the_pairs() {
    let pairs = vec![Kvpair::new("a", 1i64.into())];
    let r = listing_reply_of(Ok(pairs.clone()));
    assert_eq!(r, CommandResponse { status: 200, message: String::new(), values: vec![], pairs });
    let r = listing_reply_of(Err(KvError::StorageError("disk".into())));
    assert_eq!(r, failure(500, "Storage error: disk"));
}

#[test]
fn multi_key_values_fall_back_to_the_empty_value() {
    assert_eq!(value_of_answer(Ok(Some("v".into()))), "v".into());
    assert_eq!(value_of_answer(Ok(None)), Value::default());
    assert_eq!(value_of_answer(Err(KvError::StorageError("disk".into()))), Value::default());
    assert_eq!(presence_value_of(Ok(true)), true.into());
    assert_eq!(presence_value_of(Err(KvError::StorageError("disk".into()))), Value::default());
}
