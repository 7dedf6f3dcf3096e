use std::cell::Cell;
use learn::command_request::RequestData;
use learn::{
    dispatch, CommandRequest, CommandResponse, Hdel, Hexist, Hget, Hgetall, Hmdel, Hmexist,
    Hmget, Hmset, Hset, KvError, Kvpair, MemTable, Notify, NotifyMut, Service, Subscribe, Value,
};

fn req(data: RequestData) -> CommandRequest {
    CommandRequest { request_data: Some(data) }
}

fn hset(table: &str, key: &str, value: Value) -> CommandRequest {
    req(RequestData::Hset(Hset { table: table.into(), pair: Some(Kvpair::new(key, value)) }))
}

fn hget(table: &str, key: &str) -> CommandRequest {
    req(RequestData::Hget(Hget { table: table.into(), key: key.into() }))
}

fn ok_values(values: Vec<Value>) -> CommandResponse {
    CommandResponse { status: 200, message: String::new(), values, pairs: vec![] }
}

#[test]
fn hget_after_hset_returns_the_value() {
    let mut store = MemTable::new();
    let r = dispatch(hset("t1", "hello", "world".into()), &mut store);
    assert_eq!(r, ok_values(vec![Value::default()]));
    let r = dispatch(hget("t1", "hello"), &mut store);
    assert_eq!(r, ok_values(vec!["world".into()]));
}

#[test]
fn hset_answers_with_the_replaced_value() {
    let mut store = MemTable::new();
    dispatch(hset("t1", "k", "a".into()), &mut store);
    let r = dispatch(hset("t1", "k", "b".into()), &mut store);
    assert_eq!(r, ok_values(vec!["a".into()]));
}

#[test]
fn hget_of_missing_key_is_not_found() {
    let mut store = MemTable::new();
    let r = dispatch(hget("t1", "nope"), &mut store);
    assert_eq!(r.status, 404);
    assert_eq!(r.message, "Not found: table t1,key nope");
    assert!(r.values.is_empty() && r.pairs.is_empty());
}

#[test]
fn hset_without_pair_is_invalid() {
    let mut store = MemTable::new();
    let r = dispatch(req(RequestData::Hset(Hset { table: "t\"1".into(), pair: None })), &mut store);
    assert_eq!(r.status, 400);
    assert_eq!(r.message, "Command is invalid: `Hset { table: \"t\\\"1\", pair: None }`");
}

#[test]
fn hset_without_value_stores_the_empty_value() {
    let mut store = MemTable::new();
    let cmd = req(RequestData::Hset(Hset {
        table: "t".into(),
        pair: Some(Kvpair { key: "k".into(), value: None }),
    }));
    dispatch(cmd, &mut store);
    assert_eq!(dispatch(hget("t", "k"), &mut store), ok_values(vec![Value::default()]));
}

#[test]
fn hmget_reads_each_key() {
    let mut store = MemTable::new();
    dispatch(hset("t", "a", "1".into()), &mut store);
    dispatch(hset("t", "c", "3".into()), &mut store);
    let cmd = req(RequestData::Hmget(Hmget {
        table: "t".into(),
        keys: vec!["a".into(), "b".into(), "c".into()],
    }));
    let r = dispatch(cmd, &mut store);
    assert_eq!(r, ok_values(vec!["1".into(), Value::default(), "3".into()]));
}

#[test]
fn hmset_then_hgetall_lists_the_table() {
    let mut store = MemTable::new();
    let cmd = req(RequestData::Hmset(Hmset {
        table: "t".into(),
        pairs: vec![
            Kvpair::new("a", "1".into()),
            Kvpair::new("b", "2".into()),
            Kvpair::new("a", "3".into()),
        ],
    }));
    let r = dispatch(cmd, &mut store);
    assert_eq!(r, ok_values(vec![Value::default(), Value::default(), "1".into()]));
    let r = dispatch(req(RequestData::Hgetall(Hgetall { table: "t".into() })), &mut store);
    let mut pairs = r.pairs.clone();
    pairs.sort_by(|a, b| a.partial_cmp(b).unwrap());
    assert_eq!(r.status, 200);
    assert_eq!(pairs, vec![Kvpair::new("a", "3".into()), Kvpair::new("b", "2".into())]);
}

#[test]
fn hdel_and_hmdel_remove_keys() {
    let mut store = MemTable::new();
    dispatch(hset("t", "a", "1".into()), &mut store);
    dispatch(hset("t", "b", "2".into()), &mut store);
    let r = dispatch(req(RequestData::Hdel(Hdel { table: "t".into(), key: "a".into() })), &mut store);
    assert_eq!(r, ok_values(vec!["1".into()]));
    assert_eq!(dispatch(hget("t", "a"), &mut store).status, 404);
    let cmd = req(RequestData::Hmdel(Hmdel { table: "t".into(), keys: vec!["b".into(), "b".into()] }));
    let r = dispatch(cmd, &mut store);
    assert_eq!(r, ok_values(vec!["2".into(), Value::default()]));
}

#[test]
fn hexist_and_hmexist_answer_booleans() {
    let mut store = MemTable::new();
    dispatch(hset("t", "a", "1".into()), &mut store);
    let r = dispatch(req(RequestData::Hexist(Hexist { table: "t".into(), key: "a".into() })), &mut store);
    assert_eq!(r, ok_values(vec![true.into()]));
    let cmd = req(RequestData::Hmexist(Hmexist { table: "t".into(), keys: vec!["a".into(), "z".into()] }));
    let r = dispatch(cmd, &mut store);
    assert_eq!(r, ok_values(vec![true.into(), false.into()]));
}

#[test]
fn request_without_data_is_invalid() {
    let mut store = MemTable::new();
    let r = dispatch(CommandRequest { request_data: None }, &mut store);
    assert_eq!(r.status, 400);
    assert_eq!(r.message, "Command is invalid: `Request has no data`");
}

#[test]
fn unserved_command_gets_the_empty_response() {
    let mut store = MemTable::new();
    let r = dispatch(req(RequestData::Subscribe(Subscribe { topic: "x".into() })), &mut store);
    assert_eq!(r, CommandResponse::default());
}

#[test]
fn service_executes_like_dispatch() {
    let mut service = Service::new(MemTable::new());
    service.execute(hset("t", "k", "v".into()));
    assert_eq!(service.execute(hget("t", "k")), ok_values(vec!["v".into()]));
}

#[test]
fn errors_have_status_and_text() {
    let r: CommandResponse = KvError::NotFound("x".into()).into();
    assert_eq!((r.status, r.message.as_str()), (404, "Not found: x"));
    let r: CommandResponse = KvError::InvalidCommand("y".into()).into();
    assert_eq!((r.status, r.message.as_str()), (400, "Command is invalid: `y`"));
    let r: CommandResponse = KvError::FrameError.into();
    assert_eq!((r.status, r.message.as_str()), (500, "Frame is larger than max size"));
    let r: CommandResponse = KvError::StorageError("z".into()).into();
    assert_eq!((r.status, r.message.as_str()), (500, "Storage error: z"));
    assert_eq!(KvError::ConvertError("c".into()).message(), "Cannot convert value: c");
    assert_eq!(KvError::EncodeError("e".into()).message(), "Failed to encode protobuf message: e");
    assert_eq!(KvError::DecodeError("d".into()).message(), "Failed to decode protobuf message: d");
    assert_eq!(KvError::IoError("i".into()).message(), "I/O error: i");
    assert_eq!(KvError::Internal("n".into()).message(), "Internal error: n");
}

#[test]
fn conversions_build_pairs_and_values() {
    let p: Kvpair = ("k".to_string(), Value::from(1i64)).into();
    assert_eq!(p, Kvpair::new("k", 1i64.into()));
    let r: CommandResponse = vec![Kvpair::new("a", "b".into())].into();
    assert_eq!(r.pairs.len(), 1);
    assert_eq!(r.status, 200);
}

#[test]
fn notify_calls_every_listener() {
    let seen = Cell::new(0);
    let listeners: Vec<Box<dyn Fn(&i32)>> = vec![
        Box::new(|x: &i32| seen.set(seen.get() + *x)),
        Box::new(|x: &i32| seen.set(seen.get() + 10 * *x)),
    ];
    let listeners: Vec<&dyn Fn(&i32)> = listeners.iter().map(|b| b.as_ref()).collect();
    listeners.notify(&2);
    assert_eq!(seen.get(), 22);
}

#[test]
fn notify_mut_lets_listeners_change_the_event() {
    fn double(x: &mut i32) {
        *x *= 2;
    }
    fn add_one(x: &mut i32) {
        *x += 1;
    }
    let listeners: Vec<fn(&mut i32)> = vec![double, add_one];
    let mut v = 5;
    listeners.notify(&mut v);
    assert_eq!(v, 11);
}
