pub mod command_request;
pub mod value;

use vstd::prelude::*;

verus! {

/// The mathematical content of a `value::Value`.
pub enum ValueView {
    String(Seq<char>),
    Binary(Seq<u8>),
    Integer(i64),
    Float(u64),
    Bool(bool),
}

impl View for value::Value {
    type V = ValueView;

    open spec fn view(&self) -> ValueView {
        match self {
            value::Value::String(s) => ValueView::String(s@),
            value::Value::Binary(b) => ValueView::Binary(b@),
            value::Value::Integer(i) => ValueView::Integer(*i),
            value::Value::Float(f) => ValueView::Float(*f),
            value::Value::Bool(b) => ValueView::Bool(*b),
        }
    }
}

/// A value stored under a key: it may be empty.
#[derive(Debug, PartialEq, PartialOrd)]
pub struct Value {
    pub value: Option<value::Value>,
}

impl View for Value {
    type V = Option<ValueView>;

    open spec fn view(&self) -> Option<ValueView> {
        match &self.value {
            Some(v) => Some(v@),
            None => None,
        }
    }
}

/// The mathematical content of a `Kvpair`.
pub struct KvpairView {
    pub key: Seq<char>,
    pub value: Option<Option<ValueView>>,
}

#[derive(Debug, PartialEq, PartialOrd)]
pub struct Kvpair {
    pub key: String,
    pub value: Option<Value>,
}

impl View for Kvpair {
    type V = KvpairView;

    open spec fn view(&self) -> KvpairView {
        KvpairView {
            key: self.key@,
            value: match &self.value {
                Some(v) => Some(v@),
                None => None,
            },
        }
    }
}

impl Clone for value::Value {
    fn clone(&self) -> (r: Self)
        ensures
            r@ == self@,
    {
        match self {
            value::Value::String(s) => value::Value::String(s.clone()),
            value::Value::Binary(b) => value::Value::Binary(b.clone()),
            value::Value::Integer(i) => value::Value::Integer(*i),
            value::Value::Float(f) => value::Value::Float(*f),
            value::Value::Bool(b) => value::Value::Bool(*b),
        }
    }
}

impl Default for Value {
    fn default() -> (r: Self)
        ensures
            r@ == None::<ValueView>,
    {
        Value { value: None }
    }
}

} // verus!

verus! {

impl Clone for Value {
    fn clone(&self) -> (r: Self)
        ensures
            r@ == self@,
    {
        match &self.value {
            Some(v) => Value { value: Some(v.clone()) },
            None => Value { value: None },
        }
    }
}

impl Clone for Kvpair {
    fn clone(&self) -> (r: Self)
        ensures
            r@ == self@,
    {
        let value = match &self.value {
            Some(v) => Some(v.clone()),
            None => None,
        };
        Kvpair { key: self.key.clone(), value }
    }
}

impl Default for Kvpair {
    fn default() -> (r: Self)
        ensures
            r@.key == Seq::<char>::empty(),
            r@.value == None::<Option<ValueView>>,
    {
        Kvpair { key: String::new(), value: None }
    }
}

/// Read the value under `key` in `table`.
#[derive(Debug, PartialEq)]
pub struct Hget {
    pub table: String,
    pub key: String,
}

/// Read every pair of `table`.
#[derive(Debug, PartialEq)]
pub struct Hgetall {
    pub table: String,
}

/// Read the values under several keys of `table`.
#[derive(Debug, PartialEq)]
pub struct Hmget {
    pub table: String,
    pub keys: Vec<String>,
}

/// Write one pair into `table`.
#[derive(Debug, PartialEq)]
pub struct Hset {
    pub table: String,
    pub pair: Option<Kvpair>,
}

/// Write several pairs into `table`.
#[derive(Debug, PartialEq)]
pub struct Hmset {
    pub table: String,
    pub pairs: Vec<Kvpair>,
}

/// Remove the pair under `key` from `table`.
#[derive(Debug, PartialEq)]
pub struct Hdel {
    pub table: String,
    pub key: String,
}

/// Remove the pairs under several keys of `table`.
#[derive(Debug, PartialEq)]
pub struct Hmdel {
    pub table: String,
    pub keys: Vec<String>,
}

/// Ask whether `table` holds `key`.
#[derive(Debug, PartialEq)]
pub struct Hexist {
    pub table: String,
    pub key: String,
}

/// Ask whether `table` holds each of several keys.
#[derive(Debug, PartialEq)]
pub struct Hmexist {
    pub table: String,
    pub keys: Vec<String>,
}

/// Subscribe to a topic.
#[derive(Debug, PartialEq)]
pub struct Subscribe {
    pub topic: String,
}

/// Leave a subscription.
#[derive(Debug, PartialEq)]
pub struct Unsubscribe {
    pub topic: String,
    pub id: u32,
}

/// Publish values on a topic.
#[derive(Debug, PartialEq)]
pub struct Publish {
    pub topic: String,
    pub data: Vec<Value>,
}

/// A request sent by a client.
#[derive(Debug, PartialEq)]
pub struct CommandRequest {
    pub request_data: Option<command_request::RequestData>,
}

/// The mathematical content of a `CommandResponse`.
pub struct ResponseView {
    pub status: u32,
    pub message: Seq<char>,
    pub values: Seq<Option<ValueView>>,
    pub pairs: Seq<KvpairView>,
}

/// The answer to a request.
#[derive(Debug, PartialEq)]
pub struct CommandResponse {
    pub status: u32,
    pub message: String,
    pub values: Vec<Value>,
    pub pairs: Vec<Kvpair>,
}

impl View for CommandResponse {
    type V = ResponseView;

    open spec fn view(&self) -> ResponseView {
        ResponseView {
            status: self.status,
            message: self.message@,
            values: self.values@.map_values(|v: Value| v@),
            pairs: self.pairs@.map_values(|p: Kvpair| p@),
        }
    }
}

impl Default for CommandResponse {
    fn default() -> (r: Self)
        ensures
            r@ == (ResponseView {
                status: 0,
                message: Seq::empty(),
                values: Seq::empty(),
                pairs: Seq::empty(),
            }),
    {
        let r = CommandResponse {
            status: 0,
            message: String::new(),
            values: Vec::new(),
            pairs: Vec::new(),
        };
        assert(r@.values =~= Seq::<Option<ValueView>>::empty());
        assert(r@.pairs =~= Seq::<KvpairView>::empty());
        r
    }
}

} // verus!
