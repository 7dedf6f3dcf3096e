pub mod abi;
pub mod codec;

use vstd::prelude::*;
use crate::pb::abi::{CommandResponse, Kvpair, KvpairView, ResponseView, Value, ValueView};
use crate::error::KvError;
use crate::pb::abi::value;

verus! {

impl Kvpair {
    /// Builds a pair from a key and a value.
    pub fn new(key: &str, value: Value) -> (r: Self)
        ensures
            r@.key == key@,
            r@.value == Some(value@),
    {
        Kvpair { key: key.to_owned(), value: Some(value) }
    }
}

impl From<&str> for Value {
    fn from(s: &str) -> (r: Self)
        ensures
            r@ == Some(crate::pb::abi::ValueView::String(s@)),
    {
        Value { value: Some(value::Value::String(s.to_owned())) }
    }
}

impl vstd::std_specs::convert::FromSpecImpl<&str> for Value {
    open spec fn obeys_from_spec() -> bool {
        false
    }

    open spec fn from_spec(s: &str) -> Self {
        arbitrary()
    }
}


/// The response that carries one value.
pub open spec fn value_reply(v: Option<ValueView>) -> ResponseView {
    ResponseView { status: 200, message: Seq::empty(), values: seq![v], pairs: Seq::empty() }
}

/// The response that carries a list of values.
pub open spec fn values_reply(vs: Seq<Option<ValueView>>) -> ResponseView {
    ResponseView { status: 200, message: Seq::empty(), values: vs, pairs: Seq::empty() }
}

/// The response that carries a list of pairs.
pub open spec fn pairs_reply(ps: Seq<KvpairView>) -> ResponseView {
    ResponseView { status: 200, message: Seq::empty(), values: Seq::empty(), pairs: ps }
}

/// The response that reports a failure with a status code and a text.
pub open spec fn failure_reply(code: u32, text: Seq<char>) -> ResponseView {
    ResponseView { status: code, message: text, values: Seq::empty(), pairs: Seq::empty() }
}

/// The response that reports an error.
pub open spec fn error_reply(e: KvError) -> ResponseView {
    failure_reply(e.code(), e.text())
}

/// The response a request without a known command gets.
pub open spec fn empty_reply() -> ResponseView {
    ResponseView { status: 0, message: Seq::empty(), values: Seq::empty(), pairs: Seq::empty() }
}

/// Whether a response reports some error.
pub open spec fn is_error_reply(r: ResponseView) -> bool {
    exists|e: KvError| r == error_reply(e)
}

impl From<(String, Value)> for Kvpair {
    fn from(data: (String, Value)) -> (r: Self)
        ensures
            r@.key == data.0@,
            r@.value == Some(data.1@),
    {
        Kvpair { key: data.0, value: Some(data.1) }
    }
}

impl vstd::std_specs::convert::FromSpecImpl<(String, Value)> for Kvpair {
    open spec fn obeys_from_spec() -> bool {
        false
    }

    open spec fn from_spec(data: (String, Value)) -> Self {
        arbitrary()
    }
}

impl From<bool> for Value {
    fn from(b: bool) -> (r: Self)
        ensures
            r@ == Some(ValueView::Bool(b)),
    {
        Value { value: Some(value::Value::Bool(b)) }
    }
}

impl vstd::std_specs::convert::FromSpecImpl<bool> for Value {
    open spec fn obeys_from_spec() -> bool {
        true
    }

    open spec fn from_spec(b: bool) -> Self {
        Value { value: Some(value::Value::Bool(b)) }
    }
}

impl From<i64> for Value {
    fn from(i: i64) -> (r: Self)
        ensures
            r@ == Some(ValueView::Integer(i)),
    {
        Value { value: Some(value::Value::Integer(i)) }
    }
}

impl vstd::std_specs::convert::FromSpecImpl<i64> for Value {
    open spec fn obeys_from_spec() -> bool {
        true
    }

    open spec fn from_spec(i: i64) -> Self {
        Value { value: Some(value::Value::Integer(i)) }
    }
}

impl From<Value> for CommandResponse {
    fn from(v: Value) -> (r: Self)
        ensures
            r@ == value_reply(v@),
    {
        let ghost vv = v@;
        let r = CommandResponse {
            status: 200,
            message: String::new(),
            values: vec![v],
            pairs: Vec::new(),
        };
        assert(r@.values =~= seq![vv]);
        assert(r@.pairs =~= Seq::<KvpairView>::empty());
        r
    }
}

impl vstd::std_specs::convert::FromSpecImpl<Value> for CommandResponse {
    open spec fn obeys_from_spec() -> bool {
        false
    }

    open spec fn from_spec(v: Value) -> Self {
        arbitrary()
    }
}

impl From<Vec<Value>> for CommandResponse {
    fn from(vs: Vec<Value>) -> (r: Self)
        ensures
            r@ == values_reply(vs@.map_values(|v: Value| v@)),
    {
        let r = CommandResponse { status: 200, message: String::new(), values: vs, pairs: Vec::new() };
        assert(r@.pairs =~= Seq::<KvpairView>::empty());
        r
    }
}

impl vstd::std_specs::convert::FromSpecImpl<Vec<Value>> for CommandResponse {
    open spec fn obeys_from_spec() -> bool {
        false
    }

    open spec fn from_spec(vs: Vec<Value>) -> Self {
        arbitrary()
    }
}

impl From<Vec<Kvpair>> for CommandResponse {
    fn from(ps: Vec<Kvpair>) -> (r: Self)
        ensures
            r@ == pairs_reply(ps@.map_values(|p: Kvpair| p@)),
    {
        let r = CommandResponse { status: 200, message: String::new(), values: Vec::new(), pairs: ps };
        assert(r@.values =~= Seq::<Option<ValueView>>::empty());
        r
    }
}

impl vstd::std_specs::convert::FromSpecImpl<Vec<Kvpair>> for CommandResponse {
    open spec fn obeys_from_spec() -> bool {
        false
    }

    open spec fn from_spec(ps: Vec<Kvpair>) -> Self {
        arbitrary()
    }
}

impl From<KvError> for CommandResponse {
    fn from(e: KvError) -> (r: Self)
        ensures
            r@ == error_reply(e),
    {
        let r = CommandResponse {
            status: e.status(),
            message: e.message(),
            values: Vec::new(),
            pairs: Vec::new(),
        };
        assert(r@.values =~= Seq::<Option<ValueView>>::empty());
        assert(r@.pairs =~= Seq::<KvpairView>::empty());
        r
    }
}

impl vstd::std_specs::convert::FromSpecImpl<KvError> for CommandResponse {
    open spec fn obeys_from_spec() -> bool {
        false
    }

    open spec fn from_spec(e: KvError) -> Self {
        arbitrary()
    }
}


} // verus!
