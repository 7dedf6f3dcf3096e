use vstd::prelude::*;
use vstd::string::StringExecFns;
use crate::error::KvError;
use crate::pb::{error_reply, failure_reply, pairs_reply, value_reply, values_reply};
use crate::pb::abi::{
    CommandResponse, Hdel, Hexist, Hget, Hgetall, Hmdel, Hmexist, Hmget, Hmset, Hset, Kvpair,
    KvpairView, ResponseView, Value, ValueView,
};
use crate::service::CommandService;
use crate::storage::{found, Storage, WriteCall};

verus! {

/// Rust's `Debug` text of a string: the string quoted, special characters escaped.
pub uninterp spec fn debug_text(s: Seq<char>) -> Seq<char>;

/// Formats a string with `format!("{:?}", s)`. Claimed: the text is
/// `debug_text(s)`, a result of the string alone.
#[verifier::external_body]
fn debug_str(s: &str) -> (r: String)
    ensures
        r@ == debug_text(s@),
{
    format!("{:?}", s)
}

/// The value a read answers with: the stored one, or the empty value.
pub open spec fn or_empty(o: Option<Option<ValueView>>) -> Option<ValueView> {
    match o {
        Some(v) => v,
        None => None,
    }
}

/// The text of the error for a missing key.
pub open spec fn not_found_text(table: Seq<char>, key: Seq<char>) -> Seq<char> {
    "Not found: "@ + ("table "@ + table + ",key "@ + key)
}

/// The response to a read of `key` in `table` that found `found`.
pub open spec fn hget_reply(found: Option<Option<ValueView>>, table: Seq<char>, key: Seq<char>) -> ResponseView {
    match found {
        Some(v) => value_reply(v),
        None => failure_reply(404, not_found_text(table, key)),
    }
}

/// The views of a list of strings.
pub open spec fn texts(v: Seq<String>) -> Seq<Seq<char>> {
    v.map_values(|s: String| s@)
}

/// The views of a list of pairs.
pub open spec fn pair_views(v: Seq<Kvpair>) -> Seq<KvpairView> {
    v.map_values(|p: Kvpair| p@)
}

/// The values a store holds under `keys` of `table`, the empty value where none.
pub open spec fn read_values<S: Storage>(
    m: Map<S::Slot, Option<ValueView>>,
    table: Seq<char>,
    keys: Seq<Seq<char>>,
) -> Seq<Option<ValueView>> {
    keys.map_values(|k: Seq<char>| or_empty(m.get(S::slot(table, k))))
}

/// The answers to "does `table` hold this key?" for each of `keys`.
pub open spec fn exist_values<S: Storage>(
    m: Map<S::Slot, Option<ValueView>>,
    table: Seq<char>,
    keys: Seq<Seq<char>>,
) -> Seq<Option<ValueView>> {
    keys.map_values(|k: Seq<char>| Some(ValueView::Bool(m.contains_key(S::slot(table, k)))))
}

/// The store after writing `pairs` into `table` one after another.
pub open spec fn after_sets<S: Storage>(
    m: Map<S::Slot, Option<ValueView>>,
    table: Seq<char>,
    pairs: Seq<KvpairView>,
) -> Map<S::Slot, Option<ValueView>>
    decreases pairs.len(),
{
    if pairs.len() == 0 {
        m
    } else {
        after_sets::<S>(m, table, pairs.drop_last()).insert(
            S::slot(table, pairs.last().key),
            or_empty(pairs.last().value),
        )
    }
}

/// The values that writing `pairs` into `table` one after another replaces.
pub open spec fn replaced_by_sets<S: Storage>(
    m: Map<S::Slot, Option<ValueView>>,
    table: Seq<char>,
    pairs: Seq<KvpairView>,
) -> Seq<Option<ValueView>>
    decreases pairs.len(),
{
    if pairs.len() == 0 {
        Seq::empty()
    } else {
        replaced_by_sets::<S>(m, table, pairs.drop_last()).push(
            or_empty(after_sets::<S>(m, table, pairs.drop_last()).get(S::slot(table, pairs.last().key))),
        )
    }
}

/// The store after removing `keys` from `table` one after another.
pub open spec fn after_dels<S: Storage>(
    m: Map<S::Slot, Option<ValueView>>,
    table: Seq<char>,
    keys: Seq<Seq<char>>,
) -> Map<S::Slot, Option<ValueView>>
    decreases keys.len(),
{
    if keys.len() == 0 {
        m
    } else {
        after_dels::<S>(m, table, keys.drop_last()).remove(S::slot(table, keys.last()))
    }
}

/// The values that removing `keys` from `table` one after another takes away.
pub open spec fn removed_by_dels<S: Storage>(
    m: Map<S::Slot, Option<ValueView>>,
    table: Seq<char>,
    keys: Seq<Seq<char>>,
) -> Seq<Option<ValueView>>
    decreases keys.len(),
{
    if keys.len() == 0 {
        Seq::empty()
    } else {
        removed_by_dels::<S>(m, table, keys.drop_last()).push(
            or_empty(after_dels::<S>(m, table, keys.drop_last()).get(S::slot(table, keys.last()))),
        )
    }
}

/// The value a multi-key command gives for one answer of the store: the value
/// found, or the empty value where none was found or the store failed.
pub open spec fn answer_value(a: Result<Option<Value>, KvError>) -> Option<ValueView> {
    match a {
        Ok(Some(v)) => v@,
        _ => None,
    }
}

/// The values a multi-key command gives for the store's answers, in order.
pub open spec fn answer_values(answers: Seq<Result<Option<Value>, KvError>>) -> Seq<Option<ValueView>> {
    answers.map_values(|a: Result<Option<Value>, KvError>| answer_value(a))
}

/// The value a multi-key existence check gives for one answer of the store:
/// the answer, or the empty value where the store failed.
pub open spec fn presence_value(a: Result<bool, KvError>) -> Option<ValueView> {
    match a {
        Ok(b) => Some(ValueView::Bool(b)),
        Err(_) => None,
    }
}

/// The values a multi-key existence check gives for the store's answers, in order.
pub open spec fn presence_values(answers: Seq<Result<bool, KvError>>) -> Seq<Option<ValueView>> {
    answers.map_values(|a: Result<bool, KvError>| presence_value(a))
}

/// Whether `a` is an answer `store` may give when asked for `key` of `table`.
pub open spec fn read_answer<S: Storage>(
    store: S,
    table: Seq<char>,
    key: Seq<char>,
    a: Result<Option<Value>, KvError>,
) -> bool {
    &&& store.never_fails() ==> a is Ok
    &&& a matches Ok(o) ==> found(o) == store.model().get(S::slot(table, key))
}

/// Whether `answers` are answers `store` may give when asked for each of `keys`.
pub open spec fn read_answers<S: Storage>(
    store: S,
    table: Seq<char>,
    keys: Seq<Seq<char>>,
    answers: Seq<Result<Option<Value>, KvError>>,
) -> bool {
    &&& answers.len() == keys.len()
    &&& forall|i: int| 0 <= i < keys.len() ==> #[trigger] read_answer(store, table, keys[i], answers[i])
}

/// Whether `a` is an answer `store` may give when asked whether `table` holds `key`.
pub open spec fn presence_answer<S: Storage>(
    store: S,
    table: Seq<char>,
    key: Seq<char>,
    a: Result<bool, KvError>,
) -> bool {
    &&& store.never_fails() ==> a is Ok
    &&& a matches Ok(b) ==> b == store.model().contains_key(S::slot(table, key))
}

/// Whether `answers` are answers `store` may give when asked about each of `keys`.
pub open spec fn presence_answers<S: Storage>(
    store: S,
    table: Seq<char>,
    keys: Seq<Seq<char>>,
    answers: Seq<Result<bool, KvError>>,
) -> bool {
    &&& answers.len() == keys.len()
    &&& forall|i: int| 0 <= i < keys.len() ==> #[trigger] presence_answer(store, table, keys[i], answers[i])
}

/// Whether `a` is an answer `store` may give when asked for all of `table`.
pub open spec fn listing_answer<S: Storage>(store: S, table: Seq<char>, a: Result<Vec<Kvpair>, KvError>) -> bool {
    &&& store.never_fails() ==> a is Ok
    &&& a matches Ok(ps) ==> store.listing(table, pair_views(ps@))
}

/// The response to a read of `key` in `table` that the store answered with `a`.
pub open spec fn hget_answer_reply(a: Result<Option<Value>, KvError>, table: Seq<char>, key: Seq<char>) -> ResponseView {
    match a {
        Ok(Some(v)) => value_reply(v@),
        Ok(None) => failure_reply(404, not_found_text(table, key)),
        Err(e) => error_reply(e),
    }
}

/// The response to a write or removal that the store answered with `a`:
/// the value it replaced, the empty value where there was none.
pub open spec fn write_answer_reply(a: Result<Option<Value>, KvError>) -> ResponseView {
    match a {
        Ok(Some(v)) => value_reply(v@),
        Ok(None) => value_reply(None),
        Err(e) => error_reply(e),
    }
}

/// The response to an existence check that the store answered with `a`.
pub open spec fn hexist_answer_reply(a: Result<bool, KvError>) -> ResponseView {
    match a {
        Ok(b) => value_reply(Some(ValueView::Bool(b))),
        Err(e) => error_reply(e),
    }
}

/// The response to a listing that the store answered with `a`.
pub open spec fn listing_answer_reply(a: Result<Vec<Kvpair>, KvError>) -> ResponseView {
    match a {
        Ok(ps) => pairs_reply(pair_views(ps@)),
        Err(e) => error_reply(e),
    }
}

/// Answers a read of `key` in `table` from what the store gave back.
pub fn hget_reply_of(answer: Result<Option<Value>, KvError>, table: &str, key: &str) -> (r: CommandResponse)
    ensures
        r@ == hget_answer_reply(answer, table@, key@),
{
    match answer {
        Ok(Some(v)) => v.into(),
        Ok(None) => {
            let mut text = String::from_str("table ");
            text.append(table);
            text.append(",key ");
            text.append(key);
            KvError::NotFound(text).into()
        },
        Err(e) => e.into(),
    }
}

/// Answers a write or a removal from what the store gave back.
pub fn write_reply_of(answer: Result<Option<Value>, KvError>) -> (r: CommandResponse)
    ensures
        r@ == write_answer_reply(answer),
{
    match answer {
        Ok(None) => Value::default().into(),
        Ok(Some(v)) => v.into(),
        Err(e) => e.into(),
    }
}

/// Answers an existence check from what the store gave back.
pub fn hexist_reply_of(answer: Result<bool, KvError>) -> (r: CommandResponse)
    ensures
        r@ == hexist_answer_reply(answer),
{
    match answer {
        Ok(v) => Value::from(v).into(),
        Err(e) => e.into(),
    }
}

/// Answers a listing from what the store gave back.
pub fn listing_reply_of(answer: Result<Vec<Kvpair>, KvError>) -> (r: CommandResponse)
    ensures
        r@ == listing_answer_reply(answer),
{
    match answer {
        Ok(v) => v.into(),
        Err(e) => e.into(),
    }
}

/// The value a multi-key command gives for one answer of the store.
pub fn value_of_answer(answer: Result<Option<Value>, KvError>) -> (r: Value)
    ensures
        r@ == answer_value(answer),
{
    match answer {
        Ok(Some(v)) => v,
        _ => Value::default(),
    }
}

/// The value a multi-key existence check gives for one answer of the store.
pub fn presence_value_of(answer: Result<bool, KvError>) -> (r: Value)
    ensures
        r@ == presence_value(answer),
{
    match answer {
        Ok(b) => Value::from(b),
        _ => Value::default(),
    }
}

/// The writes made on `after` since it was `before`.
pub open spec fn writes_since<S: Storage>(before: S, after: S) -> Seq<WriteCall> {
    after.writes().skip(before.writes().len() as int)
}

/// Whether `calls` store `pairs` into `table`, one write per pair, in order.
pub open spec fn sets_of(calls: Seq<WriteCall>, table: Seq<char>, pairs: Seq<KvpairView>) -> bool {
    &&& calls.len() == pairs.len()
    &&& forall|i: int|
        0 <= i < calls.len() ==> (#[trigger] calls[i]).table == table && calls[i].key == pairs[i].key
            && calls[i].value == Some(or_empty(pairs[i].value))
}

/// Whether `calls` remove `keys` from `table`, one removal per key, in order.
pub open spec fn dels_of(calls: Seq<WriteCall>, table: Seq<char>, keys: Seq<Seq<char>>) -> bool {
    &&& calls.len() == keys.len()
    &&& forall|i: int|
        0 <= i < calls.len() ==> (#[trigger] calls[i]).table == table && calls[i].key == keys[i]
            && calls[i].value == None::<Option<ValueView>>
}

/// The values a multi-key write gives for the store's answers to `calls`.
pub open spec fn call_values(calls: Seq<WriteCall>) -> Seq<Option<ValueView>> {
    calls.map_values(|c: WriteCall| answer_value(c.answer))
}

/// The store is the same before and after.
pub open spec fn unchanged<S: Storage>(before: S, after: S) -> bool {
    &&& after.model() == before.model()
    &&& after.never_fails() == before.never_fails()
    &&& after.writes() == before.writes()
    &&& after.inv()
}

/// What executing `c` on `before` leads to.
pub open spec fn hget_post<S: Storage>(c: Hget, before: S, after: S, r: ResponseView) -> bool {
    let want = hget_reply(before.model().get(S::slot(c.table@, c.key@)), c.table@, c.key@);
    &&& unchanged(before, after)
    &&& before.never_fails() ==> r == want
    &&& exists|a: Result<Option<Value>, KvError>|
        read_answer(before, c.table@, c.key@, a) && r == #[trigger] hget_answer_reply(a, c.table@, c.key@)
}

/// What executing `c` on `before` leads to.
pub open spec fn hgetall_post<S: Storage>(c: Hgetall, before: S, after: S, r: ResponseView) -> bool {
    &&& unchanged(before, after)
    &&& before.never_fails() ==> r == pairs_reply(r.pairs) && before.listing(c.table@, r.pairs)
    &&& exists|a: Result<Vec<Kvpair>, KvError>|
        listing_answer(before, c.table@, a) && r == #[trigger] listing_answer_reply(a)
}

/// What executing `c` on `before` leads to.
pub open spec fn hmget_post<S: Storage>(c: Hmget, before: S, after: S, r: ResponseView) -> bool {
    let want = read_values::<S>(before.model(), c.table@, texts(c.keys@));
    &&& unchanged(before, after)
    &&& r == values_reply(r.values)
    &&& before.never_fails() ==> r.values == want
    &&& exists|answers: Seq<Result<Option<Value>, KvError>>|
        #[trigger] read_answers(before, c.table@, texts(c.keys@), answers) && r.values == answer_values(answers)
}

/// The text of the error for an `Hset` without a pair.
pub open spec fn missing_pair_text(table: Seq<char>) -> Seq<char> {
    "Command is invalid: `"@ + ("Hset { table: "@ + debug_text(table) + ", pair: None }"@) + "`"@
}

/// What executing `c` on `before` leads to.
pub open spec fn hset_post<S: Storage>(c: Hset, before: S, after: S, r: ResponseView) -> bool {
    &&& after.never_fails() == before.never_fails()
    &&& after.inv()
    &&& match c.pair {
        None => r == failure_reply(400, missing_pair_text(c.table@)) && unchanged(before, after),
        Some(p) => {
            let s = S::slot(c.table@, p.key@);
            let calls = writes_since(before, after);
            &&& before.writes().is_prefix_of(after.writes())
            &&& sets_of(calls, c.table@, seq![p@])
            &&& r == write_answer_reply(calls[0].answer)
            &&& calls[0].answer matches Ok(o) ==> found(o) == before.model().get(s)
                && after.model() == before.model().insert(s, or_empty(p@.value))
            &&& before.never_fails() ==> r == value_reply(or_empty(before.model().get(s)))
                && after.model() == before.model().insert(s, or_empty(p@.value))
        },
    }
}

/// What executing `c` on `before` leads to.
pub open spec fn hmset_post<S: Storage>(c: Hmset, before: S, after: S, r: ResponseView) -> bool {
    let pairs = pair_views(c.pairs@);
    let calls = writes_since(before, after);
    &&& after.never_fails() == before.never_fails()
    &&& after.inv()
    &&& before.writes().is_prefix_of(after.writes())
    &&& sets_of(calls, c.table@, pairs)
    &&& r == values_reply(call_values(calls))
    &&& before.never_fails() ==> r.values == replaced_by_sets::<S>(before.model(), c.table@, pairs)
        && after.model() == after_sets::<S>(before.model(), c.table@, pairs)
}

/// What executing `c` on `before` leads to.
pub open spec fn hdel_post<S: Storage>(c: Hdel, before: S, after: S, r: ResponseView) -> bool {
    let s = S::slot(c.table@, c.key@);
    let calls = writes_since(before, after);
    &&& after.never_fails() == before.never_fails()
    &&& after.inv()
    &&& before.writes().is_prefix_of(after.writes())
    &&& dels_of(calls, c.table@, seq![c.key@])
    &&& r == write_answer_reply(calls[0].answer)
    &&& calls[0].answer matches Ok(o) ==> found(o) == before.model().get(s)
        && after.model() == before.model().remove(s)
    &&& before.never_fails() ==> r == value_reply(or_empty(before.model().get(s)))
        && after.model() == before.model().remove(s)
}

/// What executing `c` on `before` leads to.
pub open spec fn hmdel_post<S: Storage>(c: Hmdel, before: S, after: S, r: ResponseView) -> bool {
    let keys = texts(c.keys@);
    let calls = writes_since(before, after);
    &&& after.never_fails() == before.never_fails()
    &&& after.inv()
    &&& before.writes().is_prefix_of(after.writes())
    &&& dels_of(calls, c.table@, keys)
    &&& r == values_reply(call_values(calls))
    &&& before.never_fails() ==> r.values == removed_by_dels::<S>(before.model(), c.table@, keys)
        && after.model() == after_dels::<S>(before.model(), c.table@, keys)
}

/// What executing `c` on `before` leads to.
pub open spec fn hexist_post<S: Storage>(c: Hexist, before: S, after: S, r: ResponseView) -> bool {
    let want = value_reply(Some(ValueView::Bool(before.model().contains_key(S::slot(c.table@, c.key@)))));
    &&& unchanged(before, after)
    &&& before.never_fails() ==> r == want
    &&& exists|a: Result<bool, KvError>|
        presence_answer(before, c.table@, c.key@, a) && r == #[trigger] hexist_answer_reply(a)
}

/// What executing `c` on `before` leads to.
pub open spec fn hmexist_post<S: Storage>(c: Hmexist, before: S, after: S, r: ResponseView) -> bool {
    let want = exist_values::<S>(before.model(), c.table@, texts(c.keys@));
    &&& unchanged(before, after)
    &&& r == values_reply(r.values)
    &&& before.never_fails() ==> r.values == want
    &&& exists|answers: Seq<Result<bool, KvError>>|
        #[trigger] presence_answers(before, c.table@, texts(c.keys@), answers) && r.values == presence_values(answers)
}

impl CommandService for Hget {
    open spec fn listed_table(&self) -> Option<Seq<char>> {
        None
    }

    fn execute<S: Storage>(self, store: &mut S) -> (r: CommandResponse)
        ensures
            hget_post(self, *old(store), *final(store), r@),
    {
        let answer = store.get(self.table.as_str(), self.key.as_str());
        let ghost a = answer;
        let r = hget_reply_of(answer, self.table.as_str(), self.key.as_str());
        assert(read_answer(*store, self.table@, self.key@, a));
        assert(r@ == hget_answer_reply(a, self.table@, self.key@));
        r
    }
}

impl CommandService for Hgetall {
    open spec fn listed_table(&self) -> Option<Seq<char>> {
        Some(self.table@)
    }

    fn execute<S: Storage>(self, store: &mut S) -> (r: CommandResponse)
        ensures
            hgetall_post(self, *old(store), *final(store), r@),
    {
        let answer = store.get_all(self.table.as_str());
        let ghost a = answer;
        let r = listing_reply_of(answer);
        assert(listing_answer(*store, self.table@, a));
        assert(r@ == listing_answer_reply(a));
        r
    }
}

impl CommandService for Hset {
    open spec fn listed_table(&self) -> Option<Seq<char>> {
        None
    }

    fn execute<S: Storage>(self, store: &mut S) -> (r: CommandResponse)
        ensures
            hset_post(self, *old(store), *final(store), r@),
    {
        match self.pair {
            Some(v) => {
                let value = match v.value {
                    Some(x) => x,
                    None => Value::default(),
                };
                let answer = store.set(self.table.as_str(), v.key.as_str(), value);
                proof {
                    let w0 = old(store).writes();
                    assert(w0.is_prefix_of(store.writes()));
                    assert(writes_since(*old(store), *store) =~= seq![store.writes().last()]);
                }
                write_reply_of(answer)
            },
            None => {
                let mut text = String::from_str("Hset { table: ");
                let quoted = debug_str(self.table.as_str());
                text.append(quoted.as_str());
                text.append(", pair: None }");
                KvError::InvalidCommand(text).into()
            },
        }
    }
}

impl CommandService for Hdel {
    open spec fn listed_table(&self) -> Option<Seq<char>> {
        None
    }

    fn execute<S: Storage>(self, store: &mut S) -> (r: CommandResponse)
        ensures
            hdel_post(self, *old(store), *final(store), r@),
    {
        let answer = store.del(self.table.as_str(), self.key.as_str());
        proof {
            let w0 = old(store).writes();
            assert(w0.is_prefix_of(store.writes()));
            assert(writes_since(*old(store), *store) =~= seq![store.writes().last()]);
        }
        write_reply_of(answer)
    }
}

impl CommandService for Hexist {
    open spec fn listed_table(&self) -> Option<Seq<char>> {
        None
    }

    fn execute<S: Storage>(self, store: &mut S) -> (r: CommandResponse)
        ensures
            hexist_post(self, *old(store), *final(store), r@),
    {
        let answer = store.contains(self.table.as_str(), self.key.as_str());
        let ghost a = answer;
        let r = hexist_reply_of(answer);
        assert(presence_answer(*store, self.table@, self.key@, a));
        assert(r@ == hexist_answer_reply(a));
        r
    }
}

impl CommandService for Hmget {
    open spec fn listed_table(&self) -> Option<Seq<char>> {
        None
    }

    fn execute<S: Storage>(self, store: &mut S) -> (r: CommandResponse)
        ensures
            hmget_post(self, *old(store), *final(store), r@),
    {
        let ghost keys = texts(self.keys@);
        let ghost mut answers: Seq<Result<Option<Value>, KvError>> = Seq::empty();
        let mut values: Vec<Value> = Vec::new();
        let mut i: usize = 0;
        while i < self.keys.len()
            invariant
                *store == *old(store),
                store.inv(),
                keys == texts(self.keys@),
                i <= self.keys.len(),
                answers.len() == i,
                forall|j: int| 0 <= j < i ==> #[trigger] read_answer(*store, self.table@, keys[j], answers[j]),
                value_views(values@) == answer_values(answers),
            decreases self.keys.len() - i,
        {
            let answer = store.get(self.table.as_str(), self.keys[i].as_str());
            let ghost a = answer;
            let ghost earlier = answers;
            proof {
                answers = answers.push(answer);
                assert(read_answer(*store, self.table@, keys[i as int], answers[i as int]));
            }
            let ghost before = values@;
            let v = value_of_answer(answer);
            values.push(v);
            assert(value_views(values@) =~= value_views(before).push(v@));
            assert(answer_values(answers) =~= answer_values(earlier).push(answer_value(a)));
            i += 1;
        }
        let ghost vs = value_views(values@);
        proof {
            assert(read_answers(*store, self.table@, keys, answers));
            if store.never_fails() {
                let want = read_values::<S>(store.model(), self.table@, keys);
                assert forall|j: int| 0 <= j < vs.len() implies vs[j] == want[j] by {
                    assert(read_answer(*store, self.table@, keys[j], answers[j]));
                }
                assert(vs =~= want);
            }
        }
        values.into()
    }
}

impl CommandService for Hmexist {
    open spec fn listed_table(&self) -> Option<Seq<char>> {
        None
    }

    fn execute<S: Storage>(self, store: &mut S) -> (r: CommandResponse)
        ensures
            hmexist_post(self, *old(store), *final(store), r@),
    {
        let ghost keys = texts(self.keys@);
        let ghost mut answers: Seq<Result<bool, KvError>> = Seq::empty();
        let mut values: Vec<Value> = Vec::new();
        let mut i: usize = 0;
        while i < self.keys.len()
            invariant
                *store == *old(store),
                store.inv(),
                keys == texts(self.keys@),
                i <= self.keys.len(),
                answers.len() == i,
                forall|j: int| 0 <= j < i ==> #[trigger] presence_answer(*store, self.table@, keys[j], answers[j]),
                value_views(values@) == presence_values(answers),
            decreases self.keys.len() - i,
        {
            let answer = store.contains(self.table.as_str(), self.keys[i].as_str());
            let ghost a = answer;
            let ghost earlier = answers;
            proof {
                answers = answers.push(answer);
                assert(presence_answer(*store, self.table@, keys[i as int], answers[i as int]));
            }
            let ghost before = values@;
            let v = presence_value_of(answer);
            values.push(v);
            assert(value_views(values@) =~= value_views(before).push(v@));
            assert(presence_values(answers) =~= presence_values(earlier).push(presence_value(a)));
            i += 1;
        }
        let ghost vs = value_views(values@);
        proof {
            assert(presence_answers(*store, self.table@, keys, answers));
            if store.never_fails() {
                let want = exist_values::<S>(store.model(), self.table@, keys);
                assert forall|j: int| 0 <= j < vs.len() implies vs[j] == want[j] by {
                    assert(presence_answer(*store, self.table@, keys[j], answers[j]));
                }
                assert(vs =~= want);
            }
        }
        values.into()
    }
}

/// The views of a list of values.
pub open spec fn value_views(v: Seq<Value>) -> Seq<Option<ValueView>> {
    v.map_values(|x: Value| x@)
}

impl CommandService for Hmset {
    open spec fn listed_table(&self) -> Option<Seq<char>> {
        None
    }

    fn execute<S: Storage>(self, store: &mut S) -> (r: CommandResponse)
        ensures
            hmset_post(self, *old(store), *final(store), r@),
    {
        let ghost m0 = store.model();
        let ghost w0 = store.writes();
        let ghost pairs = pair_views(self.pairs@);
        let mut values: Vec<Value> = Vec::new();
        let mut i: usize = 0;
        while i < self.pairs.len()
            invariant
                store.inv(),
                store.never_fails() == old(store).never_fails(),
                m0 == old(store).model(),
                w0 == old(store).writes(),
                pairs == pair_views(self.pairs@),
                i <= self.pairs.len(),
                values@.len() == i,
                w0.is_prefix_of(store.writes()),
                sets_of(store.writes().skip(w0.len() as int), self.table@, pairs.take(i as int)),
                value_views(values@) == call_values(store.writes().skip(w0.len() as int)),
                old(store).never_fails() ==> store.model() == after_sets::<S>(m0, self.table@, pairs.take(i as int))
                    && value_views(values@) == replaced_by_sets::<S>(m0, self.table@, pairs.take(i as int)),
            decreases self.pairs.len() - i,
        {
            let p = &self.pairs[i];
            let value = match &p.value {
                Some(x) => x.clone(),
                None => Value::default(),
            };
            let ghost before = values@;
            let ghost wb = store.writes();
            let res = store.set(self.table.as_str(), p.key.as_str(), value);
            let v = value_of_answer(res);
            values.push(v);
            proof {
                let pre = pairs.take(i as int);
                let post = pairs.take(i + 1);
                assert(post.drop_last() =~= pre);
                assert(post.last() == pairs[i as int]);
                assert(pairs[i as int] == self.pairs@[i as int]@);
                assert(value_views(values@) =~= value_views(before).push(v@));
                let cs = store.writes().skip(w0.len() as int);
                assert(cs =~= wb.skip(w0.len() as int).push(store.writes().last()));
                assert(w0.is_prefix_of(store.writes())) by {
                    assert forall|j: int| 0 <= j < w0.len() implies w0[j] == store.writes()[j] by {
                        assert(wb[j] == w0[j]);
                    }
                }
                assert(sets_of(cs, self.table@, post)) by {
                    assert forall|j: int| 0 <= j < cs.len() implies (#[trigger] cs[j]).table == self.table@
                        && cs[j].key == post[j].key && cs[j].value == Some(or_empty(post[j].value)) by {
                        if j < i {
                            assert(cs[j] == wb.skip(w0.len() as int)[j]);
                            assert(post[j] == pre[j]);
                        }
                    }
                }
                assert(call_values(cs) =~= call_values(wb.skip(w0.len() as int)).push(v@));
            }
            i += 1;
        }
        proof {
            assert(pairs.take(self.pairs@.len() as int) =~= pairs);
            assert(value_views(values@).len() == pairs.len());
        }
        values.into()
    }
}

impl CommandService for Hmdel {
    open spec fn listed_table(&self) -> Option<Seq<char>> {
        None
    }

    fn execute<S: Storage>(self, store: &mut S) -> (r: CommandResponse)
        ensures
            hmdel_post(self, *old(store), *final(store), r@),
    {
        let ghost m0 = store.model();
        let ghost w0 = store.writes();
        let ghost keys = texts(self.keys@);
        let mut values: Vec<Value> = Vec::new();
        let mut i: usize = 0;
        while i < self.keys.len()
            invariant
                store.inv(),
                store.never_fails() == old(store).never_fails(),
                m0 == old(store).model(),
                w0 == old(store).writes(),
                keys == texts(self.keys@),
                i <= self.keys.len(),
                values@.len() == i,
                w0.is_prefix_of(store.writes()),
                dels_of(store.writes().skip(w0.len() as int), self.table@, keys.take(i as int)),
                value_views(values@) == call_values(store.writes().skip(w0.len() as int)),
                old(store).never_fails() ==> store.model() == after_dels::<S>(m0, self.table@, keys.take(i as int))
                    && value_views(values@) == removed_by_dels::<S>(m0, self.table@, keys.take(i as int)),
            decreases self.keys.len() - i,
        {
            let ghost before = values@;
            let ghost wb = store.writes();
            let res = store.del(self.table.as_str(), self.keys[i].as_str());
            let v = value_of_answer(res);
            values.push(v);
            proof {
                let pre = keys.take(i as int);
                let post = keys.take(i + 1);
                assert(post.drop_last() =~= pre);
                assert(post.last() == keys[i as int]);
                assert(value_views(values@) =~= value_views(before).push(v@));
                let cs = store.writes().skip(w0.len() as int);
                assert(cs =~= wb.skip(w0.len() as int).push(store.writes().last()));
                assert(w0.is_prefix_of(store.writes())) by {
                    assert forall|j: int| 0 <= j < w0.len() implies w0[j] == store.writes()[j] by {
                        assert(wb[j] == w0[j]);
                    }
                }
                assert(dels_of(cs, self.table@, post)) by {
                    assert forall|j: int| 0 <= j < cs.len() implies (#[trigger] cs[j]).table == self.table@
                        && cs[j].key == post[j] && cs[j].value == None::<Option<ValueView>> by {
                        if j < i {
                            assert(cs[j] == wb.skip(w0.len() as int)[j]);
                            assert(post[j] == pre[j]);
                        }
                    }
                }
                assert(call_values(cs) =~= call_values(wb.skip(w0.len() as int)).push(v@));
            }
            i += 1;
        }
        proof {
            assert(keys.take(self.keys@.len() as int) =~= keys);
        }
        values.into()
    }
}

} // verus!

verus! {

/// Reading a key right after setting it answers with the value that was set.
pub proof fn law_hget_after_hset<S: Storage>(
    set: Hset,
    get: Hget,
    s0: S,
    s1: S,
    s2: S,
    r1: ResponseView,
    r2: ResponseView,
)
    requires
        s0.never_fails(),
        hset_post(set, s0, s1, r1),
        hget_post(get, s1, s2, r2),
        set.pair matches Some(p) && get.table@ == set.table@ && get.key@ == p.key@,
    ensures
        r2 == value_reply(or_empty(set.pair.unwrap()@.value)),
{
}

/// Reading a key right after deleting it answers "not found".
pub proof fn law_hget_after_hdel<S: Storage>(
    del: Hdel,
    get: Hget,
    s0: S,
    s1: S,
    s2: S,
    r1: ResponseView,
    r2: ResponseView,
)
    requires
        s0.never_fails(),
        hdel_post(del, s0, s1, r1),
        hget_post(get, s1, s2, r2),
        get.table@ == del.table@,
        get.key@ == del.key@,
    ensures
        r2 == failure_reply(404, not_found_text(get.table@, get.key@)),
        r2.status == 404,
{
}

/// Asking for a key right after setting it answers `true`.
pub proof fn law_hexist_after_hset<S: Storage>(
    set: Hset,
    ask: Hexist,
    s0: S,
    s1: S,
    s2: S,
    r1: ResponseView,
    r2: ResponseView,
)
    requires
        s0.never_fails(),
        hset_post(set, s0, s1, r1),
        hexist_post(ask, s1, s2, r2),
        set.pair matches Some(p) && ask.table@ == set.table@ && ask.key@ == p.key@,
    ensures
        r2 == value_reply(Some(ValueView::Bool(true))),
{
}

/// Setting a key twice: the second write answers with the first value.
pub proof fn law_hset_answers_previous<S: Storage>(
    first: Hset,
    second: Hset,
    s0: S,
    s1: S,
    s2: S,
    r1: ResponseView,
    r2: ResponseView,
)
    requires
        s0.never_fails(),
        hset_post(first, s0, s1, r1),
        hset_post(second, s1, s2, r2),
        first.pair matches Some(p) && second.pair matches Some(q) && second.table@ == first.table@
            && q.key@ == p.key@,
    ensures
        r2 == value_reply(or_empty(first.pair.unwrap()@.value)),
{
}

} // verus!
