pub mod memory;
pub mod sleddb;

use vstd::prelude::*;
use crate::error::KvError;
use crate::pb::abi::{Kvpair, KvpairView, Value, ValueView};

verus! {

/// What an optional value read from a store stands for.
pub open spec fn found(o: Option<Value>) -> Option<Option<ValueView>> {
    match o {
        Some(v) => Some(v@),
        None => None,
    }
}

/// A write made on a store, with the answer it got.
pub struct WriteCall {
    /// The table written to.
    pub table: Seq<char>,
    /// The key written.
    pub key: Seq<char>,
    /// The value stored, or `None` for a removal.
    pub value: Option<Option<ValueView>>,
    /// What the store answered.
    pub answer: Result<Option<Value>, KvError>,
}

/// A store of values, grouped in tables and found by key.
///
/// A store keeps each `(table, key)` pair in a slot; `model` gives what each
/// slot holds. A store that `never_fails` answers every call with `Ok`.
pub trait Storage: Sized + Send + Sync + 'static {
    /// Where the store keeps a value.
    type Slot;

    /// The slot that holds the value of `key` in `table`.
    spec fn slot(table: Seq<char>, key: Seq<char>) -> Self::Slot;

    /// What each occupied slot holds.
    spec fn model(&self) -> Map<Self::Slot, Option<ValueView>>;

    /// The store's own consistency.
    spec fn inv(&self) -> bool;

    /// Whether every call on this store succeeds.
    spec fn never_fails(&self) -> bool;

    /// Whether `pairs` is an answer this store may give when asked for all of `table`.
    spec fn listing(&self, table: Seq<char>, pairs: Seq<KvpairView>) -> bool;

    /// Whether this store can list `table`.
    spec fn listable(&self, table: Seq<char>) -> bool;

    /// Every write made on this store, first to last, with its answer.
    spec fn writes(&self) -> Seq<WriteCall>;

    /// The value of `key` in `table`, if any.
    fn get(&self, table: &str, key: &str) -> (r: Result<Option<Value>, KvError>)
        requires
            self.inv(),
        ensures
            self.never_fails() ==> r is Ok,
            r matches Ok(o) ==> found(o) == self.model().get(Self::slot(table@, key@)),
    ;

    /// Stores `value` under `key` in `table` and gives back the value it replaced.
    fn set(&mut self, table: &str, key: &str, value: Value) -> (r: Result<Option<Value>, KvError>)
        requires
            old(self).inv(),
        ensures
            final(self).inv(),
            final(self).never_fails() == old(self).never_fails(),
            old(self).never_fails() ==> r is Ok,
            r matches Ok(o) ==> {
                &&& found(o) == old(self).model().get(Self::slot(table@, key@))
                &&& final(self).model() == old(self).model().insert(Self::slot(table@, key@), value@)
            },
            final(self).writes() == old(self).writes().push(
                (WriteCall { table: table@, key: key@, value: Some(value@), answer: r }),
            ),
    ;

    /// Whether `table` holds `key`.
    fn contains(&self, table: &str, key: &str) -> (r: Result<bool, KvError>)
        requires
            self.inv(),
        ensures
            self.never_fails() ==> r is Ok,
            r matches Ok(b) ==> b == self.model().contains_key(Self::slot(table@, key@)),
    ;

    /// Removes `key` from `table` and gives back the value it held.
    fn del(&mut self, table: &str, key: &str) -> (r: Result<Option<Value>, KvError>)
        requires
            old(self).inv(),
        ensures
            final(self).inv(),
            final(self).never_fails() == old(self).never_fails(),
            old(self).never_fails() ==> r is Ok,
            r matches Ok(o) ==> {
                &&& found(o) == old(self).model().get(Self::slot(table@, key@))
                &&& final(self).model() == old(self).model().remove(Self::slot(table@, key@))
            },
            final(self).writes() == old(self).writes().push(
                (WriteCall { table: table@, key: key@, value: None, answer: r }),
            ),
    ;

    /// Every pair of `table`.
    fn get_all(&self, table: &str) -> (r: Result<Vec<Kvpair>, KvError>)
        requires
            self.inv(),
            self.listable(table@),
        ensures
            self.never_fails() ==> r is Ok,
            r matches Ok(pairs) ==> self.listing(table@, pairs@.map_values(|p: Kvpair| p@)),
    ;

    /// Every pair of `table`, handed out one by one.
    fn get_iter(&self, table: &str) -> (r: Result<StorageIter<Kvpair>, KvError>)
        requires
            self.inv(),
            self.listable(table@),
        ensures
            self.never_fails() ==> r is Ok,
            r matches Ok(it) ==> self.listing(
                table@,
                it.remaining().map_values(|p: Kvpair| p@),
            ),
    ;
}

/// Reading a key right after writing it gives back what was written.
pub proof fn law_read_after_write<S: Storage>(
    before: S,
    after: S,
    table: Seq<char>,
    key: Seq<char>,
    v: Option<ValueView>,
)
    requires
        after.model() == before.model().insert(S::slot(table, key), v),
    ensures
        after.model().contains_key(S::slot(table, key)),
        after.model().get(S::slot(table, key)) == Some(v),
{
}

/// A write touches only its own slot: every other slot keeps its value.
pub proof fn law_write_keeps_other_slots<S: Storage>(
    before: S,
    after: S,
    table: Seq<char>,
    key: Seq<char>,
    v: Option<ValueView>,
    other: S::Slot,
)
    requires
        after.model() == before.model().insert(S::slot(table, key), v),
        other != S::slot(table, key),
    ensures
        after.model().get(other) == before.model().get(other),
{
}

/// After a key is removed, reading it finds nothing, and removing it again
/// gives back nothing.
pub proof fn law_absent_after_delete<S: Storage>(
    before: S,
    after: S,
    table: Seq<char>,
    key: Seq<char>,
)
    requires
        after.model() == before.model().remove(S::slot(table, key)),
    ensures
        !after.model().contains_key(S::slot(table, key)),
        after.model().get(S::slot(table, key)) == None::<Option<ValueView>>,
{
}

/// Asking whether a key is there agrees with reading it.
pub proof fn law_contains_agrees_with_get<S: Storage>(store: S, table: Seq<char>, key: Seq<char>)
    ensures
        store.model().contains_key(S::slot(table, key)) <==> store.model().get(S::slot(table, key)) is Some,
{
}

/// Items handed out one at a time, first to last.
pub struct StorageIter<T> {
    /// The items still to come, the next one last.
    data: Vec<T>,
}

impl<T> StorageIter<T> {
    /// The items still to come, in order.
    pub closed spec fn remaining(&self) -> Seq<T> {
        self.data@.reverse()
    }

    /// Hands out `data` from first to last.
    pub fn new(data: Vec<T>) -> (r: Self)
        ensures
            r.remaining() == data@,
    {
        let mut data = data;
        let ghost all = data@;
        let mut rev: Vec<T> = Vec::new();
        while data.len() > 0
            invariant
                all == data@ + rev@.reverse(),
            decreases data.len(),
        {
            let ghost before = data@;
            let x = data.pop().unwrap();
            rev.push(x);
            proof {
                assert(before == data@.push(x));
                assert(rev@.reverse() == seq![x] + rev@.drop_last().reverse()) by {
                    assert(rev@.drop_last().reverse().len() + 1 == rev@.reverse().len());
                    assert(rev@.reverse() =~= seq![x] + rev@.drop_last().reverse());
                }
                assert(all =~= data@ + rev@.reverse());
            }
        }
        assert(all =~= rev@.reverse());
        StorageIter { data: rev }
    }

    /// The next item, if any is left.
    pub fn next(&mut self) -> (r: Option<T>)
        ensures
            old(self).remaining().len() == 0 ==> r is None && final(self).remaining() == old(self).remaining(),
            old(self).remaining().len() > 0 ==> r == Some(old(self).remaining()[0])
                && final(self).remaining() == old(self).remaining().drop_first(),
    {
        let r = self.data.pop();
        proof {
            if old(self).data@.len() > 0 {
                assert(old(self).data@ == self.data@.push(r.unwrap()));
                assert(self.data@.reverse() =~= old(self).data@.reverse().drop_first());
            }
        }
        r
    }

    /// All the items still to come, in order.
    pub fn collect_rest(self) -> (r: Vec<T>)
        ensures
            r@ == self.remaining(),
    {
        let mut it = self;
        let mut out: Vec<T> = Vec::new();
        let ghost all = it.remaining();
        while it.data.len() > 0
            invariant
                all == out@ + it.remaining(),
            decreases it.data.len(),
        {
            let x = it.next().unwrap();
            out.push(x);
            assert(all =~= out@ + it.remaining());
        }
        assert(it.remaining() =~= Seq::<T>::empty());
        assert(all =~= out@);
        out
    }
}

} // verus!
