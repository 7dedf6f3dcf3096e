use vstd::prelude::*;
use vstd::string::{StrSliceExecFns, StringExecFns};
use crate::error::KvError;
use crate::pb::abi::{Kvpair, KvpairView, Value, ValueView};
use crate::pb::codec::{decode_value, encode_value, is_value_bytes, stored_value, value_bytes};
use crate::storage::{Storage, StorageIter, WriteCall};

verus! {

/// A sled database handle, opaque here.
#[verifier::external_type_specification]
#[verifier::external_body]
pub struct ExDb(sled::Db);

/// A sled error, opaque here.
#[verifier::external_type_specification]
#[verifier::external_body]
pub struct ExSledError(sled::Error);

/// What a sled database holds: each key with its value. The database is only
/// changed through this crate's wrappers, which take it by `&mut`.
pub uninterp spec fn sled_contents(db: sled::Db) -> Map<Seq<u8>, Seq<u8>>;

/// Calls `sled::open`: opens the database kept under `path`. Nothing is
/// claimed of the result: what the database holds is whatever the files under
/// `path` hold, and whether opening succeeds depends on the disk.
#[verifier::external_body]
fn db_open(path: &str) -> (r: Result<sled::Db, sled::Error>) {
    sled::open(path)
}

/// Calls `sled::Tree::get`. Claimed: an `Ok` answer is the value that the
/// database holds under `key`, or `None` where it holds none. Nothing is
/// claimed of when an error comes.
#[verifier::external_body]
fn db_get(db: &sled::Db, key: &[u8]) -> (r: Result<Option<Vec<u8>>, sled::Error>)
    ensures
        r matches Ok(o) ==> match o {
            Some(v) => sled_contents(*db).contains_key(key@) && v@ == sled_contents(*db)[key@],
            None => !sled_contents(*db).contains_key(key@),
        },
{
    match db.get(key) {
        Ok(Some(v)) => Ok(Some(v.to_vec())),
        Ok(None) => Ok(None),
        Err(e) => Err(e),
    }
}

/// Calls `sled::Tree::insert`. Claimed: after an `Ok` answer the database
/// holds `value` under `key` and nothing else changed, and the answer is the
/// value it held there before, or `None`. Nothing is claimed of when an error
/// comes, nor of the contents after one.
#[verifier::external_body]
fn db_insert(db: &mut sled::Db, key: &[u8], value: Vec<u8>) -> (r: Result<Option<Vec<u8>>, sled::Error>)
    ensures
        r matches Ok(o) ==> {
            &&& match o {
                Some(v) => sled_contents(*old(db)).contains_key(key@) && v@ == sled_contents(*old(db))[key@],
                None => !sled_contents(*old(db)).contains_key(key@),
            }
            &&& sled_contents(*final(db)) == sled_contents(*old(db)).insert(key@, value@)
        },
{
    match db.insert(key, value) {
        Ok(Some(v)) => Ok(Some(v.to_vec())),
        Ok(None) => Ok(None),
        Err(e) => Err(e),
    }
}

/// Calls `sled::Tree::remove`. Claimed: after an `Ok` answer the database no
/// longer holds `key` and nothing else changed, and the answer is the value it
/// held there before, or `None`. Nothing is claimed of when an error comes, nor
/// of the contents after one.
#[verifier::external_body]
fn db_remove(db: &mut sled::Db, key: &[u8]) -> (r: Result<Option<Vec<u8>>, sled::Error>)
    ensures
        r matches Ok(o) ==> {
            &&& match o {
                Some(v) => sled_contents(*old(db)).contains_key(key@) && v@ == sled_contents(*old(db))[key@],
                None => !sled_contents(*old(db)).contains_key(key@),
            }
            &&& sled_contents(*final(db)) == sled_contents(*old(db)).remove(key@)
        },
{
    match db.remove(key) {
        Ok(Some(v)) => Ok(Some(v.to_vec())),
        Ok(None) => Ok(None),
        Err(e) => Err(e),
    }
}

/// Calls `sled::Tree::contains_key`. Claimed: an `Ok` answer says whether the
/// database holds `key`. Nothing is claimed of when an error comes.
#[verifier::external_body]
fn db_contains_key(db: &sled::Db, key: &[u8]) -> (r: Result<bool, sled::Error>)
    ensures
        r matches Ok(b) ==> b == sled_contents(*db).contains_key(key@),
{
    db.contains_key(key)
}

/// The view of the items of a scan: each entry, or `None` for a failed step.
pub open spec fn scan_view(items: Seq<Result<(Vec<u8>, Vec<u8>), sled::Error>>) -> Seq<Option<(Seq<u8>, Seq<u8>)>> {
    items.map_values(|it: Result<(Vec<u8>, Vec<u8>), sled::Error>| match it {
        Ok((k, v)) => Some((k@, v@)),
        Err(_) => None,
    })
}

/// `items` is what a scan of `contents` for keys starting with `prefix` may
/// hand out: stored entries with that prefix, each key once, and, when no step
/// failed, every such entry.
pub open spec fn scanned(
    contents: Map<Seq<u8>, Seq<u8>>,
    prefix: Seq<u8>,
    items: Seq<Option<(Seq<u8>, Seq<u8>)>>,
) -> bool {
    &&& forall|i: int|
        0 <= i < items.len() ==> (#[trigger] items[i] matches Some((k, v)) ==> prefix.is_prefix_of(k)
            && contents.contains_key(k) && contents[k] == v)
    &&& forall|i: int, j: int|
        0 <= i < j < items.len() && #[trigger] items[i] is Some && #[trigger] items[j] is Some
            ==> items[i].unwrap().0 != items[j].unwrap().0
    &&& (forall|i: int| 0 <= i < items.len() ==> #[trigger] items[i] is Some) ==> forall|k: Seq<u8>|
        #[trigger] contents.contains_key(k) && prefix.is_prefix_of(k) ==> exists|i: int|
            0 <= i < items.len() && #[trigger] items[i] == Some((k, contents[k]))
}

/// Calls `sled::Tree::scan_prefix` and collects every step of the scan, each
/// entry's key and value copied out. Claimed: every entry handed out is stored
/// in the database and its key starts with `prefix`; no key comes twice; when
/// no step fails, every stored key that starts with `prefix` comes. The order
/// (sled's key order) and when a step fails are not claimed.
#[verifier::external_body]
fn db_scan_prefix(db: &sled::Db, prefix: &[u8]) -> (r: Vec<Result<(Vec<u8>, Vec<u8>), sled::Error>>)
    ensures
        scanned(sled_contents(*db), prefix@, scan_view(r@)),
{
    let mut out = Vec::new();
    for item in db.scan_prefix(prefix) {
        out.push(item.map(|(k, v)| (k.to_vec(), v.to_vec())));
    }
    out
}

/// Formats a sled error with its `Display`. Nothing is claimed of the text.
#[verifier::external_body]
fn sled_error_text(e: &sled::Error) -> String {
    format!("{}", e)
}

/// The store's error for a failed database call.
fn storage_error(e: sled::Error) -> (r: KvError)
    ensures
        r is StorageError,
{
    KvError::StorageError(sled_error_text(&e))
}

/// The first place at or after `from` where `s` holds `':'`, or its length.
pub open spec fn colon_from(s: Seq<char>, from: int) -> int
    decreases s.len() - from,
{
    if from >= s.len() {
        s.len() as int
    } else if s[from] == ':' {
        from
    } else {
        colon_from(s, from + 1)
    }
}

/// What follows the first `':'` of `s`, up to the next `':'`.
pub open spec fn second_field(s: Seq<char>) -> Seq<char> {
    let first = colon_from(s, 0);
    s.subrange(first + 1, colon_from(s, first + 1))
}

/// The full key of `key` in `table`.
pub open spec fn full_key(table: Seq<char>, key: Seq<char>) -> Seq<char> {
    table + ":"@ + key
}

/// The prefix that the full keys of `table` share.
pub open spec fn table_prefix(table: Seq<char>) -> Seq<char> {
    table + ":"@
}

/// A stored key is text with a `':'` in it.
pub open spec fn readable_key(k: Seq<u8>) -> bool {
    vstd::utf8::valid_utf8(k) && vstd::utf8::decode_utf8(k).contains(':')
}

/// The pair a scanned entry stands for; a failed step, or bytes that are no
/// value, stand for the empty pair.
pub open spec fn entry_pair(item: Option<(Seq<u8>, Seq<u8>)>) -> KvpairView {
    match item {
        Some((k, v)) => if is_value_bytes(v) {
            KvpairView { key: second_field(vstd::utf8::decode_utf8(k)), value: Some(stored_value(v)) }
        } else {
            KvpairView { key: Seq::empty(), value: None }
        },
        None => KvpairView { key: Seq::empty(), value: None },
    }
}

/// A store kept in a sled database. The key of a value is its table, a `':'`
/// and its key, as UTF-8 bytes; the value is kept in its protobuf encoding.
pub struct Sleddb {
    db: sled::Db,
    log: Ghost<Seq<WriteCall>>,
}

impl Sleddb {
    /// Opens the database kept under `path`.
    pub fn new(path: &str) -> (r: Result<Self, KvError>)
        ensures
            r matches Err(e) ==> e is StorageError,
            r matches Ok(s) ==> s.writes() == Seq::<WriteCall>::empty(),
    {
        match db_open(path) {
            Ok(db) => Ok(Sleddb { db, log: Ghost(Seq::empty()) }),
            Err(e) => Err(storage_error(e)),
        }
    }

    /// What the database holds.
    pub closed spec fn contents(&self) -> Map<Seq<u8>, Seq<u8>> {
        sled_contents(self.db)
    }

    /// The full key of `key` in `table`: the table, a `':'` and the key.
    pub fn get_full_key(table: &str, key: &str) -> (r: String)
        ensures
            r@ == full_key(table@, key@),
    {
        let mut r = String::from_str(table);
        r.append(":");
        r.append(key);
        r
    }

    /// The start that every full key of `table` has: the table and a `':'`.
    pub fn get_table_prefix(table: &str) -> (r: String)
        ensures
            r@ == table_prefix(table@),
    {
        let mut r = String::from_str(table);
        r.append(":");
        r
    }

    /// Whether `table` can be listed: it scans the table and answers as
    /// `scan_check` does for that scan.
    pub fn can_list(&self, table: &str) -> (r: Result<bool, KvError>)
        ensures
            exists|items: Seq<Option<(Seq<u8>, Seq<u8>)>>|
                #[trigger] scanned(self.contents(), vstd::utf8::encode_utf8(table_prefix(table@)), items)
                    && check_reply(items, r),
            r == Ok::<bool, KvError>(true) ==> self.listable(table@),
            r == Ok::<bool, KvError>(false) ==> !self.listable(table@),
    {
        let prefix = Sleddb::get_table_prefix(table);
        let items = db_scan_prefix(&self.db, prefix.as_str().as_bytes());
        let ghost view = scan_view(items@);
        let ghost pre = vstd::utf8::encode_utf8(table_prefix(table@));
        let r = scan_check(&items);
        proof {
            assert(scanned(self.contents(), pre, view));
            lemma_check_outcome(view);
            if r == Ok::<bool, KvError>(false) {
                let i = choose|i: int| 0 <= i < view.len() && (#[trigger] view[i] matches Some((k, v))
                    && !entry_readable(k, v));
                let k = view[i].unwrap().0;
                assert(self.contents().contains_key(k) && pre.is_prefix_of(k));
            }
            if r == Ok::<bool, KvError>(true) {
                assert forall|k: Seq<u8>|
                    #[trigger] self.contents().contains_key(k) && pre.is_prefix_of(k) implies entry_readable(
                    k,
                    self.contents()[k],
                ) by {
                    let j = choose|j: int| 0 <= j < view.len() && #[trigger] view[j] == Some((k, self.contents()[k]));
                }
            }
        }
        r
    }
}

/// A scanned entry can become a pair: its key is text with a `':'`, or its
/// value does not decode (the entry then stands for the empty pair).
pub open spec fn entry_readable(k: Seq<u8>, v: Seq<u8>) -> bool {
    is_value_bytes(v) ==> readable_key(k)
}

/// What checking a scan finds, step by step: `None` at a failed step,
/// `Some(false)` at an entry that cannot become a pair, whichever comes
/// first, and `Some(true)` when neither comes.
pub open spec fn check_outcome(items: Seq<Option<(Seq<u8>, Seq<u8>)>>) -> Option<bool>
    decreases items.len(),
{
    if items.len() == 0 {
        Some(true)
    } else {
        match items[0] {
            None => None,
            Some((k, v)) => if !entry_readable(k, v) {
                Some(false)
            } else {
                check_outcome(items.drop_first())
            },
        }
    }
}

/// The answer that checking `items` gives: a storage error at a failed
/// step, and else what `check_outcome` finds.
pub open spec fn check_reply(items: Seq<Option<(Seq<u8>, Seq<u8>)>>, r: Result<bool, KvError>) -> bool {
    match check_outcome(items) {
        None => r matches Err(e) && e is StorageError,
        Some(b) => r == Ok::<bool, KvError>(b),
    }
}

/// What `check_outcome` finds tells about the entries of the scan.
proof fn lemma_check_outcome(items: Seq<Option<(Seq<u8>, Seq<u8>)>>)
    ensures
        check_outcome(items) == Some(true) ==> forall|i: int|
            0 <= i < items.len() ==> (#[trigger] items[i] matches Some((k, v)) && entry_readable(k, v)),
        check_outcome(items) == Some(false) ==> exists|i: int|
            0 <= i < items.len() && (#[trigger] items[i] matches Some((k, v)) && !entry_readable(k, v)),
    decreases items.len(),
{
    if items.len() > 0 {
        let rest = items.drop_first();
        lemma_check_outcome(rest);
        if check_outcome(items) == Some(true) {
            assert forall|i: int| 0 <= i < items.len() implies (#[trigger] items[i] matches Some((k, v))
                && entry_readable(k, v)) by {
                if i > 0 {
                    assert(rest[i - 1] == items[i]);
                }
            }
        }
        if check_outcome(items) == Some(false) {
            if items[0] is Some && !entry_readable(items[0].unwrap().0, items[0].unwrap().1) {
                assert(items[0] matches Some((k, v)) && !entry_readable(k, v));
            } else {
                let j = choose|j: int| 0 <= j < rest.len() && (#[trigger] rest[j] matches Some((k, v))
                    && !entry_readable(k, v));
                assert(rest[j] == items[j + 1]);
            }
        }
    }
}

/// Checks the entries of a scan, first to last, as `check_reply` says.
pub fn scan_check(items: &Vec<Result<(Vec<u8>, Vec<u8>), sled::Error>>) -> (r: Result<bool, KvError>)
    ensures
        check_reply(scan_view(items@), r),
{
    let ghost view = scan_view(items@);
    let mut i: usize = 0;
    assert(view.skip(0) =~= view);
    while i < items.len()
        invariant
            view == scan_view(items@),
            i <= items@.len(),
            check_outcome(view) == check_outcome(view.skip(i as int)),
        decreases items@.len() - i,
    {
        let ghost rest = view.skip(i as int);
        assert(rest[0] == view[i as int]);
        assert(rest.drop_first() =~= view.skip(i + 1));
        match &items[i] {
            Ok((k, v)) => {
                let decodes = decode_value(v.as_slice()).is_ok();
                if decodes && !readable(k.as_slice()) {
                    return Ok(false);
                }
            },
            Err(e) => {
                return Err(KvError::StorageError(sled_error_text(e)));
            },
        }
        i += 1;
    }
    assert(view.skip(i as int) =~= Seq::<Option<(Seq<u8>, Seq<u8>)>>::empty());
    Ok(true)
}

/// The database holds bytes under `key` that are no value's encoding.
pub open spec fn undecodable_at(contents: Map<Seq<u8>, Seq<u8>>, key: Seq<u8>) -> bool {
    contents.contains_key(key) && !is_value_bytes(contents[key])
}

/// What a read of a stored value answers, given what the database answered:
/// nothing, the value its bytes encode, or the error.
pub open spec fn stored_reply_spec(
    got: Result<Option<Vec<u8>>, sled::Error>,
    r: Result<Option<Value>, KvError>,
) -> bool {
    match got {
        Ok(None) => r == Ok::<Option<Value>, KvError>(None),
        Ok(Some(b)) => if is_value_bytes(b@) {
            r matches Ok(Some(v)) && v@ == stored_value(b@)
        } else {
            r matches Err(e) && e is DecodeError
        },
        Err(_) => r matches Err(e) && e is StorageError,
    }
}

/// The answer to a read, given what the database answered.
pub fn stored_reply(got: Result<Option<Vec<u8>>, sled::Error>) -> (r: Result<Option<Value>, KvError>)
    ensures
        stored_reply_spec(got, r),
        r matches Ok(o) ==> match got {
            Ok(g) => match g {
                Some(b) => crate::storage::found(o) == Some(stored_value(b@)),
                None => o is None,
            },
            Err(_) => false,
        },
{
    let result = match got {
        Ok(Some(v)) => Some(decode_value(v.as_slice())),
        Ok(None) => None,
        Err(e) => {
            return Err(storage_error(e));
        },
    };
    flip(result)
}

/// The answer to "is this key stored?", given what the database answered.
pub fn presence_reply(got: Result<bool, sled::Error>) -> (r: Result<bool, KvError>)
    ensures
        match got {
            Ok(b) => r == Ok::<bool, KvError>(b),
            Err(_) => r matches Err(e) && e is StorageError,
        },
{
    match got {
        Ok(b) => Ok(b),
        Err(e) => Err(storage_error(e)),
    }
}

/// The pair that a scanned entry stands for.
fn pair_from_entry(item: &Result<(Vec<u8>, Vec<u8>), sled::Error>) -> (r: Kvpair)
    requires
        item matches Ok((k, v)) ==> entry_readable(k@, v@),
    ensures
        r@ == entry_pair(match item {
            Ok((k, v)) => Some((k@, v@)),
            Err(_) => None,
        }),
{
    match item {
        Err(_) => Kvpair::default(),
        Ok((k, v)) => match decode_value(v.as_slice()) {
            Err(_) => Kvpair::default(),
            Ok(val) => {
                Kvpair { key: ivec_to_key(k.as_slice()), value: Some(val) }
            },
        },
    }
}

/// The pairs that the entries of a scan stand for, in scan order.
pub fn pairs_from_scan(items: &Vec<Result<(Vec<u8>, Vec<u8>), sled::Error>>) -> (r: Vec<Kvpair>)
    requires
        forall|i: int| 0 <= i < items@.len() ==> (#[trigger] scan_view(items@)[i] matches Some((k, v))
            ==> entry_readable(k, v)),
    ensures
        r@.map_values(|p: Kvpair| p@) == scan_view(items@).map_values(
            |it: Option<(Seq<u8>, Seq<u8>)>| entry_pair(it),
        ),
{
    let ghost view = scan_view(items@);
    let mut pairs: Vec<Kvpair> = Vec::new();
    let mut i: usize = 0;
    while i < items.len()
        invariant
            view == scan_view(items@),
            forall|j: int| 0 <= j < items@.len() ==> (#[trigger] view[j] matches Some((k, v)) ==> entry_readable(k, v)),
            i <= items@.len(),
            pairs@.len() == i,
            forall|j: int| 0 <= j < i ==> (#[trigger] pairs@[j])@ == entry_pair(view[j]),
        decreases items@.len() - i,
    {
        assert(view[i as int] == match items@[i as int] {
            Ok((k, v)) => Some((k@, v@)),
            Err(_) => None::<(Seq<u8>, Seq<u8>)>,
        });
        let p = pair_from_entry(&items[i]);
        pairs.push(p);
        i += 1;
    }
    proof {
        let ps = pairs@.map_values(|p: Kvpair| p@);
        assert(ps =~= view.map_values(|it: Option<(Seq<u8>, Seq<u8>)>| entry_pair(it)));
    }
    pairs
}

impl Sleddb {
    /// The pairs of `table`, one for each step of a scan of its keys.
    fn list(&self, table: &str) -> (r: Vec<Kvpair>)
        requires
            self.listable(table@),
        ensures
            self.listing(table@, r@.map_values(|p: Kvpair| p@)),
    {
        let prefix = Sleddb::get_table_prefix(table);
        let items = db_scan_prefix(&self.db, prefix.as_str().as_bytes());
        let ghost view = scan_view(items@);
        let ghost pre = vstd::utf8::encode_utf8(table_prefix(table@));
        proof {
            assert forall|i: int| 0 <= i < items@.len() implies (#[trigger] view[i] matches Some((k, v))
                ==> entry_readable(k, v)) by {
                if view[i] is Some {
                    let k = view[i].unwrap().0;
                    assert(self.contents().contains_key(k) && pre.is_prefix_of(k));
                }
            }
        }
        let r = pairs_from_scan(&items);
        proof {
            assert(scanned(self.contents(), pre, view));
            assert(r@.map_values(|p: Kvpair| p@) == view.map_values(
                |it: Option<(Seq<u8>, Seq<u8>)>| entry_pair(it),
            ));
        }
        r
    }
}

impl Storage for Sleddb {
    type Slot = Seq<u8>;

    open spec fn slot(table: Seq<char>, key: Seq<char>) -> Seq<u8> {
        vstd::utf8::encode_utf8(full_key(table, key))
    }

    open spec fn model(&self) -> Map<Seq<u8>, Option<ValueView>> {
        self.contents().map_values(|b: Seq<u8>| stored_value(b))
    }

    open spec fn inv(&self) -> bool {
        true
    }

    open spec fn never_fails(&self) -> bool {
        false
    }

    closed spec fn writes(&self) -> Seq<WriteCall> {
        self.log@
    }

    open spec fn listing(&self, table: Seq<char>, pairs: Seq<KvpairView>) -> bool {
        exists|items: Seq<Option<(Seq<u8>, Seq<u8>)>>|
            scanned(self.contents(), vstd::utf8::encode_utf8(table_prefix(table)), items)
                && pairs == items.map_values(|it: Option<(Seq<u8>, Seq<u8>)>| entry_pair(it))
    }

    open spec fn listable(&self, table: Seq<char>) -> bool {
        forall|k: Seq<u8>|
            #[trigger] self.contents().contains_key(k) && vstd::utf8::encode_utf8(
                table_prefix(table),
            ).is_prefix_of(k) ==> entry_readable(k, self.contents()[k])
    }

    fn get(&self, table: &str, key: &str) -> (r: Result<Option<Value>, KvError>)
        ensures
            r matches Err(e) ==> e is StorageError || (e is DecodeError && undecodable_at(
                self.contents(),
                Self::slot(table@, key@),
            )),
    {
        let name = Sleddb::get_full_key(table, key);
        let got = db_get(&self.db, name.as_str().as_bytes());
        let ghost g = got;
        let r = stored_reply(got);
        assert(stored_reply_spec(g, r));
        r
    }

    fn set(&mut self, table: &str, key: &str, value: Value) -> (r: Result<Option<Value>, KvError>)
        ensures
            r matches Err(e) ==> e is StorageError || (e is DecodeError && undecodable_at(
                old(self).contents(),
                Self::slot(table@, key@),
            ) && final(self).model() == old(self).model().insert(Self::slot(table@, key@), value@)),
    {
        let name = Sleddb::get_full_key(table, key);
        let data = encode_value(&value);
        let ghost encoded = data@;
        assert(encoded.len() == data.len());
        let ghost k = name@;
        let ghost before = self.contents();
        let got = db_insert(&mut self.db, name.as_str().as_bytes(), data);
        let ghost went_through = got is Ok;
        let ghost g = got;
        let r = stored_reply(got);
        proof {
            let s = Self::slot(table@, key@);
            crate::pb::codec::law_value_roundtrip(value@);
            assert(stored_reply_spec(g, r));
            if went_through {
                assert(self.contents() == before.insert(s, value_bytes(value@)));
                assert(self.model() =~= old(self).model().insert(s, value@));
            }
            self.log@ = self.log@.push(WriteCall { table: table@, key: key@, value: Some(value@), answer: r });
        }
        r
    }

    fn contains(&self, table: &str, key: &str) -> (r: Result<bool, KvError>)
        ensures
            r matches Err(e) ==> e is StorageError,
    {
        let name = Sleddb::get_full_key(table, key);
        presence_reply(db_contains_key(&self.db, name.as_str().as_bytes()))
    }

    fn del(&mut self, table: &str, key: &str) -> (r: Result<Option<Value>, KvError>)
        ensures
            r matches Err(e) ==> e is StorageError || (e is DecodeError && undecodable_at(
                old(self).contents(),
                Self::slot(table@, key@),
            ) && final(self).model() == old(self).model().remove(Self::slot(table@, key@))),
    {
        let name = Sleddb::get_full_key(table, key);
        let ghost before = self.contents();
        let got = db_remove(&mut self.db, name.as_str().as_bytes());
        let ghost went_through = got is Ok;
        let ghost g = got;
        let r = stored_reply(got);
        proof {
            let s = Self::slot(table@, key@);
            assert(stored_reply_spec(g, r));
            if went_through {
                assert(self.model() =~= old(self).model().remove(s));
            }
            self.log@ = self.log@.push(WriteCall { table: table@, key: key@, value: None, answer: r });
        }
        r
    }

    fn get_all(&self, table: &str) -> (r: Result<Vec<Kvpair>, KvError>)
        ensures
            r is Ok,
    {
        Ok(self.list(table))
    }

    fn get_iter(&self, table: &str) -> (r: Result<StorageIter<Kvpair>, KvError>)
        ensures
            r is Ok,
    {
        let pairs = self.list(table);
        Ok(StorageIter::new(pairs))
    }
}

/// Whether `k` is UTF-8 text with a `':'`.
fn readable(k: &[u8]) -> (r: bool)
    ensures
        r == readable_key(k@),
{
    match crate::pb::codec::utf8_text(k) {
        None => false,
        Some(s) => {
            let n = s.unicode_len();
            let mut i: usize = 0;
            while i < n
                invariant
                    n == s@.len(),
                    i <= n,
                    forall|j: int| 0 <= j < i ==> s@[j] != ':',
                    s@ == vstd::utf8::decode_utf8(k@),
                    vstd::utf8::valid_utf8(k@),
                decreases n - i,
            {
                if s.get_char(i) == ':' {
                    assert(s@[i as int] == ':');
                    assert(s@.contains(':'));
                    assert(vstd::utf8::decode_utf8(k@) == s@);
                    return true;
                }
                i += 1;
            }
            false
        },
    }
}

/// `colon_from` finds the first `':'` at or after `from`.
proof fn lemma_colon_from(s: Seq<char>, from: int, target: int)
    requires
        0 <= from <= target <= s.len(),
        forall|j: int| from <= j < target ==> s[j] != ':',
        target == s.len() || s[target] == ':',
    ensures
        colon_from(s, from) == target,
    decreases target - from,
{
    if from < target {
        lemma_colon_from(s, from + 1, target);
    }
}

/// Taking the key back out of a full key gives the key, where neither the
/// table nor the key holds a `':'`; the bytes of such a full key can always
/// be read back.
pub proof fn law_key_roundtrip(table: Seq<char>, key: Seq<char>)
    requires
        !table.contains(':'),
        !key.contains(':'),
    ensures
        readable_key(vstd::utf8::encode_utf8(full_key(table, key))),
        second_field(vstd::utf8::decode_utf8(vstd::utf8::encode_utf8(full_key(table, key)))) == key,
{
    let s = full_key(table, key);
    reveal_strlit(":");
    vstd::utf8::encode_utf8_valid_utf8(s);
    vstd::utf8::encode_utf8_decode_utf8(s);
    let t = table.len() as int;
    assert(s[t] == ':');
    assert(s.contains(':'));
    assert forall|j: int| 0 <= j < t implies s[j] != ':' by {
        assert(s[j] == table[j]);
        assert(table.contains(table[j]));
    }
    lemma_colon_from(s, 0, t);
    assert forall|j: int| t + 1 <= j < s.len() implies s[j] != ':' by {
        assert(s[j] == key[j - t - 1]);
        assert(key.contains(key[j - t - 1]));
    }
    lemma_colon_from(s, t + 1, s.len() as int);
    assert(s.subrange(t + 1, s.len() as int) =~= key);
}

/// The key of a full key: what follows its first `':'`, up to the next.
pub fn ivec_to_key(ivec: &[u8]) -> (r: String)
    requires
        readable_key(ivec@),
    ensures
        r@ == second_field(vstd::utf8::decode_utf8(ivec@)),
{
    let s = match crate::pb::codec::utf8_text(ivec) {
        Some(s) => s,
        None => {
            return String::new();
        },
    };
    let n = s.unicode_len();
    let mut i: usize = 0;
    while i < n && s.get_char(i) != ':'
        invariant
            n == s@.len(),
            i <= n,
            colon_from(s@, 0) == colon_from(s@, i as int),
        decreases n - i,
    {
        i += 1;
    }
    proof {
        if i >= n {
            let j = choose|j: int| 0 <= j < s@.len() && s@[j] == ':';
            lemma_colon_from_finds(s@, 0, j);
        }
    }
    let start = i + 1;
    let mut j: usize = start;
    while j < n && s.get_char(j) != ':'
        invariant
            n == s@.len(),
            start <= j <= n,
            colon_from(s@, start as int) == colon_from(s@, j as int),
        decreases n - j,
    {
        j += 1;
    }
    s.substring_char(start, j).to_owned()
}

/// `colon_from` finds a `':'` that lies at or after `from`.
proof fn lemma_colon_from_finds(s: Seq<char>, from: int, j: int)
    requires
        0 <= from <= j < s.len(),
        s[j] == ':',
    ensures
        colon_from(s, from) <= j,
        colon_from(s, from) < s.len(),
    decreases j - from,
{
    if s[from] != ':' {
        lemma_colon_from_finds(s, from + 1, j);
    }
}

/// Turns an optional result into a result of an option.
pub fn flip<T, E>(x: Option<Result<T, E>>) -> (r: Result<Option<T>, E>)
    ensures
        r == match x {
            None => Ok(None),
            Some(Ok(v)) => Ok(Some(v)),
            Some(Err(e)) => Err(e),
        },
{
    match x {
        None => Ok(None),
        Some(Ok(v)) => Ok(Some(v)),
        Some(Err(e)) => Err(e),
    }
}

} // verus!

verus! {

/// In a sled store, different places never share a slot as long as the table
/// names hold no `':'`. (With a `':'` they can: table `"a:b"`, key `"c"` and
/// table `"a"`, key `"b:c"` share the full key `"a:b:c"`.)
pub proof fn law_sled_places_are_separate(t1: Seq<char>, k1: Seq<char>, t2: Seq<char>, k2: Seq<char>)
    requires
        !t1.contains(':'),
        !t2.contains(':'),
        t1 != t2 || k1 != k2,
    ensures
        <Sleddb as Storage>::slot(t1, k1) != <Sleddb as Storage>::slot(t2, k2),
{
    if <Sleddb as Storage>::slot(t1, k1) == <Sleddb as Storage>::slot(t2, k2) {
        vstd::utf8::encode_utf8_decode_utf8(full_key(t1, k1));
        vstd::utf8::encode_utf8_decode_utf8(full_key(t2, k2));
        let f1 = full_key(t1, k1);
        let f2 = full_key(t2, k2);
        assert(f1 == f2);
        reveal_strlit(":");
        assert(f1[t1.len() as int] == ':');
        assert(f2[t2.len() as int] == ':');
        if t1.len() < t2.len() {
            assert(f2[t1.len() as int] == t2[t1.len() as int]);
        } else if t2.len() < t1.len() {
            assert(f1[t2.len() as int] == t1[t2.len() as int]);
        }
        assert(t1 =~= f1.subrange(0, t1.len() as int));
        assert(t2 =~= f2.subrange(0, t2.len() as int));
        assert(k1 =~= f1.subrange(t1.len() as int + 1, f1.len() as int));
        assert(k2 =~= f2.subrange(t2.len() as int + 1, f2.len() as int));
    }
}

} // verus!

verus! {

/// The keys a scan handed out, in scan order.
pub open spec fn scan_keys(items: Seq<Option<(Seq<u8>, Seq<u8>)>>) -> Seq<Seq<u8>> {
    items.map_values(|it: Option<(Seq<u8>, Seq<u8>)>| it.unwrap().0)
}

/// A scan that went through is no longer than another scan of the same keys.
proof fn lemma_scan_len(
    contents: Map<Seq<u8>, Seq<u8>>,
    prefix: Seq<u8>,
    items1: Seq<Option<(Seq<u8>, Seq<u8>)>>,
    items2: Seq<Option<(Seq<u8>, Seq<u8>)>>,
)
    requires
        scanned(contents, prefix, items1),
        scanned(contents, prefix, items2),
        forall|i: int| 0 <= i < items1.len() ==> #[trigger] items1[i] is Some,
        forall|i: int| 0 <= i < items2.len() ==> #[trigger] items2[i] is Some,
    ensures
        items1.len() <= items2.len(),
{
    let k1 = scan_keys(items1);
    let k2 = scan_keys(items2);
    assert(k1.no_duplicates()) by {
        assert forall|i: int, j: int| 0 <= i < k1.len() && 0 <= j < k1.len() && i != j implies k1[i] != k1[j] by {
            assert(items1[i] is Some && items1[j] is Some);
            if i < j {
                assert(items1[i].unwrap().0 != items1[j].unwrap().0);
            } else {
                assert(items1[j].unwrap().0 != items1[i].unwrap().0);
            }
        }
    }
    assert(k1.to_set().subset_of(k2.to_set())) by {
        assert forall|k: Seq<u8>| k1.to_set().contains(k) implies k2.to_set().contains(k) by {
            let i = choose|i: int| 0 <= i < k1.len() && k1[i] == k;
            assert(items1[i] is Some);
            assert(contents.contains_key(k) && prefix.is_prefix_of(k));
            let j = choose|j: int| 0 <= j < items2.len() && #[trigger] items2[j] == Some((k, contents[k]));
            assert(k2[j] == k);
        }
    }
    k1.unique_seq_to_set();
    k2.lemma_cardinality_of_set();
    vstd::set_lib::lemma_len_subset(k1.to_set(), k2.to_set());
}

/// Two listings of a sled table taken with no write between them, whose
/// scans both went through without a failed step, hold the same pairs: as
/// many of them, and each pair of one among the pairs of the other.
pub proof fn law_sled_listings_agree(
    contents: Map<Seq<u8>, Seq<u8>>,
    prefix: Seq<u8>,
    items1: Seq<Option<(Seq<u8>, Seq<u8>)>>,
    items2: Seq<Option<(Seq<u8>, Seq<u8>)>>,
)
    requires
        scanned(contents, prefix, items1),
        scanned(contents, prefix, items2),
        forall|i: int| 0 <= i < items1.len() ==> #[trigger] items1[i] is Some,
        forall|i: int| 0 <= i < items2.len() ==> #[trigger] items2[i] is Some,
    ensures
        items1.len() == items2.len(),
        forall|i: int|
            0 <= i < items1.len() ==> items2.map_values(|it: Option<(Seq<u8>, Seq<u8>)>| entry_pair(it)).contains(
                #[trigger] entry_pair(items1[i]),
            ),
{
    lemma_scan_len(contents, prefix, items1, items2);
    lemma_scan_len(contents, prefix, items2, items1);
    let p2 = items2.map_values(|it: Option<(Seq<u8>, Seq<u8>)>| entry_pair(it));
    assert forall|i: int| 0 <= i < items1.len() implies p2.contains(#[trigger] entry_pair(items1[i])) by {
        assert(items1[i] is Some);
        let k = items1[i].unwrap().0;
        assert(contents.contains_key(k) && prefix.is_prefix_of(k));
        let j = choose|j: int| 0 <= j < items2.len() && #[trigger] items2[j] == Some((k, contents[k]));
        assert(items1[i] == Some((k, contents[k])));
        assert(p2[j] == entry_pair(items1[i]));
    }
}

} // verus!
