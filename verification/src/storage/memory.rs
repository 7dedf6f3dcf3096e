use vstd::prelude::*;
use crate::error::KvError;
use crate::pb::abi::{Kvpair, KvpairView, Value, ValueView};
use crate::storage::{found, Storage, StorageIter, WriteCall};

verus! {

/// Where a value is kept in memory: its table and its key.
pub type Place = (Seq<char>, Seq<char>);

/// A stored value together with its place.
struct Entry {
    table: String,
    key: String,
    value: Value,
}

impl View for Entry {
    type V = (Place, Option<ValueView>);

    closed spec fn view(&self) -> (Place, Option<ValueView>) {
        ((self.table@, self.key@), self.value@)
    }
}

/// The map that a list of entries stands for; a later entry wins.
pub open spec fn model_of(es: Seq<(Place, Option<ValueView>)>) -> Map<Place, Option<ValueView>>
    decreases es.len(),
{
    if es.len() == 0 {
        Map::empty()
    } else {
        model_of(es.drop_last()).insert(es.last().0, es.last().1)
    }
}

/// No place occurs twice.
pub open spec fn distinct_places(es: Seq<(Place, Option<ValueView>)>) -> bool {
    forall|i: int, j: int| 0 <= i < j < es.len() ==> #[trigger] es[i].0 != #[trigger] es[j].0
}

/// `pairs` lists every key of `table` in `m` once, with its value.
pub open spec fn lists_table(
    m: Map<Place, Option<ValueView>>,
    table: Seq<char>,
    pairs: Seq<KvpairView>,
) -> bool {
    &&& forall|i: int|
        0 <= i < pairs.len() ==> m.contains_key((table, #[trigger] pairs[i].key))
            && pairs[i].value == Some(m[(table, pairs[i].key)])
    &&& forall|k: Seq<char>|
        #[trigger] m.contains_key((table, k)) ==> exists|i: int|
            0 <= i < pairs.len() && #[trigger] pairs[i].key == k
    &&& forall|i: int, j: int|
        0 <= i < j < pairs.len() ==> #[trigger] pairs[i].key != #[trigger] pairs[j].key
}

/// With distinct places, the map holds exactly the entries' places, each with its value.
proof fn lemma_model_of(es: Seq<(Place, Option<ValueView>)>)
    requires
        distinct_places(es),
    ensures
        forall|i: int|
            0 <= i < es.len() ==> model_of(es).contains_key(#[trigger] es[i].0)
                && model_of(es)[es[i].0] == es[i].1,
        forall|p: Place|
            #[trigger] model_of(es).contains_key(p) ==> exists|i: int|
                0 <= i < es.len() && #[trigger] es[i].0 == p,
    decreases es.len(),
{
    if es.len() > 0 {
        let init = es.drop_last();
        assert(distinct_places(init)) by {
            assert forall|i: int, j: int| 0 <= i < j < init.len() implies init[i].0 != init[j].0 by {
                assert(init[i] == es[i] && init[j] == es[j]);
            }
        }
        lemma_model_of(init);
        assert forall|i: int| 0 <= i < es.len() implies model_of(es).contains_key(
            #[trigger] es[i].0,
        ) && model_of(es)[es[i].0] == es[i].1 by {
            if i < es.len() - 1 {
                assert(init[i] == es[i]);
                assert(es[i].0 != es[es.len() - 1].0);
            }
        }
        assert forall|p: Place| #[trigger] model_of(es).contains_key(p) implies exists|i: int|
            0 <= i < es.len() && #[trigger] es[i].0 == p by {
            if p == es.last().0 {
                assert(es[es.len() - 1].0 == p);
            } else {
                assert(model_of(init).contains_key(p));
                let i = choose|i: int| 0 <= i < init.len() && #[trigger] init[i].0 == p;
                assert(es[i] == init[i]);
            }
        }
    }
}

/// A store that keeps its tables in memory.
pub struct MemTable {
    entries: Vec<Entry>,
    log: Ghost<Seq<WriteCall>>,
}

impl MemTable {
    /// The entries, as places and values.
    pub closed spec fn entries_view(&self) -> Seq<(Place, Option<ValueView>)> {
        self.entries@.map_values(|e: Entry| e@)
    }

    /// An empty store.
    pub fn new() -> (r: Self)
        ensures
            r.inv(),
            r.model() == Map::<Place, Option<ValueView>>::empty(),
            r.writes() == Seq::<WriteCall>::empty(),
    {
        let r = MemTable { entries: Vec::new(), log: Ghost(Seq::empty()) };
        assert(r.entries_view() =~= Seq::<(Place, Option<ValueView>)>::empty());
        r
    }

    /// The index of the entry kept at `(table, key)`, if there is one.
    fn find(&self, table: &String, key: &String) -> (r: Option<usize>)
        ensures
            r matches Some(i) ==> i < self.entries_view().len() && self.entries_view()[i as int].0 == (
            table@, key@),
            r is None ==> forall|i: int|
                0 <= i < self.entries_view().len() ==> #[trigger] self.entries_view()[i].0 != (
                table@, key@),
    {
        let mut i: usize = 0;
        while i < self.entries.len()
            invariant
                i <= self.entries.len(),
                forall|j: int| 0 <= j < i ==> #[trigger] self.entries_view()[j].0 != (table@, key@),
            decreases self.entries.len() - i,
        {
            if self.entries[i].table == *table && self.entries[i].key == *key {
                return Some(i);
            }
            i += 1;
        }
        None
    }
}

impl MemTable {
    /// Stores `value` at `(table, key)` and gives back the value it replaced.
    fn put_entry(&mut self, table: &str, key: &str, value: Value) -> (r: Result<Option<Value>, KvError>)
        requires
            old(self).inv(),
        ensures
            final(self).inv(),
            final(self).log == old(self).log,
            r matches Ok(o) && found(o) == old(self).model().get((table@, key@))
                && final(self).model() == old(self).model().insert((table@, key@), value@),
    {
        let t = table.to_owned();
        let k = key.to_owned();
        let ghost es = self.entries_view();
        let ghost s = (table@, key@);
        let ghost v = value@;
        proof {
            lemma_model_of(es);
        }
        match self.find(&t, &k) {
            Some(i) => {
                let prev = self.entries[i].value.clone();
                self.entries.set(i, Entry { table: t, key: k, value });
                proof {
                    let es2 = self.entries_view();
                    assert(es2 =~= es.update(i as int, (s, v)));
                    assert(distinct_places(es2)) by {
                        assert forall|a: int, b: int| 0 <= a < b < es2.len() implies es2[a].0
                            != es2[b].0 by {
                            assert(es2[a].0 == es[a].0 && es2[b].0 == es[b].0);
                        }
                    }
                    lemma_model_of(es2);
                    let m = model_of(es).insert(s, v);
                    assert forall|p: Place| #[trigger] model_of(es2).contains_key(p) implies m.contains_key(p) && model_of(es2)[p] == m[p] by {
                        let j = choose|j: int| 0 <= j < es2.len() && #[trigger] es2[j].0 == p;
                        if j != i {
                            assert(es2[j] == es[j]);
                        }
                    }
                    assert forall|p: Place| #[trigger] m.contains_key(p) implies model_of(es2).contains_key(p) by {
                        if p != s {
                            let j = choose|j: int| 0 <= j < es.len() && #[trigger] es[j].0 == p;
                            assert(es2[j] == es[j]);
                        } else {
                            assert(es2[i as int].0 == s);
                        }
                    }
                    assert(model_of(es2) =~= m);
                }
                Ok(Some(prev))
            },
            None => {
                self.entries.push(Entry { table: t, key: k, value });
                proof {
                    let es2 = self.entries_view();
                    assert(es2 =~= es.push((s, v)));
                    assert(es2.drop_last() =~= es);
                    assert(distinct_places(es2)) by {
                        assert forall|a: int, b: int| 0 <= a < b < es2.len() implies es2[a].0
                            != es2[b].0 by {
                            if b < es.len() {
                                assert(es2[a] == es[a] && es2[b] == es[b]);
                            } else {
                                assert(es2[a] == es[a]);
                            }
                        }
                    }
                    if model_of(es).contains_key(s) {
                        let j = choose|j: int| 0 <= j < es.len() && #[trigger] es[j].0 == s;
                    }
                }
                Ok(None)
            },
        }
    }

    /// Removes the entry at `(table, key)` and gives back the value it held.
    fn remove_entry(&mut self, table: &str, key: &str) -> (r: Result<Option<Value>, KvError>)
        requires
            old(self).inv(),
        ensures
            final(self).inv(),
            final(self).log == old(self).log,
            r matches Ok(o) && found(o) == old(self).model().get((table@, key@))
                && final(self).model() == old(self).model().remove((table@, key@)),
    {
        let t = table.to_owned();
        let k = key.to_owned();
        let ghost es = self.entries_view();
        let ghost s = (table@, key@);
        proof {
            lemma_model_of(es);
        }
        match self.find(&t, &k) {
            Some(i) => {
                let removed = self.entries.remove(i);
                proof {
                    let es2 = self.entries_view();
                    assert(es2 =~= es.remove(i as int));
                    assert(distinct_places(es2)) by {
                        assert forall|a: int, b: int| 0 <= a < b < es2.len() implies es2[a].0
                            != es2[b].0 by {
                            if a < i {
                                if b < i {
                                    assert(es2[a] == es[a] && es2[b] == es[b]);
                                } else {
                                    assert(es2[a] == es[a] && es2[b] == es[b + 1]);
                                }
                            } else {
                                assert(es2[a] == es[a + 1] && es2[b] == es[b + 1]);
                            }
                        }
                    }
                    lemma_model_of(es2);
                    let m = model_of(es).remove(s);
                    assert forall|p: Place| #[trigger] model_of(es2).contains_key(p) implies m.contains_key(p) && model_of(es2)[p] == m[p] by {
                        let j = choose|j: int| 0 <= j < es2.len() && #[trigger] es2[j].0 == p;
                        if j < i {
                            assert(es2[j] == es[j]);
                            assert(es[j].0 != es[i as int].0);
                        } else {
                            assert(es2[j] == es[j + 1]);
                            assert(es[j + 1].0 != es[i as int].0);
                        }
                    }
                    assert forall|p: Place| #[trigger] m.contains_key(p) implies model_of(es2).contains_key(p) by {
                        let j = choose|j: int| 0 <= j < es.len() && #[trigger] es[j].0 == p;
                        if j < i {
                            assert(es2[j] == es[j]);
                        } else {
                            assert(j != i);
                            assert(es2[j - 1] == es[j]);
                        }
                    }
                    assert(model_of(es2) =~= m);
                }
                Ok(Some(removed.value))
            },
            None => {
                proof {
                    if model_of(es).contains_key(s) {
                        let j = choose|j: int| 0 <= j < es.len() && #[trigger] es[j].0 == s;
                    }
                    assert(model_of(es).remove(s) =~= model_of(es));
                }
                Ok(None)
            },
        }
    }

}

impl Storage for MemTable {
    type Slot = Place;

    open spec fn slot(table: Seq<char>, key: Seq<char>) -> Place {
        (table, key)
    }

    open spec fn model(&self) -> Map<Place, Option<ValueView>> {
        model_of(self.entries_view())
    }

    open spec fn inv(&self) -> bool {
        distinct_places(self.entries_view())
    }

    open spec fn never_fails(&self) -> bool {
        true
    }

    open spec fn listing(&self, table: Seq<char>, pairs: Seq<KvpairView>) -> bool {
        lists_table(self.model(), table, pairs)
    }

    open spec fn listable(&self, table: Seq<char>) -> bool {
        true
    }

    closed spec fn writes(&self) -> Seq<WriteCall> {
        self.log@
    }

    fn get(&self, table: &str, key: &str) -> (r: Result<Option<Value>, KvError>) {
        let t = table.to_owned();
        let k = key.to_owned();
        proof {
            lemma_model_of(self.entries_view());
        }
        match self.find(&t, &k) {
            Some(i) => Ok(Some(self.entries[i].value.clone())),
            None => {
                proof {
                    if self.model().contains_key((table@, key@)) {
                        let j = choose|j: int|
                            0 <= j < self.entries_view().len() && #[trigger] self.entries_view()[j].0
                                == (table@, key@);
                    }
                }
                Ok(None)
            },
        }
    }

    fn set(&mut self, table: &str, key: &str, value: Value) -> (r: Result<Option<Value>, KvError>) {
        let ghost v = value@;
        let r = self.put_entry(table, key, value);
        proof {
            self.log@ = self.log@.push(WriteCall { table: table@, key: key@, value: Some(v), answer: r });
        }
        r
    }

    fn contains(&self, table: &str, key: &str) -> (r: Result<bool, KvError>) {
        let t = table.to_owned();
        let k = key.to_owned();
        proof {
            lemma_model_of(self.entries_view());
        }
        match self.find(&t, &k) {
            Some(_) => Ok(true),
            None => {
                proof {
                    if self.model().contains_key((table@, key@)) {
                        let j = choose|j: int|
                            0 <= j < self.entries_view().len() && #[trigger] self.entries_view()[j].0
                                == (table@, key@);
                    }
                }
                Ok(false)
            },
        }
    }

    fn del(&mut self, table: &str, key: &str) -> (r: Result<Option<Value>, KvError>) {
        let r = self.remove_entry(table, key);
        proof {
            self.log@ = self.log@.push(WriteCall { table: table@, key: key@, value: None, answer: r });
        }
        r
    }

    fn get_all(&self, table: &str) -> (r: Result<Vec<Kvpair>, KvError>) {
        Ok(self.list(table))
    }

    fn get_iter(&self, table: &str) -> (r: Result<StorageIter<Kvpair>, KvError>) {
        let pairs = self.list(table);
        Ok(StorageIter::new(pairs))
    }
}

/// A listing gathered from the entries whose table is `table`, in entry order,
/// is a listing of that table.
proof fn lemma_gathered_lists_table(
    es: Seq<(Place, Option<ValueView>)>,
    table: Seq<char>,
    ps: Seq<KvpairView>,
    src: Seq<int>,
)
    requires
        distinct_places(es),
        src.len() == ps.len(),
        forall|j: int|
            0 <= j < ps.len() ==> 0 <= #[trigger] src[j] < es.len() && es[src[j]].0 == (table, ps[j].key)
                && ps[j].value == Some(es[src[j]].1),
        forall|x: int, y: int| 0 <= x < y < src.len() ==> #[trigger] src[x] < #[trigger] src[y],
        forall|a: int|
            0 <= a < es.len() && (#[trigger] es[a]).0.0 == table ==> exists|j: int|
                0 <= j < src.len() && #[trigger] src[j] == a,
    ensures
        lists_table(model_of(es), table, ps),
{
    lemma_model_of(es);
    let m = model_of(es);
    assert forall|j: int| 0 <= j < ps.len() implies m.contains_key((table, #[trigger] ps[j].key))
        && ps[j].value == Some(m[(table, ps[j].key)]) by {
        assert(es[src[j]].0 == (table, ps[j].key));
    }
    assert forall|k: Seq<char>| #[trigger] m.contains_key((table, k)) implies exists|j: int|
        0 <= j < ps.len() && #[trigger] ps[j].key == k by {
        let a = choose|a: int| 0 <= a < es.len() && #[trigger] es[a].0 == (table, k);
        assert(es[a].0.0 == table);
        let j = choose|j: int| 0 <= j < src.len() && #[trigger] src[j] == a;
        assert(es[src[j]].0 == (table, ps[j].key));
    }
    assert forall|x: int, y: int| 0 <= x < y < ps.len() implies #[trigger] ps[x].key
        != #[trigger] ps[y].key by {
        assert(src[x] < src[y]);
        assert(es[src[x]].0 != es[src[y]].0);
        assert(es[src[x]].0 == (table, ps[x].key));
        assert(es[src[y]].0 == (table, ps[y].key));
    }
}

impl MemTable {
    /// Every pair of `table`, in the order they were first stored.
    fn list(&self, table: &str) -> (r: Vec<Kvpair>)
        requires
            self.inv(),
        ensures
            lists_table(self.model(), table@, r@.map_values(|p: Kvpair| p@)),
    {
        let t = table.to_owned();
        let ghost es = self.entries_view();
        let mut out: Vec<Kvpair> = Vec::new();
        let ghost mut src: Seq<int> = Seq::empty();
        let mut i: usize = 0;
        while i < self.entries.len()
            invariant
                es == self.entries_view(),
                t@ == table@,
                i <= es.len(),
                src.len() == out@.len(),
                forall|j: int|
                    0 <= j < out@.len() ==> 0 <= #[trigger] src[j] < i && es[src[j]].0 == (
                    table@,
                    out@[j]@.key,
                ) && out@[j]@.value == Some(es[src[j]].1),
                forall|x: int, y: int| 0 <= x < y < src.len() ==> #[trigger] src[x] < #[trigger] src[y],
                forall|a: int|
                    0 <= a < i && (#[trigger] es[a]).0.0 == table@ ==> exists|j: int|
                        0 <= j < src.len() && #[trigger] src[j] == a,
            decreases es.len() - i,
        {
            if self.entries[i].table == t {
                let p = Kvpair {
                    key: self.entries[i].key.clone(),
                    value: Some(self.entries[i].value.clone()),
                };
                out.push(p);
                proof {
                    let old_src = src;
                    src = src.push(i as int);
                    assert forall|a: int|
                        0 <= a < i + 1 && (#[trigger] es[a]).0.0 == table@ implies exists|j: int|
                        0 <= j < src.len() && #[trigger] src[j] == a by {
                        if a < i {
                            let j = choose|j: int| 0 <= j < old_src.len() && #[trigger] old_src[j] == a;
                            assert(src[j] == a);
                        } else {
                            assert(src[src.len() - 1] == a);
                        }
                    }
                }
            }
            i += 1;
        }
        proof {
            let ps = out@.map_values(|p: Kvpair| p@);
            lemma_gathered_lists_table(es, table@, ps, src);
        }
        out
    }
}

} // verus!

verus! {

/// Different tables, or different keys in one table, never share a slot in memory.
pub proof fn law_places_are_separate(t1: Seq<char>, k1: Seq<char>, t2: Seq<char>, k2: Seq<char>)
    requires
        t1 != t2 || k1 != k2,
    ensures
        <MemTable as Storage>::slot(t1, k1) != <MemTable as Storage>::slot(t2, k2),
{
}

/// Two listings of one table hold the same pairs: they differ at most in order.
pub proof fn law_listings_agree(
    m: Map<Place, Option<ValueView>>,
    table: Seq<char>,
    p1: Seq<KvpairView>,
    p2: Seq<KvpairView>,
)
    requires
        lists_table(m, table, p1),
        lists_table(m, table, p2),
    ensures
        p1.len() == p2.len(),
        forall|i: int| 0 <= i < p1.len() ==> p2.contains(#[trigger] p1[i]),
{
    assert forall|i: int| 0 <= i < p1.len() implies p2.contains(#[trigger] p1[i]) by {
        assert(m.contains_key((table, p1[i].key)));
        let j = choose|j: int| 0 <= j < p2.len() && #[trigger] p2[j].key == p1[i].key;
        assert(p2[j].key == p1[i].key);
        assert(p2[j].value == Some(m[(table, p2[j].key)]));
        assert(p1[i].value == Some(m[(table, p1[i].key)]));
        assert(p2[j] == p1[i]);
    }
    lemma_listing_len(m, table, p1, p2);
    lemma_listing_len(m, table, p2, p1);
}

/// A listing is no longer than any other listing of the same table.
proof fn lemma_listing_len(
    m: Map<Place, Option<ValueView>>,
    table: Seq<char>,
    p1: Seq<KvpairView>,
    p2: Seq<KvpairView>,
)
    requires
        lists_table(m, table, p1),
        lists_table(m, table, p2),
    ensures
        p1.len() <= p2.len(),
{
    let k1 = p1.map_values(|p: KvpairView| p.key);
    let k2 = p2.map_values(|p: KvpairView| p.key);
    assert(k1.no_duplicates()) by {
        assert forall|i: int, j: int| 0 <= i < k1.len() && 0 <= j < k1.len() && i != j implies k1[i] != k1[j] by {
            if i < j {
                assert(p1[i].key != p1[j].key);
            } else {
                assert(p1[j].key != p1[i].key);
            }
        }
    }
    assert(k1.to_set().subset_of(k2.to_set())) by {
        assert forall|k: Seq<char>| k1.to_set().contains(k) implies k2.to_set().contains(k) by {
            let i = choose|i: int| 0 <= i < k1.len() && k1[i] == k;
            assert(m.contains_key((table, p1[i].key)));
            let j = choose|j: int| 0 <= j < p2.len() && #[trigger] p2[j].key == k;
            assert(k2[j] == k);
        }
    }
    k1.unique_seq_to_set();
    k2.lemma_cardinality_of_set();
    vstd::set_lib::lemma_len_subset(k1.to_set(), k2.to_set());
}

} // verus!
