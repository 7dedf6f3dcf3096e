pub mod command_service;
pub mod topic;

use vstd::prelude::*;
use vstd::string::StringExecFns;
use crate::error::KvError;
use crate::pb::{empty_reply, failure_reply, pairs_reply};
use crate::pb::abi::{CommandRequest, CommandResponse, ResponseView};
use crate::pb::abi::command_request::RequestData;
use crate::service::command_service::{
    hdel_post, hexist_post, hget_post, hgetall_post, hmdel_post, hmexist_post, hmget_post,
    hmset_post, hset_post, unchanged,
};
use crate::storage::Storage;

verus! {

/// A command that can be carried out against a store.
pub trait CommandService: Sized {
    /// The table that the command lists in full, if it lists one.
    spec fn listed_table(&self) -> Option<Seq<char>>;

    /// Carries out the command and answers it.
    fn execute<S: Storage>(self, store: &mut S) -> (r: CommandResponse)
        requires
            old(store).inv(),
            self.listed_table() matches Some(t) ==> old(store).listable(t),
        ensures
            final(store).inv(),
            final(store).never_fails() == old(store).never_fails(),
    ;
}

/// Something that tells listeners about an event it hands them by reference.
pub trait Notify<Arg> {
    /// Whether every listener accepts `arg`.
    spec fn accepts(&self, arg: &Arg) -> bool;

    /// Hands `arg` to every listener, first to last.
    fn notify(&self, arg: &Arg)
        requires
            self.accepts(arg),
    ;
}

/// Something that lets listeners change an event, one after another.
pub trait NotifyMut<Arg> {
    /// Whether every listener accepts whatever argument it is handed.
    spec fn accepts_mut(&self) -> bool;

    /// Hands `arg` to every listener, first to last; each may change it.
    fn notify(&self, arg: &mut Arg)
        requires
            self.accepts_mut(),
    ;
}

impl<Arg, F: Fn(&Arg)> Notify<Arg> for Vec<F> {
    open spec fn accepts(&self, arg: &Arg) -> bool {
        forall|i: int| 0 <= i < self@.len() ==> call_requires(#[trigger] self@[i], (arg,))
    }

    /// Every listener was called with `arg`, first to last.
    fn notify(&self, arg: &Arg)
        ensures
            forall|i: int| 0 <= i < self@.len() ==> call_ensures(#[trigger] self@[i], (arg,), ()),
    {
        let mut i: usize = 0;
        while i < self.len()
            invariant
                i <= self@.len(),
                self.accepts(arg),
                forall|j: int| 0 <= j < i ==> call_ensures(#[trigger] self@[j], (arg,), ()),
            decreases self@.len() - i,
        {
            let f = &self[i];
            f(arg);
            i += 1;
        }
    }
}

impl<Arg, F: Fn(&mut Arg)> NotifyMut<Arg> for Vec<F> {
    open spec fn accepts_mut(&self) -> bool {
        forall|i: int, m: &mut Arg| 0 <= i < self@.len() ==> #[trigger] call_requires(self@[i], (m,))
    }

    /// The listeners run first to last: there are values `states`, the first
    /// the argument as handed in and the last as left behind, such that the
    /// `i`-th listener, handed `states[i]`, left `states[i + 1]`.
    fn notify(&self, arg: &mut Arg)
        ensures
            exists|states: Seq<Arg>|
                {
                    &&& states.len() == self@.len() + 1
                    &&& states[0] == *old(arg)
                    &&& states[self@.len() as int] == *final(arg)
                    &&& forall|i: int|
                        0 <= i < self@.len() ==> exists|m: &mut Arg|
                            *m == #[trigger] states[i] && *final(m) == states[i + 1]
                                && call_ensures(self@[i], (m,), ())
                },
    {
        let ghost mut states: Seq<Arg> = seq![*arg];
        let mut i: usize = 0;
        while i < self.len()
            invariant
                i <= self@.len(),
                self.accepts_mut(),
                states.len() == i + 1,
                states[0] == *old(arg),
                states[i as int] == *arg,
                forall|j: int|
                    0 <= j < i ==> exists|m: &mut Arg|
                        *m == #[trigger] states[j] && *final(m) == states[j + 1]
                            && call_ensures(self@[j], (m,), ()),
            decreases self@.len() - i,
        {
            let f = &self[i];
            f(arg);
            proof {
                states = states.push(*arg);
            }
            i += 1;
        }
    }
}

/// The values an argument goes through under two lists of listeners run
/// one after the other: those of the first, then those of the second after
/// the one they share.
pub open spec fn joined_states<Arg>(s1: Seq<Arg>, s2: Seq<Arg>) -> Seq<Arg> {
    s1 + s2.drop_first()
}

/// Two lists of listeners joined, the first one's before the second one's.
pub open spec fn joined_list<F>(fs1: Seq<F>, fs2: Seq<F>) -> Seq<F> {
    fs1 + fs2
}

/// Listeners run one after another compose: if `fs1` takes the argument
/// through the values `s1`, and `fs2` then takes it on through `s2`, the two
/// lists joined take it through `s1` and then `s2`.
pub proof fn law_notify_mut_join<Arg, F: Fn(&mut Arg)>(fs1: Seq<F>, fs2: Seq<F>, s1: Seq<Arg>, s2: Seq<Arg>)
    requires
        s1.len() == fs1.len() + 1,
        forall|i: int|
            0 <= i < fs1.len() ==> exists|m: &mut Arg|
                *m == #[trigger] s1[i] && *final(m) == s1[i + 1] && call_ensures(fs1[i], (m,), ()),
        s2.len() == fs2.len() + 1,
        forall|i: int|
            0 <= i < fs2.len() ==> exists|m: &mut Arg|
                *m == #[trigger] s2[i] && *final(m) == s2[i + 1] && call_ensures(fs2[i], (m,), ()),
        s1.last() == s2[0],
    ensures
        joined_states(s1, s2).len() == joined_list(fs1, fs2).len() + 1,
        joined_states(s1, s2)[0] == s1[0],
        joined_states(s1, s2).last() == s2.last(),
        forall|i: int|
            0 <= i < joined_list(fs1, fs2).len() ==> exists|m: &mut Arg|
                *m == #[trigger] joined_states(s1, s2)[i] && *final(m) == joined_states(s1, s2)[i + 1]
                    && call_ensures(joined_list(fs1, fs2)[i], (m,), ()),
{
    let n1 = fs1.len() as int;
    let joined = joined_states(s1, s2);
    let fs = joined_list(fs1, fs2);
    assert forall|i: int| 0 <= i < fs.len() implies exists|m: &mut Arg|
        *m == #[trigger] joined[i] && *final(m) == joined[i + 1] && call_ensures(fs[i], (m,), ()) by {
        if i < n1 {
            assert(fs[i] == fs1[i]);
            assert(joined[i] == s1[i]);
            assert(joined[i + 1] == s1[i + 1]);
            let m = choose|m: &mut Arg| *m == #[trigger] s1[i] && *final(m) == s1[i + 1] && call_ensures(fs1[i], (m,), ());
            assert(*m == joined[i] && *final(m) == joined[i + 1] && call_ensures(fs[i], (m,), ()));
        } else {
            let j = i - n1;
            assert(fs[i] == fs2[j]);
            assert(joined[i] == s2[j]);
            assert(joined[i + 1] == s2[j + 1]);
            let m = choose|m: &mut Arg| *m == #[trigger] s2[j] && *final(m) == s2[j + 1] && call_ensures(fs2[j], (m,), ());
            assert(*m == joined[i] && *final(m) == joined[i + 1] && call_ensures(fs[i], (m,), ()));
        }
    }
}

/// Every run of two joined lists of listeners splits where the first list
/// ends: the first list takes the argument through the values up to there,
/// and the second list on from there.
pub proof fn law_notify_mut_split<Arg, F: Fn(&mut Arg)>(fs1: Seq<F>, fs2: Seq<F>, s: Seq<Arg>)
    requires
        s.len() == (fs1 + fs2).len() + 1,
        forall|i: int|
            0 <= i < (fs1 + fs2).len() ==> exists|m: &mut Arg|
                *m == #[trigger] s[i] && *final(m) == s[i + 1] && call_ensures((fs1 + fs2)[i], (m,), ()),
    ensures
        s.take(fs1.len() + 1 as int).len() == fs1.len() + 1,
        forall|i: int|
            0 <= i < fs1.len() ==> exists|m: &mut Arg|
                *m == #[trigger] s.take(fs1.len() + 1 as int)[i] && *final(m) == s.take(fs1.len() + 1 as int)[i + 1]
                    && call_ensures(fs1[i], (m,), ()),
        s.skip(fs1.len() as int).len() == fs2.len() + 1,
        forall|i: int|
            0 <= i < fs2.len() ==> exists|m: &mut Arg|
                *m == #[trigger] s.skip(fs1.len() as int)[i] && *final(m) == s.skip(fs1.len() as int)[i + 1]
                    && call_ensures(fs2[i], (m,), ()),
        s.take(fs1.len() + 1 as int).last() == s.skip(fs1.len() as int)[0],
{
    let fs = fs1 + fs2;
    let n1 = fs1.len() as int;
    let a = s.take(n1 + 1);
    let b = s.skip(n1);
    assert(a.last() == s[n1] && b[0] == s[n1]);
    assert forall|i: int| 0 <= i < fs1.len() implies exists|m: &mut Arg|
        *m == #[trigger] a[i] && *final(m) == a[i + 1] && call_ensures(fs1[i], (m,), ()) by {
        assert(fs[i] == fs1[i]);
        assert(a[i] == s[i] && a[i + 1] == s[i + 1]);
        let m = choose|m: &mut Arg| *m == #[trigger] s[i] && *final(m) == s[i + 1] && call_ensures(fs[i], (m,), ());
    }
    assert forall|j: int| 0 <= j < fs2.len() implies exists|m: &mut Arg|
        *m == #[trigger] b[j] && *final(m) == b[j + 1] && call_ensures(fs2[j], (m,), ()) by {
        let i = j + n1;
        assert(fs[i] == fs2[j]);
        assert(b[j] == s[i] && b[j + 1] == s[i + 1]);
        let m = choose|m: &mut Arg| *m == #[trigger] s[i] && *final(m) == s[i + 1] && call_ensures(fs[i], (m,), ());
    }
}

/// The text of the error for a request that carries no command.
pub open spec fn no_data_text() -> Seq<char> {
    "Command is invalid: `"@ + "Request has no data"@ + "`"@
}

/// Whether `store` can carry out `req`.
pub open spec fn request_ready<S: Storage>(req: CommandRequest, store: S) -> bool {
    match req.request_data {
        Some(RequestData::Hgetall(p)) => store.listable(p.table@),
        _ => true,
    }
}

/// What carrying out `req` on `before` leads to.
pub open spec fn request_post<S: Storage>(
    req: CommandRequest,
    before: S,
    after: S,
    r: ResponseView,
) -> bool {
    match req.request_data {
        Some(RequestData::Hget(p)) => hget_post(p, before, after, r),
        Some(RequestData::Hgetall(p)) => hgetall_post(p, before, after, r),
        Some(RequestData::Hmget(p)) => hmget_post(p, before, after, r),
        Some(RequestData::Hset(p)) => hset_post(p, before, after, r),
        Some(RequestData::Hmset(p)) => hmset_post(p, before, after, r),
        Some(RequestData::Hdel(p)) => hdel_post(p, before, after, r),
        Some(RequestData::Hmdel(p)) => hmdel_post(p, before, after, r),
        Some(RequestData::Hexist(p)) => hexist_post(p, before, after, r),
        Some(RequestData::Hmexist(p)) => hmexist_post(p, before, after, r),
        None => r == failure_reply(400, no_data_text()) && unchanged(before, after),
        _ => r == empty_reply() && unchanged(before, after),
    }
}

/// `dispatch` answers a request exactly as executing the command it carries
/// does: what it promises for each kind of command is that command's own
/// promise.
pub proof fn law_dispatch_as_execute<S: Storage>(req: CommandRequest, before: S, after: S, r: ResponseView)
    ensures
        req.request_data matches Some(RequestData::Hget(p)) ==> (request_post(req, before, after, r)
            <==> hget_post(p, before, after, r)),
        req.request_data matches Some(RequestData::Hgetall(p)) ==> (request_post(req, before, after, r)
            <==> hgetall_post(p, before, after, r)),
        req.request_data matches Some(RequestData::Hmget(p)) ==> (request_post(req, before, after, r)
            <==> hmget_post(p, before, after, r)),
        req.request_data matches Some(RequestData::Hset(p)) ==> (request_post(req, before, after, r)
            <==> hset_post(p, before, after, r)),
        req.request_data matches Some(RequestData::Hmset(p)) ==> (request_post(req, before, after, r)
            <==> hmset_post(p, before, after, r)),
        req.request_data matches Some(RequestData::Hdel(p)) ==> (request_post(req, before, after, r)
            <==> hdel_post(p, before, after, r)),
        req.request_data matches Some(RequestData::Hmdel(p)) ==> (request_post(req, before, after, r)
            <==> hmdel_post(p, before, after, r)),
        req.request_data matches Some(RequestData::Hexist(p)) ==> (request_post(req, before, after, r)
            <==> hexist_post(p, before, after, r)),
        req.request_data matches Some(RequestData::Hmexist(p)) ==> (request_post(req, before, after, r)
            <==> hmexist_post(p, before, after, r)),
        req.request_data matches Some(RequestData::Hgetall(p)) ==> (request_ready(req, before)
            <==> before.listable(p.table@)),
{
}

/// Two runs from the same store gave the same answer and left the same values.
pub open spec fn same_outcome<S: Storage>(a1: S, a2: S, r1: ResponseView, r2: ResponseView) -> bool {
    r1 == r2 && a1.model() == a2.model()
}

/// On a store that never fails, `dispatch` answers a request and leaves the
/// store just as executing the command it carries does: the same answer and
/// the same values, for every command but a listing, whose pairs may come in
/// another order but are each a listing of the table.
pub proof fn law_dispatch_same_as_execute<S: Storage>(
    req: CommandRequest,
    before: S,
    a1: S,
    a2: S,
    r1: ResponseView,
    r2: ResponseView,
)
    requires
        before.never_fails(),
        request_post(req, before, a1, r1),
    ensures
        req.request_data matches Some(RequestData::Hget(p)) ==> (hget_post(p, before, a2, r2) ==> same_outcome(a1, a2, r1, r2)),
        req.request_data matches Some(RequestData::Hmget(p)) ==> (hmget_post(p, before, a2, r2) ==> same_outcome(a1, a2, r1, r2)),
        req.request_data matches Some(RequestData::Hset(p)) ==> (hset_post(p, before, a2, r2) ==> same_outcome(a1, a2, r1, r2)),
        req.request_data matches Some(RequestData::Hmset(p)) ==> (hmset_post(p, before, a2, r2) ==> same_outcome(a1, a2, r1, r2)),
        req.request_data matches Some(RequestData::Hdel(p)) ==> (hdel_post(p, before, a2, r2) ==> same_outcome(a1, a2, r1, r2)),
        req.request_data matches Some(RequestData::Hmdel(p)) ==> (hmdel_post(p, before, a2, r2) ==> same_outcome(a1, a2, r1, r2)),
        req.request_data matches Some(RequestData::Hexist(p)) ==> (hexist_post(p, before, a2, r2) ==> same_outcome(a1, a2, r1, r2)),
        req.request_data matches Some(RequestData::Hmexist(p)) ==> (hmexist_post(p, before, a2, r2) ==> same_outcome(a1, a2, r1, r2)),
        req.request_data matches Some(RequestData::Hgetall(p)) ==> (hgetall_post(p, before, a2, r2) ==> (
        a1.model() == a2.model() && r1 == pairs_reply(r1.pairs) && before.listing(p.table@, r1.pairs) && r2
            == pairs_reply(r2.pairs) && before.listing(p.table@, r2.pairs))),
{
}

/// Answers requests against one store.
pub struct Service<Store> {
    store: Store,
}

impl<Store: Storage> Service<Store> {
    /// The store that requests are carried out against.
    pub closed spec fn store(&self) -> Store {
        self.store
    }

    /// A service over `store`.
    pub fn new(store: Store) -> (r: Self)
        ensures
            r.store() == store,
    {
        Service { store }
    }

    /// Carries out `cmd` against the store and answers it, as `dispatch` does.
    pub fn execute(&mut self, cmd: CommandRequest) -> (r: CommandResponse)
        requires
            old(self).store().inv(),
            request_ready(cmd, old(self).store()),
        ensures
            final(self).store().inv(),
            final(self).store().never_fails() == old(self).store().never_fails(),
            request_post(cmd, old(self).store(), final(self).store(), r@),
    {
        dispatch(cmd, &mut self.store)
    }
}

/// Carries out the command of `cmd` against `store` and answers it.
pub fn dispatch<S: Storage>(cmd: CommandRequest, store: &mut S) -> (r: CommandResponse)
    requires
        old(store).inv(),
        request_ready(cmd, *old(store)),
    ensures
        final(store).inv(),
        final(store).never_fails() == old(store).never_fails(),
        request_post(cmd, *old(store), *final(store), r@),
{
    match cmd.request_data {
        Some(RequestData::Hget(param)) => param.execute(store),
        Some(RequestData::Hgetall(param)) => param.execute(store),
        Some(RequestData::Hmget(param)) => param.execute(store),
        Some(RequestData::Hset(param)) => param.execute(store),
        Some(RequestData::Hmset(param)) => param.execute(store),
        Some(RequestData::Hdel(param)) => param.execute(store),
        Some(RequestData::Hmdel(param)) => param.execute(store),
        Some(RequestData::Hexist(param)) => param.execute(store),
        Some(RequestData::Hmexist(param)) => param.execute(store),
        None => KvError::InvalidCommand(String::from_str("Request has no data")).into(),
        _ => CommandResponse::default(),
    }
}

} // verus!
