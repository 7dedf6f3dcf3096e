use std::sync::Arc;
use dashmap::{DashMap, DashSet};
use tokio::sync::mpsc::Sender;
use vstd::prelude::*;
use crate::pb::abi::{CommandResponse, ValueView};
use crate::pb::value_reply;

verus! {

/// A concurrent map, opaque here; its contents are named below.
#[verifier::external_type_specification]
#[verifier::external_body]
#[verifier::reject_recursive_types(K)]
#[verifier::reject_recursive_types(V)]
#[verifier::reject_recursive_types(S)]
pub struct ExDashMap<K, V, S>(dashmap::DashMap<K, V, S>);

/// A concurrent set, opaque here.
#[verifier::external_type_specification]
#[verifier::external_body]
#[verifier::reject_recursive_types(K)]
#[verifier::reject_recursive_types(S)]
pub struct ExDashSet<K, S>(dashmap::DashSet<K, S>);

/// The sending end of a channel, opaque here.
#[verifier::external_type_specification]
#[verifier::external_body]
#[verifier::reject_recursive_types(T)]
pub struct ExSender<T>(tokio::sync::mpsc::Sender<T>);

/// The table of topics: each topic's name with the ids subscribed to it.
pub type TopicTable = DashMap<String, DashSet<u32>>;

/// The table of channels: each subscription id with its channel.
pub type ChannelTable = DashMap<u32, Sender<Arc<CommandResponse>>>;

/// The ids subscribed to each topic.
pub uninterp spec fn topic_members(topics: TopicTable) -> Map<Seq<char>, Set<u32>>;

/// The ids that have a channel.
pub uninterp spec fn channel_ids(subscriptions: ChannelTable) -> Set<u32>;

/// The table of topics with no topic in it.
pub open spec fn no_topics() -> Map<Seq<char>, Set<u32>> {
    Map::empty()
}

/// Calls `DashMap::new`. Claimed: the table holds no topic.
#[verifier::external_body]
fn new_topics() -> (r: TopicTable)
    ensures
        topic_members(r) == no_topics(),
{
    DashMap::new()
}

/// Calls `DashMap::new`. Claimed: the table holds no channel.
#[verifier::external_body]
fn new_channels() -> (r: ChannelTable)
    ensures
        channel_ids(r) == Set::<u32>::empty(),
{
    DashMap::new()
}

/// The ids of `name`, or none if the topic is unknown.
pub open spec fn members_of(m: Map<Seq<char>, Set<u32>>, name: Seq<char>) -> Set<u32> {
    if m.contains_key(name) {
        m[name]
    } else {
        Set::empty()
    }
}

/// Calls `DashMap::entry`, `Entry::or_default` and `DashSet::insert`, as one
/// step. Claimed: topic `name` then holds `id` besides the ids it held (none
/// if it was new), and no other topic changed.
#[verifier::external_body]
fn join_topic(topics: &mut TopicTable, name: String, id: u32)
    ensures
        topic_members(*final(topics)) == topic_members(*old(topics)).insert(
            name@,
            members_of(topic_members(*old(topics)), name@).insert(id),
        ),
{
    topics.entry(name).or_default().insert(id);
}

/// Calls `DashMap::insert`. Claimed: `id` then has a channel, and the other ids
/// keep theirs. Which channel an id has is not claimed.
#[verifier::external_body]
fn keep_channel(
    subscriptions: &mut ChannelTable,
    id: u32,
    tx: Sender<Arc<CommandResponse>>,
)
    ensures
        channel_ids(*final(subscriptions)) == channel_ids(*old(subscriptions)).insert(id),
{
    subscriptions.insert(id, tx);
}

/// Who listens to which topic, and the channel of each listener.
pub struct Broadcaster {
    topics: TopicTable,
    subscriptions: ChannelTable,
}

impl Broadcaster {
    /// The ids subscribed to each topic.
    pub closed spec fn members(&self) -> Map<Seq<char>, Set<u32>> {
        topic_members(self.topics)
    }

    /// The ids that have a channel.
    pub closed spec fn channels(&self) -> Set<u32> {
        channel_ids(self.subscriptions)
    }

    /// No topics and no channels.
    pub fn new() -> (r: Self)
        ensures
            r.members() == no_topics(),
            r.channels() == Set::<u32>::empty(),
    {
        Broadcaster { topics: new_topics(), subscriptions: new_channels() }
    }

    /// Subscribes `id` to topic `name`, with `tx` as its channel.
    pub fn subscribe(&mut self, name: String, id: u32, tx: Sender<Arc<CommandResponse>>)
        ensures
            final(self).members() == old(self).members().insert(
                name@,
                members_of(old(self).members(), name@).insert(id),
            ),
            final(self).channels() == old(self).channels().insert(id),
    {
        join_topic(&mut self.topics, name, id);
        keep_channel(&mut self.subscriptions, id, tx);
    }
}

/// The first message a subscriber gets: its subscription id.
pub fn subscription_reply(id: u32) -> (r: CommandResponse)
    ensures
        r@ == value_reply(Some(ValueView::Integer(id as i64))),
{
    crate::pb::abi::Value::from(id as i64).into()
}

} // verus!
