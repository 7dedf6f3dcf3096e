//! A small key/value server library: the command model, the storage
//! backends, the command executor and the wire framing.
pub mod error;
pub mod network;
pub mod pb;
pub mod service;
pub mod storage;

pub use error::KvError;
pub use network::frame::{encode_frame_bytes, FrameCoder};
pub use network::stream::ProstStream;
pub use network::ProstServerStream;
pub use network::ProstClientStream;
pub use pb::abi::value;
pub use pb::abi::{
    command_request, CommandRequest, CommandResponse, Hdel, Hexist, Hget, Hgetall, Hmdel,
    Hmexist, Hmget, Hmset, Hset, Kvpair, KvpairView, Publish, ResponseView, Subscribe,
    Unsubscribe, Value, ValueView,
};
pub use service::topic::{subscription_reply, Broadcaster};
pub use service::{dispatch, CommandService, Notify, NotifyMut, Service};
pub use storage::memory::MemTable;
pub use storage::sleddb::Sleddb;
pub use storage::{Storage, StorageIter};
