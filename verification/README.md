# learn — a verified key/value server library

The library (`src/`) is written in Verus and verified:

- `pb/` — the command model (`Value`, `Kvpair`, the requests, `CommandResponse`),
  its conversions into responses, and `pb/codec.rs`, the protobuf form of a
  stored `Value` (encoder, a decoder that reads what a protobuf reader
  accepts, and the proof that decoding gives back what was encoded).
- `error.rs` — `KvError`, its status code and text.
- `storage/` — the `Storage` trait over an abstract model (slot → value), the
  in-memory `MemTable`, and `Sleddb`, a store kept in a sled database.
- `service/` — `CommandService` for every command, `dispatch`, `Service`,
  `Notify`/`NotifyMut`, and the topic `Broadcaster`.
- `network/` — frame encoding (length header, gzip above 1436 bytes) and the
  stream wrappers.

`app/` holds what Verus does not take: the prost message types used on the
wire with conversions to and from the library's types, opening a sled database
from a path, and the topic subscription task with its channel and id counter.
