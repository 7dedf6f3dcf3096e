pub mod frame;
pub mod stream;

use vstd::prelude::*;
use crate::network::stream::ProstStream;
use crate::pb::abi::{CommandRequest, CommandResponse};
use crate::service::Service;

verus! {

/// The server's end of a connection: it reads requests and answers them
/// with its service.
pub struct ProstServerStream<S, Store> {
    inner: ProstStream<S, CommandRequest, CommandResponse>,
    service: Service<Store>,
}

/// The client's end of a connection: it writes requests and reads answers.
pub struct ProstClientStream<S> {
    inner: ProstStream<S, CommandRequest, CommandResponse>,
}

impl<S, Store> ProstServerStream<S, Store> {
    /// The service that answers requests.
    pub closed spec fn service(&self) -> Service<Store> {
        self.service
    }

    /// The connection it reads from and writes to.
    pub closed spec fn connection(&self) -> S {
        self.inner.inner()
    }

    /// The bytes framed and waiting to be written.
    pub closed spec fn write_buffer(&self) -> Seq<u8> {
        self.inner.write_buffer()
    }

    /// The bytes read and not yet taken apart into frames.
    pub closed spec fn read_buffer(&self) -> Seq<u8> {
        self.inner.read_buffer()
    }

    /// How many bytes of the write buffer have been written.
    pub closed spec fn written_count(&self) -> usize {
        self.inner.written_count()
    }

    /// Serves `stream` with `service`, with empty buffers and nothing written yet.
    pub fn new(stream: S, service: Service<Store>) -> (r: Self)
        ensures
            r.service() == service,
            r.connection() == stream,
            r.write_buffer() == Seq::<u8>::empty(),
            r.read_buffer() == Seq::<u8>::empty(),
            r.written_count() == 0,
    {
        ProstServerStream { inner: ProstStream::new(stream), service }
    }
}

} // verus!
