use std::marker::PhantomData;
use vstd::prelude::*;

verus! {

/// A byte stream that carries framed messages: `In` read from it, `Out` written.
pub struct ProstStream<S, In, Out> {
    stream: S,
    wbuf: Vec<u8>,
    written: usize,
    rbuf: Vec<u8>,
    _in: PhantomData<In>,
    _out: PhantomData<Out>,
}

impl<S, In, Out> ProstStream<S, In, Out> {
    /// The stream it reads from and writes to.
    pub closed spec fn inner(&self) -> S {
        self.stream
    }

    /// How many bytes of the write buffer have been written.
    pub closed spec fn written_count(&self) -> usize {
        self.written
    }

    /// The bytes framed and waiting to be written.
    pub closed spec fn write_buffer(&self) -> Seq<u8> {
        self.wbuf@
    }

    /// The bytes read and not yet taken apart into frames.
    pub closed spec fn read_buffer(&self) -> Seq<u8> {
        self.rbuf@
    }

    /// Wraps `stream`, with empty buffers and nothing written yet.
    pub fn new(stream: S) -> (r: Self)
        ensures
            r.inner() == stream,
            r.written_count() == 0,
            r.write_buffer() == Seq::<u8>::empty(),
            r.read_buffer() == Seq::<u8>::empty(),
    {
        ProstStream {
            stream,
            written: 0,
            wbuf: Vec::new(),
            rbuf: Vec::new(),
            _in: PhantomData,
            _out: PhantomData,
        }
    }
}

} // verus!
