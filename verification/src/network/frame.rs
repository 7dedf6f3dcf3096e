use vstd::prelude::*;
use std::io::Write;
use crate::error::KvError;

verus! {

/// The length of a frame header, in bytes.
pub const LEN_LEN: usize = 4;

/// The longest message a frame may carry: the length takes 31 bits, so 2 GiB.
pub const MAX_FRAME: usize = 2147483648;

/// Messages longer than this are sent compressed.
pub const COMPRESSION_LIMIT: usize = 1436;

/// The header bit that marks a compressed frame.
pub const COMPRESSION_BIT: usize = 2147483648;

/// An I/O error, opaque here.
#[verifier::external_type_specification]
#[verifier::external_body]
pub struct ExIoError(std::io::Error);

/// The gzip stream that flate2, as linked into this crate, writes for `data`
/// at the default level (no file name, no time stamp, operating system 255).
pub uninterp spec fn gzip(data: Seq<u8>) -> Seq<u8>;

/// Calls `flate2::write::GzEncoder::new` over a `Vec` at the default level,
/// then `write_all` and `finish`. Claimed: the answer is `Ok`, since writing
/// into a `Vec` cannot fail and the deflate stream at the default level is
/// never given bad parameters, and the bytes are `gzip(data)`, a result of
/// the data alone.
#[verifier::external_body]
fn gzip_compress(data: &[u8]) -> (r: Result<Vec<u8>, std::io::Error>)
    ensures
        r is Ok,
        r matches Ok(out) ==> out@ == gzip(data@),
{
    let mut encoder = flate2::write::GzEncoder::new(Vec::new(), flate2::Compression::default());
    encoder.write_all(data)?;
    encoder.finish()
}

/// Formats an I/O error with its `Display`. Nothing is claimed of the text.
#[verifier::external_body]
fn io_error_text(e: &std::io::Error) -> String {
    format!("{}", e)
}

/// The four big-endian bytes of `x`.
pub open spec fn be32(x: u32) -> Seq<u8> {
    seq![(x / 16777216) as u8, ((x / 65536) % 256) as u8, ((x / 256) % 256) as u8, (x % 256) as u8]
}

/// Appends the four big-endian bytes of `x`.
fn put_u32(buf: &mut Vec<u8>, x: u32)
    ensures
        final(buf)@ == old(buf)@ + be32(x),
{
    buf.push((x / 16777216) as u8);
    buf.push(((x / 65536) % 256) as u8);
    buf.push(((x / 256) % 256) as u8);
    buf.push((x % 256) as u8);
    assert(buf@ =~= old(buf)@ + be32(x));
}

/// The header of a compressed frame whose body is `n` bytes long.
pub open spec fn compressed_header(n: nat) -> u32 {
    ((n as usize) | COMPRESSION_BIT) as u32
}

/// What `buf` holds after a message `msg` that is sent compressed is framed
/// into it, when it held `before`: the header is put after `before`, the
/// bytes after the first four are kept, and the compressed message follows
/// them under a header that carries their length and the compression bit.
pub open spec fn compressed_frame(before: Seq<u8>, msg: Seq<u8>) -> Seq<u8> {
    let with_header = before + be32(msg.len() as u32);
    let body = with_header.subrange(4, with_header.len() as int) + gzip(msg);
    be32(compressed_header(body.len())) + body
}

/// What framing `msg` into a buffer that held `before` leads to.
pub open spec fn frame_outcome(
    before: Seq<u8>,
    msg: Seq<u8>,
    r: Result<(), KvError>,
    after: Seq<u8>,
) -> bool {
    if msg.len() > MAX_FRAME {
        r == Err::<(), KvError>(KvError::FrameError) && after == before
    } else if msg.len() <= COMPRESSION_LIMIT {
        r is Ok && after == before + be32(msg.len() as u32) + msg
    } else {
        r is Ok && after == compressed_frame(before, msg)
    }
}

/// Frames the encoded message `msg` into `buf`: a four-byte big-endian length,
/// then the message. A message longer than `COMPRESSION_LIMIT` is sent as a
/// gzip stream, and the header then carries the compression bit.
pub fn encode_frame_bytes(msg: &[u8], buf: &mut Vec<u8>) -> (r: Result<(), KvError>)
    ensures
        frame_outcome(old(buf)@, msg@, r, final(buf)@),
{
    let size = msg.len();
    if size > MAX_FRAME {
        return Err(KvError::FrameError);
    }
    put_u32(buf, size as u32);
    if size > COMPRESSION_LIMIT {
        let ghost with_header = buf@;
        let mut payload = buf.split_off(LEN_LEN);
        buf.clear();
        match gzip_compress(msg) {
            Ok(mut compressed) => {
                payload.append(&mut compressed);
                put_u32(buf, (payload.len() | COMPRESSION_BIT) as u32);
                buf.append(&mut payload);
                Ok(())
            },
            Err(e) => Err(KvError::IoError(io_error_text(&e))),
        }
    } else {
        let mut tail = vstd::slice::slice_to_vec(msg);
        buf.append(&mut tail);
        Ok(())
    }
}

/// The length that a header's four bytes carry, the compression bit removed.
pub open spec fn header_len(h: Seq<u8>) -> nat {
    ((h[0] % 128) as nat) * 16777216 + (h[1] as nat) * 65536 + (h[2] as nat) * 256 + h[3] as nat
}

/// A frame built into an empty buffer starts with a header whose high bit is
/// set exactly when the message was compressed; an uncompressed frame's header
/// carries the message's length and the message follows it unchanged.
pub proof fn law_frame_header(msg: Seq<u8>, r: Result<(), KvError>, after: Seq<u8>)
    requires
        frame_outcome(Seq::empty(), msg, r, after),
        r is Ok,
    ensures
        after.len() >= 4,
        (after[0] >= 128) <==> msg.len() > COMPRESSION_LIMIT,
        msg.len() <= COMPRESSION_LIMIT ==> header_len(after.subrange(0, 4)) == msg.len()
            && after.subrange(4, after.len() as int) == msg,
{
    if msg.len() <= COMPRESSION_LIMIT {
        let x = msg.len() as u32;
        assert(after.subrange(4, after.len() as int) =~= msg);
        assert(x / 16777216 == 0);
        assert(after.subrange(0, 4) =~= be32(x));
        assert((x / 65536) % 256 == 0);
        assert(((x / 256) % 256) * 256 + x % 256 == x) by (nonlinear_arith)
            requires
                x <= 1436,
        {
        }
    } else {
        let with_header = Seq::<u8>::empty() + be32(msg.len() as u32);
        let body = with_header.subrange(4, with_header.len() as int) + gzip(msg);
        let n = body.len() as usize;
        let h = compressed_header(body.len());
        assert(h == ((n | 2147483648usize) as u32));
        assert(((n | 2147483648usize) as u32) >= 2147483648u32) by (bit_vector);
        assert(h / 16777216 >= 128);
        assert(after[0] == (h / 16777216) as u8);
    }
}

/// A compressed frame built into an empty buffer carries the gzip stream of
/// the message after its header, and the header's low 31 bits count exactly
/// the bytes that follow it, as long as that stream is shorter than 2 GiB.
pub proof fn law_compressed_frame(msg: Seq<u8>, r: Result<(), KvError>, after: Seq<u8>)
    requires
        frame_outcome(Seq::empty(), msg, r, after),
        COMPRESSION_LIMIT < msg.len() <= MAX_FRAME,
        gzip(msg).len() < MAX_FRAME,
    ensures
        r is Ok,
        after.len() == gzip(msg).len() + 4,
        after[0] >= 128,
        header_len(after.subrange(0, 4)) == after.len() - 4,
        after.subrange(4, after.len() as int) == gzip(msg),
{
    let with_header = Seq::<u8>::empty() + be32(msg.len() as u32);
    assert(with_header.subrange(4, with_header.len() as int) =~= Seq::<u8>::empty());
    let body = with_header.subrange(4, with_header.len() as int) + gzip(msg);
    assert(body =~= gzip(msg));
    let n = body.len() as usize;
    let h = compressed_header(body.len());
    assert(h == ((n | 2147483648usize) as u32));
    assert(after =~= be32(h) + body);
    assert(after.subrange(0, 4) =~= be32(h));
    assert(after.subrange(4, after.len() as int) =~= body);
    assert(((n | 2147483648usize) as u32) >= 2147483648u32) by (bit_vector);
    assert({
        let x = ((n | 2147483648usize) as u32);
        ((x / 16777216) % 128) * 16777216 + ((x / 65536) % 256) * 65536 + ((x / 256) % 256) * 256
            + x % 256 == n
    }) by (bit_vector)
        requires
            n < 2147483648usize,
    ;
    assert(h / 16777216 >= 128);
}

/// A message that can be framed: it knows its protobuf encoding.
pub trait FrameCoder {
    /// The protobuf encoding of the message.
    fn encoded(&self) -> Vec<u8>;

    /// Frames the message into `buf`, as `encode_frame_bytes` does with the
    /// encoding that `encoded` gives.
    fn encode_frame(&self, buf: &mut Vec<u8>) -> (r: Result<(), KvError>)
        ensures
            exists|msg: Vec<u8>|
                call_ensures(Self::encoded, (self,), msg) && #[trigger] frame_outcome(
                    old(buf)@,
                    msg@,
                    r,
                    final(buf)@,
                ),
    {
        let msg = self.encoded();
        assert(call_ensures(Self::encoded, (self,), msg));
        encode_frame_bytes(msg.as_slice(), buf)
    }
}

} // verus!
