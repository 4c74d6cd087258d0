//! The buffering connection state: an append-only accumulator of received
//! but not yet consumed bytes, and the per-read decision between "frame
//! ready", "need more bytes", "clean end of stream" and "reset by peer".
//!
//! The socket itself stays with the caller: it reads raw bytes and hands
//! them to `feed`, and tells `read_step` when the stream has ended.

use vstd::prelude::*;
use crate::frame::Frame;
use crate::decode::{ProtocolError, SpecParse, spec_parse, parse};

verus! {

/// Declares `bytes::BytesMut` so it can stand in fields and signatures;
/// its contents are reached only through `buffer_bytes` and the wrappers.
#[verifier::external_type_specification]
#[verifier::external_body]
pub struct ExBytesMut(bytes::BytesMut);

/// The bytes a `bytes::BytesMut` buffer holds, front to back.
pub uninterp spec fn buffer_bytes(b: bytes::BytesMut) -> Seq<u8>;

/// Relies on `bytes::BytesMut::with_capacity`: a newly created buffer is empty.
#[verifier::external_body]
fn buffer_with_capacity(capacity: usize) -> (r: bytes::BytesMut)
    ensures
        buffer_bytes(r) == Seq::<u8>::empty(),
{
    bytes::BytesMut::with_capacity(capacity)
}

/// Relies on `bytes::BytesMut::extend_from_slice`: it appends the given
/// bytes at the tail, keeping the held bytes unchanged.
#[verifier::external_body]
fn buffer_extend(b: &mut bytes::BytesMut, chunk: &[u8])
    ensures
        buffer_bytes(*final(b)) == buffer_bytes(*old(b)) + chunk@,
{
    b.extend_from_slice(chunk);
}

/// Relies on `bytes::Buf::advance` for `BytesMut`: it discards exactly the
/// first `n` held bytes. It panics when `n` exceeds the length, so that
/// input is required away.
#[verifier::external_body]
fn buffer_advance(b: &mut bytes::BytesMut, n: usize)
    requires
        n <= buffer_bytes(*old(b)).len(),
    ensures
        buffer_bytes(*final(b)) == buffer_bytes(*old(b)).skip(n as int),
{
    bytes::Buf::advance(b, n);
}

/// Relies on `BytesMut`'s `Deref` to `[u8]`: a view of exactly the held bytes.
#[verifier::external_body]
fn buffer_slice(b: &bytes::BytesMut) -> (r: &[u8])
    ensures
        r@ == buffer_bytes(*b),
{
    &b[..]
}

/// Relies on `bytes::BytesMut::len`: the count of held bytes.
#[verifier::external_body]
fn buffer_len(b: &bytes::BytesMut) -> (r: usize)
    ensures
        r == buffer_bytes(*b).len(),
{
    b.len()
}

/// One client connection's buffering state: the received-but-unconsumed
/// bytes, viewed as the byte sequence they form.
pub struct Connection {
    buffer: bytes::BytesMut,
}

impl View for Connection {
    type V = Seq<u8>;

    closed spec fn view(&self) -> Seq<u8> {
        buffer_bytes(self.buffer)
    }
}

/// What one step of the read loop decided.
#[derive(Debug, PartialEq)]
pub enum ReadStep {
    /// A complete frame was decoded; exactly its bytes left the buffer.
    Ready(Frame),
    /// No complete frame buffered yet: read from the stream and `feed`.
    NeedRead,
    /// End of stream with an empty buffer: a clean end, not an error.
    Closed,
    /// End of stream while a partial frame is buffered: reset by peer.
    Reset,
    /// The buffered bytes are malformed; decoding is not retried.
    Corrupt(ProtocolError),
}

impl Connection {
    /// A fresh connection buffer, holding nothing.
    pub fn new() -> (c: Connection)
        ensures
            c@ == Seq::<u8>::empty(),
    {
        Connection { buffer: buffer_with_capacity(4096) }
    }

    /// The count of buffered bytes.
    pub fn buffered(&self) -> (n: usize)
        ensures
            n == self@.len(),
    {
        buffer_len(&self.buffer)
    }

    /// Append bytes that arrived from the stream at the tail of the buffer.
    pub fn feed(&mut self, chunk: &[u8])
        ensures
            final(self)@ == old(self)@ + chunk@,
    {
        buffer_extend(&mut self.buffer, chunk);
    }

    /// Attempt to decode one frame from the front of the buffer. On success
    /// exactly the consumed prefix is removed; on "incomplete" or on a
    /// protocol error the buffer is left byte-for-byte as it was.
    pub fn parse_frame(&mut self) -> (r: Result<Option<Frame>, ProtocolError>)
        ensures
            match r {
                Ok(Some(f)) => (spec_parse(old(self)@, 0) matches SpecParse::Found(g, end)
                    && g == f@ && final(self)@ == old(self)@.skip(end)),
                Ok(None) => spec_parse(old(self)@, 0) is Incomplete && final(self)@ == old(
                    self,
                )@,
                Err(e) => spec_parse(old(self)@, 0) == SpecParse::Malformed(e) && final(self)@
                    == old(self)@,
            },
    {
        let bytes = buffer_slice(&self.buffer);
        match parse(bytes, 0) {
            Ok(Some((f, end))) => {
                buffer_advance(&mut self.buffer, end);
                Ok(Some(f))
            },
            Ok(None) => Ok(None),
            Err(e) => Err(e),
        }
    }

    /// One step of the read loop. `eof` says whether the last stream read
    /// returned zero bytes. A zero-byte read with an empty buffer is a clean
    /// end; with buffered bytes of a partial frame it is a reset by peer.
    pub fn read_step(&mut self, eof: bool) -> (r: ReadStep)
        ensures
            ({
                let b = old(self)@;
                match r {
                    ReadStep::Ready(f) => (spec_parse(b, 0) matches SpecParse::Found(g, end)
                        && g == f@ && final(self)@ == b.skip(end)),
                    ReadStep::NeedRead => !eof && spec_parse(b, 0) is Incomplete && final(self)@
                        == b,
                    ReadStep::Closed => eof && b.len() == 0 && final(self)@ == b,
                    ReadStep::Reset => eof && b.len() > 0 && spec_parse(b, 0) is Incomplete
                        && final(self)@ == b,
                    ReadStep::Corrupt(e) => spec_parse(b, 0) == SpecParse::Malformed(e)
                        && final(self)@ == b,
                }
            }),
    {
        match self.parse_frame() {
            Ok(Some(f)) => ReadStep::Ready(f),
            Ok(None) => {
                if !eof {
                    ReadStep::NeedRead
                } else if self.buffered() == 0 {
                    ReadStep::Closed
                } else {
                    ReadStep::Reset
                }
            },
            Err(e) => ReadStep::Corrupt(e),
        }
    }
}

} // verus!
