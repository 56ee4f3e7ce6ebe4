//! The receive side of a connection: a byte buffer that accumulates what the
//! transport delivers and hands out whole frames.

use vstd::prelude::*;
use bytes::Buf;
use bytes::BytesMut;
use crate::protocol::{check_spec, parse_spec, Frame, FrameParseError};

verus! {

#[verifier::external_type_specification]
#[verifier::external_body]
pub struct ExBytesMut(BytesMut);

/// The bytes that a `BytesMut` holds, front first.
pub uninterp spec fn buffer_bytes(b: BytesMut) -> Seq<u8>;

/// Relies on `BytesMut::new`: a new buffer holds no bytes.
#[verifier::external_body]
fn buffer_new() -> (r: BytesMut)
    ensures
        buffer_bytes(r) == Seq::<u8>::empty(),
{
    BytesMut::new()
}

/// Relies on `BytesMut::extend_from_slice`: `data` is appended at the back.
#[verifier::external_body]
fn buffer_extend(b: &mut BytesMut, data: &[u8])
    ensures
        buffer_bytes(*final(b)) == buffer_bytes(*old(b)) + data@,
{
    b.extend_from_slice(data)
}

/// Relies on `<BytesMut as Buf>::advance`: the first `n` bytes are dropped
/// (it panics past the end, which `requires` rules out).
#[verifier::external_body]
fn buffer_advance(b: &mut BytesMut, n: usize)
    requires
        n <= buffer_bytes(*old(b)).len(),
    ensures
        buffer_bytes(*final(b)) == buffer_bytes(*old(b)).skip(n as int),
{
    b.advance(n)
}

/// Relies on `<BytesMut as Deref>::deref`: the slice shows the buffer's bytes.
#[verifier::external_body]
fn buffer_slice(b: &BytesMut) -> (r: &[u8])
    ensures
        r@ == buffer_bytes(*b),
{
    &b[..]
}

pub struct Connection {
    buffer: BytesMut,
}

impl Connection {
    /// The bytes received and not yet consumed as frames.
    pub closed spec fn buffered(&self) -> Seq<u8> {
        buffer_bytes(self.buffer)
    }

    pub fn new() -> (r: Connection)
        ensures
            r.buffered() == Seq::<u8>::empty(),
    {
        Connection { buffer: buffer_new() }
    }

    /// Appends bytes that the transport delivered.
    pub fn receive(&mut self, data: &[u8])
        ensures
            final(self).buffered() == old(self).buffered() + data@,
    {
        buffer_extend(&mut self.buffer, data);
    }

    /// True when nothing is buffered: the transport ending now is a clean end
    /// of stream, and otherwise it cut a frame short.
    pub fn is_drained(&self) -> (r: bool)
        ensures
            r == (self.buffered().len() == 0),
    {
        buffer_slice(&self.buffer).len() == 0
    }

    /// Takes the next whole frame off the buffer. `Ok(None)` asks for more
    /// bytes; on an error or `Ok(None)` the buffer is left as it was.
    pub fn parse_frame(&mut self) -> (r: Result<Option<Frame>, FrameParseError>)
        ensures
            match check_spec(old(self).buffered()) {
                Err(FrameParseError::Incomplete) => r == Ok::<Option<Frame>, FrameParseError>(None)
                    && final(self).buffered() == old(self).buffered(),
                Err(e) => r == Err::<Option<Frame>, FrameParseError>(e)
                    && final(self).buffered() == old(self).buffered(),
                Ok(n) => match parse_spec(old(self).buffered()) {
                    Ok(c) => (r matches Ok(Some(f)) && f@ == c)
                        && final(self).buffered() == old(self).buffered().skip(n as int),
                    Err(e) => r == Err::<Option<Frame>, FrameParseError>(e)
                        && final(self).buffered() == old(self).buffered(),
                },
            },
    {
        let view = buffer_slice(&self.buffer);
        match Frame::check(view) {
            Ok(n) => {
                let frame = Frame::parse(view);
                match frame {
                    Ok(f) => {
                        proof {
                            lemma_check_len(view@);
                        }
                        buffer_advance(&mut self.buffer, n);
                        Ok(Some(f))
                    },
                    Err(e) => Err(e),
                }
            },
            Err(FrameParseError::Incomplete) => Ok(None),
            Err(e) => Err(e),
        }
    }
}

/// A frame that `check` finds never reaches past the buffer.
pub proof fn lemma_check_len(b: Seq<u8>)
    ensures
        check_spec(b) matches Ok(n) ==> n <= b.len(),
{
    crate::protocol::lemma_first_crlf(b, 1);
}

} // verus!
