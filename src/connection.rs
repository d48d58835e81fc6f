//! The per-connection state: the bytes received and not yet decoded.
//!
//! The bytes live in a `bytes::BytesMut`. A connection appends what the
//! socket delivered, then takes complete frames off the front one at a
//! time; a frame that is not complete yet stays in the buffer, untouched,
//! until more bytes come.

use bytes::{Buf, BytesMut};
use vstd::prelude::*;
use crate::command::request_fits;
use crate::decode::{parse_frame, parse_items, read_frame, FrameParseError};
use crate::resp::{Value, RESP};

verus! {

#[verifier::external_type_specification]
#[verifier::external_body]
pub struct ExBytesMut(BytesMut);

/// The bytes that a `BytesMut` holds.
pub uninterp spec fn buffer_bytes(b: BytesMut) -> Seq<u8>;

/// Relies on `BytesMut::with_capacity`: the new buffer holds no bytes.
#[verifier::external_body]
fn buffer_new() -> (r: BytesMut)
    ensures
        buffer_bytes(r) == Seq::<u8>::empty(),
{
    BytesMut::with_capacity(4096)
}

/// Relies on `BytesMut::extend_from_slice`: it appends `data`. It panics
/// when the new length overflows, which `requires` leaves out.
#[verifier::external_body]
fn buffer_extend(buf: &mut BytesMut, data: &[u8])
    requires
        buffer_bytes(*old(buf)).len() + data@.len() <= isize::MAX,
    ensures
        buffer_bytes(*final(buf)) == buffer_bytes(*old(buf)) + data@,
{
    buf.extend_from_slice(data)
}

/// Relies on `BytesMut`'s `AsRef<[u8]>`: the slice of the bytes it holds.
#[verifier::external_body]
fn buffer_slice(buf: &BytesMut) -> (r: &[u8])
    ensures
        r@ == buffer_bytes(*buf),
{
    buf.as_ref()
}

/// Relies on `<BytesMut as Buf>::advance`: it drops the first `cnt` bytes.
/// It panics when `cnt` exceeds the length, which `requires` leaves out.
#[verifier::external_body]
fn buffer_advance(buf: &mut BytesMut, cnt: usize)
    requires
        cnt <= buffer_bytes(*old(buf)).len(),
    ensures
        buffer_bytes(*final(buf)) == buffer_bytes(*old(buf)).subrange(
            cnt as int,
            buffer_bytes(*old(buf)).len() as int,
        ),
{
    buf.advance(cnt)
}

proof fn lemma_parse_items_len(b: Seq<u8>, p: int, n: nat)
    ensures
        match parse_items(b, p, n) {
            Ok((vs, _)) => vs.len() == n,
            Err(_) => true,
        },
    decreases n,
{
    if n > 0 {
        match parse_frame(b, p) {
            Ok((v, c)) => {
                lemma_parse_items_len(b, p + c, (n - 1) as nat);
            },
            Err(_) => {},
        }
    }
}

/// Every value that the decoder produces is a request that `execute` takes.
pub proof fn lemma_decoded_fits(b: Seq<u8>, p: int)
    ensures
        match parse_frame(b, p) {
            Ok((v, _)) => request_fits(v),
            Err(_) => true,
        },
{
    if 0 <= p < b.len() {
        match crate::decode::find_crlf(b, p + 1) {
            Some(e) => {
                let text = b.subrange(p + 1, e);
                match crate::decimal::decimal_value(text) {
                    Some(n) => {
                        if n >= 0 {
                            lemma_parse_items_len(b, e + 2, n as nat);
                        }
                    },
                    None => {},
                }
            },
            None => {},
        }
    }
}

/// One client connection: the bytes received and not yet decoded.
pub struct Connection {
    buffer: BytesMut,
}

impl View for Connection {
    type V = Seq<u8>;

    closed spec fn view(&self) -> Seq<u8> {
        buffer_bytes(self.buffer)
    }
}

impl Connection {
    /// A connection that has received nothing.
    pub fn new() -> (r: Self)
        ensures
            r@ == Seq::<u8>::empty(),
    {
        Connection { buffer: buffer_new() }
    }

    /// Appends bytes that the socket delivered.
    pub fn receive(&mut self, data: &[u8])
        requires
            old(self)@.len() + data@.len() <= isize::MAX,
        ensures
            final(self)@ == old(self)@ + data@,
    {
        buffer_extend(&mut self.buffer, data);
    }

    /// How many bytes wait to be decoded.
    pub fn pending(&self) -> (r: usize)
        ensures
            r == self@.len(),
    {
        buffer_slice(&self.buffer).len()
    }

    /// Takes the next complete frame off the front of the buffer. When there
    /// is none, the buffer stays exactly as it was: `IncomingError` asks for
    /// more bytes; any other error means the stream is corrupt.
    pub fn next_frame(&mut self) -> (r: Result<RESP, FrameParseError>)
        ensures
            match r {
                Ok(v) => {
                    &&& parse_frame(old(self)@, 0) is Ok
                    &&& v@ == parse_frame(old(self)@, 0)->Ok_0.0
                    &&& final(self)@ == old(self)@.subrange(
                        parse_frame(old(self)@, 0)->Ok_0.1 as int,
                        old(self)@.len() as int,
                    )
                    &&& request_fits(v@)
                },
                Err(e) => {
                    &&& parse_frame(old(self)@, 0) == Err::<(Value, nat), FrameParseError>(e)
                    &&& final(self)@ == old(self)@
                },
            },
    {
        let decoded = read_frame(buffer_slice(&self.buffer), 0);
        proof {
            lemma_decoded_fits(self@, 0);
        }
        match decoded {
            Ok((v, end)) => {
                buffer_advance(&mut self.buffer, end);
                Ok(v)
            },
            Err(e) => Err(e),
        }
    }
}

/// The reply sent before a connection whose byte stream is corrupt is
/// closed.
pub fn protocol_error() -> (r: RESP)
    ensures
        r@ == Value::Error("ERR Protocol error"@),
{
    RESP::Errors("ERR Protocol error".to_owned())
}

} // verus!
