//! Frames on a stream of bytes: a four-byte length, then that many bytes.

use crate::le::{le_value, lemma_le_bytes_len, lemma_le_limits, lemma_le_round_trip, lemma_le_value_bound};
use crate::response::framed;
use crate::text::{decimal, push_decimal};
use crate::views::copy_str;
use bytes::{Buf, BufMut, BytesMut};
use vstd::prelude::*;

verus! {

/// `bytes::BytesMut`, a buffer of bytes.
#[verifier::external_type_specification]
#[verifier::external_body]
pub struct ExBytesMut(BytesMut);

/// The bytes in a `bytes::BytesMut`.
pub uninterp spec fn bytes_in(b: BytesMut) -> Seq<u8>;

/// `BytesMut::len`: how many bytes there are.
#[verifier::external_body]
fn buffer_len(b: &BytesMut) -> (n: usize)
    ensures
        n == bytes_in(*b).len(),
{
    b.len()
}

/// `BytesMut` as a slice, through its `Deref`: the bytes, in order.
#[verifier::external_body]
pub(crate) fn buffer_slice(b: &BytesMut) -> (r: &[u8])
    ensures
        r@ == bytes_in(*b),
{
    b
}

/// `BytesMut::reserve`: makes room behind the bytes and leaves them as they are.
#[verifier::external_body]
fn buffer_reserve(b: &mut BytesMut, additional: usize)
    requires
        bytes_in(*old(b)).len() + additional <= isize::MAX,
    ensures
        bytes_in(*final(b)) == bytes_in(*old(b)),
{
    b.reserve(additional)
}

/// `BytesMut::advance`: drops bytes at the front.
#[verifier::external_body]
fn buffer_advance(b: &mut BytesMut, cnt: usize)
    requires
        cnt <= bytes_in(*old(b)).len(),
    ensures
        bytes_in(*final(b)) == bytes_in(*old(b)).skip(cnt as int),
{
    b.advance(cnt)
}

/// `BytesMut::split_to`: takes bytes off the front.
#[verifier::external_body]
fn buffer_split_to(b: &mut BytesMut, at: usize) -> (r: BytesMut)
    requires
        at <= bytes_in(*old(b)).len(),
    ensures
        bytes_in(r) == bytes_in(*old(b)).take(at as int),
        bytes_in(*final(b)) == bytes_in(*old(b)).skip(at as int),
{
    b.split_to(at)
}

/// `BytesMut::put_slice`: appends bytes.
#[verifier::external_body]
fn buffer_put(b: &mut BytesMut, s: &[u8])
    requires
        bytes_in(*old(b)).len() + s@.len() <= isize::MAX,
    ensures
        bytes_in(*final(b)) == bytes_in(*old(b)) + s@,
{
    b.put_slice(s)
}

/// No frame is larger than this.
pub const MAX_FRAME_SIZE: usize = 16 * 1024 * 1024;

/// A frame that is too large, with the size that it claims to have.
#[derive(Debug, Clone, Copy, PartialEq, Eq, Structural)]
pub struct FrameError {
    pub size: usize,
}

impl FrameError {
    pub fn message(&self) -> (r: String)
        ensures
            r@ == "frame too large: "@ + decimal(self.size as nat) + " bytes"@,
    {
        let mut r = copy_str("frame too large: ");
        push_decimal(&mut r, self.size as u64);
        r.append(" bytes");
        r
    }
}

/// What the front of a stream holds.
pub ghost enum Front {
    /// Not all of a frame yet.
    Partial,
    /// A frame that claims to be larger than is allowed.
    TooLarge { size: nat },
    /// A frame, and what follows it.
    Frame { body: Seq<u8>, rest: Seq<u8> },
}

/// What the front of a stream holds.
pub open spec fn front(s: Seq<u8>) -> Front {
    if s.len() < 4 {
        Front::Partial
    } else {
        let n = le_value(s.take(4));
        if n > MAX_FRAME_SIZE {
            Front::TooLarge { size: n }
        } else if s.len() < 4 + n {
            Front::Partial
        } else {
            Front::Frame { body: s.subrange(4, 4 + n as int), rest: s.skip(4 + n as int) }
        }
    }
}

/// Takes frames off a stream, and puts them on one.
pub struct LengthPrefixCodec;

impl LengthPrefixCodec {
    /// Takes a frame off the front of a stream, once all of it is there.
    pub fn decode(&mut self, src: &mut BytesMut) -> (r: Result<Option<BytesMut>, FrameError>)
        ensures
            match front(bytes_in(*old(src))) {
                Front::Partial => {
                    &&& r matches Ok(None)
                    &&& bytes_in(*final(src)) == bytes_in(*old(src))
                },
                Front::TooLarge { size } => {
                    &&& r matches Err(e) && e.size == size
                    &&& bytes_in(*final(src)) == bytes_in(*old(src))
                },
                Front::Frame { body, rest } => {
                    &&& r matches Ok(Some(frame)) && bytes_in(frame) == body
                    &&& bytes_in(*final(src)) == rest
                },
            },
    {
        let ghost s = bytes_in(*src);
        let len: usize = buffer_len(src);
        if len < 4 {
            return Ok(None);
        }
        let frame_len: usize = crate::le::read_le(buffer_slice(src), 0, 4) as usize;
        proof {
            assert(s.subrange(0, 4) =~= s.take(4));
            lemma_le_value_bound(s.take(4));
            lemma_le_limits();
        }
        if frame_len > MAX_FRAME_SIZE {
            return Err(FrameError { size: frame_len });
        }
        let total: usize = 4 + frame_len;
        if len < total {
            buffer_reserve(src, total - len);
            return Ok(None);
        }
        buffer_advance(src, 4);
        let frame = buffer_split_to(src, frame_len);
        proof {
            assert(s.skip(4).take(frame_len as int) =~= s.subrange(4, 4 + frame_len as int));
            assert(s.skip(4).skip(frame_len as int) =~= s.skip(4 + frame_len as int));
        }
        Ok(Some(frame))
    }

    /// Puts bytes, which have their length in front already, on a stream.
    pub fn encode(&mut self, item: &[u8], dst: &mut BytesMut) -> (r: Result<(), FrameError>)
        requires
            bytes_in(*old(dst)).len() + item@.len() <= isize::MAX,
        ensures
            r is Ok,
            bytes_in(*final(dst)) == bytes_in(*old(dst)) + item@,
    {
        buffer_reserve(dst, item.len());
        buffer_put(dst, item);
        Ok(())
    }
}

/// A frame that was put on a stream is taken off it, whatever follows, and no part of it is taken
/// off before all of it is there.
pub proof fn law_frame_round_trip(body: Seq<u8>, rest: Seq<u8>, n: int)
    requires
        body.len() <= MAX_FRAME_SIZE,
        0 <= n < framed(body).len(),
    ensures
        front(framed(body) + rest) == (Front::Frame { body, rest }),
        front(framed(body).take(n)) == Front::Partial,
{
    broadcast use lemma_le_bytes_len;

    let s = framed(body) + rest;
    lemma_le_limits();
    lemma_le_round_trip(body.len(), 4);
    assert(s.take(4) =~= crate::le::le_bytes(body.len(), 4));
    assert(s.subrange(4, 4 + body.len() as int) =~= body);
    assert(s.skip(4 + body.len() as int) =~= rest);
    let part = framed(body).take(n);
    if n >= 4 {
        assert(part.take(4) =~= crate::le::le_bytes(body.len(), 4));
    }
}

/// A frame that is put on an empty stream with its length in front, and whatever is put behind it, is
/// taken off as it was, and what was put behind it is left. Nothing is taken off before all of it is
/// there, and a frame that claims to be too large is refused.
pub proof fn law_frame_is_taken_off(
    codec: &mut LengthPrefixCodec,
    src: &mut BytesMut,
    r: Result<Option<BytesMut>, FrameError>,
    body: Seq<u8>,
    rest: Seq<u8>,
    n: int,
)
    requires
        call_ensures(LengthPrefixCodec::decode, (codec, src), r),
        body.len() <= 16 * 1024 * 1024,
    ensures
        bytes_in(*old(src)) == framed(body) + rest ==> (r matches Ok(Some(frame)) && bytes_in(frame)
            == body) && bytes_in(*final(src)) == rest,
        0 <= n < framed(body).len() && bytes_in(*old(src)) == framed(body).take(n) ==> (r matches Ok(
            None,
        )) && bytes_in(*final(src)) == bytes_in(*old(src)),
        bytes_in(*old(src)).len() >= 4 && le_value(bytes_in(*old(src)).take(4)) > 16 * 1024 * 1024
            ==> r is Err,
{
    broadcast use lemma_le_bytes_len;

    law_frame_round_trip(
        body,
        rest,
        if 0 <= n < framed(body).len() {
            n
        } else {
            0
        },
    );
}

/// What is said of a frame that is too large.
pub proof fn law_frame_error_says(e: &FrameError, m: String)
    requires
        call_ensures(FrameError::message, (e,), m),
    ensures
        m@ == "frame too large: "@ + decimal(e.size as nat) + " bytes"@,
{
}

} // verus!
