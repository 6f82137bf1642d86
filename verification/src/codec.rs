//! Length-delimited framing of messages on a byte stream.

use bytes::{Buf, BufMut, BytesMut};
use vstd::prelude::*;

verus! {

/// The largest payload that a frame may carry.
pub const MAX_FRAME_BYTES: usize = 8_388_608;

// ── The byte buffer ────────────────────────────────────────────────────────

/// The growable byte buffer of the `bytes` crate.
#[verifier::external_type_specification]
#[verifier::external_body]
pub struct ExBytesMut(BytesMut);

/// The bytes that a buffer holds and that have not been consumed.
pub uninterp spec fn contents(buffer: BytesMut) -> Seq<u8>;

/// `BytesMut::len`: the number of bytes in the buffer.
#[verifier::external_body]
fn buffer_len(buffer: &BytesMut) -> (len: usize)
    ensures
        len == contents(*buffer).len(),
{
    buffer.len()
}

/// Indexing a `BytesMut`, which goes through its `Deref` to a slice: the byte at
/// a position inside the buffer.
#[verifier::external_body]
fn buffer_byte(buffer: &BytesMut, position: usize) -> (byte: u8)
    requires
        position < contents(*buffer).len(),
    ensures
        byte == contents(*buffer)[position as int],
{
    buffer[position]
}

/// `BytesMut::reserve`: makes room for more bytes and leaves those that are
/// there as they are. It panics where the new capacity would not be addressable,
/// so the bytes that are there and those to come must be. Nothing is said of the
/// room that the buffer has then, nor of a machine that is out of memory.
#[verifier::external_body]
fn buffer_reserve(buffer: &mut BytesMut, additional: usize)
    requires
        contents(*old(buffer)).len() + additional <= isize::MAX,
    ensures
        contents(*final(buffer)) == contents(*old(buffer)),
{
    buffer.reserve(additional);
}

/// `BufMut::put_u32` on a `BytesMut`: appends the four bytes of the number, the
/// highest first.
#[verifier::external_body]
fn buffer_put_u32(buffer: &mut BytesMut, n: u32)
    requires
        contents(*old(buffer)).len() + 4 <= isize::MAX,
    ensures
        contents(*final(buffer)) == contents(*old(buffer)) + big_endian(n),
{
    buffer.put_u32(n);
}

/// `BufMut::put_slice` on a `BytesMut`: appends the bytes of the slice.
#[verifier::external_body]
fn buffer_put_slice(buffer: &mut BytesMut, bytes: &[u8])
    requires
        contents(*old(buffer)).len() + bytes@.len() <= isize::MAX,
    ensures
        contents(*final(buffer)) == contents(*old(buffer)) + bytes@,
{
    buffer.put_slice(bytes);
}

/// `Buf::advance` on a `BytesMut`: consumes bytes from the front. It panics if
/// there are fewer.
#[verifier::external_body]
fn buffer_advance(buffer: &mut BytesMut, count: usize)
    requires
        count <= contents(*old(buffer)).len(),
    ensures
        contents(*final(buffer)) == contents(*old(buffer)).skip(count as int),
{
    buffer.advance(count);
}

/// `BytesMut::split_to`: takes bytes from the front and returns them. It panics
/// if there are fewer.
#[verifier::external_body]
fn buffer_split_to(buffer: &mut BytesMut, count: usize) -> (front: Vec<u8>)
    requires
        count <= contents(*old(buffer)).len(),
    ensures
        front@ == contents(*old(buffer)).take(count as int),
        contents(*final(buffer)) == contents(*old(buffer)).skip(count as int),
{
    buffer.split_to(count).to_vec()
}

// ── Frames ─────────────────────────────────────────────────────────────────

/// The four bytes of a number, the highest first.
pub open spec fn big_endian(n: u32) -> Seq<u8> {
    seq![
        (n / 0x100_0000) as u8,
        ((n / 0x1_0000) % 0x100) as u8,
        ((n / 0x100) % 0x100) as u8,
        (n % 0x100) as u8,
    ]
}

/// The number that four bytes stand for, the highest first.
pub open spec fn from_big_endian(bytes: Seq<u8>) -> int {
    bytes[0] * 0x100_0000 + bytes[1] * 0x1_0000 + bytes[2] * 0x100 + bytes[3]
}

/// The four bytes of a number stand for it.
pub proof fn big_endian_round_trip(n: u32)
    ensures
        big_endian(n).len() == 4,
        from_big_endian(big_endian(n)) == n,
{
}

/// A frame: the length of the payload in four bytes, then the payload.
pub open spec fn frame(payload: Seq<u8>) -> Seq<u8> {
    big_endian(payload.len() as u32) + payload
}

/// Why a frame cannot be written or read.
#[derive(Debug, Clone, Copy, PartialEq, Eq, Structural)]
pub enum FrameError {
    /// The payload is larger than `MAX_FRAME_BYTES`.
    TooLarge,
}

/// What a buffer starts with.
pub enum Front {
    /// Less than one frame.
    Partial,
    /// A frame with this payload.
    Frame(Seq<u8>),
    /// The header of a frame that is too large.
    Oversize,
}

/// What the bytes of a stream start with.
pub open spec fn front(bytes: Seq<u8>) -> Front {
    if bytes.len() < 4 {
        Front::Partial
    } else if from_big_endian(bytes) > MAX_FRAME_BYTES {
        Front::Oversize
    } else if bytes.len() < 4 + from_big_endian(bytes) {
        Front::Partial
    } else {
        Front::Frame(bytes.subrange(4, 4 + from_big_endian(bytes)))
    }
}

/// The codec of a connection.
#[derive(Debug, Clone, Copy)]
pub struct RaftCodec;

impl RaftCodec {
    /// Whether a buffer with the frame of `payload` appended to `dst` can exist. A
    /// payload that is too large gets no frame.
    pub fn fits(&self, payload: &[u8], dst: &BytesMut) -> (fits: bool)
        ensures
            fits == (payload@.len() <= MAX_FRAME_BYTES ==> contents(*dst).len() + 4 + payload@.len()
                <= isize::MAX),
    {
        let len = payload.len();
        len > MAX_FRAME_BYTES || buffer_len(dst) <= isize::MAX as usize - 4 - len
    }

    /// Appends a frame with `payload` to `dst`. A payload that is too large is
    /// refused, and then nothing is appended.
    pub fn encode(&mut self, payload: &[u8], dst: &mut BytesMut) -> (result: Result<
        (),
        FrameError,
    >)
        requires
            payload@.len() <= MAX_FRAME_BYTES ==> contents(*old(dst)).len() + 4 + payload@.len()
                <= isize::MAX,
        ensures
            result is Ok <==> payload@.len() <= MAX_FRAME_BYTES,
            result is Ok ==> contents(*final(dst)) == contents(*old(dst)) + frame(payload@),
            result is Err ==> contents(*final(dst)) == contents(*old(dst)),
    {
        let len = payload.len();
        if len > MAX_FRAME_BYTES {
            return Err(FrameError::TooLarge);
        }
        let ghost before = contents(*dst);
        buffer_reserve(dst, 4 + len);
        buffer_put_u32(dst, len as u32);
        buffer_put_slice(dst, payload);
        assert(contents(*dst) =~= before + frame(payload@));
        Ok(())
    }

    /// Takes the first frame off `src` and returns its payload, or `None` if
    /// there is less than one frame. A frame that is too large is refused as
    /// soon as its length is there, and stays.
    pub fn decode(&mut self, src: &mut BytesMut) -> (result: Result<Option<Vec<u8>>, FrameError>)
        ensures
            match front(contents(*old(src))) {
                Front::Partial => {
                    &&& result == Ok::<Option<Vec<u8>>, FrameError>(None)
                    &&& contents(*final(src)) == contents(*old(src))
                },
                Front::Frame(payload) => {
                    &&& result matches Ok(Some(bytes)) && bytes@ == payload
                    &&& contents(*final(src)) == contents(*old(src)).skip(
                        4 + payload.len() as int,
                    )
                },
                Front::Oversize => {
                    &&& result == Err::<Option<Vec<u8>>, FrameError>(FrameError::TooLarge)
                    &&& contents(*final(src)) == contents(*old(src))
                },
            },
    {
        let ghost before = contents(*src);
        let available = buffer_len(src);
        if available < 4 {
            return Ok(None);
        }
        let len: u32 = buffer_byte(src, 0) as u32 * 0x100_0000 + buffer_byte(src, 1) as u32
            * 0x1_0000 + buffer_byte(src, 2) as u32 * 0x100 + buffer_byte(src, 3) as u32;
        assert(len == from_big_endian(before));
        if len as usize > MAX_FRAME_BYTES {
            return Err(FrameError::TooLarge);
        }
        let len = len as usize;
        if available < 4 + len {
            buffer_reserve(src, 4 + len - available);
            return Ok(None);
        }
        buffer_advance(src, 4);
        let payload = buffer_split_to(src, len);
        assert(payload@ =~= before.subrange(4, 4 + len));
        assert(contents(*src) =~= before.skip(4 + len));
        Ok(Some(payload))
    }
}

/// What is read back is what was written: a stream that starts with the frame of
/// a payload decodes to that payload, and what follows the frame stays.
pub proof fn frames_round_trip(payload: Seq<u8>, rest: Seq<u8>)
    requires
        payload.len() <= MAX_FRAME_BYTES,
    ensures
        front(frame(payload) + rest) == Front::Frame(payload),
        (frame(payload) + rest).skip(4 + payload.len() as int) == rest,
{
    let bytes = frame(payload) + rest;
    big_endian_round_trip(payload.len() as u32);
    assert(from_big_endian(bytes) == from_big_endian(big_endian(payload.len() as u32)));
    assert(bytes.subrange(4, 4 + payload.len() as int) =~= payload);
    assert(bytes.skip(4 + payload.len() as int) =~= rest);
}

/// A frame that has not arrived in full is not decoded.
pub proof fn partial_frames_wait(payload: Seq<u8>, arrived: int)
    requires
        payload.len() <= MAX_FRAME_BYTES,
        0 <= arrived < frame(payload).len(),
    ensures
        front(frame(payload).take(arrived)) == Front::Partial,
{
    let bytes = frame(payload).take(arrived);
    big_endian_round_trip(payload.len() as u32);
    if arrived >= 4 {
        assert(from_big_endian(bytes) == from_big_endian(big_endian(payload.len() as u32)));
    }
}

/// What is sent arrives: a payload that was appended to an empty buffer is what is
/// taken off it, and nothing is left; another payload that was appended behind it is
/// left, and is taken off next.
pub proof fn payloads_arrive(
    codec: &mut RaftCodec,
    first: &[u8],
    second: &[u8],
    one: &mut BytesMut,
    two: &mut BytesMut,
    three: &mut BytesMut,
    four: &mut BytesMut,
    sent: Result<(), FrameError>,
    also_sent: Result<(), FrameError>,
    received: Result<Option<Vec<u8>>, FrameError>,
    also_received: Result<Option<Vec<u8>>, FrameError>,
)
    requires
        first@.len() <= 8_388_608,
        second@.len() <= 8_388_608,
        contents(*old(one)).len() == 0,
        contents(*old(two)) == contents(*final(one)),
        contents(*old(three)) == contents(*final(two)),
        contents(*old(four)) == contents(*final(three)),
        call_ensures(RaftCodec::encode, (codec, first, one), sent),
        call_ensures(RaftCodec::encode, (codec, second, two), also_sent),
        call_ensures(RaftCodec::decode, (codec, three), received),
        call_ensures(RaftCodec::decode, (codec, four), also_received),
    ensures
        sent is Ok && also_sent is Ok,
        received matches Ok(Some(bytes)) && bytes@ == first@,
        also_received matches Ok(Some(bytes)) && bytes@ == second@,
        contents(*final(four)).len() == 0,
{
    let rest = frame(second@);
    assert(contents(*final(one)) =~= frame(first@));
    assert(contents(*final(two)) == frame(first@) + rest);
    frames_round_trip(first@, rest);
    assert(contents(*final(three)) == rest);
    frames_round_trip(second@, Seq::empty());
    assert(rest + Seq::<u8>::empty() =~= rest);
}

/// A frame is the length of its payload in four bytes, the highest first, and then the
/// payload; what was in the buffer before stays before it. A payload of more than eight
/// mebibytes is refused, and then the buffer stays as it was.
pub proof fn frames_have_a_length(
    codec: &mut RaftCodec,
    payload: &[u8],
    buffer: &mut BytesMut,
    sent: Result<(), FrameError>,
)
    requires
        call_ensures(RaftCodec::encode, (codec, payload, buffer), sent),
    ensures
        sent is Ok <==> payload@.len() <= 8_388_608,
        sent is Err ==> contents(*final(buffer)) == contents(*old(buffer)),
        sent is Ok ==> {
            let before = contents(*old(buffer)).len() as int;
            let after = contents(*final(buffer));
            &&& after.len() == before + 4 + payload@.len()
            &&& after.take(before) == contents(*old(buffer))
            &&& after[before] * 0x100_0000 + after[before + 1] * 0x1_0000 + after[before + 2]
                * 0x100 + after[before + 3] == payload@.len()
            &&& after.skip(before + 4) == payload@
        },
{
    if sent is Ok {
        let before = contents(*old(buffer)).len() as int;
        let after = contents(*final(buffer));
        let length = big_endian(payload@.len() as u32);
        big_endian_round_trip(payload@.len() as u32);
        assert(after[before] == length[0] && after[before + 1] == length[1]);
        assert(after[before + 2] == length[2] && after[before + 3] == length[3]);
        assert(after.take(before) =~= contents(*old(buffer)));
        assert(after.skip(before + 4) =~= payload@);
    }
}

/// A frame is taken off a buffer once all of it is there, and not before. A frame that
/// says that it is larger than eight mebibytes is refused as soon as it says so.
pub proof fn frames_are_awaited(
    codec: &mut RaftCodec,
    buffer: &mut BytesMut,
    received: Result<Option<Vec<u8>>, FrameError>,
)
    requires
        call_ensures(RaftCodec::decode, (codec, buffer), received),
    ensures
        ({
            let bytes = contents(*old(buffer));
            let length = bytes[0] * 0x100_0000 + bytes[1] * 0x1_0000 + bytes[2] * 0x100 + bytes[3];
            if bytes.len() < 4 {
                &&& received matches Ok(None)
                &&& contents(*final(buffer)) == bytes
            } else if length > 8_388_608 {
                received is Err && contents(*final(buffer)) == bytes
            } else if bytes.len() < 4 + length {
                &&& received matches Ok(None)
                &&& contents(*final(buffer)) == bytes
            } else {
                &&& received matches Ok(Some(payload)) && payload@ == bytes.subrange(
                    4,
                    4 + length,
                )
                &&& contents(*final(buffer)) == bytes.skip(4 + length)
            }
        }),
{
}

/// A frame that fits can be appended, and every frame fits for which there is room.
pub proof fn fitting_frames_can_be_appended(
    codec: &mut RaftCodec,
    payload: &[u8],
    buffer: &mut BytesMut,
    fits: bool,
)
    requires
        call_ensures(RaftCodec::fits, (&*codec, payload, &*buffer), fits),
    ensures
        fits ==> call_requires(RaftCodec::encode, (codec, payload, buffer)),
        contents(*old(buffer)).len() + 4 + payload@.len() <= isize::MAX ==> fits,
{
}

} // verus!
