//! Message types and framing shared by host and client.
//!
//! On the wire every message is a frame: a 4-byte little-endian length
//! followed by that many body bytes (the postcard encoding of a [`Message`]).

use vstd::arithmetic::div_mod::lemma_fundamental_div_mod_converse;
use vstd::prelude::*;

verus! {

/// Protocol version negotiated during the connection handshake.
pub const PROTOCOL_VERSION: u32 = 1;

/// Number of bytes of the length prefix in front of each frame body.
pub const FRAME_HEADER_LEN: usize = 4;

/// Video codec used for the encoded frame stream.
#[derive(Debug, Clone, Copy, PartialEq, Eq, Structural)]
pub enum Codec {
    H264,
    Hevc,
}

/// A message on the host -> client stream.
#[derive(Debug, Clone, PartialEq, Eq)]
pub enum Message {
    /// Sent once at stream start: geometry, codec, and the codec parameter
    /// sets (SPS/PPS for H.264) the client needs to build its decoder.
    StreamStart { width: u32, height: u32, codec: Codec, parameter_sets: Vec<Vec<u8>> },
    /// One encoded frame (AVCC: length-prefixed NAL units).
    Frame { pts_value: i64, pts_timescale: i32, keyframe: bool, data: Vec<u8> },
}

/// Why a frame could not be built or read.
#[derive(Debug, Clone, Copy, PartialEq, Eq, Structural)]
pub enum FrameError {
    /// The body is longer than a 4-byte length prefix can describe.
    MessageTooLarge,
    /// The buffer ends before the length prefix or before the body it announces.
    UnexpectedEof,
}

/// The four little-endian bytes of `n` (for `n < 2^32`).
#[verifier::opaque]
pub open spec fn le32_bytes(n: nat) -> Seq<u8> {
    seq![
        (n % 0x100) as u8,
        ((n / 0x100) % 0x100) as u8,
        ((n / 0x1_0000) % 0x100) as u8,
        ((n / 0x100_0000) % 0x100) as u8,
    ]
}

/// The number that four little-endian bytes stand for.
#[verifier::opaque]
pub open spec fn le32_value(b: Seq<u8>) -> nat
    recommends
        b.len() == 4,
{
    (b[0] + 0x100 * b[1] + 0x1_0000 * b[2] + 0x100_0000 * b[3]) as nat
}

/// The frame that carries `body`: its length in little-endian, then the body.
pub open spec fn spec_frame(body: Seq<u8>) -> Seq<u8> {
    le32_bytes(body.len()) + body
}

/// What reading one frame from the front of `buf` gives: the body and the
/// number of bytes the frame takes, or the error.
pub open spec fn spec_parse_frame(buf: Seq<u8>) -> Result<(Seq<u8>, nat), FrameError> {
    if buf.len() < 4 {
        Err(FrameError::UnexpectedEof)
    } else {
        let n = le32_value(buf.take(4));
        if buf.len() < 4 + n {
            Err(FrameError::UnexpectedEof)
        } else {
            Ok((buf.subrange(4, 4 + n as int), 4 + n))
        }
    }
}

/// Encodes a body length as the 4-byte little-endian frame header.
pub fn encode_len_prefix(n: u32) -> (bytes: [u8; 4])
    ensures
        bytes@ == le32_bytes(n as nat),
{
    let bytes = [
        (n % 0x100) as u8,
        ((n / 0x100) % 0x100) as u8,
        ((n / 0x1_0000) % 0x100) as u8,
        ((n / 0x100_0000) % 0x100) as u8,
    ];
    reveal(le32_bytes);
    assert(bytes@ =~= le32_bytes(n as nat));
    bytes
}

/// Decodes a 4-byte little-endian frame header into the body length.
pub fn decode_len_prefix(bytes: [u8; 4]) -> (n: u32)
    ensures
        n as nat == le32_value(bytes@),
{
    reveal(le32_value);
    let b0 = bytes[0] as u32;
    let b1 = bytes[1] as u32;
    let b2 = bytes[2] as u32;
    let b3 = bytes[3] as u32;
    b0 + 0x100 * b1 + 0x1_0000 * b2 + 0x100_0000 * b3
}


/// Builds the frame for one encoded message body: the body's length as four
/// little-endian bytes, then the body. A body longer than `u32::MAX` bytes
/// cannot be described by the header and is refused.
pub fn frame_message(body: &[u8]) -> (res: Result<Vec<u8>, FrameError>)
    ensures
        match res {
            Ok(frame) => body@.len() <= u32::MAX && frame@ == spec_frame(body@),
            Err(e) => body@.len() > u32::MAX && e == FrameError::MessageTooLarge,
        },
{
    if body.len() > 0xffff_ffffusize {
        return Err(FrameError::MessageTooLarge);
    }
    let header = encode_len_prefix(body.len() as u32);
    let mut out: Vec<u8> = Vec::new();
    let mut i: usize = 0;
    while i < 4
        invariant
            i <= 4,
            out@ == header@.take(i as int),
        decreases 4 - i,
    {
        out.push(header[i]);
        i = i + 1;
        assert(out@ =~= header@.take(i as int));
    }
    let mut j: usize = 0;
    while j < body.len()
        invariant
            j <= body@.len(),
            out@ == header@ + body@.take(j as int),
        decreases body@.len() - j,
    {
        out.push(body[j]);
        j = j + 1;
        assert(out@ =~= header@ + body@.take(j as int));
    }
    assert(body@.take(body@.len() as int) =~= body@);
    assert(header@ =~= le32_bytes(body@.len()));
    Ok(out)
}

/// Reads the frame at the front of `buf`: returns its body and the number of
/// bytes the whole frame takes, so that the next frame starts right after.
/// Fails with `UnexpectedEof` when `buf` ends before the header or before the
/// body that the header announces.
pub fn parse_frame(buf: &[u8]) -> (res: Result<(Vec<u8>, usize), FrameError>)
    ensures
        match (res, spec_parse_frame(buf@)) {
            (Ok((body, used)), Ok((sbody, sused))) => body@ == sbody && used as nat == sused,
            (Err(e), Err(se)) => e == se,
            _ => false,
        },
{
    if buf.len() < 4 {
        return Err(FrameError::UnexpectedEof);
    }
    let header: [u8; 4] = [buf[0], buf[1], buf[2], buf[3]];
    assert(header@ =~= buf@.take(4));
    let n = decode_len_prefix(header) as usize;
    if buf.len() - 4 < n {
        return Err(FrameError::UnexpectedEof);
    }
    let mut body: Vec<u8> = Vec::new();
    let mut j: usize = 0;
    while j < n
        invariant
            j <= n,
            4 + n <= buf.len(),
            body@ == buf@.subrange(4, 4 + j),
        decreases n - j,
    {
        body.push(buf[4 + j]);
        j = j + 1;
        assert(body@ =~= buf@.subrange(4, 4 + j));
    }
    Ok((body, 4 + n))
}

/// The frames of `bodies`, one after the other, as a writer puts them on a stream.
pub open spec fn spec_frames(bodies: Seq<Seq<u8>>) -> Seq<u8>
    decreases bodies.len(),
{
    if bodies.len() == 0 {
        Seq::empty()
    } else {
        spec_frame(bodies[0]) + spec_frames(bodies.drop_first())
    }
}

/// Reads `count` frames one after the other from the front of `buf`, as a
/// reader takes them off a stream: the bodies in order, or the first error.
pub open spec fn spec_read_frames(buf: Seq<u8>, count: nat) -> Result<Seq<Seq<u8>>, FrameError>
    decreases count,
{
    if count == 0 {
        Ok(Seq::empty())
    } else {
        match spec_parse_frame(buf) {
            Err(e) => Err(e),
            Ok((body, used)) => match spec_read_frames(buf.skip(used as int), (count - 1) as nat) {
                Err(e) => Err(e),
                Ok(rest) => Ok(seq![body] + rest),
            },
        }
    }
}

/// Decoding the header of a length gives the length back, for every length
/// that fits in four bytes.
pub proof fn lemma_len_prefix_roundtrip(n: nat)
    requires
        n <= u32::MAX,
    ensures
        le32_bytes(n).len() == 4,
        le32_value(le32_bytes(n)) == n,
{
    reveal(le32_bytes);
    reveal(le32_value);
}

/// Every 4-byte header is the header of the length it decodes to.
pub proof fn lemma_len_prefix_canonical(b: Seq<u8>)
    requires
        b.len() == 4,
    ensures
        le32_value(b) <= u32::MAX,
        le32_bytes(le32_value(b)) == b,
{
    reveal(le32_bytes);
    reveal(le32_value);
    let (b0, b1, b2, b3) = (b[0] as int, b[1] as int, b[2] as int, b[3] as int);
    let v = b0 + 0x100 * b1 + 0x1_0000 * b2 + 0x100_0000 * b3;
    assert(v == le32_value(b));
    lemma_fundamental_div_mod_converse(v, 0x100, b1 + 0x100 * b2 + 0x1_0000 * b3, b0);
    lemma_fundamental_div_mod_converse(
        b1 + 0x100 * b2 + 0x1_0000 * b3,
        0x100,
        b2 + 0x100 * b3,
        b1,
    );
    lemma_fundamental_div_mod_converse(v, 0x1_0000, b2 + 0x100 * b3, b0 + 0x100 * b1);
    lemma_fundamental_div_mod_converse(b2 + 0x100 * b3, 0x100, b3, b2);
    lemma_fundamental_div_mod_converse(v, 0x100_0000, b3, b0 + 0x100 * b1 + 0x1_0000 * b2);
    lemma_fundamental_div_mod_converse(b3, 0x100, 0, b3);
    assert(le32_bytes(le32_value(b)) =~= b);
}

/// Reading a frame from a buffer that starts with the frame of `body` gives
/// `body` back and consumes exactly that frame, whatever follows it.
pub proof fn lemma_frame_then_parse(body: Seq<u8>, rest: Seq<u8>)
    requires
        body.len() <= u32::MAX,
    ensures
        spec_parse_frame(spec_frame(body) + rest) == Ok::<(Seq<u8>, nat), FrameError>(
            (body, body.len() + 4),
        ),
{
    let buf = spec_frame(body) + rest;
    lemma_len_prefix_roundtrip(body.len());
    assert(buf.take(4) =~= le32_bytes(body.len()));
    assert(buf.subrange(4, 4 + body.len() as int) =~= body);
}

/// Whatever a successful read returns is framed back into exactly the bytes
/// that the read consumed: the framing has one encoding per body.
pub proof fn lemma_parse_then_frame(buf: Seq<u8>)
    ensures
        spec_parse_frame(buf) matches Ok((body, used)) ==> used <= buf.len() && spec_frame(body)
            == buf.take(used as int),
{
    if let Ok((body, used)) = spec_parse_frame(buf) {
        lemma_len_prefix_canonical(buf.take(4));
        assert(spec_frame(body) =~= buf.take(used as int));
    }
}

/// A stream of frames written one after the other is read back, frame by
/// frame, as the same bodies in the same order.
pub proof fn lemma_frames_roundtrip(bodies: Seq<Seq<u8>>)
    requires
        forall|i: int| 0 <= i < bodies.len() ==> #[trigger] bodies[i].len() <= u32::MAX,
    ensures
        spec_read_frames(spec_frames(bodies), bodies.len()) == Ok::<Seq<Seq<u8>>, FrameError>(
            bodies,
        ),
    decreases bodies.len(),
{
    if bodies.len() == 0 {
        assert(bodies =~= Seq::<Seq<u8>>::empty());
    } else {
        let first = bodies[0];
        let tail = bodies.drop_first();
        assert forall|i: int| 0 <= i < tail.len() implies #[trigger] tail[i].len() <= u32::MAX by {
            assert(tail[i] == bodies[i + 1]);
        }
        lemma_frames_roundtrip(tail);
        let rest = spec_frames(tail);
        let buf = spec_frames(bodies);
        assert(buf == spec_frame(first) + rest);
        lemma_frame_then_parse(first, rest);
        lemma_len_prefix_roundtrip(first.len());
        let used: nat = first.len() + 4;
        assert(spec_frame(first).len() == used);
        assert(buf.skip(used as int) =~= rest);
        assert(spec_read_frames(rest, tail.len()) == Ok::<Seq<Seq<u8>>, FrameError>(tail));
        assert(seq![first] + tail =~= bodies);
    }
}

} // verus!
