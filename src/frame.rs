//! Length-prefixed frames, optionally zlib-compressed, and the receive buffer
//! that frames are drained from.

use crate::deflate::{zlib_deflated, zlib_inflated, zlib_valid, Compression};
use crate::varint::{
    leading_varint, lemma_varint_prefix, lemma_varint_round_trip, lemma_varint_too_long_extends, read_varint, varint_bytes, varint_scan,
    write_varint, VarintRead, VarintScan,
};
use vstd::prelude::*;

verus! {

/// Largest frame length, after the outer prefix, that a peer may declare.
pub const MAX_FRAME_LEN: u32 = 2097151;

/// Largest decompressed packet (id and payload) that a peer may declare.
pub const MAX_UNCOMPRESSED_LEN: u32 = 8388608;

/// Largest payload that `encode_frame` takes.
pub const MAX_PAYLOAD_LEN: usize = 0x7000_0000;

/// A packet id with its payload.
pub struct Packet {
    pub id: u32,
    pub payload: Vec<u8>,
}

/// Why a frame could not be decoded.
#[derive(PartialEq, Eq, Structural, Clone, Copy, Debug)]
pub enum FrameError {
    /// A varint whose continuation bit did not clear within five bytes.
    BadVarint,
    /// A declared frame length above `MAX_FRAME_LEN`.
    TooLarge,
    /// A frame body without a complete packet id.
    BadPacket,
    /// A compressed body that did not inflate to its declared length, or
    /// declared a length above `MAX_UNCOMPRESSED_LEN`.
    Inflate,
}

/// Packet id and payload together.
pub open spec fn packet_body(id: u32, payload: Seq<u8>) -> Seq<u8> {
    varint_bytes(id as nat) + payload
}

/// Whether a payload of `len` bytes is compressed under `threshold`.
pub open spec fn compresses(len: nat, threshold: int) -> bool {
    threshold >= 0 && len >= threshold
}

/// The frame that carries `id` and `payload` under `threshold` (negative:
/// compression disabled).
pub open spec fn encoded_frame(id: u32, payload: Seq<u8>, threshold: int) -> Seq<u8> {
    let body = packet_body(id, payload);
    let inner = if threshold < 0 {
        body
    } else if compresses(payload.len(), threshold) {
        varint_bytes(body.len()) + zlib_deflated(body)
    } else {
        seq![0u8] + body
    };
    varint_bytes(inner.len()) + inner
}

/// What the start of a receive buffer holds.
pub enum FrameScan {
    /// Not yet a whole frame.
    NeedMore,
    /// A malformed prefix.
    Malformed(FrameError),
    /// A whole frame: its contents after the length prefix, and the bytes it spans.
    Frame(Seq<u8>, nat),
}

/// The frame at the start of `s`.
pub open spec fn frame_scan(s: Seq<u8>) -> FrameScan {
    match varint_scan(s) {
        VarintScan::Incomplete => FrameScan::NeedMore,
        VarintScan::TooLong => FrameScan::Malformed(FrameError::BadVarint),
        VarintScan::Value(v, l) => {
            let n = v % 0x1_0000_0000;
            if n > MAX_FRAME_LEN {
                FrameScan::Malformed(FrameError::TooLarge)
            } else if l + n > s.len() {
                FrameScan::NeedMore
            } else {
                FrameScan::Frame(s.subrange(l as int, l + n), (l + n) as nat)
            }
        },
    }
}

/// The contents of a frame, read under `threshold`.
pub enum FrameContent {
    /// An uncompressed packet id and payload.
    Plain(Seq<u8>),
    /// A zlib stream said to inflate to this many bytes.
    Compressed(nat, Seq<u8>),
    /// No complete inner length.
    Unreadable,
}

pub open spec fn frame_content(frame: Seq<u8>, threshold: int) -> FrameContent {
    if threshold < 0 {
        FrameContent::Plain(frame)
    } else {
        match leading_varint(frame) {
            Some((n, l)) => if n == 0 {
                FrameContent::Plain(frame.skip(l as int))
            } else {
                FrameContent::Compressed(n, frame.skip(l as int))
            },
            None => FrameContent::Unreadable,
        }
    }
}

/// The packet id and payload of an uncompressed packet body.
pub open spec fn split_packet(body: Seq<u8>) -> Option<(u32, Seq<u8>)> {
    match leading_varint(body) {
        Some((id, l)) => Some((id as u32, body.skip(l as int))),
        None => None,
    }
}

/// What decoding the frame contents `frame` gives: a compressed body must
/// declare at most `MAX_UNCOMPRESSED_LEN` bytes, be a valid zlib stream and
/// inflate to exactly the declared length.
pub open spec fn decoded_packet(frame: Seq<u8>, threshold: int) -> Result<(u32, Seq<u8>), FrameError> {
    match frame_content(frame, threshold) {
        FrameContent::Plain(b) => match split_packet(b) {
            Some(p) => Ok(p),
            None => Err(FrameError::BadPacket),
        },
        FrameContent::Compressed(n, z) => if n <= MAX_UNCOMPRESSED_LEN && zlib_valid(z)
            && zlib_inflated(z).len() == n {
            match split_packet(zlib_inflated(z)) {
                Some(p) => Ok(p),
                None => Err(FrameError::BadPacket),
            }
        } else {
            Err(FrameError::Inflate)
        },
        FrameContent::Unreadable => Err(FrameError::BadPacket),
    }
}

/// Builds the frame that carries `id` and `payload` under `threshold`. A
/// frame within the length limits decodes back to `id` and `payload`.
pub fn encode_frame(comp: &mut Compression, id: u32, payload: &[u8], threshold: i32) -> (r: Vec<u8>)
    requires
        payload@.len() <= MAX_PAYLOAD_LEN,
    ensures
        r@ == encoded_frame(id, payload@, threshold as int),
        r@.len() <= MAX_FRAME_LEN && packet_body(id, payload@).len() <= MAX_UNCOMPRESSED_LEN ==> (
        frame_scan(r@) matches FrameScan::Frame(f, c) && c == r@.len() && decoded_packet(
            f,
            threshold as int,
        ) == Ok::<(u32, Seq<u8>), FrameError>((id, payload@))),
{
    let mut body: Vec<u8> = Vec::new();
    write_varint(&mut body, id);
    proof {
        lemma_varint_round_trip(id, seq![]);
        assert(varint_bytes(id as nat) + seq![] == varint_bytes(id as nat));
    }
    let mut i: usize = 0;
    while i < payload.len()
        invariant
            body@ == varint_bytes(id as nat) + payload@.take(i as int),
            i <= payload@.len(),
        decreases payload@.len() - i,
    {
        body.push(payload[i]);
        assert(payload@.take(i + 1) == payload@.take(i as int).push(payload@[i as int]));
        i = i + 1;
    }
    assert(payload@.take(i as int) == payload@);
    assert(body@ == packet_body(id, payload@));
    let mut inner: Vec<u8> = Vec::new();
    if threshold < 0 {
        inner = body;
    } else if payload.len() >= threshold as usize {
        let z = comp.deflate(body.as_slice());
        proof {
            assert(zlib_valid(zlib_deflated(body@)));
            assert(zlib_inflated(zlib_deflated(body@)) == body@);
        }
        write_varint(&mut inner, body.len() as u32);
        let mut j: usize = 0;
        while j < z.len()
            invariant
                inner@ == varint_bytes(body@.len()) + z@.take(j as int),
                j <= z@.len(),
            decreases z@.len() - j,
        {
            inner.push(z[j]);
            assert(z@.take(j + 1) == z@.take(j as int).push(z@[j as int]));
            j = j + 1;
        }
        assert(z@.take(j as int) == z@);
        proof {
            lemma_varint_round_trip(body@.len() as u32, seq![]);
            assert(varint_bytes(body@.len()) + seq![] == varint_bytes(body@.len()));
        }
    } else {
        inner.push(0u8);
        inner.append(&mut body);
        assert(inner@ =~= seq![0u8] + packet_body(id, payload@));
    }
    assert(inner@.len() <= 0xf000_0000);
    assert(inner@ == (if threshold < 0 {
        packet_body(id, payload@)
    } else if compresses(payload@.len(), threshold as int) {
        varint_bytes(packet_body(id, payload@).len()) + zlib_deflated(packet_body(id, payload@))
    } else {
        seq![0u8] + packet_body(id, payload@)
    }));
    let mut out: Vec<u8> = Vec::new();
    write_varint(&mut out, inner.len() as u32);
    out.append(&mut inner);
    proof {
        let body = packet_body(id, payload@);
        if out@.len() <= MAX_FRAME_LEN && body.len() <= MAX_UNCOMPRESSED_LEN {
            lemma_frame_round_trip(id, payload@, threshold as int, seq![]);
            assert(out@ + seq![] =~= out@);
            if compresses(payload@.len(), threshold as int) {
                crate::varint::lemma_varint_round_trip(id, payload@);
                assert(body.skip(varint_bytes(id as nat).len() as int) =~= payload@);
            }
        }
    }
    out
}

/// A built frame is read back whole, bytes after it notwithstanding.
/// Uncompressed (compression disabled, or a payload shorter than the
/// threshold) it decodes to the packet id and payload. Compressed (a payload
/// at least as long as the threshold) its contents are the zlib stream of the
/// id and payload, declared with their length; `encode_frame` adds, from the
/// compressor's promise, that inflating that stream gives them back.
pub proof fn lemma_frame_round_trip(id: u32, payload: Seq<u8>, threshold: int, rest: Seq<u8>)
    requires
        payload.len() <= MAX_PAYLOAD_LEN,
        encoded_frame(id, payload, threshold).len() <= MAX_FRAME_LEN,
    ensures
        ({
            let e = encoded_frame(id, payload, threshold);
            let body = packet_body(id, payload);
            frame_scan(e + rest) matches FrameScan::Frame(f, c) && c == e.len() && (if compresses(
                payload.len(),
                threshold,
            ) {
                frame_content(f, threshold) == FrameContent::Compressed(body.len(), zlib_deflated(body))
            } else {
                decoded_packet(f, threshold) == Ok::<(u32, Seq<u8>), FrameError>((id, payload))
            })
        }),
{
    let body = packet_body(id, payload);
    lemma_varint_round_trip(id, payload);
    assert(body.skip(varint_bytes(id as nat).len() as int) =~= payload);
    let inner = if threshold < 0 {
        body
    } else if compresses(payload.len(), threshold) {
        varint_bytes(body.len()) + zlib_deflated(body)
    } else {
        seq![0u8] + body
    };
    let e = encoded_frame(id, payload, threshold);
    assert(e == varint_bytes(inner.len()) + inner);
    lemma_varint_round_trip(inner.len() as u32, inner + rest);
    assert(e + rest =~= varint_bytes(inner.len()) + (inner + rest));
    let l = varint_bytes(inner.len()).len();
    assert((e + rest).subrange(l as int, (l + inner.len()) as int) =~= inner);
    if threshold >= 0 {
        if compresses(payload.len(), threshold) {
            lemma_varint_round_trip(body.len() as u32, zlib_deflated(body));
            assert(inner.skip(varint_bytes(body.len()).len() as int) =~= zlib_deflated(body));
        } else {
            lemma_varint_round_trip(0, body);
            assert(varint_bytes(0) == seq![0u8]);
            assert(inner.skip(1) =~= body);
        }
    }
}

/// Frames survive being received in pieces: once the buffered bytes start with
/// a whole frame, more bytes after them do not change what is decoded, and any
/// shorter prefix of that frame is reported as needing more data.
pub proof fn lemma_frame_prefix(s: Seq<u8>, t: Seq<u8>)
    requires
        frame_scan(s) is Frame,
    ensures
        ({
            let c = frame_scan(s)->Frame_1;
            &&& (t.len() >= c && t.take(c as int) == s.take(c as int)) ==> frame_scan(t) == frame_scan(s)
            &&& (t.len() < c && t == s.take(t.len() as int)) ==> frame_scan(t) is NeedMore
        }),
{
    lemma_varint_prefix(s, t);
    let l = varint_scan(s)->Value_1;
    let c = frame_scan(s)->Frame_1;
    if t.len() >= c && t.take(c as int) == s.take(c as int) {
        assert(t.take(l as int) =~= t.take(c as int).take(l as int));
        assert(s.take(l as int) =~= s.take(c as int).take(l as int));
        assert(t.subrange(l as int, c as int) =~= t.take(c as int).subrange(l as int, c as int));
        assert(s.subrange(l as int, c as int) =~= s.take(c as int).subrange(l as int, c as int));
    }
    if t.len() < c && t == s.take(t.len() as int) && t.len() >= l {
        assert(t.take(l as int) =~= s.take(l as int));
    }
}

/// A malformed start of the buffered bytes stays malformed, with the same
/// error, whatever bytes follow.
pub proof fn lemma_malformed_extends(s: Seq<u8>, t: Seq<u8>)
    requires
        frame_scan(s) is Malformed,
    ensures
        frame_scan(s + t) == frame_scan(s),
{
    if varint_scan(s) is TooLong {
        lemma_varint_too_long_extends(s, t);
    } else {
        lemma_varint_prefix(s, s + t);
        let l = varint_scan(s)->Value_1;
        assert((s + t).take(l as int) =~= s.take(l as int));
    }
}

/// A whole frame spans at least one byte and no more than is buffered.
pub proof fn lemma_frame_consumes(s: Seq<u8>)
    requires
        frame_scan(s) is Frame,
    ensures
        1 <= frame_scan(s)->Frame_1 <= s.len(),
{
    lemma_varint_prefix(s, s);
}

/// Whether the frame contents `frame` are compressed under `threshold`.
pub open spec fn is_compressed(frame: Seq<u8>, threshold: int) -> bool {
    frame_content(frame, threshold) is Compressed
}

/// The bytes of `data` from `start` up to `end`.
pub fn copy_range(data: &[u8], start: usize, end: usize) -> (r: Vec<u8>)
    requires
        start <= end <= data@.len(),
    ensures
        r@ == data@.subrange(start as int, end as int),
{
    let mut out: Vec<u8> = Vec::new();
    let mut i: usize = start;
    while i < end
        invariant
            start <= i <= end <= data@.len(),
            out@ == data@.subrange(start as int, i as int),
        decreases end - i,
    {
        out.push(data[i]);
        assert(data@.subrange(start as int, i + 1) == data@.subrange(start as int, i as int).push(
            data@[i as int],
        ));
        i = i + 1;
    }
    out
}

/// Splits an uncompressed packet body into its id and payload.
pub fn split_packet_body(body: &[u8]) -> (r: Option<Packet>)
    ensures
        match split_packet(body@) {
            Some((id, p)) => r matches Some(pk) && pk.id == id && pk.payload@ == p,
            None => r is None,
        },
        r matches Some(pk) ==> pk.payload@.len() <= body@.len(),
{
    assert(body@.subrange(0, body@.len() as int) == body@);
    match read_varint(body, 0) {
        VarintRead::Value { value, len } => {
            assert(body@.skip(len as int) == body@.subrange(len as int, body@.len() as int));
            Some(Packet { id: value, payload: copy_range(body, len, body.len()) })
        },
        _ => None,
    }
}

/// Bytes received from a peer and not yet decoded.
pub struct FrameBuffer {
    data: Vec<u8>,
    read_pos: usize,
}

impl FrameBuffer {
    pub closed spec fn wf(&self) -> bool {
        self.read_pos <= self.data@.len()
    }

    /// The bytes that wait to be decoded.
    pub closed spec fn pending(&self) -> Seq<u8> {
        self.data@.skip(self.read_pos as int)
    }

    /// An empty buffer.
    pub fn new() -> (r: FrameBuffer)
        ensures
            r.wf(),
            r.pending() == Seq::<u8>::empty(),
    {
        let r = FrameBuffer { data: Vec::new(), read_pos: 0 };
        assert(r.pending() =~= Seq::<u8>::empty());
        r
    }

    /// Appends bytes that were read from the peer, first dropping the bytes
    /// already decoded.
    pub fn push_bytes(&mut self, bytes: &[u8])
        requires
            old(self).wf(),
        ensures
            final(self).wf(),
            final(self).pending() == old(self).pending() + bytes@,
    {
        if self.read_pos > 0 {
            let rest = copy_range(self.data.as_slice(), self.read_pos, self.data.len());
            assert(rest@ =~= old(self).pending());
            self.data = rest;
            self.read_pos = 0;
            assert(self.pending() =~= old(self).pending());
        }
        let ghost start = self.pending();
        assert(start == old(self).pending());
        let mut i: usize = 0;
        while i < bytes.len()
            invariant
                self.wf(),
                i <= bytes@.len(),
                self.pending() == start + bytes@.take(i as int),
            decreases bytes@.len() - i,
        {
            let ghost d = self.data@;
            self.data.push(bytes[i]);
            assert(self.data@ == d.push(bytes@[i as int]));
            assert(bytes@.take(i + 1) == bytes@.take(i as int).push(bytes@[i as int]));
            assert(self.data@.skip(self.read_pos as int) =~= d.skip(self.read_pos as int).push(
                bytes@[i as int],
            ));
            assert(self.pending() =~= start + bytes@.take(i + 1));
            i = i + 1;
        }
        assert(bytes@.take(i as int) == bytes@);
    }

    /// Decodes the next whole frame, if one is buffered.
    ///
    /// Where the buffered bytes are not yet a whole frame, nothing is consumed
    /// and `Ok(None)` is returned: the caller retries after the next read.
    pub fn decode(&mut self, comp: &mut Compression, threshold: i32) -> (r: Result<Option<Packet>, FrameError>)
        requires
            old(self).wf(),
        ensures
            final(self).wf(),
            match frame_scan(old(self).pending()) {
                FrameScan::NeedMore => r matches Ok(None) && final(self).pending() == old(self).pending(),
                FrameScan::Malformed(e) => r == Err::<Option<Packet>, FrameError>(e),
                FrameScan::Frame(f, c) => {
                    &&& final(self).pending() == old(self).pending().skip(c as int)
                    &&& match r {
                        Ok(Some(pk)) => decoded_packet(f, threshold as int) == Ok::<(u32, Seq<u8>), FrameError>((pk.id, pk.payload@)),
                        Ok(None) => false,
                        Err(e) => decoded_packet(f, threshold as int) == Err::<(u32, Seq<u8>), FrameError>(e),
                    }
                },
            },
            r matches Ok(Some(pk)) ==> pk.payload@.len() <= MAX_UNCOMPRESSED_LEN,
    {
        let ghost s = self.pending();
        let pos = self.read_pos;
        assert(self.data@.subrange(pos as int, self.data@.len() as int) == s);
        let (n, l) = match read_varint(&self.data, pos) {
            VarintRead::Incomplete => {
                return Ok(None);
            },
            VarintRead::TooLong => {
                return Err(FrameError::BadVarint);
            },
            VarintRead::Value { value, len } => (value, len),
        };
        if n > MAX_FRAME_LEN {
            return Err(FrameError::TooLarge);
        }
        if self.data.len() - pos - l < n as usize {
            return Ok(None);
        }
        let end = pos + l + n as usize;
        let frame = copy_range(&self.data, pos + l, end);
        assert(frame@ == s.subrange(l as int, l + n));
        self.read_pos = end;
        assert(self.pending() =~= s.skip(l + n));
        if threshold < 0 {
            return match split_packet_body(frame.as_slice()) {
                Some(pk) => Ok(Some(pk)),
                None => Err(FrameError::BadPacket),
            };
        }
        assert(frame@.subrange(0, frame@.len() as int) == frame@);
        let (inner_len, inner_l) = match read_varint(frame.as_slice(), 0) {
            VarintRead::Value { value, len } => (value, len),
            _ => {
                return Err(FrameError::BadPacket);
            },
        };
        let rest = copy_range(frame.as_slice(), inner_l, frame.len());
        assert(rest@ == frame@.skip(inner_l as int));
        if inner_len == 0 {
            return match split_packet_body(rest.as_slice()) {
                Some(pk) => Ok(Some(pk)),
                None => Err(FrameError::BadPacket),
            };
        }
        if inner_len > MAX_UNCOMPRESSED_LEN {
            return Err(FrameError::Inflate);
        }
        match comp.inflate(rest.as_slice(), inner_len as usize) {
            Some(body) => match split_packet_body(body.as_slice()) {
                Some(pk) => Ok(Some(pk)),
                None => Err(FrameError::BadPacket),
            },
            None => Err(FrameError::Inflate),
        }
    }
}

} // verus!
