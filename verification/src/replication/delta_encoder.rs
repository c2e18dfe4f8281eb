//! The frame that carries a delta over the network: a header, the payload
//! and a checksum, with optional zstd compression of the payload.
use crate::checksum::{crc32, crc32_of};
use crate::codec::push_bytes;
use crate::compression::{zstd_compressed, zstd_decode, zstd_decompressed, zstd_encode};
use crate::error::{EcsDbError, Result};
use crate::storage::delta::Delta;
use crate::text::{decimal_string, join, owned};
use vstd::prelude::*;

verus! {

/// The four bytes "ECSD" that open every frame.
pub open spec fn magic() -> Seq<u8> {
    seq![0x45u8, 0x43u8, 0x53u8, 0x44u8]
}

/// The protocol version written in frames.
pub const PROTOCOL_VERSION: u8 = 1;

/// A flag bit of a frame.
#[derive(Debug, Clone, Copy, PartialEq, Eq, Structural)]
pub enum FrameFlag {
    /// The payload is zstd-compressed.
    Compressed,
    /// The frame is a heartbeat.
    Heartbeat,
    /// The frame carries a full snapshot.
    Snapshot,
    /// The frame carries a delta.
    Delta,
}

/// The bit of a flag.
pub open spec fn flag_bit(f: FrameFlag) -> u8 {
    match f {
        FrameFlag::Compressed => 0x01,
        FrameFlag::Heartbeat => 0x02,
        FrameFlag::Snapshot => 0x04,
        FrameFlag::Delta => 0x08,
    }
}

/// The flags set in `bits`, in the order Compressed, Heartbeat, Snapshot, Delta.
pub open spec fn flags_in(bits: u8) -> Seq<FrameFlag> {
    (if bits & 0x01 != 0 { seq![FrameFlag::Compressed] } else { Seq::empty() })
        + (if bits & 0x02 != 0 { seq![FrameFlag::Heartbeat] } else { Seq::empty() })
        + (if bits & 0x04 != 0 { seq![FrameFlag::Snapshot] } else { Seq::empty() })
        + (if bits & 0x08 != 0 { seq![FrameFlag::Delta] } else { Seq::empty() })
}

impl FrameFlag {
    /// The bit of this flag.
    pub fn to_bits(self) -> (b: u8)
        ensures
            b == flag_bit(self),
    {
        match self {
            FrameFlag::Compressed => 0x01,
            FrameFlag::Heartbeat => 0x02,
            FrameFlag::Snapshot => 0x04,
            FrameFlag::Delta => 0x08,
        }
    }

    /// The flags set in `bits`.
    pub fn from_bits(bits: u8) -> (v: Vec<FrameFlag>)
        ensures
            v@ == flags_in(bits),
    {
        let mut flags: Vec<FrameFlag> = Vec::new();
        if bits & FrameFlag::Compressed.to_bits() != 0 {
            flags.push(FrameFlag::Compressed);
        }
        if bits & FrameFlag::Heartbeat.to_bits() != 0 {
            flags.push(FrameFlag::Heartbeat);
        }
        if bits & FrameFlag::Snapshot.to_bits() != 0 {
            flags.push(FrameFlag::Snapshot);
        }
        if bits & FrameFlag::Delta.to_bits() != 0 {
            flags.push(FrameFlag::Delta);
        }
        assert(flags@ =~= flags_in(bits));
        flags
    }
}

/// The four bytes of `x`, most significant first.
pub open spec fn be4(x: u32) -> Seq<u8> {
    seq![(x >> 24u32) as u8, ((x >> 16u32) & 0xff) as u8, ((x >> 8u32) & 0xff) as u8, (x & 0xff) as u8]
}

/// The number whose four bytes, most significant first, are `s`.
pub open spec fn be4_value(s: Seq<u8>) -> u32 {
    ((s[0] as u32) << 24u32) | ((s[1] as u32) << 16u32) | ((s[2] as u32) << 8u32) | (s[3] as u32)
}

proof fn lemma_be4_bits(b0: u8, b1: u8, b2: u8, b3: u8)
    by (bit_vector)
    ensures
        ({
            let x = ((b0 as u32) << 24u32) | ((b1 as u32) << 16u32) | ((b2 as u32) << 8u32) | (b3 as u32);
            &&& (x >> 24u32) as u8 == b0
            &&& ((x >> 16u32) & 0xff) as u8 == b1
            &&& ((x >> 8u32) & 0xff) as u8 == b2
            &&& (x & 0xff) as u8 == b3
        }),
{
}

proof fn lemma_be4_value_of(x: u32)
    by (bit_vector)
    ensures
        ((((x >> 24u32) as u8) as u32) << 24u32) | (((((x >> 16u32) & 0xff) as u8) as u32) << 16u32)
            | (((((x >> 8u32) & 0xff) as u8) as u32) << 8u32) | (((x & 0xff) as u8) as u32) == x,
{
}

/// Four bytes written from a number read back as it.
pub proof fn lemma_be4_roundtrip(x: u32)
    ensures
        be4_value(be4(x)) == x,
{
    lemma_be4_value_of(x);
}

fn push_be4(buf: &mut Vec<u8>, x: u32)
    ensures
        final(buf)@ == old(buf)@ + be4(x),
{
    buf.push((x >> 24u32) as u8);
    buf.push(((x >> 16u32) & 0xff) as u8);
    buf.push(((x >> 8u32) & 0xff) as u8);
    buf.push((x & 0xff) as u8);
    assert(buf@ =~= old(buf)@ + be4(x));
}

fn read_be4(b: &[u8], off: usize) -> (x: u32)
    requires
        off + 4 <= b@.len(),
    ensures
        x == be4_value(b@.subrange(off as int, off + 4)),
        be4(x) == b@.subrange(off as int, off + 4),
{
    let b0 = b[off];
    let b1 = b[off + 1];
    let b2 = b[off + 2];
    let b3 = b[off + 3];
    let x: u32 = ((b0 as u32) << 24u32) | ((b1 as u32) << 16u32) | ((b2 as u32) << 8u32) | (b3 as u32);
    proof {
        lemma_be4_bits(b0, b1, b2, b3);
    }
    assert(be4(x) =~= b@.subrange(off as int, off + 4));
    x
}

/// The header and payload of a frame, the bytes its checksum covers.
pub open spec fn frame_body(version: u8, flags: u8, payload: Seq<u8>) -> Seq<u8> {
    magic() + seq![version, flags] + be4(payload.len() as u32) + payload
}

/// The encoding of a frame: header, payload and the CRC-32 of both.
pub open spec fn frame_bytes(version: u8, flags: u8, payload: Seq<u8>) -> Seq<u8> {
    frame_body(version, flags, payload) + be4(crc32_of(frame_body(version, flags, payload)))
}

/// Whether `b` opens with a well-formed frame of protocol version 1: long
/// enough, with the magic, the version, the whole payload and a matching
/// checksum.
pub open spec fn frame_ok(b: Seq<u8>) -> bool {
    let n = be4_value(b.subrange(6, 10)) as int;
    &&& b.len() >= 14
    &&& b.subrange(0, 4) == magic()
    &&& b[4] == 1
    &&& b.len() - 10 >= n + 4
    &&& be4_value(b.subrange(10 + n, 14 + n)) == crc32_of(b.subrange(0, 10 + n))
}

/// A network frame.
#[derive(Debug)]
pub struct Frame {
    pub version: u8,
    pub flags: u8,
    pub payload: Vec<u8>,
}

fn replication_error(msg: &str) -> (e: EcsDbError)
    ensures
        e is ReplicationError,
{
    EcsDbError::ReplicationError(owned(msg))
}

impl Frame {
    /// A frame of the current protocol version.
    pub fn new(flags: u8, payload: Vec<u8>) -> (f: Self)
        ensures
            f.version == PROTOCOL_VERSION,
            f.flags == flags,
            f.payload == payload,
    {
        Frame { version: PROTOCOL_VERSION, flags, payload }
    }

    /// The frame's bytes: magic, version, flags, payload length (four bytes,
    /// most significant first), payload, and the CRC-32 of all of these.
    pub fn encode(&self) -> (v: Vec<u8>)
        ensures
            v@ == frame_bytes(self.version, self.flags, self.payload@),
    {
        let mut buf: Vec<u8> = Vec::new();
        buf.push(0x45);
        buf.push(0x43);
        buf.push(0x53);
        buf.push(0x44);
        buf.push(self.version);
        buf.push(self.flags);
        push_be4(&mut buf, self.payload.len() as u32);
        push_bytes(&mut buf, self.payload.as_slice());
        assert(buf@ =~= frame_body(self.version, self.flags, self.payload@));
        let checksum = crc32(buf.as_slice());
        push_be4(&mut buf, checksum);
        buf
    }

    /// Reads a frame from the front of `bytes`, checking magic, version,
    /// length and checksum.
    pub fn decode(bytes: Vec<u8>) -> (res: Result<Frame>)
        ensures
            res is Ok <==> frame_ok(bytes@),
            res matches Ok(f) ==> {
                let n = be4_value(bytes@.subrange(6, 10)) as int;
                &&& f.version == bytes@[4]
                &&& f.flags == bytes@[5]
                &&& f.payload@ == bytes@.subrange(10, 10 + n)
            },
            res matches Err(e) ==> e is ReplicationError,
    {
        if bytes.len() < 14 {
            return Err(replication_error("Frame too short"));
        }
        if !(bytes[0] == 0x45 && bytes[1] == 0x43 && bytes[2] == 0x53 && bytes[3] == 0x44) {
            assert(bytes@.subrange(0, 4) != magic()) by {
                if bytes@.subrange(0, 4) == magic() {
                    assert(bytes@[0] == bytes@.subrange(0, 4)[0]);
                    assert(bytes@[1] == bytes@.subrange(0, 4)[1]);
                    assert(bytes@[2] == bytes@.subrange(0, 4)[2]);
                    assert(bytes@[3] == bytes@.subrange(0, 4)[3]);
                }
            }
            return Err(replication_error("Invalid magic"));
        }
        assert(bytes@.subrange(0, 4) =~= magic());
        let version = bytes[4];
        if version != PROTOCOL_VERSION {
            let msg = join(owned("Unsupported protocol version "), decimal_string(version as u64).as_str());
            return Err(EcsDbError::ReplicationError(msg));
        }
        let flags = bytes[5];
        let payload_len = read_be4(bytes.as_slice(), 6) as usize;
        if bytes.len() - 14 < payload_len {
            return Err(replication_error("Incomplete frame"));
        }
        let end = 10 + payload_len;
        let mut payload: Vec<u8> = Vec::new();
        let mut i: usize = 10;
        while i < end
            invariant
                end == 10 + payload_len,
                10 <= i <= end,
                end + 4 <= bytes@.len(),
                payload@ == bytes@.subrange(10, i as int),
            decreases end - i,
        {
            payload.push(bytes[i]);
            i += 1;
            assert(payload@ =~= bytes@.subrange(10, i as int));
        }
        let received = read_be4(bytes.as_slice(), end);
        let mut body: Vec<u8> = Vec::new();
        let mut j: usize = 0;
        while j < end
            invariant
                j <= end,
                end + 4 <= bytes@.len(),
                body@ == bytes@.subrange(0, j as int),
            decreases end - j,
        {
            body.push(bytes[j]);
            j += 1;
            assert(body@ =~= bytes@.subrange(0, j as int));
        }
        let computed = crc32(body.as_slice());
        if received != computed {
            return Err(replication_error("Checksum mismatch"));
        }
        Ok(Frame { version, flags, payload })
    }

    /// Whether the payload is compressed.
    pub fn is_compressed(&self) -> (b: bool)
        ensures
            b == (self.flags & 0x01 != 0),
    {
        self.flags & FrameFlag::Compressed.to_bits() != 0
    }

    /// Compresses the payload with zstd at `level` and sets the compressed
    /// flag; a compressed frame is left as it is.
    pub fn compress(&mut self, level: i32) -> (res: Result<()>)
        ensures
            old(self).flags & 0x01 != 0 ==> res is Ok && *final(self) == *old(self),
            old(self).flags & 0x01 == 0 ==> match res {
                Ok(()) => {
                    &&& final(self).payload@ == zstd_compressed(old(self).payload@, level)
                    &&& zstd_decompressed(final(self).payload@) == old(self).payload@
                    &&& final(self).flags == old(self).flags | 0x01
                    &&& final(self).version == old(self).version
                },
                Err(e) => e is CompressionError && *final(self) == *old(self),
            },
    {
        if self.is_compressed() {
            return Ok(());
        }
        match zstd_encode(self.payload.as_slice(), level) {
            Ok(c) => {
                self.payload = c;
                self.flags = self.flags | FrameFlag::Compressed.to_bits();
                Ok(())
            },
            Err(m) => Err(EcsDbError::CompressionError(m)),
        }
    }

    /// Decompresses the payload and clears the compressed flag; an
    /// uncompressed frame is left as it is.
    pub fn decompress(&mut self) -> (res: Result<()>)
        ensures
            old(self).flags & 0x01 == 0 ==> res is Ok && *final(self) == *old(self),
            old(self).flags & 0x01 != 0 ==> match res {
                Ok(()) => {
                    &&& final(self).payload@ == zstd_decompressed(old(self).payload@)
                    &&& final(self).flags == old(self).flags & 0xfe
                    &&& final(self).version == old(self).version
                },
                Err(e) => e is CompressionError && *final(self) == *old(self),
            },
    {
        if !self.is_compressed() {
            return Ok(());
        }
        match zstd_decode(self.payload.as_slice()) {
            Ok(d) => {
                self.payload = d;
                self.flags = self.flags & 0xfe;
                Ok(())
            },
            Err(m) => Err(EcsDbError::CompressionError(m)),
        }
    }
}

/// A frame encoded by `encode` decodes back to the same version, flags and
/// payload, when the version is the current one and the payload's length
/// fits in four bytes.
pub proof fn law_frame_roundtrip(version: u8, flags: u8, payload: Seq<u8>)
    requires
        version == PROTOCOL_VERSION,
        payload.len() <= u32::MAX,
    ensures
        frame_ok(frame_bytes(version, flags, payload)),
        ({
            let b = frame_bytes(version, flags, payload);
            let n = be4_value(b.subrange(6, 10)) as int;
            &&& b[4] == version
            &&& b[5] == flags
            &&& b.subrange(10, 10 + n) == payload
        }),
{
    let body = frame_body(version, flags, payload);
    let b = frame_bytes(version, flags, payload);
    let n = payload.len() as u32;
    assert(b.subrange(6, 10) =~= be4(n));
    lemma_be4_roundtrip(n);
    assert(b.subrange(0, 4) =~= magic());
    assert(b.subrange(10, 10 + n) =~= payload);
    assert(b.subrange(0, 10 + n) =~= body);
    let c = crc32_of(body);
    assert(b.subrange(10 + n, 14 + n) =~= be4(c));
    lemma_be4_roundtrip(c);
}

/// Turns deltas into frames and back.
pub struct DeltaEncoder;

impl DeltaEncoder {
    /// A frame flagged as a delta that carries the delta's binary form,
    /// compressed at level 3 when `compress` is set.
    pub fn encode(delta: &Delta, compress: bool) -> (res: Result<Frame>)
        ensures
            !compress ==> (res matches Ok(f) && f.version == PROTOCOL_VERSION && f.flags == 0x08
                && f.payload@ == crate::storage::delta_codec::delta_encoding(
                crate::storage::delta::ops_view(delta.ops@),
                delta.version,
                delta.timestamp,
            )),
            compress ==> (res matches Ok(f) ==> f.version == PROTOCOL_VERSION && f.flags == 0x09
                && f.payload@ == zstd_compressed(
                crate::storage::delta_codec::delta_encoding(
                    crate::storage::delta::ops_view(delta.ops@),
                    delta.version,
                    delta.timestamp,
                ),
                3,
            ) && zstd_decompressed(f.payload@) == crate::storage::delta_codec::delta_encoding(
                crate::storage::delta::ops_view(delta.ops@),
                delta.version,
                delta.timestamp,
            )),
            res matches Err(e) ==> compress && e is CompressionError,
    {
        let payload = match delta.serialize() {
            Ok(p) => p,
            Err(e) => return Err(e),
        };
        let mut frame = Frame::new(FrameFlag::Delta.to_bits(), payload);
        if compress {
            assert(0x08u8 & 0x01u8 == 0u8) by (bit_vector);
            assert(0x08u8 | 0x01u8 == 0x09u8) by (bit_vector);
            match frame.compress(3) {
                Ok(()) => {},
                Err(e) => return Err(e),
            }
        }
        Ok(frame)
    }

    /// The delta a frame carries, decompressing it first when needed. A
    /// payload that holds no delta's binary form is a serialization error.
    pub fn decode(frame: Frame) -> (res: Result<Delta>)
        ensures
            ({
                let body = if frame.flags & 0x01 != 0 {
                    zstd_decompressed(frame.payload@)
                } else {
                    frame.payload@
                };
                &&& res matches Ok(d) ==> crate::storage::delta_codec::holds_at(
                    body,
                    0,
                    crate::storage::delta_codec::delta_encoding(crate::storage::delta::ops_view(d.ops@), d.version, d.timestamp),
                )
                &&& frame.flags & 0x01 == 0 ==> (res matches Err(e) ==> e is SerializationError)
                &&& frame.flags & 0x01 != 0 ==> (res matches Err(e) ==> (e is SerializationError || e is CompressionError))
            }),
            frame.flags & 0x01 == 0 ==> (forall|ops, v: u64, t: u64|
                #[trigger] crate::storage::delta_codec::holds_at(
                    frame.payload@,
                    0,
                    crate::storage::delta_codec::delta_encoding(ops, v, t),
                ) ==> (res matches Ok(d) && crate::storage::delta::ops_view(d.ops@) == ops
                    && d.version == v && d.timestamp == t)),
            frame.flags & 0x01 != 0 ==> (forall|ops, v: u64, t: u64|
                #[trigger] crate::storage::delta_codec::holds_at(
                    zstd_decompressed(frame.payload@),
                    0,
                    crate::storage::delta_codec::delta_encoding(ops, v, t),
                ) ==> (res matches Ok(d) ==> crate::storage::delta::ops_view(d.ops@) == ops
                    && d.version == v && d.timestamp == t)),
            frame.flags & 0x01 != 0 ==> (res matches Err(e) ==> (e is CompressionError || !exists|ops, v: u64, t: u64|
                #[trigger] crate::storage::delta_codec::holds_at(
                    zstd_decompressed(frame.payload@),
                    0,
                    crate::storage::delta_codec::delta_encoding(ops, v, t),
                ))),
    {
        let mut frame = frame;
        match frame.decompress() {
            Ok(()) => {},
            Err(e) => return Err(e),
        }
        Delta::deserialize(frame.payload.as_slice())
    }
}

} // verus!
