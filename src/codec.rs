//! The physical frame: a 7-byte header (checksum, payload length, kind) and
//! its payload.
use vstd::prelude::*;
use crate::bytes::{be16, be16_bytes, be16_value, be32, be32_bytes, be32_value, copy_range, push_all, read_be16, read_be32, lemma_be16_round_trip, lemma_be32_round_trip};
use crate::WalError;

verus! {

/// Length of a frame header in bytes.
pub const HEADER_LEN: usize = 7;

/// Size of a page, the unit that bounds frame placement.
pub const PAGE_SIZE: u64 = 32768;

/// Kind of a frame that holds a whole record.
pub const KIND_FULL: u8 = 4;

/// Kind of the first frame of a split record.
pub const KIND_FIRST: u8 = 1;

/// Kind of an inner frame of a split record.
pub const KIND_MIDDLE: u8 = 2;

/// Kind of the last frame of a split record.
pub const KIND_LAST: u8 = 3;

/// The CRC-32 of a byte sequence.
pub uninterp spec fn crc32_of(data: Seq<u8>) -> u32;

/// Relies on `crc32fast::hash`: the CRC-32 (IEEE) of the bytes, which depends on them alone.
#[verifier::external_body]
fn crc32(data: &[u8]) -> (r: u32)
    ensures
        r == crc32_of(data@),
{
    crc32fast::hash(data)
}

/// The checksum stored in a frame header for `data`.
pub fn checksum(data: &[u8]) -> (r: u32)
    ensures
        r == crc32_of(data@),
{
    crc32(data)
}

/// A frame header.
#[derive(Debug, Clone, Copy, PartialEq, Eq, Structural)]
pub struct Header {
    pub crc32: u32,
    pub dlen: u16,
    pub stype: u8,
}

/// A frame: its header and payload.
pub struct Entry {
    pub header: Header,
    pub payload: Vec<u8>,
}

/// The seven header bytes.
pub open spec fn header_bytes(h: Header) -> Seq<u8> {
    be32(h.crc32) + be16(h.dlen) + seq![h.stype]
}

/// The header read from the first seven bytes of `b`.
pub open spec fn header_of(b: Seq<u8>) -> Header {
    Header {
        crc32: be32_value(b.subrange(0, 4)),
        dlen: be16_value(b.subrange(4, 6)),
        stype: b[6],
    }
}

/// The header of a frame of the given kind over `payload`.
pub open spec fn header_for(kind: u8, payload: Seq<u8>) -> Header {
    Header { crc32: crc32_of(payload), dlen: payload.len() as u16, stype: kind }
}

/// The bytes of a frame of the given kind over `payload`.
pub open spec fn frame_bytes(kind: u8, payload: Seq<u8>) -> Seq<u8> {
    header_bytes(header_for(kind, payload)) + payload
}

/// The payload that the header at the start of `b` declares.
pub open spec fn payload_of(b: Seq<u8>) -> Seq<u8> {
    b.subrange(HEADER_LEN as int, HEADER_LEN + header_of(b).dlen)
}

/// `b` starts with a whole frame whose checksum matches its payload.
pub open spec fn frame_ok(b: Seq<u8>) -> bool {
    &&& b.len() >= HEADER_LEN
    &&& HEADER_LEN + header_of(b).dlen <= b.len()
    &&& crc32_of(payload_of(b)) == header_of(b).crc32
}

impl Entry {
    /// A frame of kind `stype` over `payload`.
    pub fn new(stype: u8, payload: &[u8]) -> (r: Entry)
        requires
            payload@.len() <= u16::MAX,
        ensures
            r.header == header_for(stype, payload@),
            r.payload@ == payload@,
    {
        let header = Header { crc32: checksum(payload), dlen: payload.len() as u16, stype };
        Entry { header, payload: copy_range(payload, 0, payload.len()) }
    }

    /// The header read from the first seven bytes of `buf`.
    pub fn to_header(buf: &[u8]) -> (r: Header)
        requires
            buf@.len() >= HEADER_LEN,
        ensures
            r == header_of(buf@),
    {
        Header { crc32: read_be32(buf, 0), dlen: read_be16(buf, 4), stype: buf[6] }
    }

    /// Parses the frame at the start of `buf` and validates its checksum.
    pub fn decode(buf: &[u8]) -> (r: Result<Entry, WalError>)
        ensures
            r is Ok <==> frame_ok(buf@),
            r matches Ok(e) ==> e.header == header_of(buf@) && e.payload@ == payload_of(buf@),
            r matches Err(e) ==> e == WalError::InvalidFrameData,
    {
        if buf.len() < HEADER_LEN {
            return Err(WalError::InvalidFrameData);
        }
        let header = Self::to_header(buf);
        let end = HEADER_LEN + header.dlen as usize;
        if end > buf.len() {
            return Err(WalError::InvalidFrameData);
        }
        let payload = copy_range(buf, HEADER_LEN, end);
        if checksum(payload.as_slice()) != header.crc32 {
            return Err(WalError::InvalidFrameData);
        }
        Ok(Entry { header, payload })
    }

    /// The header bytes followed by the payload.
    pub fn encode(&self) -> (r: Vec<u8>)
        ensures
            r@ == header_bytes(self.header) + self.payload@,
    {
        let mut buf = self.to_header_buf();
        push_all(&mut buf, self.payload.as_slice());
        buf
    }

    /// The seven header bytes.
    pub fn to_header_buf(&self) -> (r: Vec<u8>)
        ensures
            r@ == header_bytes(self.header),
    {
        let mut buf = be32_bytes(self.header.crc32);
        let len = be16_bytes(self.header.dlen);
        push_all(&mut buf, len.as_slice());
        buf.push(self.header.stype);
        buf
    }
}

/// The bytes of a frame of kind `kind` over `payload`.
pub fn encode_frame(kind: u8, payload: &[u8]) -> (r: Vec<u8>)
    requires
        payload@.len() <= u16::MAX,
    ensures
        r@ == frame_bytes(kind, payload@),
{
    Entry::new(kind, payload).encode()
}

/// Reading the header back from a frame's bytes gives the header it was written with.
pub proof fn lemma_header_round_trip(h: Header, rest: Seq<u8>)
    ensures
        header_of(header_bytes(h) + rest) == h,
{
    let b = header_bytes(h) + rest;
    lemma_be32_round_trip(h.crc32);
    lemma_be16_round_trip(h.dlen);
    assert(b.subrange(0, 4) == be32(h.crc32));
    assert(b.subrange(4, 6) == be16(h.dlen));
}

/// Decoding an encoded frame gives back its payload, its kind and a checksum
/// that matches the payload; anything after the frame is left alone.
pub proof fn lemma_frame_round_trip(kind: u8, payload: Seq<u8>, rest: Seq<u8>)
    requires
        payload.len() <= u16::MAX,
    ensures
        frame_ok(frame_bytes(kind, payload) + rest),
        header_of(frame_bytes(kind, payload) + rest) == header_for(kind, payload),
        payload_of(frame_bytes(kind, payload) + rest) == payload,
        frame_bytes(kind, payload).len() == HEADER_LEN + payload.len(),
{
    let h = header_for(kind, payload);
    let b = frame_bytes(kind, payload) + rest;
    assert(b == header_bytes(h) + (payload + rest));
    lemma_header_round_trip(h, payload + rest);
    assert(payload_of(b) == payload);
}

} // verus!
