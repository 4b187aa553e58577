//! The logical record that callers hand to the log.
use vstd::prelude::*;
use crate::bytes::{copy_range, le32, le32_bytes, le64, le64_bytes, push_all};

verus! {

/// Operation code of a record that adds data.
pub const OP_ADD: u8 = 1;

/// Operation code of a record that updates data.
pub const OP_UPDATE: u8 = 2;

/// Operation code of a record that clears data.
pub const OP_CLEAN: u8 = 3;

/// A logical record: operation, offset, data and sequence number.
pub struct Payload {
    pub op: u8,
    pub offset: u32,
    pub data: Vec<u8>,
    pub version: u64,
}

/// The wire form of a record: `op(1) | offset(4, LE) | data | version(8, LE)`.
pub open spec fn payload_bytes(op: u8, offset: u32, data: Seq<u8>, version: u64) -> Seq<u8> {
    seq![op] + le32(offset) + data + le64(version)
}

impl Payload {
    /// A record with a copy of `data`.
    pub fn new(op: u8, offset: u32, data: &[u8], version: u64) -> (r: Payload)
        ensures
            r.op == op,
            r.offset == offset,
            r.data@ == data@,
            r.version == version,
    {
        Payload { op, offset, data: copy_range(data, 0, data.len()), version }
    }

    /// The record's wire form.
    pub fn encode(&self) -> (r: Vec<u8>)
        ensures
            r@ == payload_bytes(self.op, self.offset, self.data@, self.version),
    {
        let mut buf: Vec<u8> = Vec::new();
        buf.push(self.op);
        let off = le32_bytes(self.offset);
        push_all(&mut buf, off.as_slice());
        push_all(&mut buf, self.data.as_slice());
        let ver = le64_bytes(self.version);
        push_all(&mut buf, ver.as_slice());
        buf
    }
}

} // verus!
