use vstd::prelude::*;
use crate::bytes::{append_bytes, copy_range, from_le, le_bytes, push_le, read_le, NEWLINE};
use crate::error::{invalid_data, Error, ErrorKind};

verus! {

/// One record of a sparse index: a key of the segment and the byte offset of its line.
#[derive(Debug)]
pub struct IndexEntry {
    key: Vec<u8>,
    offset: u64,
}

/// An index record as bytes: the key, the offset as 8 little-endian bytes, LF.
pub open spec fn encode_index_entry(key: Seq<u8>, offset: u64) -> Seq<u8> {
    key + le_bytes(offset) + seq![NEWLINE]
}

/// Reads an index line (LF stripped): its last 8 bytes are the offset, the rest the key.
pub open spec fn decode_index_line(line: Seq<u8>) -> Option<(Seq<u8>, u64)> {
    if line.len() < 8 {
        None
    } else {
        Some((line.subrange(0, line.len() - 8), from_le(line, line.len() - 8)))
    }
}

impl View for IndexEntry {
    type V = (Seq<u8>, u64);

    closed spec fn view(&self) -> (Seq<u8>, u64) {
        (self.key@, self.offset)
    }
}

impl IndexEntry {
    pub fn new(key: Vec<u8>, offset: u64) -> (r: IndexEntry)
        ensures
            r@ == (key@, offset),
    {
        IndexEntry { key, offset }
    }

    pub fn key(&self) -> (r: &[u8])
        ensures
            r@ == self@.0,
    {
        self.key.as_slice()
    }

    pub fn offset(&self) -> (r: u64)
        ensures
            r == self@.1,
    {
        self.offset
    }

    /// The record's bytes.
    pub fn encode(&self) -> (r: Vec<u8>)
        ensures
            r@ == encode_index_entry(self@.0, self@.1),
    {
        let mut out: Vec<u8> = Vec::new();
        append_bytes(&mut out, self.key.as_slice());
        push_le(&mut out, self.offset);
        out.push(NEWLINE);
        out
    }

    /// Reads an index line whose LF has been stripped.
    pub fn try_from(line: &[u8]) -> (r: Result<IndexEntry, Error>)
        ensures
            match r {
                Ok(e) => decode_index_line(line@) == Some(e@),
                Err(e) => decode_index_line(line@) is None && e.kind_of() == ErrorKind::InvalidData,
            },
    {
        let len = line.len();
        if len < 8 {
            return Err(invalid_data("Vec too short to contain offset"));
        }
        let key = copy_range(line, 0, len - 8);
        let offset = read_le(line, len - 8);
        Ok(IndexEntry { key, offset })
    }
}

} // verus!
