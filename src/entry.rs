use vstd::prelude::*;
use crate::bytes::{append_bytes, copy_range, find_byte, lacks, lemma_position_of_unique, position_of, NEWLINE, SPACE};

verus! {

/// A write as the store sees it: a key and, unless the write is a deletion, its value.
pub type Record = (Seq<u8>, Option<Seq<u8>>);

/// A write to one key: a value, or a tombstone that marks the key deleted.
#[derive(Debug)]
pub enum Entry {
    KeyValue { key: Vec<u8>, value: Vec<u8> },
    Tombstone { key: Vec<u8> },
}

impl View for Entry {
    type V = Record;

    open spec fn view(&self) -> Record {
        match self {
            Entry::KeyValue { key, value } => (key@, Some(value@)),
            Entry::Tombstone { key } => (key@, None),
        }
    }
}

/// A key can stand in a record: non-empty, with no field or record delimiter.
pub open spec fn valid_key(k: Seq<u8>) -> bool {
    k.len() > 0 && lacks(k, SPACE) && lacks(k, NEWLINE)
}

/// A value can stand in a record: no field or record delimiter.
pub open spec fn valid_value(v: Seq<u8>) -> bool {
    lacks(v, SPACE) && lacks(v, NEWLINE)
}

pub open spec fn valid_record(r: Record) -> bool {
    valid_key(r.0) && match r.1 {
        Some(v) => valid_value(v),
        None => true,
    }
}

/// The on-disk form of a record: `key SP value LF`, or `key LF` for a tombstone.
pub open spec fn encode_record(r: Record) -> Seq<u8> {
    match r.1 {
        Some(v) => r.0 + seq![SPACE] + v + seq![NEWLINE],
        None => r.0 + seq![NEWLINE],
    }
}

/// Reads one line (its LF already stripped): split on the first SP; with no SP
/// the whole line is the key of a tombstone. An empty key is malformed.
pub open spec fn decode_line(line: Seq<u8>) -> Option<Record> {
    let p = position_of(line, SPACE);
    if p == 0 {
        None
    } else if p < line.len() {
        Some((line.subrange(0, p as int), Some(line.subrange(p as int + 1, line.len() as int))))
    } else {
        Some((line, None))
    }
}

impl Entry {
    pub fn key(&self) -> (r: &Vec<u8>)
        ensures
            r@ == self@.0,
    {
        match self {
            Entry::KeyValue { key, .. } => key,
            Entry::Tombstone { key } => key,
        }
    }

    /// The record's bytes, terminated by LF.
    pub fn encode(&self) -> (r: Vec<u8>)
        ensures
            r@ == encode_record(self@),
    {
        let mut out: Vec<u8> = Vec::new();
        match self {
            Entry::KeyValue { key, value } => {
                append_bytes(&mut out, key.as_slice());
                out.push(SPACE);
                append_bytes(&mut out, value.as_slice());
                out.push(NEWLINE);
            },
            Entry::Tombstone { key } => {
                append_bytes(&mut out, key.as_slice());
                out.push(NEWLINE);
            },
        }
        out
    }

    /// Parses one line whose LF has been stripped; `None` for an empty key.
    pub fn decode(line: &[u8]) -> (r: Option<Entry>)
        ensures
            decode_line(line@) == match r {
                Some(e) => Some(e@),
                None => None::<Record>,
            },
    {
        let at = find_byte(line, 0, SPACE);
        assert(line@.subrange(0, line@.len() as int) =~= line@);
        if at == 0 {
            None
        } else if at < line.len() {
            let key = copy_range(line, 0, at);
            let value = copy_range(line, at + 1, line.len());
            Some(Entry::KeyValue { key, value })
        } else {
            let key = copy_range(line, 0, line.len());
            Some(Entry::Tombstone { key })
        }
    }
}

/// Decoding the encoding of a valid record, its LF stripped, gives the record back.
pub proof fn lemma_entry_round_trip(r: Record)
    requires
        valid_record(r),
    ensures
        decode_line(encode_record(r).drop_last()) == Some(r),
{
    let line = encode_record(r).drop_last();
    let k = r.0;
    match r.1 {
        Some(v) => {
            assert(line =~= k + seq![SPACE] + v);
            assert forall|i: int| 0 <= i < k.len() implies line[i] != SPACE by {
                assert(line[i] == k[i]);
            }
            assert(line[k.len() as int] == SPACE);
            lemma_position_of_unique(line, SPACE, k.len() as int);
            assert(line.subrange(0, k.len() as int) =~= k);
            assert(line.subrange(k.len() as int + 1, line.len() as int) =~= v);
        },
        None => {
            assert(line =~= k);
            lemma_position_of_unique(line, SPACE, k.len() as int);
        },
    }
}

} // verus!
