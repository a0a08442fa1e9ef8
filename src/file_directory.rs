use vstd::prelude::*;
use crate::bloom_filter::{bit_of, encode_filter, key_bit, passes, BloomFilter, BloomModel, DEFAULT_BITS_PER_KEY, DEFAULT_NUM_HASHES};
use crate::bloom_filter_registry::{find_number, bloom_ext, bloom_extension, BloomFilterRegistry};
use crate::error::{Error, ErrorKind};
use crate::file_name::{segment_file_name, segment_name};
use crate::index_entry::IndexEntry;
use crate::bytes::NEWLINE;
use crate::entry::decode_line;
use crate::index_file::{build_index, encode_entries, encode_index, entries_view, index_of_lines, line_offset};
use crate::index_file_registry::{index_ext, index_extension, IndexFileRegistry};
use crate::lines::split_lines;
use crate::mem_table::MemTable;
use crate::segment_file::{encode_segment, encode_table, segment_ext, segment_extension, SegmentFile};
use crate::segment_file_registry::SegmentFileRegistry;

verus! {

/// The three files that flushing a memtable writes, ready to be written, and
/// what the registries will hold of them.
pub struct SegmentFlush {
    number: usize,
    segment_path: Vec<u8>,
    segment: Vec<u8>,
    bloom_path: Vec<u8>,
    bloom: Vec<u8>,
    filter: BloomFilter,
    index_path: Vec<u8>,
    index: Vec<u8>,
    index_entries: Vec<IndexEntry>,
}

impl SegmentFlush {
    pub closed spec fn number_of(&self) -> nat {
        self.number as nat
    }

    pub closed spec fn segment_path_of(&self) -> Seq<u8> {
        self.segment_path@
    }

    pub closed spec fn segment_of(&self) -> Seq<u8> {
        self.segment@
    }

    pub closed spec fn bloom_path_of(&self) -> Seq<u8> {
        self.bloom_path@
    }

    pub closed spec fn bloom_of(&self) -> Seq<u8> {
        self.bloom@
    }

    pub closed spec fn filter_of(&self) -> BloomModel {
        self.filter@
    }

    pub closed spec fn index_path_of(&self) -> Seq<u8> {
        self.index_path@
    }

    pub closed spec fn index_of(&self) -> Seq<u8> {
        self.index@
    }

    pub closed spec fn index_entries_of(&self) -> Seq<(Seq<u8>, u64)> {
        entries_view(self.index_entries@)
    }

    pub fn number(&self) -> (r: usize)
        ensures
            r == self.number_of(),
    {
        self.number
    }

    pub fn segment_path(&self) -> (r: &Vec<u8>)
        ensures
            r@ == self.segment_path_of(),
    {
        &self.segment_path
    }

    pub fn segment(&self) -> (r: &Vec<u8>)
        ensures
            r@ == self.segment_of(),
    {
        &self.segment
    }

    pub fn bloom_path(&self) -> (r: &Vec<u8>)
        ensures
            r@ == self.bloom_path_of(),
    {
        &self.bloom_path
    }

    pub fn bloom(&self) -> (r: &Vec<u8>)
        ensures
            r@ == self.bloom_of(),
    {
        &self.bloom
    }

    pub fn index_path(&self) -> (r: &Vec<u8>)
        ensures
            r@ == self.index_path_of(),
    {
        &self.index_path
    }

    /// The index file's bytes; empty when the segment is, and then no index file is written.
    pub fn index(&self) -> (r: &Vec<u8>)
        ensures
            r@ == self.index_of(),
    {
        &self.index
    }
}

/// Whether a line that the index of segment bytes `data` samples does not
/// read as a record (its key is empty).
pub open spec fn malformed_sample(data: Seq<u8>) -> bool {
    exists|j: int| 0 <= 100 * j < split_lines(data).len() && (#[trigger] decode_line(split_lines(data)[100 * j])) is None
}

/// The on-disk artifacts of a store: its segments, their bloom filters and their indexes.
pub struct FileDirectory {
    segment_file_registry: SegmentFileRegistry,
    bloom_filter_registry: BloomFilterRegistry,
    index_file_registry: IndexFileRegistry,
}

impl FileDirectory {
    pub closed spec fn wf(&self) -> bool {
        self.segment_file_registry.wf()
    }

    /// Segment numbers, newest first.
    pub closed spec fn segments(&self) -> Seq<nat> {
        self.segment_file_registry@
    }

    pub closed spec fn blooms(&self) -> Seq<(nat, BloomModel)> {
        self.bloom_filter_registry@
    }

    pub closed spec fn indexes(&self) -> Seq<(nat, Seq<(Seq<u8>, u64)>)> {
        self.index_file_registry@
    }

    pub closed spec fn segment_registry(&self) -> SegmentFileRegistry {
        self.segment_file_registry
    }

    /// What a flush of `table` holds: the segment `segment_<N>.sst` (N the
    /// count of segments present) with the table's records in key order; its
    /// bloom filter, passing every key of the table; its sparse index, read
    /// back from the segment's bytes, each of its offsets the start of the
    /// line of its key.
    pub open spec fn store_segment_spec(&self, table: MemTable, f: SegmentFlush) -> bool {
        &&& f.number_of() == self.segments().len()
        &&& f.segment_path_of() == segment_name(f.number_of(), segment_ext())
        &&& f.bloom_path_of() == segment_name(f.number_of(), bloom_ext())
        &&& f.index_path_of() == segment_name(f.number_of(), index_ext())
        &&& f.segment_of() == encode_segment(table.records())
        &&& f.bloom_of() == encode_filter(f.filter_of())
        &&& forall|k: Seq<u8>| #[trigger] table@.contains_key(k) ==> passes(f.filter_of(), k)
        &&& f.filter_of().num_bits == table.records().len() * DEFAULT_BITS_PER_KEY
        &&& f.filter_of().num_hashes == DEFAULT_NUM_HASHES
        &&& forall|j: int| 0 <= j < f.filter_of().num_bits ==> (#[trigger] bit_of(f.filter_of().bits, j) <==> exists|k: Seq<u8>|
            table@.contains_key(k) && key_bit(k, f.filter_of().num_bits, f.filter_of().num_hashes, j))
        &&& f.index_entries_of() == index_of_lines(split_lines(f.segment_of()))
        &&& forall|j: int| 0 <= j < f.index_entries_of().len() ==> {
            let off = line_offset(split_lines(f.segment_of()), 100 * j);
            let len = split_lines(f.segment_of())[100 * j].len();
            &&& off + len <= f.segment_of().len()
            &&& f.segment_of().subrange(off, off + len) == #[trigger] split_lines(f.segment_of())[100 * j]
            &&& (off + len == f.segment_of().len() || f.segment_of()[off + len] == NEWLINE)
            &&& decode_line(split_lines(f.segment_of())[100 * j]) is Some
        }
        &&& f.index_of() == encode_index(f.index_entries_of())
    }

    /// `self` is `before` with the segment of `flush` recorded as the newest.
    pub open spec fn commit_spec(&self, before: FileDirectory, flush: SegmentFlush) -> bool {
        &&& flush.number_of() == before.segments().len()
        &&& forall|n: nat| self.segments().contains(n) <==> (before.segments().contains(n) || n == flush.number_of())
        &&& before.segment_registry().dense() ==> self.segment_registry().dense()
            && self.segments() == seq![flush.number_of()] + before.segments()
        &&& self.blooms() == seq![(flush.number_of(), flush.filter_of())] + before.blooms()
        &&& self.indexes() == if flush.index_entries_of().len() > 0 {
            seq![(flush.number_of(), flush.index_entries_of())] + before.indexes()
        } else {
            before.indexes()
        }
    }

    /// Composes the registries that scanning a directory gave.
    pub fn new(
        segment_file_registry: SegmentFileRegistry,
        bloom_filter_registry: BloomFilterRegistry,
        index_file_registry: IndexFileRegistry,
    ) -> (r: FileDirectory)
        requires
            segment_file_registry.wf(),
        ensures
            r.wf(),
            r.segments() == segment_file_registry@,
            r.blooms() == bloom_filter_registry@,
            r.indexes() == index_file_registry@,
    {
        FileDirectory { segment_file_registry, bloom_filter_registry, index_file_registry }
    }

    pub fn get_bloom_filter(&self, number: usize) -> (r: Option<&BloomFilter>)
        ensures
            match r {
                Some(f) => find_number(self.blooms(), number as nat) == Some(f@),
                None => find_number(self.blooms(), number as nat) is None,
            },
    {
        self.bloom_filter_registry.get(number)
    }

    pub fn get_index_file(&self, number: usize) -> (r: Option<&Vec<IndexEntry>>)
        ensures
            match r {
                Some(es) => find_number(self.indexes(), number as nat) == Some(entries_view(es@)),
                None => find_number(self.indexes(), number as nat) is None,
            },
    {
        self.index_file_registry.get(number)
    }

    /// The segments, newest first.
    pub fn segment_files(&self) -> (r: &[SegmentFile])
        requires
            self.wf(),
        ensures
            r@.map_values(|f: SegmentFile| f.number_of()) == self.segments(),
            forall|i: int| 0 <= i < r@.len() ==> (#[trigger] r@[i]).wf(),
    {
        self.segment_file_registry.files()
    }

    /// The files that flushing `table` writes: the segment `segment_<N>.sst`
    /// (N the count of segments present) with the table's records in key
    /// order; its bloom filter, holding every key of the table; and its sparse
    /// index, read back from the segment's bytes. An error if a record that
    /// the index samples has an empty key.
    pub fn store_segment(&self, table: &MemTable) -> (r: Result<SegmentFlush, Error>)
        requires
            self.wf(),
            table.wf(),
            table.records().len() * DEFAULT_BITS_PER_KEY <= usize::MAX,
        ensures
            match r {
                Ok(f) => self.store_segment_spec(*table, f),
                Err(e) => e.kind_of() == ErrorKind::InvalidData && malformed_sample(encode_segment(table.records())),
            },
    {
        let number = self.segment_file_registry.next_number();
        let segment_path = segment_file_name(number, segment_extension().as_slice());
        let segment = encode_table(table);
        let filter = BloomFilterRegistry::filter_for(table);
        let bloom = filter.serialize();
        let bloom_path = segment_file_name(number, bloom_extension().as_slice());
        let index_entries = match build_index(segment.as_slice()) {
            Ok(es) => es,
            Err(e) => {
                return Err(e);
            },
        };
        let index = encode_entries(&index_entries);
        let index_path = segment_file_name(number, index_extension().as_slice());
        Ok(SegmentFlush { number, segment_path, segment, bloom_path, bloom, filter, index_path, index, index_entries })
    }

    /// Records the segment that `flush` wrote, as the newest, with its filter
    /// and, if it has one, its index. An error if the segment count changed
    /// since `flush` was made, or no number is left for it.
    pub fn commit_segment(&mut self, flush: SegmentFlush) -> (r: Result<(), Error>)
        requires
            old(self).wf(),
        ensures
            final(self).wf(),
            match r {
                Ok(()) => final(self).commit_spec(*old(self), flush),
                Err(e) => (flush.number_of() != old(self).segments().len() || flush.number_of() == usize::MAX)
                    && *final(self) == *old(self)
                    && e.kind_of() == ErrorKind::InvalidInput,
            },
    {
        let number = self.segment_file_registry.next_number();
        if flush.number != number || number == usize::MAX {
            return Err(Error::new(ErrorKind::InvalidInput, "The segments changed since the flush was prepared".to_owned()));
        }
        let SegmentFlush { number, filter, index_entries, .. } = flush;
        self.segment_file_registry.store_new();
        self.bloom_filter_registry.store(number, filter);
        if index_entries.len() > 0 {
            self.index_file_registry.store_new(number, index_entries);
        }
        Ok(())
    }
}

} // verus!
