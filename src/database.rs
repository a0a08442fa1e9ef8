use vstd::prelude::*;
use crate::bloom_filter::{passes, DEFAULT_BITS_PER_KEY};
use crate::bloom_filter_registry::find_number;
use crate::bytes::copy_range;
use crate::error::{Error, ErrorKind};
use crate::file_directory::{malformed_sample, FileDirectory, SegmentFlush};
use crate::file_name::parse_name;
use crate::index_file::{start_from, start_position};
use crate::entry::Record;
use crate::lines::{all_valid, apply_records, decode_all, encode_all, lemma_apply_records_push, lemma_decode_encoded, read_entries, split_lines};
use crate::model::lookup;
use crate::mem_table::{opt_view, MemTable, Table};
use crate::segment_file::{encode_segment, find_in_segment, scan_lines, segment_ext, SegmentFile};

verus! {

/// Where a point lookup stands: answered, or waiting for the bytes of a segment.
#[derive(Debug)]
pub enum GetStep {
    /// The answer: the live value, or `None` for an absent or deleted key.
    Done(Option<Vec<u8>>),
    /// Read the segment file `path` from byte `start` to its end, and hand the
    /// bytes to `Database::continue_get` with `position`.
    Read { position: usize, path: Vec<u8>, start: u64 },
}

/// Whether the bloom filter of the segment at `p` (newest first) rules `key` out.
pub open spec fn ruled_out(dir: FileDirectory, key: Seq<u8>, p: int) -> bool {
    match find_number(dir.blooms(), dir.segments()[p]) {
        Some(f) => !passes(f, key),
        None => false,
    }
}

/// The first segment at or after position `from`, newest first, that may hold `key`.
pub open spec fn next_candidate(dir: FileDirectory, key: Seq<u8>, from: int) -> Option<int>
    decreases dir.segments().len() - from,
{
    if from < 0 || from >= dir.segments().len() {
        None
    } else if !ruled_out(dir, key, from) {
        Some(from)
    } else {
        next_candidate(dir, key, from + 1)
    }
}

/// Where the scan of segment `number` for `key` starts: by its index, or at 0.
pub open spec fn start_for(dir: FileDirectory, key: Seq<u8>, number: nat) -> u64 {
    match find_number(dir.indexes(), number) {
        Some(es) => start_from(es, key, 0),
        None => 0,
    }
}

/// The step a lookup of `key` takes once the segments before position `from` had nothing.
pub open spec fn step_from(step: GetStep, dir: FileDirectory, key: Seq<u8>, from: int) -> bool {
    match next_candidate(dir, key, from) {
        None => step == GetStep::Done(None),
        Some(p) => match step {
            GetStep::Read { position, path, start } => {
                &&& position == p
                &&& parse_name(path@) == Some((dir.segments()[p], segment_ext()))
                &&& start == start_for(dir, key, dir.segments()[p])
            },
            GetStep::Done(_) => false,
        },
    }
}

/// The storage engine: the memtable in front of the segments on disk. It
/// decides; whoever holds it reads and writes the files.
pub struct Database {
    file_directory: FileDirectory,
    mem_table: MemTable,
    /// The tables of the segments flushed since opening, oldest first.
    flushed: Ghost<Seq<Table>>,
    /// The records written since opening or the last flush, in order: what
    /// the log holds.
    logged: Ghost<Seq<Record>>,
}

impl Database {
    pub closed spec fn wf(&self) -> bool {
        &&& self.file_directory.wf()
        &&& self.mem_table.wf()
        &&& self.mem_table@ == apply_records(Map::empty(), self.logged@)
    }

    /// The tables of the segments flushed since opening, oldest first.
    pub closed spec fn flushed(&self) -> Seq<Table> {
        self.flushed@
    }

    /// The records written since opening or the last flush, in order.
    pub closed spec fn logged(&self) -> Seq<Record> {
        self.logged@
    }

    /// What a lookup of `k` answers when the segments present at opening
    /// hold the tables `older` (oldest first): the memtable, then the
    /// segments flushed since, then the older ones, newest first.
    pub open spec fn answer(&self, older: Seq<Table>, k: Seq<u8>) -> Option<Seq<u8>> {
        lookup(self.table()@, older + self.flushed(), k)
    }

    pub closed spec fn table(&self) -> MemTable {
        self.mem_table
    }

    pub closed spec fn directory(&self) -> FileDirectory {
        self.file_directory
    }

    /// Opens the engine over `file_directory`, replaying the log `wal`: the
    /// memtable holds every well-formed logged write, a later one to a key
    /// replacing an earlier one; malformed lines are skipped.
    pub fn new(file_directory: FileDirectory, wal: &[u8], max_table_size: Option<usize>) -> (r: Database)
        requires
            file_directory.wf(),
        ensures
            r.wf(),
            r.directory() == file_directory,
            r.table()@ == apply_records(Map::empty(), decode_all(split_lines(wal@))),
            r.logged() == decode_all(split_lines(wal@)),
            r.flushed() == Seq::<Table>::empty(),
            r.table().capacity() == match max_table_size {
                Some(n) => n,
                None => crate::mem_table::DEFAULT_MAX_TABLE_SIZE,
            },
    {
        let entries = read_entries(wal);
        let mem_table = MemTable::from_iter(entries, max_table_size);
        Database {
            file_directory,
            mem_table,
            flushed: Ghost(Seq::empty()),
            logged: Ghost(decode_all(split_lines(wal@))),
        }
    }

    /// A well-formed engine has a well-formed memtable and directory, and its
    /// memtable is what the logged records make.
    pub proof fn lemma_wf(&self)
        requires
            self.wf(),
        ensures
            self.table().wf(),
            self.directory().wf(),
            self.table()@ == apply_records(Map::empty(), self.logged()),
    {
    }

    pub fn mem_table(&self) -> (r: &MemTable)
        ensures
            *r == self.table(),
    {
        &self.mem_table
    }

    pub fn file_directory(&self) -> (r: &FileDirectory)
        ensures
            *r == self.directory(),
    {
        &self.file_directory
    }

    /// Records `value` for `key` in the memtable (the caller has logged it);
    /// true when the memtable is full and a flush is due.
    pub fn set(&mut self, key: &[u8], value: &[u8]) -> (r: bool)
        requires
            old(self).wf(),
        ensures
            final(self).wf(),
            final(self).directory() == old(self).directory(),
            final(self).table()@ == old(self).table()@.insert(key@, Some(value@)),
            final(self).table().capacity() == old(self).table().capacity(),
            final(self).table().records().len() == old(self).table().records().len()
                + if old(self).table()@.contains_key(key@) { 0int } else { 1int },
            r == (final(self).table().records().len() >= final(self).table().capacity()),
            r == (final(self).table()@.dom().len() >= final(self).table().capacity()),
            final(self).logged() == old(self).logged().push((key@, Some(value@))),
            final(self).flushed() == old(self).flushed(),
            forall|older: Seq<Table>, k: Seq<u8>| #[trigger] final(self).answer(older, k)
                == if k == key@ { Some(value@) } else { old(self).answer(older, k) },
    {
        self.mem_table.insert(key, value);
        proof {
            lemma_apply_records_push(Map::empty(), self.logged@, (key@, Some(value@)));
            self.mem_table.lemma_len();
        }
        self.logged = Ghost(self.logged@.push((key@, Some(value@))));
        self.mem_table.should_flush()
    }

    /// Records a tombstone for `key` in the memtable (the caller has logged
    /// it); true when the memtable is full and a flush is due.
    pub fn delete(&mut self, key: &[u8]) -> (r: bool)
        requires
            old(self).wf(),
        ensures
            final(self).wf(),
            final(self).directory() == old(self).directory(),
            final(self).table()@ == old(self).table()@.insert(key@, None),
            final(self).table().capacity() == old(self).table().capacity(),
            final(self).table().records().len() == old(self).table().records().len()
                + if old(self).table()@.contains_key(key@) { 0int } else { 1int },
            r == (final(self).table().records().len() >= final(self).table().capacity()),
            r == (final(self).table()@.dom().len() >= final(self).table().capacity()),
            final(self).logged() == old(self).logged().push((key@, None::<Seq<u8>>)),
            final(self).flushed() == old(self).flushed(),
            forall|older: Seq<Table>, k: Seq<u8>| #[trigger] final(self).answer(older, k)
                == if k == key@ { None } else { old(self).answer(older, k) },
    {
        self.mem_table.remove(key);
        proof {
            lemma_apply_records_push(Map::empty(), self.logged@, (key@, None::<Seq<u8>>));
            self.mem_table.lemma_len();
        }
        self.logged = Ghost(self.logged@.push((key@, None::<Seq<u8>>)));
        self.mem_table.should_flush()
    }

    /// The files that flushing the memtable writes (see
    /// `FileDirectory::store_segment`); an error if the memtable is too large
    /// for its bloom filter, or a sampled record has an empty key.
    pub fn prepare_flush(&self) -> (r: Result<SegmentFlush, Error>)
        requires
            self.wf(),
        ensures
            match r {
                Ok(f) => f.number_of() == self.directory().segments().len(),
                Err(e) => e.kind_of() == ErrorKind::InvalidData || e.kind_of() == ErrorKind::InvalidInput,
            },
            self.table().records().len() * DEFAULT_BITS_PER_KEY <= usize::MAX ==> match r {
                Ok(f) => self.directory().store_segment_spec(self.table(), f),
                Err(e) => e.kind_of() == ErrorKind::InvalidData && malformed_sample(encode_segment(self.table().records())),
            },
            self.table().records().len() * DEFAULT_BITS_PER_KEY > usize::MAX ==> r is Err,
    {
        if self.mem_table.len() > usize::MAX / DEFAULT_BITS_PER_KEY {
            return Err(Error::new(ErrorKind::InvalidInput, "Too many records to flush".to_owned()));
        }
        self.file_directory.store_segment(&self.mem_table)
    }

    /// Once the files of `flush` are written: records the new segment and
    /// empties the memtable. The caller then truncates the log.
    pub fn commit_flush(&mut self, flush: SegmentFlush) -> (r: Result<(), Error>)
        requires
            old(self).wf(),
        ensures
            final(self).wf(),
            match r {
                Ok(()) => {
                    &&& final(self).table()@ == Map::<Seq<u8>, Option<Seq<u8>>>::empty()
                    &&& final(self).table().records().len() == 0
                    &&& final(self).table().capacity() == old(self).table().capacity()
                    &&& final(self).directory().commit_spec(old(self).directory(), flush)
                    &&& final(self).flushed() == old(self).flushed().push(old(self).table()@)
                    &&& final(self).logged() == Seq::<Record>::empty()
                    &&& forall|older: Seq<Table>, k: Seq<u8>| #[trigger] final(self).answer(older, k) == old(self).answer(older, k)
                },
                Err(e) => *final(self) == *old(self) && e.kind_of() == ErrorKind::InvalidInput
                    && (flush.number_of() != old(self).directory().segments().len() || flush.number_of() == usize::MAX),
            },
    {
        match self.file_directory.commit_segment(flush) {
            Ok(()) => {
                let ghost before = self.mem_table@;
                self.mem_table.clear();
                self.flushed = Ghost(self.flushed@.push(before));
                self.logged = Ghost(Seq::empty());
                assert forall|older: Seq<Table>, k: Seq<u8>| #[trigger] self.answer(older, k) == old(self).answer(older, k) by {
                    assert(older + self.flushed@ =~= (older + old(self).flushed@).push(before));
                    assert((older + self.flushed@).drop_last() =~= older + old(self).flushed@);
                }
                Ok(())
            },
            Err(e) => Err(e),
        }
    }

    /// The first step of a lookup from segment position `from` on: skip the
    /// segments whose bloom filter rules `key` out; read the next one from
    /// where its index says `key` would be.
    fn step_at(&self, key: &[u8], from: usize) -> (r: GetStep)
        requires
            self.wf(),
        ensures
            step_from(r, self.directory(), key@, from as int),
    {
        let files = self.file_directory.segment_files();
        let ghost dir = self.file_directory;
        let mut p = from;
        while p < files.len()
            invariant
                self.wf(),
                dir == self.file_directory,
                files@.map_values(|f: SegmentFile| f.number_of()) == dir.segments(),
                forall|i: int| 0 <= i < files@.len() ==> (#[trigger] files@[i]).wf(),
                from <= p,
                next_candidate(dir, key@, from as int) == next_candidate(dir, key@, p as int),
            decreases files@.len() - p,
        {
            let number = files[p].number();
            assert(dir.segments()[p as int] == number);
            let ruled = match self.file_directory.get_bloom_filter(number) {
                Some(f) => !f.might_contain(key),
                None => false,
            };
            if !ruled {
                let start = match self.file_directory.get_index_file(number) {
                    Some(es) => start_position(es, key),
                    None => 0,
                };
                let file_path = files[p].path();
                let path = copy_range(file_path.as_slice(), 0, file_path.len());
                assert(file_path@.subrange(0, file_path@.len() as int) =~= file_path@);
                return GetStep::Read { position: p, path, start };
            }
            p = p + 1;
        }
        GetStep::Done(None)
    }

    /// Starts a lookup of `key`: the memtable answers if it has the key,
    /// else the segments are consulted newest first.
    pub fn get(&self, key: &[u8]) -> (r: GetStep)
        requires
            self.wf(),
        ensures
            self.table()@.contains_key(key@) ==> match r {
                GetStep::Done(v) => opt_view(v) == self.table()@[key@],
                GetStep::Read { .. } => false,
            },
            !self.table()@.contains_key(key@) ==> step_from(r, self.directory(), key@, 0),
    {
        match self.mem_table.get(key) {
            Some(v) => {
                let answer = match v {
                    Some(x) => {
                        let c = copy_range(x.as_slice(), 0, x.len());
                        assert(x@.subrange(0, x@.len() as int) =~= x@);
                        Some(c)
                    },
                    None => None,
                };
                GetStep::Done(answer)
            },
            None => self.step_at(key, 0),
        }
    }

    /// Goes on with a lookup of `key` given `data`, the bytes of the segment
    /// at `position` from the start its step named: the segment answers if it
    /// has the key (a deletion answers `None`), else the older segments are
    /// consulted. An error if a line met in the scan is malformed.
    pub fn continue_get(&self, key: &[u8], position: usize, data: &[u8]) -> (r: Result<GetStep, Error>)
        requires
            self.wf(),
        ensures
            match r {
                Ok(step) => match scan_lines(split_lines(data@), key@) {
                    Ok(Some(v)) => match step {
                        GetStep::Done(x) => opt_view(x) == v,
                        GetStep::Read { .. } => false,
                    },
                    Ok(None) => step_from(step, self.directory(), key@, position + 1),
                    Err(()) => false,
                },
                Err(e) => scan_lines(split_lines(data@), key@) is Err && e.kind_of() == ErrorKind::InvalidData,
            },
    {
        match find_in_segment(data, key) {
            Err(e) => Err(e),
            Ok(Some(v)) => Ok(GetStep::Done(v)),
            Ok(None) => {
                if position >= self.file_directory.segment_files().len() {
                    assert(next_candidate(self.directory(), key@, position + 1) is None);
                    Ok(GetStep::Done(None))
                } else {
                    Ok(self.step_at(key, position + 1))
                }
            },
        }
    }
}

/// Crash recovery: the log holds the records written since the last flush.
/// An engine opened again over that log (`Database::new`), with the same
/// segments on disk, rebuilds the same memtable, so every key reads as it did
/// before, when the written keys and values were valid.
pub proof fn lemma_reopen(before: Database, after: Database, older: Seq<Table>, k: Seq<u8>)
    requires
        before.wf(),
        all_valid(before.logged()),
        after.table()@ == apply_records(Map::empty(), decode_all(split_lines(encode_all(before.logged())))),
        after.flushed() == Seq::<Table>::empty(),
    ensures
        after.table()@ == before.table()@,
        after.answer(older + before.flushed(), k) == before.answer(older, k),
{
    lemma_decode_encoded(before.logged());
    assert(older + before.flushed() + after.flushed() =~= older + before.flushed());
}

} // verus!
