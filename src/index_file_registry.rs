use vstd::prelude::*;
use crate::bloom_filter_registry::find_number;
use crate::file_name::{parse_file_name, parse_name};
use crate::index_entry::{decode_index_line, IndexEntry};
use crate::index_file::{entries_view, parse_index};
use crate::lines::split_lines;
use crate::segment_file::same_bytes;

verus! {

/// `idx`, the extension of index files.
pub open spec fn index_ext() -> Seq<u8> {
    seq![105u8, 100u8, 120u8]
}

pub fn index_extension() -> (r: Vec<u8>)
    ensures
        r@ == index_ext(),
{
    let r = vec![105u8, 100u8, 120u8];
    assert(r@ =~= index_ext());
    r
}

/// Whether every line of an index file reads as a record.
pub open spec fn index_readable(data: Seq<u8>) -> bool {
    forall|j: int| 0 <= j < split_lines(data).len() ==> (#[trigger] decode_index_line(split_lines(data)[j])) is Some
}

/// The records of a readable index file.
pub open spec fn index_records(data: Seq<u8>) -> Seq<(Seq<u8>, u64)> {
    split_lines(data).map_values(|l: Seq<u8>| decode_index_line(l)->0)
}

/// The index that a directory file `(name, data)` gives segment `n`, if any.
pub open spec fn index_file_for(file: (Seq<u8>, Seq<u8>), n: nat) -> Option<Seq<(Seq<u8>, u64)>> {
    if parse_name(file.0) == Some((n, index_ext())) && index_readable(file.1) {
        Some(index_records(file.1))
    } else {
        None
    }
}

/// The sparse indexes of the segments, by segment number, newest registration first.
pub struct IndexFileRegistry {
    index_files: Vec<(usize, Vec<IndexEntry>)>,
}

impl View for IndexFileRegistry {
    type V = Seq<(nat, Seq<(Seq<u8>, u64)>)>;

    closed spec fn view(&self) -> Seq<(nat, Seq<(Seq<u8>, u64)>)> {
        self.index_files@.map_values(|p: (usize, Vec<IndexEntry>)| (p.0 as nat, entries_view(p.1@)))
    }
}

impl IndexFileRegistry {
    /// The indexes among a directory's files `(name, data)`: each
    /// `segment_<N>.idx` whose every line reads as a record. An index that
    /// cannot be read is left out, and lookups in its segment scan it whole.
    pub fn new(files: &Vec<(Vec<u8>, Vec<u8>)>) -> (r: IndexFileRegistry)
        ensures
            forall|n: nat| match #[trigger] find_number(r@, n) {
                Some(es) => exists|j: int| 0 <= j < files@.len() && index_file_for((files@[j].0@, files@[j].1@), n) == Some(es),
                None => forall|j: int| 0 <= j < files@.len() ==> index_file_for((files@[j].0@, files@[j].1@), n) is None,
            },
    {
        let mut registry = IndexFileRegistry { index_files: Vec::new() };
        let mut j: usize = 0;
        while j < files.len()
            invariant
                j <= files@.len(),
                forall|n: nat| match #[trigger] find_number(registry@, n) {
                    Some(es) => exists|k: int| 0 <= k < j && index_file_for((files@[k].0@, files@[k].1@), n) == Some(es),
                    None => forall|k: int| 0 <= k < j ==> index_file_for((files@[k].0@, files@[k].1@), n) is None,
                },
            decreases files@.len() - j,
        {
            let ghost file = (files@[j as int].0@, files@[j as int].1@);
            let ghost before = registry@;
            let mut added = false;
            match parse_file_name(files[j].0.as_slice()) {
                Some((number, ext)) => {
                    let idx = index_extension();
                    if same_bytes(ext.as_slice(), idx.as_slice()) {
                        match parse_index(files[j].1.as_slice()) {
                            Some(entries) => {
                                proof {
                                    let lines = split_lines(file.1);
                                    assert(index_readable(file.1));
                                    assert(entries_view(entries@) =~= index_records(file.1));
                                }
                                registry.store_new(number, entries);
                                added = true;
                                assert(index_file_for(file, number as nat) == Some(registry@[0].1));
                                assert forall|n: nat| n != number implies index_file_for(file, n) is None by {}
                            },
                            None => {
                                assert forall|n: nat| index_file_for(file, n) is None by {}
                            },
                        }
                    } else {
                        assert forall|n: nat| index_file_for(file, n) is None by {}
                    }
                },
                None => {
                    assert forall|n: nat| index_file_for(file, n) is None by {}
                },
            }
            assert forall|n: nat| match #[trigger] find_number(registry@, n) {
                Some(es) => exists|k: int| 0 <= k < j + 1 && index_file_for((files@[k].0@, files@[k].1@), n) == Some(es),
                None => forall|k: int| 0 <= k < j + 1 ==> index_file_for((files@[k].0@, files@[k].1@), n) is None,
            } by {
                if added && registry@[0].0 == n {
                    assert(index_file_for((files@[j as int].0@, files@[j as int].1@), n) == Some(registry@[0].1));
                } else {
                    if added {
                        assert(registry@.drop_first() =~= before);
                    }
                    assert(find_number(registry@, n) == find_number(before, n));
                    assert(index_file_for((files@[j as int].0@, files@[j as int].1@), n) is None);
                }
            }
            j = j + 1;
        }
        registry
    }

    /// The index of segment `number`, if there is one.
    pub fn get(&self, number: usize) -> (r: Option<&Vec<IndexEntry>>)
        ensures
            match r {
                Some(es) => find_number(self@, number as nat) == Some(entries_view(es@)),
                None => find_number(self@, number as nat) is None,
            },
    {
        let mut i: usize = 0;
        assert(self@.subrange(0, self@.len() as int) =~= self@);
        while i < self.index_files.len()
            invariant
                i <= self@.len(),
                find_number(self@, number as nat) == find_number(self@.subrange(i as int, self@.len() as int), number as nat),
            decreases self@.len() - i,
        {
            let ghost sub = self@.subrange(i as int, self@.len() as int);
            assert(sub[0] == (self.index_files@[i as int].0 as nat, entries_view(self.index_files@[i as int].1@)));
            if self.index_files[i].0 == number {
                return Some(&self.index_files[i].1);
            }
            assert(sub.drop_first() =~= self@.subrange(i + 1, self@.len() as int));
            i = i + 1;
        }
        None
    }

    /// Caches `entries` as the index of segment `number`.
    pub fn store_new(&mut self, number: usize, entries: Vec<IndexEntry>)
        ensures
            final(self)@ == seq![(number as nat, entries_view(entries@))] + old(self)@,
    {
        let ghost ev = entries_view(entries@);
        self.index_files.insert(0, (number, entries));
        assert(self@ =~= seq![(number as nat, ev)] + old(self)@);
    }
}

} // verus!
