use vstd::prelude::*;
use crate::bloom_filter::{bit_of, key_bit, decode_filter, lemma_passes_monotone, passes, BloomFilter, BloomModel, DEFAULT_BITS_PER_KEY, DEFAULT_NUM_HASHES};
use crate::file_name::{parse_file_name, parse_name};
use crate::mem_table::{has_key, key_index, MemTable, pair_view};
use crate::segment_file::same_bytes;

verus! {

/// What the first record numbered `n` holds.
pub open spec fn find_number<T>(es: Seq<(nat, T)>, n: nat) -> Option<T>
    decreases es.len(),
{
    if es.len() == 0 {
        None
    } else if es[0].0 == n {
        Some(es[0].1)
    } else {
        find_number(es.drop_first(), n)
    }
}

/// `bf`, the extension of bloom filter files.
pub open spec fn bloom_ext() -> Seq<u8> {
    seq![98u8, 102u8]
}

pub fn bloom_extension() -> (r: Vec<u8>)
    ensures
        r@ == bloom_ext(),
{
    let r = vec![98u8, 102u8];
    assert(r@ =~= bloom_ext());
    r
}

/// Whether `path` ends in `.bf`.
pub fn is_bloom_file(path: &[u8]) -> (r: bool)
    ensures
        r == (path@.len() >= 3 && path@.subrange(path@.len() - 3, path@.len() as int) == seq![46u8, 98u8, 102u8]),
{
    let n = path.len();
    if n < 3 {
        return false;
    }
    let r = path[n - 3] == 46u8 && path[n - 2] == 98u8 && path[n - 1] == 102u8;
    assert(r == (path@.subrange(n - 3, n as int) =~= seq![46u8, 98u8, 102u8]));
    r
}

/// The filter that a directory file `(name, data)` gives segment `n`, if any.
pub open spec fn filter_file(file: (Seq<u8>, Seq<u8>), n: nat) -> Option<BloomModel> {
    if parse_name(file.0) == Some((n, bloom_ext())) {
        decode_filter(file.1)
    } else {
        None
    }
}

/// The bloom filters of the segments, by segment number, newest registration first.
pub struct BloomFilterRegistry {
    filters: Vec<(usize, BloomFilter)>,
}

impl View for BloomFilterRegistry {
    type V = Seq<(nat, BloomModel)>;

    closed spec fn view(&self) -> Seq<(nat, BloomModel)> {
        self.filters@.map_values(|p: (usize, BloomFilter)| (p.0 as nat, p.1@))
    }
}

impl BloomFilterRegistry {
    /// The filters among a directory's files `(name, data)`: each
    /// `segment_<N>.bf` whose data reads as a filter. Others are left out.
    pub fn new(files: &Vec<(Vec<u8>, Vec<u8>)>) -> (r: BloomFilterRegistry)
        ensures
            forall|n: nat| match #[trigger] find_number(r@, n) {
                Some(m) => exists|j: int| 0 <= j < files@.len() && filter_file((files@[j].0@, files@[j].1@), n) == Some(m),
                None => forall|j: int| 0 <= j < files@.len() ==> filter_file((files@[j].0@, files@[j].1@), n) is None,
            },
    {
        let mut registry = BloomFilterRegistry { filters: Vec::new() };
        let mut j: usize = 0;
        while j < files.len()
            invariant
                j <= files@.len(),
                forall|n: nat| match #[trigger] find_number(registry@, n) {
                    Some(m) => exists|k: int| 0 <= k < j && filter_file((files@[k].0@, files@[k].1@), n) == Some(m),
                    None => forall|k: int| 0 <= k < j ==> filter_file((files@[k].0@, files@[k].1@), n) is None,
                },
            decreases files@.len() - j,
        {
            let ghost file = (files@[j as int].0@, files@[j as int].1@);
            let ghost before = registry@;
            let mut added = false;
            match parse_file_name(files[j].0.as_slice()) {
                Some((number, ext)) => {
                    let bf = bloom_extension();
                    if same_bytes(ext.as_slice(), bf.as_slice()) {
                        match BloomFilter::deserialize(files[j].1.as_slice()) {
                            Ok(filter) => {
                                registry.store(number, filter);
                                added = true;
                                assert(filter_file(file, number as nat) == Some(registry@[0].1));
                                assert forall|n: nat| n != number implies filter_file(file, n) is None by {}
                            },
                            Err(_) => {
                                assert forall|n: nat| filter_file(file, n) is None by {}
                            },
                        }
                    } else {
                        assert forall|n: nat| filter_file(file, n) is None by {}
                    }
                },
                None => {
                    assert forall|n: nat| filter_file(file, n) is None by {}
                },
            }
            assert forall|n: nat| match #[trigger] find_number(registry@, n) {
                Some(m) => exists|k: int| 0 <= k < j + 1 && filter_file((files@[k].0@, files@[k].1@), n) == Some(m),
                None => forall|k: int| 0 <= k < j + 1 ==> filter_file((files@[k].0@, files@[k].1@), n) is None,
            } by {
                if added && registry@[0].0 == n {
                    assert(filter_file((files@[j as int].0@, files@[j as int].1@), n) == Some(registry@[0].1));
                } else {
                    if added {
                        assert(registry@.drop_first() =~= before);
                    }
                    assert(find_number(registry@, n) == find_number(before, n));
                    assert(filter_file((files@[j as int].0@, files@[j as int].1@), n) is None);
                }
            }
            j = j + 1;
        }
        registry
    }

    /// The filter of segment `number`, if there is one.
    pub fn get(&self, number: usize) -> (r: Option<&BloomFilter>)
        ensures
            match r {
                Some(f) => find_number(self@, number as nat) == Some(f@),
                None => find_number(self@, number as nat) is None,
            },
    {
        let mut i: usize = 0;
        assert(self@.subrange(0, self@.len() as int) =~= self@);
        while i < self.filters.len()
            invariant
                i <= self@.len(),
                find_number(self@, number as nat) == find_number(self@.subrange(i as int, self@.len() as int), number as nat),
            decreases self@.len() - i,
        {
            let ghost sub = self@.subrange(i as int, self@.len() as int);
            assert(sub[0] == (self.filters@[i as int].0 as nat, self.filters@[i as int].1@));
            if self.filters[i].0 == number {
                return Some(&self.filters[i].1);
            }
            assert(sub.drop_first() =~= self@.subrange(i + 1, self@.len() as int));
            i = i + 1;
        }
        None
    }

    /// Caches `filter` as that of segment `number`.
    pub fn store(&mut self, number: usize, filter: BloomFilter)
        ensures
            final(self)@ == seq![(number as nat, filter@)] + old(self)@,
    {
        let ghost fv = filter@;
        self.filters.insert(0, (number, filter));
        assert(self@ =~= seq![(number as nat, fv)] + old(self)@);
    }

    /// A filter sized by default for the keys of `table`, holding each of them.
    pub fn filter_for(table: &MemTable) -> (r: BloomFilter)
        requires
            table.wf(),
            table.records().len() * DEFAULT_BITS_PER_KEY <= usize::MAX,
        ensures
            r@.num_bits == table.records().len() * DEFAULT_BITS_PER_KEY,
            r@.num_hashes == DEFAULT_NUM_HASHES,
            forall|k: Seq<u8>| #[trigger] table@.contains_key(k) ==> passes(r@, k),
            forall|j: int| 0 <= j < r@.num_bits ==> (#[trigger] bit_of(r@.bits, j) <==> exists|k: Seq<u8>|
                table@.contains_key(k) && key_bit(k, r@.num_bits, r@.num_hashes, j)),
    {
        let records = table.iter();
        let mut filter = BloomFilter::default_for_keys(table.len());
        let ghost rs = table.records();
        let mut i: usize = 0;
        while i < records.len()
            invariant
                filter@.num_bits == rs.len() * DEFAULT_BITS_PER_KEY,
                filter@.num_hashes == DEFAULT_NUM_HASHES,
                records@.map_values(|p: (Vec<u8>, Option<Vec<u8>>)| pair_view(p)) == rs,
                i <= records@.len(),
                forall|k: int| 0 <= k < i ==> passes(filter@, #[trigger] rs[k].0),
                forall|j: int| 0 <= j < filter@.num_bits ==> (#[trigger] bit_of(filter@.bits, j) <==> exists|k: int|
                    0 <= k < i && key_bit(rs[k].0, filter@.num_bits, filter@.num_hashes, j)),
            decreases records@.len() - i,
        {
            let ghost before = filter@;
            assert(rs[i as int].0 == records@[i as int].0@);
            filter.insert(records[i].0.as_slice());
            assert forall|k: int| 0 <= k < i + 1 implies passes(filter@, #[trigger] rs[k].0) by {
                if k < i {
                    lemma_passes_monotone(before, filter@, rs[k].0);
                }
            }
            assert forall|j: int| 0 <= j < filter@.num_bits implies (#[trigger] bit_of(filter@.bits, j) <==> exists|k: int|
                0 <= k < i + 1 && key_bit(rs[k].0, filter@.num_bits, filter@.num_hashes, j)) by {
                if bit_of(filter@.bits, j) {
                    if bit_of(before.bits, j) {
                        let k = choose|k: int| 0 <= k < i && key_bit(rs[k].0, before.num_bits, before.num_hashes, j);
                        assert(0 <= k < i + 1);
                    } else {
                        assert(key_bit(rs[i as int].0, filter@.num_bits, filter@.num_hashes, j));
                    }
                }
                if exists|k: int| 0 <= k < i + 1 && key_bit(rs[k].0, filter@.num_bits, filter@.num_hashes, j) {
                    let k = choose|k: int| 0 <= k < i + 1 && key_bit(rs[k].0, filter@.num_bits, filter@.num_hashes, j);
                    if k < i {
                        assert(bit_of(before.bits, j));
                    }
                }
            }
            i = i + 1;
        }
        assert forall|k: Seq<u8>| #[trigger] table@.contains_key(k) implies passes(filter@, k) by {
            assert(has_key(rs, k));
            let j = key_index(rs, k);
            assert(passes(filter@, rs[j].0));
        }
        assert forall|j: int| 0 <= j < filter@.num_bits implies (#[trigger] bit_of(filter@.bits, j) <==> exists|k: Seq<u8>|
            table@.contains_key(k) && key_bit(k, filter@.num_bits, filter@.num_hashes, j)) by {
            if bit_of(filter@.bits, j) {
                let k = choose|k: int| 0 <= k < i && key_bit(rs[k].0, filter@.num_bits, filter@.num_hashes, j);
                table.lemma_records();
                crate::mem_table::lemma_table_of_at(rs, k);
                assert(table@.contains_key(rs[k].0));
            }
            if exists|k: Seq<u8>| table@.contains_key(k) && key_bit(k, filter@.num_bits, filter@.num_hashes, j) {
                let k = choose|k: Seq<u8>| table@.contains_key(k) && key_bit(k, filter@.num_bits, filter@.num_hashes, j);
                assert(has_key(rs, k));
                let x = key_index(rs, k);
                assert(rs[x].0 == k);
            }
        }
        filter
    }
}

} // verus!
