use vstd::prelude::*;
use crate::bytes::{compare_bytes, copy_range, lemma_lex_irreflexive, lemma_lex_total, lemma_lex_transitive, lex_lt};
use crate::entry::{Entry, Record};
use crate::lines::apply_records;

verus! {

/// What the store knows of each key: `Some(v)` a live value, `None` a tombstone.
pub type Table = Map<Seq<u8>, Option<Seq<u8>>>;

/// The capacity a memtable gets when none is given.
pub const DEFAULT_MAX_TABLE_SIZE: usize = 1000;

pub open spec fn opt_view(o: Option<Vec<u8>>) -> Option<Seq<u8>> {
    match o {
        Some(v) => Some(v@),
        None => None,
    }
}

pub open spec fn pair_view(p: (Vec<u8>, Option<Vec<u8>>)) -> Record {
    (p.0@, opt_view(p.1))
}

/// Keys strictly ascending, so each key once.
pub open spec fn strictly_sorted(rs: Seq<Record>) -> bool {
    forall|i: int, j: int| 0 <= i < j < rs.len() ==> lex_lt(#[trigger] rs[i].0, #[trigger] rs[j].0)
}

pub open spec fn has_key(rs: Seq<Record>, k: Seq<u8>) -> bool {
    exists|i: int| 0 <= i < rs.len() && #[trigger] rs[i].0 == k
}

/// A position of `k` in `rs`, where it has one.
pub open spec fn key_index(rs: Seq<Record>, k: Seq<u8>) -> int {
    choose|i: int| 0 <= i < rs.len() && #[trigger] rs[i].0 == k
}

/// The table that a key-unique sequence of records describes.
pub open spec fn table_of(rs: Seq<Record>) -> Table {
    Map::new(|k: Seq<u8>| has_key(rs, k), |k: Seq<u8>| rs[key_index(rs, k)].1)
}

pub proof fn lemma_table_of_at(rs: Seq<Record>, i: int)
    requires
        strictly_sorted(rs),
        0 <= i < rs.len(),
    ensures
        table_of(rs).contains_key(rs[i].0),
        table_of(rs)[rs[i].0] == rs[i].1,
{
    let k = rs[i].0;
    assert(has_key(rs, k));
    let j = key_index(rs, k);
    if j < i {
        assert(lex_lt(rs[j].0, rs[i].0));
        lemma_lex_irreflexive(k);
    } else if i < j {
        assert(lex_lt(rs[i].0, rs[j].0));
        lemma_lex_irreflexive(k);
    }
    assert(j == i);
    assert(table_of(rs).contains_key(k));
    assert(table_of(rs)[k] == rs[j].1);
}

/// The in-memory buffer of recent writes: key-sorted, one record per key,
/// holding up to `max_table_size` keys before a flush is due.
pub struct MemTable {
    table: Vec<(Vec<u8>, Option<Vec<u8>>)>,
    max_table_size: usize,
}

impl View for MemTable {
    type V = Table;

    open spec fn view(&self) -> Table {
        table_of(self.records())
    }
}

impl MemTable {
    /// The records in ascending key order.
    pub closed spec fn records(&self) -> Seq<Record> {
        self.table@.map_values(|p: (Vec<u8>, Option<Vec<u8>>)| pair_view(p))
    }

    pub closed spec fn capacity(&self) -> nat {
        self.max_table_size as nat
    }

    pub closed spec fn wf(&self) -> bool {
        strictly_sorted(self.records())
    }

    pub fn new(max_table_size: Option<usize>) -> (r: MemTable)
        ensures
            r.wf(),
            r@ == Map::<Seq<u8>, Option<Seq<u8>>>::empty(),
            r.records().len() == 0,
            r.capacity() == match max_table_size {
                Some(n) => n,
                None => DEFAULT_MAX_TABLE_SIZE,
            },
    {
        let size = match max_table_size {
            Some(n) => n,
            None => DEFAULT_MAX_TABLE_SIZE,
        };
        let r = MemTable { table: Vec::new(), max_table_size: size };
        assert(r@ =~= Map::<Seq<u8>, Option<Seq<u8>>>::empty());
        r
    }

    /// Index of the first record whose key is not below `key`, and whether it is `key`.
    fn locate(&self, key: &[u8]) -> (r: (usize, bool))
        requires
            self.wf(),
        ensures
            r.0 <= self.records().len(),
            forall|j: int| 0 <= j < r.0 ==> lex_lt(#[trigger] self.records()[j].0, key@),
            r.0 < self.records().len() ==> !lex_lt(self.records()[r.0 as int].0, key@),
            r.1 <==> (r.0 < self.records().len() && self.records()[r.0 as int].0 == key@),
    {
        let mut i: usize = 0;
        while i < self.table.len()
            invariant
                self.wf(),
                i <= self.table@.len(),
                forall|j: int| 0 <= j < i ==> lex_lt(#[trigger] self.records()[j].0, key@),
            decreases self.table@.len() - i,
        {
            let c = compare_bytes(self.table[i].0.as_slice(), key);
            if c != -1 {
                return (i, c == 0);
            }
            i = i + 1;
        }
        (i, false)
    }

    /// `None`: the key is not here, consult the segments. `Some(None)`: the key
    /// is deleted. `Some(Some(v))`: its live value.
    pub fn get(&self, key: &[u8]) -> (r: Option<&Option<Vec<u8>>>)
        requires
            self.wf(),
        ensures
            match r {
                Some(v) => self@.contains_key(key@) && self@[key@] == opt_view(*v),
                None => !self@.contains_key(key@),
            },
    {
        let (i, found) = self.locate(key);
        if found {
            proof { lemma_table_of_at(self.records(), i as int); }
            Some(&self.table[i].1)
        } else {
            proof { self.lemma_absent(key@, i as int); }
            None
        }
    }

    proof fn lemma_absent(&self, k: Seq<u8>, i: int)
        requires
            self.wf(),
            0 <= i <= self.records().len(),
            forall|j: int| 0 <= j < i ==> lex_lt(#[trigger] self.records()[j].0, k),
            i < self.records().len() ==> !lex_lt(self.records()[i].0, k) && self.records()[i].0 != k,
        ensures
            !self@.contains_key(k),
    {
        let rs = self.records();
        if self@.contains_key(k) {
            let j = key_index(rs, k);
            if j < i {
                assert(lex_lt(rs[j].0, k));
                lemma_lex_irreflexive(k);
            } else {
                lemma_lex_total(rs[i].0, k);
                if j > i {
                    assert(lex_lt(rs[i].0, rs[j].0));
                }
            }
        }
    }

    pub fn should_flush(&self) -> (r: bool)
        ensures
            r == (self.records().len() >= self.capacity()),
    {
        self.table.len() >= self.max_table_size
    }

    /// Records `value` (a live value, or `None` for a tombstone) under `key`.
    fn upsert(&mut self, key: &[u8], value: Option<Vec<u8>>)
        requires
            old(self).wf(),
        ensures
            final(self).wf(),
            final(self)@ == old(self)@.insert(key@, opt_view(value)),
            final(self).capacity() == old(self).capacity(),
            final(self).records().len() == old(self).records().len() + if old(self)@.contains_key(key@) { 0int } else { 1int },
    {
        let ghost old_rs = self.records();
        let ghost val = opt_view(value);
        let (i, found) = self.locate(key);
        let k = copy_range(key, 0, key.len());
        assert(key@.subrange(0, key@.len() as int) =~= key@);
        let ghost rec: Record = (key@, val);
        if found {
            proof { lemma_table_of_at(old_rs, i as int); }
            self.table.set(i, (k, value));
            let ghost rs = self.records();
            assert(rs =~= old_rs.update(i as int, rec));
            assert(strictly_sorted(rs)) by {
                assert forall|a: int, b: int| 0 <= a < b < rs.len() implies lex_lt(#[trigger] rs[a].0, #[trigger] rs[b].0) by {
                    assert(lex_lt(old_rs[a].0, old_rs[b].0));
                }
            }
            proof { self.lemma_view_after(old_rs, i as int, rec, true); }
        } else {
            proof { self.lemma_absent(key@, i as int); }
            self.table.insert(i, (k, value));
            let ghost rs = self.records();
            assert(rs =~= old_rs.insert(i as int, rec));
            assert(strictly_sorted(rs)) by {
                assert forall|a: int, b: int| 0 <= a < b < rs.len() implies lex_lt(#[trigger] rs[a].0, #[trigger] rs[b].0) by {
                    if b < i {
                        assert(lex_lt(old_rs[a].0, old_rs[b].0));
                    } else if b == i {
                        assert(lex_lt(old_rs[a].0, key@));
                    } else if a == i {
                        assert(!lex_lt(old_rs[i as int].0, key@));
                        lemma_lex_total(old_rs[i as int].0, key@);
                        if b - 1 > i {
                            assert(lex_lt(old_rs[i as int].0, old_rs[b - 1].0));
                            lemma_lex_transitive(key@, old_rs[i as int].0, old_rs[b - 1].0);
                        }
                    } else if a < i {
                        assert(lex_lt(old_rs[a].0, key@));
                        assert(!lex_lt(old_rs[i as int].0, key@));
                        lemma_lex_total(old_rs[i as int].0, key@);
                        lemma_lex_transitive(old_rs[a].0, key@, old_rs[i as int].0);
                        if b - 1 > i {
                            lemma_lex_transitive(old_rs[a].0, old_rs[i as int].0, old_rs[b - 1].0);
                        }
                    } else {
                        assert(lex_lt(old_rs[a - 1].0, old_rs[b - 1].0));
                    }
                }
            }
            proof { self.lemma_view_after(old_rs, i as int, rec, false); }
        }
    }

    /// The table after writing `rec` at position `i`, over a record of the same key
    /// (`replaced`) or as a new record.
    proof fn lemma_view_after(&self, old_rs: Seq<Record>, i: int, rec: Record, replaced: bool)
        requires
            strictly_sorted(old_rs),
            self.wf(),
            replaced ==> 0 <= i < old_rs.len() && old_rs[i].0 == rec.0 && self.records() == old_rs.update(i, rec),
            !replaced ==> 0 <= i <= old_rs.len() && !table_of(old_rs).contains_key(rec.0) && self.records() == old_rs.insert(i, rec),
        ensures
            self@ == table_of(old_rs).insert(rec.0, rec.1),
    {
        let rs = self.records();
        let m = table_of(old_rs).insert(rec.0, rec.1);
        lemma_table_of_at(rs, i);
        assert forall|k: Seq<u8>| #[trigger] self@.contains_key(k) <==> m.contains_key(k) by {
            if self@.contains_key(k) && k != rec.0 {
                let j = key_index(rs, k);
                if replaced || j < i {
                    lemma_table_of_at(old_rs, j);
                } else {
                    lemma_table_of_at(old_rs, j - 1);
                }
            }
            if m.contains_key(k) && k != rec.0 {
                let j = key_index(old_rs, k);
                if replaced || j < i {
                    lemma_table_of_at(rs, j);
                } else {
                    lemma_table_of_at(rs, j + 1);
                }
            }
        }
        assert forall|k: Seq<u8>| #[trigger] self@.contains_key(k) implies self@[k] == m[k] by {
            if k != rec.0 {
                let j = key_index(old_rs, k);
                lemma_table_of_at(old_rs, j);
                if replaced || j < i {
                    lemma_table_of_at(rs, j);
                } else {
                    lemma_table_of_at(rs, j + 1);
                }
            }
        }
        assert(self@ =~= m);
    }

    /// Records a live value for `key`.
    pub fn insert(&mut self, key: &[u8], value: &[u8])
        requires
            old(self).wf(),
        ensures
            final(self).wf(),
            final(self)@ == old(self)@.insert(key@, Some(value@)),
            final(self).capacity() == old(self).capacity(),
            final(self).records().len() == old(self).records().len() + if old(self)@.contains_key(key@) { 0int } else { 1int },
    {
        let v = copy_range(value, 0, value.len());
        assert(value@.subrange(0, value@.len() as int) =~= value@);
        self.upsert(key, Some(v));
    }

    /// Records a tombstone for `key`.
    pub fn remove(&mut self, key: &[u8])
        requires
            old(self).wf(),
        ensures
            final(self).wf(),
            final(self)@ == old(self)@.insert(key@, None),
            final(self).capacity() == old(self).capacity(),
            final(self).records().len() == old(self).records().len() + if old(self)@.contains_key(key@) { 0int } else { 1int },
    {
        self.upsert(key, None);
    }

    pub fn clear(&mut self)
        ensures
            final(self).wf(),
            final(self)@ == Map::<Seq<u8>, Option<Seq<u8>>>::empty(),
            final(self).records().len() == 0,
            final(self).capacity() == old(self).capacity(),
    {
        self.table.clear();
        assert(self@ =~= Map::<Seq<u8>, Option<Seq<u8>>>::empty());
    }

    pub fn len(&self) -> (r: usize)
        ensures
            r == self.records().len(),
    {
        self.table.len()
    }

    /// The records in ascending key order.
    pub fn iter(&self) -> (r: &[(Vec<u8>, Option<Vec<u8>>)])
        ensures
            r@.map_values(|p: (Vec<u8>, Option<Vec<u8>>)| pair_view(p)) == self.records(),
    {
        self.table.as_slice()
    }

    /// Builds a table by writing the entries in order (a later write to a key
    /// replaces an earlier one), as replaying a log does.
    pub fn from_iter(entries: Vec<Entry>, max_table_size: Option<usize>) -> (r: MemTable)
        ensures
            r.wf(),
            r@ == apply_records(Map::empty(), entries@.map_values(|e: Entry| e@)),
            r.capacity() == match max_table_size {
                Some(n) => n,
                None => DEFAULT_MAX_TABLE_SIZE,
            },
    {
        let ghost rs = entries@.map_values(|e: Entry| e@);
        let mut table = MemTable::new(max_table_size);
        let mut i: usize = 0;
        assert(rs.subrange(0, rs.len() as int) =~= rs);
        while i < entries.len()
            invariant
                i <= entries@.len(),
                rs == entries@.map_values(|e: Entry| e@),
                table.wf(),
                table.capacity() == match max_table_size {
                    Some(n) => n,
                    None => DEFAULT_MAX_TABLE_SIZE,
                },
                apply_records(Map::empty(), rs) == apply_records(table@, rs.subrange(i as int, rs.len() as int)),
            decreases entries@.len() - i,
        {
            let ghost sub = rs.subrange(i as int, rs.len() as int);
            assert(sub.drop_first() =~= rs.subrange(i + 1, rs.len() as int));
            assert(sub[0] == entries@[i as int]@);
            match &entries[i] {
                Entry::KeyValue { key, value } => table.insert(key.as_slice(), value.as_slice()),
                Entry::Tombstone { key } => table.remove(key.as_slice()),
            }
            i = i + 1;
        }
        table
    }

    /// The records as entries, in ascending key order, tombstones kept.
    pub fn entries(&self) -> (r: Vec<Entry>)
        ensures
            r@.map_values(|e: Entry| e@) == self.records(),
    {
        let mut out: Vec<Entry> = Vec::new();
        let mut i: usize = 0;
        while i < self.table.len()
            invariant
                i <= self.table@.len(),
                out@.map_values(|e: Entry| e@) == self.records().subrange(0, i as int),
            decreases self.table@.len() - i,
        {
            let key = copy_range(self.table[i].0.as_slice(), 0, self.table[i].0.len());
            assert(self.table@[i as int].0@.subrange(0, self.table@[i as int].0@.len() as int) =~= self.table@[i as int].0@);
            let e = match &self.table[i].1 {
                Some(v) => {
                    let value = copy_range(v.as_slice(), 0, v.len());
                    assert(v@.subrange(0, v@.len() as int) =~= v@);
                    Entry::KeyValue { key, value }
                },
                None => Entry::Tombstone { key },
            };
            assert(e@ == pair_view(self.table@[i as int]));
            assert(self.records()[i as int] == pair_view(self.table@[i as int]));
            let ghost before = out@;
            let ghost ev = e@;
            out.push(e);
            assert(out@ == before.push(e));
            assert(out@.map_values(|e: Entry| e@) =~= before.map_values(|e: Entry| e@).push(ev));
            assert(self.records().subrange(0, i + 1) =~= self.records().subrange(0, i as int).push(ev));
            i = i + 1;
        }
        assert(self.records().subrange(0, i as int) =~= self.records());
        out
    }

    /// A well-formed table holds one record per key of its contents.
    pub proof fn lemma_len(&self)
        requires
            self.wf(),
        ensures
            self@.dom().finite(),
            self.records().len() == self@.dom().len(),
    {
        let rs = self.records();
        let keys = rs.map_values(|r: Record| r.0);
        assert forall|i: int, j: int| 0 <= i < keys.len() && 0 <= j < keys.len() && i != j implies keys[i] != keys[j] by {
            if i < j {
                assert(lex_lt(rs[i].0, rs[j].0));
            } else {
                assert(lex_lt(rs[j].0, rs[i].0));
            }
            lemma_lex_irreflexive(rs[i].0);
        }
        keys.unique_seq_to_set();
        vstd::seq_lib::seq_to_set_is_finite(keys);
        assert forall|k: Seq<u8>| #[trigger] self@.dom().contains(k) <==> keys.to_set().contains(k) by {
            if has_key(rs, k) {
                let i = key_index(rs, k);
                assert(keys[i] == k);
            }
            if keys.contains(k) {
                let i = choose|i: int| 0 <= i < keys.len() && keys[i] == k;
                assert(rs[i].0 == k);
            }
        }
        assert(self@.dom() =~= keys.to_set());
    }

    /// A well-formed table's records have strictly ascending keys and make up its contents.
    pub proof fn lemma_records(&self)
        requires
            self.wf(),
        ensures
            strictly_sorted(self.records()),
            table_of(self.records()) == self@,
    {
    }
}

} // verus!
