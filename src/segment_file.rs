use vstd::prelude::*;
use crate::bytes::{compare_bytes, copy_range, find_byte, lemma_lex_asymmetric, lemma_lex_irreflexive, lemma_lex_transitive, lex_lt, NEWLINE};
use crate::entry::{decode_line, encode_record, lemma_entry_round_trip, valid_record, Entry, Record};
use crate::error::{invalid_data, Error, ErrorKind};
use crate::lines::{all_valid, encode_all, lemma_split_encoded, lemma_split_step, split_lines};
use crate::file_name::{parse_file_name, parse_name};
use crate::mem_table::{has_key, key_index, lemma_table_of_at, opt_view, strictly_sorted, table_of, MemTable};

verus! {

/// What one segment says of a key: `Ok(None)` nothing, `Ok(Some(v))` its last
/// write (`None` a deletion), `Err` a malformed line met before the answer.
/// Lines are key-sorted, so the scan stops at the first key above `k`.
pub open spec fn scan_lines(lines: Seq<Seq<u8>>, k: Seq<u8>) -> Result<Option<Option<Seq<u8>>>, ()>
    decreases lines.len(),
{
    if lines.len() == 0 {
        Ok(None)
    } else {
        match decode_line(lines[0]) {
            None => Err(()),
            Some(r) => if r.0 == k {
                Ok(Some(r.1))
            } else if lex_lt(k, r.0) {
                Ok(None)
            } else {
                scan_lines(lines.drop_first(), k)
            },
        }
    }
}

/// What a table says of a key: `None` if it does not hold it.
pub open spec fn table_lookup(t: Map<Seq<u8>, Option<Seq<u8>>>, k: Seq<u8>) -> Option<Option<Seq<u8>>> {
    if t.contains_key(k) {
        Some(t[k])
    } else {
        None
    }
}

/// The bytes of a segment written from a table's records, in ascending key order.
pub open spec fn encode_segment(rs: Seq<Record>) -> Seq<u8> {
    encode_all(rs)
}

pub open spec fn opt_opt_view(x: Option<Option<Vec<u8>>>) -> Option<Option<Seq<u8>>> {
    match x {
        Some(v) => Some(opt_view(v)),
        None => None,
    }
}

proof fn lemma_table_of_rest(rs: Seq<Record>, k: Seq<u8>)
    requires
        strictly_sorted(rs),
        rs.len() > 0,
        rs[0].0 != k,
    ensures
        strictly_sorted(rs.drop_first()),
        table_lookup(table_of(rs), k) == table_lookup(table_of(rs.drop_first()), k),
{
    let rest = rs.drop_first();
    assert forall|i: int, j: int| 0 <= i < j < rest.len() implies lex_lt(#[trigger] rest[i].0, #[trigger] rest[j].0) by {
        assert(lex_lt(rs[i + 1].0, rs[j + 1].0));
    }
    if has_key(rs, k) {
        let j = key_index(rs, k);
        lemma_table_of_at(rs, j);
        lemma_table_of_at(rest, j - 1);
    }
    if has_key(rest, k) {
        let j = key_index(rest, k);
        lemma_table_of_at(rest, j);
        lemma_table_of_at(rs, j + 1);
    }
}

/// Scanning a segment written from strictly sorted valid records finds exactly
/// what the records' table holds.
pub proof fn lemma_scan_encoded(rs: Seq<Record>, k: Seq<u8>)
    requires
        strictly_sorted(rs),
        all_valid(rs),
    ensures
        scan_lines(split_lines(encode_segment(rs)), k) == Ok::<Option<Option<Seq<u8>>>, ()>(table_lookup(table_of(rs), k)),
{
    lemma_split_encoded(rs);
    lemma_scan_lines_of(rs, k);
}

proof fn lemma_scan_lines_of(rs: Seq<Record>, k: Seq<u8>)
    requires
        strictly_sorted(rs),
        all_valid(rs),
    ensures
        scan_lines(rs.map_values(|r: Record| encode_record(r).drop_last()), k) == Ok::<Option<Option<Seq<u8>>>, ()>(table_lookup(table_of(rs), k)),
    decreases rs.len(),
{
    let lines = rs.map_values(|r: Record| encode_record(r).drop_last());
    if rs.len() == 0 {
        assert(!has_key(rs, k));
    } else {
        assert(valid_record(rs[0]));
        lemma_entry_round_trip(rs[0]);
        assert(decode_line(lines[0]) == Some(rs[0]));
        if rs[0].0 == k {
            lemma_table_of_at(rs, 0);
        } else if lex_lt(k, rs[0].0) {
            if has_key(rs, k) {
                let j = key_index(rs, k);
                if j > 0 {
                    assert(lex_lt(rs[0].0, rs[j].0));
                    lemma_lex_asymmetric(k, rs[0].0);
                    lemma_lex_transitive(k, rs[0].0, k);
                    lemma_lex_irreflexive(k);
                }
            }
        } else {
            let rest = rs.drop_first();
            lemma_table_of_rest(rs, k);
            assert forall|i: int| 0 <= i < rest.len() implies valid_record(#[trigger] rest[i]) by {
                assert(rest[i] == rs[i + 1]);
            }
            lemma_scan_lines_of(rest, k);
            assert(lines.drop_first() =~= rest.map_values(|r: Record| encode_record(r).drop_last()));
        }
    }
}

/// Writes a table's records, in ascending key order, as segment bytes.
pub fn encode_table(table: &MemTable) -> (r: Vec<u8>)
    requires
        table.wf(),
    ensures
        r@ == encode_segment(table.records()),
{
    let entries = table.entries();
    let ghost rs = entries@.map_values(|e: Entry| e@);
    let mut out: Vec<u8> = Vec::new();
    let mut i: usize = entries.len();
    assert(rs.subrange(rs.len() as int, rs.len() as int) =~= Seq::<Record>::empty());
    while i > 0
        invariant
            i <= entries@.len(),
            rs == entries@.map_values(|e: Entry| e@),
            out@ == encode_all(rs.subrange(i as int, rs.len() as int)),
        decreases i,
    {
        i = i - 1;
        let mut line = entries[i].encode();
        let ghost tail = rs.subrange(i + 1, rs.len() as int);
        assert(rs.subrange(i as int, rs.len() as int).drop_first() =~= tail);
        assert(rs.subrange(i as int, rs.len() as int)[0] == entries@[i as int]@);
        crate::bytes::append_bytes(&mut line, out.as_slice());
        out = line;
    }
    assert(rs.subrange(0, rs.len() as int) =~= rs);
    out
}

/// Looks `key` up in segment bytes, from a line boundary onwards.
pub fn find_in_segment(data: &[u8], key: &[u8]) -> (r: Result<Option<Option<Vec<u8>>>, Error>)
    ensures
        match r {
            Ok(x) => scan_lines(split_lines(data@), key@) == Ok::<Option<Option<Seq<u8>>>, ()>(opt_opt_view(x)),
            Err(e) => scan_lines(split_lines(data@), key@) is Err && e.kind_of() == ErrorKind::InvalidData,
        },
{
    let mut i: usize = 0;
    assert(data@.subrange(0, data@.len() as int) =~= data@);
    while i < data.len()
        invariant
            i <= data@.len(),
            scan_lines(split_lines(data@), key@) == scan_lines(split_lines(data@.subrange(i as int, data@.len() as int)), key@),
        decreases data@.len() - i,
    {
        let p = find_byte(data, i, NEWLINE);
        proof { lemma_split_step(data@, i as int, p as int); }
        let ghost lines = split_lines(data@.subrange(i as int, data@.len() as int));
        let line = copy_range(data, i, p);
        match Entry::decode(line.as_slice()) {
            None => {
                return Err(invalid_data("Malformed entry in segment file"));
            },
            Some(entry) => {
                let c = compare_bytes(entry.key().as_slice(), key);
                if c == 0 {
                    let v = match entry {
                        Entry::KeyValue { value, .. } => Some(value),
                        Entry::Tombstone { .. } => None,
                    };
                    return Ok(Some(v));
                } else if c == 1 {
                    return Ok(None);
                }
            },
        }
        if p < data.len() {
            assert(lines.drop_first() =~= split_lines(data@.subrange(p + 1, data@.len() as int)));
            i = p + 1;
        } else {
            assert(lines.drop_first() =~= Seq::<Seq<u8>>::empty());
            i = data.len();
            assert(split_lines(data@.subrange(i as int, data@.len() as int)) =~= Seq::<Seq<u8>>::empty());
        }
    }
    assert(split_lines(data@.subrange(i as int, data@.len() as int)) =~= Seq::<Seq<u8>>::empty());
    Ok(None)
}

/// `sst`, the extension of segment files.
pub open spec fn segment_ext() -> Seq<u8> {
    seq![115u8, 115u8, 116u8]
}

/// Whether `name` is `segment_<N>.sst` for some `N`.
pub open spec fn is_segment_name(name: Seq<u8>) -> bool {
    match parse_name(name) {
        Some((_, ext)) => ext == segment_ext(),
        None => false,
    }
}

pub fn segment_extension() -> (r: Vec<u8>)
    ensures
        r@ == segment_ext(),
{
    let r = vec![115u8, 115u8, 116u8];
    assert(r@ =~= segment_ext());
    r
}

/// Whether `a` and `b` hold the same bytes.
pub fn same_bytes(a: &[u8], b: &[u8]) -> (r: bool)
    ensures
        r == (a@ == b@),
{
    compare_bytes(a, b) == 0
}

/// An immutable, key-sorted segment file `segment_<N>.sst`, known by its name
/// and its number `N`.
pub struct SegmentFile {
    path: Vec<u8>,
    number: usize,
}

impl SegmentFile {
    pub closed spec fn name(&self) -> Seq<u8> {
        self.path@
    }

    pub closed spec fn number_of(&self) -> nat {
        self.number as nat
    }

    /// The name reads as `segment_<number>.sst`.
    pub open spec fn wf(&self) -> bool {
        parse_name(self.name()) == Some((self.number_of(), segment_ext()))
    }

    /// Takes the file named `path`: an error unless it is `segment_<N>.sst`.
    pub fn from_path(path: Vec<u8>) -> (r: Result<SegmentFile, Error>)
        ensures
            match r {
                Ok(f) => f.wf() && f.name() == path@,
                Err(e) => !is_segment_name(path@) && e.kind_of() == ErrorKind::InvalidInput,
            },
    {
        match parse_file_name(path.as_slice()) {
            Some((number, ext)) => {
                let sst = segment_extension();
                if same_bytes(ext.as_slice(), sst.as_slice()) {
                    return Ok(SegmentFile { path, number });
                }
            },
            None => {},
        }
        Err(Error::new(ErrorKind::InvalidInput, "Invalid segment file extension".to_owned()))
    }

    pub fn path(&self) -> (r: &Vec<u8>)
        ensures
            r@ == self.name(),
    {
        &self.path
    }

    pub fn number(&self) -> (r: usize)
        ensures
            r == self.number_of(),
    {
        self.number
    }

    /// Whether `path` ends in `.sst`.
    pub fn is_segment_file(path: &[u8]) -> (r: bool)
        ensures
            r == (path@.len() >= 4 && path@.subrange(path@.len() - 4, path@.len() as int) == seq![46u8, 115u8, 115u8, 116u8]),
    {
        let n = path.len();
        if n < 4 {
            return false;
        }
        let r = path[n - 4] == 46u8 && path[n - 3] == 115u8 && path[n - 2] == 115u8 && path[n - 1] == 116u8;
        assert(r == (path@.subrange(n - 4, n as int) =~= seq![46u8, 115u8, 115u8, 116u8]));
        r
    }
}

} // verus!
