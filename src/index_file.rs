use vstd::prelude::*;
use crate::bytes::{append_bytes, compare_bytes, copy_range, find_byte, lex_lt, NEWLINE};
use crate::entry::{decode_line, Entry};
use crate::error::{invalid_data, Error, ErrorKind};
use crate::index_entry::{decode_index_line, encode_index_entry, IndexEntry};
use crate::lines::{lemma_split_step, split_lines};

verus! {

/// A segment's index samples every `INDEX_STRIDE`-th line.
pub const INDEX_STRIDE: usize = 100;

/// The byte offset at which line `n` of a file starts.
pub open spec fn line_offset(lines: Seq<Seq<u8>>, n: int) -> int
    decreases n,
{
    if n <= 0 {
        0
    } else {
        line_offset(lines, n - 1) + lines[n - 1].len() + 1
    }
}

/// The sparse index of a segment whose lines are `lines`: for every
/// `INDEX_STRIDE`-th line, its key and its offset.
pub open spec fn index_of_lines(lines: Seq<Seq<u8>>) -> Seq<(Seq<u8>, u64)> {
    Seq::new(
        ((lines.len() + 99) / 100) as nat,
        |j: int| ((decode_line(lines[100 * j])->0).0, line_offset(lines, 100 * j) as u64),
    )
}

/// Where a lookup of `k` may start: the offset of the last record of the
/// leading run of records whose keys are at most `k`; `pos` if there is none.
pub open spec fn start_from(es: Seq<(Seq<u8>, u64)>, k: Seq<u8>, pos: u64) -> u64
    decreases es.len(),
{
    if es.len() == 0 || lex_lt(k, es[0].0) {
        pos
    } else {
        start_from(es.drop_first(), k, es[0].1)
    }
}

/// The bytes of an index file.
pub open spec fn encode_index(es: Seq<(Seq<u8>, u64)>) -> Seq<u8>
    decreases es.len(),
{
    if es.len() == 0 {
        Seq::empty()
    } else {
        encode_index_entry(es[0].0, es[0].1) + encode_index(es.drop_first())
    }
}

pub open spec fn entries_view(es: Seq<IndexEntry>) -> Seq<(Seq<u8>, u64)> {
    es.map_values(|e: IndexEntry| e@)
}

/// Is `name` the name of an index file: does it end in `.idx`?
pub open spec fn is_index_name(name: Seq<u8>) -> bool {
    name.len() >= 4 && name.subrange(name.len() - 4, name.len() as int) == seq![46u8, 105u8, 100u8, 120u8]
}

/// An index file, known by the name of its file.
pub struct IndexFile {
    path: Vec<u8>,
}

impl IndexFile {
    pub closed spec fn name(&self) -> Seq<u8> {
        self.path@
    }

    /// Takes the file named `path`; an error if the name is not that of an index file.
    pub fn from_path(path: Vec<u8>) -> (r: Result<IndexFile, Error>)
        ensures
            match r {
                Ok(f) => is_index_name(path@) && f.name() == path@,
                Err(e) => !is_index_name(path@) && e.kind_of() == ErrorKind::InvalidInput,
            },
    {
        if !Self::is_index_file(path.as_slice()) {
            return Err(Error::new(ErrorKind::InvalidInput, "Invalid index file extension".to_owned()));
        }
        Ok(IndexFile { path })
    }

    pub fn path(&self) -> (r: &Vec<u8>)
        ensures
            r@ == self.name(),
    {
        &self.path
    }

    pub fn is_index_file(path: &[u8]) -> (r: bool)
        ensures
            r == is_index_name(path@),
    {
        let n = path.len();
        if n < 4 {
            return false;
        }
        let r = path[n - 4] == 46u8 && path[n - 3] == 105u8 && path[n - 2] == 100u8 && path[n - 1] == 120u8;
        assert(r == (path@.subrange(n - 4, n as int) =~= seq![46u8, 105u8, 100u8, 120u8]));
        r
    }
}

/// Samples every `INDEX_STRIDE`-th line of segment bytes, with the offset at
/// which it starts. Each sampled offset is where that line, and its key, stands.
pub fn build_index(data: &[u8]) -> (r: Result<Vec<IndexEntry>, Error>)
    ensures
        match r {
            Ok(es) => {
                let lines = split_lines(data@);
                &&& entries_view(es@) == index_of_lines(lines)
                &&& forall|j: int| 0 <= j < es@.len() ==> (#[trigger] decode_line(lines[100 * j])) is Some
                &&& forall|j: int| 0 <= j < es@.len() ==> {
                    let off = line_offset(lines, 100 * j);
                    &&& off + lines[100 * j].len() <= data@.len()
                    &&& data@.subrange(off, off + lines[100 * j].len()) == #[trigger] lines[100 * j]
                    &&& (off + lines[100 * j].len() == data@.len() || data@[off + lines[100 * j].len()] == NEWLINE)
                }
            },
            Err(e) => e.kind_of() == ErrorKind::InvalidData && exists|j: int|
                0 <= 100 * j < split_lines(data@).len() && (#[trigger] decode_line(split_lines(data@)[100 * j])) is None,
        },
{
    let ghost lines = split_lines(data@);
    let mut es: Vec<IndexEntry> = Vec::new();
    let mut i: usize = 0;
    let mut n: usize = 0;
    assert(data@.subrange(0, data@.len() as int) =~= data@);
    assert(lines.subrange(0, lines.len() as int) =~= lines);
    while i < data.len()
        invariant
            lines == split_lines(data@),
            n <= i <= data@.len(),
            n <= lines.len(),
            split_lines(data@.subrange(i as int, data@.len() as int)) == lines.subrange(n as int, lines.len() as int),
            i == line_offset(lines, n as int) || (i == data@.len() && n == lines.len()),
            es@.len() == (n + 99) / 100,
            forall|j: int| 0 <= j < es@.len() ==> (#[trigger] decode_line(lines[100 * j])) is Some,
            forall|j: int| 0 <= j < es@.len() ==> #[trigger] es@[j]@ == index_of_lines(lines)[j],
            forall|j: int| 0 <= j < es@.len() ==> {
                let off = line_offset(lines, 100 * j);
                &&& off + lines[100 * j].len() <= data@.len()
                &&& data@.subrange(off, off + lines[100 * j].len()) == #[trigger] lines[100 * j]
                &&& (off + lines[100 * j].len() == data@.len() || data@[off + lines[100 * j].len()] == NEWLINE)
            },
        decreases data@.len() - i,
    {
        let p = find_byte(data, i, NEWLINE);
        proof { lemma_split_step(data@, i as int, p as int); }
        let ghost rest = split_lines(data@.subrange(i as int, data@.len() as int));
        proof {
            crate::bytes::lemma_position_of(data@.subrange(i as int, data@.len() as int), NEWLINE);
            if p < data@.len() {
                assert(data@[p as int] == data@.subrange(i as int, data@.len() as int)[p - i]);
            }
        }
        assert(rest.len() > 0);
        assert(rest[0] == lines[n as int]);
        assert(i == line_offset(lines, n as int));
        assert(data@.subrange(i as int, p as int) == lines[n as int]);
        assert(p == data@.len() || data@[p as int] == NEWLINE);
        if n % INDEX_STRIDE == 0 {
            let line = copy_range(data, i, p);
            match Entry::decode(line.as_slice()) {
                None => {
                    assert(100 * (n / 100) == n);
                    assert(decode_line(split_lines(data@)[100 * (n / 100) as int]) is None);
                    return Err(invalid_data("Malformed entry in segment file"));
                },
                Some(entry) => {
                    let k = entry.key();
                    let key = copy_range(k.as_slice(), 0, k.len());
                    assert(k@.subrange(0, k@.len() as int) =~= k@);
                    let ghost j = es@.len() as int;
                    assert(j == n / 100);
                    assert(100 * j == n);
                    es.push(IndexEntry::new(key, i as u64));
                    assert(es@[j]@ == index_of_lines(lines)[j]);
                },
            }
        }
        assert(es@.len() == (n + 1 + 99) / 100);
        if p < data.len() {
            assert(rest.drop_first() =~= lines.subrange(n + 1, lines.len() as int));
            i = p + 1;
        } else {
            i = data.len();
            assert(rest.drop_first() =~= Seq::<Seq<u8>>::empty());
            assert(lines.subrange(n + 1, lines.len() as int) =~= rest.drop_first());
            assert(split_lines(data@.subrange(i as int, data@.len() as int)) =~= Seq::<Seq<u8>>::empty());
        }
        n = n + 1;
    }
    assert(lines.subrange(n as int, lines.len() as int) =~= Seq::<Seq<u8>>::empty());
    assert(n == lines.len());
    assert(entries_view(es@) =~= index_of_lines(lines));
    Ok(es)
}

/// The bytes of an index file holding `entries`, in order.
pub fn encode_entries(entries: &Vec<IndexEntry>) -> (r: Vec<u8>)
    ensures
        r@ == encode_index(entries_view(entries@)),
{
    let ghost es = entries_view(entries@);
    let mut out: Vec<u8> = Vec::new();
    let mut i: usize = entries.len();
    assert(es.subrange(es.len() as int, es.len() as int) =~= Seq::<(Seq<u8>, u64)>::empty());
    while i > 0
        invariant
            i <= entries@.len(),
            es == entries_view(entries@),
            out@ == encode_index(es.subrange(i as int, es.len() as int)),
        decreases i,
    {
        i = i - 1;
        let mut line = entries[i].encode();
        assert(es.subrange(i as int, es.len() as int).drop_first() =~= es.subrange(i + 1, es.len() as int));
        assert(es.subrange(i as int, es.len() as int)[0] == entries@[i as int]@);
        append_bytes(&mut line, out.as_slice());
        out = line;
    }
    assert(es.subrange(0, es.len() as int) =~= es);
    out
}

/// Reads an index file line by line, each line's last 8 bytes being the offset.
/// `None` when a line is too short: the index then cannot be used.
pub fn parse_index(data: &[u8]) -> (r: Option<Vec<IndexEntry>>)
    ensures
        match r {
            Some(es) => {
                let lines = split_lines(data@);
                &&& es@.len() == lines.len()
                &&& forall|j: int| 0 <= j < lines.len() ==> decode_index_line(#[trigger] lines[j]) == Some(es@[j]@)
            },
            None => exists|j: int| 0 <= j < split_lines(data@).len() && (#[trigger] decode_index_line(split_lines(data@)[j])) is None,
        },
{
    let ghost lines = split_lines(data@);
    let mut es: Vec<IndexEntry> = Vec::new();
    let mut i: usize = 0;
    assert(data@.subrange(0, data@.len() as int) =~= data@);
    assert(lines.subrange(0, lines.len() as int) =~= lines);
    while i < data.len()
        invariant
            lines == split_lines(data@),
            i <= data@.len(),
            es@.len() <= lines.len(),
            split_lines(data@.subrange(i as int, data@.len() as int)) == lines.subrange(es@.len() as int, lines.len() as int),
            forall|j: int| 0 <= j < es@.len() ==> decode_index_line(#[trigger] lines[j]) == Some(es@[j]@),
        decreases data@.len() - i,
    {
        let p = find_byte(data, i, NEWLINE);
        proof { lemma_split_step(data@, i as int, p as int); }
        let ghost rest = split_lines(data@.subrange(i as int, data@.len() as int));
        let ghost n = es@.len() as int;
        assert(rest.len() > 0);
        assert(lines.subrange(n, lines.len() as int).len() > 0);
        assert(rest[0] == lines[n]);
        let line = copy_range(data, i, p);
        assert(line@ == lines[n]);
        match IndexEntry::try_from(line.as_slice()) {
            Err(_) => {
                assert(decode_index_line(split_lines(data@)[n]) is None);
                return None;
            },
            Ok(e) => {
                es.push(e);
            },
        }
        if p < data.len() {
            assert(rest.drop_first() =~= lines.subrange(n + 1, lines.len() as int));
            i = p + 1;
        } else {
            i = data.len();
            assert(rest.drop_first() =~= Seq::<Seq<u8>>::empty());
            assert(lines.subrange(n + 1, lines.len() as int) =~= rest.drop_first());
            assert(split_lines(data@.subrange(i as int, data@.len() as int)) =~= Seq::<Seq<u8>>::empty());
        }
    }
    assert(lines.subrange(es@.len() as int, lines.len() as int) =~= Seq::<Seq<u8>>::empty());
    Some(es)
}

/// The offset at which a scan for `key` may start: that of the last entry of
/// the leading run of entries whose keys are at most `key`, or 0.
pub fn start_position(entries: &Vec<IndexEntry>, key: &[u8]) -> (r: u64)
    ensures
        r == start_from(entries_view(entries@), key@, 0),
{
    let ghost es = entries_view(entries@);
    let mut position: u64 = 0;
    let mut i: usize = 0;
    assert(es.subrange(0, es.len() as int) =~= es);
    while i < entries.len()
        invariant
            i <= entries@.len(),
            es == entries_view(entries@),
            start_from(es, key@, 0) == start_from(es.subrange(i as int, es.len() as int), key@, position),
        decreases entries@.len() - i,
    {
        let ghost sub = es.subrange(i as int, es.len() as int);
        assert(sub[0] == entries@[i as int]@);
        if compare_bytes(entries[i].key(), key) == 1 {
            return position;
        }
        assert(sub.drop_first() =~= es.subrange(i + 1, es.len() as int));
        position = entries[i].offset();
        i = i + 1;
    }
    position
}

} // verus!
