use vstd::prelude::*;
use crate::bytes::{lemma_lex_asymmetric, lemma_lex_irreflexive, lemma_lex_total, lemma_lex_transitive, lemma_position_of, lex_lt, NEWLINE, position_of};
use crate::bloom_filter::{passes, BloomModel};
use crate::entry::{decode_line, encode_record, lemma_entry_round_trip, valid_record, Record};
use crate::index_file::{index_of_lines, line_offset, start_from};
use crate::lines::{all_valid, apply_records, decode_all, encode_all, lemma_decode_encoded, lemma_split_encoded, split_lines};
use crate::mem_table::{strictly_sorted, MemTable, Table};
use crate::segment_file::{encode_segment, lemma_scan_encoded, scan_lines, table_lookup};

verus! {

/// The store as its users see it: the memtable's table in front of the
/// tables of the segments, oldest first.
pub struct StoreModel {
    pub mem: Table,
    pub segments: Seq<Table>,
}

/// An operation on the store.
pub enum Op {
    Put(Seq<u8>, Seq<u8>),
    Delete(Seq<u8>),
    Flush,
}

/// The answer of a lookup: the newest table holding the key decides; a
/// deletion, or no table holding it, answers `None`.
pub open spec fn lookup(mem: Table, segments: Seq<Table>, k: Seq<u8>) -> Option<Seq<u8>>
    decreases segments.len(),
{
    if mem.contains_key(k) {
        mem[k]
    } else if segments.len() == 0 {
        None
    } else {
        lookup(segments.last(), segments.drop_last(), k)
    }
}

pub open spec fn get(s: StoreModel, k: Seq<u8>) -> Option<Seq<u8>> {
    lookup(s.mem, s.segments, k)
}

/// A write goes to the memtable; a flush turns the memtable into the newest
/// segment and empties it.
pub open spec fn apply_op(s: StoreModel, op: Op) -> StoreModel {
    match op {
        Op::Put(k, v) => StoreModel { mem: s.mem.insert(k, Some(v)), segments: s.segments },
        Op::Delete(k) => StoreModel { mem: s.mem.insert(k, None), segments: s.segments },
        Op::Flush => StoreModel { mem: Map::empty(), segments: s.segments.push(s.mem) },
    }
}

pub open spec fn run(s: StoreModel, ops: Seq<Op>) -> StoreModel
    decreases ops.len(),
{
    if ops.len() == 0 {
        s
    } else {
        run(apply_op(s, ops[0]), ops.drop_first())
    }
}

/// Whether `op` writes to key `k`.
pub open spec fn touches(op: Op, k: Seq<u8>) -> bool {
    match op {
        Op::Put(j, _) => j == k,
        Op::Delete(j) => j == k,
        Op::Flush => false,
    }
}

/// The record that a write logs; a flush logs none.
pub open spec fn op_record(op: Op) -> Record {
    match op {
        Op::Put(k, v) => (k, Some(v)),
        Op::Delete(k) => (k, None),
        Op::Flush => (Seq::empty(), None),
    }
}

/// A flush changes no answer: after it, every key reads as before.
pub proof fn lemma_flush_keeps_answers(s: StoreModel, k: Seq<u8>)
    ensures
        get(apply_op(s, Op::Flush), k) == get(s, k),
{
    let t = apply_op(s, Op::Flush);
    assert(t.segments.drop_last() =~= s.segments);
}

/// An operation that does not write `k` leaves the answer for `k` as it was.
pub proof fn lemma_other_op_keeps_answer(s: StoreModel, op: Op, k: Seq<u8>)
    requires
        !touches(op, k),
    ensures
        get(apply_op(s, op), k) == get(s, k),
{
    match op {
        Op::Flush => lemma_flush_keeps_answers(s, k),
        _ => {},
    }
}

proof fn lemma_others_keep_answer(s: StoreModel, later: Seq<Op>, k: Seq<u8>)
    requires
        forall|i: int| 0 <= i < later.len() ==> !touches(#[trigger] later[i], k),
    ensures
        get(run(s, later), k) == get(s, k),
    decreases later.len(),
{
    if later.len() > 0 {
        lemma_other_op_keeps_answer(s, later[0], k);
        let rest = later.drop_first();
        assert forall|i: int| 0 <= i < rest.len() implies !touches(#[trigger] rest[i], k) by {
            assert(rest[i] == later[i + 1]);
        }
        lemma_others_keep_answer(apply_op(s, later[0]), rest, k);
    }
}

/// After `set(k, v)`, `get(k)` answers `v` until a later operation writes `k`,
/// whatever the other writes and flushes in between.
pub proof fn lemma_set_then_get(s: StoreModel, k: Seq<u8>, v: Seq<u8>, later: Seq<Op>)
    requires
        forall|i: int| 0 <= i < later.len() ==> !touches(#[trigger] later[i], k),
    ensures
        get(run(apply_op(s, Op::Put(k, v)), later), k) == Some(v),
{
    lemma_others_keep_answer(apply_op(s, Op::Put(k, v)), later, k);
}

/// After `delete(k)`, `get(k)` answers `None`, whatever came before, until a
/// later operation writes `k`.
pub proof fn lemma_delete_then_get(s: StoreModel, k: Seq<u8>, later: Seq<Op>)
    requires
        forall|i: int| 0 <= i < later.len() ==> !touches(#[trigger] later[i], k),
    ensures
        get(run(apply_op(s, Op::Delete(k)), later), k) is None,
{
    lemma_others_keep_answer(apply_op(s, Op::Delete(k)), later, k);
}

proof fn lemma_run_writes(s: StoreModel, ops: Seq<Op>)
    requires
        forall|i: int| 0 <= i < ops.len() ==> #[trigger] ops[i] != Op::Flush,
    ensures
        run(s, ops).mem == apply_records(s.mem, ops.map_values(|op: Op| op_record(op))),
        run(s, ops).segments == s.segments,
    decreases ops.len(),
{
    if ops.len() > 0 {
        let rest = ops.drop_first();
        assert forall|i: int| 0 <= i < rest.len() implies #[trigger] rest[i] != Op::Flush by {
            assert(rest[i] == ops[i + 1]);
        }
        assert(ops[0] != Op::Flush);
        lemma_run_writes(apply_op(s, ops[0]), rest);
        assert(ops.map_values(|op: Op| op_record(op)).drop_first() =~= rest.map_values(|op: Op| op_record(op)));
    }
}

/// Crash recovery: from a store whose log and memtable are empty (new, or
/// just flushed), after writes whose keys and values are valid, the log holds
/// their records; replaying it on reopening rebuilds the memtable, so every
/// key reads as it did before the crash.
pub proof fn lemma_recovery(s: StoreModel, ops: Seq<Op>, k: Seq<u8>)
    requires
        s.mem == Map::<Seq<u8>, Option<Seq<u8>>>::empty(),
        forall|i: int| 0 <= i < ops.len() ==> #[trigger] ops[i] != Op::Flush,
        all_valid(ops.map_values(|op: Op| op_record(op))),
    ensures
        ({
            let log = encode_all(ops.map_values(|op: Op| op_record(op)));
            let reopened = StoreModel {
                mem: apply_records(Map::empty(), decode_all(split_lines(log))),
                segments: s.segments,
            };
            &&& reopened.mem == run(s, ops).mem
            &&& get(reopened, k) == get(run(s, ops), k)
        }),
{
    let rs = ops.map_values(|op: Op| op_record(op));
    lemma_decode_encoded(rs);
    lemma_run_writes(s, ops);
}

/// The segment written from strictly sorted valid records reads back as those
/// records: its keys ascend strictly, each once.
pub proof fn lemma_segment_keys_ascend(rs: Seq<Record>)
    requires
        strictly_sorted(rs),
        all_valid(rs),
    ensures
        decode_all(split_lines(encode_segment(rs))) == rs,
        strictly_sorted(decode_all(split_lines(encode_segment(rs)))),
{
    lemma_decode_encoded(rs);
}

/// A segment flushed from a memtable whose keys and values are valid holds
/// its records with keys strictly ascending, each once.
pub proof fn lemma_flushed_segment_sorted(t: MemTable)
    requires
        t.wf(),
        all_valid(t.records()),
    ensures
        decode_all(split_lines(encode_segment(t.records()))) == t.records(),
        strictly_sorted(decode_all(split_lines(encode_segment(t.records())))),
{
    t.lemma_records();
    lemma_segment_keys_ascend(t.records());
}

/// A segment flushed from a memtable answers every key as the memtable did,
/// so the flush changes no answer of the store.
pub proof fn lemma_flushed_segment_answers(t: MemTable, k: Seq<u8>)
    requires
        t.wf(),
        all_valid(t.records()),
    ensures
        scan_lines(split_lines(encode_segment(t.records())), k) == Ok::<Option<Option<Seq<u8>>>, ()>(table_lookup(t@, k)),
{
    t.lemma_records();
    lemma_scan_encoded(t.records(), k);
}

/// The lines of a file from the start of line `n` on are its lines from `n` on.
proof fn lemma_lines_from(data: Seq<u8>, n: int)
    requires
        0 <= n < split_lines(data).len(),
    ensures
        0 <= line_offset(split_lines(data), n) <= data.len(),
        split_lines(data.subrange(line_offset(split_lines(data), n), data.len() as int))
            == split_lines(data).subrange(n, split_lines(data).len() as int),
    decreases n,
{
    let lines = split_lines(data);
    if n == 0 {
        assert(data.subrange(0, data.len() as int) =~= data);
        assert(lines.subrange(0, lines.len() as int) =~= lines);
    } else {
        lemma_lines_from(data, n - 1);
        let off = line_offset(lines, n - 1);
        let d = data.subrange(off, data.len() as int);
        let rest = lines.subrange(n - 1, lines.len() as int);
        assert(split_lines(d) == rest);
        assert(rest.len() >= 2);
        let p = position_of(d, NEWLINE);
        lemma_position_of(d, NEWLINE);
        if p >= d.len() {
            assert(split_lines(d).len() == 1);
        }
        assert(split_lines(d) == seq![d.subrange(0, p as int)] + split_lines(d.subrange(p as int + 1, d.len() as int)));
        assert(rest[0] == lines[n - 1]);
        assert(d.subrange(0, p as int) == lines[n - 1]);
        assert(lines[n - 1].len() == p);
        assert(line_offset(lines, n) == off + p + 1);
        assert(d.subrange(p as int + 1, d.len() as int) =~= data.subrange(line_offset(lines, n), data.len() as int));
        assert(rest.drop_first() =~= lines.subrange(n, lines.len() as int));
    }
}

/// The key of a line that reads as a record.
pub open spec fn line_key(line: Seq<u8>) -> Seq<u8> {
    match decode_line(line) {
        Some(r) => r.0,
        None => Seq::empty(),
    }
}

/// A scan passes over leading lines whose keys are below `k`.
proof fn lemma_scan_skips(lines: Seq<Seq<u8>>, k: Seq<u8>, n: int)
    requires
        0 <= n <= lines.len(),
        forall|i: int| 0 <= i < n ==> (#[trigger] decode_line(lines[i])) is Some && lex_lt(line_key(lines[i]), k),
    ensures
        scan_lines(lines, k) == scan_lines(lines.subrange(n, lines.len() as int), k),
    decreases n,
{
    if n == 0 {
        assert(lines.subrange(0, lines.len() as int) =~= lines);
    } else {
        let r = decode_line(lines[0])->0;
        assert(decode_line(lines[0]) is Some);
        lemma_lex_asymmetric(r.0, k);
        lemma_lex_irreflexive(k);
        let rest = lines.drop_first();
        assert forall|i: int| 0 <= i < n - 1 implies (#[trigger] decode_line(rest[i])) is Some && lex_lt(line_key(rest[i]), k) by {
            assert(rest[i] == lines[i + 1]);
            assert(decode_line(lines[i + 1]) is Some);
        }
        lemma_scan_skips(rest, k, n - 1);
        assert(rest.subrange(n - 1, rest.len() as int) =~= lines.subrange(n, lines.len() as int));
    }
}

/// Where `start_from` leads: `pos`, or the offset of an indexed key at most `k`.
proof fn lemma_start_from(es: Seq<(Seq<u8>, u64)>, k: Seq<u8>, pos: u64)
    ensures
        start_from(es, k, pos) == pos || exists|j: int| 0 <= j < es.len() && #[trigger] es[j].1 == start_from(es, k, pos) && !lex_lt(k, es[j].0),
    decreases es.len(),
{
    if es.len() > 0 && !lex_lt(k, es[0].0) {
        let rest = es.drop_first();
        lemma_start_from(rest, k, es[0].1);
        if start_from(rest, k, es[0].1) != es[0].1 {
            let j = choose|j: int| 0 <= j < rest.len() && #[trigger] rest[j].1 == start_from(rest, k, es[0].1) && !lex_lt(k, rest[j].0);
            assert(es[j + 1] == rest[j]);
        }
    }
}

/// A lookup that starts where a flushed segment's index points finds exactly
/// what the memtable it was written from held: the index only skips lines
/// whose keys are below the one sought.
pub proof fn lemma_indexed_scan(rs: Seq<Record>, k: Seq<u8>)
    requires
        strictly_sorted(rs),
        all_valid(rs),
        encode_segment(rs).len() <= u64::MAX,
    ensures
        ({
            let data = encode_segment(rs);
            let start = start_from(index_of_lines(split_lines(data)), k, 0) as int;
            &&& start <= data.len()
            &&& scan_lines(split_lines(data.subrange(start, data.len() as int)), k)
                == Ok::<Option<Option<Seq<u8>>>, ()>(table_lookup(crate::mem_table::table_of(rs), k))
        }),
{
    let data = encode_segment(rs);
    let lines = split_lines(data);
    let es = index_of_lines(lines);
    lemma_split_encoded(rs);
    lemma_scan_encoded(rs, k);
    assert(lines == rs.map_values(|r: Record| encode_record(r).drop_last()));
    assert forall|i: int| 0 <= i < lines.len() implies #[trigger] decode_line(lines[i]) == Some(rs[i]) by {
        assert(valid_record(rs[i]));
        lemma_entry_round_trip(rs[i]);
    }
    let start = start_from(es, k, 0);
    lemma_start_from(es, k, 0);
    if start == 0 {
        assert(data.subrange(0, data.len() as int) =~= data);
    } else {
        let j = choose|j: int| 0 <= j < es.len() && #[trigger] es[j].1 == start && !lex_lt(k, es[j].0);
        let n = 100 * j;
        assert(n < lines.len());
        lemma_lines_from(data, n);
        assert(es[j] == ((decode_line(lines[n])->0).0, line_offset(lines, n) as u64));
        assert(start as int == line_offset(lines, n));
        assert(es[j].0 == rs[n].0);
        assert forall|i: int| 0 <= i < n implies (#[trigger] decode_line(lines[i])) is Some && lex_lt(line_key(lines[i]), k) by {
            assert(lex_lt(rs[i].0, rs[n].0));
            lemma_lex_total(k, rs[n].0);
            if rs[n].0 != k {
                lemma_lex_transitive(rs[i].0, rs[n].0, k);
            }
        }
        lemma_scan_skips(lines, k, n);
    }
}

/// Skipping a segment whose bloom filter rules a key out loses nothing: a
/// filter that passes every key of the memtable the segment was written from
/// rules out only keys that memtable did not hold.
pub proof fn lemma_bloom_skip_sound(t: MemTable, f: BloomModel, k: Seq<u8>)
    requires
        forall|key: Seq<u8>| #[trigger] t@.contains_key(key) ==> passes(f, key),
        !passes(f, k),
    ensures
        table_lookup(t@, k) is None,
{
}

/// Each record of a segment's index points at its key's line: reading the
/// segment from the record's offset yields, first, the sampled line, whose key
/// is the record's key.
pub proof fn lemma_index_points_at_lines(data: Seq<u8>, j: int)
    requires
        0 <= j < index_of_lines(split_lines(data)).len(),
        data.len() <= u64::MAX,
    ensures
        ({
            let e = index_of_lines(split_lines(data))[j];
            let from = split_lines(data.subrange(e.1 as int, data.len() as int));
            &&& e.1 <= data.len()
            &&& from.len() > 0
            &&& from[0] == split_lines(data)[100 * j]
            &&& decode_line(from[0]) is Some ==> line_key(from[0]) == e.0
        }),
{
    let lines = split_lines(data);
    assert(100 * j < lines.len()) by (nonlinear_arith)
        requires 0 <= j < (lines.len() + 99) / 100;
    lemma_lines_from(data, 100 * j);
    assert(index_of_lines(lines)[j].1 as int == line_offset(lines, 100 * j));
}

} // verus!
