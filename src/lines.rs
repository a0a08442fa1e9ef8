use vstd::prelude::*;
use crate::bytes::{copy_range, find_byte, lacks, lemma_position_of, lemma_position_of_concat, position_of, NEWLINE, SPACE};
use crate::entry::{decode_line, encode_record, lemma_entry_round_trip, valid_record, Entry, Record};

verus! {

/// The lines of a line-delimited file: the pieces before each LF, and a last
/// piece after the final LF when it is not empty.
pub open spec fn split_lines(b: Seq<u8>) -> Seq<Seq<u8>>
    decreases b.len(),
{
    if b.len() == 0 {
        Seq::empty()
    } else {
        let p = position_of(b, NEWLINE);
        if p < b.len() {
            seq![b.subrange(0, p as int)] + split_lines(b.subrange(p as int + 1, b.len() as int))
        } else {
            seq![b]
        }
    }
}

/// The records in a line-delimited file's lines, malformed lines left out.
pub open spec fn decode_all(lines: Seq<Seq<u8>>) -> Seq<Record>
    decreases lines.len(),
{
    if lines.len() == 0 {
        Seq::empty()
    } else {
        let first = match decode_line(lines[0]) {
            Some(r) => seq![r],
            None => Seq::empty(),
        };
        first + decode_all(lines.drop_first())
    }
}

/// The bytes of a sequence of records written one after another.
pub open spec fn encode_all(rs: Seq<Record>) -> Seq<u8>
    decreases rs.len(),
{
    if rs.len() == 0 {
        Seq::empty()
    } else {
        encode_record(rs[0]) + encode_all(rs.drop_first())
    }
}

/// The table that results from writing the records in order over `m`, a later
/// write to a key replacing an earlier one.
pub open spec fn apply_records(m: Map<Seq<u8>, Option<Seq<u8>>>, rs: Seq<Record>) -> Map<Seq<u8>, Option<Seq<u8>>>
    decreases rs.len(),
{
    if rs.len() == 0 {
        m
    } else {
        apply_records(m.insert(rs[0].0, rs[0].1), rs.drop_first())
    }
}

pub open spec fn all_valid(rs: Seq<Record>) -> bool {
    forall|i: int| 0 <= i < rs.len() ==> valid_record(#[trigger] rs[i])
}

/// Writing one more record writes it over the table the others make.
pub proof fn lemma_apply_records_push(m: Map<Seq<u8>, Option<Seq<u8>>>, rs: Seq<Record>, r: Record)
    ensures
        apply_records(m, rs.push(r)) == apply_records(m, rs).insert(r.0, r.1),
    decreases rs.len(),
{
    if rs.len() == 0 {
        assert(rs.push(r).drop_first() =~= Seq::<Record>::empty());
        assert(rs.push(r)[0] == r);
        assert(apply_records(m.insert(r.0, r.1), Seq::<Record>::empty()) == m.insert(r.0, r.1));
        assert(apply_records(m, rs) == m);
    } else {
        lemma_apply_records_push(m.insert(rs[0].0, rs[0].1), rs.drop_first(), r);
        assert(rs.push(r).drop_first() =~= rs.drop_first().push(r));
        assert(rs.push(r)[0] == rs[0]);
    }
}

/// Appending one record appends its bytes.
pub proof fn lemma_encode_all_push(rs: Seq<Record>, r: Record)
    ensures
        encode_all(rs.push(r)) == encode_all(rs) + encode_record(r),
    decreases rs.len(),
{
    if rs.len() == 0 {
        assert(rs.push(r).drop_first() =~= Seq::<Record>::empty());
        assert(encode_all(Seq::<Record>::empty()) =~= Seq::<u8>::empty());
        assert(encode_all(rs.push(r)) =~= encode_record(r));
        assert(encode_all(rs) + encode_record(r) =~= encode_record(r));
    } else {
        lemma_encode_all_push(rs.drop_first(), r);
        assert(rs.push(r).drop_first() =~= rs.drop_first().push(r));
        assert(encode_all(rs.push(r)) =~= encode_all(rs) + encode_record(r));
    }
}

/// The encoding of a valid record is a line without LF, then LF.
pub proof fn lemma_encoded_line(r: Record)
    requires
        valid_record(r),
    ensures
        encode_record(r).len() > 0,
        encode_record(r).last() == NEWLINE,
        lacks(encode_record(r).drop_last(), NEWLINE),
        encode_record(r) == encode_record(r).drop_last().push(NEWLINE),
{
    let e = encode_record(r);
    assert(e =~= e.drop_last().push(NEWLINE));
    match r.1 {
        Some(v) => {
            assert(e.drop_last() =~= r.0 + seq![SPACE] + v);
            assert forall|i: int| 0 <= i < e.drop_last().len() implies e.drop_last()[i] != NEWLINE by {
                if i < r.0.len() {
                    assert(e.drop_last()[i] == r.0[i]);
                } else if i > r.0.len() {
                    assert(e.drop_last()[i] == v[i - r.0.len() - 1]);
                }
            }
        },
        None => {
            assert(e.drop_last() =~= r.0);
        },
    }
}

/// The lines of a written sequence of valid records are the records' lines.
pub proof fn lemma_split_encoded(rs: Seq<Record>)
    requires
        all_valid(rs),
    ensures
        split_lines(encode_all(rs)) == rs.map_values(|r: Record| encode_record(r).drop_last()),
    decreases rs.len(),
{
    if rs.len() == 0 {
        assert(split_lines(encode_all(rs)) =~= rs.map_values(|r: Record| encode_record(r).drop_last()));
    } else {
        let r = rs[0];
        let rest = rs.drop_first();
        assert(valid_record(rs[0]));
        assert forall|i: int| 0 <= i < rest.len() implies valid_record(#[trigger] rest[i]) by {
            assert(rest[i] == rs[i + 1]);
        }
        lemma_split_encoded(rest);
        lemma_encoded_line(r);
        let line = encode_record(r).drop_last();
        let b = encode_all(rs);
        let tail = encode_all(rest);
        assert(b =~= line + (seq![NEWLINE] + tail));
        lemma_position_of_concat(line, seq![NEWLINE] + tail, NEWLINE);
        assert(position_of(seq![NEWLINE] + tail, NEWLINE) == 0);
        assert(b.subrange(0, line.len() as int) =~= line);
        assert(b.subrange(line.len() as int + 1, b.len() as int) =~= tail);
        assert(split_lines(b) =~= seq![line] + split_lines(tail));
        assert(rs.map_values(|r: Record| encode_record(r).drop_last()) =~= seq![line]
            + rest.map_values(|r: Record| encode_record(r).drop_last()));
    }
}

/// Reading back the lines of a written sequence of valid records gives the records.
pub proof fn lemma_decode_encoded(rs: Seq<Record>)
    requires
        all_valid(rs),
    ensures
        decode_all(split_lines(encode_all(rs))) == rs,
    decreases rs.len(),
{
    lemma_split_encoded(rs);
    let lines = rs.map_values(|r: Record| encode_record(r).drop_last());
    if rs.len() == 0 {
        assert(decode_all(lines) =~= rs);
    } else {
        let rest = rs.drop_first();
        assert forall|i: int| 0 <= i < rest.len() implies valid_record(#[trigger] rest[i]) by {
            assert(rest[i] == rs[i + 1]);
        }
        lemma_decode_encoded(rest);
        lemma_split_encoded(rest);
        assert(valid_record(rs[0]));
        lemma_entry_round_trip(rs[0]);
        assert(lines.drop_first() =~= rest.map_values(|r: Record| encode_record(r).drop_last()));
        assert(decode_all(lines) =~= seq![rs[0]] + rest);
        assert(rs =~= seq![rs[0]] + rest);
    }
}

/// One step of `split_lines` at position `i` of `b`, where the next LF is at `p`.
pub proof fn lemma_split_step(b: Seq<u8>, i: int, p: int)
    requires
        0 <= i < b.len(),
        p == i + position_of(b.subrange(i, b.len() as int), NEWLINE),
    ensures
        p < b.len() ==> split_lines(b.subrange(i, b.len() as int)) == seq![b.subrange(i, p)]
            + split_lines(b.subrange(p + 1, b.len() as int)),
        p >= b.len() ==> split_lines(b.subrange(i, b.len() as int)) == seq![b.subrange(i, b.len() as int)],
{
    let s = b.subrange(i, b.len() as int);
    lemma_position_of(s, NEWLINE);
    if p < b.len() {
        assert(s.subrange(0, p - i) =~= b.subrange(i, p));
        assert(s.subrange(p - i + 1, s.len() as int) =~= b.subrange(p + 1, b.len() as int));
    }
}

/// Reads the records of a log, skipping lines that do not parse.
pub fn read_entries(log: &[u8]) -> (r: Vec<Entry>)
    ensures
        r@.map_values(|e: Entry| e@) == decode_all(split_lines(log@)),
{
    let mut out: Vec<Entry> = Vec::new();
    let mut i: usize = 0;
    assert(log@.subrange(0, log@.len() as int) =~= log@);
    while i < log.len()
        invariant
            i <= log@.len(),
            decode_all(split_lines(log@)) == out@.map_values(|e: Entry| e@)
                + decode_all(split_lines(log@.subrange(i as int, log@.len() as int))),
        decreases log@.len() - i,
    {
        let p = find_byte(log, i, NEWLINE);
        let line = copy_range(log, i, p);
        proof { lemma_split_step(log@, i as int, p as int); }
        let ghost lines = split_lines(log@.subrange(i as int, log@.len() as int));
        let ghost before = out@.map_values(|e: Entry| e@);
        let decoded = Entry::decode(line.as_slice());
        let ghost one: Seq<Record> = match decode_line(line@) {
            Some(r) => seq![r],
            None => Seq::empty(),
        };
        assert(decode_all(lines) == one + decode_all(lines.drop_first()));
        match decoded {
            Some(e) => {
                out.push(e);
                assert(out@.map_values(|e: Entry| e@) =~= before + one);
            },
            None => {
                assert(one =~= Seq::<Record>::empty());
                assert(out@.map_values(|e: Entry| e@) =~= before + one);
            },
        }
        if p < log.len() {
            assert(lines.drop_first() =~= split_lines(log@.subrange(p + 1, log@.len() as int)));
            i = p + 1;
        } else {
            assert(lines.drop_first() =~= Seq::<Seq<u8>>::empty());
            i = log.len();
            assert(split_lines(log@.subrange(i as int, log@.len() as int)) =~= Seq::<Seq<u8>>::empty());
        }
        assert(decode_all(split_lines(log@)) =~= out@.map_values(|e: Entry| e@)
            + decode_all(split_lines(log@.subrange(i as int, log@.len() as int))));
    }
    assert(split_lines(log@.subrange(i as int, log@.len() as int)) =~= Seq::<Seq<u8>>::empty());
    assert(out@.map_values(|e: Entry| e@) =~= decode_all(split_lines(log@)));
    out
}

} // verus!
