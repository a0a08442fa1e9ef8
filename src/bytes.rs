use vstd::prelude::*;

verus! {

/// The field separator of an on-disk record.
pub const SPACE: u8 = 0x20;

/// The record terminator of an on-disk record.
pub const NEWLINE: u8 = 0x0A;

/// Index of the first occurrence of `b` in `s`, or `s.len()` when there is none.
pub open spec fn position_of(s: Seq<u8>, b: u8) -> nat
    decreases s.len(),
{
    if s.len() == 0 {
        0
    } else if s[0] == b {
        0
    } else {
        1 + position_of(s.drop_first(), b)
    }
}

pub proof fn lemma_position_of(s: Seq<u8>, b: u8)
    ensures
        position_of(s, b) <= s.len(),
        forall|i: int| 0 <= i < position_of(s, b) ==> s[i] != b,
        position_of(s, b) < s.len() ==> s[position_of(s, b) as int] == b,
    decreases s.len(),
{
    if s.len() > 0 && s[0] != b {
        lemma_position_of(s.drop_first(), b);
        assert forall|i: int| 0 <= i < position_of(s, b) implies s[i] != b by {
            if i > 0 {
                assert(s[i] == s.drop_first()[i - 1]);
            }
        }
    }
}

/// A position that meets the characterisation of `position_of` is that position.
pub proof fn lemma_position_of_unique(s: Seq<u8>, b: u8, p: int)
    requires
        0 <= p <= s.len(),
        forall|i: int| 0 <= i < p ==> s[i] != b,
        p < s.len() ==> s[p] == b,
    ensures
        position_of(s, b) == p,
{
    lemma_position_of(s, b);
    let q = position_of(s, b) as int;
    if q < p {
        assert(s[q] == b);
    } else if p < q {
        assert(s[p] != b);
    }
}

/// `position_of` over a concatenation whose first part lacks the byte.
pub proof fn lemma_position_of_concat(a: Seq<u8>, c: Seq<u8>, b: u8)
    requires
        forall|i: int| 0 <= i < a.len() ==> a[i] != b,
    ensures
        position_of(a + c, b) == a.len() + position_of(c, b),
{
    lemma_position_of(c, b);
    let p = a.len() + position_of(c, b);
    let s = a + c;
    assert forall|i: int| 0 <= i < p implies s[i] != b by {
        if i >= a.len() {
            assert(s[i] == c[i - a.len()]);
        }
    }
    if p < s.len() {
        assert(s[p as int] == c[position_of(c, b) as int]);
    }
    lemma_position_of_unique(s, b, p as int);
}

/// Strict lexicographic order on byte strings, as `[u8]`'s `Ord` orders them.
pub open spec fn lex_lt(a: Seq<u8>, b: Seq<u8>) -> bool
    decreases a.len(),
{
    if a.len() == 0 {
        b.len() > 0
    } else if b.len() == 0 {
        false
    } else if a[0] != b[0] {
        a[0] < b[0]
    } else {
        lex_lt(a.drop_first(), b.drop_first())
    }
}

pub proof fn lemma_lex_irreflexive(a: Seq<u8>)
    ensures
        !lex_lt(a, a),
    decreases a.len(),
{
    if a.len() > 0 {
        lemma_lex_irreflexive(a.drop_first());
    }
}

pub proof fn lemma_lex_asymmetric(a: Seq<u8>, b: Seq<u8>)
    requires
        lex_lt(a, b),
    ensures
        !lex_lt(b, a),
    decreases a.len(),
{
    if a.len() > 0 && b.len() > 0 && a[0] == b[0] {
        lemma_lex_asymmetric(a.drop_first(), b.drop_first());
    }
}

pub proof fn lemma_lex_total(a: Seq<u8>, b: Seq<u8>)
    ensures
        lex_lt(a, b) || lex_lt(b, a) || a == b,
    decreases a.len(),
{
    if a.len() > 0 && b.len() > 0 && a[0] == b[0] {
        lemma_lex_total(a.drop_first(), b.drop_first());
        if a.drop_first() == b.drop_first() {
            assert(a =~= seq![a[0]] + a.drop_first());
            assert(b =~= seq![b[0]] + b.drop_first());
        }
    }
}

pub proof fn lemma_lex_transitive(a: Seq<u8>, b: Seq<u8>, c: Seq<u8>)
    requires
        lex_lt(a, b),
        lex_lt(b, c),
    ensures
        lex_lt(a, c),
    decreases a.len(),
{
    if a.len() > 0 && b.len() > 0 && c.len() > 0 && a[0] == b[0] && b[0] == c[0] {
        lemma_lex_transitive(a.drop_first(), b.drop_first(), c.drop_first());
    }
}

/// Three-way comparison of two byte strings in lexicographic order:
/// -1 when `a` sorts first, 0 when they are equal, 1 when `b` sorts first.
pub fn compare_bytes(a: &[u8], b: &[u8]) -> (r: i8)
    ensures
        r == -1 <==> lex_lt(a@, b@),
        r == 0 <==> a@ == b@,
        r == 1 <==> lex_lt(b@, a@),
{
    let mut i: usize = 0;
    assert(a@.subrange(0, a@.len() as int) =~= a@);
    assert(b@.subrange(0, b@.len() as int) =~= b@);
    while i < a.len() && i < b.len()
        invariant
            i <= a@.len(),
            i <= b@.len(),
            a@.subrange(0, i as int) == b@.subrange(0, i as int),
            lex_lt(a@, b@) == lex_lt(a@.subrange(i as int, a@.len() as int), b@.subrange(i as int, b@.len() as int)),
            lex_lt(b@, a@) == lex_lt(b@.subrange(i as int, b@.len() as int), a@.subrange(i as int, a@.len() as int)),
        decreases a@.len() - i,
    {
        let x = a[i];
        let y = b[i];
        let ghost ra = a@.subrange(i as int, a@.len() as int);
        let ghost rb = b@.subrange(i as int, b@.len() as int);
        if x < y {
            assert(lex_lt(ra, rb));
            proof { lemma_lex_asymmetric(ra, rb); }
            assert(a@[i as int] != b@[i as int]);
            return -1;
        } else if y < x {
            assert(lex_lt(rb, ra));
            proof { lemma_lex_asymmetric(rb, ra); }
            assert(a@[i as int] != b@[i as int]);
            return 1;
        }
        assert(ra.drop_first() =~= a@.subrange(i + 1, a@.len() as int));
        assert(rb.drop_first() =~= b@.subrange(i + 1, b@.len() as int));
        assert(a@.subrange(0, i + 1) =~= a@.subrange(0, i as int).push(x));
        assert(b@.subrange(0, i + 1) =~= b@.subrange(0, i as int).push(y));
        i = i + 1;
    }
    let ghost ra = a@.subrange(i as int, a@.len() as int);
    let ghost rb = b@.subrange(i as int, b@.len() as int);
    if a.len() == b.len() {
        assert(a@ =~= a@.subrange(0, i as int));
        assert(b@ =~= b@.subrange(0, i as int));
        proof { lemma_lex_irreflexive(a@); }
        0
    } else if a.len() < b.len() {
        assert(ra.len() == 0);
        assert(a@.len() != b@.len());
        -1
    } else {
        assert(rb.len() == 0);
        assert(a@.len() != b@.len());
        1
    }
}

/// Whether `s` holds no byte `b`.
pub open spec fn lacks(s: Seq<u8>, b: u8) -> bool {
    forall|i: int| 0 <= i < s.len() ==> s[i] != b
}

/// Finds the first `b` in `s` at or after `from`; `s.len()` when there is none.
pub fn find_byte(s: &[u8], from: usize, b: u8) -> (r: usize)
    requires
        from <= s@.len(),
    ensures
        r == from + position_of(s@.subrange(from as int, s@.len() as int), b),
        from <= r <= s@.len(),
{
    let mut i = from;
    while i < s.len() && s[i] != b
        invariant
            from <= i <= s@.len(),
            forall|j: int| from <= j < i ==> s@[j] != b,
        decreases s@.len() - i,
    {
        i = i + 1;
    }
    let ghost t = s@.subrange(from as int, s@.len() as int);
    proof {
        assert forall|j: int| 0 <= j < i - from implies t[j] != b by {
            assert(t[j] == s@[from + j]);
        }
        if i < s@.len() {
            assert(t[i - from] == s@[i as int]);
        }
        lemma_position_of_unique(t, b, i - from);
    }
    i
}

/// Copies `s[from..to]` into a new vector.
pub fn copy_range(s: &[u8], from: usize, to: usize) -> (r: Vec<u8>)
    requires
        from <= to <= s@.len(),
    ensures
        r@ == s@.subrange(from as int, to as int),
{
    let mut r: Vec<u8> = Vec::with_capacity(to - from);
    let mut i = from;
    while i < to
        invariant
            from <= i <= to <= s@.len(),
            r@ == s@.subrange(from as int, i as int),
        decreases to - i,
    {
        r.push(s[i]);
        assert(r@ =~= s@.subrange(from as int, i + 1));
        i = i + 1;
    }
    r
}

/// Appends all of `s` to `out`.
pub fn append_bytes(out: &mut Vec<u8>, s: &[u8])
    ensures
        final(out)@ == old(out)@ + s@,
{
    let mut i: usize = 0;
    while i < s.len()
        invariant
            i <= s@.len(),
            out@ == old(out)@ + s@.subrange(0, i as int),
        decreases s@.len() - i,
    {
        out.push(s[i]);
        assert(s@.subrange(0, i + 1) =~= s@.subrange(0, i as int).push(s@[i as int]));
        i = i + 1;
    }
    assert(s@.subrange(0, s@.len() as int) =~= s@);
}

/// The eight little-endian bytes of `x`.
pub open spec fn le_bytes(x: u64) -> Seq<u8> {
    seq![
        x as u8,
        (x >> 8u64) as u8,
        (x >> 16u64) as u8,
        (x >> 24u64) as u8,
        (x >> 32u64) as u8,
        (x >> 40u64) as u8,
        (x >> 48u64) as u8,
        (x >> 56u64) as u8,
    ]
}

/// The integer whose little-endian bytes are `s[at..at + 8]`.
pub open spec fn from_le(s: Seq<u8>, at: int) -> u64 {
    (s[at] as u64) | ((s[at + 1] as u64) << 8u64) | ((s[at + 2] as u64) << 16u64) | ((s[at + 3] as u64)
        << 24u64) | ((s[at + 4] as u64) << 32u64) | ((s[at + 5] as u64) << 40u64) | ((s[at + 6] as u64)
        << 48u64) | ((s[at + 7] as u64) << 56u64)
}

pub proof fn lemma_le_round_trip(x: u64, s: Seq<u8>, at: int)
    requires
        0 <= at,
        at + 8 <= s.len(),
        s.subrange(at, at + 8) == le_bytes(x),
    ensures
        from_le(s, at) == x,
{
    assert(s[at] == le_bytes(x)[0]);
    assert(s[at + 1] == le_bytes(x)[1]);
    assert(s[at + 2] == le_bytes(x)[2]);
    assert(s[at + 3] == le_bytes(x)[3]);
    assert(s[at + 4] == le_bytes(x)[4]);
    assert(s[at + 5] == le_bytes(x)[5]);
    assert(s[at + 6] == le_bytes(x)[6]);
    assert(s[at + 7] == le_bytes(x)[7]);
    assert(((x as u8) as u64) | ((((x >> 8u64) as u8) as u64) << 8u64) | ((((x >> 16u64) as u8) as u64)
        << 16u64) | ((((x >> 24u64) as u8) as u64) << 24u64) | ((((x >> 32u64) as u8) as u64) << 32u64)
        | ((((x >> 40u64) as u8) as u64) << 40u64) | ((((x >> 48u64) as u8) as u64) << 48u64) | ((((x
        >> 56u64) as u8) as u64) << 56u64) == x) by (bit_vector);
}

/// Appends the little-endian bytes of `x` to `out`.
pub fn push_le(out: &mut Vec<u8>, x: u64)
    ensures
        final(out)@ == old(out)@ + le_bytes(x),
{
    out.push(x as u8);
    out.push((x >> 8u64) as u8);
    out.push((x >> 16u64) as u8);
    out.push((x >> 24u64) as u8);
    out.push((x >> 32u64) as u8);
    out.push((x >> 40u64) as u8);
    out.push((x >> 48u64) as u8);
    out.push((x >> 56u64) as u8);
    assert(out@ =~= old(out)@ + le_bytes(x));
}

/// Reads the little-endian integer in `s[at..at + 8]`.
pub fn read_le(s: &[u8], at: usize) -> (r: u64)
    requires
        at + 8 <= s@.len(),
    ensures
        r == from_le(s@, at as int),
{
    (s[at] as u64) | ((s[at + 1] as u64) << 8u64) | ((s[at + 2] as u64) << 16u64) | ((s[at + 3] as u64)
        << 24u64) | ((s[at + 4] as u64) << 32u64) | ((s[at + 5] as u64) << 40u64) | ((s[at + 6] as u64)
        << 48u64) | ((s[at + 7] as u64) << 56u64)
}

} // verus!
