use vstd::prelude::*;
use crate::bytes::{append_bytes, copy_range, find_byte, lemma_position_of_concat, position_of};

verus! {

/// `.`, which parts a file's stem from its extension.
pub const DOT: u8 = 0x2E;

/// `segment_`, the stem's prefix.
pub open spec fn name_prefix() -> Seq<u8> {
    seq![115u8, 101u8, 103u8, 109u8, 101u8, 110u8, 116u8, 95u8]
}

/// The decimal digits of `n`, most significant first, with no leading zero.
pub open spec fn decimal(n: nat) -> Seq<u8>
    decreases n,
{
    if n < 10 {
        seq![(48 + n) as u8]
    } else {
        decimal(n / 10).push((48 + n % 10) as u8)
    }
}

pub open spec fn is_digit(b: u8) -> bool {
    48 <= b <= 57
}

/// The number that a string of decimal digits writes.
pub open spec fn digits_value(s: Seq<u8>) -> nat
    decreases s.len(),
{
    if s.len() == 0 {
        0
    } else {
        digits_value(s.drop_last()) * 10 + (s.last() - 48) as nat
    }
}

/// A canonical decimal numeral: digits only, no leading zero but for `0` itself.
pub open spec fn is_numeral(s: Seq<u8>) -> bool {
    &&& s.len() > 0
    &&& forall|i: int| 0 <= i < s.len() ==> is_digit(#[trigger] s[i])
    &&& (s.len() == 1 || s[0] != 48)
}

/// The file name `segment_<n>.<ext>`.
pub open spec fn segment_name(n: nat, ext: Seq<u8>) -> Seq<u8> {
    name_prefix() + decimal(n) + seq![DOT] + ext
}

/// Reads `segment_<n>.<ext>`: the number, written canonically and fitting a
/// `usize`, and the extension (all that follows the first dot).
pub open spec fn parse_name(name: Seq<u8>) -> Option<(nat, Seq<u8>)> {
    if name.len() < 8 || name.subrange(0, 8) != name_prefix() {
        None
    } else {
        let rest = name.subrange(8, name.len() as int);
        let d = position_of(rest, DOT);
        let digits = rest.subrange(0, d as int);
        if d == rest.len() || !is_numeral(digits) || digits_value(digits) > usize::MAX {
            None
        } else {
            Some((digits_value(digits), rest.subrange(d as int + 1, rest.len() as int)))
        }
    }
}

proof fn lemma_decimal(n: nat)
    ensures
        is_numeral(decimal(n)),
        digits_value(decimal(n)) == n,
        decimal(n).len() >= 1,
        decimal(n).len() == 1 <==> n < 10,
        forall|i: int| 0 <= i < decimal(n).len() ==> #[trigger] decimal(n)[i] != DOT,
    decreases n,
{
    if n >= 10 {
        lemma_decimal(n / 10);
        let d = decimal(n);
        assert(d.drop_last() =~= decimal(n / 10));
        assert(d.last() == (48 + n % 10) as u8);
        assert((n / 10) * 10 + n % 10 == n) by (nonlinear_arith);
        assert(digits_value(d) == digits_value(decimal(n / 10)) * 10 + (n % 10));
        assert(d[0] == decimal(n / 10)[0]);
        assert forall|i: int| 0 <= i < d.len() implies is_digit(#[trigger] d[i]) by {
            if i < d.len() - 1 {
                assert(d[i] == decimal(n / 10)[i]);
            }
        }
        assert forall|i: int| 0 <= i < d.len() implies #[trigger] d[i] != DOT by {
            if i < d.len() - 1 {
                assert(d[i] == decimal(n / 10)[i]);
            }
        }
        if decimal(n / 10).len() == 1 {
            assert(n / 10 >= 1);
        }
    } else {
        let d = decimal(n);
        assert(d.drop_last() =~= Seq::<u8>::empty());
        assert(digits_value(d.drop_last()) == 0);
        assert(d.last() == (48 + n) as u8);
    }
}

/// Names written by `segment_file_name` read back as the number and extension.
pub proof fn lemma_name_round_trip(n: nat, ext: Seq<u8>)
    requires
        n <= usize::MAX,
    ensures
        parse_name(segment_name(n, ext)) == Some((n, ext)),
{
    lemma_decimal(n);
    let name = segment_name(n, ext);
    assert(name.subrange(0, 8) =~= name_prefix());
    let rest = name.subrange(8, name.len() as int);
    assert(rest =~= decimal(n) + (seq![DOT] + ext));
    lemma_position_of_concat(decimal(n), seq![DOT] + ext, DOT);
    assert(position_of(seq![DOT] + ext, DOT) == 0);
    assert(rest.subrange(0, decimal(n).len() as int) =~= decimal(n));
    assert(rest.subrange(decimal(n).len() as int + 1, rest.len() as int) =~= ext);
}

/// Writes the decimal digits of `n`.
fn push_decimal(out: &mut Vec<u8>, n: usize)
    ensures
        final(out)@ == old(out)@ + decimal(n as nat),
    decreases n,
{
    if n < 10 {
        out.push((48 + n) as u8);
    } else {
        push_decimal(out, n / 10);
        out.push((48 + n % 10) as u8);
    }
}

/// The name `segment_<number>.<ext>`.
pub fn segment_file_name(number: usize, ext: &[u8]) -> (r: Vec<u8>)
    ensures
        r@ == segment_name(number as nat, ext@),
{
    let mut out: Vec<u8> = vec![115u8, 101u8, 103u8, 109u8, 101u8, 110u8, 116u8, 95u8];
    assert(out@ =~= name_prefix());
    push_decimal(&mut out, number);
    out.push(DOT);
    append_bytes(&mut out, ext);
    out
}

/// Reads the number and extension of `segment_<n>.<ext>`.
pub fn parse_file_name(name: &[u8]) -> (r: Option<(usize, Vec<u8>)>)
    ensures
        match r {
            Some((n, ext)) => parse_name(name@) == Some((n as nat, ext@)),
            None => parse_name(name@) is None,
        },
{
    if name.len() < 8 {
        return None;
    }
    let mut i: usize = 0;
    while i < 8
        invariant
            i <= 8 <= name@.len(),
            name@.subrange(0, i as int) == name_prefix().subrange(0, i as int),
        decreases 8 - i,
    {
        let expected: u8 = if i == 0 { 115u8 } else if i == 1 { 101u8 } else if i == 2 { 103u8 } else if i == 3 {
            109u8
        } else if i == 4 { 101u8 } else if i == 5 { 110u8 } else if i == 6 { 116u8 } else { 95u8 };
        assert(expected == name_prefix()[i as int]);
        if name[i] != expected {
            assert(name@.subrange(0, 8)[i as int] != name_prefix()[i as int]);
            return None;
        }
        assert(name@.subrange(0, i + 1) =~= name_prefix().subrange(0, i + 1));
        i = i + 1;
    }
    assert(name_prefix().subrange(0, 8) =~= name_prefix());
    let ghost rest = name@.subrange(8, name@.len() as int);
    let dot = find_byte(name, 8, DOT);
    if dot == name.len() || dot == 8 {
        return None;
    }
    let ghost digits = rest.subrange(0, dot - 8);
    assert(digits =~= name@.subrange(8, dot as int));
    assert(position_of(rest, DOT) == dot - 8);
    assert(name@.subrange(0, 8) == name_prefix());
    if dot > 9 && name[8] == 48u8 {
        return None;
    }
    let mut value: usize = 0;
    let mut j: usize = 8;
    while j < dot
        invariant
            8 <= j <= dot < name@.len(),
            digits == name@.subrange(8, dot as int),
            rest == name@.subrange(8, name@.len() as int),
            digits == rest.subrange(0, dot - 8),
            position_of(rest, DOT) == dot - 8,
            name@.subrange(0, 8) == name_prefix(),
            forall|k: int| 8 <= k < j ==> is_digit(#[trigger] name@[k]),
            value == digits_value(name@.subrange(8, j as int)),
        decreases dot - j,
    {
        let b = name[j];
        assert(name@.subrange(8, j + 1).drop_last() =~= name@.subrange(8, j as int));
        if b < 48u8 || b > 57u8 {
            assert(!is_digit(digits[j - 8]));
            assert(!is_numeral(digits));
            return None;
        }
        let digit = (b - 48) as usize;
        if value > (usize::MAX - digit) / 10 {
            proof {
                lemma_digits_value_prefix(digits, j - 8 + 1);
                assert(digits.subrange(0, j - 8 + 1) =~= name@.subrange(8, j + 1));
                assert(value * 10 + digit > usize::MAX) by (nonlinear_arith)
                    requires value > (usize::MAX - digit) / 10, digit <= 9;
            }
            return None;
        }
        value = value * 10 + digit;
        j = j + 1;
    }
    assert(name@.subrange(8, j as int) =~= digits);
    let ext = copy_range(name, dot + 1, name.len());
    assert(ext@ =~= rest.subrange(dot - 8 + 1, rest.len() as int));
    Some((value, ext))
}

/// A numeral's value is at least that of any prefix of it.
proof fn lemma_digits_value_prefix(s: Seq<u8>, n: int)
    requires
        0 <= n <= s.len(),
    ensures
        digits_value(s) >= digits_value(s.subrange(0, n)),
    decreases s.len(),
{
    if n < s.len() {
        assert(s.drop_last() =~= s.subrange(0, s.len() - 1));
        lemma_digits_value_prefix(s.drop_last(), n);
        assert(s.drop_last().subrange(0, n) =~= s.subrange(0, n));
    } else {
        assert(s.subrange(0, n) =~= s);
    }
}

} // verus!
