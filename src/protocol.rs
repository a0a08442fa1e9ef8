use vstd::prelude::*;
use crate::bytes::{append_bytes, lemma_position_of, position_of, SPACE};
use crate::error::{Error, ErrorKind};

verus! {

/// The text that `{:?}` formats a byte slice as.
pub uninterp spec fn debug_text(b: Seq<u8>) -> Seq<char>;

/// Relies on std's `Debug` for `[u8]`, through `format!`: the text depends on the bytes alone.
#[verifier::external_body]
fn debug_bytes(b: &[u8]) -> (r: String)
    ensures
        r@ == debug_text(b@),
{
    format!("{:?}", b)
}

/// ASCII whitespace, as `u8::is_ascii_whitespace` and `trim_ascii` see it.
pub open spec fn is_ascii_space(b: u8) -> bool {
    b == 9 || b == 10 || b == 12 || b == 13 || b == 32
}

pub open spec fn trim_start(s: Seq<u8>) -> Seq<u8>
    decreases s.len(),
{
    if s.len() > 0 && is_ascii_space(s[0]) {
        trim_start(s.drop_first())
    } else {
        s
    }
}

pub open spec fn trim_end(s: Seq<u8>) -> Seq<u8>
    decreases s.len(),
{
    if s.len() > 0 && is_ascii_space(s.last()) {
        trim_end(s.drop_last())
    } else {
        s
    }
}

/// `s` without leading and trailing ASCII whitespace.
pub open spec fn trim(s: Seq<u8>) -> Seq<u8> {
    trim_end(trim_start(s))
}

pub open spec fn to_lower(b: u8) -> u8 {
    if 65 <= b <= 90 {
        (b + 32) as u8
    } else {
        b
    }
}

/// Equal but for the case of ASCII letters.
pub open spec fn same_ignoring_case(a: Seq<u8>, b: Seq<u8>) -> bool {
    a.len() == b.len() && forall|i: int| 0 <= i < a.len() ==> to_lower(#[trigger] a[i]) == to_lower(b[i])
}

pub open spec fn get_word() -> Seq<u8> {
    seq![103u8, 101u8, 116u8]
}

pub open spec fn set_word() -> Seq<u8> {
    seq![115u8, 101u8, 116u8]
}

pub open spec fn delete_word() -> Seq<u8> {
    seq![100u8, 101u8, 108u8, 101u8, 116u8, 101u8]
}

/// A request as its bytes say it.
pub enum Request {
    Get(Seq<u8>),
    Put(Seq<u8>, Seq<u8>),
    Delete(Seq<u8>),
}

/// Reads a request line: trimmed of ASCII whitespace, split at the first two
/// spaces into a command word (matched ignoring case), a key and a value. The
/// error is the message that explains the refusal.
pub open spec fn parse_request(b: Seq<u8>) -> Result<Request, Seq<char>> {
    let t = trim(b);
    let p = position_of(t, SPACE);
    let word = t.subrange(0, p as int);
    let rest = t.subrange(p as int + 1, t.len() as int);
    let q = position_of(rest, SPACE);
    let key = rest.subrange(0, q as int);
    let value = rest.subrange(q as int + 1, rest.len() as int);
    let has_key = p < t.len();
    let has_value = has_key && q < rest.len();
    if same_ignoring_case(word, get_word()) {
        if has_key {
            Ok(Request::Get(key))
        } else {
            Err("Missing key for GET command"@)
        }
    } else if same_ignoring_case(word, set_word()) {
        if !has_key {
            Err("Missing key for SET command"@)
        } else if !has_value {
            Err("Missing value for SET command"@)
        } else {
            Ok(Request::Put(key, value))
        }
    } else if same_ignoring_case(word, delete_word()) {
        if has_key {
            Ok(Request::Delete(key))
        } else {
            Err("Missing key for DELETE command"@)
        }
    } else {
        Err("Unknown command: "@ + debug_text(word))
    }
}

/// The bytes of a request: `get <key>`, `set <key> <value>` or `delete <key>`.
pub open spec fn encode_request(r: Request) -> Seq<u8> {
    match r {
        Request::Get(k) => get_word() + seq![SPACE] + k,
        Request::Put(k, v) => set_word() + seq![SPACE] + k + seq![SPACE] + v,
        Request::Delete(k) => delete_word() + seq![SPACE] + k,
    }
}

/// A command that a client sends to the server.
#[derive(Debug)]
pub enum Command<'a> {
    Get { key: &'a [u8] },
    Put { key: &'a [u8], value: &'a [u8] },
    Delete { key: &'a [u8] },
}

impl<'a> View for Command<'a> {
    type V = Request;

    open spec fn view(&self) -> Request {
        match self {
            Command::Get { key } => Request::Get(key@),
            Command::Put { key, value } => Request::Put(key@, value@),
            Command::Delete { key } => Request::Delete(key@),
        }
    }
}

fn lower(b: u8) -> (r: u8)
    ensures
        r == to_lower(b),
{
    if 65 <= b && b <= 90 {
        b + 32
    } else {
        b
    }
}

/// Whether `s[from..to]` equals `word` but for the case of ASCII letters.
fn matches_word(s: &[u8], from: usize, to: usize, word: &[u8]) -> (r: bool)
    requires
        from <= to <= s@.len(),
    ensures
        r == same_ignoring_case(s@.subrange(from as int, to as int), word@),
{
    let ghost sub = s@.subrange(from as int, to as int);
    if to - from != word.len() {
        return false;
    }
    let mut i: usize = 0;
    while i < word.len()
        invariant
            from <= to <= s@.len(),
            to - from == word@.len(),
            sub == s@.subrange(from as int, to as int),
            i <= word@.len(),
            forall|j: int| 0 <= j < i ==> to_lower(#[trigger] sub[j]) == to_lower(word@[j]),
        decreases word@.len() - i,
    {
        if lower(s[from + i]) != lower(word[i]) {
            assert(sub[i as int] == s@[from + i]);
            return false;
        }
        assert(sub[i as int] == s@[from + i]);
        i = i + 1;
    }
    true
}

/// The bounds of `s` trimmed of ASCII whitespace.
pub(crate) fn trim_bounds(s: &[u8]) -> (r: (usize, usize))
    ensures
        r.0 <= r.1 <= s@.len(),
        s@.subrange(r.0 as int, r.1 as int) == trim(s@),
{
    let mut i: usize = 0;
    assert(s@.subrange(0, s@.len() as int) =~= s@);
    while i < s.len() && (s[i] == 9 || s[i] == 10 || s[i] == 12 || s[i] == 13 || s[i] == 32)
        invariant
            i <= s@.len(),
            trim_start(s@) == trim_start(s@.subrange(i as int, s@.len() as int)),
        decreases s@.len() - i,
    {
        assert(s@.subrange(i as int, s@.len() as int).drop_first() =~= s@.subrange(i + 1, s@.len() as int));
        i = i + 1;
    }
    let ghost t = s@.subrange(i as int, s@.len() as int);
    assert(trim_start(t) == t);
    let mut j: usize = s.len();
    while j > i && (s[j - 1] == 9 || s[j - 1] == 10 || s[j - 1] == 12 || s[j - 1] == 13 || s[j - 1] == 32)
        invariant
            i <= j <= s@.len(),
            trim_end(t) == trim_end(s@.subrange(i as int, j as int)),
            t == s@.subrange(i as int, s@.len() as int),
        decreases j,
    {
        assert(s@.subrange(i as int, j as int).drop_last() =~= s@.subrange(i as int, j - 1));
        j = j - 1;
    }
    (i, j)
}

/// The first space in `s[from..to]`, or `to`.
pub(crate) fn find_space(s: &[u8], from: usize, to: usize) -> (r: usize)
    requires
        from <= to <= s@.len(),
    ensures
        r == from + position_of(s@.subrange(from as int, to as int), SPACE),
        from <= r <= to,
{
    let ghost t = s@.subrange(from as int, to as int);
    let mut i = from;
    while i < to && s[i] != SPACE
        invariant
            from <= i <= to <= s@.len(),
            forall|j: int| from <= j < i ==> s@[j] != SPACE,
        decreases to - i,
    {
        i = i + 1;
    }
    proof {
        assert forall|j: int| 0 <= j < i - from implies t[j] != SPACE by {
            assert(t[j] == s@[from + j]);
        }
        if i < to {
            assert(t[i - from] == s@[i as int]);
        }
        crate::bytes::lemma_position_of_unique(t, SPACE, i - from);
    }
    i
}

impl<'a> Command<'a> {
    /// Parses a request line; the key and value borrow from it.
    pub fn try_from(value: &'a [u8]) -> (r: Result<Command<'a>, Error>)
        ensures
            match r {
                Ok(c) => parse_request(value@) == Ok::<Request, Seq<char>>(c@),
                Err(e) => parse_request(value@) == Err::<Request, Seq<char>>(e.message_of())
                    && e.kind_of() == ErrorKind::InvalidData,
            },
    {
        let (start, end) = trim_bounds(value);
        let ghost t = value@.subrange(start as int, end as int);
        let p = find_space(value, start, end);
        let has_key = p < end;
        let rest_start = if has_key { p + 1 } else { end };
        let q = find_space(value, rest_start, end);
        let has_value = has_key && q < end;
        let value_start = if has_value { q + 1 } else { end };
        proof {
            let pp = (p - start) as int;
            lemma_position_of(t, SPACE);
            let rest = t.subrange(pp + 1, t.len() as int);
            if has_key {
                assert(rest =~= value@.subrange(rest_start as int, end as int));
                let qq = (q - rest_start) as int;
                assert(rest.subrange(0, qq) =~= value@.subrange(rest_start as int, q as int));
                if has_value {
                    assert(rest.subrange(qq + 1, rest.len() as int) =~= value@.subrange(value_start as int, end as int));
                }
            }
            assert(t.subrange(0, pp) =~= value@.subrange(start as int, p as int));
        }
        let word_get: [u8; 3] = [103u8, 101u8, 116u8];
        let word_set: [u8; 3] = [115u8, 101u8, 116u8];
        let word_delete: [u8; 6] = [100u8, 101u8, 108u8, 101u8, 116u8, 101u8];
        assert(word_get@ =~= get_word());
        assert(word_set@ =~= set_word());
        assert(word_delete@ =~= delete_word());
        if matches_word(value, start, p, word_get.as_slice()) {
            if has_key {
                Ok(Command::Get { key: &value[rest_start..q] })
            } else {
                Err(Error::new(ErrorKind::InvalidData, String::from_str("Missing key for GET command")))
            }
        } else if matches_word(value, start, p, word_set.as_slice()) {
            if !has_key {
                Err(Error::new(ErrorKind::InvalidData, String::from_str("Missing key for SET command")))
            } else if !has_value {
                Err(Error::new(ErrorKind::InvalidData, String::from_str("Missing value for SET command")))
            } else {
                Ok(Command::Put { key: &value[rest_start..q], value: &value[value_start..end] })
            }
        } else if matches_word(value, start, p, word_delete.as_slice()) {
            if has_key {
                Ok(Command::Delete { key: &value[rest_start..q] })
            } else {
                Err(Error::new(ErrorKind::InvalidData, String::from_str("Missing key for DELETE command")))
            }
        } else {
            let shown = debug_bytes(&value[start..p]);
            let mut message = String::from_str("Unknown command: ");
            message.append(shown.as_str());
            Err(Error::new(ErrorKind::InvalidData, message))
        }
    }

    /// The command's request bytes.
    pub fn encode(&self) -> (r: Vec<u8>)
        ensures
            r@ == encode_request(self@),
    {
        let mut out: Vec<u8> = Vec::new();
        match self {
            Command::Get { key } => {
                append_bytes(&mut out, [103u8, 101u8, 116u8].as_slice());
                out.push(SPACE);
                append_bytes(&mut out, key);
            },
            Command::Put { key, value } => {
                append_bytes(&mut out, [115u8, 101u8, 116u8].as_slice());
                out.push(SPACE);
                append_bytes(&mut out, key);
                out.push(SPACE);
                append_bytes(&mut out, value);
            },
            Command::Delete { key } => {
                append_bytes(&mut out, [100u8, 101u8, 108u8, 101u8, 116u8, 101u8].as_slice());
                out.push(SPACE);
                append_bytes(&mut out, key);
            },
        }
        assert(out@ =~= encode_request(self@));
        out
    }
}

} // verus!
