use vstd::prelude::*;
use vstd::utf8::encode_utf8;
use crate::bytes::{append_bytes, copy_range, position_of, NEWLINE, SPACE};
use crate::error::{invalid_data, Error, ErrorKind};
use crate::protocol::trim;

verus! {

/// The text that `String::from_utf8_lossy` makes of some bytes.
pub uninterp spec fn lossy_text(b: Seq<u8>) -> Seq<char>;

/// Relies on `String::from_utf8_lossy`: the text depends on the bytes alone.
#[verifier::external_body]
fn lossy_string(b: &[u8]) -> (r: String)
    ensures
        r@ == lossy_text(b@),
{
    String::from_utf8_lossy(b).into_owned()
}

/// A response as its bytes say it.
pub enum Reply {
    /// The answer of a lookup: a value, or none.
    Value(Option<Seq<u8>>),
    /// A failure, with its message.
    Failure(Seq<char>),
    /// A write that succeeded.
    Done,
}

pub open spec fn ok_colon() -> Seq<u8> {
    seq![79u8, 75u8, 58u8]
}

pub open spec fn ok_word() -> Seq<u8> {
    seq![79u8, 75u8]
}

pub open spec fn error_word() -> Seq<u8> {
    seq![69u8, 82u8, 82u8, 79u8, 82u8, 58u8]
}

/// The response line: `OK: <value>`, `OK:`, `ERROR: <message>` or `OK`, then LF.
pub open spec fn encode_reply(r: Reply) -> Seq<u8> {
    match r {
        Reply::Value(Some(v)) => ok_colon() + seq![SPACE] + v + seq![NEWLINE],
        Reply::Value(None) => ok_colon() + seq![NEWLINE],
        Reply::Failure(m) => error_word() + seq![SPACE] + encode_utf8(m) + seq![NEWLINE],
        Reply::Done => ok_word() + seq![NEWLINE],
    }
}

/// Reads a response line: trimmed of ASCII whitespace, split at the first
/// space into a status word and the rest; `None` for an unknown status.
pub open spec fn parse_reply(b: Seq<u8>) -> Option<Reply> {
    let t = trim(b);
    let p = position_of(t, SPACE);
    let first = t.subrange(0, p as int);
    let rest = t.subrange(p as int + 1, t.len() as int);
    let has_rest = p < t.len();
    if first == ok_colon() {
        Some(Reply::Value(if has_rest { Some(rest) } else { None }))
    } else if first == error_word() {
        Some(Reply::Failure(if has_rest { lossy_text(rest) } else { Seq::empty() }))
    } else if first == ok_word() {
        Some(Reply::Done)
    } else {
        None
    }
}

/// What the server answers a client.
#[derive(Debug)]
pub enum Response {
    /// The answer of a lookup.
    Value(Option<Vec<u8>>),
    /// A failure, with its message.
    Failure(String),
    /// A write that succeeded.
    Success,
}

impl View for Response {
    type V = Reply;

    open spec fn view(&self) -> Reply {
        match self {
            Response::Value(Some(v)) => Reply::Value(Some(v@)),
            Response::Value(None) => Reply::Value(None),
            Response::Failure(m) => Reply::Failure(m@),
            Response::Success => Reply::Done,
        }
    }
}

impl Response {
    /// The response's line.
    pub fn encode(&self) -> (r: Vec<u8>)
        ensures
            r@ == encode_reply(self@),
    {
        let mut out: Vec<u8> = Vec::new();
        match self {
            Response::Value(Some(v)) => {
                append_bytes(&mut out, [79u8, 75u8, 58u8, 32u8].as_slice());
                append_bytes(&mut out, v.as_slice());
            },
            Response::Value(None) => {
                append_bytes(&mut out, [79u8, 75u8, 58u8].as_slice());
            },
            Response::Failure(m) => {
                append_bytes(&mut out, [69u8, 82u8, 82u8, 79u8, 82u8, 58u8, 32u8].as_slice());
                append_bytes(&mut out, m.as_str().as_bytes());
            },
            Response::Success => {
                append_bytes(&mut out, [79u8, 75u8].as_slice());
            },
        }
        out.push(NEWLINE);
        assert(out@ =~= encode_reply(self@));
        out
    }

    /// Parses a response line.
    pub fn try_from(value: &[u8]) -> (r: Result<Response, Error>)
        ensures
            match r {
                Ok(resp) => parse_reply(value@) == Some(resp@),
                Err(e) => parse_reply(value@) is None && e.kind_of() == ErrorKind::InvalidData,
            },
    {
        let (start, end) = crate::protocol::trim_bounds(value);
        let ghost t = value@.subrange(start as int, end as int);
        let p = crate::protocol::find_space(value, start, end);
        let has_rest = p < end;
        let rest_start = if has_rest { p + 1 } else { end };
        let first = copy_range(value, start, p);
        let rest = copy_range(value, rest_start, end);
        proof {
            assert(first@ =~= t.subrange(0, (p - start) as int));
            if has_rest {
                assert(rest@ =~= t.subrange((p - start) as int + 1, t.len() as int));
            }
        }
        let ok_colon_bytes: [u8; 3] = [79u8, 75u8, 58u8];
        let ok_bytes: [u8; 2] = [79u8, 75u8];
        let error_bytes: [u8; 6] = [69u8, 82u8, 82u8, 79u8, 82u8, 58u8];
        assert(ok_colon_bytes@ =~= ok_colon());
        assert(ok_bytes@ =~= ok_word());
        assert(error_bytes@ =~= error_word());
        if crate::segment_file::same_bytes(first.as_slice(), ok_colon_bytes.as_slice()) {
            Ok(Response::Value(if has_rest { Some(rest) } else { None }))
        } else if crate::segment_file::same_bytes(first.as_slice(), error_bytes.as_slice()) {
            let message = if has_rest { lossy_string(rest.as_slice()) } else { String::new() };
            Ok(Response::Failure(message))
        } else if crate::segment_file::same_bytes(first.as_slice(), ok_bytes.as_slice()) {
            Ok(Response::Success)
        } else {
            Err(invalid_data("Unknown response type"))
        }
    }
}

} // verus!
