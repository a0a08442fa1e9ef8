use vstd::prelude::*;

verus! {

/// The class of a failure.
#[derive(Debug, Clone, Copy, PartialEq, Eq, Structural)]
pub enum ErrorKind {
    /// Bytes that do not have the expected form: a request, a record, a file.
    InvalidData,
    /// An argument out of its allowed range.
    InvalidInput,
}

/// A failure, with its class and a message for people.
#[derive(Debug)]
pub struct Error {
    kind: ErrorKind,
    message: String,
}

impl Error {
    pub fn new(kind: ErrorKind, message: String) -> (r: Error)
        ensures
            r.kind_of() == kind,
            r.message_of() == message@,
    {
        Error { kind, message }
    }

    pub closed spec fn kind_of(&self) -> ErrorKind {
        self.kind
    }

    pub closed spec fn message_of(&self) -> Seq<char> {
        self.message@
    }

    pub fn kind(&self) -> (r: ErrorKind)
        ensures
            r == self.kind_of(),
    {
        self.kind
    }

    /// The message.
    pub fn to_string(&self) -> (r: String)
        ensures
            r@ == self.message_of(),
    {
        self.message.clone()
    }
}

/// An error of class `InvalidData` with a fixed message.
pub fn invalid_data(message: &str) -> (r: Error)
    ensures
        r.kind_of() == ErrorKind::InvalidData,
        r.message_of() == message@,
{
    Error::new(ErrorKind::InvalidData, message.to_owned())
}

} // verus!
