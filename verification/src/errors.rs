//! The error taxonomy of the table store.

use vstd::prelude::*;

verus! {

/// Everything that can go wrong in a table operation, classified into
/// domain-meaningful kinds.
#[derive(Debug)]
pub enum Error {
    /// An underlying storage access failed for a reason other than the table
    /// being absent.  Carries a description of the failure.  The in-memory
    /// engine itself never produces this kind; it exists for callers that put
    /// the engine behind a real storage backend.
    Io(String),
    /// Persisted text is not a document of the canonical shape.  Carries the
    /// number of leading characters that still matched the shape.
    Codec(usize),
    /// The stored identifier counter cannot be used: it is not canonical
    /// decimal text for a counter value, or no further identifier can be
    /// assigned from it.  Since the engine is the sole writer of the counter
    /// this indicates corruption.  Carries the counter text found.
    ParseInt(String),
    /// A read was asked of a table that does not exist.  Carries the table
    /// name.
    NoSuchTable(String),
    /// A lookup was asked of a record key that does not exist.
    NoSuchKey,
}

impl Error {
    /// A short, fixed description of the error kind.
    pub fn kind_name(&self) -> (s: &'static str)
        ensures
            self is Io ==> s@ == "input/output"@,
            self is Codec ==> s@ == "malformed document"@,
            self is ParseInt ==> s@ == "malformed counter"@,
            self is NoSuchTable ==> s@ == "no such table"@,
            self is NoSuchKey ==> s@ == "no such key"@,
    {
        match self {
            Error::Io(_) => "input/output",
            Error::Codec(_) => "malformed document",
            Error::ParseInt(_) => "malformed counter",
            Error::NoSuchTable(_) => "no such table",
            Error::NoSuchKey => "no such key",
        }
    }
}

} // verus!
