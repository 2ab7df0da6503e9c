//! Error kinds of the archiver.
use vstd::prelude::*;

use crate::chan_exec;

verus! {

/// An error described by an owned message.
#[derive(Debug)]
pub struct StringError(pub String);

impl StringError {
    pub fn message(&self) -> (r: &str)
        ensures
            r@ == self.0@,
    {
        self.0.as_str()
    }
}

impl From<String> for StringError {
    fn from(s: String) -> (r: StringError) {
        StringError(s)
    }
}

impl vstd::std_specs::convert::FromSpecImpl<String> for StringError {
    open spec fn obeys_from_spec() -> bool {
        true
    }

    open spec fn from_spec(s: String) -> StringError {
        StringError(s)
    }
}

/// An error described by a message fixed in the program.
#[derive(Debug)]
pub struct StaticStrError(pub &'static str);

impl StaticStrError {
    pub fn message(&self) -> (r: &'static str)
        ensures
            r == self.0,
    {
        self.0
    }
}

impl From<&'static str> for StaticStrError {
    fn from(s: &'static str) -> (r: StaticStrError) {
        StaticStrError(s)
    }
}

impl vstd::std_specs::convert::FromSpecImpl<&'static str> for StaticStrError {
    open spec fn obeys_from_spec() -> bool {
        true
    }

    open spec fn from_spec(s: &'static str) -> StaticStrError {
        StaticStrError(s)
    }
}

/// Every failure the archiver reports. Failures of the file system, of the
/// memory mapping, of a remote call and of a background task carry the
/// message that their source gave.
#[derive(Debug)]
pub enum Error {
    /// A file system operation failed.
    Io(String),
    /// A mapping system call failed, with its errno.
    Nix(i32),
    /// The part executor's queue was closed or its reply was dropped.
    ChanExec(chan_exec::Error),
    /// A remote call failed after its retries.
    Rusoto(String),
    /// A background task could not be joined.
    JoinError(String),
    /// A malformed value, with a message built from it.
    String(StringError),
    /// A response or input that breaks the archive's contract.
    StaticStr(StaticStrError),
}

impl From<chan_exec::Error> for Error {
    fn from(e: chan_exec::Error) -> (r: Error) {
        Error::ChanExec(e)
    }
}

impl vstd::std_specs::convert::FromSpecImpl<chan_exec::Error> for Error {
    open spec fn obeys_from_spec() -> bool {
        true
    }

    open spec fn from_spec(e: chan_exec::Error) -> Error {
        Error::ChanExec(e)
    }
}

impl From<StringError> for Error {
    fn from(e: StringError) -> (r: Error) {
        Error::String(e)
    }
}

impl vstd::std_specs::convert::FromSpecImpl<StringError> for Error {
    open spec fn obeys_from_spec() -> bool {
        true
    }

    open spec fn from_spec(e: StringError) -> Error {
        Error::String(e)
    }
}

impl From<String> for Error {
    fn from(s: String) -> (r: Error) {
        Error::String(StringError(s))
    }
}

impl vstd::std_specs::convert::FromSpecImpl<String> for Error {
    open spec fn obeys_from_spec() -> bool {
        true
    }

    open spec fn from_spec(s: String) -> Error {
        Error::String(StringError(s))
    }
}

impl From<StaticStrError> for Error {
    fn from(e: StaticStrError) -> (r: Error) {
        Error::StaticStr(e)
    }
}

impl vstd::std_specs::convert::FromSpecImpl<StaticStrError> for Error {
    open spec fn obeys_from_spec() -> bool {
        true
    }

    open spec fn from_spec(e: StaticStrError) -> Error {
        Error::StaticStr(e)
    }
}

impl From<&'static str> for Error {
    fn from(s: &'static str) -> (r: Error) {
        Error::StaticStr(StaticStrError(s))
    }
}

impl vstd::std_specs::convert::FromSpecImpl<&'static str> for Error {
    open spec fn obeys_from_spec() -> bool {
        true
    }

    open spec fn from_spec(s: &'static str) -> Error {
        Error::StaticStr(StaticStrError(s))
    }
}

} // verus!
