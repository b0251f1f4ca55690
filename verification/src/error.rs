//! The errors with which loading a document fails.

use vstd::prelude::*;
use vstd::std_specs::convert::FromSpecImpl;
use yaml_rust::scanner::ScanError;

verus! {

/// Possible errors that may occur while loading content.
#[derive(Debug)]
pub enum Error {
    /// Failure to parse content.
    Parse(ScanError),
    /// Failure to load data.
    Io(std::io::Error),
    /// Failure to read data as UTF-8 text.
    Utf8(core::str::Utf8Error),
}

impl From<ScanError> for Error {
    fn from(err: ScanError) -> (e: Error) {
        Error::Parse(err)
    }
}

impl FromSpecImpl<ScanError> for Error {
    open spec fn obeys_from_spec() -> bool {
        true
    }

    open spec fn from_spec(err: ScanError) -> Error {
        Error::Parse(err)
    }
}

impl From<std::io::Error> for Error {
    fn from(err: std::io::Error) -> (e: Error) {
        Error::Io(err)
    }
}

impl FromSpecImpl<std::io::Error> for Error {
    open spec fn obeys_from_spec() -> bool {
        true
    }

    open spec fn from_spec(err: std::io::Error) -> Error {
        Error::Io(err)
    }
}

impl From<core::str::Utf8Error> for Error {
    fn from(err: core::str::Utf8Error) -> (e: Error) {
        Error::Utf8(err)
    }
}

impl FromSpecImpl<core::str::Utf8Error> for Error {
    open spec fn obeys_from_spec() -> bool {
        true
    }

    open spec fn from_spec(err: core::str::Utf8Error) -> Error {
        Error::Utf8(err)
    }
}

/// The result of loading a document.
pub type Result<T> = core::result::Result<T, Error>;

} // verus!
