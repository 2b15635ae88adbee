//! The error taxonomy of the engine.
//!
//! Every failure is fatal for the operation that raised it: a malformed
//! metadata block aborts a full load, a dangling internal link aborts a
//! render, a filesystem failure aborts a build, and an invalid pagination
//! or sort configuration is rejected at load time.

use vstd::prelude::*;

verus! {

/// A fatal failure, carrying enough context to locate the offending file.
#[derive(Debug, Clone)]
pub enum Error {
    /// A content file's metadata block is malformed.
    Parse(String),
    /// A document body refers to a relative path that no content item has.
    LinkResolution(String),
    /// A filesystem access failed.
    Io(String),
    /// The pagination or sort configuration is invalid.
    Config(String),
}

impl Error {
    /// The context string carried by the error.
    pub fn message(&self) -> (r: String)
        ensures
            r@ == self.message_spec(),
    {
        match self {
            Error::Parse(m) => m.clone(),
            Error::LinkResolution(m) => m.clone(),
            Error::Io(m) => m.clone(),
            Error::Config(m) => m.clone(),
        }
    }

    /// The context string, seen from specifications.
    pub open spec fn message_spec(&self) -> Seq<char> {
        match self {
            Error::Parse(m) => m@,
            Error::LinkResolution(m) => m@,
            Error::Io(m) => m@,
            Error::Config(m) => m@,
        }
    }
}

} // verus!
