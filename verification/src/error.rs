//! Error taxonomy for the document layer.
//!
//! Every error is local to one document or one lookup: a failed fetch or an
//! unrecognized piece of metadata never aborts a resolution run; the affected
//! key simply stays unresolved.

use vstd::prelude::*;

verus! {

/// An error produced while building or fetching a document.
#[derive(Debug, Clone, PartialEq, Eq)]
pub enum DocError {
    /// A document identifier did not yield a well-formed URL.
    Url(String),
    /// A fetch of a single document failed.
    Query(String),
    /// A search against the document registry failed.
    Lookup(String),
    /// A piece of document metadata was not recognized.
    UnknownMeta(String),
}

impl DocError {
    /// The short, stable name of the error kind.
    pub fn name(&self) -> (r: &'static str)
        ensures
            r@ == match self {
                DocError::Url(_) => "UrlError"@,
                DocError::Query(_) => "QueryError"@,
                DocError::Lookup(_) => "LookupError"@,
                DocError::UnknownMeta(_) => "UnknownMetaError"@,
            },
    {
        match self {
            DocError::Url(_) => "UrlError",
            DocError::Query(_) => "QueryError",
            DocError::Lookup(_) => "LookupError",
            DocError::UnknownMeta(_) => "UnknownMetaError",
        }
    }

    /// The human-readable detail carried by the error.
    pub fn description(&self) -> (r: &str)
        ensures
            r@ == match self {
                DocError::Url(s) => s@,
                DocError::Query(s) => s@,
                DocError::Lookup(s) => s@,
                DocError::UnknownMeta(s) => s@,
            },
    {
        match self {
            DocError::UnknownMeta(s) | DocError::Lookup(s) | DocError::Query(s)
            | DocError::Url(s) => s.as_str(),
        }
    }
}

} // verus!
