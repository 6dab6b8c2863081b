//! Request and response shapes of the lookup service, and its user-visible
//! error kinds. A not-found condition is reported distinctly; every other
//! failure maps to a generic internal error that never leaks engine detail.

use vstd::prelude::*;

verus! {

/// The error payload returned to a caller.
pub struct ErrorResponse {
    pub code: u16,
    pub error: String,
    pub message: String,
}

/// The user-visible failure kinds: a missing anchor document is reported as
/// not found; everything else is an opaque internal failure.
#[derive(Clone, Copy, Debug)]
pub enum ServiceError {
    /// The requested video was not found.
    NotFound,
    /// Any other failure, reported without detail.
    Unknown,
}

impl ServiceError {
    /// The stable name of the error kind, as written into responses.
    pub fn name(&self) -> (r: String)
        ensures
            self is NotFound ==> r@ == "NotFound"@,
            self is Unknown ==> r@ == "Unknown"@,
    {
        match self {
            Self::NotFound => "NotFound".to_owned(),
            Self::Unknown => "Unknown".to_owned(),
        }
    }
}

/// The body of an insert call: the document to (re)index.
#[derive(Clone, Copy, Debug)]
pub struct InsertRequest {
    pub vid: u64,
}

/// The (empty) reply to an insert call.
#[derive(Clone, Copy, Debug)]
pub struct InsertResponse {}

/// The body of a query call: the anchor document and the query parameters.
#[derive(Clone, Copy, Debug)]
pub struct QueryRequest {
    pub vid: u64,
    pub uid: Option<u64>,
    pub top_k: Option<usize>,
    pub threshold: Option<crate::sim::Ratio>,
    pub sort_title: Option<bool>,
}

/// The reply to a query call: the matching videos, best first.
pub struct QueryResponse {
    pub videos: Vec<PartialVideoItem>,
}

/// The part of a catalog video the engine reads: its title.
pub struct PartialVideoItem {
    pub title: String,
}

/// A catalog video as the engine sees it: its id, tags, and title item.
pub struct PartialVideo {
    pub _id: u64,
    pub tags: Vec<u64>,
    pub item: PartialVideoItem,
}

} // verus!
