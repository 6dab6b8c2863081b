//! Shapes shared with the catalog service the lookup joins against: REST
//! envelope types, timestamps, and tag categories.

use vstd::prelude::*;

verus! {

/// A machine-readable error code with optional detail.
#[derive(Clone, Debug)]
pub struct Error {
    pub code: String,
    pub aux: Option<String>,
}

/// The error half of a REST reply.
#[derive(Clone, Debug)]
pub struct RestResultError {
    pub reason: String,
    pub aux: Option<String>,
}

/// A REST reply envelope: a status, and either data or an error.
#[derive(Clone, Debug)]
pub struct RestResult<T> {
    pub status: String,
    pub data: Option<T>,
    pub dataerr: Option<RestResultError>,
}

/// A timestamp as the catalog stores it: milliseconds since the epoch.
#[derive(Clone, Copy, Debug)]
pub struct BsonDateTime {
    pub ts: i64,
}

/// The categories a catalog tag can belong to.
#[derive(Clone, Copy, Debug, PartialEq, Eq, Structural)]
pub enum TagCategoryEnum {
    General,
    Character,
    Copyright,
    Author,
    Meta,
    Language,
    Soundtrack,
}

/// The tags of one category.
#[derive(Clone, Debug)]
pub struct TagCategoryItem {
    pub key: TagCategoryEnum,
    pub value: Vec<String>,
}

/// One value of a multilingual text field.
#[derive(Clone, Debug)]
pub struct MultilingualMapping {
    pub lang: String,
    pub value: String,
}

} // verus!
