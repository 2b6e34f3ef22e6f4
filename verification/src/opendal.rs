//! Object-store listing data, as the pipeline persists and reads it: entry
//! kind, byte-range descriptions, and the per-entry metadata the triage
//! stages consume.

use vstd::prelude::*;

verus! {

/// The kind of one object-store entry.
#[derive(Copy, Clone, Debug, Eq, PartialEq, Structural)]
pub enum EntryMode {
    FILE,
    DIR,
    Unknown,
}

/// A byte content range: the inclusive start and end of the served range,
/// and the total size, each when known.
#[derive(Debug, Default, Clone, Copy, Eq, PartialEq)]
pub struct BytesContentRange(pub Option<u64>, pub Option<u64>, pub Option<u64>);

/// Metadata of one object-store entry, reduced to plain values; the last
/// modification is kept as seconds since the epoch.
#[derive(Clone, Debug)]
pub struct Metadata {
    pub mode: EntryMode,
    pub is_current: Option<bool>,
    pub is_deleted: bool,
    pub cache_control: Option<String>,
    pub content_disposition: Option<String>,
    pub content_length: Option<u64>,
    pub content_md5: Option<String>,
    pub content_range: Option<BytesContentRange>,
    pub content_type: Option<String>,
    pub content_encoding: Option<String>,
    pub etag: Option<String>,
    pub last_modified: Option<i64>,
    pub version: Option<String>,
    pub user_metadata: Option<Vec<(String, String)>>,
}

/// One object-store entry: its path and its metadata.
#[derive(Clone, Debug)]
pub struct Entry {
    pub path: String,
    pub metadata: Metadata,
}

impl Entry {
    /// The byte size the listing reports for this entry; zero when unknown.
    pub fn content_length_or_zero(&self) -> (r: u64)
        ensures
            r == (match self.metadata.content_length {
                Some(n) => n,
                None => 0u64,
            }),
    {
        match self.metadata.content_length {
            Some(n) => n,
            None => 0,
        }
    }
}

} // verus!
