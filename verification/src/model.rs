//! What cairn reports, as plain values.

use vstd::prelude::*;
use std::collections::BTreeMap;
use crate::chars::str_eq;

verus! {

/// The bounds a daemon advertises for its suggestion endpoint.
#[derive(Debug, Clone, Copy)]
pub struct Limits {
    pub suggest_max_query: u32,
    pub suggest_max_results: u32,
}

/// The documented bound on a suggestion query, in bytes.
pub const SUGGEST_MAX_QUERY: u32 = 128;

/// The documented bound on the number of suggestions.
pub const SUGGEST_MAX_RESULTS: u32 = 32;

impl Default for Limits {
    /// The documented limits, for a daemon that reports none.
    fn default() -> (r: Self)
        ensures
            r.suggest_max_query == SUGGEST_MAX_QUERY,
            r.suggest_max_results == SUGGEST_MAX_RESULTS,
    {
        Limits { suggest_max_query: SUGGEST_MAX_QUERY, suggest_max_results: SUGGEST_MAX_RESULTS }
    }
}

/// One layer of the daemon's sandbox and how it stands.
#[derive(Debug, Clone)]
pub struct SandboxLayer {
    pub name: String,
    pub state: String,
    pub detail: Option<String>,
}

#[derive(Debug, Clone)]
pub struct SandboxStatus {
    pub required: bool,
    pub layers: Vec<SandboxLayer>,
}

impl Default for SandboxStatus {
    fn default() -> (r: Self)
        ensures
            !r.required,
            r.layers@.len() == 0,
    {
        SandboxStatus { required: false, layers: Vec::new() }
    }
}

/// The daemon's status.
#[derive(Debug, Clone)]
pub struct Status {
    pub version: String,
    pub uptime_seconds: u64,
    pub listener: String,
    pub archives: u32,
    pub auth: Option<String>,
    pub sandbox: SandboxStatus,
    pub limits: Limits,
}

/// An open archive as the library lists it.
#[derive(Debug, Clone)]
pub struct ArchiveSummary {
    pub uuid: String,
    pub title: String,
    pub entry_count: u64,
    pub cluster_count: Option<u64>,
    pub main_page: Option<String>,
    pub format_version: Option<String>,
    pub content_namespace: Option<String>,
    pub suggest: bool,
}

/// An archive with its metadata.
#[derive(Debug, Clone)]
pub struct ArchiveDetail {
    pub summary: ArchiveSummary,
    pub metadata: BTreeMap<String, String>,
    pub binary_metadata: Vec<String>,
}

/// A title-prefix match.
#[derive(Debug, Clone)]
pub struct Suggestion {
    pub title: String,
    pub path: String,
}

/// An entry's stored bytes and what cairn says of them.
#[derive(Debug)]
pub struct Entry {
    pub bytes: Vec<u8>,
    pub content_type: String,
    pub archive: String,
    pub path: String,
}

/// What cairn says of an entry, without its bytes.
#[derive(Debug)]
pub struct EntryMeta {
    pub content_type: String,
    pub length: Option<u64>,
    pub archive: String,
    pub path: String,
}

/// The position of the first archive in a listing with the id `uuid`: a saved
/// row names its archive by id, and can only be reopened while the daemon
/// still has that archive open.
pub fn find_archive(archives: &[ArchiveSummary], uuid: &str) -> (r: Option<usize>)
    ensures
        match r {
            Some(i) => i < archives@.len() && archives@[i as int].uuid@ == uuid@
                && forall|k: int| 0 <= k < i ==> #[trigger] archives@[k].uuid@ != uuid@,
            None => forall|k: int| 0 <= k < archives@.len() ==> #[trigger] archives@[k].uuid@ != uuid@,
        },
{
    let mut i: usize = 0;
    while i < archives.len()
        invariant
            i <= archives.len(),
            forall|k: int| 0 <= k < i ==> #[trigger] archives@[k].uuid@ != uuid@,
        decreases archives.len() - i,
    {
        if str_eq(archives[i].uuid.as_str(), uuid) {
            return Some(i);
        }
        i = i + 1;
    }
    None
}

} // verus!
