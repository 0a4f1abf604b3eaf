//! Small shared pieces: build metadata carried with every saved record, and
//! a duplicate check.
use vstd::prelude::*;

verus! {

/// The tool's build metadata, written next to every persisted record.
#[derive(Debug, Clone, PartialEq)]
pub struct HenInfo {
    pub version: String,
    pub commit: String,
    pub timestamp: String,
    pub api_version: usize,
}

impl HenInfo {
    /// Metadata from the build's version, commit and commit time.
    pub fn new(version: String, commit: String, timestamp: String) -> (r: Self)
        ensures
            r.version == version,
            r.commit == commit,
            r.timestamp == timestamp,
            r.api_version == 0,
    {
        HenInfo { version, commit, timestamp, api_version: 0 }
    }
}

/// A payload together with the metadata of the tool that wrote it.
#[derive(Debug, Clone, PartialEq)]
pub struct WithMeta<T> {
    pub hen: HenInfo,
    pub content: T,
}

impl<T> WithMeta<T> {
    pub fn new(content: T, hen: HenInfo) -> (r: Self)
        ensures
            r.content == content,
            r.hen == hen,
    {
        WithMeta { content, hen }
    }
}

/// Whether no element occurs twice.  The comparison is the type's own
/// equality; nothing is claimed of the result here — the seed validation in
/// the simulation layer carries the proved duplicate check.
pub fn has_unique_elements<T: PartialEq>(v: &Vec<T>) -> bool {
    let mut i: usize = 0;
    while i < v.len()
        decreases v@.len() - i,
    {
        let mut j: usize = i + 1;
        while j < v.len()
            invariant
                i < j <= v@.len() || j == i + 1,
            decreases v@.len() - j,
        {
            if v[i] == v[j] {
                return false;
            }
            j += 1;
        }
        i += 1;
    }
    true
}

} // verus!
