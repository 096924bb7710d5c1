//! Data carried by the catalog: track metadata and the storage error.

use vstd::prelude::*;

verus! {

/// Metadata of one reference recording held by the catalog.
///
/// `id` is assigned monotonically when the track is inserted. `path` is the
/// source key: the stable string under which the recording was stored, and
/// the key by which repeated ingests are detected. `created_at` is an opaque
/// timestamp string supplied by the caller at insertion time.
#[derive(Debug)]
pub struct SongMetadata {
    pub id: i64,
    pub title: String,
    pub artist: String,
    pub path: String,
    pub created_at: String,
}

impl SongMetadata {
    /// An owned copy, equal to `self` as a value.
    pub fn duplicate(&self) -> (r: SongMetadata)
        ensures
            r == *self,
    {
        SongMetadata {
            id: self.id,
            title: self.title.clone(),
            artist: self.artist.clone(),
            path: self.path.clone(),
            created_at: self.created_at.clone(),
        }
    }
}

/// The one failure the in-memory catalog can report: inserting a track whose
/// source key is already present.
#[derive(Debug, PartialEq, Eq, Structural)]
pub enum StorageError {
    DuplicateKey,
}

} // verus!
