//! The sync index: which note stands for which Drive file, and when each side
//! was last seen to change.

use crate::pathmap::{PathMap, Shelf};
use vstd::prelude::*;

verus! {

/// What the index records of one note.
#[derive(Debug)]
pub struct SyncFileEntry {
    pub id: String,
    pub local_mtime_ms: u64,
    pub remote_mtime_ms: u64,
}

/// The content of a [`SyncFileEntry`].
pub struct EntryView {
    pub id: Seq<char>,
    pub local_mtime_ms: u64,
    pub remote_mtime_ms: u64,
}

impl View for SyncFileEntry {
    type V = EntryView;

    open spec fn view(&self) -> EntryView {
        EntryView {
            id: self.id@,
            local_mtime_ms: self.local_mtime_ms,
            remote_mtime_ms: self.remote_mtime_ms,
        }
    }
}

impl Clone for SyncFileEntry {
    fn clone(&self) -> (r: SyncFileEntry)
        ensures
            r@ == self@,
    {
        SyncFileEntry {
            id: self.id.clone(),
            local_mtime_ms: self.local_mtime_ms,
            remote_mtime_ms: self.remote_mtime_ms,
        }
    }
}

/// The sync index: an entry for each path, relative to the notes folder.
pub struct SyncMeta {
    pub files: PathMap<SyncFileEntry>,
}

impl View for SyncMeta {
    type V = Shelf<EntryView>;

    open spec fn view(&self) -> Shelf<EntryView> {
        self.files@
    }
}

impl SyncMeta {
    pub open spec fn wf(&self) -> bool {
        self.files.wf()
    }

    /// An index without entries.
    pub fn new() -> (r: SyncMeta)
        ensures
            r.wf(),
            r@ == Shelf::<EntryView>::empty(),
    {
        SyncMeta { files: PathMap::new() }
    }
}

/// The index that a sync starts from, given what the stored one was read as:
/// an index that is missing or cannot be read counts as empty.
pub fn load_index(stored: Option<SyncMeta>) -> (r: SyncMeta)
    requires
        stored matches Some(m) ==> m.wf(),
    ensures
        r.wf(),
        r@ == (match stored {
            Some(m) => m@,
            None => Shelf::<EntryView>::empty(),
        }),
{
    match stored {
        Some(m) => m,
        None => SyncMeta::new(),
    }
}

} // verus!
