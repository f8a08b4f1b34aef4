//! What a sync does with one note.

use crate::index::{EntryView, SyncFileEntry};
use crate::remote;
use crate::remote::{find_name, DriveFile, FileView};
use crate::text::same_text;
use vstd::prelude::*;

verus! {

/// Times that lie no further apart than this count as the same: file systems
/// round them, and Drive reports them with a delay.
pub const TOLERANCE_MS: u64 = 1000;

/// `a` and `b` lie further apart than the tolerance.
pub open spec fn differs(a: int, b: int) -> bool {
    a - b > TOLERANCE_MS || b - a > TOLERANCE_MS
}

/// Whether two times lie further apart than the tolerance.
pub fn mtime_differs(a: u64, b: u64) -> (r: bool)
    ensures
        r == differs(a as int, b as int),
{
    let diff: u64 = if a > b {
        a - b
    } else {
        b - a
    };
    diff > TOLERANCE_MS
}

/// What is done with one note.
#[derive(Clone, Copy, Debug, PartialEq, Eq, Structural)]
pub enum Plan {
    /// Drive has no file for the note: a new one is made.
    Create,
    /// The note replaces the content of the Drive file; `rescue` if that
    /// content is first copied to a file beside the note.
    Push { rescue: bool },
    /// The content of the Drive file replaces the note; `rescue` if the note is
    /// first copied to a file beside it.
    Pull { rescue: bool },
    /// Neither side changed.
    Keep,
}

/// What is done with a note that changed at `local_ms`, given its index entry
/// and the Drive file that was found for it.
pub open spec fn plan(
    entry: Option<EntryView>,
    local_ms: int,
    found: Option<FileView>,
) -> Plan {
    match (entry, found) {
        (_, None) => Plan::Create,
        (None, Some(f)) => if local_ms > f.mtime() {
            Plan::Push { rescue: false }
        } else {
            Plan::Pull { rescue: false }
        },
        (Some(e), Some(f)) => {
            let local_changed = differs(local_ms, e.local_mtime_ms as int);
            let remote_changed = differs(f.mtime(), e.remote_mtime_ms as int);
            if local_changed && remote_changed {
                if local_ms > f.mtime() {
                    Plan::Push { rescue: true }
                } else {
                    Plan::Pull { rescue: true }
                }
            } else if local_changed {
                Plan::Push { rescue: false }
            } else if remote_changed {
                Plan::Pull { rescue: false }
            } else {
                Plan::Keep
            }
        },
    }
}

/// Decides what is done with a note.
pub fn decide(entry: Option<&SyncFileEntry>, local_ms: u64, found: Option<&DriveFile>) -> (r: Plan)
    ensures
        r == plan(
            match entry {
                Some(e) => Some(e@),
                None => None,
            },
            local_ms as int,
            match found {
                Some(f) => Some(f@),
                None => None,
            },
        ),
{
    match (entry, found) {
        (_, None) => Plan::Create,
        (None, Some(f)) => {
            if local_ms > f.mtime_ms() {
                Plan::Push { rescue: false }
            } else {
                Plan::Pull { rescue: false }
            }
        },
        (Some(e), Some(f)) => {
            let remote_ms = f.mtime_ms();
            let local_changed = mtime_differs(local_ms, e.local_mtime_ms);
            let remote_changed = mtime_differs(remote_ms, e.remote_mtime_ms);
            if local_changed && remote_changed {
                if local_ms > remote_ms {
                    Plan::Push { rescue: true }
                } else {
                    Plan::Pull { rescue: true }
                }
            } else if local_changed {
                Plan::Push { rescue: false }
            } else if remote_changed {
                Plan::Pull { rescue: false }
            } else {
                Plan::Keep
            }
        },
    }
}

// ---------------------------------------------------------------------------
// The Drive file of a note
// ---------------------------------------------------------------------------

/// Where the first file with this id stands in `files`, from `i` on.
pub open spec fn id_from(files: Seq<FileView>, id: Seq<char>, i: int) -> Option<int>
    decreases files.len() - i,
{
    if i < 0 || i >= files.len() {
        None
    } else if files[i].id == id {
        Some(i)
    } else {
        id_from(files, id, i + 1)
    }
}

/// The file that stands for the note `path`: the one with the id that the index
/// records, or else the one with the note's name. With it comes whether it was
/// found by its id.
pub open spec fn counterpart(
    entry: Option<EntryView>,
    files: Seq<FileView>,
    path: Seq<char>,
) -> Option<(int, bool)> {
    let by_id = match entry {
        Some(e) => id_from(files, e.id, 0),
        None => None,
    };
    match by_id {
        Some(i) => Some((i, true)),
        None => match remote::name_position(files, path) {
            Some(i) => Some((i, false)),
            None => None,
        },
    }
}

fn find_id(files: &Vec<DriveFile>, id: &str) -> (r: Option<usize>)
    ensures
        match r {
            Some(i) => i < files@.len() && id_from(remote::views(files@), id@, 0) == Some(i as int),
            None => id_from(remote::views(files@), id@, 0) is None,
        },
{
    let mut i: usize = 0;
    while i < files.len()
        invariant
            i <= files@.len(),
            id_from(remote::views(files@), id@, 0) == id_from(
                remote::views(files@),
                id@,
                i as int,
            ),
        decreases files@.len() - i,
    {
        assert(remote::views(files@)[i as int] == files@[i as int]@);
        if same_text(files[i].id.as_str(), id) {
            return Some(i);
        }
        i += 1;
    }
    None
}

/// Finds the file that stands for the note `path`.
pub fn find_counterpart(
    entry: Option<&SyncFileEntry>,
    files: &Vec<DriveFile>,
    path: &str,
) -> (r: Option<(usize, bool)>)
    ensures
        match r {
            Some((i, by_id)) => i < files@.len() && counterpart(
                match entry {
                    Some(e) => Some(e@),
                    None => None,
                },
                remote::views(files@),
                path@,
            ) == Some((i as int, by_id)),
            None => counterpart(
                match entry {
                    Some(e) => Some(e@),
                    None => None,
                },
                remote::views(files@),
                path@,
            ) is None,
        },
{
    if let Some(e) = entry {
        if let Some(i) = find_id(files, e.id.as_str()) {
            return Some((i, true));
        }
    }
    match find_name(files, path) {
        Some(i) => Some((i, false)),
        None => None,
    }
}

// ---------------------------------------------------------------------------
// Laws
// ---------------------------------------------------------------------------

/// Whether two times differ does not depend on which comes first, and a time
/// does not differ from itself.
pub proof fn differs_symmetric(a: int, b: int)
    ensures
        differs(a, b) == differs(b, a),
        !differs(a, a),
{
}

/// A note whose Drive file is gone is uploaded anew: no plan drops a note.
pub proof fn missing_remote_is_recreated(entry: Option<EntryView>, local_ms: int)
    ensures
        plan(entry, local_ms, None) == Plan::Create,
{
}

/// Where an indexed note changed on both sides, the side that is replaced is
/// copied first. It is the later change that wins, and Drive on a tie.
pub proof fn conflict_rescues_the_loser(e: EntryView, local_ms: int, f: FileView)
    requires
        differs(local_ms, e.local_mtime_ms as int),
        differs(f.mtime(), e.remote_mtime_ms as int),
    ensures
        local_ms > f.mtime() ==> plan(Some(e), local_ms, Some(f)) == (Plan::Push { rescue: true }),
        local_ms <= f.mtime() ==> plan(Some(e), local_ms, Some(f)) == (Plan::Pull { rescue: true }),
{
}

/// An indexed note is replaced without a copy only where it did not change
/// since the index last saw it.
pub proof fn unrescued_pull_loses_no_edit(e: EntryView, local_ms: int, f: FileView)
    requires
        plan(Some(e), local_ms, Some(f)) == (Plan::Pull { rescue: false }),
    ensures
        !differs(local_ms, e.local_mtime_ms as int),
{
}

/// An indexed Drive file is replaced without a copy only where it did not change
/// since the index last saw it.
pub proof fn unrescued_push_loses_no_edit(e: EntryView, local_ms: int, f: FileView)
    requires
        plan(Some(e), local_ms, Some(f)) == (Plan::Push { rescue: false }),
    ensures
        !differs(f.mtime(), e.remote_mtime_ms as int),
{
}

/// Once both sides are as the index recorded them, up to the tolerance, a sync
/// does nothing: it does not transfer the same content again and again.
pub proof fn recorded_state_is_steady(e: EntryView, local_ms: int, f: FileView)
    requires
        !differs(local_ms, e.local_mtime_ms as int),
        !differs(f.mtime(), e.remote_mtime_ms as int),
    ensures
        plan(Some(e), local_ms, Some(f)) == Plan::Keep,
{
}

proof fn lemma_id_from(files: Seq<FileView>, id: Seq<char>, i: int)
    requires
        0 <= i,
    ensures
        id_from(files, id, i) matches Some(k) ==> i <= k < files.len() && files[k].id == id,
    decreases files.len() - i,
{
    if i < files.len() && files[i].id != id {
        lemma_id_from(files, id, i + 1);
    }
}

/// The file that stands for a note has the recorded id or the note's name.
pub proof fn counterpart_is_justified(
    entry: Option<EntryView>,
    files: Seq<FileView>,
    path: Seq<char>,
)
    ensures
        counterpart(entry, files, path) matches Some((i, by_id)) ==> 0 <= i < files.len() && (
        if by_id {
            entry is Some && files[i].id == entry->0.id
        } else {
            files[i].name == path
        }),
{
    if entry is Some {
        lemma_id_from(files, entry->0.id, 0);
    }
    remote::name_position_is_first(files, path);
}

} // verus!
