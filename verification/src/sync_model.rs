//! The course of a sync, as a state and what each reply makes of it.
//!
//! A sync first removes surplus files from Drive, then lists the notes, deals
//! with each note, follows renames made on Drive, fetches the files that only
//! Drive has, removes from Drive what was deleted here, and stores the index.

use crate::index::EntryView;
use crate::pathmap::Shelf;
use crate::plan;
use crate::plan::Plan;
use crate::remote;
use crate::remote::FileView;
use crate::text;
use vstd::prelude::*;

verus! {

/// Where a sync stands: what it waits for.
pub enum PhaseView {
    /// Surplus file number `k` is being deleted.
    Purging(int),
    /// The notes are being listed.
    Scanning,
    /// The Drive version of note `i`, file `f`, is being copied beside the note.
    RescuingRemote(int, int),
    /// Note `i`, which file `f` is to replace, is being copied.
    RescuingLocal(int, int),
    /// A file is being made for note `i`.
    Creating(int),
    /// Note `i` is replacing the content of file `f`.
    Pushing(int, int),
    /// The content of file `f` is replacing note `i`.
    Pulling(int, int),
    /// Note `i` is being given the time of file `f`.
    Dating(int, int),
    /// For rename number `k`, it is looked up which of its names are taken.
    Probing(int),
    /// Rename number `k` is being made.
    Renaming(int),
    /// File `f`, which only Drive has, is being fetched.
    Fetching(int),
    /// The note fetched from file `f` is being given its time.
    DatingFetched(int),
    /// The file of deleted note number `k` is being deleted.
    Cleaning(int),
    /// The index is being stored.
    Saving,
    /// There is nothing left to do.
    Finished,
}

/// What a sync asks for.
pub enum ActionView {
    DeleteRemote { id: Seq<char> },
    ScanNotes,
    CopyRemote { path: Seq<char>, id: Seq<char> },
    CopyLocal { path: Seq<char> },
    Upload { path: Seq<char> },
    Update { path: Seq<char>, id: Seq<char> },
    Download { path: Seq<char>, id: Seq<char> },
    SetMtime { path: Seq<char>, ms: int },
    Probe { from: Seq<char>, to: Seq<char> },
    Rename { from: Seq<char>, to: Seq<char> },
    SaveIndex,
    Finish { outcome: Result<ResultView, Seq<char>> },
}

/// What came of it.
pub enum ReplyView {
    Done,
    Scanned { notes: Shelf<u64> },
    Uploaded { id: Seq<char>, ms: u64, chars: u64 },
    Updated { ms: u64, chars: u64 },
    Downloaded { chars: u64 },
    Probed { from: bool, to: bool },
    Renamed { mtime: Option<u64> },
    Failed { error: Seq<char> },
}

/// What a sync reports at its end.
pub struct ResultView {
    pub uploaded: int,
    pub downloaded: int,
    pub conflicts: int,
    pub chars_synced: int,
    pub summary: Seq<char>,
}

/// `noun`, in the plural unless there is one.
pub open spec fn plural(n: int, noun: Seq<char>) -> Seq<char> {
    if n == 1 {
        noun
    } else {
        noun + "s"@
    }
}

/// The result in one line.
pub open spec fn summary_of(transfers: int, conflicts: int) -> Seq<char> {
    if transfers == 0 && conflicts == 0 {
        "Already up to date"@
    } else {
        "Synced "@ + text::decimal(transfers as nat) + plural(transfers, " note"@) + ", "@
            + text::decimal(conflicts as nat) + plural(conflicts, " conflict"@)
    }
}

/// The state of a sync.
pub struct RunView {
    /// The index, kept up to date with every transfer.
    pub index: Shelf<EntryView>,
    /// The files on Drive, one for each name.
    pub files: Seq<FileView>,
    /// The ids of the surplus files.
    pub doomed: Seq<Seq<char>>,
    /// The notes as they were listed, with the time each changed.
    pub notes: Shelf<u64>,
    /// The ids of the files that were found for a note.
    pub seen: Seq<Seq<char>>,
    /// The paths that this sync itself wrote or renamed.
    pub touched: Seq<Seq<char>>,
    /// The renames made on Drive: the old path and the new one.
    pub renames: Seq<(Seq<char>, Seq<char>)>,
    /// The indexed paths whose notes were deleted, and the ids of their files.
    pub gone: Seq<(Seq<char>, Seq<char>)>,
    /// The ids of those of these files that changed on Drive since.
    pub revived: Seq<Seq<char>>,
    pub uploaded: int,
    pub downloaded: int,
    pub conflicts: int,
    pub chars: int,
    pub phase: PhaseView,
    /// Why the sync ended early.
    pub error: Option<Seq<char>>,
}

impl RunView {
    /// The path of note `i`.
    pub open spec fn path(self, i: int) -> Seq<char> {
        self.notes.order[i]
    }

    /// When note `i` changed.
    pub open spec fn local_ms(self, i: int) -> u64 {
        self.notes.map[self.path(i)]
    }

    /// The file that stands for note `i`, and whether its id says so.
    pub open spec fn counterpart(self, i: int) -> Option<(int, bool)> {
        plan::counterpart(self.index.get(self.path(i)), self.files, self.path(i))
    }

    /// What is done with note `i`.
    pub open spec fn plan(self, i: int) -> Plan {
        plan::plan(
            self.index.get(self.path(i)),
            self.local_ms(i) as int,
            match self.counterpart(i) {
                Some((f, _)) => Some(self.files[f]),
                None => None,
            },
        )
    }

    /// File `f` was found for note `i`. Where its id says so and it has another
    /// name, it was renamed on Drive.
    pub open spec fn noticed(self, i: int, f: int, by_id: bool, conflict: bool) -> RunView {
        RunView {
            seen: self.seen.push(self.files[f].id),
            renames: if by_id && self.files[f].name != self.path(i) {
                self.renames.push((self.path(i), self.files[f].name))
            } else {
                self.renames
            },
            conflicts: if conflict {
                self.conflicts + 1
            } else {
                self.conflicts
            },
            ..self
        }
    }

    /// The index has `e` under `path`.
    pub open spec fn recorded(self, path: Seq<char>, e: EntryView) -> RunView {
        RunView { index: self.index.set(path, e), ..self }
    }

    pub open spec fn at(self, phase: PhaseView) -> RunView {
        RunView { phase, ..self }
    }

    /// One more note was uploaded.
    pub open spec fn one_up(self, chars: u64) -> RunView {
        RunView { uploaded: self.uploaded + 1, chars: self.chars + chars, ..self }
    }

    /// One more file was downloaded, to `path`.
    pub open spec fn one_down(self, path: Seq<char>, chars: u64) -> RunView {
        RunView {
            downloaded: self.downloaded + 1,
            chars: self.chars + chars,
            touched: self.touched.push(path),
            ..self
        }
    }

    /// The index is stored, whether or not something went wrong before.
    pub open spec fn closing(self, error: Option<Seq<char>>) -> RunView {
        RunView { phase: PhaseView::Saving, error, ..self }
    }

    /// Goes on with note `i`.
    pub open spec fn from_note(self, i: int) -> RunView
        decreases self.notes.order.len() - i,
    {
        if i < 0 || i >= self.notes.order.len() {
            self.from_rename(0)
        } else {
            match (self.plan(i), self.counterpart(i)) {
                (Plan::Push { rescue }, Some((f, by_id))) => self.noticed(i, f, by_id, rescue).at(
                    if rescue {
                        PhaseView::RescuingRemote(i, f)
                    } else {
                        PhaseView::Pushing(i, f)
                    },
                ),
                (Plan::Pull { rescue }, Some((f, by_id))) => self.noticed(i, f, by_id, rescue).at(
                    if rescue {
                        PhaseView::RescuingLocal(i, f)
                    } else {
                        PhaseView::Pulling(i, f)
                    },
                ),
                (Plan::Keep, Some((f, by_id))) => self.noticed(i, f, by_id, false).recorded(
                    self.path(i),
                    EntryView { id: self.files[f].id, ..self.index.map[self.path(i)] },
                ).from_note(i + 1),
                _ => self.at(PhaseView::Creating(i)),
            }
        }
    }

    /// Goes on with rename number `k`.
    pub open spec fn from_rename(self, k: int) -> RunView {
        if 0 <= k < self.renames.len() {
            self.at(PhaseView::Probing(k))
        } else {
            self.with_gone().from_fetch(0)
        }
    }

    /// The note `path` was deleted: it was not listed, and this sync did not
    /// write it.
    pub open spec fn was_deleted(self, path: Seq<char>) -> bool {
        !self.touched.contains(path) && !self.notes.has(path)
    }

    /// The file of the indexed note `path` changed on Drive since the index last
    /// saw it.
    pub open spec fn changed_there(self, path: Seq<char>) -> bool {
        exists|f: int|
            0 <= f < self.files.len() && (#[trigger] self.files[f]).id == self.index.map[path].id
                && plan::differs(
                self.files[f].mtime(),
                self.index.map[path].remote_mtime_ms as int,
            )
    }

    /// The notes that were deleted are known, and which of them changed on Drive.
    pub open spec fn with_gone(self) -> RunView {
        RunView {
            gone: self.index.order.filter(|p: Seq<char>| self.was_deleted(p)).map_values(
                |p: Seq<char>| (p, self.index.map[p].id),
            ),
            revived: self.index.order.filter(
                |p: Seq<char>| self.was_deleted(p) && self.changed_there(p),
            ).map_values(|p: Seq<char>| self.index.map[p].id),
            ..self
        }
    }

    /// The file with this id stood for a note that was deleted.
    pub open spec fn is_gone(self, id: Seq<char>) -> bool {
        exists|j: int| 0 <= j < self.gone.len() && (#[trigger] self.gone[j]).1 == id
    }

    /// Drive lists a file with this id.
    pub open spec fn is_listed(self, id: Seq<char>) -> bool {
        exists|f: int| 0 <= f < self.files.len() && (#[trigger] self.files[f]).id == id
    }

    /// File `f` stands for no note, neither for one that is there nor for one
    /// that was deleted, unless it changed on Drive since, and it is not a
    /// folder.
    pub open spec fn only_remote(self, f: int) -> bool {
        &&& !self.seen.contains(self.files[f].id)
        &&& !self.files[f].is_folder()
        &&& !self.is_gone(self.files[f].id) || self.revived.contains(self.files[f].id)
    }

    /// Goes on with file `f`.
    pub open spec fn from_fetch(self, f: int) -> RunView
        decreases self.files.len() - f,
    {
        if f < 0 || f >= self.files.len() {
            self.from_clean()
        } else if self.only_remote(f) {
            self.at(PhaseView::Fetching(f))
        } else {
            self.from_fetch(f + 1)
        }
    }

    /// The file of a deleted note is to be deleted: unless its path was written
    /// anew and the file was fetched or Drive no longer lists it.
    pub open spec fn is_due(self, e: (Seq<char>, Seq<char>)) -> bool {
        !self.touched.contains(e.0) || (self.is_listed(e.1) && !self.revived.contains(e.1))
    }

    /// Goes on with the notes that were deleted.
    pub open spec fn from_clean(self) -> RunView {
        let gone = self.gone.filter(|e: (Seq<char>, Seq<char>)| self.is_due(e));
        let s = RunView { gone, ..self };
        if gone.len() > 0 {
            s.at(PhaseView::Cleaning(0))
        } else {
            s.closing(None)
        }
    }

    /// The entry of a file whose content is now on both sides.
    pub open spec fn level_entry(self, f: int) -> EntryView {
        EntryView {
            id: self.files[f].id,
            local_mtime_ms: self.files[f].mtime() as u64,
            remote_mtime_ms: self.files[f].mtime() as u64,
        }
    }

    /// Rename number `k` was made; the file under the new name changed at `ms`.
    pub open spec fn renamed(self, k: int, ms: Option<u64>) -> RunView {
        let (from, to) = self.renames[k];
        RunView {
            touched: self.touched.push(from).push(to),
            index: match self.index.get(from) {
                Some(e) => self.index.unset(from).set(
                    to,
                    EntryView {
                        local_mtime_ms: match ms {
                            Some(t) => t,
                            None => e.local_mtime_ms,
                        },
                        ..e
                    },
                ),
                None => self.index,
            },
            ..self
        }
    }

    /// What the sync asks for.
    pub open spec fn pending(self) -> ActionView {
        match self.phase {
            PhaseView::Purging(k) => ActionView::DeleteRemote { id: self.doomed[k] },
            PhaseView::Scanning => ActionView::ScanNotes,
            PhaseView::RescuingRemote(i, f) => ActionView::CopyRemote {
                path: self.path(i),
                id: self.files[f].id,
            },
            PhaseView::RescuingLocal(i, _) => ActionView::CopyLocal { path: self.path(i) },
            PhaseView::Creating(i) => ActionView::Upload { path: self.path(i) },
            PhaseView::Pushing(i, f) => ActionView::Update {
                path: self.path(i),
                id: self.files[f].id,
            },
            PhaseView::Pulling(i, f) => ActionView::Download {
                path: self.path(i),
                id: self.files[f].id,
            },
            PhaseView::Dating(i, f) => ActionView::SetMtime {
                path: self.path(i),
                ms: self.files[f].mtime(),
            },
            PhaseView::Probing(k) => ActionView::Probe {
                from: self.renames[k].0,
                to: self.renames[k].1,
            },
            PhaseView::Renaming(k) => ActionView::Rename {
                from: self.renames[k].0,
                to: self.renames[k].1,
            },
            PhaseView::Fetching(f) => ActionView::Download {
                path: self.files[f].name,
                id: self.files[f].id,
            },
            PhaseView::DatingFetched(f) => ActionView::SetMtime {
                path: self.files[f].name,
                ms: self.files[f].mtime(),
            },
            PhaseView::Cleaning(k) => ActionView::DeleteRemote { id: self.gone[k].1 },
            PhaseView::Saving => ActionView::SaveIndex,
            PhaseView::Finished => ActionView::Finish { outcome: self.outcome() },
        }
    }

    /// What the sync reports.
    pub open spec fn outcome(self) -> Result<ResultView, Seq<char>> {
        match self.error {
            Some(e) => Err(e),
            None => Ok(
                ResultView {
                    uploaded: self.uploaded,
                    downloaded: self.downloaded,
                    conflicts: self.conflicts,
                    chars_synced: self.chars,
                    summary: summary_of(self.uploaded + self.downloaded, self.conflicts),
                },
            ),
        }
    }

    /// `reply` answers what the sync asked for, and its counts fit.
    pub open spec fn accepts(self, reply: ReplyView) -> bool {
        match (self.phase, reply) {
            (PhaseView::Scanning, ReplyView::Scanned { notes }) => notes.wf() && notes.order.len()
                + self.files.len() <= u32::MAX,
            (PhaseView::Scanning, ReplyView::Failed { .. }) => true,
            (PhaseView::Creating(_), ReplyView::Uploaded { chars, .. }) => self.chars + chars
                <= u64::MAX,
            (PhaseView::Creating(_), ReplyView::Failed { .. }) => true,
            (PhaseView::Pushing(..), ReplyView::Updated { chars, .. }) => self.chars + chars
                <= u64::MAX,
            (PhaseView::Pushing(..), ReplyView::Failed { .. }) => true,
            (PhaseView::Pulling(..), ReplyView::Downloaded { chars }) => self.chars + chars
                <= u64::MAX,
            (PhaseView::Pulling(..), ReplyView::Failed { .. }) => true,
            (PhaseView::Fetching(_), ReplyView::Downloaded { chars }) => self.chars + chars
                <= u64::MAX,
            (PhaseView::Fetching(_), ReplyView::Failed { .. }) => true,
            (PhaseView::Probing(_), ReplyView::Probed { .. }) => true,
            (PhaseView::Renaming(_), ReplyView::Renamed { .. }) => true,
            (PhaseView::Purging(_), ReplyView::Done) => true,
            (PhaseView::RescuingRemote(..), ReplyView::Done) => true,
            (PhaseView::RescuingRemote(..), ReplyView::Failed { .. }) => true,
            (PhaseView::RescuingLocal(..), ReplyView::Done) => true,
            (PhaseView::RescuingLocal(..), ReplyView::Failed { .. }) => true,
            (PhaseView::Dating(..), ReplyView::Done) => true,
            (PhaseView::DatingFetched(_), ReplyView::Done) => true,
            (PhaseView::Cleaning(_), ReplyView::Done) => true,
            (PhaseView::Saving, ReplyView::Done) => true,
            _ => false,
        }
    }

    /// The state once `reply` has come. A failure ends the sync; so a note is not
    /// replaced, nor its file, where the copy that is to save it failed.
    pub open spec fn after(self, reply: ReplyView) -> RunView {
        match (self.phase, reply) {
            (PhaseView::Purging(k), _) => if k + 1 < self.doomed.len() {
                self.at(PhaseView::Purging(k + 1))
            } else {
                self.at(PhaseView::Scanning)
            },
            (PhaseView::Scanning, ReplyView::Scanned { notes }) => (RunView {
                notes,
                ..self
            }).from_note(0),
            (PhaseView::RescuingRemote(i, f), ReplyView::Done) => self.at(
                PhaseView::Pushing(i, f),
            ),
            (PhaseView::RescuingLocal(i, f), ReplyView::Done) => self.at(PhaseView::Pulling(i, f)),
            (PhaseView::Creating(i), ReplyView::Uploaded { id, ms, chars }) => self.recorded(
                self.path(i),
                EntryView { id, local_mtime_ms: self.local_ms(i), remote_mtime_ms: ms },
            ).one_up(chars).from_note(i + 1),
            (PhaseView::Pushing(i, f), ReplyView::Updated { ms, chars }) => self.recorded(
                self.path(i),
                EntryView {
                    id: self.files[f].id,
                    local_mtime_ms: self.local_ms(i),
                    remote_mtime_ms: ms,
                },
            ).one_up(chars).from_note(i + 1),
            (PhaseView::Pulling(i, f), ReplyView::Downloaded { chars }) => self.recorded(
                self.path(i),
                self.level_entry(f),
            ).one_down(self.path(i), chars).at(PhaseView::Dating(i, f)),
            (PhaseView::Dating(i, _), _) => self.from_note(i + 1),
            (PhaseView::Probing(k), ReplyView::Probed { from, to }) => if from && !to {
                self.at(PhaseView::Renaming(k))
            } else {
                self.from_rename(k + 1)
            },
            (PhaseView::Renaming(k), ReplyView::Renamed { mtime }) => self.renamed(
                k,
                mtime,
            ).from_rename(k + 1),
            (PhaseView::Fetching(f), ReplyView::Downloaded { chars }) => self.recorded(
                self.files[f].name,
                self.level_entry(f),
            ).one_down(self.files[f].name, chars).at(PhaseView::DatingFetched(f)),
            (PhaseView::DatingFetched(f), _) => self.from_fetch(f + 1),
            (PhaseView::Cleaning(k), _) => {
                let s = RunView {
                    index: if self.touched.contains(self.gone[k].0) {
                        self.index
                    } else {
                        self.index.unset(self.gone[k].0)
                    },
                    ..self
                };
                if k + 1 < self.gone.len() {
                    s.at(PhaseView::Cleaning(k + 1))
                } else {
                    s.closing(None)
                }
            },
            (PhaseView::Saving, _) => self.at(PhaseView::Finished),
            (_, ReplyView::Failed { error }) => self.closing(Some(error)),
            _ => self,
        }
    }

    /// How many transfers there can have been.
    pub open spec fn transfer_bound(self) -> int {
        match self.phase {
            PhaseView::Purging(_) => 0,
            PhaseView::Scanning => 0,
            PhaseView::RescuingRemote(i, _) => i,
            PhaseView::RescuingLocal(i, _) => i,
            PhaseView::Creating(i) => i,
            PhaseView::Pushing(i, _) => i,
            PhaseView::Pulling(i, _) => i,
            PhaseView::Dating(i, _) => i + 1,
            PhaseView::Probing(_) => self.notes.order.len() as int,
            PhaseView::Renaming(_) => self.notes.order.len() as int,
            PhaseView::Fetching(f) => self.notes.order.len() + f,
            PhaseView::DatingFetched(f) => self.notes.order.len() + f + 1,
            _ => (self.notes.order.len() + self.files.len()) as int,
        }
    }

    /// How many conflicts there can have been.
    pub open spec fn conflict_bound(self) -> int {
        match self.phase {
            PhaseView::Purging(_) => 0,
            PhaseView::Scanning => 0,
            PhaseView::RescuingRemote(i, _) => i + 1,
            PhaseView::RescuingLocal(i, _) => i + 1,
            PhaseView::Creating(i) => i,
            PhaseView::Pushing(i, _) => i + 1,
            PhaseView::Pulling(i, _) => i + 1,
            PhaseView::Dating(i, _) => i + 1,
            _ => self.notes.order.len() as int,
        }
    }

    /// What is gone was not listed, and its file is the one that the index has
    /// for it, unless this sync wrote it anew.
    pub open spec fn gone_wf(self) -> bool {
        forall|j: int|
            0 <= j < self.gone.len() ==> {
                let e = #[trigger] self.gone[j];
                &&& !self.notes.has(e.0)
                &&& self.index.has(e.0) && !self.touched.contains(e.0) ==> self.index.map[e.0].id
                    == e.1
            }
    }

    /// Every note that was deleted is gone, with the file that the index has for
    /// it; from number `k` on.
    pub open spec fn gone_from(self, k: int) -> bool {
        forall|p: Seq<char>| #[trigger]
            self.index.has(p) && self.was_deleted(p) ==> exists|j: int|
                k <= j < self.gone.len() && #[trigger] self.gone[j] == (p, self.index.map[p].id)
    }

    /// The index has no note that was deleted.
    pub open spec fn is_clean(self) -> bool {
        forall|p: Seq<char>| #[trigger] self.index.has(p) ==> !self.was_deleted(p)
    }

    /// The phase speaks of notes, files and renames that there are.
    pub open spec fn phase_wf(self) -> bool {
        match self.phase {
            PhaseView::Purging(k) => 0 <= k < self.doomed.len(),
            PhaseView::RescuingRemote(i, f) => 0 <= i < self.notes.order.len() && 0 <= f
                < self.files.len(),
            PhaseView::RescuingLocal(i, f) => 0 <= i < self.notes.order.len() && 0 <= f
                < self.files.len(),
            PhaseView::Creating(i) => 0 <= i < self.notes.order.len(),
            PhaseView::Pushing(i, f) => 0 <= i < self.notes.order.len() && 0 <= f
                < self.files.len(),
            PhaseView::Pulling(i, f) => 0 <= i < self.notes.order.len() && 0 <= f
                < self.files.len(),
            PhaseView::Dating(i, f) => 0 <= i < self.notes.order.len() && 0 <= f
                < self.files.len(),
            PhaseView::Probing(k) => 0 <= k < self.renames.len(),
            PhaseView::Renaming(k) => 0 <= k < self.renames.len(),
            PhaseView::Fetching(f) => {
                &&& 0 <= f < self.files.len()
                &&& self.only_remote(f)
                &&& self.gone_wf()
                &&& self.gone_from(0)
            },
            PhaseView::DatingFetched(f) => {
                &&& 0 <= f < self.files.len()
                &&& self.gone_wf()
                &&& self.gone_from(0)
            },
            PhaseView::Cleaning(k) => {
                &&& 0 <= k < self.gone.len()
                &&& self.gone_wf()
                &&& self.gone_from(k)
            },
            PhaseView::Saving => self.error is None ==> self.is_clean(),
            PhaseView::Finished => self.error is None ==> self.is_clean(),
            _ => true,
        }
    }

    /// The state is one that a sync can be in.
    pub open spec fn wf(self) -> bool {
        &&& self.index.wf()
        &&& self.notes.wf()
        &&& self.phase_wf()
        &&& 0 <= self.uploaded
        &&& 0 <= self.downloaded
        &&& self.uploaded + self.downloaded <= self.transfer_bound()
        &&& 0 <= self.conflicts <= self.conflict_bound()
        &&& 0 <= self.chars <= u64::MAX
        &&& self.error is Some ==> self.phase is Saving || self.phase is Finished
        &&& self.phase is Purging || self.phase is Scanning || self.error is Some
            || self.notes.order.len() + self.files.len() <= u32::MAX
    }
}

/// The state in which a sync begins.
pub open spec fn begun(index: Shelf<EntryView>, listed: Seq<FileView>) -> RunView {
    let d = remote::dedup(index, listed);
    RunView {
        index,
        files: d.kept,
        doomed: d.doomed,
        notes: Shelf::empty(),
        seen: Seq::empty(),
        touched: Seq::empty(),
        renames: Seq::empty(),
        gone: Seq::empty(),
        revived: Seq::empty(),
        uploaded: 0,
        downloaded: 0,
        conflicts: 0,
        chars: 0,
        phase: if d.doomed.len() > 0 {
            PhaseView::Purging(0)
        } else {
            PhaseView::Scanning
        },
        error: None,
    }
}

// ---------------------------------------------------------------------------
// Every state is valid
// ---------------------------------------------------------------------------

proof fn lemma_from_clean_wf(s: RunView)
    requires
        s.index.wf(),
        s.error is None,
        s.notes.wf(),
        0 <= s.uploaded,
        0 <= s.downloaded,
        s.uploaded + s.downloaded <= s.notes.order.len() + s.files.len() <= u32::MAX,
        0 <= s.conflicts <= s.notes.order.len(),
        0 <= s.chars <= u64::MAX,
        s.gone_wf(),
        s.gone_from(0),
    ensures
        s.from_clean().wf(),
{
    let pred = |e: (Seq<char>, Seq<char>)| s.is_due(e);
    let left = s.gone.filter(pred);
    let t = s.from_clean();
    lemma_filter_sub(s.gone, pred);
    assert forall|j: int| 0 <= j < left.len() implies {
        let e = #[trigger] left[j];
        &&& !s.notes.has(e.0)
        &&& s.index.has(e.0) && !s.touched.contains(e.0) ==> s.index.map[e.0].id == e.1
    } by {
        assert(s.gone.contains(left[j]));
    }
    assert forall|p: Seq<char>| #[trigger] t.index.has(p) && t.was_deleted(p) implies exists|j: int|
        0 <= j < left.len() && #[trigger] left[j] == (p, t.index.map[p].id) by {
        assert(s.index.has(p) && s.was_deleted(p));
        let j = choose|j: int|
            0 <= j < s.gone.len() && #[trigger] s.gone[j] == (p, s.index.map[p].id);
        assert(s.gone.contains(s.gone[j]));
        assert(pred(s.gone[j]));
        assert(left.contains(s.gone[j]));
    }
}

/// What is gone is known once it was looked for.
pub proof fn with_gone_knows_all(s: RunView)
    requires
        s.index.wf(),
    ensures
        s.with_gone().gone_wf(),
        s.with_gone().gone_from(0),
        forall|j: int|
            0 <= j < s.with_gone().gone.len() ==> {
                let e = #[trigger] s.with_gone().gone[j];
                s.index.has(e.0) && s.was_deleted(e.0) && e.1 == s.index.map[e.0].id
            },
{
    let pred = |p: Seq<char>| s.was_deleted(p);
    let paths = s.index.order.filter(pred);
    let t = s.with_gone();
    lemma_filter_sub(s.index.order, pred);
    assert forall|j: int| 0 <= j < t.gone.len() implies s.index.has((#[trigger] t.gone[j]).0)
        && s.was_deleted(t.gone[j].0) && t.gone[j].1 == s.index.map[t.gone[j].0].id by {
        assert(t.gone[j].0 == paths[j]);
        assert(s.index.order.contains(paths[j]));
    }
    assert forall|p: Seq<char>| #[trigger] t.index.has(p) && t.was_deleted(p) implies exists|j: int|
        0 <= j < t.gone.len() && #[trigger] t.gone[j] == (p, t.index.map[p].id) by {
        assert(s.index.order.contains(p));
        assert(pred(p));
        assert(paths.contains(p));
        let j = choose|j: int| 0 <= j < paths.len() && paths[j] == p;
        assert(t.gone[j] == (p, s.index.map[p].id));
    }
}

/// What a filter lets through was there and passes the filter, and all of that
/// comes through.
pub proof fn lemma_filter_sub<A>(s: Seq<A>, pred: spec_fn(A) -> bool)
    ensures
        forall|j: int|
            0 <= j < s.filter(pred).len() ==> s.contains(#[trigger] s.filter(pred)[j]) && pred(
                s.filter(pred)[j],
            ),
        forall|x: A| s.contains(x) && pred(x) ==> #[trigger] s.filter(pred).contains(x),
    decreases s.len(),
{
    reveal(Seq::filter);
    if s.len() > 0 {
        let t = s.drop_last();
        lemma_filter_sub(t, pred);
        let u = s.filter(pred);
        let n = t.filter(pred).len() as int;
        assert forall|j: int| 0 <= j < u.len() implies s.contains(#[trigger] u[j]) && pred(u[j]) by {
            if j < n {
                assert(t.contains(t.filter(pred)[j]));
                let k = choose|k: int| 0 <= k < t.len() && t[k] == t.filter(pred)[j];
                assert(s[k] == u[j]);
            } else {
                assert(s[s.len() - 1] == u[j]);
            }
        }
        assert forall|x: A| s.contains(x) && pred(x) implies #[trigger] u.contains(x) by {
            let k = choose|k: int| 0 <= k < s.len() && s[k] == x;
            if k < t.len() {
                assert(t[k] == x);
                assert(t.contains(x));
                assert(t.filter(pred).contains(x));
                let j = choose|j: int| 0 <= j < n && t.filter(pred)[j] == x;
                assert(u[j] == x);
            } else {
                assert(u[n] == x);
            }
        }
    }
}

proof fn lemma_from_fetch_wf(s: RunView, f: int)
    requires
        s.index.wf(),
        s.error is None,
        s.notes.wf(),
        0 <= f,
        0 <= s.uploaded,
        0 <= s.downloaded,
        s.notes.order.len() + s.files.len() <= u32::MAX,
        s.uploaded + s.downloaded <= s.notes.order.len() + f,
        f <= s.files.len(),
        0 <= s.conflicts <= s.notes.order.len(),
        0 <= s.chars <= u64::MAX,
        s.gone_wf(),
        s.gone_from(0),
    ensures
        s.from_fetch(f).wf(),
    decreases s.files.len() - f,
{
    if f >= s.files.len() {
        lemma_from_clean_wf(s);
    } else if !s.only_remote(f) {
        lemma_from_fetch_wf(s, f + 1);
    } else {
        let t = s.at(PhaseView::Fetching(f));
        assert(t.only_remote(f)) by {
            if t.is_gone(t.files[f].id) {
                let j = choose|j: int| 0 <= j < t.gone.len() && (#[trigger] t.gone[j]).1 == t.files[f].id;
                assert(s.gone[j].1 == s.files[f].id);
            }
        }
        assert forall|p: Seq<char>| #[trigger] t.index.has(p) && t.was_deleted(p) implies exists|
            j: int,
        |
            0 <= j < t.gone.len() && #[trigger] t.gone[j] == (p, t.index.map[p].id) by {
            assert(s.index.has(p) && s.was_deleted(p));
            let j = choose|j: int|
                0 <= j < s.gone.len() && #[trigger] s.gone[j] == (p, s.index.map[p].id);
            assert(t.gone[j] == (p, t.index.map[p].id));
        }
    }
}

proof fn lemma_from_rename_wf(s: RunView, k: int)
    requires
        s.index.wf(),
        s.error is None,
        s.notes.wf(),
        0 <= k,
        0 <= s.uploaded,
        0 <= s.downloaded,
        s.notes.order.len() + s.files.len() <= u32::MAX,
        s.uploaded + s.downloaded <= s.notes.order.len(),
        0 <= s.conflicts <= s.notes.order.len(),
        0 <= s.chars <= u64::MAX,
    ensures
        s.from_rename(k).wf(),
{
    if k >= s.renames.len() {
        with_gone_knows_all(s);
        lemma_from_fetch_wf(s.with_gone(), 0);
    }
}

proof fn lemma_from_note_wf(s: RunView, i: int)
    requires
        s.index.wf(),
        s.error is None,
        s.notes.wf(),
        0 <= i <= s.notes.order.len(),
        0 <= s.uploaded,
        0 <= s.downloaded,
        s.notes.order.len() + s.files.len() <= u32::MAX,
        s.uploaded + s.downloaded <= i,
        0 <= s.conflicts <= i,
        0 <= s.chars <= u64::MAX,
    ensures
        s.from_note(i).wf(),
    decreases s.notes.order.len() - i,
{
    if i >= s.notes.order.len() {
        lemma_from_rename_wf(s, 0);
    } else {
        plan::counterpart_is_justified(s.index.get(s.path(i)), s.files, s.path(i));
        match (s.plan(i), s.counterpart(i)) {
            (Plan::Keep, Some((f, by_id))) => {
                let e = EntryView { id: s.files[f].id, ..s.index.map[s.path(i)] };
                s.index.set_wf(s.path(i), e);
                lemma_from_note_wf(s.noticed(i, f, by_id, false).recorded(s.path(i), e), i + 1);
            },
            _ => {},
        }
    }
}

/// A sync begins in a valid state.
pub proof fn begun_wf(index: Shelf<EntryView>, listed: Seq<FileView>)
    requires
        index.wf(),
    ensures
        begun(index, listed).wf(),
{
}

/// Every reply that answers what was asked leads from a valid state to a valid
/// state.
pub proof fn after_wf(s: RunView, reply: ReplyView)
    requires
        s.wf(),
        s.accepts(reply),
    ensures
        s.after(reply).wf(),
{
    match (s.phase, reply) {
        (PhaseView::Scanning, ReplyView::Scanned { notes }) => {
            lemma_from_note_wf(RunView { notes, ..s }, 0);
        },
        (PhaseView::Creating(i), ReplyView::Uploaded { id, ms, chars }) => {
            let e = EntryView { id, local_mtime_ms: s.local_ms(i), remote_mtime_ms: ms };
            s.index.set_wf(s.path(i), e);
            lemma_from_note_wf(s.recorded(s.path(i), e).one_up(chars), i + 1);
        },
        (PhaseView::Pushing(i, f), ReplyView::Updated { ms, chars }) => {
            let e = EntryView {
                id: s.files[f].id,
                local_mtime_ms: s.local_ms(i),
                remote_mtime_ms: ms,
            };
            s.index.set_wf(s.path(i), e);
            lemma_from_note_wf(s.recorded(s.path(i), e).one_up(chars), i + 1);
        },
        (PhaseView::Pulling(i, f), ReplyView::Downloaded { chars }) => {
            s.index.set_wf(s.path(i), s.level_entry(f));
        },
        (PhaseView::Dating(i, _), _) => {
            lemma_from_note_wf(s, i + 1);
        },
        (PhaseView::Probing(k), ReplyView::Probed { from, to }) => {
            lemma_from_rename_wf(s, k + 1);
        },
        (PhaseView::Renaming(k), ReplyView::Renamed { mtime }) => {
            let (from, to) = s.renames[k];
            s.index.unset_wf(from);
            if s.index.get(from) is Some {
                let e = s.index.get(from)->0;
                s.index.unset(from).set_wf(
                    to,
                    EntryView {
                        local_mtime_ms: match mtime {
                            Some(t) => t,
                            None => e.local_mtime_ms,
                        },
                        ..e
                    },
                );
            }
            lemma_from_rename_wf(s.renamed(k, mtime), k + 1);
        },
        (PhaseView::Fetching(f), ReplyView::Downloaded { chars }) => {
            let name = s.files[f].name;
            let t = s.after(reply);
            s.index.set_wf(name, s.level_entry(f));
            assert(t.touched[s.touched.len() as int] == name);
            assert forall|x: Seq<char>| s.touched.contains(x) implies t.touched.contains(x) by {
                let k = choose|k: int| 0 <= k < s.touched.len() && s.touched[k] == x;
                assert(t.touched[k] == x);
            }
            assert forall|p: Seq<char>| #[trigger]
                t.index.has(p) && t.was_deleted(p) implies exists|j: int|
                0 <= j < t.gone.len() && #[trigger] t.gone[j] == (p, t.index.map[p].id) by {
                assert(p != name);
                assert(s.index.has(p) && s.was_deleted(p));
                let j = choose|j: int|
                    0 <= j < s.gone.len() && #[trigger] s.gone[j] == (p, s.index.map[p].id);
                assert(t.gone[j] == (p, t.index.map[p].id));
            }
        },
        (PhaseView::DatingFetched(f), _) => {
            lemma_from_fetch_wf(s, f + 1);
        },
        (PhaseView::Cleaning(k), _) => {
            let path = s.gone[k].0;
            let t = s.after(reply);
            s.index.unset_wf(path);
            assert forall|p: Seq<char>| #[trigger]
                t.index.has(p) && t.was_deleted(p) implies exists|j: int|
                k + 1 <= j < t.gone.len() && #[trigger] t.gone[j] == (p, t.index.map[p].id) by {
                assert(s.index.has(p) && s.was_deleted(p));
                let j = choose|j: int|
                    k <= j < s.gone.len() && #[trigger] s.gone[j] == (p, s.index.map[p].id);
                assert(j != k);
                assert(t.gone[j] == (p, t.index.map[p].id));
            }
        },
        _ => {},
    }
}

} // verus!
