//! A sync, run step by step: it says what it needs next, and takes the reply.

use crate::index::{SyncFileEntry, SyncMeta};
use crate::pathmap::PathMap;
use crate::plan;
use crate::plan::{decide, find_counterpart, mtime_differs, Plan};
use crate::remote;
use crate::remote::{dedup_files, DriveFile};
use crate::sync_model;
use crate::sync_model::{ActionView, PhaseView, ReplyView, ResultView, RunView};
use crate::text;
use crate::text::{decimal_text, same_text};
use vstd::prelude::*;

verus! {

/// What a sync reports at its end.
#[derive(Debug)]
pub struct SyncResult {
    pub uploaded: u32,
    pub downloaded: u32,
    pub conflicts: u32,
    /// How many characters were transferred.
    pub chars_synced: u64,
    /// The result in one line.
    pub summary: String,
}

impl View for SyncResult {
    type V = ResultView;

    open spec fn view(&self) -> ResultView {
        ResultView {
            uploaded: self.uploaded as int,
            downloaded: self.downloaded as int,
            conflicts: self.conflicts as int,
            chars_synced: self.chars_synced as int,
            summary: self.summary@,
        }
    }
}

/// What a sync asks for.
#[derive(Debug)]
pub enum Action {
    /// Delete a file on Drive; a failure is of no consequence.
    DeleteRemote { id: String },
    /// List the notes with the times they changed.
    ScanNotes,
    /// Copy what Drive has to a conflict copy beside the note.
    CopyRemote { path: String, id: String },
    /// Copy the note to a conflict copy beside it.
    CopyLocal { path: String },
    /// Make a file on Drive with the content of a note.
    Upload { path: String },
    /// Replace the content of a file on Drive with that of a note.
    Update { path: String, id: String },
    /// Replace a note, or make one, with the content of a file on Drive.
    Download { path: String, id: String },
    /// Give a note the time `ms`; a failure is of no consequence.
    SetMtime { path: String, ms: u64 },
    /// Look up whether there are files at two paths.
    Probe { from: String, to: String },
    /// Move a note.
    Rename { from: String, to: String },
    /// Store the index.
    SaveIndex,
    /// Nothing: the sync is over.
    Finish { outcome: Result<SyncResult, String> },
}

impl View for Action {
    type V = ActionView;

    open spec fn view(&self) -> ActionView {
        match self {
            Action::DeleteRemote { id } => ActionView::DeleteRemote { id: id@ },
            Action::ScanNotes => ActionView::ScanNotes,
            Action::CopyRemote { path, id } => ActionView::CopyRemote { path: path@, id: id@ },
            Action::CopyLocal { path } => ActionView::CopyLocal { path: path@ },
            Action::Upload { path } => ActionView::Upload { path: path@ },
            Action::Update { path, id } => ActionView::Update { path: path@, id: id@ },
            Action::Download { path, id } => ActionView::Download { path: path@, id: id@ },
            Action::SetMtime { path, ms } => ActionView::SetMtime { path: path@, ms: *ms as int },
            Action::Probe { from, to } => ActionView::Probe { from: from@, to: to@ },
            Action::Rename { from, to } => ActionView::Rename { from: from@, to: to@ },
            Action::SaveIndex => ActionView::SaveIndex,
            Action::Finish { outcome } => ActionView::Finish {
                outcome: match outcome {
                    Ok(r) => Ok(r@),
                    Err(e) => Err(e@),
                },
            },
        }
    }
}

/// What came of an action.
pub enum Reply {
    Done,
    Scanned { notes: PathMap<u64> },
    /// The id of the new file, the time Drive gave it, and its size.
    Uploaded { id: String, ms: u64, chars: u64 },
    /// The time Drive gave the file, and its size.
    Updated { ms: u64, chars: u64 },
    Downloaded { chars: u64 },
    Probed { from: bool, to: bool },
    /// When the moved note changed, where that can be told.
    Renamed { mtime: Option<u64> },
    Failed { error: String },
}

impl View for Reply {
    type V = ReplyView;

    open spec fn view(&self) -> ReplyView {
        match self {
            Reply::Done => ReplyView::Done,
            Reply::Scanned { notes } => ReplyView::Scanned { notes: notes@ },
            Reply::Uploaded { id, ms, chars } => ReplyView::Uploaded {
                id: id@,
                ms: *ms,
                chars: *chars,
            },
            Reply::Updated { ms, chars } => ReplyView::Updated { ms: *ms, chars: *chars },
            Reply::Downloaded { chars } => ReplyView::Downloaded { chars: *chars },
            Reply::Probed { from, to } => ReplyView::Probed { from: *from, to: *to },
            Reply::Renamed { mtime } => ReplyView::Renamed { mtime: *mtime },
            Reply::Failed { error } => ReplyView::Failed { error: error@ },
        }
    }
}

impl Reply {
    /// The listed notes are well formed.
    pub open spec fn wf(&self) -> bool {
        match self {
            Reply::Scanned { notes } => notes.wf(),
            _ => true,
        }
    }
}

#[derive(Clone, Copy)]
enum Phase {
    Purging(usize),
    Scanning,
    RescuingRemote(usize, usize),
    RescuingLocal(usize, usize),
    Creating(usize),
    Pushing(usize, usize),
    Pulling(usize, usize),
    Dating(usize, usize),
    Probing(usize),
    Renaming(usize),
    Fetching(usize),
    DatingFetched(usize),
    Cleaning(usize),
    Saving,
    Finished,
}

impl View for Phase {
    type V = PhaseView;

    closed spec fn view(&self) -> PhaseView {
        match self {
            Phase::Purging(k) => PhaseView::Purging(*k as int),
            Phase::Scanning => PhaseView::Scanning,
            Phase::RescuingRemote(i, f) => PhaseView::RescuingRemote(*i as int, *f as int),
            Phase::RescuingLocal(i, f) => PhaseView::RescuingLocal(*i as int, *f as int),
            Phase::Creating(i) => PhaseView::Creating(*i as int),
            Phase::Pushing(i, f) => PhaseView::Pushing(*i as int, *f as int),
            Phase::Pulling(i, f) => PhaseView::Pulling(*i as int, *f as int),
            Phase::Dating(i, f) => PhaseView::Dating(*i as int, *f as int),
            Phase::Probing(k) => PhaseView::Probing(*k as int),
            Phase::Renaming(k) => PhaseView::Renaming(*k as int),
            Phase::Fetching(f) => PhaseView::Fetching(*f as int),
            Phase::DatingFetched(f) => PhaseView::DatingFetched(*f as int),
            Phase::Cleaning(k) => PhaseView::Cleaning(*k as int),
            Phase::Saving => PhaseView::Saving,
            Phase::Finished => PhaseView::Finished,
        }
    }
}

/// A sync under way.
pub struct SyncRun {
    index: SyncMeta,
    files: Vec<DriveFile>,
    doomed: Vec<String>,
    notes: PathMap<u64>,
    seen: Vec<String>,
    touched: Vec<String>,
    renames: Vec<(String, String)>,
    gone: Vec<(String, String)>,
    revived: Vec<String>,
    uploaded: u32,
    downloaded: u32,
    conflicts: u32,
    chars: u64,
    phase: Phase,
    error: Option<String>,
}

spec fn pairs(v: Seq<(String, String)>) -> Seq<(Seq<char>, Seq<char>)> {
    v.map_values(|p: (String, String)| (p.0@, p.1@))
}

impl View for SyncRun {
    type V = RunView;

    closed spec fn view(&self) -> RunView {
        RunView {
            index: self.index@,
            files: remote::views(self.files@),
            doomed: remote::texts(self.doomed@),
            notes: self.notes@,
            seen: remote::texts(self.seen@),
            touched: remote::texts(self.touched@),
            renames: pairs(self.renames@),
            gone: pairs(self.gone@),
            revived: remote::texts(self.revived@),
            uploaded: self.uploaded as int,
            downloaded: self.downloaded as int,
            conflicts: self.conflicts as int,
            chars: self.chars as int,
            phase: self.phase@,
            error: text::opt_text(self.error),
        }
    }
}

/// Whether `x` is among the texts `v`.
pub fn among(v: &Vec<String>, x: &str) -> (r: bool)
    ensures
        r == remote::texts(v@).contains(x@),
{
    let mut i: usize = 0;
    while i < v.len()
        invariant
            i <= v@.len(),
            forall|j: int| 0 <= j < i ==> v@[j]@ != x@,
        decreases v@.len() - i,
    {
        if same_text(v[i].as_str(), x) {
            assert(remote::texts(v@)[i as int] == x@);
            return true;
        }
        i += 1;
    }
    proof {
        if remote::texts(v@).contains(x@) {
            let j = choose|j: int| 0 <= j < remote::texts(v@).len() && remote::texts(v@)[j] == x@;
            assert(v@[j]@ == x@);
        }
    }
    false
}

/// The result of a sync in one line.
pub fn summary(transfers: u32, conflicts: u32) -> (r: String)
    ensures
        r@ == sync_model::summary_of(transfers as int, conflicts as int),
{
    if transfers == 0 && conflicts == 0 {
        return "Already up to date".to_owned();
    }
    let mut s = "Synced ".to_owned();
    s.append(decimal_text(transfers as u64).as_str());
    let ghost a = s@;
    s.append(" note");
    if transfers != 1 {
        s.append("s");
    }
    assert(s@ =~= a + sync_model::plural(transfers as int, " note"@));
    s.append(", ");
    s.append(decimal_text(conflicts as u64).as_str());
    let ghost b = s@;
    s.append(" conflict");
    if conflicts != 1 {
        s.append("s");
    }
    assert(s@ =~= b + sync_model::plural(conflicts as int, " conflict"@));
    s
}

impl SyncRun {
    /// The state is one that a sync can be in.
    pub closed spec fn wf(&self) -> bool {
        &&& self.index.wf()
        &&& self.notes.wf()
        &&& self@.wf()
    }

    /// Begins a sync, given the index and the files that Drive lists.
    pub fn begin(index: SyncMeta, listed: &Vec<DriveFile>) -> (r: SyncRun)
        requires
            index.wf(),
        ensures
            r.wf(),
            r@ == sync_model::begun(index@, remote::views(listed@)),
    {
        let (files, doomed) = dedup_files(&index, listed);
        let phase = if doomed.len() > 0 {
            Phase::Purging(0)
        } else {
            Phase::Scanning
        };
        let r = SyncRun {
            index,
            files,
            doomed,
            notes: PathMap::new(),
            seen: Vec::new(),
            touched: Vec::new(),
            renames: Vec::new(),
            gone: Vec::new(),
            revived: Vec::new(),
            uploaded: 0,
            downloaded: 0,
            conflicts: 0,
            chars: 0,
            phase,
            error: None,
        };
        proof {
            r.index.files.lemma_wf();
            r.notes.lemma_wf();
            assert(r@.seen =~= Seq::empty());
            assert(r@.touched =~= Seq::empty());
            assert(r@.renames =~= Seq::empty());
            assert(r@.gone =~= Seq::empty());
            assert(r@.revived =~= Seq::empty());
        }
        r
    }

    /// The index as it stands.
    pub fn index(&self) -> (r: &SyncMeta)
        requires
            self.wf(),
        ensures
            r.wf(),
            r@ == self@.index,
    {
        &self.index
    }

    /// What the sync asks for.
    pub fn pending(&self) -> (r: Action)
        requires
            self.wf(),
        ensures
            r@ == self@.pending(),
    {
        proof {
            self.lemma_elements();
        }
        match self.phase {
            Phase::Purging(k) => Action::DeleteRemote { id: self.doomed[k].clone() },
            Phase::Scanning => Action::ScanNotes,
            Phase::RescuingRemote(i, f) => Action::CopyRemote {
                path: self.notes.key_at(i).clone(),
                id: self.files[f].id.clone(),
            },
            Phase::RescuingLocal(i, _) => Action::CopyLocal { path: self.notes.key_at(i).clone() },
            Phase::Creating(i) => Action::Upload { path: self.notes.key_at(i).clone() },
            Phase::Pushing(i, f) => Action::Update {
                path: self.notes.key_at(i).clone(),
                id: self.files[f].id.clone(),
            },
            Phase::Pulling(i, f) => Action::Download {
                path: self.notes.key_at(i).clone(),
                id: self.files[f].id.clone(),
            },
            Phase::Dating(i, f) => Action::SetMtime {
                path: self.notes.key_at(i).clone(),
                ms: self.files[f].mtime_ms(),
            },
            Phase::Probing(k) => Action::Probe {
                from: self.renames[k].0.clone(),
                to: self.renames[k].1.clone(),
            },
            Phase::Renaming(k) => Action::Rename {
                from: self.renames[k].0.clone(),
                to: self.renames[k].1.clone(),
            },
            Phase::Fetching(f) => Action::Download {
                path: self.files[f].name.clone(),
                id: self.files[f].id.clone(),
            },
            Phase::DatingFetched(f) => Action::SetMtime {
                path: self.files[f].name.clone(),
                ms: self.files[f].mtime_ms(),
            },
            Phase::Cleaning(k) => Action::DeleteRemote { id: self.gone[k].1.clone() },
            Phase::Saving => Action::SaveIndex,
            Phase::Finished => Action::Finish { outcome: self.outcome() },
        }
    }

    fn outcome(&self) -> (r: Result<SyncResult, String>)
        requires
            self.wf(),
            self.phase is Finished,
        ensures
            match r {
                Ok(x) => self@.outcome() == Ok::<ResultView, Seq<char>>(x@),
                Err(e) => self@.outcome() == Err::<ResultView, Seq<char>>(e@),
            },
    {
        match &self.error {
            Some(e) => Err(e.clone()),
            None => Ok(
                SyncResult {
                    uploaded: self.uploaded,
                    downloaded: self.downloaded,
                    conflicts: self.conflicts,
                    chars_synced: self.chars,
                    summary: summary(self.uploaded + self.downloaded, self.conflicts),
                },
            ),
        }
    }

    proof fn lemma_elements(&self)
        ensures
            forall|i: int| 0 <= i < self.files@.len() ==> self@.files[i] == #[trigger] self.files@[i]@,
            forall|i: int|
                0 <= i < self.doomed@.len() ==> self@.doomed[i] == #[trigger] self.doomed@[i]@,
            forall|i: int|
                0 <= i < self.gone@.len() ==> self@.gone[i] == (
                    (#[trigger] self.gone@[i]).0@,
                    self.gone@[i].1@,
                ),
            forall|i: int|
                0 <= i < self.renames@.len() ==> self@.renames[i] == (
                    (#[trigger] self.renames@[i]).0@,
                    self.renames@[i].1@,
                ),
    {
    }
}

impl SyncRun {
    /// Whether `reply` answers what the sync asked for, and its counts fit.
    pub fn accepts(&self, reply: &Reply) -> (r: bool)
        requires
            self.wf(),
            reply.wf(),
        ensures
            r == self@.accepts(reply@),
    {
        match (self.phase, reply) {
            (Phase::Scanning, Reply::Scanned { notes }) => {
                proof {
                    notes.lemma_wf();
                }
                notes.len() <= u32::MAX as usize && self.files.len() <= u32::MAX as usize
                    - notes.len()
            },
            (Phase::Scanning, Reply::Failed { .. }) => true,
            (Phase::Creating(_), Reply::Uploaded { chars, .. }) => *chars <= u64::MAX - self.chars,
            (Phase::Creating(_), Reply::Failed { .. }) => true,
            (Phase::Pushing(_, _), Reply::Updated { chars, .. }) => *chars <= u64::MAX - self.chars,
            (Phase::Pushing(_, _), Reply::Failed { .. }) => true,
            (Phase::Pulling(_, _), Reply::Downloaded { chars }) => *chars <= u64::MAX - self.chars,
            (Phase::Pulling(_, _), Reply::Failed { .. }) => true,
            (Phase::Fetching(_), Reply::Downloaded { chars }) => *chars <= u64::MAX - self.chars,
            (Phase::Fetching(_), Reply::Failed { .. }) => true,
            (Phase::Probing(_), Reply::Probed { .. }) => true,
            (Phase::Renaming(_), Reply::Renamed { .. }) => true,
            (Phase::Purging(_), Reply::Done) => true,
            (Phase::RescuingRemote(_, _), Reply::Done) => true,
            (Phase::RescuingRemote(_, _), Reply::Failed { .. }) => true,
            (Phase::RescuingLocal(_, _), Reply::Done) => true,
            (Phase::RescuingLocal(_, _), Reply::Failed { .. }) => true,
            (Phase::Dating(_, _), Reply::Done) => true,
            (Phase::DatingFetched(_), Reply::Done) => true,
            (Phase::Cleaning(_), Reply::Done) => true,
            (Phase::Saving, Reply::Done) => true,
            _ => false,
        }
    }

    /// Takes the reply to what the sync asked for.
    pub fn advance(&mut self, reply: Reply)
        requires
            old(self).wf(),
            reply.wf(),
            old(self)@.accepts(reply@),
        ensures
            final(self).wf(),
            final(self)@ == old(self)@.after(reply@),
    {
        let ghost before = self@;
        let ghost said = reply@;
        proof {
            sync_model::after_wf(before, said);
            self.lemma_elements();
        }
        match (self.phase, reply) {
            (Phase::Purging(k), _) => {
                assert(k < self.doomed.len());
                if k + 1 < self.doomed.len() {
                    self.phase = Phase::Purging(k + 1);
                } else {
                    self.phase = Phase::Scanning;
                }
            },
            (Phase::Scanning, Reply::Scanned { notes }) => {
                self.notes = notes;
                self.from_note(0);
            },
            (Phase::RescuingRemote(i, f), Reply::Done) => {
                self.phase = Phase::Pushing(i, f);
            },
            (Phase::RescuingLocal(i, f), Reply::Done) => {
                self.phase = Phase::Pulling(i, f);
            },
            (Phase::Creating(i), Reply::Uploaded { id, ms, chars }) => {
                let path = self.notes.key_at(i).clone();
                let local = *self.notes.value_at(i);
                self.index.files.insert(
                    path,
                    SyncFileEntry { id, local_mtime_ms: local, remote_mtime_ms: ms },
                );
                self.uploaded = self.uploaded + 1;
                self.chars = self.chars + chars;
                self.from_note(i + 1);
            },
            (Phase::Pushing(i, f), Reply::Updated { ms, chars }) => {
                let path = self.notes.key_at(i).clone();
                let local = *self.notes.value_at(i);
                let id = self.files[f].id.clone();
                self.index.files.insert(
                    path,
                    SyncFileEntry { id, local_mtime_ms: local, remote_mtime_ms: ms },
                );
                self.uploaded = self.uploaded + 1;
                self.chars = self.chars + chars;
                self.from_note(i + 1);
            },
            (Phase::Pulling(i, f), Reply::Downloaded { chars }) => {
                let path = self.notes.key_at(i).clone();
                self.take_over(path, f, chars);
                self.phase = Phase::Dating(i, f);
            },
            (Phase::Dating(i, _), _) => {
                self.from_note(i + 1);
            },
            (Phase::Probing(k), Reply::Probed { from, to }) => {
                assert(k < self.renames.len());
                if from && !to {
                    self.phase = Phase::Renaming(k);
                } else {
                    self.from_rename(k + 1);
                }
            },
            (Phase::Renaming(k), Reply::Renamed { mtime }) => {
                assert(k < self.renames.len());
                self.follow_rename(k, mtime);
                self.from_rename(k + 1);
            },
            (Phase::Fetching(f), Reply::Downloaded { chars }) => {
                let path = self.files[f].name.clone();
                self.take_over(path, f, chars);
                self.phase = Phase::DatingFetched(f);
            },
            (Phase::DatingFetched(f), _) => {
                self.from_fetch(f + 1);
            },
            (Phase::Cleaning(k), _) => {
                assert(k < self.gone.len());
                let path = self.gone[k].0.clone();
                if !among(&self.touched, path.as_str()) {
                    let _entry = self.index.files.remove(path.as_str());
                }
                if k + 1 < self.gone.len() {
                    self.phase = Phase::Cleaning(k + 1);
                } else {
                    self.phase = Phase::Saving;
                    self.error = None;
                }
            },
            (Phase::Saving, _) => {
                self.phase = Phase::Finished;
            },
            (_, Reply::Failed { error }) => {
                self.phase = Phase::Saving;
                self.error = Some(error);
            },
            _ => {},
        }
    }

    /// The file `f` now stands at `path` too.
    fn take_over(&mut self, path: String, f: usize, chars: u64)
        requires
            old(self).index.wf(),
            f < old(self).files@.len(),
            old(self).downloaded < u32::MAX,
            old(self).chars + chars <= u64::MAX,
        ensures
            final(self).index.wf(),
            final(self).notes == old(self).notes,
            final(self)@ == old(self)@.recorded(path@, old(self)@.level_entry(f as int)).one_down(
                path@,
                chars,
            ),
    {
        let ghost before = *self;
        let ms = self.files[f].mtime_ms();
        let id = self.files[f].id.clone();
        proof {
            self.lemma_elements();
        }
        let copy = path.clone();
        self.index.files.insert(
            copy,
            SyncFileEntry { id, local_mtime_ms: ms, remote_mtime_ms: ms },
        );
        self.downloaded = self.downloaded + 1;
        self.chars = self.chars + chars;
        self.touched.push(path);
        assert(remote::texts(self.touched@) =~= remote::texts(before.touched@).push(path@));
    }

    /// Rename number `k` was made.
    fn follow_rename(&mut self, k: usize, mtime: Option<u64>)
        requires
            old(self).index.wf(),
            k < old(self).renames@.len(),
        ensures
            final(self).index.wf(),
            final(self).notes == old(self).notes,
            final(self)@ == old(self)@.renamed(k as int, mtime),
    {
        let ghost before = *self;
        proof {
            self.lemma_elements();
        }
        let from = self.renames[k].0.clone();
        let to = self.renames[k].1.clone();
        match self.index.files.remove(from.as_str()) {
            Some(e) => {
                let entry = SyncFileEntry {
                    id: e.id,
                    local_mtime_ms: match mtime {
                        Some(t) => t,
                        None => e.local_mtime_ms,
                    },
                    remote_mtime_ms: e.remote_mtime_ms,
                };
                let copy = to.clone();
                self.index.files.insert(copy, entry);
            },
            None => {},
        }
        self.touched.push(from);
        self.touched.push(to);
        assert(remote::texts(self.touched@) =~= remote::texts(before.touched@).push(from@).push(to@));
    }

    /// Goes on with note `start`.
    fn from_note(&mut self, start: usize)
        requires
            old(self).index.wf(),
            old(self).notes.wf(),
            start <= old(self)@.notes.order.len() <= u32::MAX,
            old(self).conflicts <= start,
        ensures
            final(self).index.wf(),
            final(self).notes.wf(),
            final(self)@ == old(self)@.from_note(start as int),
    {
        let ghost goal = self@.from_note(start as int);
        let mut i: usize = start;
        while i < self.notes.len()
            invariant
                self.index.wf(),
                self.notes.wf(),
                i <= self@.notes.order.len() <= u32::MAX,
                self.conflicts <= i,
                self@.from_note(i as int) == goal,
                goal == old(self)@.from_note(start as int),
            decreases self@.notes.order.len() - i,
        {
            let ghost before = *self;
            proof {
                self.lemma_elements();
                plan_facts(self@, i as int);
            }
            let path = self.notes.key_at(i).clone();
            let local = *self.notes.value_at(i);
            let entry = self.index.files.get(path.as_str());
            let found = find_counterpart(entry, &self.files, path.as_str());
            let plan = decide(
                entry,
                local,
                match found {
                    Some((f, _)) => Some(&self.files[f]),
                    None => None,
                },
            );
            assert(plan == self@.plan(i as int));
            match (plan, found) {
                (Plan::Push { rescue }, Some((f, by_id))) => {
                    self.notice(path, f, by_id, rescue);
                    self.phase = if rescue {
                        Phase::RescuingRemote(i, f)
                    } else {
                        Phase::Pushing(i, f)
                    };
                    return ;
                },
                (Plan::Pull { rescue }, Some((f, by_id))) => {
                    self.notice(path, f, by_id, rescue);
                    self.phase = if rescue {
                        Phase::RescuingLocal(i, f)
                    } else {
                        Phase::Pulling(i, f)
                    };
                    return ;
                },
                (Plan::Keep, Some((f, by_id))) => {
                    let fresh = match entry {
                        Some(e) => SyncFileEntry {
                            id: self.files[f].id.clone(),
                            local_mtime_ms: e.local_mtime_ms,
                            remote_mtime_ms: e.remote_mtime_ms,
                        },
                        None => SyncFileEntry {
                            id: self.files[f].id.clone(),
                            local_mtime_ms: 0,
                            remote_mtime_ms: 0,
                        },
                    };
                    let copy = path.clone();
                    self.notice(path, f, by_id, false);
                    self.index.files.insert(copy, fresh);
                    i += 1;
                },
                _ => {
                    self.phase = Phase::Creating(i);
                    return ;
                },
            }
        }
        self.from_rename(0);
    }

    /// File `f` was found for the note `path`.
    fn notice(&mut self, path: String, f: usize, by_id: bool, conflict: bool)
        requires
            old(self).index.wf(),
            f < old(self).files@.len(),
            conflict ==> old(self).conflicts < u32::MAX,
        ensures
            final(self).index.wf(),
            final(self).notes == old(self).notes,
            final(self).phase == old(self).phase,
            forall|i: int| #[trigger]
                old(self)@.path(i) == path@ ==> final(self)@ == old(self)@.noticed(
                    i,
                    f as int,
                    by_id,
                    conflict,
                ),
    {
        let ghost before = *self;
        proof {
            self.lemma_elements();
        }
        let id = self.files[f].id.clone();
        self.seen.push(id);
        assert(remote::texts(self.seen@) =~= remote::texts(before.seen@).push(id@));
        if by_id && !same_text(self.files[f].name.as_str(), path.as_str()) {
            let name = self.files[f].name.clone();
            self.renames.push((path, name));
            assert(pairs(self.renames@) =~= pairs(before.renames@).push((path@, name@)));
        }
        if conflict {
            self.conflicts = self.conflicts + 1;
        }
    }

    /// Goes on with rename number `k`.
    fn from_rename(&mut self, k: usize)
        requires
            old(self).index.wf(),
            old(self).notes.wf(),
        ensures
            final(self).index.wf(),
            final(self).notes.wf(),
            final(self)@ == old(self)@.from_rename(k as int),
    {
        if k < self.renames.len() {
            self.phase = Phase::Probing(k);
        } else {
            self.find_gone();
            self.from_fetch(0);
        }
    }

    /// Goes on with file `start`.
    fn from_fetch(&mut self, start: usize)
        requires
            old(self).index.wf(),
            old(self).notes.wf(),
        ensures
            final(self).index.wf(),
            final(self).notes.wf(),
            final(self)@ == old(self)@.from_fetch(start as int),
    {
        let ghost goal = self@.from_fetch(start as int);
        let mut f: usize = start;
        while f < self.files.len()
            invariant
                self.index.wf(),
                self.notes.wf(),
                self@.from_fetch(f as int) == goal,
                goal == old(self)@.from_fetch(start as int),
            decreases self.files@.len() - f,
        {
            proof {
                self.lemma_elements();
            }
            if !among(&self.seen, self.files[f].id.as_str()) && !self.files[f].is_folder()
                && (!self.is_gone(self.files[f].id.as_str()) || among(
                &self.revived,
                self.files[f].id.as_str(),
            )) {
                self.phase = Phase::Fetching(f);
                return ;
            }
            f += 1;
        }
        self.from_clean();
    }

    /// Whether the file with this id stood for a note that was deleted.
    fn is_gone(&self, id: &str) -> (r: bool)
        ensures
            r == self@.is_gone(id@),
    {
        proof {
            self.lemma_elements();
        }
        let mut j: usize = 0;
        while j < self.gone.len()
            invariant
                j <= self.gone@.len(),
                self@.gone.len() == self.gone@.len(),
                forall|i: int|
                    0 <= i < self.gone@.len() ==> self@.gone[i] == (
                        (#[trigger] self.gone@[i]).0@,
                        self.gone@[i].1@,
                    ),
                forall|i: int| 0 <= i < j ==> (#[trigger] self@.gone[i]).1 != id@,
            decreases self.gone@.len() - j,
        {
            assert(self@.gone[j as int] == (self.gone@[j as int].0@, self.gone@[j as int].1@));
            if same_text(self.gone[j].1.as_str(), id) {
                return true;
            }
            j += 1;
        }
        false
    }

    /// Whether Drive lists a file with this id.
    fn is_listed(&self, id: &str) -> (r: bool)
        ensures
            r == self@.is_listed(id@),
    {
        let mut f: usize = 0;
        while f < self.files.len()
            invariant
                f <= self.files@.len(),
                forall|i: int| 0 <= i < f ==> (#[trigger] self@.files[i]).id != id@,
            decreases self.files@.len() - f,
        {
            assert(self@.files[f as int] == self.files@[f as int]@);
            if same_text(self.files[f].id.as_str(), id) {
                return true;
            }
            f += 1;
        }
        false
    }

    /// Whether the file of an indexed note changed on Drive since the index last
    /// saw it.
    fn changed_there(&self, path: &str, e: &SyncFileEntry) -> (r: bool)
        requires
            self@.index.has(path@),
            self@.index.map[path@] == e@,
        ensures
            r == self@.changed_there(path@),
    {
        let mut f: usize = 0;
        while f < self.files.len()
            invariant
                f <= self.files@.len(),
                self@.index.map[path@] == e@,
                forall|i: int|
                    0 <= i < f ==> (#[trigger] self@.files[i]).id != e@.id || !plan::differs(
                        self@.files[i].mtime(),
                        e@.remote_mtime_ms as int,
                    ),
            decreases self.files@.len() - f,
        {
            assert(self@.files[f as int] == self.files@[f as int]@);
            if same_text(self.files[f].id.as_str(), e.id.as_str()) && mtime_differs(
                self.files[f].mtime_ms(),
                e.remote_mtime_ms,
            ) {
                return true;
            }
            f += 1;
        }
        false
    }

    /// Looks for the notes that were deleted.
    fn find_gone(&mut self)
        requires
            old(self).index.wf(),
            old(self).notes.wf(),
        ensures
            final(self).index.wf(),
            final(self).notes.wf(),
            final(self)@ == old(self)@.with_gone(),
    {
        let ghost pred = |p: Seq<char>| self@.was_deleted(p);
        let ghost entry = |p: Seq<char>| (p, self@.index.map[p].id);
        let ghost back = |p: Seq<char>| self@.was_deleted(p) && self@.changed_there(p);
        let ghost ident = |p: Seq<char>| self@.index.map[p].id;
        let mut gone: Vec<(String, String)> = Vec::new();
        let mut revived: Vec<String> = Vec::new();
        let mut i: usize = 0;
        proof {
            self.index.files.lemma_wf();
            reveal(Seq::filter);
            assert(self@.index.order.take(0) =~= Seq::empty());
            assert(pairs(gone@) =~= self@.index.order.take(0).filter(pred).map_values(entry));
            assert(remote::texts(revived@) =~= self@.index.order.take(0).filter(back).map_values(
                ident,
            ));
        }
        while i < self.index.files.len()
            invariant
                self.index.wf(),
                self.notes.wf(),
                i <= self@.index.order.len(),
                pred == (|p: Seq<char>| self@.was_deleted(p)),
                entry == (|p: Seq<char>| (p, self@.index.map[p].id)),
                pairs(gone@) == self@.index.order.take(i as int).filter(pred).map_values(entry),
                back == (|p: Seq<char>| self@.was_deleted(p) && self@.changed_there(p)),
                ident == (|p: Seq<char>| self@.index.map[p].id),
                remote::texts(revived@) == self@.index.order.take(i as int).filter(back).map_values(
                    ident,
                ),
            decreases self@.index.order.len() - i,
        {
            let ghost gone0 = gone@;
            let ghost revived0 = revived@;
            let path = self.index.files.key_at(i).clone();
            let id = self.index.files.value_at(i).id.clone();
            let ghost sofar = self@.index.order.take(i as int).filter(pred);
            let ghost kept = self@.index.order.take(i as int).filter(back);
            proof {
                self.index.files.lemma_wf();
                assert(self@.index.order.contains(path@)) by {
                    assert(self@.index.order[i as int] == path@);
                }
                reveal(Seq::filter);
                let t = self@.index.order.take(i + 1);
                assert(t.drop_last() =~= self@.index.order.take(i as int));
                assert(t.last() == path@);
            }
            if !among(&self.touched, path.as_str()) && !self.notes.contains_key(path.as_str()) {
                assert(pred(path@));
                if self.changed_there(path.as_str(), self.index.files.value_at(i)) {
                    assert(back(path@));
                    revived.push(id.clone());
                    assert(remote::texts(revived@) =~= remote::texts(revived0).push(id@));
                    assert(kept.push(path@).map_values(ident) =~= kept.map_values(ident).push(id@));
                } else {
                    assert(!back(path@));
                }
                gone.push((path, id));
                assert(pairs(gone@) =~= pairs(gone0).push((path@, id@)));
                assert(sofar.push(path@).map_values(entry) =~= sofar.map_values(entry).push(
                    (path@, id@),
                ));
            } else {
                assert(!pred(path@));
                assert(!back(path@));
            }
            i += 1;
        }
        assert(self@.index.order.take(i as int) =~= self@.index.order);
        self.gone = gone;
        self.revived = revived;
    }

    /// Goes on with the notes that were deleted.
    fn from_clean(&mut self)
        requires
            old(self).index.wf(),
            old(self).notes.wf(),
        ensures
            final(self).index.wf(),
            final(self).notes.wf(),
            final(self)@ == old(self)@.from_clean(),
    {
        let ghost pred = |e: (Seq<char>, Seq<char>)| self@.is_due(e);
        let mut left: Vec<(String, String)> = Vec::new();
        let mut i: usize = 0;
        proof {
            reveal(Seq::filter);
            assert(self@.gone.take(0) =~= Seq::empty());
            assert(pairs(left@) =~= Seq::empty());
        }
        while i < self.gone.len()
            invariant
                self.index.wf(),
                self.notes.wf(),
                i <= self.gone@.len(),
                self@.gone == pairs(self.gone@),
                pred == (|e: (Seq<char>, Seq<char>)| self@.is_due(e)),
                pairs(left@) == self@.gone.take(i as int).filter(pred),
            decreases self.gone@.len() - i,
        {
            let ghost left0 = left@;
            let path = self.gone[i].0.clone();
            let id = self.gone[i].1.clone();
            proof {
                reveal(Seq::filter);
                let t = self@.gone.take(i + 1);
                assert(t.drop_last() =~= self@.gone.take(i as int));
                assert(t.last() == (path@, id@));
            }
            if !among(&self.touched, path.as_str()) || (self.is_listed(id.as_str()) && !among(
                &self.revived,
                id.as_str(),
            )) {
                assert(pred((path@, id@)));
                left.push((path, id));
                assert(pairs(left@) =~= pairs(left0).push((path@, id@)));
            } else {
                assert(!pred((path@, id@)));
            }
            i += 1;
        }
        assert(self@.gone.take(i as int) =~= self@.gone);
        let any = left.len() > 0;
        self.gone = left;
        if any {
            self.phase = Phase::Cleaning(0);
        } else {
            self.phase = Phase::Saving;
            self.error = None;
        }
    }
}

proof fn plan_facts(s: RunView, i: int)
    requires
        0 <= i < s.notes.order.len(),
    ensures
        s.plan(i) is Keep ==> s.index.get(s.path(i)) is Some && s.counterpart(i) is Some,
{
}

} // verus!
