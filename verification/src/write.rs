//! Writing a file so that it is never half written: into a temporary file in
//! the same directory, which then takes the place of the file.

use crate::notes;
use crate::notes::failure;
use crate::paths;
use crate::paths::{file_name, join, parent};
use crate::text::join2;
use vstd::prelude::*;

verus! {

/// What is being written.
#[derive(Debug, Clone, Copy, PartialEq, Eq, Structural)]
pub enum Purpose {
    /// A note, by the editor.
    Note,
    /// A note that was downloaded.
    Download,
    /// The index of the sync.
    Index,
}

/// What a write asks for.
#[derive(Debug)]
pub enum WriteStep {
    /// Make a directory, and those above it.
    MakeDir { dir: String },
    /// Make a file anew.
    Create { tmp: String },
    /// Write the whole content to a file.
    Write { tmp: String },
    /// Have the content reach the disk; a failure is of no consequence.
    Sync { tmp: String },
    /// Let one file take the place of another.
    Rename { tmp: String, path: String },
    /// Remove a file; a failure is of no consequence.
    Remove { tmp: String },
    /// Nothing: the write is over.
    Finish { outcome: Result<(), String> },
}

/// What a [`WriteStep`] stands for.
pub enum StepView {
    MakeDir { dir: Seq<char> },
    Create { tmp: Seq<char> },
    Write { tmp: Seq<char> },
    Sync { tmp: Seq<char> },
    Rename { tmp: Seq<char>, path: Seq<char> },
    Remove { tmp: Seq<char> },
    Finish { outcome: Result<(), Seq<char>> },
}

impl View for WriteStep {
    type V = StepView;

    open spec fn view(&self) -> StepView {
        match self {
            WriteStep::MakeDir { dir } => StepView::MakeDir { dir: dir@ },
            WriteStep::Create { tmp } => StepView::Create { tmp: tmp@ },
            WriteStep::Write { tmp } => StepView::Write { tmp: tmp@ },
            WriteStep::Sync { tmp } => StepView::Sync { tmp: tmp@ },
            WriteStep::Rename { tmp, path } => StepView::Rename { tmp: tmp@, path: path@ },
            WriteStep::Remove { tmp } => StepView::Remove { tmp: tmp@ },
            WriteStep::Finish { outcome } => StepView::Finish {
                outcome: notes::outcome_view(*outcome),
            },
        }
    }
}

/// The directory of the file that is written.
pub open spec fn dir_of(path: Seq<char>) -> Seq<char> {
    match paths::parent_of(path) {
        Some(d) => d,
        None => "."@,
    }
}

/// The name of the file that is written.
pub open spec fn name_of(path: Seq<char>) -> Seq<char> {
    match paths::file_name_of(path) {
        Some(n) => n,
        None => "x"@,
    }
}

/// The name of the temporary file.
pub open spec fn tmp_name(purpose: Purpose, path: Seq<char>) -> Seq<char> {
    match purpose {
        Purpose::Note => ".aanote-tmp-"@ + name_of(path),
        Purpose::Download => ".aanote-dl-"@ + name_of(path),
        Purpose::Index => ".aanote-sync-tmp"@,
    }
}

/// The temporary file.
pub open spec fn tmp_path(purpose: Purpose, path: Seq<char>) -> Seq<char> {
    paths::joined(dir_of(path), tmp_name(purpose, path))
}

/// A write under way.
pub struct WriteView {
    pub purpose: Purpose,
    pub path: Seq<char>,
    pub step: StepView,
    /// What is to be reported once the temporary file is removed.
    pub error: Option<Seq<char>>,
}

impl WriteView {
    pub open spec fn tmp(self) -> Seq<char> {
        tmp_path(self.purpose, self.path)
    }

    pub open spec fn at(self, step: StepView) -> WriteView {
        WriteView { step, ..self }
    }

    pub open spec fn over(self, outcome: Result<(), Seq<char>>) -> WriteView {
        self.at(StepView::Finish { outcome })
    }

    /// The write once its step came to `outcome`.
    ///
    /// A note is written with every step, and each failure is named. A download
    /// reports the bare cause. The index is written as far as it goes, and its
    /// failures are not reported.
    pub open spec fn after(self, outcome: Result<(), Seq<char>>) -> WriteView {
        let renaming = self.at(StepView::Rename { tmp: self.tmp(), path: self.path });
        match (self.step, outcome) {
            (StepView::MakeDir { dir }, Ok(_)) => if self.purpose is Note {
                self.at(StepView::Create { tmp: self.tmp() })
            } else {
                self.at(StepView::Write { tmp: self.tmp() })
            },
            (StepView::MakeDir { dir }, Err(e)) => self.over(
                Err(
                    if self.purpose is Note {
                        notes::failure_text("Failed to create dir "@, dir, e)
                    } else {
                        e
                    },
                ),
            ),
            (StepView::Create { tmp }, Ok(_)) => self.at(StepView::Write { tmp: self.tmp() }),
            (StepView::Create { tmp }, Err(e)) => self.over(
                Err(notes::failure_text("Failed to create temp "@, tmp, e)),
            ),
            (StepView::Write { tmp }, Ok(_)) => if self.purpose is Note {
                self.at(StepView::Sync { tmp: self.tmp() })
            } else {
                renaming
            },
            (StepView::Write { tmp }, Err(e)) => match self.purpose {
                Purpose::Note => self.over(Err(notes::failure_text("Failed to write "@, tmp, e))),
                Purpose::Download => self.over(Err(e)),
                Purpose::Index => self.over(Ok(())),
            },
            (StepView::Sync { .. }, _) => renaming,
            (StepView::Rename { .. }, Ok(_)) => self.over(Ok(())),
            (StepView::Rename { .. }, Err(e)) => match self.purpose {
                Purpose::Note => (WriteView {
                    error: Some(notes::failure_text("Failed to finalize "@, self.path, e)),
                    ..self
                }).at(StepView::Remove { tmp: self.tmp() }),
                Purpose::Download => self.over(Err(e)),
                Purpose::Index => self.over(Ok(())),
            },
            (StepView::Remove { .. }, _) => (WriteView { error: None, ..self }).over(
                match self.error {
                    Some(e) => Err(e),
                    None => Ok(()),
                },
            ),
            (StepView::Finish { .. }, _) => self,
        }
    }
}

/// How a write begins.
pub open spec fn begun(purpose: Purpose, path: Seq<char>) -> WriteView {
    WriteView {
        purpose,
        path,
        step: if purpose is Index {
            StepView::Write { tmp: tmp_path(purpose, path) }
        } else {
            StepView::MakeDir { dir: dir_of(path) }
        },
        error: None,
    }
}

#[derive(Clone, Copy, PartialEq, Eq, Structural)]
enum Stage {
    MakeDir,
    Create,
    Write,
    Sync,
    Rename,
    Remove,
    Finished,
}

/// A write under way.
pub struct AtomicWrite {
    purpose: Purpose,
    path: String,
    dir: String,
    tmp: String,
    stage: Stage,
    error: Option<String>,
}

impl View for AtomicWrite {
    type V = WriteView;

    closed spec fn view(&self) -> WriteView {
        WriteView {
            purpose: self.purpose,
            path: self.path@,
            step: match self.stage {
                Stage::MakeDir => StepView::MakeDir { dir: self.dir@ },
                Stage::Create => StepView::Create { tmp: self.tmp@ },
                Stage::Write => StepView::Write { tmp: self.tmp@ },
                Stage::Sync => StepView::Sync { tmp: self.tmp@ },
                Stage::Rename => StepView::Rename { tmp: self.tmp@, path: self.path@ },
                Stage::Remove => StepView::Remove { tmp: self.tmp@ },
                Stage::Finished => StepView::Finish {
                    outcome: match self.error {
                        Some(e) => Err(e@),
                        None => Ok(()),
                    },
                },
            },
            error: if self.stage is Finished {
                None
            } else {
                match self.error {
                    Some(e) => Some(e@),
                    None => None,
                }
            },
        }
    }
}

impl AtomicWrite {
    /// The temporary file belongs to what is written.
    pub closed spec fn wf(&self) -> bool {
        &&& self.dir@ == dir_of(self.path@)
        &&& self.tmp@ == tmp_path(self.purpose, self.path@)
        &&& self.error is Some ==> self.stage is Remove || self.stage is Finished
    }

    /// Begins to write to `path`.
    pub fn begin(purpose: Purpose, path: &str) -> (r: AtomicWrite)
        ensures
            r.wf(),
            r@ == begun(purpose, path@),
    {
        let dir = match parent(path) {
            Some(d) => d,
            None => ".".to_owned(),
        };
        let name = match file_name(path) {
            Some(n) => n,
            None => "x".to_owned(),
        };
        let tmp = match purpose {
            Purpose::Note => join(dir.as_str(), join2(".aanote-tmp-", name.as_str()).as_str()),
            Purpose::Download => join(dir.as_str(), join2(".aanote-dl-", name.as_str()).as_str()),
            Purpose::Index => join(dir.as_str(), ".aanote-sync-tmp"),
        };
        let stage = match purpose {
            Purpose::Index => Stage::Write,
            _ => Stage::MakeDir,
        };
        AtomicWrite { purpose, path: path.to_owned(), dir, tmp, stage, error: None }
    }

    /// What the write asks for.
    pub fn pending(&self) -> (r: WriteStep)
        requires
            self.wf(),
        ensures
            r@ == self@.step,
    {
        match self.stage {
            Stage::MakeDir => WriteStep::MakeDir { dir: self.dir.clone() },
            Stage::Create => WriteStep::Create { tmp: self.tmp.clone() },
            Stage::Write => WriteStep::Write { tmp: self.tmp.clone() },
            Stage::Sync => WriteStep::Sync { tmp: self.tmp.clone() },
            Stage::Rename => WriteStep::Rename { tmp: self.tmp.clone(), path: self.path.clone() },
            Stage::Remove => WriteStep::Remove { tmp: self.tmp.clone() },
            Stage::Finished => WriteStep::Finish {
                outcome: match &self.error {
                    Some(e) => Err(e.clone()),
                    None => Ok(()),
                },
            },
        }
    }

    /// Takes what the step came to.
    pub fn advance(&mut self, outcome: Result<(), String>)
        requires
            old(self).wf(),
        ensures
            final(self).wf(),
            final(self)@ == old(self)@.after(notes::outcome_view(outcome)),
    {
        match (self.stage, outcome) {
            (Stage::MakeDir, Ok(_)) => {
                self.stage = match self.purpose {
                    Purpose::Note => Stage::Create,
                    _ => Stage::Write,
                };
            },
            (Stage::MakeDir, Err(e)) => {
                self.error = match self.purpose {
                    Purpose::Note => Some(
                        failure("Failed to create dir ", self.dir.as_str(), e.as_str()),
                    ),
                    _ => Some(e),
                };
                self.stage = Stage::Finished;
            },
            (Stage::Create, Ok(_)) => {
                self.stage = Stage::Write;
            },
            (Stage::Create, Err(e)) => {
                self.error = Some(
                    failure("Failed to create temp ", self.tmp.as_str(), e.as_str()),
                );
                self.stage = Stage::Finished;
            },
            (Stage::Write, Ok(_)) => {
                self.stage = match self.purpose {
                    Purpose::Note => Stage::Sync,
                    _ => Stage::Rename,
                };
            },
            (Stage::Write, Err(e)) => {
                self.error = match self.purpose {
                    Purpose::Note => Some(
                        failure("Failed to write ", self.tmp.as_str(), e.as_str()),
                    ),
                    Purpose::Download => Some(e),
                    Purpose::Index => None,
                };
                self.stage = Stage::Finished;
            },
            (Stage::Sync, _) => {
                self.stage = Stage::Rename;
            },
            (Stage::Rename, Ok(_)) => {
                self.stage = Stage::Finished;
            },
            (Stage::Rename, Err(e)) => {
                match self.purpose {
                    Purpose::Note => {
                        self.error = Some(
                            failure("Failed to finalize ", self.path.as_str(), e.as_str()),
                        );
                        self.stage = Stage::Remove;
                    },
                    Purpose::Download => {
                        self.error = Some(e);
                        self.stage = Stage::Finished;
                    },
                    Purpose::Index => {
                        self.stage = Stage::Finished;
                    },
                }
            },
            (Stage::Remove, _) => {
                self.stage = Stage::Finished;
            },
            (Stage::Finished, _) => {},
        }
    }
}

// ---------------------------------------------------------------------------
// Laws
// ---------------------------------------------------------------------------

/// The file that is written is touched by nothing but the last step, in which
/// the temporary file takes its place; and this step comes only once the whole
/// content was written to the temporary file.
pub proof fn a_file_is_replaced_only_by_a_whole_one(s: WriteView, outcome: Result<(), Seq<char>>)
    requires
        s.after(outcome).step is Rename,
        !(s.step is Finish),
    ensures
        s.after(outcome).step == (StepView::Rename { tmp: s.tmp(), path: s.path }),
        s.step is Sync || (s.step is Write && outcome is Ok),
{
}

/// A write asks to have content reach the disk only after the whole content was
/// written.
pub proof fn content_is_whole_before_it_is_flushed(s: WriteView, outcome: Result<(), Seq<char>>)
    requires
        s.after(outcome).step is Sync,
        !(s.step is Finish),
    ensures
        s.step is Write && outcome is Ok,
{
}

/// A write that reports success has replaced the file, save that of the index,
/// whose failures are not reported.
pub proof fn success_means_replaced(s: WriteView, outcome: Result<(), Seq<char>>)
    requires
        s.after(outcome).step == (StepView::Finish { outcome: Ok::<(), Seq<char>>(()) }),
        !(s.step is Finish),
        !(s.purpose is Index),
        s.step is Remove ==> s.error is Some,
    ensures
        s.step is Rename && outcome is Ok,
{
}

/// Where the last step fails for a note, its temporary file is removed.
pub proof fn a_failed_replacement_is_cleaned_up(s: WriteView, cause: Seq<char>)
    requires
        s.purpose is Note,
        s.step is Rename,
    ensures
        s.after(Err(cause)).step == (StepView::Remove { tmp: s.tmp() }),
{
}

/// The temporary file lies in the directory of the file and is not the file.
pub proof fn the_temporary_file_is_another(purpose: Purpose, path: Seq<char>)
    requires
        purpose is Index ==> paths::file_name_of(path) != Some(".aanote-sync-tmp"@),
    ensures
        tmp_path(purpose, path) != path,
        paths::parent_of(tmp_path(purpose, path)) == Some(
            paths::settled(dir_of(path), paths::head_len(dir_of(path))),
        ),
{
    reveal_strlit(".aanote-tmp-");
    reveal_strlit(".aanote-dl-");
    reveal_strlit(".aanote-sync-tmp");
    reveal_strlit("x");
    paths::file_names_are_names(path);
    let n = tmp_name(purpose, path);
    let front = match purpose {
        Purpose::Note => ".aanote-tmp-"@,
        Purpose::Download => ".aanote-dl-"@,
        Purpose::Index => ".aanote-sync-tmp"@,
    };
    assert(n.len() >= 12 || purpose is Download);
    assert forall|k: int| 0 <= k < n.len() implies n[k] != '/' by {
        if k >= front.len() {
            assert(n[k] == name_of(path)[k - front.len()]);
            assert(name_of(path).contains(n[k]));
        }
    }
    paths::names_stay_in_their_directory(dir_of(path), n);
    assert(n != seq!['.', '.']);
    if tmp_path(purpose, path) == path {
        assert(paths::file_name_of(path) == Some(n));
        assert(name_of(path) == n);
    }
}

} // verus!
