//! Resetting the sync: the index is deleted, and everything in the app folder
//! on Drive.

use crate::notes;
use crate::paths;
use crate::paths::join;
use crate::remote;
use crate::remote::DriveFile;
use crate::text;
use crate::text::{decimal_text, join3};
use vstd::prelude::*;

verus! {

/// What a reset asks for.
pub enum ResetStep {
    /// Look up whether there is an index.
    Probe { path: String },
    /// Delete the index.
    RemoveIndex { path: String },
    /// Connect to Drive and list the files.
    Connect,
    /// Delete a file on Drive.
    Delete { id: String },
    /// Nothing: the reset is over.
    Finish { outcome: Result<String, String> },
}

/// What a [`ResetStep`] stands for.
pub enum ResetStepView {
    Probe { path: Seq<char> },
    RemoveIndex { path: Seq<char> },
    Connect,
    Delete { id: Seq<char> },
    Finish { outcome: Result<Seq<char>, Seq<char>> },
}

impl View for ResetStep {
    type V = ResetStepView;

    open spec fn view(&self) -> ResetStepView {
        match self {
            ResetStep::Probe { path } => ResetStepView::Probe { path: path@ },
            ResetStep::RemoveIndex { path } => ResetStepView::RemoveIndex { path: path@ },
            ResetStep::Connect => ResetStepView::Connect,
            ResetStep::Delete { id } => ResetStepView::Delete { id: id@ },
            ResetStep::Finish { outcome } => ResetStepView::Finish {
                outcome: notes::text_view(*outcome),
            },
        }
    }
}

/// The reply to what a reset asked for.
pub enum ResetReply {
    Exists(bool),
    /// Whether it was done.
    Outcome(Result<(), String>),
    /// The files in the app folder, or why they are not known.
    Connected(Result<Vec<DriveFile>, String>),
}

/// What a [`ResetReply`] stands for.
pub enum ResetReplyView {
    Exists(bool),
    Outcome(Result<(), Seq<char>>),
    Connected(Result<Seq<Seq<char>>, Seq<char>>),
}

impl View for ResetReply {
    type V = ResetReplyView;

    open spec fn view(&self) -> ResetReplyView {
        match self {
            ResetReply::Exists(b) => ResetReplyView::Exists(*b),
            ResetReply::Outcome(r) => ResetReplyView::Outcome(notes::outcome_view(*r)),
            ResetReply::Connected(r) => ResetReplyView::Connected(
                match r {
                    Ok(files) => Ok(remote::ids(remote::views(files@))),
                    Err(e) => Err(e@),
                },
            ),
        }
    }
}

/// What is reported: how many files were deleted on Drive.
pub open spec fn report(deleted: nat) -> Seq<char> {
    "Reset sync: deleted local index and "@ + text::decimal(deleted) + " remote files"@
}

/// Where a reset stands.
pub enum ResetStageView {
    /// It is looked up whether there is an index.
    Probing,
    /// The index is being deleted.
    Removing,
    Connecting,
    /// File number `k` is being deleted; `deleted` of those before it were.
    Deleting { ids: Seq<Seq<char>>, k: int, deleted: nat },
    Over(Result<Seq<char>, Seq<char>>),
}

/// Goes on with file number `k`.
pub open spec fn deleting(ids: Seq<Seq<char>>, k: int, deleted: nat) -> ResetStageView {
    if k < ids.len() {
        ResetStageView::Deleting { ids, k, deleted }
    } else {
        ResetStageView::Over(Ok(report(deleted)))
    }
}

/// A reset under way.
pub struct ResetView {
    /// Where the index is stored.
    pub index: Seq<char>,
    pub stage: ResetStageView,
}

impl ResetView {
    pub open spec fn at(self, stage: ResetStageView) -> ResetView {
        ResetView { stage, ..self }
    }

    /// What the reset asks for.
    pub open spec fn pending(self) -> ResetStepView {
        match self.stage {
            ResetStageView::Probing => ResetStepView::Probe { path: self.index },
            ResetStageView::Removing => ResetStepView::RemoveIndex { path: self.index },
            ResetStageView::Connecting => ResetStepView::Connect,
            ResetStageView::Deleting { ids, k, .. } => ResetStepView::Delete { id: ids[k] },
            ResetStageView::Over(outcome) => ResetStepView::Finish { outcome },
        }
    }

    /// `reply` answers what the reset asked for.
    pub open spec fn accepts(self, reply: ResetReplyView) -> bool {
        match (self.stage, reply) {
            (ResetStageView::Probing, ResetReplyView::Exists(_)) => true,
            (ResetStageView::Removing, ResetReplyView::Outcome(_)) => true,
            (ResetStageView::Connecting, ResetReplyView::Connected(_)) => true,
            (ResetStageView::Deleting { .. }, ResetReplyView::Outcome(_)) => true,
            _ => false,
        }
    }

    /// The reset once the reply has come. A file that cannot be deleted is passed
    /// over; every other failure ends the reset.
    pub open spec fn after(self, reply: ResetReplyView) -> ResetView {
        match (self.stage, reply) {
            (ResetStageView::Probing, ResetReplyView::Exists(b)) => if b {
                self.at(ResetStageView::Removing)
            } else {
                self.at(ResetStageView::Connecting)
            },
            (ResetStageView::Removing, ResetReplyView::Outcome(Ok(_))) => self.at(
                ResetStageView::Connecting,
            ),
            (ResetStageView::Removing, ResetReplyView::Outcome(Err(e))) => self.at(
                ResetStageView::Over(Err(e)),
            ),
            (ResetStageView::Connecting, ResetReplyView::Connected(Ok(ids))) => self.at(
                deleting(ids, 0, 0),
            ),
            (ResetStageView::Connecting, ResetReplyView::Connected(Err(e))) => self.at(
                ResetStageView::Over(Err(e)),
            ),
            (ResetStageView::Deleting { ids, k, deleted }, ResetReplyView::Outcome(r)) => self.at(
                deleting(
                    ids,
                    k + 1,
                    if r is Ok {
                        deleted + 1
                    } else {
                        deleted
                    },
                ),
            ),
            _ => self,
        }
    }
}

/// How a reset of the notes at `root` begins.
pub open spec fn reset_begun(root: Seq<char>) -> ResetView {
    ResetView { index: paths::joined(root, ".sync.json"@), stage: ResetStageView::Probing }
}

enum ResetStage {
    Probing,
    Removing,
    Connecting,
    Deleting { files: Vec<DriveFile>, k: usize, deleted: u64 },
    Over(Result<String, String>),
}

impl View for ResetStage {
    type V = ResetStageView;

    closed spec fn view(&self) -> ResetStageView {
        match self {
            ResetStage::Probing => ResetStageView::Probing,
            ResetStage::Removing => ResetStageView::Removing,
            ResetStage::Connecting => ResetStageView::Connecting,
            ResetStage::Deleting { files, k, deleted } => ResetStageView::Deleting {
                ids: remote::ids(remote::views(files@)),
                k: *k as int,
                deleted: *deleted as nat,
            },
            ResetStage::Over(r) => ResetStageView::Over(notes::text_view(*r)),
        }
    }
}

/// A reset under way.
pub struct Resetting {
    index: String,
    stage: ResetStage,
}

impl View for Resetting {
    type V = ResetView;

    closed spec fn view(&self) -> ResetView {
        ResetView { index: self.index@, stage: self.stage@ }
    }
}

/// Goes on with file number `k`.
fn next_stage(files: Vec<DriveFile>, k: usize, deleted: u64) -> (r: ResetStage)
    requires
        deleted <= k <= files@.len(),
    ensures
        r@ == deleting(remote::ids(remote::views(files@)), k as int, deleted as nat),
        r matches ResetStage::Deleting { files: f, k: i, deleted: d } ==> d <= i < f@.len(),
{
    if k < files.len() {
        ResetStage::Deleting { files, k, deleted }
    } else {
        ResetStage::Over(
            Ok(
                join3(
                    "Reset sync: deleted local index and ",
                    decimal_text(deleted).as_str(),
                    " remote files",
                ),
            ),
        )
    }
}

impl Resetting {
    /// The file that is being deleted is there, and no more were deleted than
    /// tried.
    pub closed spec fn wf(&self) -> bool {
        self.stage matches ResetStage::Deleting { files, k, deleted } ==> deleted <= k < files@.len()
    }

    /// Begins to reset the sync of the notes at `root`.
    pub fn begin(root: &str) -> (r: Resetting)
        ensures
            r.wf(),
            r@ == reset_begun(root@),
    {
        Resetting { index: join(root, ".sync.json"), stage: ResetStage::Probing }
    }

    /// What the reset asks for.
    pub fn pending(&self) -> (r: ResetStep)
        requires
            self.wf(),
        ensures
            r@ == self@.pending(),
    {
        match &self.stage {
            ResetStage::Probing => ResetStep::Probe { path: self.index.clone() },
            ResetStage::Removing => ResetStep::RemoveIndex { path: self.index.clone() },
            ResetStage::Connecting => ResetStep::Connect,
            ResetStage::Deleting { files, k, .. } => {
                assert(remote::views(files@)[*k as int] == files@[*k as int]@);
                ResetStep::Delete { id: files[*k].id.clone() }
            },
            ResetStage::Over(r) => ResetStep::Finish {
                outcome: match r {
                    Ok(t) => Ok(t.clone()),
                    Err(e) => Err(e.clone()),
                },
            },
        }
    }

    /// Takes the reply to what the reset asked for.
    pub fn advance(self, reply: ResetReply) -> (r: Resetting)
        requires
            self.wf(),
            self@.accepts(reply@),
        ensures
            r.wf(),
            r@ == self@.after(reply@),
    {
        let index = self.index;
        let stage = match (self.stage, reply) {
            (ResetStage::Probing, ResetReply::Exists(b)) => if b {
                ResetStage::Removing
            } else {
                ResetStage::Connecting
            },
            (ResetStage::Removing, ResetReply::Outcome(r)) => match r {
                Ok(_) => ResetStage::Connecting,
                Err(e) => ResetStage::Over(Err(e)),
            },
            (ResetStage::Connecting, ResetReply::Connected(r)) => match r {
                Ok(files) => next_stage(files, 0, 0),
                Err(e) => ResetStage::Over(Err(e)),
            },
            (ResetStage::Deleting { files, k, deleted }, ResetReply::Outcome(r)) => {
                let total: usize = files.len();
                assert(deleted <= k < total);
                let sum: u64 = match r {
                    Ok(_) => deleted + 1,
                    Err(_) => deleted,
                };
                next_stage(files, k + 1, sum)
            },
            (stage, _) => stage,
        };
        Resetting { index, stage }
    }
}

// ---------------------------------------------------------------------------
// Laws
// ---------------------------------------------------------------------------

/// Nothing on Drive is touched before the index is gone: a reset connects only
/// where there was no index or it was deleted, and deletes files only then.
pub proof fn the_index_goes_first(s: ResetView, reply: ResetReplyView)
    requires
        s.accepts(reply),
    ensures
        s.after(reply).pending() is Connect ==> (s.pending() is Probe && reply
            == ResetReplyView::Exists(false)) || (s.pending() is RemoveIndex && (
        reply matches ResetReplyView::Outcome(r) && r is Ok)),
        s.after(reply).pending() is Delete ==> s.pending() is Connect || s.pending() is Delete,
{
}

/// A reset after some deletions.
pub open spec fn after_all(s: ResetView, outcomes: Seq<Result<(), Seq<char>>>) -> ResetView
    decreases outcomes.len(),
{
    if outcomes.len() == 0 {
        s
    } else {
        after_all(s, outcomes.drop_last()).after(ResetReplyView::Outcome(outcomes.last()))
    }
}

/// How many deletions succeeded.
pub open spec fn deleted_count(outcomes: Seq<Result<(), Seq<char>>>) -> nat
    decreases outcomes.len(),
{
    if outcomes.len() == 0 {
        0
    } else {
        deleted_count(outcomes.drop_last()) + if outcomes.last() is Ok {
            1nat
        } else {
            0nat
        }
    }
}

/// Every listed file is deleted in turn, whatever became of the others, and the
/// report counts those that were.
pub proof fn every_file_is_deleted(
    s: ResetView,
    ids: Seq<Seq<char>>,
    outcomes: Seq<Result<(), Seq<char>>>,
)
    requires
        s.stage == deleting(ids, 0, 0),
        outcomes.len() <= ids.len(),
    ensures
        after_all(s, outcomes).stage == deleting(
            ids,
            outcomes.len() as int,
            deleted_count(outcomes),
        ),
        outcomes.len() < ids.len() ==> after_all(s, outcomes).pending() == (ResetStepView::Delete {
            id: ids[outcomes.len() as int],
        }),
        outcomes.len() == ids.len() ==> after_all(s, outcomes).pending() == (
        ResetStepView::Finish { outcome: Ok(report(deleted_count(outcomes))) }),
    decreases outcomes.len(),
{
    if outcomes.len() > 0 {
        every_file_is_deleted(s, ids, outcomes.drop_last());
    }
}

} // verus!
