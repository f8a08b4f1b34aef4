//! What is asked of the file system one step at a time, and its answers.

use crate::notes;
use crate::text;
use crate::text::{decimal_text, join3};
use vstd::prelude::*;

verus! {

/// What is asked.
#[derive(Debug)]
pub enum FileStep {
    /// Look up whether something stands at a path.
    Probe { path: String },
    /// Make a directory, and those above it.
    MakeDir { dir: String },
    /// Move a file or folder.
    Rename { from: String, to: String },
    /// Copy a file.
    Copy { from: String, to: String },
    /// Write the content at hand to a file.
    Write { to: String },
    /// Nothing: it is over, and this is reported.
    Finish { outcome: Result<String, String> },
    /// Nothing: it is over, and nothing is reported.
    Stop,
}

/// What a [`FileStep`] stands for.
pub enum FileStepView {
    Probe { path: Seq<char> },
    MakeDir { dir: Seq<char> },
    Rename { from: Seq<char>, to: Seq<char> },
    Copy { from: Seq<char>, to: Seq<char> },
    Write { to: Seq<char> },
    Finish { outcome: Result<Seq<char>, Seq<char>> },
    Stop,
}

impl View for FileStep {
    type V = FileStepView;

    open spec fn view(&self) -> FileStepView {
        match self {
            FileStep::Probe { path } => FileStepView::Probe { path: path@ },
            FileStep::MakeDir { dir } => FileStepView::MakeDir { dir: dir@ },
            FileStep::Rename { from, to } => FileStepView::Rename { from: from@, to: to@ },
            FileStep::Copy { from, to } => FileStepView::Copy { from: from@, to: to@ },
            FileStep::Write { to } => FileStepView::Write { to: to@ },
            FileStep::Finish { outcome } => FileStepView::Finish {
                outcome: notes::text_view(*outcome),
            },
            FileStep::Stop => FileStepView::Stop,
        }
    }
}

/// The answer to a step.
#[derive(Debug)]
pub enum Answer {
    /// Whether something stands there.
    Exists(bool),
    /// Whether it was done.
    Outcome(Result<(), String>),
}

/// What an [`Answer`] stands for.
pub enum AnswerView {
    Exists(bool),
    Outcome(Result<(), Seq<char>>),
}

impl View for Answer {
    type V = AnswerView;

    open spec fn view(&self) -> AnswerView {
        match self {
            Answer::Exists(b) => AnswerView::Exists(*b),
            Answer::Outcome(r) => AnswerView::Outcome(notes::outcome_view(*r)),
        }
    }
}

// ---------------------------------------------------------------------------
// Looking for a free name
// ---------------------------------------------------------------------------

/// Names that are tried in turn: a first one, and then numbered ones.
pub struct TrialView {
    pub first: Seq<char>,
    pub front: Seq<char>,
    pub back: Seq<char>,
    pub start: int,
    /// How many were tried and not free.
    pub tried: int,
}

impl TrialView {
    /// Name number `k`.
    pub open spec fn nth(self, k: int) -> Seq<char> {
        if k <= 0 {
            self.first
        } else {
            self.front + text::decimal((self.start + k - 1) as nat) + self.back
        }
    }

    /// The name that is tried.
    pub open spec fn name(self) -> Seq<char> {
        self.nth(self.tried)
    }

    /// The name was not free.
    pub open spec fn next(self) -> TrialView {
        TrialView { tried: self.tried + 1, ..self }
    }
}

/// Names that are tried in turn.
pub struct Trial {
    pub first: String,
    pub front: String,
    pub back: String,
    pub start: u64,
    pub tried: u64,
}

impl View for Trial {
    type V = TrialView;

    open spec fn view(&self) -> TrialView {
        TrialView {
            first: self.first@,
            front: self.front@,
            back: self.back@,
            start: self.start as int,
            tried: self.tried as int,
        }
    }
}

impl Trial {
    /// The numbers of the names tried so far fit.
    pub open spec fn wf(&self) -> bool {
        self.start + self.tried <= u64::MAX
    }

    /// The name that is tried.
    pub fn name(&self) -> (r: String)
        requires
            self.wf(),
        ensures
            r@ == self@.name(),
    {
        if self.tried == 0 {
            self.first.clone()
        } else {
            join3(
                self.front.as_str(),
                decimal_text(self.start + (self.tried - 1)).as_str(),
                self.back.as_str(),
            )
        }
    }

    /// The name was not free.
    pub fn next(&mut self)
        requires
            old(self).start + old(self).tried < u64::MAX,
        ensures
            final(self).wf(),
            final(self)@ == old(self)@.next(),
    {
        self.tried = self.tried + 1;
    }
}

/// No two of the numbered names are the same.
pub proof fn numbered_names_differ(t: TrialView, k: int, l: int)
    requires
        0 <= t.start,
        1 <= k < l,
    ensures
        t.nth(k) != t.nth(l),
{
    let a = (t.start + k - 1) as nat;
    let b = (t.start + l - 1) as nat;
    let x = t.nth(k);
    let y = t.nth(l);
    if x == y {
        let n = t.front.len() as int;
        assert(text::decimal(a) =~= x.subrange(n, x.len() - t.back.len()));
        assert(text::decimal(b) =~= y.subrange(n, y.len() - t.back.len()));
        text::decimal_injective(a, b);
    }
}

} // verus!
