//! Copies of the version that loses a conflict.

use crate::clock;
use crate::clock::{fine_stamp, utc_now_ms};
use crate::notes;
use crate::notes::failure;
use crate::paths;
use crate::paths::{file_name, join, parent, stem};
use crate::steps;
use crate::steps::{Answer, AnswerView, FileStep, FileStepView, Trial, TrialView};
use crate::text::join2;
use vstd::prelude::*;

verus! {

/// Which version a copy holds.
#[derive(Debug, Clone, Copy, PartialEq, Eq, Structural)]
pub enum Side {
    /// The note as it was on disk.
    Local,
    /// The file as it was on Drive.
    Remote,
}

/// How a side is called in the name of a copy.
pub open spec fn side_name(side: Side) -> Seq<char> {
    match side {
        Side::Local => "local"@,
        Side::Remote => "remote"@,
    }
}

/// How the name of a copy begins.
pub open spec fn copy_front(stem: Seq<char>, side: Side, stamp: Seq<char>) -> Seq<char> {
    stem + " ("@ + side_name(side) + " conflict "@ + stamp
}

/// The names that a copy beside a note can have: the first that is free is
/// taken.
pub open spec fn copy_names(
    parent: Seq<char>,
    stem: Seq<char>,
    side: Side,
    stamp: Seq<char>,
) -> TrialView {
    TrialView {
        first: paths::joined(parent, copy_front(stem, side, stamp) + ").md"@),
        front: paths::joined(parent, copy_front(stem, side, stamp) + "-"@),
        back: ").md"@,
        start: 2,
        tried: 0,
    }
}

/// The names that a copy of a note made at `ms` can have, in the directory
/// `parent`.
pub fn conflict_names(parent: &str, stem: &str, side: Side, ms: i64) -> (r: Trial)
    requires
        -clock::THOUSAND_DAYS_MS <= ms <= clock::UTC_END_MS,
    ensures
        r.wf(),
        r@ == copy_names(
            parent@,
            stem@,
            side,
            clock::utc_text(ms as int, clock::fine_stamp_format()),
        ),
        clock::is_dated(clock::utc_text(ms as int, clock::fine_stamp_format()), 9),
{
    let ts = fine_stamp(ms);
    let mut front = join2(stem, " (");
    match side {
        Side::Local => {
            front.append("local");
        },
        Side::Remote => {
            front.append("remote");
        },
    }
    front.append(" conflict ");
    front.append(ts.as_str());
    Trial {
        first: join(parent, join2(front.as_str(), ").md").as_str()),
        front: join(parent, join2(front.as_str(), "-").as_str()),
        back: ").md".to_owned(),
        start: 2,
        tried: 0,
    }
}

/// The stem of a note's name.
pub open spec fn note_stem(path: Seq<char>) -> Seq<char> {
    match paths::file_name_of(path) {
        Some(n) => paths::stem_of(n),
        None => "note"@,
    }
}

/// Where the making of a copy stands.
pub enum RescueStageView {
    /// It is looked up whether there is a note to copy.
    Source,
    /// It is looked up whether the name at hand is free.
    Name,
    /// The copy is being made.
    Copying,
    /// There is no note to copy.
    Nothing,
    /// Where the copy is, or why there is none.
    Over(Result<Seq<char>, Seq<char>>),
}

/// The making of a copy.
pub struct RescueView {
    pub side: Side,
    pub source: Seq<char>,
    pub names: TrialView,
    pub stage: RescueStageView,
}

impl RescueView {
    pub open spec fn at(self, stage: RescueStageView) -> RescueView {
        RescueView { stage, ..self }
    }

    /// What is asked.
    pub open spec fn pending(self) -> FileStepView {
        match self.stage {
            RescueStageView::Source => FileStepView::Probe { path: self.source },
            RescueStageView::Name => FileStepView::Probe { path: self.names.name() },
            RescueStageView::Copying => match self.side {
                Side::Local => FileStepView::Copy { from: self.source, to: self.names.name() },
                Side::Remote => FileStepView::Write { to: self.names.name() },
            },
            RescueStageView::Nothing => FileStepView::Stop,
            RescueStageView::Over(outcome) => FileStepView::Finish { outcome },
        }
    }

    /// `answer` answers what was asked.
    pub open spec fn accepts(self, answer: AnswerView) -> bool {
        match (self.stage, answer) {
            (RescueStageView::Source, AnswerView::Exists(_)) => true,
            (RescueStageView::Name, AnswerView::Exists(_)) => self.names.start + self.names.tried
                < u64::MAX,
            (RescueStageView::Copying, AnswerView::Outcome(_)) => true,
            _ => false,
        }
    }

    /// The making of the copy once the answer has come.
    pub open spec fn after(self, answer: AnswerView) -> RescueView {
        match (self.stage, answer) {
            (RescueStageView::Source, AnswerView::Exists(b)) => if b {
                self.at(RescueStageView::Name)
            } else {
                self.at(RescueStageView::Nothing)
            },
            (RescueStageView::Name, AnswerView::Exists(b)) => if b {
                RescueView { names: self.names.next(), ..self }
            } else {
                self.at(RescueStageView::Copying)
            },
            (RescueStageView::Copying, AnswerView::Outcome(Ok(_))) => self.at(
                RescueStageView::Over(Ok(self.names.name())),
            ),
            (RescueStageView::Copying, AnswerView::Outcome(Err(e))) => self.at(
                RescueStageView::Over(
                    Err(notes::failure_text("Failed to save a conflict copy of "@, self.source, e)),
                ),
            ),
            _ => self,
        }
    }
}

/// How the making of a copy begins: the note on disk is looked up first; what
/// Drive has is at hand. Without a directory to put it in the copy fails.
pub open spec fn rescue_begun(
    side: Side,
    root: Seq<char>,
    rel: Seq<char>,
    stamp: Seq<char>,
) -> RescueView {
    let source = paths::joined(root, rel);
    RescueView {
        side,
        source,
        names: copy_names(
            match paths::parent_of(source) {
                Some(d) => d,
                None => Seq::empty(),
            },
            note_stem(source),
            side,
            stamp,
        ),
        stage: if paths::parent_of(source) is None {
            RescueStageView::Over(Err("No place for a conflict copy of "@ + source))
        } else {
            match side {
                Side::Local => RescueStageView::Source,
                Side::Remote => RescueStageView::Name,
            }
        },
    }
}

enum RescueStage {
    Source,
    Name,
    Copying,
    Nothing,
    Over(Result<String, String>),
}

impl View for RescueStage {
    type V = RescueStageView;

    closed spec fn view(&self) -> RescueStageView {
        match self {
            RescueStage::Source => RescueStageView::Source,
            RescueStage::Name => RescueStageView::Name,
            RescueStage::Copying => RescueStageView::Copying,
            RescueStage::Nothing => RescueStageView::Nothing,
            RescueStage::Over(r) => RescueStageView::Over(notes::text_view(*r)),
        }
    }
}

/// The making of a copy.
pub struct Rescue {
    side: Side,
    source: String,
    names: Trial,
    stage: RescueStage,
}

impl View for Rescue {
    type V = RescueView;

    closed spec fn view(&self) -> RescueView {
        RescueView {
            side: self.side,
            source: self.source@,
            names: self.names@,
            stage: self.stage@,
        }
    }
}

impl Rescue {
    /// The numbers of the names tried so far fit.
    pub closed spec fn wf(&self) -> bool {
        self.names.wf()
    }

    /// Begins to copy the version `side` of the note at `rel`, at the time
    /// `ms`.
    pub fn begin_at(side: Side, root: &str, rel: &str, ms: i64) -> (r: Rescue)
        requires
            -clock::THOUSAND_DAYS_MS <= ms <= clock::UTC_END_MS,
        ensures
            r.wf(),
            r@ == rescue_begun(
                side,
                root@,
                rel@,
                clock::utc_text(ms as int, clock::fine_stamp_format()),
            ),
            clock::is_dated(clock::utc_text(ms as int, clock::fine_stamp_format()), 9),
    {
        let source = join(root, rel);
        let s = match file_name(source.as_str()) {
            Some(n) => stem(n.as_str()),
            None => "note".to_owned(),
        };
        match parent(source.as_str()) {
            Some(d) => {
                let names = conflict_names(d.as_str(), s.as_str(), side, ms);
                let stage = match side {
                    Side::Local => RescueStage::Source,
                    Side::Remote => RescueStage::Name,
                };
                Rescue { side, source, names, stage }
            },
            None => {
                let none = String::new();
                assert(none@ =~= Seq::empty());
                let names = conflict_names(none.as_str(), s.as_str(), side, ms);
                let error = join2("No place for a conflict copy of ", source.as_str());
                Rescue { side, source, names, stage: RescueStage::Over(Err(error)) }
            },
        }
    }

    /// Begins to copy the version `side` of the note at `rel`, now.
    pub fn begin(side: Side, root: &str, rel: &str) -> (r: Rescue)
        ensures
            r.wf(),
            exists|ms: int|
                0 <= ms <= clock::UTC_END_MS && r@ == rescue_begun(
                    side,
                    root@,
                    rel@,
                    #[trigger] clock::utc_text(ms, clock::fine_stamp_format()),
                ) && clock::is_dated(clock::utc_text(ms, clock::fine_stamp_format()), 9),
    {
        let ms = utc_now_ms();
        Rescue::begin_at(side, root, rel, ms)
    }

    /// What is asked.
    pub fn pending(&self) -> (r: FileStep)
        requires
            self.wf(),
        ensures
            r@ == self@.pending(),
    {
        match &self.stage {
            RescueStage::Source => FileStep::Probe { path: self.source.clone() },
            RescueStage::Name => FileStep::Probe { path: self.names.name() },
            RescueStage::Copying => match self.side {
                Side::Local => FileStep::Copy { from: self.source.clone(), to: self.names.name() },
                Side::Remote => FileStep::Write { to: self.names.name() },
            },
            RescueStage::Nothing => FileStep::Stop,
            RescueStage::Over(r) => FileStep::Finish {
                outcome: match r {
                    Ok(t) => Ok(t.clone()),
                    Err(e) => Err(e.clone()),
                },
            },
        }
    }

    /// Takes the answer.
    pub fn advance(&mut self, answer: Answer)
        requires
            old(self).wf(),
            old(self)@.accepts(answer@),
        ensures
            final(self).wf(),
            final(self)@ == old(self)@.after(answer@),
    {
        match (&self.stage, answer) {
            (RescueStage::Source, Answer::Exists(b)) => {
                self.stage = if b {
                    RescueStage::Name
                } else {
                    RescueStage::Nothing
                };
            },
            (RescueStage::Name, Answer::Exists(b)) => {
                if b {
                    self.names.next();
                } else {
                    self.stage = RescueStage::Copying;
                }
            },
            (RescueStage::Copying, Answer::Outcome(r)) => {
                self.stage = RescueStage::Over(
                    match r {
                        Ok(_) => Ok(self.names.name()),
                        Err(e) => Err(
                            failure(
                                "Failed to save a conflict copy of ",
                                self.source.as_str(),
                                e.as_str(),
                            ),
                        ),
                    },
                );
            },
            _ => {},
        }
    }
}

// ---------------------------------------------------------------------------
// Laws
// ---------------------------------------------------------------------------

/// A copy is made only under a name that was just found to be free.
pub proof fn a_copy_overwrites_nothing(s: RescueView, answer: AnswerView)
    requires
        s.accepts(answer),
        s.after(answer).stage is Copying,
    ensures
        s.pending() == (FileStepView::Probe { path: s.after(answer).names.name() }),
        answer == AnswerView::Exists(false),
{
}

/// No name is tried twice, so two conflicts at the same time get two copies.
pub proof fn copy_names_differ(
    parent: Seq<char>,
    stem: Seq<char>,
    side: Side,
    stamp: Seq<char>,
    k: int,
    l: int,
)
    requires
        0 <= k < l,
    ensures
        copy_names(parent, stem, side, stamp).nth(k) != copy_names(parent, stem, side, stamp).nth(
            l,
        ),
{
    let t = copy_names(parent, stem, side, stamp);
    if k >= 1 {
        steps::numbered_names_differ(t, k, l);
    } else {
        reveal_strlit(" (");
        reveal_strlit("-");
        reveal_strlit(").md");
        let front = copy_front(stem, side, stamp);
        assert(front.len() >= 2);
        assert((front + ").md"@)[0] == front[0]);
        assert((front + "-"@)[0] == front[0]);
        lemma_joined_len(parent, front, ").md"@, "-"@);
        crate::text::decimal_is_not_empty((t.start + l - 1) as nat);
        assert(t.nth(l).len() > t.nth(k).len());
    }
}

proof fn lemma_joined_len(a: Seq<char>, b: Seq<char>, x: Seq<char>, y: Seq<char>)
    requires
        b.len() > 0,
    ensures
        paths::joined(a, b + x).len() - x.len() == paths::joined(a, b + y).len() - y.len(),
{
    assert((b + x)[0] == b[0]);
    assert((b + y)[0] == b[0]);
}

} // verus!
