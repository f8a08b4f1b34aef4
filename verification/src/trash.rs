//! The trash: where deleted notes go, when they leave it, and how they come
//! back.

use crate::bytes;
use crate::bytes::count_before;
use crate::clock;
use crate::clock::{stamp, utc_now_ms};
use crate::notes;
use crate::paths;
use crate::paths::{file_name, join, parent, strip_prefix};
use crate::sort;
use crate::steps::{Answer, AnswerView, FileStep, FileStepView, Trial, TrialView};
use crate::text;
use crate::text::{chars_of, join2, not_after, replace, same_text, text_range};
use vstd::prelude::*;

verus! {

/// The folder, inside the root of the notes, that holds what was deleted.
pub const TRASH_DIR: &'static str = ".aanote-trash";

/// How long the trash keeps what was deleted: 30 days.
pub const RETENTION_MS: i64 = 2_592_000_000;

/// The trash of the notes at `root`.
pub open spec fn trash_dir(root: Seq<char>) -> Seq<char> {
    paths::joined(root, TRASH_DIR@)
}

/// The trash of the notes at `root`.
pub fn trash_dir_for(root: &str) -> (r: String)
    ensures
        r@ == trash_dir(root@),
{
    join(root, TRASH_DIR)
}

/// A path on one level: two underscores for each slash.
pub open spec fn leveled(rel: Seq<char>) -> Seq<char> {
    text::replaced(rel, "/"@, "__"@)
}

/// The path that stands on one level as `flat`: a slash for each two
/// underscores.
pub open spec fn unleveled(flat: Seq<char>) -> Seq<char> {
    text::replaced(flat, "__"@, "/"@)
}

/// Two underscores for each slash leave the path recognisable. They do not where
/// underscores of its own stand side by side or before a slash.
pub open spec fn is_recognisable(rel: Seq<char>) -> bool {
    unleveled(leveled(rel)) == rel
}

/// What stands for the first character of `rel` on one level where underscores
/// do not tell: two underscores for a slash, and what could be taken for
/// something else is escaped: a percent sign, and an underscore before another
/// or before a slash.
pub open spec fn flat_char(rel: Seq<char>) -> Seq<char> {
    if rel[0] == '/' {
        seq!['_', '_']
    } else if rel[0] == '%' {
        seq!['%', '2', '5']
    } else if rel[0] == '_' && rel.len() > 1 && (rel[1] == '_' || rel[1] == '/') {
        seq!['%', '5', 'F']
    } else {
        seq![rel[0]]
    }
}

/// A path on one level, with escapes.
pub open spec fn flattened(rel: Seq<char>) -> Seq<char>
    decreases rel.len(),
{
    if rel.len() == 0 {
        Seq::empty()
    } else {
        flat_char(rel) + flattened(rel.skip(1))
    }
}

/// The path that stands on one level, with escapes, as `flat`.
pub open spec fn unflattened(flat: Seq<char>) -> Seq<char>
    decreases flat.len(),
{
    if flat.len() == 0 {
        Seq::empty()
    } else if flat.len() > 1 && flat[0] == '_' && flat[1] == '_' {
        seq!['/'] + unflattened(flat.skip(2))
    } else if flat.len() > 2 && flat[0] == '%' && flat[1] == '2' && flat[2] == '5' {
        seq!['%'] + unflattened(flat.skip(3))
    } else if flat.len() > 2 && flat[0] == '%' && flat[1] == '5' && flat[2] == 'F' {
        seq!['_'] + unflattened(flat.skip(3))
    } else {
        seq![flat[0]] + unflattened(flat.skip(1))
    }
}

/// A path on one level, with escapes.
pub fn flatten(rel: &str) -> (r: String)
    ensures
        r@ == flattened(rel@),
{
    let v = chars_of(rel);
    let mut out = String::new();
    let mut i: usize = 0;
    assert(v@.skip(0) =~= v@);
    assert(out@ + flattened(v@) =~= flattened(v@));
    while i < v.len()
        invariant
            i <= v@.len(),
            out@ + flattened(v@.skip(i as int)) == flattened(v@),
        decreases v@.len() - i,
    {
        let ghost rest = v@.skip(i as int);
        let ghost before = out@;
        if v[i] == '/' {
            out.push('_');
            out.push('_');
        } else if v[i] == '%' {
            out.push('%');
            out.push('2');
            out.push('5');
        } else if v[i] == '_' && v.len() - i > 1 && (v[i + 1] == '_' || v[i + 1] == '/') {
            out.push('%');
            out.push('5');
            out.push('F');
        } else {
            out.push(v[i]);
        }
        proof {
            assert(out@ =~= before + flat_char(rest));
            assert(rest.skip(1) =~= v@.skip(i + 1));
            assert(before + (flat_char(rest) + flattened(rest.skip(1))) =~= out@ + flattened(
                rest.skip(1),
            ));
        }
        i += 1;
    }
    assert(out@ + flattened(v@.skip(i as int)) =~= out@);
    out
}

/// The path that stands on one level, with escapes, as `flat`.
pub fn unflatten(flat: &str) -> (r: String)
    ensures
        r@ == unflattened(flat@),
{
    let v = chars_of(flat);
    let mut out = String::new();
    let mut i: usize = 0;
    assert(v@.skip(0) =~= v@);
    assert(out@ + unflattened(v@) =~= unflattened(v@));
    while i < v.len()
        invariant
            i <= v@.len(),
            v@ == flat@,
            out@ + unflattened(v@.skip(i as int)) == unflattened(v@),
        decreases v@.len() - i,
    {
        let ghost rest = v@.skip(i as int);
        let ghost before = out@;
        let left: usize = v.len() - i;
        let step: usize;
        if left > 1 && v[i] == '_' && v[i + 1] == '_' {
            out.push('/');
            step = 2;
        } else if left > 2 && v[i] == '%' && v[i + 1] == '2' && v[i + 2] == '5' {
            out.push('%');
            step = 3;
        } else if left > 2 && v[i] == '%' && v[i + 1] == '5' && v[i + 2] == 'F' {
            out.push('_');
            step = 3;
        } else {
            out.push(v[i]);
            step = 1;
        }
        proof {
            let c = out@.last();
            assert(rest.skip(step as int) =~= v@.skip(i + step));
            assert(unflattened(rest) == seq![c] + unflattened(rest.skip(step as int)));
            assert(before + (seq![c] + unflattened(rest.skip(step as int))) =~= out@ + unflattened(
                rest.skip(step as int),
            ));
        }
        i += step;
    }
    assert(out@ + unflattened(v@.skip(i as int)) =~= out@);
    out
}

/// What stands behind the time in the name of what lay at `rel`: a dash and its
/// path on one level. A percent sign before the dash tells of escapes.
pub open spec fn trash_tail(rel: Seq<char>) -> Seq<char> {
    if is_recognisable(rel) {
        "-"@ + leveled(rel)
    } else {
        "%-"@ + flattened(rel)
    }
}

/// The name in the trash of what lay at `rel`: when it was deleted, and its
/// path on one level.
pub open spec fn trash_name(rel: Seq<char>, stamp: Seq<char>) -> Seq<char> {
    stamp + trash_tail(rel)
}

/// The time `ms` as it stands in a name in the trash.
pub open spec fn stamp_at(ms: int) -> Seq<char> {
    clock::utc_text(ms, clock::stamp_format())
}

/// The time `ms` is written as a time to the second, with four digits for the
/// year before the year 10000.
pub open spec fn is_stamped(ms: int) -> bool {
    &&& clock::is_stamp(stamp_at(ms))
    &&& ms < clock::YEAR_10000_MS ==> stamp_at(ms).len() == 15
}

/// Where what lay at `rel` goes when it is deleted at `ms`.
pub open spec fn trash_path(root: Seq<char>, rel: Seq<char>, ms: int) -> Seq<char> {
    paths::joined(trash_dir(root), trash_name(rel, stamp_at(ms)))
}

fn tail_in_trash(rel: &str) -> (r: String)
    ensures
        r@ == trash_tail(rel@),
{
    proof {
        reveal_strlit("/");
        reveal_strlit("__");
    }
    let flat = replace(rel, "/", "__");
    if same_text(replace(flat.as_str(), "__", "/").as_str(), rel) {
        join2("-", flat.as_str())
    } else {
        join2("%-", flatten(rel).as_str())
    }
}

/// Where what lay at `rel_path` goes when it is deleted at `ms`.
pub fn trash_path_at(root: &str, rel_path: &str, ms: i64) -> (r: String)
    requires
        -clock::THOUSAND_DAYS_MS <= ms <= clock::UTC_END_MS,
    ensures
        r@ == trash_path(root@, rel_path@, ms as int),
        is_stamped(ms as int),
{
    let ts = stamp(ms);
    let name = join2(ts.as_str(), tail_in_trash(rel_path).as_str());
    join(trash_dir_for(root).as_str(), name.as_str())
}

/// Where what lay at `rel_path` goes when it is deleted now.
pub fn trash_path_for(root: &str, rel_path: &str) -> (r: String)
    ensures
        exists|ms: int|
            0 <= ms <= clock::UTC_END_MS && r@ == #[trigger] trash_path(root@, rel_path@, ms)
                && is_stamped(ms),
{
    let ms = utc_now_ms();
    trash_path_at(root, rel_path, ms)
}

/// What of the path of a deleted note or folder counts: the way from the root
/// of the notes, or the whole path where it does not lie there.
pub open spec fn rel_of(root: Seq<char>, path: Seq<char>) -> Seq<char> {
    match paths::below(path, root) {
        Some(rel) => rel,
        None => path,
    }
}

// ---------------------------------------------------------------------------
// Into the trash
// ---------------------------------------------------------------------------

/// Where a move into the trash stands.
pub enum TrashStageView {
    /// It is looked up whether there is anything to delete.
    Source,
    /// The trash is being made.
    MakeDir,
    /// It is looked up whether the name at hand is free.
    Name,
    Moving,
    Over(Result<Seq<char>, Seq<char>>),
}

/// A move into the trash.
pub struct TrashView {
    pub rel: Seq<char>,
    pub source: Seq<char>,
    pub dir: Seq<char>,
    pub names: TrialView,
    pub stage: TrashStageView,
}

impl TrashView {
    pub open spec fn at(self, stage: TrashStageView) -> TrashView {
        TrashView { stage, ..self }
    }

    /// What is asked.
    pub open spec fn pending(self) -> FileStepView {
        match self.stage {
            TrashStageView::Source => FileStepView::Probe { path: self.source },
            TrashStageView::MakeDir => FileStepView::MakeDir { dir: self.dir },
            TrashStageView::Name => FileStepView::Probe { path: self.names.name() },
            TrashStageView::Moving => FileStepView::Rename {
                from: self.source,
                to: self.names.name(),
            },
            TrashStageView::Over(outcome) => FileStepView::Finish { outcome },
        }
    }

    /// `answer` answers what was asked.
    pub open spec fn accepts(self, answer: AnswerView) -> bool {
        match (self.stage, answer) {
            (TrashStageView::Source, AnswerView::Exists(_)) => true,
            (TrashStageView::MakeDir, AnswerView::Outcome(_)) => true,
            (TrashStageView::Name, AnswerView::Exists(_)) => self.names.start + self.names.tried
                < u64::MAX,
            (TrashStageView::Moving, AnswerView::Outcome(_)) => true,
            _ => false,
        }
    }

    /// The move once the answer has come.
    pub open spec fn after(self, answer: AnswerView) -> TrashView {
        match (self.stage, answer) {
            (TrashStageView::Source, AnswerView::Exists(b)) => if b {
                self.at(TrashStageView::MakeDir)
            } else {
                self.at(TrashStageView::Over(Err("Does not exist: "@ + self.rel)))
            },
            (TrashStageView::MakeDir, AnswerView::Outcome(Ok(_))) => self.at(TrashStageView::Name),
            (TrashStageView::MakeDir, AnswerView::Outcome(Err(e))) => self.at(
                TrashStageView::Over(Err("Failed to create trash dir: "@ + e)),
            ),
            (TrashStageView::Name, AnswerView::Exists(b)) => if b {
                TrashView { names: self.names.next(), ..self }
            } else {
                self.at(TrashStageView::Moving)
            },
            (TrashStageView::Moving, AnswerView::Outcome(Ok(_))) => self.at(
                TrashStageView::Over(Ok(self.names.name())),
            ),
            (TrashStageView::Moving, AnswerView::Outcome(Err(e))) => self.at(
                TrashStageView::Over(
                    Err(notes::failure_text("Failed to move "@, self.rel + " to trash"@, e)),
                ),
            ),
            _ => self,
        }
    }
}

/// The names in the trash that are tried in turn for what lay at `rel`: the
/// first, and then with a number behind the time.
pub open spec fn trash_names(root: Seq<char>, rel: Seq<char>, stamp: Seq<char>) -> TrialView {
    TrialView {
        first: paths::joined(trash_dir(root), trash_name(rel, stamp)),
        front: paths::joined(trash_dir(root), stamp + "."@),
        back: trash_tail(rel),
        start: 1,
        tried: 0,
    }
}

/// How a move of what lies at `rel` into the trash begins.
pub open spec fn trashing(root: Seq<char>, rel: Seq<char>, stamp: Seq<char>) -> TrashView {
    TrashView {
        rel,
        source: paths::joined(root, rel),
        dir: trash_dir(root),
        names: trash_names(root, rel, stamp),
        stage: TrashStageView::Source,
    }
}

enum TrashStage {
    Source,
    MakeDir,
    Name,
    Moving,
    Over(Result<String, String>),
}

impl View for TrashStage {
    type V = TrashStageView;

    closed spec fn view(&self) -> TrashStageView {
        match self {
            TrashStage::Source => TrashStageView::Source,
            TrashStage::MakeDir => TrashStageView::MakeDir,
            TrashStage::Name => TrashStageView::Name,
            TrashStage::Moving => TrashStageView::Moving,
            TrashStage::Over(r) => TrashStageView::Over(notes::text_view(*r)),
        }
    }
}

/// A move into the trash.
pub struct Trashing {
    rel: String,
    source: String,
    dir: String,
    names: Trial,
    stage: TrashStage,
}

impl View for Trashing {
    type V = TrashView;

    closed spec fn view(&self) -> TrashView {
        TrashView {
            rel: self.rel@,
            source: self.source@,
            dir: self.dir@,
            names: self.names@,
            stage: self.stage@,
        }
    }
}

fn same_outcome(r: &Result<String, String>) -> (q: Result<String, String>)
    ensures
        notes::text_view(q) == notes::text_view(*r),
{
    match r {
        Ok(t) => Ok(t.clone()),
        Err(e) => Err(e.clone()),
    }
}

impl Trashing {
    /// The numbers of the names tried so far fit.
    pub closed spec fn wf(&self) -> bool {
        self.names.wf()
    }

    /// What is asked.
    pub fn pending(&self) -> (r: FileStep)
        requires
            self.wf(),
        ensures
            r@ == self@.pending(),
    {
        match &self.stage {
            TrashStage::Source => FileStep::Probe { path: self.source.clone() },
            TrashStage::MakeDir => FileStep::MakeDir { dir: self.dir.clone() },
            TrashStage::Name => FileStep::Probe { path: self.names.name() },
            TrashStage::Moving => FileStep::Rename {
                from: self.source.clone(),
                to: self.names.name(),
            },
            TrashStage::Over(r) => FileStep::Finish { outcome: same_outcome(r) },
        }
    }

    /// Takes the answer.
    pub fn advance(&mut self, answer: Answer)
        requires
            old(self).wf(),
            old(self)@.accepts(answer@),
        ensures
            final(self).wf(),
            final(self)@ == old(self)@.after(answer@),
    {
        match (&self.stage, answer) {
            (TrashStage::Source, Answer::Exists(b)) => {
                self.stage = if b {
                    TrashStage::MakeDir
                } else {
                    TrashStage::Over(Err(join2("Does not exist: ", self.rel.as_str())))
                };
            },
            (TrashStage::MakeDir, Answer::Outcome(r)) => {
                self.stage = match r {
                    Ok(_) => TrashStage::Name,
                    Err(e) => TrashStage::Over(
                        Err(join2("Failed to create trash dir: ", e.as_str())),
                    ),
                };
            },
            (TrashStage::Name, Answer::Exists(b)) => {
                if b {
                    self.names.next();
                } else {
                    self.stage = TrashStage::Moving;
                }
            },
            (TrashStage::Moving, Answer::Outcome(r)) => {
                self.stage = match r {
                    Ok(_) => TrashStage::Over(Ok(self.names.name())),
                    Err(e) => TrashStage::Over(
                        Err(
                            notes::failure(
                                "Failed to move ",
                                join2(self.rel.as_str(), " to trash").as_str(),
                                e.as_str(),
                            ),
                        ),
                    ),
                };
            },
            _ => {},
        }
    }
}

/// Begins to move what lies at `rel_path` into the trash, at the time `ms`.
pub fn move_to_trash_at(root: &str, rel_path: &str, ms: i64) -> (r: Trashing)
    requires
        -clock::THOUSAND_DAYS_MS <= ms <= clock::UTC_END_MS,
    ensures
        r.wf(),
        r@ == trashing(root@, rel_path@, stamp_at(ms as int)),
        is_stamped(ms as int),
{
    let ts = stamp(ms);
    let dir = trash_dir_for(root);
    let tail = tail_in_trash(rel_path);
    let names = Trial {
        first: join(dir.as_str(), join2(ts.as_str(), tail.as_str()).as_str()),
        front: join(dir.as_str(), join2(ts.as_str(), ".").as_str()),
        back: tail,
        start: 1,
        tried: 0,
    };
    Trashing {
        rel: rel_path.to_owned(),
        source: join(root, rel_path),
        dir,
        names,
        stage: TrashStage::Source,
    }
}

/// Begins to move what lies at `rel_path` into the trash, now.
pub fn move_to_trash(root: &str, rel_path: &str) -> (r: Trashing)
    ensures
        r.wf(),
        exists|ms: int|
            0 <= ms <= clock::UTC_END_MS && r@ == trashing(
                root@,
                rel_path@,
                #[trigger] stamp_at(ms),
            ) && is_stamped(ms),
{
    let ms = utc_now_ms();
    move_to_trash_at(root, rel_path, ms)
}

/// Begins to move the note or folder at `path` into the trash of the notes
/// at `root_path`, now.
pub fn trash_node(root_path: &str, path: &str) -> (r: Trashing)
    ensures
        r.wf(),
        exists|ms: int|
            0 <= ms <= clock::UTC_END_MS && r@ == trashing(
                root_path@,
                rel_of(root_path@, path@),
                #[trigger] stamp_at(ms),
            ) && is_stamped(ms),
{
    match strip_prefix(path, root_path) {
        Some(rel) => move_to_trash(root_path, rel.as_str()),
        None => move_to_trash(root_path, path),
    }
}

// ---------------------------------------------------------------------------
// Out of the trash
// ---------------------------------------------------------------------------

/// Where the first dash of `s` stands.
pub open spec fn first_dash(s: Seq<char>) -> Option<int> {
    text::first_occurrence(s, "-"@)
}

/// Where what has the name `name` in the trash lay: what stands behind the
/// second dash, with its levels. A percent sign before that dash tells of
/// escapes.
pub open spec fn origin(name: Seq<char>) -> Option<Seq<char>> {
    match first_dash(name) {
        Some(i) => match first_dash(name.skip(i + 1)) {
            Some(j) => if name[i + j] == '%' {
                Some(unflattened(name.skip(i + j + 2)))
            } else {
                Some(unleveled(name.skip(i + j + 2)))
            },
            None => None,
        },
        None => None,
    }
}

/// Where what lies at `trash_path` in the trash goes back to.
pub open spec fn restore_place(root: Seq<char>, trash_path: Seq<char>) -> Result<
    Seq<char>,
    Seq<char>,
> {
    match paths::file_name_of(trash_path) {
        Some(name) => match origin(name) {
            Some(rel) => Ok(paths::joined(root, rel)),
            None => Err("Invalid trash filename"@),
        },
        None => Err("Invalid trash path"@),
    }
}

fn origin_of(name: &str) -> (r: Option<String>)
    ensures
        match r {
            Some(rel) => origin(name@) == Some(rel@),
            None => origin(name@) is None,
        },
{
    let v = chars_of(name);
    let dash = chars_of("-");
    proof {
        reveal_strlit("-");
        text::first_occurrence_is_first(name@, "-"@);
    }
    match text::find_chars(&v, &dash) {
        Some(i) => {
            assert(i < v.len());
            let rest = text_range(&v, i + 1, v.len());
            assert(rest@ =~= name@.skip(i + 1));
            let w = chars_of(rest.as_str());
            proof {
                text::first_occurrence_is_first(rest@, "-"@);
            }
            match text::find_chars(&w, &dash) {
                Some(j) => {
                    assert(j < w.len());
                    let tail = text_range(&w, j + 1, w.len());
                    assert(tail@ =~= name@.skip(i + j + 2));
                    if v[i + j] == '%' {
                        Some(unflatten(tail.as_str()))
                    } else {
                        proof {
                            reveal_strlit("__");
                        }
                        Some(replace(tail.as_str(), "__", "/"))
                    }
                },
                None => None,
            }
        },
        None => None,
    }
}

/// Where what lies at `trash_path` in the trash goes back to.
pub fn restore_target(root_path: &str, trash_path: &str) -> (r: Result<String, String>)
    ensures
        notes::text_view(r) == restore_place(root_path@, trash_path@),
{
    match file_name(trash_path) {
        Some(name) => match origin_of(name.as_str()) {
            Some(rel) => Ok(join(root_path, rel.as_str())),
            None => Err("Invalid trash filename".to_owned()),
        },
        None => Err("Invalid trash path".to_owned()),
    }
}

/// Where a restoration stands.
pub enum RestoreStageView {
    /// The directory is being made.
    MakeDir(Seq<char>),
    /// It is looked up whether the place is free.
    Place,
    Moving,
    Over(Result<Seq<char>, Seq<char>>),
}

/// A restoration.
pub struct RestoreView {
    pub source: Seq<char>,
    pub dest: Seq<char>,
    pub stage: RestoreStageView,
}

impl RestoreView {
    pub open spec fn at(self, stage: RestoreStageView) -> RestoreView {
        RestoreView { stage, ..self }
    }

    /// What is asked.
    pub open spec fn pending(self) -> FileStepView {
        match self.stage {
            RestoreStageView::MakeDir(dir) => FileStepView::MakeDir { dir },
            RestoreStageView::Place => FileStepView::Probe { path: self.dest },
            RestoreStageView::Moving => FileStepView::Rename { from: self.source, to: self.dest },
            RestoreStageView::Over(outcome) => FileStepView::Finish { outcome },
        }
    }

    /// `answer` answers what was asked.
    pub open spec fn accepts(self, answer: AnswerView) -> bool {
        match (self.stage, answer) {
            (RestoreStageView::MakeDir(_), AnswerView::Outcome(_)) => true,
            (RestoreStageView::Place, AnswerView::Exists(_)) => true,
            (RestoreStageView::Moving, AnswerView::Outcome(_)) => true,
            _ => false,
        }
    }

    /// The restoration once the answer has come.
    pub open spec fn after(self, answer: AnswerView) -> RestoreView {
        match (self.stage, answer) {
            (RestoreStageView::MakeDir(_), AnswerView::Outcome(Ok(_))) => self.at(
                RestoreStageView::Place,
            ),
            (RestoreStageView::MakeDir(_), AnswerView::Outcome(Err(e))) => self.at(
                RestoreStageView::Over(Err("Failed to create dir: "@ + e)),
            ),
            (RestoreStageView::Place, AnswerView::Exists(b)) => if b {
                self.at(
                    RestoreStageView::Over(
                        Err("A file already exists at the original location: "@ + self.dest),
                    ),
                )
            } else {
                self.at(RestoreStageView::Moving)
            },
            (RestoreStageView::Moving, AnswerView::Outcome(Ok(_))) => self.at(
                RestoreStageView::Over(Ok(self.dest)),
            ),
            (RestoreStageView::Moving, AnswerView::Outcome(Err(e))) => self.at(
                RestoreStageView::Over(Err("Failed to restore: "@ + e)),
            ),
            _ => self,
        }
    }
}

/// How the restoration of what lies at `trash_path` begins.
pub open spec fn restoring(root: Seq<char>, trash_path: Seq<char>) -> RestoreView {
    match restore_place(root, trash_path) {
        Ok(dest) => RestoreView {
            source: trash_path,
            dest,
            stage: match paths::parent_of(dest) {
                Some(d) => RestoreStageView::MakeDir(d),
                None => RestoreStageView::Place,
            },
        },
        Err(e) => RestoreView {
            source: trash_path,
            dest: Seq::empty(),
            stage: RestoreStageView::Over(Err(e)),
        },
    }
}

enum RestoreStage {
    MakeDir(String),
    Place,
    Moving,
    Over(Result<String, String>),
}

impl View for RestoreStage {
    type V = RestoreStageView;

    closed spec fn view(&self) -> RestoreStageView {
        match self {
            RestoreStage::MakeDir(d) => RestoreStageView::MakeDir(d@),
            RestoreStage::Place => RestoreStageView::Place,
            RestoreStage::Moving => RestoreStageView::Moving,
            RestoreStage::Over(r) => RestoreStageView::Over(notes::text_view(*r)),
        }
    }
}

/// A restoration.
pub struct Restoring {
    source: String,
    dest: String,
    stage: RestoreStage,
}

impl View for Restoring {
    type V = RestoreView;

    closed spec fn view(&self) -> RestoreView {
        RestoreView { source: self.source@, dest: self.dest@, stage: self.stage@ }
    }
}

impl Restoring {
    /// What is asked.
    pub fn pending(&self) -> (r: FileStep)
        ensures
            r@ == self@.pending(),
    {
        match &self.stage {
            RestoreStage::MakeDir(d) => FileStep::MakeDir { dir: d.clone() },
            RestoreStage::Place => FileStep::Probe { path: self.dest.clone() },
            RestoreStage::Moving => FileStep::Rename {
                from: self.source.clone(),
                to: self.dest.clone(),
            },
            RestoreStage::Over(r) => FileStep::Finish { outcome: same_outcome(r) },
        }
    }

    /// Takes the answer.
    pub fn advance(&mut self, answer: Answer)
        requires
            old(self)@.accepts(answer@),
        ensures
            final(self)@ == old(self)@.after(answer@),
    {
        match (&self.stage, answer) {
            (RestoreStage::MakeDir(_), Answer::Outcome(r)) => {
                self.stage = match r {
                    Ok(_) => RestoreStage::Place,
                    Err(e) => RestoreStage::Over(Err(join2("Failed to create dir: ", e.as_str()))),
                };
            },
            (RestoreStage::Place, Answer::Exists(b)) => {
                self.stage = if b {
                    RestoreStage::Over(
                        Err(
                            join2(
                                "A file already exists at the original location: ",
                                self.dest.as_str(),
                            ),
                        ),
                    )
                } else {
                    RestoreStage::Moving
                };
            },
            (RestoreStage::Moving, Answer::Outcome(r)) => {
                self.stage = match r {
                    Ok(_) => RestoreStage::Over(Ok(self.dest.clone())),
                    Err(e) => RestoreStage::Over(Err(join2("Failed to restore: ", e.as_str()))),
                };
            },
            _ => {},
        }
    }
}

/// Begins to bring back what lies at `trash_path`.
pub fn restore_from_trash(root_path: &str, trash_path: &str) -> (r: Restoring)
    ensures
        r@ == restoring(root_path@, trash_path@),
{
    match restore_target(root_path, trash_path) {
        Ok(dest) => {
            let stage = match parent(dest.as_str()) {
                Some(d) => RestoreStage::MakeDir(d),
                None => RestoreStage::Place,
            };
            Restoring { source: trash_path.to_owned(), dest, stage }
        },
        Err(e) => {
            let none = String::new();
            assert(none@ =~= Seq::empty());
            Restoring {
                source: trash_path.to_owned(),
                dest: none,
                stage: RestoreStage::Over(Err(e)),
            }
        },
    }
}

// ---------------------------------------------------------------------------
// Purging and emptying
// ---------------------------------------------------------------------------

/// What has this name in the trash was deleted before `cutoff`: the time that
/// it begins with, in 15 bytes, comes before. A character that the last of these
/// bytes belongs to counts whole.
pub open spec fn is_expired(name: Seq<char>, cutoff: Seq<char>) -> bool {
    &&& bytes::byte_len(name, name.len() as int) >= 15
    &&& text::text_lt(name.take(bytes::chars_before(name, 15) as int), cutoff)
}

/// The names, among the first `n`, of what was deleted before `cutoff`.
pub open spec fn expired_names(names: Seq<Seq<char>>, cutoff: Seq<char>, n: int) -> Seq<Seq<char>>
    decreases n,
{
    if n <= 0 {
        Seq::empty()
    } else if is_expired(names[n - 1], cutoff) {
        expired_names(names, cutoff, n - 1).push(names[n - 1])
    } else {
        expired_names(names, cutoff, n - 1)
    }
}

/// Where things with these names stand in the trash.
pub open spec fn in_trash_dir(root: Seq<char>, names: Seq<Seq<char>>) -> Seq<Seq<char>> {
    names.map_values(|n: Seq<char>| paths::joined(trash_dir(root), n))
}

/// What was deleted at the time of the stamp is expired exactly where the stamp
/// comes before `cutoff`.
pub proof fn expired_is_older(stamp: Seq<char>, tail: Seq<char>, cutoff: Seq<char>)
    requires
        clock::is_stamp(stamp),
        stamp.len() == 15,
    ensures
        is_expired(stamp + tail, cutoff) <==> text::text_lt(stamp, cutoff),
{
    let name = stamp + tail;
    assert forall|i: int| 0 <= i < 15 implies (#[trigger] name[i] as u32) < 0x80 by {
        assert(name[i] == stamp[i]);
        if i != 8 {
            assert(clock::is_digit(stamp[i]) || stamp[i] == '+');
        }
    }
    bytes::ascii_takes_one_byte_each(name, 15);
    bytes::chars_before_byte_len(name, 15);
    bytes::byte_len_grows(name, 15, name.len() as int);
    assert(name.take(15) =~= stamp);
}

/// Whether what has this name in the trash was deleted before `cutoff`.
pub fn expired(name: &str, cutoff: &str) -> (r: bool)
    ensures
        r == is_expired(name@, cutoff@),
{
    proof {
        bytes::byte_len_is_encoded_len(name@);
    }
    if name.as_bytes().len() < 15 {
        return false;
    }
    let v = chars_of(name);
    let n = count_before(&v, 15);
    let front = text_range(&v, 0, n);
    assert(front@ =~= name@.take(n as int));
    !not_after(cutoff, front.as_str())
}

/// Before when what the trash no longer keeps at `now` was deleted, as it
/// stands in a name. What was deleted more than 30 days before, in whole
/// seconds, is expired; what was deleted later is not.
pub fn cutoff_at(now: i64) -> (r: String)
    requires
        0 <= now <= clock::UTC_END_MS,
    ensures
        r@ == stamp_at(now - RETENTION_MS),
        clock::is_stamp(r@),
        now < clock::YEAR_10000_MS ==> forall|t: int|
            -clock::THOUSAND_DAYS_MS <= t < clock::YEAR_10000_MS ==> (text::text_lt(
                #[trigger] stamp_at(t),
                r@,
            ) <==> t / 1000 < (now - RETENTION_MS) / 1000),
        keeps_thirty_days(now as int),
{
    let r = stamp(now - RETENTION_MS);
    proof {
        if now < clock::YEAR_10000_MS {
            assert forall|t: int|
                -clock::THOUSAND_DAYS_MS <= t < clock::YEAR_10000_MS implies (text::text_lt(
                #[trigger] stamp_at(t),
                r@,
            ) <==> t / 1000 < (now - RETENTION_MS) / 1000) by {
                assert(stamp_at(t) == clock::utc_text(t, clock::stamp_format()));
            }
            assert forall|t: int, tail: Seq<char>|
                -clock::THOUSAND_DAYS_MS <= t < clock::YEAR_10000_MS && is_stamped(t) implies (
            #[trigger] is_expired(stamp_at(t) + tail, stamp_at(now - RETENTION_MS)) <==> t / 1000
                < (now - RETENTION_MS) / 1000) by {
                expired_is_older(stamp_at(t), tail, r@);
            }
        }
    }
    r
}

/// What the trash no longer keeps at `now`, of the things in it with the names
/// `names`: what was deleted more than 30 days before, in whole seconds.
pub fn purge_at(root: &str, names: &Vec<String>, now: i64) -> (r: Vec<String>)
    requires
        0 <= now <= clock::UTC_END_MS,
    ensures
        sort::views(r@) == in_trash_dir(
            root@,
            expired_names(
                sort::views(names@),
                stamp_at(now - RETENTION_MS),
                names@.len() as int,
            ),
        ),
        keeps_thirty_days(now as int),
{
    let cutoff = cutoff_at(now);
    let dir = trash_dir_for(root);
    let ghost all = sort::views(names@);
    let mut out: Vec<String> = Vec::new();
    let mut i: usize = 0;
    assert(sort::views(out@) =~= in_trash_dir(root@, Seq::empty()));
    while i < names.len()
        invariant
            i <= names@.len(),
            all == sort::views(names@),
            dir@ == trash_dir(root@),
            sort::views(out@) == in_trash_dir(root@, expired_names(all, cutoff@, i as int)),
        decreases names@.len() - i,
    {
        assert(all[i as int] == names@[i as int]@);
        if expired(names[i].as_str(), cutoff.as_str()) {
            let ghost before = out@;
            let p = join(dir.as_str(), names[i].as_str());
            out.push(p);
            assert(sort::views(out@) =~= sort::views(before).push(p@));
            assert(in_trash_dir(root@, expired_names(all, cutoff@, i + 1)) =~= in_trash_dir(
                root@,
                expired_names(all, cutoff@, i as int),
            ).push(p@));
        }
        i += 1;
    }
    out
}

/// At `now`, what was deleted at `t` is no longer kept exactly where that was
/// more than 30 days before, in whole seconds, whatever follows the time in its
/// name.
pub open spec fn keeps_thirty_days(now: int) -> bool {
    now < clock::YEAR_10000_MS ==> forall|t: int, tail: Seq<char>|
        -clock::THOUSAND_DAYS_MS <= t < clock::YEAR_10000_MS && is_stamped(t) ==> (
        #[trigger] is_expired(stamp_at(t) + tail, stamp_at(now - RETENTION_MS)) <==> t / 1000 < (
        now - RETENTION_MS) / 1000)
}

/// What the trash no longer keeps now, of the things in it with the names
/// `names`.
pub fn purge_old_trash(root: &str, names: &Vec<String>) -> (r: Vec<String>)
    ensures
        exists|now: int|
            0 <= now <= clock::UTC_END_MS && keeps_thirty_days(now) && sort::views(r@)
                == in_trash_dir(
                root@,
                expired_names(
                    sort::views(names@),
                    #[trigger] stamp_at(now - RETENTION_MS),
                    names@.len() as int,
                ),
            ),
{
    let now = utc_now_ms();
    let r = purge_at(root, names, now);
    assert(stamp_at(now - RETENTION_MS) == stamp_at(now as int - RETENTION_MS));
    r
}

/// How many of the first `n` deletions succeeded.
pub open spec fn successes(done: Seq<bool>, n: int) -> nat
    decreases n,
{
    if n <= 0 {
        0
    } else {
        successes(done, n - 1) + if done[n - 1] {
            1nat
        } else {
            0nat
        }
    }
}

/// What came of going through the trash.
pub enum Emptying {
    /// There is no trash.
    NoTrash,
    /// The trash could not be listed.
    Unlisted { cause: String },
    /// Something in it could not be looked at, which ended it.
    BrokenOff { cause: String },
    /// Everything was tried; whether each deletion succeeded.
    Tried { done: Vec<bool> },
}

/// What is reported of emptying the trash: how much was deleted.
pub fn empty_trash(emptying: &Emptying) -> (r: Result<u32, String>)
    requires
        *emptying matches Emptying::Tried { done } ==> done@.len() <= u32::MAX,
    ensures
        match (emptying, r) {
            (Emptying::NoTrash, Ok(n)) => n == 0,
            (Emptying::Unlisted { cause }, Err(e)) => e@ == "Failed to read trash: "@ + cause@,
            (Emptying::BrokenOff { cause }, Err(e)) => e@ == "Failed to read entry: "@ + cause@,
            (Emptying::Tried { done }, Ok(n)) => n == successes(done@, done@.len() as int),
            _ => false,
        },
{
    match emptying {
        Emptying::NoTrash => Ok(0),
        Emptying::Unlisted { cause } => Err(join2("Failed to read trash: ", cause.as_str())),
        Emptying::BrokenOff { cause } => Err(join2("Failed to read entry: ", cause.as_str())),
        Emptying::Tried { done } => {
            let mut n: u32 = 0;
            let mut i: usize = 0;
            while i < done.len()
                invariant
                    i <= done@.len() <= u32::MAX,
                    n == successes(done@, i as int),
                    n <= i,
                decreases done@.len() - i,
            {
                if done[i] {
                    n += 1;
                }
                i += 1;
            }
            Ok(n)
        },
    }
}

} // verus!
