//! What the steps that are asked for leave on the disk, whether they are done,
//! fail or are broken off.

use crate::conflict::{RescueStageView, RescueView, Side};
use crate::paths;
use crate::steps::{AnswerView, FileStepView, TrialView};
use crate::text;
use crate::trash;
use crate::trash::{RestoreStageView, RestoreView, TrashStageView, TrashView};
use crate::trash_laws;
use crate::write::{Purpose, StepView, WriteView};
use vstd::prelude::*;
use vstd::utf8::*;

verus! {

/// Two disks hold the same, but for what stands at `p`.
pub open spec fn same_but<T>(
    a: Map<Seq<char>, T>,
    b: Map<Seq<char>, T>,
    p: Seq<char>,
) -> bool {
    a.remove(p) == b.remove(p)
}

// ---------------------------------------------------------------------------
// Writing
// ---------------------------------------------------------------------------

/// What a step of a write of `content` can make of the disk `before`. A step
/// that is not done has changed nothing, or part of the temporary file; that
/// one file takes the place of another happens as a whole or not at all.
pub open spec fn can_become(
    before: Map<Seq<char>, Seq<u8>>,
    step: StepView,
    content: Seq<u8>,
    done: bool,
    after: Map<Seq<char>, Seq<u8>>,
) -> bool {
    match step {
        StepView::MakeDir { .. } => after == before,
        StepView::Create { tmp } => if done {
            after == before.insert(tmp, Seq::empty())
        } else {
            same_but(before, after, tmp)
        },
        StepView::Write { tmp } => if done {
            after == before.insert(tmp, content)
        } else {
            same_but(before, after, tmp)
        },
        StepView::Sync { .. } => after == before,
        StepView::Rename { tmp, path } => if done {
            &&& before.dom().contains(tmp)
            &&& after == before.remove(tmp).insert(path, before[tmp])
        } else {
            after == before
        },
        StepView::Remove { tmp } => if done {
            after == before.remove(tmp)
        } else {
            after == before
        },
        StepView::Finish { .. } => after == before,
    }
}

/// The disk once the file was replaced.
pub open spec fn replaced_on(
    s: WriteView,
    content: Seq<u8>,
    first: Map<Seq<char>, Seq<u8>>,
) -> Map<Seq<char>, Seq<u8>> {
    first.remove(s.tmp()).insert(s.path, content)
}

/// What holds while a write of `content` is under way that found the disk as
/// `first`: the step speaks of the file and its temporary file; and but for the
/// temporary file the disk `now` is as it was found, until the file is replaced.
pub open spec fn on_course(
    s: WriteView,
    content: Seq<u8>,
    first: Map<Seq<char>, Seq<u8>>,
    now: Map<Seq<char>, Seq<u8>>,
) -> bool {
    let whole = now.dom().contains(s.tmp()) && now[s.tmp()] == content;
    match s.step {
        StepView::MakeDir { .. } => same_but(first, now, s.tmp()),
        StepView::Create { tmp } => tmp == s.tmp() && same_but(first, now, s.tmp()),
        StepView::Write { tmp } => tmp == s.tmp() && same_but(first, now, s.tmp()),
        StepView::Sync { tmp } => tmp == s.tmp() && same_but(first, now, s.tmp()) && whole,
        StepView::Rename { tmp, path } => {
            &&& tmp == s.tmp()
            &&& path == s.path
            &&& same_but(first, now, s.tmp())
            &&& whole
        },
        StepView::Remove { tmp } => tmp == s.tmp() && s.error is Some && same_but(
            first,
            now,
            s.tmp(),
        ),
        StepView::Finish { outcome } => match outcome {
            Ok(_) => now == replaced_on(s, content, first) || (s.purpose is Index && same_but(
                first,
                now,
                s.tmp(),
            )),
            Err(_) => same_but(first, now, s.tmp()),
        },
    }
}

/// The path is not that of the temporary file that the index is written with.
pub open spec fn is_proper(s: WriteView) -> bool {
    s.purpose is Index ==> paths::file_name_of(s.path) != Some(".aanote-sync-tmp"@)
}

/// A write is on course when it begins.
pub proof fn begun_is_on_course(
    purpose: Purpose,
    path: Seq<char>,
    content: Seq<u8>,
    first: Map<Seq<char>, Seq<u8>>,
)
    ensures
        on_course(crate::write::begun(purpose, path), content, first, first),
{
}

/// A write that is on course stays so, whatever its step comes to.
pub proof fn after_stays_on_course(
    s: WriteView,
    content: Seq<u8>,
    first: Map<Seq<char>, Seq<u8>>,
    now: Map<Seq<char>, Seq<u8>>,
    outcome: Result<(), Seq<char>>,
    after: Map<Seq<char>, Seq<u8>>,
)
    requires
        on_course(s, content, first, now),
        can_become(now, s.step, content, outcome is Ok, after),
    ensures
        on_course(s.after(outcome), content, first, after),
{
    assert(s.after(outcome).tmp() == s.tmp());
    match s.step {
        StepView::Create { tmp } => {
            assert(now.insert(tmp, Seq::empty()).remove(tmp) =~= now.remove(tmp));
        },
        StepView::Write { tmp } => {
            assert(now.insert(tmp, content).remove(tmp) =~= now.remove(tmp));
        },
        StepView::Remove { tmp } => {
            assert(now.remove(tmp).remove(tmp) =~= now.remove(tmp));
        },
        _ => {},
    }
}

/// A crash cannot corrupt the file that is written: whenever a write is broken
/// off, in the midst of a step too, the file is as it was or holds the whole
/// new content, and all other files but the temporary one are as they were.
pub proof fn a_crash_corrupts_nothing(
    s: WriteView,
    content: Seq<u8>,
    first: Map<Seq<char>, Seq<u8>>,
    now: Map<Seq<char>, Seq<u8>>,
    done: bool,
    after: Map<Seq<char>, Seq<u8>>,
)
    requires
        is_proper(s),
        on_course(s, content, first, now),
        can_become(now, s.step, content, done, after),
    ensures
        same_but(first, after, s.tmp()) || same_but(first.insert(s.path, content), after, s.tmp()),
        first.dom().contains(s.path) ==> after.dom().contains(s.path),
        after.dom().contains(s.path) ==> after[s.path] == content || (first.dom().contains(s.path)
            && after[s.path] == first[s.path]),
{
    let t = s.tmp();
    crate::write::the_temporary_file_is_another(s.purpose, s.path);
    match s.step {
        StepView::Create { tmp } => {
            assert(now.insert(tmp, Seq::empty()).remove(tmp) =~= now.remove(tmp));
        },
        StepView::Write { tmp } => {
            assert(now.insert(tmp, content).remove(tmp) =~= now.remove(tmp));
        },
        StepView::Remove { tmp } => {
            assert(now.remove(tmp).remove(tmp) =~= now.remove(tmp));
        },
        _ => {},
    }
    if same_but(first, now, t) {
        assert(now.remove(t).insert(s.path, content) == first.remove(t).insert(s.path, content));
    }
    assert(first.remove(t).insert(s.path, content).remove(t) =~= first.insert(
        s.path,
        content,
    ).remove(t));
    if same_but(first, after, t) {
        lemma_same_but_at(first, after, t, s.path);
    } else {
        lemma_same_but_at(first.insert(s.path, content), after, t, s.path);
    }
}

proof fn lemma_same_but_at<T>(
    a: Map<Seq<char>, T>,
    b: Map<Seq<char>, T>,
    p: Seq<char>,
    q: Seq<char>,
)
    requires
        same_but(a, b, p),
        q != p,
    ensures
        a.dom().contains(q) == b.dom().contains(q),
        a.dom().contains(q) ==> a[q] == b[q],
{
    assert(a.remove(p).dom().contains(q) == a.dom().contains(q));
    assert(b.remove(p).dom().contains(q) == b.dom().contains(q));
    if a.dom().contains(q) {
        assert(a.remove(p)[q] == a[q]);
        assert(b.remove(p)[q] == b[q]);
    }
}

/// A write that fails leaves the file, and all others but the temporary one, as
/// they were.
pub proof fn a_failed_write_changes_nothing(
    s: WriteView,
    content: Seq<u8>,
    first: Map<Seq<char>, Seq<u8>>,
    now: Map<Seq<char>, Seq<u8>>,
)
    requires
        is_proper(s),
        on_course(s, content, first, now),
        s.step matches StepView::Finish { outcome } && outcome is Err,
    ensures
        same_but(first, now, s.tmp()),
        first.dom().contains(s.path) == now.dom().contains(s.path),
        first.dom().contains(s.path) ==> now[s.path] == first[s.path],
{
    crate::write::the_temporary_file_is_another(s.purpose, s.path);
    lemma_same_but_at(first, now, s.tmp(), s.path);
}

/// A note that was saved is read back as it was saved, with plain line breaks,
/// and no temporary file is left.
pub proof fn a_saved_note_is_read_back(
    s: WriteView,
    saved: Seq<char>,
    first: Map<Seq<char>, Seq<u8>>,
    now: Map<Seq<char>, Seq<u8>>,
)
    requires
        !(s.purpose is Index),
        s.step == (StepView::Finish { outcome: Ok::<(), Seq<char>>(()) }),
        on_course(s, encode_utf8(saved), first, now),
    ensures
        now.dom().contains(s.path),
        valid_utf8(now[s.path]),
        decode_utf8(now[s.path]) == saved,
        !now.dom().contains(s.tmp()),
        !text::contains_text(saved, "\r\n"@) ==> text::replaced(saved, "\r\n"@, "\n"@) == saved,
{
    crate::write::the_temporary_file_is_another(s.purpose, s.path);
    encode_utf8_valid_utf8(saved);
    encode_utf8_decode_utf8(saved);
    text::what_does_not_occur_is_not_replaced(saved, "\r\n"@, "\n"@);
}

// ---------------------------------------------------------------------------
// Conflict copies
// ---------------------------------------------------------------------------

/// What is answered of the disk `now` holds: where nothing is said to stand,
/// nothing stands; and what is done, or not, is done to `now` and gives `after`.
/// `content` is what a step writes.
pub open spec fn is_answered<T>(
    now: Map<Seq<char>, T>,
    step: FileStepView,
    content: T,
    answer: AnswerView,
    after: Map<Seq<char>, T>,
) -> bool {
    match (step, answer) {
        (FileStepView::Probe { path }, AnswerView::Exists(b)) => {
            &&& !b ==> !now.dom().contains(path)
            &&& after == now
        },
        (FileStepView::Rename { from, to }, AnswerView::Outcome(Ok(_))) => {
            &&& now.dom().contains(from)
            &&& after == now.remove(from).insert(to, now[from])
        },
        (FileStepView::Copy { from, to }, AnswerView::Outcome(Ok(_))) => {
            &&& now.dom().contains(from)
            &&& after == now.insert(to, now[from])
        },
        (FileStepView::Copy { to, .. }, AnswerView::Outcome(Err(_))) => same_but(now, after, to),
        (FileStepView::Write { to }, AnswerView::Outcome(Ok(_))) => after == now.insert(
            to,
            content,
        ),
        (FileStepView::Write { to }, AnswerView::Outcome(Err(_))) => same_but(now, after, to),
        _ => after == now,
    }
}

/// What the copy is to hold: the note as it was, or the content that came from
/// Drive.
pub open spec fn loser<T>(s: RescueView, first: Map<Seq<char>, T>, content: T) -> T {
    match s.side {
        Side::Local => first[s.source],
        Side::Remote => content,
    }
}

/// What holds while a copy is made that found the disk as `first`: nothing that
/// stood there has changed, and the copy goes where nothing stood. Where success
/// is reported, the copy is there.
pub open spec fn rescue_on_course<T>(
    s: RescueView,
    first: Map<Seq<char>, T>,
    now: Map<Seq<char>, T>,
    content: T,
) -> bool {
    match s.stage {
        RescueStageView::Copying => now == first && !first.dom().contains(s.names.name()),
        RescueStageView::Over(Ok(p)) => {
            &&& p == s.names.name()
            &&& !first.dom().contains(p)
            &&& now == first.insert(p, loser(s, first, content))
        },
        RescueStageView::Over(Err(_)) => now == first || (same_but(first, now, s.names.name())
            && !first.dom().contains(s.names.name())),
        _ => now == first,
    }
}

/// The making of a copy changes nothing that stood on the disk, and where it
/// reports success, the copy holds the version that it is to save.
pub proof fn a_copy_changes_nothing_else<T>(
    s: RescueView,
    first: Map<Seq<char>, T>,
    now: Map<Seq<char>, T>,
    content: T,
    answer: AnswerView,
    after: Map<Seq<char>, T>,
)
    requires
        s.accepts(answer),
        rescue_on_course(s, first, now, content),
        is_answered(now, s.pending(), content, answer, after),
    ensures
        rescue_on_course(s.after(answer), first, after, content),
        forall|p: Seq<char>|
            #[trigger] first.dom().contains(p) ==> after.dom().contains(p) && after[p] == first[p],
{
    let n = s.names.name();
    if s.stage is Copying {
        if answer->Outcome_0 is Ok {
            assert(after.remove(n) =~= first.remove(n));
        }
        assert forall|p: Seq<char>| #[trigger] first.dom().contains(p) implies after.dom().contains(
            p,
        ) && after[p] == first[p] by {
            lemma_same_but_at(first, after, n, p);
        }
    }
}

// ---------------------------------------------------------------------------
// The trash
// ---------------------------------------------------------------------------

/// What holds while something is moved into the trash that found the disk as
/// `first`: the disk is as it was until the move, which goes where nothing
/// stood.
pub open spec fn trashing_on_course<T>(
    s: TrashView,
    first: Map<Seq<char>, T>,
    now: Map<Seq<char>, T>,
) -> bool {
    match s.stage {
        TrashStageView::Moving => now == first && !first.dom().contains(s.names.name()),
        TrashStageView::Over(Ok(p)) => {
            &&& p == s.names.name()
            &&& first.dom().contains(s.source)
            &&& !first.dom().contains(p)
            &&& now == first.remove(s.source).insert(p, first[s.source])
        },
        _ => now == first,
    }
}

/// A move into the trash moves the one thing, where nothing stood, and changes
/// nothing else; one that fails changes nothing.
pub proof fn trashing_moves_one_thing<T>(
    s: TrashView,
    first: Map<Seq<char>, T>,
    now: Map<Seq<char>, T>,
    none: T,
    answer: AnswerView,
    after: Map<Seq<char>, T>,
)
    requires
        s.accepts(answer),
        trashing_on_course(s, first, now),
        is_answered(now, s.pending(), none, answer, after),
    ensures
        trashing_on_course(s.after(answer), first, after),
{
}

/// What holds while something is brought back that found the disk as `first`.
pub open spec fn restoring_on_course<T>(
    s: RestoreView,
    first: Map<Seq<char>, T>,
    now: Map<Seq<char>, T>,
) -> bool {
    match s.stage {
        RestoreStageView::Moving => now == first && !first.dom().contains(s.dest),
        RestoreStageView::Over(Ok(p)) => {
            &&& p == s.dest
            &&& first.dom().contains(s.source)
            &&& !first.dom().contains(p)
            &&& now == first.remove(s.source).insert(p, first[s.source])
        },
        _ => now == first,
    }
}

/// What is brought back goes where nothing stood, and nothing else changes; a
/// restoration that fails changes nothing.
pub proof fn restoring_moves_one_thing<T>(
    s: RestoreView,
    first: Map<Seq<char>, T>,
    now: Map<Seq<char>, T>,
    none: T,
    answer: AnswerView,
    after: Map<Seq<char>, T>,
)
    requires
        s.accepts(answer),
        restoring_on_course(s, first, now),
        is_answered(now, s.pending(), none, answer, after),
    ensures
        restoring_on_course(s.after(answer), first, after),
{
}

/// A deletion that is undone leaves the disk as it was: what was moved into the
/// trash, under whichever name was free, stands again where it stood, and
/// nothing else has changed.
pub proof fn undoing_a_deletion_restores_the_disk<T>(
    root: Seq<char>,
    rel: Seq<char>,
    stamp: Seq<char>,
    s: TrashView,
    r: RestoreView,
    first: Map<Seq<char>, T>,
    between: Map<Seq<char>, T>,
    last: Map<Seq<char>, T>,
)
    requires
        crate::clock::is_stamp(stamp),
        s.source == trash::trashing(root, rel, stamp).source,
        0 <= s.names.tried,
        s.names == (TrialView {
            tried: s.names.tried,
            ..trash::trashing(root, rel, stamp).names
        }),
        s.stage is Over && s.stage->Over_0 is Ok,
        trashing_on_course(s, first, between),
        r.source == s.names.name(),
        r.dest == trash::restoring(root, s.names.name()).dest,
        r.stage is Over && r.stage->Over_0 is Ok,
        restoring_on_course(r, between, last),
    ensures
        r.dest == s.source,
        last == first,
{
    trash_laws::restoring_undoes_trashing(root, rel, stamp, s.names.tried);
    assert(s.names.name() == trash::trash_names(root, rel, stamp).nth(s.names.tried));
    assert(last =~= first);
}

} // verus!
