//! What holds of every sync.

use crate::index::EntryView;
use crate::pathmap::Shelf;
use crate::plan;
use crate::plan::Plan;
use crate::remote::FileView;
use crate::sync_model;
use crate::sync_model::{ActionView, PhaseView, ReplyView, RunView};
use vstd::prelude::*;

verus! {

// ---------------------------------------------------------------------------
// Conflicts
// ---------------------------------------------------------------------------

/// Where a note and its Drive file both changed and Drive wins, the note is
/// copied before it is replaced, and the conflict is counted.
pub proof fn note_is_copied_before_it_is_replaced(s: RunView, i: int)
    requires
        0 <= i < s.notes.order.len(),
        s.plan(i) == (Plan::Pull { rescue: true }),
    ensures
        s.from_note(i).pending() == (ActionView::CopyLocal { path: s.path(i) }),
        s.from_note(i).after(ReplyView::Done).pending() == (ActionView::Download {
            path: s.path(i),
            id: s.files[s.counterpart(i).unwrap().0].id,
        }),
        s.from_note(i).conflicts == s.conflicts + 1,
{
}

/// Where a note and its Drive file both changed and the note wins, what Drive
/// has is copied before it is replaced, and the conflict is counted.
pub proof fn remote_is_copied_before_it_is_replaced(s: RunView, i: int)
    requires
        0 <= i < s.notes.order.len(),
        s.plan(i) == (Plan::Push { rescue: true }),
    ensures
        s.from_note(i).pending() == (ActionView::CopyRemote {
            path: s.path(i),
            id: s.files[s.counterpart(i).unwrap().0].id,
        }),
        s.from_note(i).after(ReplyView::Done).pending() == (ActionView::Update {
            path: s.path(i),
            id: s.files[s.counterpart(i).unwrap().0].id,
        }),
        s.from_note(i).conflicts == s.conflicts + 1,
{
}

/// The plan of a note that is being replaced, or whose file is, asks for no
/// copy.
spec fn needs_no_copy(s: RunView) -> bool {
    match s.phase {
        PhaseView::Pushing(i, _) => s.plan(i) == (Plan::Push { rescue: false }),
        PhaseView::Pulling(i, _) => s.plan(i) == (Plan::Pull { rescue: false }),
        _ => true,
    }
}

proof fn lemma_from_fetch_needs_no_copy(s: RunView, f: int)
    requires
        0 <= f,
    ensures
        !(s.from_fetch(f).phase is Pushing),
        !(s.from_fetch(f).phase is Pulling),
    decreases s.files.len() - f,
{
    if f < s.files.len() && !s.only_remote(f) {
        lemma_from_fetch_needs_no_copy(s, f + 1);
    }
}

proof fn lemma_from_note_needs_no_copy(s: RunView, i: int)
    requires
        0 <= i,
    ensures
        needs_no_copy(s.from_note(i)),
    decreases s.notes.order.len() - i,
{
    lemma_from_fetch_needs_no_copy(s.with_gone(), 0);
    if i < s.notes.order.len() {
        match (s.plan(i), s.counterpart(i)) {
            (Plan::Keep, Some((f, by_id))) => {
                let e = EntryView { id: s.files[f].id, ..s.index.map[s.path(i)] };
                lemma_from_note_needs_no_copy(
                    s.noticed(i, f, by_id, false).recorded(s.path(i), e),
                    i + 1,
                );
            },
            _ => {
                assert(s.from_note(i).plan(i) == s.plan(i));
            },
        }
    }
}

/// A note that changed on both sides is replaced, or its file is, only once the
/// copy of the side that loses was made: a copy that fails is not followed by
/// the replacement.
pub proof fn a_conflict_is_settled_only_after_the_copy(s: RunView, reply: ReplyView, i: int, f: int)
    requires
        s.wf(),
        s.accepts(reply),
    ensures
        s.after(reply).phase == PhaseView::Pushing(i, f) && s.after(reply).plan(i) == (Plan::Push {
            rescue: true,
        }) ==> s.pending() == (ActionView::CopyRemote { path: s.path(i), id: s.files[f].id })
            && reply is Done,
        s.after(reply).phase == PhaseView::Pulling(i, f) && s.after(reply).plan(i) == (Plan::Pull {
            rescue: true,
        }) ==> s.pending() == (ActionView::CopyLocal { path: s.path(i) }) && reply is Done,
{
    match (s.phase, reply) {
        (PhaseView::Scanning, ReplyView::Scanned { notes }) => {
            lemma_from_note_needs_no_copy(RunView { notes, ..s }, 0);
        },
        (PhaseView::Creating(j), ReplyView::Uploaded { id, ms, chars }) => {
            let e = EntryView { id, local_mtime_ms: s.local_ms(j), remote_mtime_ms: ms };
            lemma_from_note_needs_no_copy(s.recorded(s.path(j), e).one_up(chars), j + 1);
        },
        (PhaseView::Pushing(j, g), ReplyView::Updated { ms, chars }) => {
            let e = EntryView {
                id: s.files[g].id,
                local_mtime_ms: s.local_ms(j),
                remote_mtime_ms: ms,
            };
            lemma_from_note_needs_no_copy(s.recorded(s.path(j), e).one_up(chars), j + 1);
        },
        (PhaseView::Dating(j, _), _) => {
            lemma_from_note_needs_no_copy(s, j + 1);
        },
        (PhaseView::Probing(n), ReplyView::Probed { .. }) => {
            lemma_from_fetch_needs_no_copy(s.with_gone(), 0);
        },
        (PhaseView::Renaming(n), ReplyView::Renamed { mtime }) => {
            lemma_from_fetch_needs_no_copy(s.renamed(n, mtime).with_gone(), 0);
        },
        (PhaseView::DatingFetched(g), _) => {
            lemma_from_fetch_needs_no_copy(s, g + 1);
        },
        _ => {},
    }
}

// ---------------------------------------------------------------------------
// Deletions
// ---------------------------------------------------------------------------

/// The file of a note that was deleted is fetched only where it changed on Drive
/// since.
pub proof fn a_deleted_note_is_fetched_only_if_it_changed(
    s: RunView,
    path: Seq<char>,
    id: Seq<char>,
    p: Seq<char>,
)
    requires
        s.wf(),
        s.phase is Fetching,
        s.pending() == (ActionView::Download { path, id }),
        s.index.has(p),
        s.was_deleted(p),
    ensures
        s.index.map[p].id != id || s.revived.contains(id),
{
    let f = s.phase->Fetching_0;
    let j = choose|j: int| 0 <= j < s.gone.len() && #[trigger] s.gone[j] == (p, s.index.map[p].id);
    if s.index.map[p].id == id {
        assert(s.gone[j].1 == s.files[f].id);
        assert(s.is_gone(s.files[f].id));
    }
}

/// The files that are fetched though their notes were deleted are those that
/// changed on Drive since the index last saw them.
pub proof fn what_is_revived_changed_on_drive(s: RunView, id: Seq<char>)
    requires
        s.index.wf(),
    ensures
        s.with_gone().revived.contains(id) <==> exists|p: Seq<char>|
            #[trigger] s.index.has(p) && s.was_deleted(p) && s.changed_there(p)
                && s.index.map[p].id == id,
{
    let pred = |p: Seq<char>| s.was_deleted(p) && s.changed_there(p);
    let paths = s.index.order.filter(pred);
    let ids = s.with_gone().revived;
    sync_model::lemma_filter_sub(s.index.order, pred);
    if ids.contains(id) {
        let j = choose|j: int| 0 <= j < ids.len() && ids[j] == id;
        assert(s.index.order.contains(paths[j]));
        assert(s.index.has(paths[j]));
    }
    if exists|p: Seq<char>|
        #[trigger] s.index.has(p) && s.was_deleted(p) && s.changed_there(p) && s.index.map[p].id
            == id {
        let p = choose|p: Seq<char>|
            #[trigger] s.index.has(p) && s.was_deleted(p) && s.changed_there(p) && s.index.map[p].id
                == id;
        assert(s.index.order.contains(p));
        assert(pred(p));
        assert(paths.contains(p));
        let j = choose|j: int| 0 <= j < paths.len() && paths[j] == p;
        assert(ids[j] == id);
    }
}

/// A file that changed on Drive since its note was deleted is not deleted there
/// before it was fetched: it is on disk and in the index, unless it stands for
/// another note or is a folder.
pub proof fn a_changed_file_is_fetched_before_it_is_deleted(s: RunView, k: int, g: int)
    requires
        s.wf(),
        covered(s),
        s.phase == PhaseView::Cleaning(k),
        0 <= g < s.files.len(),
        s.files[g].id == s.gone[k].1,
        s.revived.contains(s.files[g].id),
        !s.seen.contains(s.files[g].id),
        !s.files[g].is_folder(),
    ensures
        s.touched.contains(s.files[g].name),
        s.index.has(s.files[g].name),
{
    assert(file_covered(s, g));
}

/// Once the notes are listed, the index keeps its entry of a note that was
/// deleted until the clean-up, unless something else is written to its path.
pub proof fn a_deletion_stays_known(s: RunView, reply: ReplyView, p: Seq<char>)
    requires
        s.wf(),
        s.accepts(reply),
        !(s.phase is Purging),
        !(s.phase is Scanning),
        s.index.has(p),
        s.was_deleted(p),
        !(s.pending() matches ActionView::Download { path, .. } && path == p),
        !(s.pending() matches ActionView::Rename { from, to } && (from == p || to == p)),
        !(s.phase matches PhaseView::Cleaning(k) && s.gone[k].0 == p),
    ensures
        s.after(reply).index.has(p),
        s.after(reply).index.map[p] == s.index.map[p],
        s.after(reply).was_deleted(p),
{
    assert(!s.notes.order.contains(p));
    match (s.phase, reply) {
        (PhaseView::Creating(i), ReplyView::Uploaded { id, ms, chars }) => {
            let e = EntryView { id, local_mtime_ms: s.local_ms(i), remote_mtime_ms: ms };
            let t = s.recorded(s.path(i), e).one_up(chars);
            assert(s.notes.order.contains(s.path(i)));
            lemma_from_note_frame(t, i + 1);
            assert(t.from_note(i + 1).index.get(p) == t.index.get(p));
        },
        (PhaseView::Pushing(i, f), ReplyView::Updated { ms, chars }) => {
            let e = EntryView {
                id: s.files[f].id,
                local_mtime_ms: s.local_ms(i),
                remote_mtime_ms: ms,
            };
            let t = s.recorded(s.path(i), e).one_up(chars);
            assert(s.notes.order.contains(s.path(i)));
            lemma_from_note_frame(t, i + 1);
            assert(t.from_note(i + 1).index.get(p) == t.index.get(p));
        },
        (PhaseView::Pulling(i, f), ReplyView::Downloaded { chars }) => {
            assert(s.notes.order.contains(s.path(i)));
            lemma_not_pushed(s.touched, s.path(i), p);
        },
        (PhaseView::Dating(i, _), _) => {
            lemma_from_note_frame(s, i + 1);
            assert(s.from_note(i + 1).index.get(p) == s.index.get(p));
        },
        (PhaseView::Probing(n), ReplyView::Probed { .. }) => {
            lemma_from_rename_frame(s, n + 1);
        },
        (PhaseView::Renaming(n), ReplyView::Renamed { mtime }) => {
            let (from, to) = s.renames[n];
            lemma_from_rename_frame(s.renamed(n, mtime), n + 1);
            lemma_not_pushed(s.touched, from, p);
            lemma_not_pushed(s.touched.push(from), to, p);
        },
        (PhaseView::Fetching(f), ReplyView::Downloaded { chars }) => {
            lemma_not_pushed(s.touched, s.files[f].name, p);
        },
        (PhaseView::DatingFetched(f), _) => {
            lemma_from_fetch_frame(s, f + 1);
        },
        _ => {},
    }
}

proof fn lemma_not_pushed(s: Seq<Seq<char>>, x: Seq<char>, y: Seq<char>)
    requires
        !s.contains(y),
        x != y,
    ensures
        !s.push(x).contains(y),
{
    if s.push(x).contains(y) {
        let k = choose|k: int| 0 <= k < s.push(x).len() && s.push(x)[k] == y;
        assert(s[k] == y);
    }
}

/// An entry leaves the index only when its note is renamed or when its file is
/// deleted on Drive.
pub proof fn an_entry_goes_with_its_file(s: RunView, reply: ReplyView, p: Seq<char>)
    requires
        s.wf(),
        s.accepts(reply),
        s.index.has(p),
        !s.after(reply).index.has(p),
    ensures
        s.pending() == (ActionView::DeleteRemote { id: s.index.map[p].id }) || (
        s.pending() matches ActionView::Rename { from, .. } && from == p),
{
    match (s.phase, reply) {
        (PhaseView::Scanning, ReplyView::Scanned { notes }) => {
            lemma_from_note_frame(RunView { notes, ..s }, 0);
        },
        (PhaseView::Creating(i), ReplyView::Uploaded { id, ms, chars }) => {
            let e = EntryView { id, local_mtime_ms: s.local_ms(i), remote_mtime_ms: ms };
            lemma_from_note_frame(s.recorded(s.path(i), e).one_up(chars), i + 1);
        },
        (PhaseView::Pushing(i, f), ReplyView::Updated { ms, chars }) => {
            let e = EntryView {
                id: s.files[f].id,
                local_mtime_ms: s.local_ms(i),
                remote_mtime_ms: ms,
            };
            lemma_from_note_frame(s.recorded(s.path(i), e).one_up(chars), i + 1);
        },
        (PhaseView::Dating(i, _), _) => {
            lemma_from_note_frame(s, i + 1);
        },
        (PhaseView::Probing(n), ReplyView::Probed { .. }) => {
            lemma_from_rename_frame(s, n + 1);
        },
        (PhaseView::Renaming(n), ReplyView::Renamed { mtime }) => {
            lemma_from_rename_frame(s.renamed(n, mtime), n + 1);
        },
        (PhaseView::DatingFetched(f), _) => {
            lemma_from_fetch_frame(s, f + 1);
        },
        (PhaseView::Cleaning(k), _) => {
            assert(s.gone[k].0 == p);
        },
        _ => {},
    }
}

/// When a sync has ended well, the index has no note that was deleted: so the
/// file of each was deleted on Drive.
pub proof fn a_finished_sync_forgets_deleted_notes(s: RunView, p: Seq<char>)
    requires
        s.wf(),
        s.phase is Finished,
        s.error is None,
        s.was_deleted(p),
    ensures
        !s.index.has(p),
{
}

/// A file on Drive is deleted only where it is surplus, or where it is the file
/// of a note that is gone: one that was not listed.
pub proof fn remote_deletions_are_justified(s: RunView, id: Seq<char>)
    requires
        s.wf(),
        s.pending() == (ActionView::DeleteRemote { id }),
    ensures
        s.doomed.contains(id) || exists|path: Seq<char>|
            !s.notes.has(path) && #[trigger] s.gone.contains((path, id)),
{
    match s.phase {
        PhaseView::Purging(k) => {
            assert(s.doomed[k] == id);
        },
        PhaseView::Cleaning(k) => {
            assert(s.gone.contains((s.gone[k].0, id)));
        },
        _ => {},
    }
}

pub(crate) proof fn lemma_from_fetch_frame(s: RunView, f: int)
    requires
        0 <= f,
    ensures
        s.from_fetch(f).touched == s.touched,
        s.from_fetch(f).index == s.index,
        s.from_fetch(f).notes == s.notes,
        s.from_fetch(f).files == s.files,
        s.from_fetch(f).renames == s.renames,
        s.from_fetch(f).seen == s.seen,
    decreases s.files.len() - f,
{
    if f < s.files.len() && !s.only_remote(f) {
        lemma_from_fetch_frame(s, f + 1);
    }
}

pub(crate) proof fn lemma_from_rename_frame(s: RunView, k: int)
    ensures
        s.from_rename(k).touched == s.touched,
        s.from_rename(k).index == s.index,
        s.from_rename(k).notes == s.notes,
        s.from_rename(k).files == s.files,
        s.from_rename(k).renames == s.renames,
        s.from_rename(k).seen == s.seen,
{
    lemma_from_fetch_frame(s.with_gone(), 0);
}

pub(crate) proof fn lemma_from_note_frame(s: RunView, i: int)
    requires
        0 <= i,
    ensures
        s.from_note(i).touched == s.touched,
        s.from_note(i).notes == s.notes,
        s.from_note(i).files == s.files,
        forall|p: Seq<char>| s.index.has(p) ==> #[trigger] s.from_note(i).index.has(p),
        forall|p: Seq<char>|
            !s.notes.order.contains(p) ==> #[trigger] s.from_note(i).index.get(p) == s.index.get(p),
    decreases s.notes.order.len() - i,
{
    if i >= s.notes.order.len() {
        lemma_from_rename_frame(s, 0);
    } else {
        match (s.plan(i), s.counterpart(i)) {
            (Plan::Keep, Some((f, by_id))) => {
                let e = EntryView { id: s.files[f].id, ..s.index.map[s.path(i)] };
                let t = s.noticed(i, f, by_id, false).recorded(s.path(i), e);
                lemma_from_note_frame(t, i + 1);
                assert(s.notes.order.contains(s.path(i)));
            },
            _ => {},
        }
    }
}

/// A path that the sync wrote counts as written until its end.
pub proof fn touched_stays_touched(s: RunView, reply: ReplyView, path: Seq<char>)
    requires
        s.wf(),
        s.accepts(reply),
        s.touched.contains(path),
    ensures
        s.after(reply).touched.contains(path),
{
    let k = choose|k: int| 0 <= k < s.touched.len() && s.touched[k] == path;
    match (s.phase, reply) {
        (PhaseView::Scanning, ReplyView::Scanned { notes }) => {
            lemma_from_note_frame(RunView { notes, ..s }, 0);
        },
        (PhaseView::Creating(i), ReplyView::Uploaded { id, ms, chars }) => {
            let e = EntryView { id, local_mtime_ms: s.local_ms(i), remote_mtime_ms: ms };
            lemma_from_note_frame(s.recorded(s.path(i), e).one_up(chars), i + 1);
        },
        (PhaseView::Pushing(i, f), ReplyView::Updated { ms, chars }) => {
            let e = EntryView {
                id: s.files[f].id,
                local_mtime_ms: s.local_ms(i),
                remote_mtime_ms: ms,
            };
            lemma_from_note_frame(s.recorded(s.path(i), e).one_up(chars), i + 1);
        },
        (PhaseView::Pulling(i, f), ReplyView::Downloaded { chars }) => {
            assert(s.touched.push(s.path(i))[k] == path);
        },
        (PhaseView::Dating(i, _), _) => {
            lemma_from_note_frame(s, i + 1);
        },
        (PhaseView::Probing(n), ReplyView::Probed { .. }) => {
            lemma_from_rename_frame(s, n + 1);
        },
        (PhaseView::Renaming(n), ReplyView::Renamed { mtime }) => {
            lemma_from_rename_frame(s.renamed(n, mtime), n + 1);
            assert(s.renamed(n, mtime).touched[k] == path);
        },
        (PhaseView::Fetching(f), ReplyView::Downloaded { chars }) => {
            assert(s.touched.push(s.files[f].name)[k] == path);
        },
        (PhaseView::DatingFetched(f), _) => {
            lemma_from_fetch_frame(s, f + 1);
        },
        _ => {},
    }
}

/// What was downloaded counts as written by the sync and is in the index.
pub proof fn download_is_touched(s: RunView, path: Seq<char>, id: Seq<char>, chars: u64)
    requires
        s.wf(),
        s.pending() == (ActionView::Download { path, id }),
        s.accepts(ReplyView::Downloaded { chars }),
    ensures
        s.after(ReplyView::Downloaded { chars }).touched.contains(path),
        s.after(ReplyView::Downloaded { chars }).index.has(path),
        s.after(ReplyView::Downloaded { chars }).index.map[path].id == id,
{
    let t = s.after(ReplyView::Downloaded { chars }).touched;
    assert(t[t.len() - 1] == path);
}

/// The clean-up at the end of a sync leaves the entry of every path that the
/// sync wrote, and of every listed note.
pub proof fn cleanup_spares_what_the_sync_wrote(s: RunView, path: Seq<char>)
    requires
        s.wf(),
        s.phase is Cleaning,
        s.index.has(path),
        s.touched.contains(path) || s.notes.has(path),
    ensures
        s.after(ReplyView::Done).index.has(path),
        s.after(ReplyView::Done).index.map[path] == s.index.map[path],
{
    let k = s.phase->Cleaning_0;
    assert(!s.notes.has(s.gone[k].0));
}

// ---------------------------------------------------------------------------
// The index
// ---------------------------------------------------------------------------

/// Where something fails, the index keeps what was recorded before, is stored,
/// and the failure is reported.
pub proof fn failure_keeps_progress(s: RunView, error: Seq<char>)
    requires
        s.wf(),
        s.accepts(ReplyView::Failed { error }),
    ensures
        s.after(ReplyView::Failed { error }).index == s.index,
        s.after(ReplyView::Failed { error }).pending() == ActionView::SaveIndex,
        s.after(ReplyView::Failed { error }).after(ReplyView::Done).pending() == (
        ActionView::Finish { outcome: Err(error) }),
{
}

proof fn lemma_from_fetch_goes_on(s: RunView, f: int)
    requires
        0 <= f,
    ensures
        !(s.from_fetch(f).phase is Finished),
    decreases s.files.len() - f,
{
    if f < s.files.len() && !s.only_remote(f) {
        lemma_from_fetch_goes_on(s, f + 1);
    }
}

proof fn lemma_from_note_goes_on(s: RunView, i: int)
    requires
        0 <= i,
    ensures
        !(s.from_note(i).phase is Finished),
    decreases s.notes.order.len() - i,
{
    lemma_from_fetch_goes_on(s.with_gone(), 0);
    if i < s.notes.order.len() {
        match (s.plan(i), s.counterpart(i)) {
            (Plan::Keep, Some((f, by_id))) => {
                let e = EntryView { id: s.files[f].id, ..s.index.map[s.path(i)] };
                lemma_from_note_goes_on(s.noticed(i, f, by_id, false).recorded(s.path(i), e), i + 1);
            },
            _ => {},
        }
    }
}

/// A sync ends, well or badly, only right after its index was stored.
pub proof fn index_is_stored_at_the_end(s: RunView, reply: ReplyView)
    requires
        s.wf(),
        s.accepts(reply),
        s.after(reply).phase is Finished,
    ensures
        s.pending() == ActionView::SaveIndex,
        s.after(reply).index == s.index,
{
    match (s.phase, reply) {
        (PhaseView::Scanning, ReplyView::Scanned { notes }) => {
            lemma_from_note_goes_on(RunView { notes, ..s }, 0);
        },
        (PhaseView::Creating(i), ReplyView::Uploaded { id, ms, chars }) => {
            let e = EntryView { id, local_mtime_ms: s.local_ms(i), remote_mtime_ms: ms };
            lemma_from_note_goes_on(s.recorded(s.path(i), e).one_up(chars), i + 1);
        },
        (PhaseView::Pushing(i, f), ReplyView::Updated { ms, chars }) => {
            let e = EntryView {
                id: s.files[f].id,
                local_mtime_ms: s.local_ms(i),
                remote_mtime_ms: ms,
            };
            lemma_from_note_goes_on(s.recorded(s.path(i), e).one_up(chars), i + 1);
        },
        (PhaseView::Dating(i, _), _) => {
            lemma_from_note_goes_on(s, i + 1);
        },
        (PhaseView::Probing(n), ReplyView::Probed { .. }) => {
            lemma_from_fetch_goes_on(s.with_gone(), 0);
        },
        (PhaseView::Renaming(n), ReplyView::Renamed { mtime }) => {
            lemma_from_fetch_goes_on(s.renamed(n, mtime).with_gone(), 0);
        },
        (PhaseView::DatingFetched(f), _) => {
            lemma_from_fetch_goes_on(s, f + 1);
        },
        _ => {},
    }
}

// ---------------------------------------------------------------------------
// Everything is dealt with
// ---------------------------------------------------------------------------

/// How many notes, from the first on, have been dealt with.
pub open spec fn notes_done(s: RunView) -> int {
    match s.phase {
        PhaseView::Purging(_) => 0,
        PhaseView::Scanning => 0,
        PhaseView::RescuingRemote(i, _) => i,
        PhaseView::RescuingLocal(i, _) => i,
        PhaseView::Creating(i) => i,
        PhaseView::Pushing(i, _) => i,
        PhaseView::Pulling(i, _) => i,
        PhaseView::Dating(i, _) => i + 1,
        _ => s.notes.order.len() as int,
    }
}

/// How many files, from the first on, have been looked at for fetching.
pub open spec fn files_done(s: RunView) -> int {
    match s.phase {
        PhaseView::Fetching(f) => f,
        PhaseView::DatingFetched(f) => f + 1,
        PhaseView::Cleaning(_) => s.files.len() as int,
        PhaseView::Saving => s.files.len() as int,
        PhaseView::Finished => s.files.len() as int,
        _ => 0,
    }
}

/// The note `path` was renamed on Drive.
pub open spec fn is_rename_source(s: RunView, path: Seq<char>) -> bool {
    exists|k: int| 0 <= k < s.renames.len() && (#[trigger] s.renames[k]).0 == path
}

/// The first `n` notes are in the index, unless they were renamed on Drive.
pub open spec fn notes_covered(s: RunView, n: int) -> bool {
    forall|j: int|
        0 <= j < n && j < s.notes.order.len() ==> s.index.has(#[trigger] s.path(j))
            || is_rename_source(s, s.path(j))
}

/// File `g` stands for a note, is a folder, stood for a note that is gone and
/// did not change since, or was fetched.
pub open spec fn file_covered(s: RunView, g: int) -> bool {
    ||| s.seen.contains(s.files[g].id)
    ||| s.files[g].is_folder()
    ||| s.is_gone(s.files[g].id) && !s.revived.contains(s.files[g].id)
    ||| s.touched.contains(s.files[g].name) && s.index.has(s.files[g].name)
}

/// The first `n` files are covered.
pub open spec fn files_covered(s: RunView, n: int) -> bool {
    forall|g: int| 0 <= g < n && g < s.files.len() ==> #[trigger] file_covered(s, g)
}

/// What was dealt with so far is covered.
pub open spec fn covered(s: RunView) -> bool {
    s.error is None ==> notes_covered(s, notes_done(s)) && files_covered(s, files_done(s))
}

proof fn lemma_from_clean_covers(s: RunView)
    requires
        s.error is None,
        notes_covered(s, s.notes.order.len() as int),
        files_covered(s, s.files.len() as int),
    ensures
        covered(s.from_clean()),
{
    let t = s.from_clean();
    assert forall|j: int| 0 <= j < t.notes.order.len() implies t.index.has(#[trigger] t.path(j))
        || is_rename_source(t, t.path(j)) by {
        assert(s.path(j) == t.path(j));
        if is_rename_source(s, s.path(j)) {
            let k = choose|k: int| 0 <= k < s.renames.len() && (#[trigger] s.renames[k]).0 == s.path(j);
            assert(t.renames[k].0 == t.path(j));
        }
    }
    let pred = |e: (Seq<char>, Seq<char>)| s.is_due(e);
    sync_model::lemma_filter_sub(s.gone, pred);
    assert forall|g: int| 0 <= g < t.files.len() implies #[trigger] file_covered(t, g) by {
        assert(file_covered(s, g));
        if s.is_gone(s.files[g].id) && !s.revived.contains(s.files[g].id) {
            let j = choose|j: int| 0 <= j < s.gone.len() && (#[trigger] s.gone[j]).1 == s.files[g].id;
            assert(s.is_listed(s.gone[j].1));
            assert(s.gone.contains(s.gone[j]));
            assert(pred(s.gone[j]));
            assert(t.gone.contains(s.gone[j]));
            let i = choose|i: int| 0 <= i < t.gone.len() && t.gone[i] == s.gone[j];
            assert(t.gone[i].1 == t.files[g].id);
        }
    }
}

proof fn lemma_from_fetch_covers(s: RunView, f: int)
    requires
        s.error is None,
        0 <= f,
        notes_covered(s, s.notes.order.len() as int),
        files_covered(s, f),
    ensures
        covered(s.from_fetch(f)),
    decreases s.files.len() - f,
{
    if f >= s.files.len() {
        lemma_from_clean_covers(s);
    } else if s.only_remote(f) {
        let t = s.at(PhaseView::Fetching(f));
        lemma_same_cover(s, t, s.notes.order.len() as int, f);
    } else {
        assert(file_covered(s, f));
        lemma_from_fetch_covers(s, f + 1);
    }
}

/// Cover depends on the index, the lists and the paths written alone.
proof fn lemma_same_cover(s: RunView, t: RunView, n: int, m: int)
    requires
        t.notes == s.notes,
        t.files == s.files,
        t.index == s.index,
        t.seen == s.seen,
        t.touched == s.touched,
        t.renames == s.renames,
        m <= 0 || (t.gone == s.gone && t.revived == s.revived),
        notes_covered(s, n),
        files_covered(s, m),
    ensures
        notes_covered(t, n),
        files_covered(t, m),
{
    assert forall|j: int| 0 <= j < n && j < t.notes.order.len() implies t.index.has(
        #[trigger] t.path(j),
    ) || is_rename_source(t, t.path(j)) by {
        assert(s.path(j) == t.path(j));
        if is_rename_source(s, s.path(j)) {
            let k = choose|k: int| 0 <= k < s.renames.len() && (#[trigger] s.renames[k]).0 == s.path(j);
            assert(t.renames[k].0 == t.path(j));
        }
    }
    assert forall|g: int| 0 <= g < m && g < t.files.len() implies #[trigger] file_covered(t, g) by {
        assert(file_covered(s, g));
    }
}

/// Cover is kept where the index keeps its keys and the lists only grow.
proof fn lemma_cover_grows(s: RunView, t: RunView, n: int, m: int)
    requires
        t.notes == s.notes,
        t.files == s.files,
        forall|p: Seq<char>| s.index.has(p) ==> #[trigger] t.index.has(p),
        forall|x: Seq<char>| s.seen.contains(x) ==> #[trigger] t.seen.contains(x),
        forall|x: Seq<char>| s.touched.contains(x) ==> #[trigger] t.touched.contains(x),
        forall|k: int|
            0 <= k < s.renames.len() ==> k < t.renames.len() && #[trigger] t.renames[k]
                == s.renames[k],
        t.gone == s.gone,
        t.revived == s.revived,
        notes_covered(s, n),
        files_covered(s, m),
    ensures
        notes_covered(t, n),
        files_covered(t, m),
{
    assert forall|j: int| 0 <= j < n && j < t.notes.order.len() implies t.index.has(
        #[trigger] t.path(j),
    ) || is_rename_source(t, t.path(j)) by {
        assert(s.path(j) == t.path(j));
        if is_rename_source(s, s.path(j)) {
            let k = choose|k: int| 0 <= k < s.renames.len() && (#[trigger] s.renames[k]).0 == s.path(j);
            assert(t.renames[k].0 == t.path(j));
        }
    }
    assert forall|g: int| 0 <= g < m && g < t.files.len() implies #[trigger] file_covered(t, g) by {
        assert(file_covered(s, g));
    }
}

proof fn lemma_push_contains(s: Seq<Seq<char>>, x: Seq<char>)
    ensures
        forall|y: Seq<char>| s.contains(y) ==> #[trigger] s.push(x).contains(y),
        s.push(x).contains(x),
{
    assert(s.push(x)[s.len() as int] == x);
    assert forall|y: Seq<char>| s.contains(y) implies #[trigger] s.push(x).contains(y) by {
        let k = choose|k: int| 0 <= k < s.len() && s[k] == y;
        assert(s.push(x)[k] == y);
    }
}

proof fn lemma_from_note_covers(s: RunView, i: int)
    requires
        s.error is None,
        0 <= i <= s.notes.order.len(),
        notes_covered(s, i),
    ensures
        covered(s.from_note(i)),
    decreases s.notes.order.len() - i,
{
    if i >= s.notes.order.len() {
        lemma_same_cover(s, s.with_gone(), i, 0);
        lemma_from_fetch_covers(s.with_gone(), 0);
        lemma_same_cover(s, s.at(PhaseView::Probing(0)), i, 0);
    } else {
        match (s.plan(i), s.counterpart(i)) {
            (Plan::Keep, Some((f, by_id))) => {
                let e = EntryView { id: s.files[f].id, ..s.index.map[s.path(i)] };
                let t = s.noticed(i, f, by_id, false).recorded(s.path(i), e);
                lemma_push_contains(s.seen, s.files[f].id);
                lemma_cover_grows(s, t, i, 0);
                assert(t.path(i) == s.path(i));
                lemma_from_note_covers(t, i + 1);
            },
            (_, Some((f, by_id))) => {
                let t = s.from_note(i);
                lemma_push_contains(s.seen, s.files[f].id);
                lemma_cover_grows(s, t, i, 0);
            },
            _ => {
                lemma_same_cover(s, s.from_note(i), i, 0);
            },
        }
    }
}

/// A sync begins with nothing to cover.
pub proof fn begun_is_covered(index: Shelf<EntryView>, listed: Seq<FileView>)
    ensures
        covered(sync_model::begun(index, listed)),
{
}

/// Every step covers what it deals with and keeps what was covered.
pub proof fn after_stays_covered(s: RunView, reply: ReplyView)
    requires
        s.wf(),
        s.accepts(reply),
        covered(s),
    ensures
        covered(s.after(reply)),
{
    let t = s.after(reply);
    match (s.phase, reply) {
        (PhaseView::Scanning, ReplyView::Scanned { notes }) => {
            lemma_from_note_covers(RunView { notes, ..s }, 0);
        },
        (PhaseView::Creating(i), ReplyView::Uploaded { id, ms, chars }) => {
            let e = EntryView { id, local_mtime_ms: s.local_ms(i), remote_mtime_ms: ms };
            let u = s.recorded(s.path(i), e).one_up(chars);
            lemma_cover_grows(s, u, i, 0);
            assert(u.path(i) == s.path(i));
            lemma_from_note_covers(u, i + 1);
        },
        (PhaseView::Pushing(i, f), ReplyView::Updated { ms, chars }) => {
            let e = EntryView {
                id: s.files[f].id,
                local_mtime_ms: s.local_ms(i),
                remote_mtime_ms: ms,
            };
            let u = s.recorded(s.path(i), e).one_up(chars);
            lemma_cover_grows(s, u, i, 0);
            assert(u.path(i) == s.path(i));
            lemma_from_note_covers(u, i + 1);
        },
        (PhaseView::Pulling(i, f), ReplyView::Downloaded { chars }) => {
            lemma_push_contains(s.touched, s.path(i));
            lemma_cover_grows(s, t, i, 0);
            assert(t.path(i) == s.path(i));
        },
        (PhaseView::Dating(i, _), _) => {
            lemma_from_note_covers(s, i + 1);
        },
        (PhaseView::Probing(n), ReplyView::Probed { .. }) => {
            lemma_same_cover(s, s.with_gone(), s.notes.order.len() as int, 0);
            lemma_from_fetch_covers(s.with_gone(), 0);
            lemma_same_cover(s, s.at(PhaseView::Renaming(n)), s.notes.order.len() as int, 0);
            lemma_same_cover(s, s.at(PhaseView::Probing(n + 1)), s.notes.order.len() as int, 0);
        },
        (PhaseView::Renaming(n), ReplyView::Renamed { mtime }) => {
            let u = s.renamed(n, mtime);
            let len = s.notes.order.len() as int;
            assert forall|j: int| 0 <= j < len && j < u.notes.order.len() implies u.index.has(
                #[trigger] u.path(j),
            ) || is_rename_source(u, u.path(j)) by {
                assert(s.path(j) == u.path(j));
                if is_rename_source(s, s.path(j)) {
                    let k = choose|k: int|
                        0 <= k < s.renames.len() && (#[trigger] s.renames[k]).0 == s.path(j);
                    assert(u.renames[k].0 == u.path(j));
                } else {
                    assert(s.renames[n].0 != s.path(j));
                    assert(s.index.has(s.path(j)));
                }
            }
            lemma_same_cover(u, u.with_gone(), len, 0);
            lemma_from_fetch_covers(u.with_gone(), 0);
            lemma_same_cover(u, u.at(PhaseView::Probing(n + 1)), len, 0);
        },
        (PhaseView::Fetching(f), ReplyView::Downloaded { chars }) => {
            lemma_push_contains(s.touched, s.files[f].name);
            lemma_cover_grows(s, t, s.notes.order.len() as int, f);
            assert(file_covered(t, f));
        },
        (PhaseView::DatingFetched(f), _) => {
            lemma_from_fetch_covers(s, f + 1);
        },
        (PhaseView::Cleaning(k), _) => {
            let gone = s.gone[k].0;
            assert(!s.notes.has(gone));
            assert forall|j: int| 0 <= j < t.notes.order.len() implies t.index.has(
                #[trigger] t.path(j),
            ) || is_rename_source(t, t.path(j)) by {
                assert(s.path(j) == t.path(j));
                assert(s.notes.order.contains(s.path(j)));
                assert(s.notes.has(s.path(j)));
                if is_rename_source(s, s.path(j)) {
                    let n = choose|n: int|
                        0 <= n < s.renames.len() && (#[trigger] s.renames[n]).0 == s.path(j);
                    assert(t.renames[n].0 == t.path(j));
                }
            }
            assert forall|g: int| 0 <= g < t.files.len() implies #[trigger] file_covered(t, g) by {
                assert(file_covered(s, g));
                if s.is_gone(s.files[g].id) {
                    let j = choose|j: int|
                        0 <= j < s.gone.len() && (#[trigger] s.gone[j]).1 == s.files[g].id;
                    assert(t.gone[j].1 == t.files[g].id);
                }
            }
        },
        (PhaseView::RescuingRemote(i, f), _) => {
            lemma_same_cover(s, t, i, 0);
        },
        (PhaseView::RescuingLocal(i, f), _) => {
            lemma_same_cover(s, t, i, 0);
        },
        (PhaseView::Saving, _) => {
            if s.error is None {
                lemma_same_cover(s, t, s.notes.order.len() as int, s.files.len() as int);
            }
        },
        _ => {},
    }
}

/// When a sync has ended well, every note that was listed is in the index
/// unless it was renamed on Drive, and every file on Drive stands for a note,
/// is a folder, was deleted because its note was and it did not change since, or
/// was fetched and is in the index.
pub proof fn a_finished_sync_is_complete(s: RunView)
    requires
        covered(s),
        s.phase is Finished,
        s.error is None,
    ensures
        forall|j: int|
            0 <= j < s.notes.order.len() ==> s.index.has(#[trigger] s.path(j))
                || is_rename_source(s, s.path(j)),
        forall|g: int|
            0 <= g < s.files.len() ==> s.seen.contains((#[trigger] s.files[g]).id)
                || s.files[g].is_folder() || (s.is_gone(s.files[g].id) && !s.revived.contains(
                s.files[g].id,
            )) || s.index.has(s.files[g].name),
{
    assert forall|g: int| 0 <= g < s.files.len() implies s.seen.contains(
        (#[trigger] s.files[g]).id,
    ) || s.files[g].is_folder() || (s.is_gone(s.files[g].id) && !s.revived.contains(
        s.files[g].id,
    )) || s.index.has(s.files[g].name) by {
        assert(file_covered(s, g));
    }
}

// ---------------------------------------------------------------------------
// What was synchronised is known
// ---------------------------------------------------------------------------

/// The index records of note `j` the time at which it was listed, up to the
/// tolerance, unless the sync itself wrote the note.
pub open spec fn time_recorded(s: RunView, j: int) -> bool {
    s.index.has(s.path(j)) ==> s.touched.contains(s.path(j)) || !plan::differs(
        s.local_ms(j) as int,
        s.index.map[s.path(j)].local_mtime_ms as int,
    )
}

/// The times of the first `n` notes are recorded.
pub open spec fn times_recorded(s: RunView, n: int) -> bool {
    forall|j: int| 0 <= j < n && j < s.notes.order.len() ==> #[trigger] time_recorded(s, j)
}

/// The times of the notes that were dealt with so far are recorded.
pub open spec fn timely(s: RunView) -> bool {
    s.error is None ==> times_recorded(s, notes_done(s))
}

/// Recording one path, and counting more paths as written, keeps the times that
/// are recorded under others.
proof fn lemma_times_kept(s: RunView, t: RunView, path: Option<Seq<char>>, n: int)
    requires
        t.notes == s.notes,
        forall|x: Seq<char>| s.touched.contains(x) ==> #[trigger] t.touched.contains(x),
        forall|p: Seq<char>|
            Some(p) != path && #[trigger] t.index.has(p) ==> s.index.has(p) && t.index.map[p]
                == s.index.map[p],
        forall|j: int|
            0 <= j < n && j < s.notes.order.len() && Some(#[trigger] s.path(j)) == path
                ==> t.touched.contains(s.path(j)),
        times_recorded(s, n),
    ensures
        times_recorded(t, n),
{
    assert forall|j: int| 0 <= j < n && j < t.notes.order.len() implies #[trigger] time_recorded(
        t,
        j,
    ) by {
        assert(time_recorded(s, j));
        assert(s.path(j) == t.path(j));
    }
}

proof fn lemma_from_note_timely(s: RunView, i: int)
    requires
        s.error is None,
        s.notes.wf(),
        0 <= i <= s.notes.order.len(),
        times_recorded(s, i),
    ensures
        timely(s.from_note(i)),
    decreases s.notes.order.len() - i,
{
    if i >= s.notes.order.len() {
        lemma_from_rename_frame(s, 0);
        lemma_times_kept(s, s.from_rename(0), None, i);
    } else {
        assert forall|j: int| 0 <= j < i implies #[trigger] s.path(j) != s.path(i) by {
            assert(s.notes.order[j] != s.notes.order[i]);
        }
        match (s.plan(i), s.counterpart(i)) {
            (Plan::Keep, Some((f, by_id))) => {
                let e = EntryView { id: s.files[f].id, ..s.index.map[s.path(i)] };
                let t = s.noticed(i, f, by_id, false).recorded(s.path(i), e);
                lemma_times_kept(s, t, Some(s.path(i)), i);
                assert(t.path(i) == s.path(i));
                assert(time_recorded(t, i));
                lemma_from_note_timely(t, i + 1);
            },
            _ => {
                let t = s.from_note(i);
                lemma_times_kept(s, t, Some(s.path(i)), i);
            },
        }
    }
}

/// A sync begins with no times to record.
pub proof fn begun_is_timely(index: Shelf<EntryView>, listed: Seq<FileView>)
    ensures
        timely(sync_model::begun(index, listed)),
{
}

/// Every step records the time of the note that it deals with and keeps those
/// that are recorded.
pub proof fn after_stays_timely(s: RunView, reply: ReplyView)
    requires
        s.wf(),
        s.accepts(reply),
        timely(s),
    ensures
        timely(s.after(reply)),
{
    let t = s.after(reply);
    let len = s.notes.order.len() as int;
    assert forall|i: int, j: int| 0 <= j < i < len implies #[trigger] s.path(j) != #[trigger] s.path(
        i,
    ) by {
        assert(s.notes.order[j] != s.notes.order[i]);
    }
    match (s.phase, reply) {
        (PhaseView::Scanning, ReplyView::Scanned { notes }) => {
            lemma_from_note_timely(RunView { notes, ..s }, 0);
        },
        (PhaseView::Creating(i), ReplyView::Uploaded { id, ms, chars }) => {
            let e = EntryView { id, local_mtime_ms: s.local_ms(i), remote_mtime_ms: ms };
            let u = s.recorded(s.path(i), e).one_up(chars);
            lemma_times_kept(s, u, Some(s.path(i)), i);
            assert(u.path(i) == s.path(i));
            assert(time_recorded(u, i));
            lemma_from_note_timely(u, i + 1);
        },
        (PhaseView::Pushing(i, f), ReplyView::Updated { ms, chars }) => {
            let e = EntryView {
                id: s.files[f].id,
                local_mtime_ms: s.local_ms(i),
                remote_mtime_ms: ms,
            };
            let u = s.recorded(s.path(i), e).one_up(chars);
            lemma_times_kept(s, u, Some(s.path(i)), i);
            assert(u.path(i) == s.path(i));
            assert(time_recorded(u, i));
            lemma_from_note_timely(u, i + 1);
        },
        (PhaseView::Pulling(i, f), ReplyView::Downloaded { chars }) => {
            lemma_push_contains(s.touched, s.path(i));
            lemma_times_kept(s, t, Some(s.path(i)), i);
            assert(t.path(i) == s.path(i));
            assert(time_recorded(t, i));
        },
        (PhaseView::Dating(i, _), _) => {
            lemma_from_note_timely(s, i + 1);
        },
        (PhaseView::Probing(k), ReplyView::Probed { .. }) => {
            lemma_from_rename_frame(s, k + 1);
            lemma_times_kept(s, s.from_rename(k + 1), None, len);
            lemma_times_kept(s, s.at(PhaseView::Renaming(k)), None, len);
        },
        (PhaseView::Renaming(k), ReplyView::Renamed { mtime }) => {
            let (from, to) = s.renames[k];
            let u = s.renamed(k, mtime);
            lemma_push_contains(s.touched, from);
            lemma_push_contains(s.touched.push(from), to);
            assert forall|p: Seq<char>| p != to && #[trigger] u.index.has(p) implies s.index.has(p)
                && u.index.map[p] == s.index.map[p] by {}
            lemma_times_kept(s, u, Some(to), len);
            lemma_from_rename_frame(u, k + 1);
            lemma_times_kept(u, u.from_rename(k + 1), None, len);
        },
        (PhaseView::Fetching(f), ReplyView::Downloaded { chars }) => {
            lemma_push_contains(s.touched, s.files[f].name);
            lemma_times_kept(s, t, Some(s.files[f].name), len);
        },
        (PhaseView::DatingFetched(f), _) => {
            lemma_from_fetch_frame(s, f + 1);
            lemma_times_kept(s, s.from_fetch(f + 1), None, len);
        },
        (PhaseView::Cleaning(k), _) => {
            let gone = s.gone[k].0;
            assert(!s.notes.has(gone));
            assert forall|j: int| 0 <= j < len implies #[trigger] s.path(j) != gone by {
                assert(s.notes.order.contains(s.path(j)));
                assert(s.notes.has(s.path(j)));
            }
            lemma_times_kept(s, t, Some(gone), len);
        },
        (PhaseView::RescuingRemote(i, f), _) => {
            lemma_times_kept(s, t, None, i);
        },
        (PhaseView::RescuingLocal(i, f), _) => {
            lemma_times_kept(s, t, None, i);
        },
        (PhaseView::Saving, _) => {
            if s.error is None {
                lemma_times_kept(s, t, None, len);
            }
        },
        _ => {},
    }
}

/// When a sync has ended well, the index has every note that was listed, with
/// the time at which it was listed unless the sync itself wrote the note; save
/// those that were renamed on Drive.
pub proof fn a_finished_sync_knows_every_note(s: RunView)
    requires
        covered(s),
        timely(s),
        s.phase is Finished,
        s.error is None,
    ensures
        forall|j: int|
            0 <= j < s.notes.order.len() ==> is_rename_source(s, #[trigger] s.path(j)) || (
            s.index.has(s.path(j)) && (s.touched.contains(s.path(j)) || !plan::differs(
                s.local_ms(j) as int,
                s.index.map[s.path(j)].local_mtime_ms as int,
            ))),
{
    assert forall|j: int| 0 <= j < s.notes.order.len() implies is_rename_source(
        s,
        #[trigger] s.path(j),
    ) || (s.index.has(s.path(j)) && (s.touched.contains(s.path(j)) || !plan::differs(
        s.local_ms(j) as int,
        s.index.map[s.path(j)].local_mtime_ms as int,
    ))) by {
        assert(time_recorded(s, j));
    }
}

/// A note that was downloaded is given the time that the index records for both
/// sides, so that neither counts as changed afterwards.
pub proof fn a_download_is_dated(s: RunView, path: Seq<char>, id: Seq<char>, chars: u64)
    requires
        s.wf(),
        s.pending() == (ActionView::Download { path, id }),
        s.accepts(ReplyView::Downloaded { chars }),
    ensures
        ({
            let t = s.after(ReplyView::Downloaded { chars });
            &&& t.pending() matches ActionView::SetMtime { path: p, ms } && p == path && ms
                == t.index.map[path].local_mtime_ms
            &&& t.index.map[path].local_mtime_ms == t.index.map[path].remote_mtime_ms
        }),
{
}

// ---------------------------------------------------------------------------
// Nothing is transferred twice
// ---------------------------------------------------------------------------

/// Both sides are as the index has them: every note is indexed and has its file
/// under its own name, neither changed since, every file on Drive stands for a
/// note or is a folder, and every indexed note is there.
pub open spec fn settled(s: RunView) -> bool {
    &&& forall|j: int|
        0 <= j < s.notes.order.len() ==> s.index.has(#[trigger] s.path(j)) && s.plan(j) is Keep && (
        s.counterpart(j) matches Some((f, by_id)) && by_id && s.files[f].name == s.path(j))
    &&& forall|g: int|
        0 <= g < s.files.len() ==> (#[trigger] s.files[g]).is_folder() || exists|j: int|
            0 <= j < s.notes.order.len() && #[trigger] s.counterpart(j) == Some((g, true))
    &&& forall|p: Seq<char>| #[trigger] s.index.has(p) ==> s.notes.has(p)
}

/// `t` is `s` on its way through the notes, `i` of which were found unchanged.
spec fn unchanged_so_far(s: RunView, t: RunView, i: int) -> bool {
    &&& t == (RunView { seen: t.seen, ..s })
    &&& forall|j: int|
        0 <= j < i ==> (#[trigger] s.counterpart(j) matches Some((f, _)) ==> t.seen.contains(
            s.files[f].id,
        ))
}

proof fn lemma_settled_notes(s: RunView, t: RunView, i: int)
    requires
        settled(s),
        s.index.wf(),
        s.renames.len() == 0,
        0 <= i <= s.notes.order.len(),
        unchanged_so_far(s, t, i),
    ensures
        exists|seen: Seq<Seq<char>>|
            t.from_note(i) == (RunView {
                seen,
                gone: Seq::empty(),
                revived: Seq::empty(),
                ..s
            }).closing(None),
    decreases s.notes.order.len() - i,
{
    if i >= s.notes.order.len() {
        sync_model::with_gone_knows_all(t);
        let u = t.with_gone();
        if u.gone.len() > 0 {
            assert(s.index.has(u.gone[0].0));
        }
        assert(u.gone =~= Seq::empty());
        let pred = |p: Seq<char>| t.was_deleted(p) && t.changed_there(p);
        sync_model::lemma_filter_sub(t.index.order, pred);
        if u.revived.len() > 0 {
            let p = t.index.order.filter(pred)[0];
            assert(t.index.order.contains(p));
            assert(s.index.has(p));
        }
        assert(u.revived =~= Seq::empty());
        let z = RunView { gone: Seq::empty(), revived: Seq::empty(), ..s };
        assert(unchanged_so_far(z, u, i)) by {
            assert forall|j: int| 0 <= j < i implies (#[trigger] z.counterpart(j)
                matches Some((f, _)) ==> u.seen.contains(z.files[f].id)) by {
                assert(z.counterpart(j) == s.counterpart(j));
            }
        }
        lemma_settled_gone(s);
        lemma_settled_fetch(z, u, 0);
    } else {
        plan::counterpart_is_justified(s.index.get(s.path(i)), s.files, s.path(i));
        let f = s.counterpart(i).unwrap().0;
        let e = s.index.map[s.path(i)];
        let same = EntryView { id: s.files[f].id, ..e };
        assert(t.path(i) == s.path(i));
        assert(same == e);
        let u = t.noticed(i, f, true, false).recorded(t.path(i), same);
        assert(s.index.map.insert(s.path(i), e) =~= s.index.map);
        assert(u.index == s.index);
        lemma_push_contains(t.seen, s.files[f].id);
        assert(u.seen == t.seen.push(s.files[f].id));
        assert(unchanged_so_far(s, u, i + 1)) by {
            assert forall|j: int| 0 <= j < i + 1 implies (#[trigger] s.counterpart(j)
                matches Some((g, _)) ==> u.seen.contains(s.files[g].id)) by {
                if j < i {
                    assert(s.counterpart(j) matches Some((g, _)) ==> t.seen.contains(
                        s.files[g].id,
                    ));
                }
            }
        }
        assert(t.counterpart(i) == s.counterpart(i));
        assert(t.plan(i) == s.plan(i));
        lemma_settled_notes(s, u, i + 1);
    }
}

proof fn lemma_settled_gone(s: RunView)
    requires
        settled(s),
    ensures
        settled(RunView { gone: Seq::empty(), revived: Seq::empty(), ..s }),
{
    let z = RunView { gone: Seq::empty(), revived: Seq::empty(), ..s };
    assert forall|j: int| 0 <= j < z.notes.order.len() implies z.index.has(#[trigger] z.path(j))
        && z.plan(j) is Keep && (z.counterpart(j) matches Some((f, by_id)) && by_id && z.files[f].name
        == z.path(j)) by {
        assert(s.index.has(s.path(j)));
        assert(z.plan(j) == s.plan(j));
        assert(z.counterpart(j) == s.counterpart(j));
    }
    assert forall|g: int| 0 <= g < z.files.len() implies (#[trigger] z.files[g]).is_folder()
        || exists|j: int|
        0 <= j < z.notes.order.len() && #[trigger] z.counterpart(j) == Some((g, true)) by {
        assert(s.files[g] == z.files[g]);
        if !s.files[g].is_folder() {
            let j = choose|j: int|
                0 <= j < s.notes.order.len() && #[trigger] s.counterpart(j) == Some((g, true));
            assert(z.counterpart(j) == s.counterpart(j));
        }
    }
}

proof fn lemma_settled_fetch(s: RunView, t: RunView, g: int)
    requires
        settled(s),
        s.index.wf(),
        s.gone.len() == 0,
        s.renames.len() == 0,
        unchanged_so_far(s, t, s.notes.order.len() as int),
        0 <= g,
    ensures
        t.from_fetch(g) == (RunView { seen: t.seen, gone: Seq::empty(), ..s }).closing(None),
    decreases s.files.len() - g,
{
    if g < s.files.len() {
        if !s.files[g].is_folder() {
            let j = choose|j: int|
                0 <= j < s.notes.order.len() && #[trigger] s.counterpart(j) == Some((g, true));
            assert(t.seen.contains(s.files[g].id));
        }
        assert(!t.only_remote(g));
        lemma_settled_fetch(s, t, g + 1);
    } else {
        let pred = |e: (Seq<char>, Seq<char>)| t.is_due(e);
        let gone = t.gone.filter(pred);
        sync_model::lemma_filter_sub(t.gone, pred);
        if gone.len() > 0 {
            assert(t.gone.contains(gone[0]));
        }
        assert(gone =~= Seq::empty());
    }
}

/// Where both sides are as the index has them, a sync transfers nothing, deletes
/// nothing and leaves the index as it is.
pub proof fn a_settled_sync_does_nothing(s: RunView, notes: Shelf<u64>)
    requires
        s.wf(),
        s.phase is Scanning,
        s.accepts(ReplyView::Scanned { notes }),
        s.renames.len() == 0,
        settled(RunView { notes, ..s }),
    ensures
        s.after(ReplyView::Scanned { notes }).pending() == ActionView::SaveIndex,
        s.after(ReplyView::Scanned { notes }).index == s.index,
        s.after(ReplyView::Scanned { notes }).uploaded == s.uploaded,
        s.after(ReplyView::Scanned { notes }).downloaded == s.downloaded,
        s.after(ReplyView::Scanned { notes }).conflicts == s.conflicts,
        s.after(ReplyView::Scanned { notes }).chars == s.chars,
        s.after(ReplyView::Scanned { notes }).error is None,
{
    let u = RunView { notes, ..s };
    lemma_settled_notes(u, u, 0);
}

// ---------------------------------------------------------------------------
// A sync ends
// ---------------------------------------------------------------------------

/// The stages of a sync, counted down.
pub open spec fn stage(s: RunView) -> int {
    match s.phase {
        PhaseView::Purging(_) => 7,
        PhaseView::Scanning => 6,
        PhaseView::Probing(_) => 4,
        PhaseView::Renaming(_) => 4,
        PhaseView::Fetching(_) => 3,
        PhaseView::DatingFetched(_) => 3,
        PhaseView::Cleaning(_) => 2,
        PhaseView::Saving => 1,
        PhaseView::Finished => 0,
        _ => 5,
    }
}

/// How many steps there can still be in the present stage.
pub open spec fn steps_left(s: RunView) -> int {
    let n = s.notes.order.len();
    match s.phase {
        PhaseView::Purging(k) => s.doomed.len() - k,
        PhaseView::RescuingRemote(i, _) => 4 * (n - i) + 3,
        PhaseView::RescuingLocal(i, _) => 4 * (n - i) + 3,
        PhaseView::Creating(i) => 4 * (n - i) + 2,
        PhaseView::Pushing(i, _) => 4 * (n - i) + 2,
        PhaseView::Pulling(i, _) => 4 * (n - i) + 2,
        PhaseView::Dating(i, _) => 4 * (n - i) + 1,
        PhaseView::Probing(k) => 2 * (s.renames.len() - k) + 1,
        PhaseView::Renaming(k) => 2 * (s.renames.len() - k),
        PhaseView::Fetching(f) => 2 * (s.files.len() - f) + 1,
        PhaseView::DatingFetched(f) => 2 * (s.files.len() - f),
        PhaseView::Cleaning(k) => s.gone.len() - k,
        _ => 0,
    }
}

proof fn lemma_from_fetch_stage(s: RunView, f: int)
    requires
        0 <= f,
    ensures
        stage(s.from_fetch(f)) <= 3,
        stage(s.from_fetch(f)) == 3 ==> steps_left(s.from_fetch(f)) <= 2 * (s.files.len() - f) + 1,
    decreases s.files.len() - f,
{
    if f < s.files.len() && !s.only_remote(f) {
        lemma_from_fetch_stage(s, f + 1);
    }
}

proof fn lemma_from_note_stage(s: RunView, i: int)
    requires
        0 <= i <= s.notes.order.len(),
    ensures
        stage(s.from_note(i)) <= 5,
        stage(s.from_note(i)) == 5 ==> steps_left(s.from_note(i)) <= 4 * (s.notes.order.len() - i)
            + 3,
    decreases s.notes.order.len() - i,
{
    lemma_from_fetch_stage(s.with_gone(), 0);
    if i < s.notes.order.len() {
        match (s.plan(i), s.counterpart(i)) {
            (Plan::Keep, Some((f, by_id))) => {
                let e = EntryView { id: s.files[f].id, ..s.index.map[s.path(i)] };
                lemma_from_note_stage(s.noticed(i, f, by_id, false).recorded(s.path(i), e), i + 1);
            },
            _ => {},
        }
    }
}

/// Every reply brings a sync nearer to its end: to a later stage, or to fewer
/// steps left in the same one. So a sync ends, whatever the replies.
pub proof fn every_reply_brings_the_end_nearer(s: RunView, reply: ReplyView)
    requires
        s.wf(),
        s.accepts(reply),
    ensures
        stage(s.after(reply)) < stage(s) || stage(s.after(reply)) == stage(s) && 0 <= steps_left(
            s.after(reply),
        ) < steps_left(s),
{
    sync_model::after_wf(s, reply);
    match (s.phase, reply) {
        (PhaseView::Scanning, ReplyView::Scanned { notes }) => {
            lemma_from_note_stage(RunView { notes, ..s }, 0);
        },
        (PhaseView::Creating(i), ReplyView::Uploaded { id, ms, chars }) => {
            let e = EntryView { id, local_mtime_ms: s.local_ms(i), remote_mtime_ms: ms };
            lemma_from_note_stage(s.recorded(s.path(i), e).one_up(chars), i + 1);
        },
        (PhaseView::Pushing(i, f), ReplyView::Updated { ms, chars }) => {
            let e = EntryView {
                id: s.files[f].id,
                local_mtime_ms: s.local_ms(i),
                remote_mtime_ms: ms,
            };
            lemma_from_note_stage(s.recorded(s.path(i), e).one_up(chars), i + 1);
        },
        (PhaseView::Dating(i, _), _) => {
            lemma_from_note_stage(s, i + 1);
        },
        (PhaseView::Probing(n), ReplyView::Probed { .. }) => {
            lemma_from_fetch_stage(s.with_gone(), 0);
        },
        (PhaseView::Renaming(n), ReplyView::Renamed { mtime }) => {
            lemma_from_fetch_stage(s.renamed(n, mtime).with_gone(), 0);
        },
        (PhaseView::DatingFetched(f), _) => {
            lemma_from_fetch_stage(s, f + 1);
        },
        _ => {},
    }
}

} // verus!
