//! What one sync leaves for the next.

use crate::index::EntryView;
use crate::listing;
use crate::listing::FoundView;
use crate::local;
use crate::pathmap::Shelf;
use crate::paths;
use crate::plan;
use crate::plan::Plan;
use crate::remote;
use crate::remote::FileView;
use crate::sync_laws;
use crate::sync_model;
use crate::sync_model::{ActionView, PhaseView, ReplyView, ResultView, RunView};
use vstd::prelude::*;

verus! {

// ---------------------------------------------------------------------------
// Both sides
// ---------------------------------------------------------------------------

/// What stands on both sides: the notes that a listing shows, with the time each
/// changed, and the files on Drive, by id, with the name of each and the time it
/// changed.
pub struct World {
    pub notes: Map<Seq<char>, u64>,
    pub files: Map<Seq<char>, (Seq<char>, int)>,
}

/// A file that is written to `path`, seen from the root of the notes, is shown
/// by a listing, under that path: the path is plain and the name not hidden.
pub open spec fn is_shown(path: Seq<char>) -> bool {
    paths::is_plain_path(path) && !listing::is_hidden(paths::plain_name(path))
}

/// What is shown takes part in a sync.
pub proof fn what_is_shown_is_listed(root: Seq<char>, path: Seq<char>, e: FoundView, ms: u64)
    requires
        is_shown(path),
        e.path == paths::joined(root, path),
        e.is_file,
        e.mtime == Some(ms),
    ensures
        local::sync_note(root, e) == Some((path, ms)),
{
    paths::plain_paths_are_found_again(root, path);
}

/// Drive lists `listed`: all of its files, none of them a folder, each once.
pub open spec fn lists(w: World, listed: Seq<FileView>) -> bool {
    &&& remote::distinct_ids(listed)
    &&& forall|i: int|
        0 <= i < listed.len() ==> {
            let f = #[trigger] listed[i];
            &&& !f.is_folder()
            &&& w.files.contains_key(f.id)
            &&& w.files[f.id] == (f.name, f.mtime())
        }
    &&& forall|id: Seq<char>| #[trigger]
        w.files.contains_key(id) ==> exists|i: int|
            0 <= i < listed.len() && (#[trigger] listed[i]).id == id
}

/// No file that the index knows was renamed on Drive.
pub open spec fn none_renamed(index: Shelf<EntryView>, w: World) -> bool {
    forall|p: Seq<char>|
        #[trigger] index.has(p) && w.files.contains_key(index.map[p].id)
            ==> w.files[index.map[p].id].0 == p
}

/// The note `path` was written and nothing else changed.
pub open spec fn rewritten(w: World, v: World, path: Seq<char>) -> bool {
    &&& v.files == w.files
    &&& v.notes.contains_key(path)
    &&& forall|q: Seq<char>|
        q != path ==> (#[trigger] v.notes.contains_key(q) <==> w.notes.contains_key(q))
    &&& forall|q: Seq<char>|
        q != path && w.notes.contains_key(q) ==> #[trigger] v.notes[q] == w.notes[q]
}

/// Drive gave out the id for the first time.
pub open spec fn is_new(s: RunView, w: World, id: Seq<char>) -> bool {
    &&& !w.files.contains_key(id)
    &&& !s.is_listed(id)
    &&& forall|p: Seq<char>| #[trigger] s.index.has(p) ==> s.index.map[p].id != id
}

/// What the sync asked for in state `s` was done, which made `v` of `w`, and
/// `reply` tells so; nothing else changed. Nothing is said of what fails, of
/// conflicts and of renames.
pub open spec fn takes_place(s: RunView, w: World, reply: ReplyView, v: World) -> bool {
    match (s.pending(), reply) {
        (_, ReplyView::Failed { .. }) => true,
        (ActionView::DeleteRemote { id }, _) => v == (World { files: w.files.remove(id), ..w }),
        (ActionView::ScanNotes, ReplyView::Scanned { notes }) => v == w && notes.map == w.notes,
        (ActionView::Upload { path }, ReplyView::Uploaded { id, ms, .. }) => is_new(s, w, id) && v
            == (World { files: w.files.insert(id, (path, ms as int)), ..w }),
        (ActionView::Update { id, .. }, ReplyView::Updated { ms, .. }) => v == (World {
            files: w.files.insert(id, (w.files[id].0, ms as int)),
            ..w
        }),
        (ActionView::Download { path, .. }, _) => w.notes.contains_key(path) || is_shown(path)
            ==> rewritten(w, v, path),
        (ActionView::SetMtime { path, ms }, _) => w.notes.contains_key(path) || is_shown(path)
            ==> rewritten(w, v, path) && !plan::differs(v.notes[path] as int, ms),
        (ActionView::SaveIndex, _) => v == w,
        _ => true,
    }
}

/// The index has the note `p`, its file has its name, and both are as the index
/// has them.
pub open spec fn linked(index: Shelf<EntryView>, w: World, p: Seq<char>) -> bool {
    &&& index.has(p)
    &&& w.notes.contains_key(p)
    &&& !plan::differs(w.notes[p] as int, index.map[p].local_mtime_ms as int)
    &&& w.files.contains_key(index.map[p].id)
    &&& w.files[index.map[p].id].0 == p
    &&& !plan::differs(w.files[index.map[p].id].1, index.map[p].remote_mtime_ms as int)
}

/// Both sides are as the index has them, and hold nothing else.
pub open spec fn in_step(index: Shelf<EntryView>, w: World) -> bool {
    &&& forall|p: Seq<char>| #[trigger] index.has(p) ==> linked(index, w, p)
    &&& forall|p: Seq<char>| #[trigger] w.notes.contains_key(p) ==> index.has(p)
    &&& forall|id: Seq<char>| #[trigger]
        w.files.contains_key(id) ==> index.has(w.files[id].0) && index.map[w.files[id].0].id == id
}

// ---------------------------------------------------------------------------
// The second sync
// ---------------------------------------------------------------------------

proof fn lemma_dedup_distinct(index: Shelf<EntryView>, files: Seq<FileView>)
    requires
        forall|i: int, j: int|
            0 <= i < j < files.len() ==> (#[trigger] files[i]).name != (#[trigger] files[j]).name,
    ensures
        remote::dedup(index, files).kept == files,
        remote::dedup(index, files).doomed.len() == 0,
    decreases files.len(),
{
    if files.len() > 0 {
        let rest = files.drop_last();
        assert forall|i: int, j: int| 0 <= i < j < rest.len() implies (#[trigger] rest[i]).name != (
        #[trigger] rest[j]).name by {
            assert(files[i].name != files[j].name);
        }
        lemma_dedup_distinct(index, rest);
        remote::name_position_is_first(rest, files.last().name);
        if remote::name_position(rest, files.last().name) is Some {
            let i = remote::name_position(rest, files.last().name)->0;
            assert(files[i].name != files[files.len() - 1].name);
        }
        assert(rest.push(files.last()) =~= files);
    } else {
        assert(remote::dedup(index, files).kept =~= files);
    }
}

proof fn lemma_id_found(files: Seq<FileView>, id: Seq<char>, i: int, g: int)
    requires
        remote::distinct_ids(files),
        0 <= i <= g < files.len(),
        files[g].id == id,
    ensures
        plan::id_from(files, id, i) == Some(g),
    decreases g - i,
{
    if i < g {
        assert(files[i].id != files[g].id);
        lemma_id_found(files, id, i + 1, g);
    }
}

/// Where both sides are as the index has them, a sync transfers and deletes
/// nothing, leaves the index as it is, and reports that it had nothing to do.
pub proof fn a_sync_in_step_does_nothing(
    index: Shelf<EntryView>,
    w: World,
    listed: Seq<FileView>,
    notes: Shelf<u64>,
)
    requires
        index.wf(),
        in_step(index, w),
        lists(w, listed),
        notes.wf(),
        notes.map == w.notes,
        notes.order.len() + listed.len() <= u32::MAX,
    ensures
        ({
            let s = sync_model::begun(index, listed);
            let t = s.after(ReplyView::Scanned { notes });
            &&& s.pending() == ActionView::ScanNotes
            &&& s.accepts(ReplyView::Scanned { notes })
            &&& t.pending() == ActionView::SaveIndex
            &&& t.index == index
            &&& t.after(ReplyView::Done).index == index
            &&& t.after(ReplyView::Done).pending() == (ActionView::Finish {
                outcome: Ok(
                    ResultView {
                        uploaded: 0,
                        downloaded: 0,
                        conflicts: 0,
                        chars_synced: 0,
                        summary: "Already up to date"@,
                    },
                ),
            })
        }),
{
    assert forall|i: int, j: int| 0 <= i < j < listed.len() implies (#[trigger] listed[i]).name != (
    #[trigger] listed[j]).name by {
        assert(listed[i].id != listed[j].id);
        assert(w.files.contains_key(listed[i].id) && w.files.contains_key(listed[j].id));
    }
    lemma_dedup_distinct(index, listed);
    let s = sync_model::begun(index, listed);
    let u = RunView { notes, ..s };
    assert forall|j: int| 0 <= j < u.notes.order.len() implies u.index.has(#[trigger] u.path(j))
        && u.plan(j) is Keep && (u.counterpart(j) matches Some((f, by_id)) && by_id
        && u.files[f].name == u.path(j)) by {
        let p = u.path(j);
        assert(notes.order.contains(p));
        assert(w.notes.contains_key(p));
        assert(linked(index, w, p));
        let g = choose|g: int| 0 <= g < listed.len() && (#[trigger] listed[g]).id == index.map[p].id;
        lemma_id_found(listed, index.map[p].id, 0, g);
    }
    assert forall|g: int| 0 <= g < u.files.len() implies (#[trigger] u.files[g]).is_folder()
        || exists|j: int|
        0 <= j < u.notes.order.len() && #[trigger] u.counterpart(j) == Some((g, true)) by {
        let f = u.files[g];
        assert(f == listed[g]);
        assert(w.files.contains_key(f.id));
        assert(linked(index, w, f.name));
        assert(notes.order.contains(f.name));
        let j = choose|j: int| 0 <= j < notes.order.len() && notes.order[j] == f.name;
        assert(u.path(j) == f.name);
        lemma_id_found(listed, f.id, 0, g);
        assert(u.counterpart(j) == Some((g, true)));
    }
    assert forall|p: Seq<char>| #[trigger] u.index.has(p) implies u.notes.has(p) by {
        assert(linked(index, w, p));
    }
    sync_model::begun_wf(index, listed);
    sync_laws::a_settled_sync_does_nothing(s, notes);
}

// ---------------------------------------------------------------------------
// The first sync
// ---------------------------------------------------------------------------

/// One of the files has this id.
pub open spec fn has_id(files: Seq<FileView>, id: Seq<char>) -> bool {
    exists|g: int| 0 <= g < files.len() && (#[trigger] files[g]).id == id
}

/// One of the first `n` notes is `p`.
pub open spec fn is_done(notes: Shelf<u64>, p: Seq<char>, n: int) -> bool {
    exists|j: int| 0 <= j < n && j < notes.order.len() && #[trigger] notes.order[j] == p
}

/// The files that the sync works on are on Drive, under their names, which a
/// listing shows, and no file that the index knows was renamed.
pub open spec fn grounded(index: Shelf<EntryView>, files: Seq<FileView>, w: World) -> bool {
    &&& remote::distinct_ids(files)
    &&& forall|g: int, h: int|
        0 <= g < files.len() && 0 <= h < files.len() && g != h ==> (#[trigger] files[g]).name != (
        #[trigger] files[h]).name
    &&& forall|g: int|
        0 <= g < files.len() ==> {
            let f = #[trigger] files[g];
            &&& !f.is_folder()
            &&& is_shown(f.name)
            &&& w.files.contains_key(f.id)
            &&& w.files[f.id].0 == f.name
        }
    &&& none_renamed(index, w)
}

/// The surplus files are deleted, from number `k` on, and nothing else was done.
pub open spec fn purged_from(s: RunView, w: World, k: int) -> bool {
    &&& s.seen.len() == 0
    &&& s.touched.len() == 0
    &&& s.renames.len() == 0
    &&& forall|g: int|
        0 <= g < s.files.len() ==> {
            let f = #[trigger] s.files[g];
            &&& w.files[f.id].1 == f.mtime()
            &&& !s.doomed.contains(f.id)
        }
    &&& forall|id: Seq<char>| #[trigger]
        w.files.contains_key(id) ==> has_id(s.files, id) || exists|j: int|
            k <= j < s.doomed.len() && #[trigger] s.doomed[j] == id
}

/// The first `n` notes are linked with their files, which are those that were
/// seen; those from number `m` on, and their files, are as they were listed.
pub open spec fn linked_up_to(
    index: Shelf<EntryView>,
    files: Seq<FileView>,
    notes: Shelf<u64>,
    touched: Seq<Seq<char>>,
    seen: Seq<Seq<char>>,
    w: World,
    n: int,
    m: int,
) -> bool {
    &&& forall|j: int|
        0 <= j < n && j < notes.order.len() ==> linked(index, w, #[trigger] notes.order[j])
    &&& forall|j: int|
        m <= j < notes.order.len() ==> w.notes[#[trigger] notes.order[j]]
            == notes.map[notes.order[j]]
    &&& forall|p: Seq<char>| #[trigger] w.notes.contains_key(p) <==> notes.has(p)
    &&& forall|id: Seq<char>| #[trigger]
        w.files.contains_key(id) ==> has_id(files, id) || (is_done(notes, w.files[id].0, n)
            && index.map[w.files[id].0].id == id)
    &&& forall|g: int|
        0 <= g < files.len() ==> {
            let f = #[trigger] files[g];
            &&& seen.contains(f.id) <==> is_done(notes, f.name, n)
            &&& is_done(notes, f.name, n) ==> index.map[f.name].id == f.id
            &&& !seen.contains(f.id) ==> w.files[f.id].1 == f.mtime()
        }
    &&& forall|p: Seq<char>| #[trigger] touched.contains(p) ==> notes.has(p)
}

/// All notes are linked with their files, and so is what was fetched, but for
/// `fresh`; the first `n` files stand for notes, were fetched, or are gone.
pub open spec fn fetched_up_to(
    index: Shelf<EntryView>,
    files: Seq<FileView>,
    notes: Shelf<u64>,
    touched: Seq<Seq<char>>,
    gone: Seq<(Seq<char>, Seq<char>)>,
    revived: Seq<Seq<char>>,
    seen: Seq<Seq<char>>,
    w: World,
    n: int,
    fresh: Option<Seq<char>>,
) -> bool {
    &&& forall|p: Seq<char>| #[trigger] notes.has(p) ==> linked(index, w, p)
    &&& forall|p: Seq<char>| #[trigger]
        touched.contains(p) && Some(p) != fresh ==> linked(index, w, p)
    &&& forall|p: Seq<char>| #[trigger]
        w.notes.contains_key(p) <==> notes.has(p) || touched.contains(p)
    &&& forall|id: Seq<char>| #[trigger]
        w.files.contains_key(id) ==> has_id(files, id) || (notes.has(w.files[id].0)
            && index.map[w.files[id].0].id == id)
    &&& forall|g: int|
        0 <= g < files.len() ==> {
            let f = #[trigger] files[g];
            &&& seen.contains(f.id) <==> notes.has(f.name)
            &&& notes.has(f.name) ==> index.map[f.name].id == f.id
            &&& !seen.contains(f.id) ==> w.files[f.id].1 == f.mtime()
            &&& g < n ==> seen.contains(f.id) || (is_gone_id(gone, f.id) && !revived.contains(f.id))
                || (touched.contains(f.name) && index.map[f.name].id == f.id)
        }
    &&& forall|j: int|
        0 <= j < gone.len() ==> {
            let e = #[trigger] gone[j];
            &&& !notes.has(e.0)
            &&& w.files.contains_key(e.1) ==> w.files[e.1].0 == e.0
            &&& touched.contains(e.0) && has_id(files, e.1) ==> revived.contains(e.1)
        }
}

/// A file with this id stood for a note that is gone.
pub open spec fn is_gone_id(gone: Seq<(Seq<char>, Seq<char>)>, id: Seq<char>) -> bool {
    exists|j: int| 0 <= j < gone.len() && (#[trigger] gone[j]).1 == id
}

/// What is there is linked, on both sides, but for the files of what is gone,
/// from number `k` on.
pub open spec fn cleaned_up_to(
    index: Shelf<EntryView>,
    notes: Shelf<u64>,
    touched: Seq<Seq<char>>,
    gone: Seq<(Seq<char>, Seq<char>)>,
    w: World,
    k: int,
) -> bool {
    &&& forall|p: Seq<char>| #[trigger] notes.has(p) ==> linked(index, w, p)
    &&& forall|p: Seq<char>| #[trigger] touched.contains(p) ==> linked(index, w, p)
    &&& forall|p: Seq<char>| #[trigger]
        w.notes.contains_key(p) <==> notes.has(p) || touched.contains(p)
    &&& forall|id: Seq<char>| #[trigger]
        w.files.contains_key(id) ==> {
            let p = w.files[id].0;
            ||| (notes.has(p) || touched.contains(p)) && index.map[p].id == id
            ||| exists|j: int| k <= j < gone.len() && (#[trigger] gone[j]).1 == id
        }
    &&& forall|j: int|
        0 <= j < gone.len() ==> {
            let e = #[trigger] gone[j];
            &&& !notes.has(e.0)
            &&& !touched.contains(e.0)
            &&& w.files.contains_key(e.1) ==> w.files[e.1].0 == e.0
        }
}

/// As long as nothing failed and there was no conflict, what the sync has dealt
/// with is as the index has it, and the rest is as it was listed.
pub open spec fn on_course(s: RunView, w: World) -> bool {
    s.error is None && s.conflicts == 0 ==> match s.phase {
        PhaseView::Purging(k) => grounded(s.index, s.files, w) && purged_from(s, w, k),
        PhaseView::Scanning => grounded(s.index, s.files, w) && purged_from(
            s,
            w,
            s.doomed.len() as int,
        ),
        PhaseView::Creating(i) => {
            &&& s.renames.len() == 0
            &&& grounded(s.index, s.files, w)
            &&& linked_up_to(s.index, s.files, s.notes, s.touched, s.seen, w, i, i)
            &&& forall|g: int| 0 <= g < s.files.len() ==> (#[trigger] s.files[g]).name != s.path(i)
        },
        PhaseView::Pushing(i, f) => transferring(s, w, i, f, i),
        PhaseView::Pulling(i, f) => transferring(s, w, i, f, i),
        PhaseView::Dating(i, f) => {
            &&& transferring(s, w, i, f, i + 1)
            &&& s.index.get(s.path(i)) == Some(s.level_entry(f))
        },
        PhaseView::Fetching(f) => {
            &&& grounded(s.index, s.files, w)
            &&& fetched_up_to(s.index, s.files, s.notes, s.touched, s.gone, s.revived, s.seen, w, f, None)
        },
        PhaseView::DatingFetched(f) => {
            let name = s.files[f].name;
            &&& grounded(s.index, s.files, w)
            &&& fetched_up_to(
                s.index,
                s.files,
                s.notes,
                s.touched,
                s.gone,
                s.revived,
                s.seen,
                w,
                f,
                Some(name),
            )
            &&& s.index.get(name) == Some(s.level_entry(f))
            &&& s.touched.contains(name)
            &&& !s.notes.has(name)
        },
        PhaseView::Cleaning(k) => cleaned_up_to(s.index, s.notes, s.touched, s.gone, w, k),
        PhaseView::Saving => in_step(s.index, w),
        PhaseView::Finished => in_step(s.index, w),
        _ => false,
    }
}

/// File `f` stands for note `i`, the first that is not linked.
pub open spec fn transferring(s: RunView, w: World, i: int, f: int, m: int) -> bool {
    &&& s.renames.len() == 0
    &&& grounded(s.index, s.files, w)
    &&& s.seen.len() > 0
    &&& s.seen.last() == s.files[f].id
    &&& s.files[f].name == s.path(i)
    &&& linked_up_to(s.index, s.files, s.notes, s.touched, s.seen.drop_last(), w, i, m)
}

proof fn lemma_done_more(notes: Shelf<u64>, p: Seq<char>, n: int)
    requires
        0 <= n < notes.order.len(),
    ensures
        is_done(notes, p, n + 1) <==> is_done(notes, p, n) || notes.order[n] == p,
{
    if is_done(notes, p, n) {
        let j = choose|j: int| 0 <= j < n && j < notes.order.len() && #[trigger] notes.order[j] == p;
        assert(notes.order[j] == p);
    }
    assert(notes.order[n] == p ==> is_done(notes, p, n + 1));
}

proof fn lemma_pushed(s: Seq<Seq<char>>, x: Seq<char>, y: Seq<char>)
    ensures
        s.push(x).contains(y) <==> s.contains(y) || x == y,
{
    assert(s.push(x)[s.len() as int] == x);
    if s.contains(y) {
        let k = choose|k: int| 0 <= k < s.len() && s[k] == y;
        assert(s.push(x)[k] == y);
    }
    if s.push(x).contains(y) && x != y {
        let k = choose|k: int| 0 <= k < s.push(x).len() && s.push(x)[k] == y;
        assert(s[k] == y);
    }
}

/// Note `i` and file `f`, its own, have become linked by the entry `e`.
proof fn lemma_linked_with_file(
    index: Shelf<EntryView>,
    files: Seq<FileView>,
    notes: Shelf<u64>,
    touched: Seq<Seq<char>>,
    more: Seq<Seq<char>>,
    seen: Seq<Seq<char>>,
    w: World,
    v: World,
    i: int,
    m: int,
    f: int,
    e: EntryView,
    ms: int,
)
    requires
        notes.wf(),
        grounded(index, files, w),
        0 <= i < notes.order.len(),
        i <= m <= i + 1,
        linked_up_to(index, files, notes, touched, seen, w, i, m),
        0 <= f < files.len(),
        files[f].name == notes.order[i],
        e.id == files[f].id,
        v.files == w.files.insert(e.id, (notes.order[i], ms)),
        forall|p: Seq<char>| #[trigger] v.notes.contains_key(p) <==> w.notes.contains_key(p),
        forall|p: Seq<char>|
            p != notes.order[i] && w.notes.contains_key(p) ==> #[trigger] v.notes[p] == w.notes[p],
        linked(index.set(notes.order[i], e), v, notes.order[i]),
        forall|p: Seq<char>| #[trigger] more.contains(p) ==> notes.has(p),
    ensures
        grounded(index.set(notes.order[i], e), files, v),
        linked_up_to(
            index.set(notes.order[i], e),
            files,
            notes,
            more,
            seen.push(files[f].id),
            v,
            i + 1,
            i + 1,
        ),
{
    let p = notes.order[i];
    let after = index.set(p, e);
    assert(w.files.contains_key(files[f].id) && w.files[e.id].0 == p);
    assert forall|j: int| 0 <= j < notes.order.len() && j != i implies #[trigger] notes.order[j]
        != p by {}
    assert forall|j: int| 0 <= j < i + 1 && j < notes.order.len() implies linked(
        after,
        v,
        #[trigger] notes.order[j],
    ) by {
        if j < i {
            assert(linked(index, w, notes.order[j]));
        }
    }
    assert forall|j: int| i + 1 <= j < notes.order.len() implies v.notes[#[trigger] notes.order[j]]
        == notes.map[notes.order[j]] by {
        assert(notes.order.contains(notes.order[j]));
        assert(w.notes.contains_key(notes.order[j]));
    }
    assert forall|id: Seq<char>| #[trigger] v.files.contains_key(id) implies has_id(files, id) || (
    is_done(notes, v.files[id].0, i + 1) && after.map[v.files[id].0].id == id) by {
        if id == e.id {
            assert(has_id(files, id));
        } else {
            assert(w.files.contains_key(id));
            let q = w.files[id].0;
            lemma_done_more(notes, q, i);
            if is_done(notes, q, i) {
                let j = choose|j: int|
                    0 <= j < i && j < notes.order.len() && #[trigger] notes.order[j] == q;
                assert(q != p);
            }
        }
    }
    assert forall|g: int| 0 <= g < files.len() implies {
        let h = #[trigger] files[g];
        &&& seen.push(files[f].id).contains(h.id) <==> is_done(notes, h.name, i + 1)
        &&& is_done(notes, h.name, i + 1) ==> after.map[h.name].id == h.id
        &&& !seen.push(files[f].id).contains(h.id) ==> v.files[h.id].1 == h.mtime()
    } by {
        let h = files[g];
        lemma_pushed(seen, files[f].id, h.id);
        lemma_done_more(notes, h.name, i);
        if g != f {
            assert(h.name != files[f].name);
            assert(h.id != files[f].id);
        }
    }
    assert forall|q: Seq<char>| #[trigger]
        after.has(q) && v.files.contains_key(after.map[q].id) implies v.files[after.map[q].id].0
        == q by {
        if q != p {
            assert(index.has(q));
        }
    }
    assert forall|g: int| 0 <= g < files.len() implies {
        let h = #[trigger] files[g];
        &&& !h.is_folder()
        &&& is_shown(h.name)
        &&& v.files.contains_key(h.id)
        &&& v.files[h.id].0 == h.name
    } by {
        if g != f {
            assert(files[g].id != files[f].id);
        }
    }
}

/// Note `i` and a new file have become linked by the entry `e`.
proof fn lemma_linked_with_new(s: RunView, w: World, v: World, i: int, e: EntryView, ms: int)
    requires
        s.notes.wf(),
        grounded(s.index, s.files, w),
        0 <= i < s.notes.order.len(),
        linked_up_to(s.index, s.files, s.notes, s.touched, s.seen, w, i, i),
        forall|g: int| 0 <= g < s.files.len() ==> (#[trigger] s.files[g]).name != s.path(i),
        is_new(s, w, e.id),
        v == (World { files: w.files.insert(e.id, (s.path(i), ms)), ..w }),
        e.local_mtime_ms == s.local_ms(i),
        e.remote_mtime_ms == ms,
    ensures
        grounded(s.index.set(s.path(i), e), s.files, v),
        linked_up_to(
            s.index.set(s.path(i), e),
            s.files,
            s.notes,
            s.touched,
            s.seen,
            v,
            i + 1,
            i + 1,
        ),
{
    let p = s.path(i);
    let after = s.index.set(p, e);
    let notes = s.notes;
    assert(p == notes.order[i]);
    assert(notes.order.contains(p));
    assert(w.notes.contains_key(p));
    assert forall|j: int| 0 <= j < notes.order.len() && j != i implies #[trigger] notes.order[j]
        != p by {}
    assert(linked(after, v, p));
    assert forall|j: int| 0 <= j < i + 1 && j < notes.order.len() implies linked(
        after,
        v,
        #[trigger] notes.order[j],
    ) by {
        if j < i {
            assert(linked(s.index, w, notes.order[j]));
        }
    }
    assert forall|id: Seq<char>| #[trigger] v.files.contains_key(id) implies has_id(s.files, id)
        || (is_done(notes, v.files[id].0, i + 1) && after.map[v.files[id].0].id == id) by {
        lemma_done_more(notes, v.files[id].0, i);
        if id != e.id {
            assert(w.files.contains_key(id));
            let q = w.files[id].0;
            if is_done(notes, q, i) {
                let j = choose|j: int|
                    0 <= j < i && j < notes.order.len() && #[trigger] notes.order[j] == q;
                assert(q != p);
            }
        }
    }
    assert forall|g: int| 0 <= g < s.files.len() implies {
        let h = #[trigger] s.files[g];
        &&& s.seen.contains(h.id) <==> is_done(notes, h.name, i + 1)
        &&& is_done(notes, h.name, i + 1) ==> after.map[h.name].id == h.id
        &&& !s.seen.contains(h.id) ==> v.files[h.id].1 == h.mtime()
    } by {
        lemma_done_more(notes, s.files[g].name, i);
        assert(w.files.contains_key(s.files[g].id));
    }
    assert forall|q: Seq<char>| #[trigger]
        after.has(q) && v.files.contains_key(after.map[q].id) implies v.files[after.map[q].id].0
        == q by {
        if q != p {
            assert(s.index.has(q));
        }
    }
    assert forall|g: int| 0 <= g < s.files.len() implies {
        let h = #[trigger] s.files[g];
        &&& !h.is_folder()
        &&& is_shown(h.name)
        &&& v.files.contains_key(h.id)
        &&& v.files[h.id].0 == h.name
    } by {
        assert(w.files.contains_key(s.files[g].id));
    }
}

/// Where all that is there is linked and what is gone was deleted, both sides
/// are in step.
proof fn lemma_in_step(s: RunView, w: World)
    requires
        cleaned_up_to(s.index, s.notes, s.touched, s.gone, w, s.gone.len() as int),
        s.is_clean(),
    ensures
        in_step(s.index, w),
{
    assert forall|p: Seq<char>| #[trigger] s.index.has(p) implies linked(s.index, w, p) by {
        assert(!s.was_deleted(p));
        assert(s.touched.contains(p) || s.notes.has(p));
    }
    assert forall|p: Seq<char>| #[trigger] w.notes.contains_key(p) implies s.index.has(p) by {
        assert(s.touched.contains(p) || s.notes.has(p));
    }
    assert forall|id: Seq<char>| #[trigger] w.files.contains_key(id) implies s.index.has(
        w.files[id].0,
    ) && s.index.map[w.files[id].0].id == id by {
        let p = w.files[id].0;
        assert(s.touched.contains(p) || s.notes.has(p));
    }
}

proof fn lemma_from_clean_on_course(s: RunView, w: World)
    requires
        s.error is None,
        grounded(s.index, s.files, w),
        fetched_up_to(
            s.index,
            s.files,
            s.notes,
            s.touched,
            s.gone,
            s.revived,
            s.seen,
            w,
            s.files.len() as int,
            None,
        ),
        s.from_clean().wf(),
    ensures
        on_course(s.from_clean(), w),
{
    let t = s.from_clean();
    let pred = |e: (Seq<char>, Seq<char>)| s.is_due(e);
    sync_model::lemma_filter_sub(s.gone, pred);
    assert(t.gone == s.gone.filter(pred));
    assert forall|j: int| 0 <= j < t.gone.len() implies {
        let e = #[trigger] t.gone[j];
        &&& !s.notes.has(e.0)
        &&& !s.touched.contains(e.0)
        &&& w.files.contains_key(e.1) ==> w.files[e.1].0 == e.0
    } by {
        assert(s.gone.contains(t.gone[j]));
        let i = choose|i: int| 0 <= i < s.gone.len() && s.gone[i] == t.gone[j];
        assert(s.is_due(s.gone[i]));
        if s.touched.contains(s.gone[i].0) {
            let g = choose|g: int| 0 <= g < s.files.len() && (#[trigger] s.files[g]).id == s.gone[i].1;
            assert(s.files[g].id == s.gone[i].1);
        }
    }
    assert forall|id: Seq<char>| #[trigger] w.files.contains_key(id) implies {
        let p = w.files[id].0;
        ||| (s.notes.has(p) || s.touched.contains(p)) && s.index.map[p].id == id
        ||| exists|j: int| 0 <= j < t.gone.len() && (#[trigger] t.gone[j]).1 == id
    } by {
        if has_id(s.files, id) {
            let g = choose|g: int| 0 <= g < s.files.len() && (#[trigger] s.files[g]).id == id;
            if is_gone_id(s.gone, id) && !s.revived.contains(id) {
                let j = choose|j: int| 0 <= j < s.gone.len() && (#[trigger] s.gone[j]).1 == id;
                assert(s.is_listed(id)) by {
                    assert(s.files[g].id == id);
                }
                assert(s.gone.contains(s.gone[j]));
                assert(pred(s.gone[j]));
                assert(t.gone.contains(s.gone[j]));
                let i = choose|i: int| 0 <= i < t.gone.len() && t.gone[i] == s.gone[j];
                assert(t.gone[i].1 == id);
            } else {
                assert(w.files[id].0 == s.files[g].name);
            }
        }
    }
    assert(cleaned_up_to(t.index, t.notes, t.touched, t.gone, w, 0));
    if t.gone.len() == 0 {
        lemma_in_step(t, w);
    }
}

proof fn lemma_from_fetch_on_course(s: RunView, w: World, f: int)
    requires
        s.error is None,
        0 <= f <= s.files.len(),
        grounded(s.index, s.files, w),
        fetched_up_to(s.index, s.files, s.notes, s.touched, s.gone, s.revived, s.seen, w, f, None),
        s.from_fetch(f).wf(),
    ensures
        on_course(s.from_fetch(f), w),
    decreases s.files.len() - f,
{
    if f >= s.files.len() {
        lemma_from_clean_on_course(s, w);
    } else if !s.only_remote(f) {
        assert(!s.files[f].is_folder());
        if s.is_gone(s.files[f].id) {
            assert(is_gone_id(s.gone, s.files[f].id));
        }
        lemma_from_fetch_on_course(s, w, f + 1);
    }
}

/// Once all notes are linked, the rest of Drive is looked at.
proof fn lemma_notes_are_linked(s: RunView, w: World)
    requires
        s.index.wf(),
        s.notes.wf(),
        s.error is None,
        s.renames.len() == 0,
        grounded(s.index, s.files, w),
        linked_up_to(
            s.index,
            s.files,
            s.notes,
            s.touched,
            s.seen,
            w,
            s.notes.order.len() as int,
            s.notes.order.len() as int,
        ),
        s.from_rename(0).wf(),
    ensures
        on_course(s.from_rename(0), w),
{
    let u = s.with_gone();
    let n = s.notes.order.len() as int;
    sync_model::with_gone_knows_all(s);
    assert forall|p: Seq<char>| s.notes.has(p) <==> #[trigger] is_done(s.notes, p, n) by {
        assert(s.notes.order.contains(p) <==> s.notes.has(p));
        if s.notes.has(p) {
            let j = choose|j: int| 0 <= j < s.notes.order.len() && s.notes.order[j] == p;
            assert(s.notes.order[j] == p);
        }
    }
    assert forall|p: Seq<char>| #[trigger] s.notes.has(p) implies linked(s.index, w, p) by {
        assert(is_done(s.notes, p, n));
    }
    assert forall|p: Seq<char>| #[trigger] s.touched.contains(p) implies linked(s.index, w, p) by {
        assert(s.notes.has(p));
    }
    assert forall|j: int| 0 <= j < u.gone.len() implies {
        let e = #[trigger] u.gone[j];
        &&& !s.notes.has(e.0)
        &&& w.files.contains_key(e.1) ==> w.files[e.1].0 == e.0
        &&& s.touched.contains(e.0) && has_id(s.files, e.1) ==> u.revived.contains(e.1)
    } by {
        let e = u.gone[j];
        assert(s.index.has(e.0) && s.was_deleted(e.0));
    }
    assert(fetched_up_to(u.index, u.files, u.notes, u.touched, u.gone, u.revived, u.seen, w, 0, None));
    lemma_from_fetch_on_course(u, w, 0);
}

proof fn lemma_from_note_on_course(s: RunView, w: World, i: int)
    requires
        s.index.wf(),
        s.notes.wf(),
        s.error is None,
        s.conflicts == 0,
        s.renames.len() == 0,
        0 <= i <= s.notes.order.len(),
        grounded(s.index, s.files, w),
        linked_up_to(s.index, s.files, s.notes, s.touched, s.seen, w, i, i),
        s.from_note(i).wf(),
    ensures
        on_course(s.from_note(i), w),
    decreases s.notes.order.len() - i,
{
    if i >= s.notes.order.len() {
        lemma_notes_are_linked(s, w);
    } else {
        let p = s.path(i);
        let t = s.from_note(i);
        assert(s.notes.order.contains(p));
        assert(w.notes.contains_key(p));
        plan::counterpart_is_justified(s.index.get(p), s.files, p);
        match s.counterpart(i) {
            Some((f, by_id)) => {
                let id = s.files[f].id;
                if by_id {
                    assert(s.index.has(p));
                    assert(w.files.contains_key(id));
                }
                assert(s.files[f].name == p);
                if s.plan(i) is Keep {
                    let e = EntryView { id, ..s.index.map[p] };
                    let u = s.noticed(i, f, by_id, false).recorded(p, e);
                    assert(!is_done(s.notes, p, i));
                    assert(w.files[id] == (p, s.files[f].mtime()));
                    assert(w.files.insert(id, (p, s.files[f].mtime())) =~= w.files);
                    s.index.set_wf(p, e);
                    lemma_linked_with_file(
                        s.index,
                        s.files,
                        s.notes,
                        s.touched,
                        s.touched,
                        s.seen,
                        w,
                        w,
                        i,
                        i,
                        f,
                        e,
                        s.files[f].mtime(),
                    );
                    lemma_from_note_on_course(u, w, i + 1);
                } else {
                    assert(t.seen.drop_last() =~= s.seen);
                }
            },
            None => {
                remote::name_position_is_first(s.files, p);
            },
        }
    }
}

proof fn lemma_from_fetch_conflicts(s: RunView, f: int)
    requires
        0 <= f,
    ensures
        s.from_fetch(f).conflicts == s.conflicts,
    decreases s.files.len() - f,
{
    if f < s.files.len() && !s.only_remote(f) {
        lemma_from_fetch_conflicts(s, f + 1);
    }
}

proof fn lemma_from_note_conflicts(s: RunView, i: int)
    requires
        0 <= i,
    ensures
        s.from_note(i).conflicts >= s.conflicts,
    decreases s.notes.order.len() - i,
{
    lemma_from_fetch_conflicts(s.with_gone(), 0);
    if i < s.notes.order.len() {
        match (s.plan(i), s.counterpart(i)) {
            (Plan::Keep, Some((f, by_id))) => {
                let e = EntryView { id: s.files[f].id, ..s.index.map[s.path(i)] };
                lemma_from_note_conflicts(
                    s.noticed(i, f, by_id, false).recorded(s.path(i), e),
                    i + 1,
                );
            },
            _ => {},
        }
    }
}

/// A conflict stays counted, and a failure stays known.
proof fn lemma_trouble_stays(s: RunView, reply: ReplyView)
    requires
        s.wf(),
        s.accepts(reply),
    ensures
        s.after(reply).conflicts >= s.conflicts,
        s.error is Some ==> s.after(reply).error is Some,
{
    match (s.phase, reply) {
        (PhaseView::Scanning, ReplyView::Scanned { notes }) => {
            lemma_from_note_conflicts(RunView { notes, ..s }, 0);
        },
        (PhaseView::Creating(i), ReplyView::Uploaded { id, ms, chars }) => {
            let e = EntryView { id, local_mtime_ms: s.local_ms(i), remote_mtime_ms: ms };
            lemma_from_note_conflicts(s.recorded(s.path(i), e).one_up(chars), i + 1);
        },
        (PhaseView::Pushing(i, f), ReplyView::Updated { ms, chars }) => {
            let e = EntryView {
                id: s.files[f].id,
                local_mtime_ms: s.local_ms(i),
                remote_mtime_ms: ms,
            };
            lemma_from_note_conflicts(s.recorded(s.path(i), e).one_up(chars), i + 1);
        },
        (PhaseView::Dating(i, _), _) => {
            lemma_from_note_conflicts(s, i + 1);
        },
        (PhaseView::Probing(n), ReplyView::Probed { .. }) => {
            lemma_from_fetch_conflicts(s.with_gone(), 0);
        },
        (PhaseView::Renaming(n), ReplyView::Renamed { mtime }) => {
            lemma_from_fetch_conflicts(s.renamed(n, mtime).with_gone(), 0);
        },
        (PhaseView::DatingFetched(f), _) => {
            lemma_from_fetch_conflicts(s, f + 1);
        },
        _ => {},
    }
}

/// A sync begins on course where no file was renamed on Drive, there are no
/// folders, and a listing shows what is written under the names on Drive.
pub proof fn begun_is_on_course(index: Shelf<EntryView>, listed: Seq<FileView>, w: World)
    requires
        lists(w, listed),
        none_renamed(index, w),
        forall|i: int| 0 <= i < listed.len() ==> is_shown((#[trigger] listed[i]).name),
    ensures
        on_course(sync_model::begun(index, listed), w),
{
    broadcast use vstd::seq_lib::group_to_multiset_ensures;

    let s = sync_model::begun(index, listed);
    let d = remote::dedup(index, listed);
    remote::dedup_keeps_each_name_once(index, listed);
    remote::dedup_loses_nothing(index, listed);
    assert forall|g: int| 0 <= g < s.files.len() implies {
        let f = #[trigger] s.files[g];
        &&& listed.contains(f)
        &&& !f.is_folder()
        &&& is_shown(f.name)
        &&& w.files.contains_key(f.id)
        &&& w.files[f.id] == (f.name, f.mtime())
        &&& !s.doomed.contains(f.id)
    } by {
        assert(listed.contains(d.kept[g]));
        let i = choose|i: int| 0 <= i < listed.len() && listed[i] == s.files[g];
        assert(listed[i] == s.files[g]);
        remote::dedup_spares_what_it_keeps(index, listed, g);
    }
    assert forall|g: int, h: int| 0 <= g < s.files.len() && 0 <= h < s.files.len() && g
        != h implies #[trigger] s.files[g].id != #[trigger] s.files[h].id by {
        assert(d.kept[g].name != d.kept[h].name);
        assert(listed.contains(s.files[g]) && listed.contains(s.files[h]));
        let i = choose|i: int| 0 <= i < listed.len() && listed[i] == s.files[g];
        let j = choose|j: int| 0 <= j < listed.len() && listed[j] == s.files[h];
        assert(i != j);
        assert(listed[i].id != listed[j].id);
    }
    assert forall|id: Seq<char>| #[trigger] w.files.contains_key(id) implies has_id(s.files, id)
        || exists|j: int| 0 <= j < s.doomed.len() && #[trigger] s.doomed[j] == id by {
        let i = choose|i: int| 0 <= i < listed.len() && (#[trigger] listed[i]).id == id;
        assert(remote::ids(listed)[i] == id);
        assert(remote::ids(listed).contains(id));
        assert(remote::ids(listed).to_multiset().count(id) == remote::ids(
            d.kept,
        ).to_multiset().count(id) + d.doomed.to_multiset().count(id));
        if d.doomed.contains(id) {
            let j = choose|j: int| 0 <= j < d.doomed.len() && d.doomed[j] == id;
            assert(s.doomed[j] == id);
        } else {
            assert(remote::ids(d.kept).contains(id));
            let g = choose|g: int|
                0 <= g < remote::ids(d.kept).len() && remote::ids(d.kept)[g] == id;
            assert(s.files[g].id == id);
        }
    }
}

proof fn lemma_purging_on_course(s: RunView, w: World, v: World, k: int)
    requires
        s.wf(),
        s.phase == PhaseView::Purging(k),
        s.error is None,
        s.conflicts == 0,
        on_course(s, w),
        v == (World { files: w.files.remove(s.doomed[k]), ..w }),
    ensures
        on_course(s.after(ReplyView::Done), v),
{
    let x = s.doomed[k];
    assert(s.doomed.contains(x));
    assert forall|g: int| 0 <= g < s.files.len() implies (#[trigger] s.files[g]).id != x by {
        assert(!s.doomed.contains(s.files[g].id));
    }
    assert forall|id: Seq<char>| #[trigger] v.files.contains_key(id) implies has_id(s.files, id)
        || exists|j: int| k + 1 <= j < s.doomed.len() && #[trigger] s.doomed[j] == id by {
        assert(w.files.contains_key(id));
        if !has_id(s.files, id) {
            let j = choose|j: int| k <= j < s.doomed.len() && #[trigger] s.doomed[j] == id;
            assert(j != k);
        }
    }
    assert(none_renamed(s.index, v));
    let t = s.after(ReplyView::Done);
    assert(purged_from(t, v, k + 1)) by {
        assert forall|g: int| 0 <= g < t.files.len() implies {
            let f = #[trigger] t.files[g];
            &&& v.files[f.id].1 == f.mtime()
            &&& !t.doomed.contains(f.id)
        } by {
            assert(s.files[g] == t.files[g]);
            assert(w.files[s.files[g].id].1 == s.files[g].mtime());
        }
    }
    assert(grounded(t.index, t.files, v));
}

proof fn lemma_scanning_on_course(s: RunView, w: World, notes: Shelf<u64>)
    requires
        s.wf(),
        s.phase is Scanning,
        s.error is None,
        s.conflicts == 0,
        on_course(s, w),
        s.accepts(ReplyView::Scanned { notes }),
        notes.map == w.notes,
    ensures
        on_course(s.after(ReplyView::Scanned { notes }), w),
{
    let u = RunView { notes, ..s };
    assert forall|g: int| 0 <= g < u.files.len() implies {
        let f = #[trigger] u.files[g];
        &&& u.seen.contains(f.id) <==> is_done(notes, f.name, 0)
        &&& is_done(notes, f.name, 0) ==> u.index.map[f.name].id == f.id
        &&& !u.seen.contains(f.id) ==> w.files[f.id].1 == f.mtime()
    } by {
        assert(s.files[g] == u.files[g]);
        assert(w.files[s.files[g].id].1 == s.files[g].mtime());
    }
    assert(linked_up_to(u.index, u.files, u.notes, u.touched, u.seen, w, 0, 0));
    sync_model::after_wf(s, ReplyView::Scanned { notes });
    lemma_from_note_on_course(u, w, 0);
}

proof fn lemma_pushing_on_course(
    s: RunView,
    w: World,
    v: World,
    i: int,
    f: int,
    ms: u64,
    chars: u64,
)
    requires
        s.wf(),
        s.phase == PhaseView::Pushing(i, f),
        s.error is None,
        s.conflicts == 0,
        on_course(s, w),
        s.accepts(ReplyView::Updated { ms, chars }),
        v == (World {
            files: w.files.insert(s.files[f].id, (w.files[s.files[f].id].0, ms as int)),
            ..w
        }),
    ensures
        on_course(s.after(ReplyView::Updated { ms, chars }), v),
{
    let p = s.path(i);
    let e = EntryView { id: s.files[f].id, local_mtime_ms: s.local_ms(i), remote_mtime_ms: ms };
    let before = s.seen.drop_last();
    let u = s.recorded(p, e).one_up(chars);
    assert(p == s.notes.order[i]);
    assert(s.notes.order.contains(p));
    assert(w.notes.contains_key(p));
    assert(w.files.contains_key(s.files[f].id));
    assert(before.push(s.files[f].id) =~= s.seen);
    s.index.set_wf(p, e);
    lemma_linked_with_file(
        s.index,
        s.files,
        s.notes,
        s.touched,
        s.touched,
        before,
        w,
        v,
        i,
        i,
        f,
        e,
        ms as int,
    );
    sync_model::after_wf(s, ReplyView::Updated { ms, chars });
    lemma_from_note_on_course(u, v, i + 1);
}

proof fn lemma_pulling_on_course(s: RunView, w: World, v: World, i: int, f: int, chars: u64)
    requires
        s.wf(),
        s.phase == PhaseView::Pulling(i, f),
        s.error is None,
        s.conflicts == 0,
        on_course(s, w),
        s.accepts(ReplyView::Downloaded { chars }),
        rewritten(w, v, s.path(i)),
    ensures
        on_course(s.after(ReplyView::Downloaded { chars }), v),
{
    let p = s.path(i);
    let e = s.level_entry(f);
    let t = s.after(ReplyView::Downloaded { chars });
    let notes = s.notes;
    let seen = s.seen.drop_last();
    assert(p == notes.order[i]);
    assert(notes.order.contains(p));
    assert(w.files.contains_key(s.files[f].id));
    assert forall|j: int| 0 <= j < notes.order.len() && j != i implies #[trigger] notes.order[j]
        != p by {}
    assert forall|j: int| 0 <= j < i && j < notes.order.len() implies linked(
        t.index,
        v,
        #[trigger] notes.order[j],
    ) by {
        assert(linked(s.index, w, notes.order[j]));
    }
    assert forall|j: int| i + 1 <= j < notes.order.len() implies v.notes[#[trigger] notes.order[j]]
        == notes.map[notes.order[j]] by {
        assert(notes.order.contains(notes.order[j]));
        assert(w.notes.contains_key(notes.order[j]));
    }
    assert forall|q: Seq<char>| #[trigger] v.notes.contains_key(q) <==> notes.has(q) by {
        assert(w.notes.contains_key(q) <==> notes.has(q));
    }
    assert forall|q: Seq<char>| is_done(notes, q, i) implies q != p by {
        let j = choose|j: int| 0 <= j < i && j < notes.order.len() && #[trigger] notes.order[j] == q;
        assert(notes.order[j] != p);
    }
    assert forall|id: Seq<char>| #[trigger] v.files.contains_key(id) implies has_id(s.files, id) || (
    is_done(notes, v.files[id].0, i) && t.index.map[v.files[id].0].id == id) by {
        assert(w.files.contains_key(id));
    }
    assert forall|q: Seq<char>| #[trigger] t.touched.contains(q) implies notes.has(q) by {
        lemma_pushed(s.touched, p, q);
    }
    assert(t.seen.drop_last() == seen);
    assert forall|q: Seq<char>| #[trigger]
        t.index.has(q) && v.files.contains_key(t.index.map[q].id) implies v.files[t.index.map[q].id].0
        == q by {
        if q != p {
            assert(s.index.has(q));
        }
    }
}

proof fn lemma_dating_on_course(s: RunView, w: World, v: World, i: int, f: int)
    requires
        s.wf(),
        s.phase == PhaseView::Dating(i, f),
        s.error is None,
        s.conflicts == 0,
        on_course(s, w),
        rewritten(w, v, s.path(i)),
        !plan::differs(v.notes[s.path(i)] as int, s.files[f].mtime()),
    ensures
        on_course(s.after(ReplyView::Done), v),
{
    let p = s.path(i);
    let e = s.level_entry(f);
    let before = s.seen.drop_last();
    let id = s.files[f].id;
    assert(p == s.notes.order[i]);
    assert(s.notes.order.contains(p));
    assert(w.files.contains_key(id));
    assert(before.push(id) =~= s.seen);
    assert(s.index.map.insert(p, e) =~= s.index.map);
    assert(s.index.set(p, e) == s.index);
    assert(!is_done(s.notes, p, i));
    assert(w.files[id] == (p, s.files[f].mtime()));
    assert(w.files.insert(id, (p, s.files[f].mtime())) =~= w.files);
    assert forall|q: Seq<char>| #[trigger] v.notes.contains_key(q) <==> w.notes.contains_key(q) by {
        if q == p {
            assert(s.notes.has(p));
            assert(w.notes.contains_key(p));
        }
    }
    lemma_linked_with_file(
        s.index,
        s.files,
        s.notes,
        s.touched,
        s.touched,
        before,
        w,
        v,
        i,
        i + 1,
        f,
        e,
        s.files[f].mtime(),
    );
    sync_model::after_wf(s, ReplyView::Done);
    lemma_from_note_on_course(s, v, i + 1);
}

proof fn lemma_fetching_on_course(s: RunView, w: World, v: World, f: int, chars: u64)
    requires
        s.wf(),
        s.phase == PhaseView::Fetching(f),
        s.error is None,
        s.conflicts == 0,
        on_course(s, w),
        s.accepts(ReplyView::Downloaded { chars }),
        rewritten(w, v, s.files[f].name),
    ensures
        on_course(s.after(ReplyView::Downloaded { chars }), v),
{
    let name = s.files[f].name;
    let t = s.after(ReplyView::Downloaded { chars });
    assert(!s.seen.contains(s.files[f].id));
    assert(!s.notes.has(name));
    assert(w.files.contains_key(s.files[f].id));
    assert forall|p: Seq<char>| #[trigger] t.touched.contains(p) <==> s.touched.contains(p) || p
        == name by {
        lemma_pushed(s.touched, name, p);
    }
    assert forall|p: Seq<char>| #[trigger] s.notes.has(p) implies linked(t.index, v, p) by {
        assert(linked(s.index, w, p));
    }
    assert forall|p: Seq<char>| #[trigger] t.touched.contains(p) && Some(p) != Some(
        name,
    ) implies linked(t.index, v, p) by {
        assert(s.touched.contains(p));
        assert(linked(s.index, w, p));
    }
    assert forall|p: Seq<char>| #[trigger] v.notes.contains_key(p) <==> s.notes.has(p)
        || t.touched.contains(p) by {
        assert(w.notes.contains_key(p) <==> s.notes.has(p) || s.touched.contains(p));
    }
    assert forall|g: int| 0 <= g < s.files.len() implies {
        let h = #[trigger] s.files[g];
        &&& t.seen.contains(h.id) <==> t.notes.has(h.name)
        &&& t.notes.has(h.name) ==> t.index.map[h.name].id == h.id
        &&& !t.seen.contains(h.id) ==> v.files[h.id].1 == h.mtime()
        &&& g < f ==> t.seen.contains(h.id) || (is_gone_id(t.gone, h.id) && !t.revived.contains(
            h.id,
        )) || (t.touched.contains(h.name) && t.index.map[h.name].id == h.id)
    } by {
        if g < f {
            assert(s.files[g].name != s.files[f].name);
        }
    }
    assert forall|j: int| 0 <= j < t.gone.len() implies {
        let e = #[trigger] t.gone[j];
        &&& !t.notes.has(e.0)
        &&& v.files.contains_key(e.1) ==> v.files[e.1].0 == e.0
        &&& t.touched.contains(e.0) && has_id(t.files, e.1) ==> t.revived.contains(e.1)
    } by {
        let e = s.gone[j];
        assert(t.gone[j] == e);
        if e.0 == name && has_id(s.files, e.1) {
            let g = choose|g: int| 0 <= g < s.files.len() && (#[trigger] s.files[g]).id == e.1;
            assert(s.files[g].name == name);
            assert(g == f);
            assert(s.is_gone(s.files[f].id)) by {
                assert(s.gone[j].1 == s.files[f].id);
            }
        }
    }
    assert forall|q: Seq<char>| #[trigger]
        t.index.has(q) && v.files.contains_key(t.index.map[q].id) implies v.files[t.index.map[q].id].0
        == q by {
        if q != name {
            assert(s.index.has(q));
        }
    }
}

proof fn lemma_dating_fetched_on_course(s: RunView, w: World, v: World, f: int)
    requires
        s.wf(),
        s.phase == PhaseView::DatingFetched(f),
        s.error is None,
        s.conflicts == 0,
        on_course(s, w),
        rewritten(w, v, s.files[f].name),
        !plan::differs(v.notes[s.files[f].name] as int, s.files[f].mtime()),
    ensures
        on_course(s.after(ReplyView::Done), v),
{
    let name = s.files[f].name;
    assert(w.files.contains_key(s.files[f].id));
    assert(!s.seen.contains(s.files[f].id));
    assert(linked(s.index, v, name));
    assert forall|p: Seq<char>| #[trigger] s.notes.has(p) implies linked(s.index, v, p) by {
        assert(linked(s.index, w, p));
    }
    assert forall|p: Seq<char>| #[trigger] s.touched.contains(p) implies linked(s.index, v, p) by {
        if p != name {
            assert(linked(s.index, w, p));
        }
    }
    assert forall|p: Seq<char>| #[trigger] v.notes.contains_key(p) <==> s.notes.has(p)
        || s.touched.contains(p) by {
        assert(w.notes.contains_key(p) <==> s.notes.has(p) || s.touched.contains(p));
    }
    assert(fetched_up_to(
        s.index,
        s.files,
        s.notes,
        s.touched,
        s.gone,
        s.revived,
        s.seen,
        v,
        f + 1,
        None,
    ));
    sync_model::after_wf(s, ReplyView::Done);
    lemma_from_fetch_on_course(s, v, f + 1);
}

proof fn lemma_cleaning_on_course(s: RunView, w: World, v: World, k: int)
    requires
        s.wf(),
        s.phase == PhaseView::Cleaning(k),
        s.error is None,
        s.conflicts == 0,
        on_course(s, w),
        v == (World { files: w.files.remove(s.gone[k].1), ..w }),
    ensures
        on_course(s.after(ReplyView::Done), v),
{
    let (p, x) = s.gone[k];
    let t = s.after(ReplyView::Done);
    assert(!s.notes.has(p) && !s.touched.contains(p));
    assert forall|q: Seq<char>| linked(s.index, w, q) && q != p implies #[trigger] linked(
        t.index,
        v,
        q,
    ) by {}
    assert forall|id: Seq<char>| #[trigger] v.files.contains_key(id) implies {
        let q = v.files[id].0;
        ||| (t.notes.has(q) || t.touched.contains(q)) && t.index.map[q].id == id
        ||| exists|j: int| k + 1 <= j < t.gone.len() && (#[trigger] t.gone[j]).1 == id
    } by {
        assert(w.files.contains_key(id));
        let q = w.files[id].0;
        if !((s.notes.has(q) || s.touched.contains(q)) && s.index.map[q].id == id) {
            let j = choose|j: int| k <= j < s.gone.len() && (#[trigger] s.gone[j]).1 == id;
            assert(j != k);
            assert(t.gone[j].1 == id);
        }
    }
    assert forall|j: int| 0 <= j < t.gone.len() implies {
        let e = #[trigger] t.gone[j];
        &&& !t.notes.has(e.0)
        &&& !t.touched.contains(e.0)
        &&& v.files.contains_key(e.1) ==> v.files[e.1].0 == e.0
    } by {
        assert(t.gone[j] == s.gone[j]);
    }
    assert(cleaned_up_to(t.index, t.notes, t.touched, t.gone, v, k + 1));
    sync_model::after_wf(s, ReplyView::Done);
    if k + 1 >= s.gone.len() {
        lemma_in_step(t, v);
    }
}

/// Every step that takes place keeps a sync on course.
pub proof fn after_stays_on_course(s: RunView, w: World, reply: ReplyView, v: World)
    requires
        s.wf(),
        s.accepts(reply),
        on_course(s, w),
        takes_place(s, w, reply, v),
    ensures
        on_course(s.after(reply), v),
{
    lemma_trouble_stays(s, reply);
    if s.after(reply).error is None && s.after(reply).conflicts == 0 {
        match (s.phase, reply) {
            (PhaseView::Purging(k), _) => {
                lemma_purging_on_course(s, w, v, k);
            },
            (PhaseView::Scanning, ReplyView::Scanned { notes }) => {
                lemma_scanning_on_course(s, w, notes);
            },
            (PhaseView::Creating(i), ReplyView::Uploaded { id, ms, chars }) => {
                let e = EntryView { id, local_mtime_ms: s.local_ms(i), remote_mtime_ms: ms };
                s.index.set_wf(s.path(i), e);
                lemma_linked_with_new(s, w, v, i, e, ms as int);
                sync_model::after_wf(s, reply);
                lemma_from_note_on_course(s.recorded(s.path(i), e).one_up(chars), v, i + 1);
            },
            (PhaseView::Pushing(i, f), ReplyView::Updated { ms, chars }) => {
                lemma_pushing_on_course(s, w, v, i, f, ms, chars);
            },
            (PhaseView::Pulling(i, f), ReplyView::Downloaded { chars }) => {
                assert(s.notes.order.contains(s.path(i)));
                assert(w.notes.contains_key(s.path(i)));
                lemma_pulling_on_course(s, w, v, i, f, chars);
            },
            (PhaseView::Dating(i, f), _) => {
                assert(s.notes.order.contains(s.path(i)));
                assert(w.notes.contains_key(s.path(i)));
                lemma_dating_on_course(s, w, v, i, f);
            },
            (PhaseView::Fetching(f), ReplyView::Downloaded { chars }) => {
                assert(is_shown(s.files[f].name));
                lemma_fetching_on_course(s, w, v, f, chars);
            },
            (PhaseView::DatingFetched(f), _) => {
                assert(is_shown(s.files[f].name));
                lemma_dating_fetched_on_course(s, w, v, f);
            },
            (PhaseView::Cleaning(k), _) => {
                lemma_cleaning_on_course(s, w, v, k);
            },
            _ => {},
        }
    }
}

// ---------------------------------------------------------------------------
// One sync after the other
// ---------------------------------------------------------------------------

/// The course of a sync: its states, what stood on both sides in each, and the
/// replies that led from one to the next.
pub struct Course {
    pub states: Seq<RunView>,
    pub worlds: Seq<World>,
    pub replies: Seq<ReplyView>,
}

impl Course {
    /// Each reply answers what was asked and leads to the next state, and what
    /// it tells of took place.
    pub open spec fn runs(self) -> bool {
        &&& self.states.len() == self.replies.len() + 1
        &&& self.worlds.len() == self.states.len()
        &&& forall|k: int|
            0 <= k < self.replies.len() ==> {
                let s = #[trigger] self.states[k];
                &&& s.accepts(self.replies[k])
                &&& self.states[k + 1] == s.after(self.replies[k])
                &&& takes_place(s, self.worlds[k], self.replies[k], self.worlds[k + 1])
            }
    }
}

proof fn lemma_course(c: Course, k: int)
    requires
        c.runs(),
        c.states[0].wf(),
        on_course(c.states[0], c.worlds[0]),
        0 <= k < c.states.len(),
    ensures
        c.states[k].wf(),
        on_course(c.states[k], c.worlds[k]),
    decreases k,
{
    if k > 0 {
        lemma_course(c, k - 1);
        let s = c.states[k - 1];
        sync_model::after_wf(s, c.replies[k - 1]);
        after_stays_on_course(s, c.worlds[k - 1], c.replies[k - 1], c.worlds[k]);
    }
}

/// A sync that ended well and without conflicts leaves both sides as its index
/// has them.
pub proof fn a_sync_that_ended_well_is_in_step(
    index: Shelf<EntryView>,
    listed: Seq<FileView>,
    c: Course,
    r: ResultView,
)
    requires
        index.wf(),
        c.runs(),
        c.states[0] == sync_model::begun(index, listed),
        lists(c.worlds[0], listed),
        none_renamed(index, c.worlds[0]),
        forall|i: int| 0 <= i < listed.len() ==> is_shown((#[trigger] listed[i]).name),
        c.states.last().pending() == (ActionView::Finish { outcome: Ok(r) }),
        r.conflicts == 0,
    ensures
        c.states.last().index.wf(),
        in_step(c.states.last().index, c.worlds.last()),
{
    sync_model::begun_wf(index, listed);
    begun_is_on_course(index, listed, c.worlds[0]);
    lemma_course(c, c.states.len() - 1);
}

/// After a sync that ended well and without conflicts, where everything that it
/// asked for was done, a second one does nothing: with nothing changed since, it
/// transfers and deletes nothing, leaves the index as it is, and reports that it
/// had nothing to do.
pub proof fn a_second_sync_does_nothing(
    index: Shelf<EntryView>,
    listed: Seq<FileView>,
    c: Course,
    r: ResultView,
    relisted: Seq<FileView>,
    notes: Shelf<u64>,
)
    requires
        index.wf(),
        c.runs(),
        c.states[0] == sync_model::begun(index, listed),
        lists(c.worlds[0], listed),
        none_renamed(index, c.worlds[0]),
        forall|i: int| 0 <= i < listed.len() ==> is_shown((#[trigger] listed[i]).name),
        c.states.last().pending() == (ActionView::Finish { outcome: Ok(r) }),
        r.conflicts == 0,
        lists(c.worlds.last(), relisted),
        notes.wf(),
        notes.map == c.worlds.last().notes,
        notes.order.len() + relisted.len() <= u32::MAX,
    ensures
        ({
            let s = sync_model::begun(c.states.last().index, relisted);
            let t = s.after(ReplyView::Scanned { notes });
            &&& s.pending() == ActionView::ScanNotes
            &&& s.accepts(ReplyView::Scanned { notes })
            &&& t.pending() == ActionView::SaveIndex
            &&& t.after(ReplyView::Done).index == c.states.last().index
            &&& t.after(ReplyView::Done).pending() == (ActionView::Finish {
                outcome: Ok(
                    ResultView {
                        uploaded: 0,
                        downloaded: 0,
                        conflicts: 0,
                        chars_synced: 0,
                        summary: "Already up to date"@,
                    },
                ),
            })
        }),
{
    a_sync_that_ended_well_is_in_step(index, listed, c, r);
    a_sync_in_step_does_nothing(c.states.last().index, c.worlds.last(), relisted, notes);
}

} // verus!
