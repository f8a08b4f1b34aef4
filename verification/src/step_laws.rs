//! What a sync does with each note and each file, step by step.

use crate::index::{EntryView, SyncFileEntry};
use crate::pathmap::Shelf;
use crate::plan;
use crate::plan::Plan;
use crate::remote;
use crate::remote::{DriveFile, FileView};
use crate::sync::{Action, Reply, SyncResult};
use crate::sync_laws;
use crate::sync_model;
use crate::sync_model::{ActionView, PhaseView, ReplyView, ResultView, RunView};
use crate::text;
use vstd::prelude::*;

verus! {

// ---------------------------------------------------------------------------
// Deciding
// ---------------------------------------------------------------------------

/// Times differ where a full second lies between them, and more.
pub proof fn a_second_is_tolerated(a: int, b: int)
    ensures
        plan::differs(a, b) <==> a > b + 1000 || b > a + 1000,
{
}

/// A note that Drive does not have is uploaded.
pub proof fn what_drive_lacks_is_uploaded(entry: Option<EntryView>, local_ms: int)
    ensures
        plan::plan(entry, local_ms, None) == Plan::Create,
{
}

/// A note that the index does not know meets a file of its name: the one that
/// changed later replaces the other, the file on a tie.
pub proof fn the_later_version_wins(local_ms: int, f: FileView)
    ensures
        local_ms > f.mtime() ==> plan::plan(None, local_ms, Some(f)) == (Plan::Push {
            rescue: false,
        }),
        local_ms <= f.mtime() ==> plan::plan(None, local_ms, Some(f)) == (Plan::Pull {
            rescue: false,
        }),
{
}

/// A note that the index knows: the side that changed since replaces the other;
/// where both did, the later one does, the file on a tie, and the other is copied
/// first; where neither did, both stay.
pub proof fn what_changed_replaces_what_did_not(e: EntryView, local_ms: int, f: FileView)
    ensures
        ({
            let here = local_ms > e.local_mtime_ms + 1000 || e.local_mtime_ms > local_ms + 1000;
            let there = f.mtime() > e.remote_mtime_ms + 1000 || e.remote_mtime_ms > f.mtime()
                + 1000;
            plan::plan(Some(e), local_ms, Some(f)) == if here && there {
                if local_ms > f.mtime() {
                    Plan::Push { rescue: true }
                } else {
                    Plan::Pull { rescue: true }
                }
            } else if here {
                Plan::Push { rescue: false }
            } else if there {
                Plan::Pull { rescue: false }
            } else {
                Plan::Keep
            }
        }),
{
}

proof fn lemma_id_from(files: Seq<FileView>, id: Seq<char>, i: int)
    requires
        0 <= i,
    ensures
        match plan::id_from(files, id, i) {
            Some(k) => i <= k < files.len() && files[k].id == id && forall|j: int|
                i <= j < k ==> (#[trigger] files[j]).id != id,
            None => forall|j: int| i <= j < files.len() ==> (#[trigger] files[j]).id != id,
        },
    decreases files.len() - i,
{
    if i < files.len() && files[i].id != id {
        lemma_id_from(files, id, i + 1);
    }
}

/// The file of a note is the one with the id that the index has for it.
pub proof fn the_indexed_file_is_found(
    e: EntryView,
    files: Seq<FileView>,
    path: Seq<char>,
    f: int,
)
    requires
        0 <= f < files.len(),
        files[f].id == e.id,
        forall|j: int| 0 <= j < f ==> (#[trigger] files[j]).id != e.id,
    ensures
        plan::counterpart(Some(e), files, path) == Some((f, true)),
{
    lemma_id_from(files, e.id, 0);
}

/// Where no file has that id, or the index does not know the note, it is the one
/// with the name of the note.
pub proof fn otherwise_the_file_of_that_name_is_found(
    entry: Option<EntryView>,
    files: Seq<FileView>,
    path: Seq<char>,
    f: int,
)
    requires
        entry matches Some(e) ==> forall|j: int|
            0 <= j < files.len() ==> (#[trigger] files[j]).id != e.id,
        0 <= f < files.len(),
        files[f].name == path,
        forall|j: int| 0 <= j < f ==> (#[trigger] files[j]).name != path,
    ensures
        plan::counterpart(entry, files, path) == Some((f, false)),
{
    if entry is Some {
        lemma_id_from(files, entry->0.id, 0);
    }
    remote::name_position_is_first(files, path);
}

/// Without either, Drive does not have the note.
pub proof fn without_either_there_is_no_file(
    entry: Option<EntryView>,
    files: Seq<FileView>,
    path: Seq<char>,
)
    requires
        entry matches Some(e) ==> forall|j: int|
            0 <= j < files.len() ==> (#[trigger] files[j]).id != e.id,
        forall|j: int| 0 <= j < files.len() ==> (#[trigger] files[j]).name != path,
    ensures
        plan::counterpart(entry, files, path) is None,
{
    if entry is Some {
        lemma_id_from(files, entry->0.id, 0);
    }
    remote::name_position_is_first(files, path);
}

/// Of two files of one name, the one that the index has for the name stays; or
/// else the one that changed later; or else the one with the lesser id.
pub proof fn of_two_files_of_one_name(
    index: Shelf<EntryView>,
    name: Seq<char>,
    a: FileView,
    b: FileView,
)
    requires
        a.id != b.id,
    ensures
        ({
            let m = remote::mapped_id(index, name);
            let known = index.map.contains_key(name);
            let id = index.map[name].id;
            &&& known && id == a.id ==> remote::outranks(m, a, b) && !remote::outranks(m, b, a)
            &&& !known || (id != a.id && id != b.id) ==> {
                &&& a.mtime() > b.mtime() ==> remote::outranks(m, a, b) && !remote::outranks(
                    m,
                    b,
                    a,
                )
                &&& a.mtime() == b.mtime() && text::text_lt(a.id, b.id) ==> remote::outranks(
                    m,
                    a,
                    b,
                ) && !remote::outranks(m, b, a)
            }
        }),
{
    remote::outranks_total(remote::mapped_id(index, name), a, b);
}

// ---------------------------------------------------------------------------
// The beginning
// ---------------------------------------------------------------------------

/// A sync begins with the index as it is and nothing counted; the surplus files
/// are deleted one after the other, and then the notes are listed.
pub proof fn a_sync_begins_with_the_surplus(index: Shelf<EntryView>, listed: Seq<FileView>)
    ensures
        ({
            let s = sync_model::begun(index, listed);
            let d = remote::dedup(index, listed);
            &&& s.index == index
            &&& s.files == d.kept
            &&& s.seen.len() == 0 && s.touched.len() == 0 && s.renames.len() == 0
            &&& s.uploaded == 0 && s.downloaded == 0 && s.conflicts == 0 && s.chars == 0
            &&& s.error is None
            &&& d.doomed.len() == 0 ==> s.pending() == ActionView::ScanNotes
            &&& d.doomed.len() > 0 ==> s.pending() == (ActionView::DeleteRemote {
                id: d.doomed[0],
            })
        }),
{
}

/// One surplus file after the other is deleted, and nothing else changes.
pub proof fn every_surplus_file_is_deleted(s: RunView, k: int)
    requires
        s.phase == PhaseView::Purging(k),
    ensures
        k + 1 < s.doomed.len() ==> s.after(ReplyView::Done).pending() == (
        ActionView::DeleteRemote { id: s.doomed[k + 1] }),
        k + 1 >= s.doomed.len() ==> s.after(ReplyView::Done).pending() == ActionView::ScanNotes,
        s.after(ReplyView::Done).index == s.index,
        s.after(ReplyView::Done).files == s.files,
{
}

/// Once the notes are listed they are dealt with from the first on, as they were
/// listed.
pub proof fn the_notes_are_dealt_with_as_listed(s: RunView, notes: Shelf<u64>)
    requires
        s.phase is Scanning,
    ensures
        s.after(ReplyView::Scanned { notes }) == (RunView { notes, ..s }).from_note(0),
        s.after(ReplyView::Scanned { notes }).notes == notes,
{
    sync_laws::lemma_from_note_frame(RunView { notes, ..s }, 0);
}

// ---------------------------------------------------------------------------
// One note
// ---------------------------------------------------------------------------

/// What the plan for note `i` says is what is asked for, with its path, and with
/// the file that was found for it.
pub proof fn each_note_gets_its_due(s: RunView, i: int)
    requires
        0 <= i < s.notes.order.len(),
    ensures
        s.plan(i) is Create ==> s.from_note(i).pending() == (ActionView::Upload {
            path: s.notes.order[i],
        }),
        s.plan(i) == (Plan::Push { rescue: false }) ==> s.from_note(i).pending() == (
        ActionView::Update { path: s.notes.order[i], id: s.files[s.counterpart(i).unwrap().0].id }),
        s.plan(i) == (Plan::Pull { rescue: false }) ==> s.from_note(i).pending() == (
        ActionView::Download { path: s.notes.order[i], id: s.files[s.counterpart(i).unwrap().0].id }),
        s.plan(i) == (Plan::Push { rescue: true }) ==> s.from_note(i).pending() == (
        ActionView::CopyRemote { path: s.notes.order[i], id: s.files[s.counterpart(i).unwrap().0].id }),
        s.plan(i) == (Plan::Pull { rescue: true }) ==> s.from_note(i).pending() == (
        ActionView::CopyLocal { path: s.notes.order[i] }),
        !(s.plan(i) is Keep) ==> s.from_note(i).index == s.index,
{
}

/// The plan for a note goes by its entry, by the time at which it was listed, and
/// by the file that was found for it.
pub proof fn a_note_is_planned_by_what_is_known(s: RunView, i: int)
    requires
        0 <= i < s.notes.order.len(),
    ensures
        ({
            let path = s.notes.order[i];
            let entry = if s.index.map.contains_key(path) {
                Some(s.index.map[path])
            } else {
                None
            };
            &&& s.counterpart(i) == plan::counterpart(entry, s.files, path)
            &&& s.plan(i) == plan::plan(
                entry,
                s.notes.map[path] as int,
                match s.counterpart(i) {
                    Some((f, _)) => Some(s.files[f]),
                    None => None,
                },
            )
        }),
{
}

/// A note that is to stay keeps its times, gets the id of its file, and the next
/// note follows.
pub proof fn a_note_that_stays_keeps_its_times(s: RunView, i: int, f: int, by_id: bool)
    requires
        0 <= i < s.notes.order.len(),
        s.plan(i) is Keep,
        s.counterpart(i) == Some((f, by_id)),
    ensures
        ({
            let path = s.notes.order[i];
            let e = s.index.map[path];
            let t = RunView {
                seen: s.seen.push(s.files[f].id),
                renames: if by_id && s.files[f].name != path {
                    s.renames.push((path, s.files[f].name))
                } else {
                    s.renames
                },
                index: s.index.set(
                    path,
                    EntryView {
                        id: s.files[f].id,
                        local_mtime_ms: e.local_mtime_ms,
                        remote_mtime_ms: e.remote_mtime_ms,
                    },
                ),
                ..s
            };
            s.from_note(i) == t.from_note(i + 1)
        }),
{
}

/// Where a file is found for a note by its id under another name, it was renamed
/// on Drive, and that is to be followed; otherwise there is nothing to rename.
pub proof fn a_rename_on_drive_is_noticed(s: RunView, i: int, f: int, by_id: bool)
    requires
        0 <= i < s.notes.order.len(),
        s.counterpart(i) == Some((f, by_id)),
        !(s.plan(i) is Keep),
    ensures
        s.from_note(i).seen == s.seen.push(s.files[f].id),
        by_id && s.files[f].name != s.notes.order[i] ==> s.from_note(i).renames == s.renames.push(
            (s.notes.order[i], s.files[f].name),
        ),
        !by_id || s.files[f].name == s.notes.order[i] ==> s.from_note(i).renames == s.renames,
{
}

/// Behind the last note, the renames follow.
pub proof fn renames_follow_the_notes(s: RunView, i: int)
    requires
        i >= s.notes.order.len(),
    ensures
        s.from_note(i) == s.from_rename(0),
{
}

/// The path of an earlier note.
proof fn lemma_earlier_notes_stay(s: RunView, i: int, j: int)
    requires
        s.notes.wf(),
        0 <= j < i,
        j < s.notes.order.len(),
    ensures
        s.from_note(i).index.get(s.path(j)) == s.index.get(s.path(j)),
    decreases s.notes.order.len() - i,
{
    if i >= s.notes.order.len() {
        sync_laws::lemma_from_rename_frame(s, 0);
    } else {
        assert(s.notes.order[j] != s.notes.order[i]);
        match (s.plan(i), s.counterpart(i)) {
            (Plan::Keep, Some((f, by_id))) => {
                let e = EntryView { id: s.files[f].id, ..s.index.map[s.path(i)] };
                let t = s.noticed(i, f, by_id, false).recorded(s.path(i), e);
                lemma_earlier_notes_stay(t, i + 1, j);
                assert(t.path(j) == s.path(j));
            },
            _ => {},
        }
    }
}

proof fn lemma_from_fetch_counts(s: RunView, f: int)
    requires
        0 <= f,
    ensures
        s.from_fetch(f).uploaded == s.uploaded,
        s.from_fetch(f).downloaded == s.downloaded,
        s.from_fetch(f).conflicts == s.conflicts,
        s.from_fetch(f).chars == s.chars,
    decreases s.files.len() - f,
{
    if f < s.files.len() && !s.only_remote(f) {
        lemma_from_fetch_counts(s, f + 1);
    }
}

proof fn lemma_from_note_counts(s: RunView, i: int)
    requires
        0 <= i,
    ensures
        s.from_note(i).uploaded == s.uploaded,
        s.from_note(i).downloaded == s.downloaded,
        s.from_note(i).chars == s.chars,
    decreases s.notes.order.len() - i,
{
    lemma_from_fetch_counts(s.with_gone(), 0);
    if i < s.notes.order.len() {
        match (s.plan(i), s.counterpart(i)) {
            (Plan::Keep, Some((f, by_id))) => {
                let e = EntryView { id: s.files[f].id, ..s.index.map[s.path(i)] };
                lemma_from_note_counts(s.noticed(i, f, by_id, false).recorded(s.path(i), e), i + 1);
            },
            _ => {},
        }
    }
}

/// A note that was uploaded is recorded with its new id, the time at which it was
/// listed and the time that Drive told, is counted with its characters, and the
/// next note follows.
pub proof fn an_upload_is_recorded(s: RunView, i: int, id: Seq<char>, ms: u64, chars: u64)
    requires
        s.wf(),
        s.phase == PhaseView::Creating(i),
    ensures
        ({
            let path = s.notes.order[i];
            let e = EntryView { id, local_mtime_ms: s.notes.map[path], remote_mtime_ms: ms };
            let t = s.after(ReplyView::Uploaded { id, ms, chars });
            &&& s.pending() == (ActionView::Upload { path })
            &&& t == (RunView {
                index: s.index.set(path, e),
                uploaded: s.uploaded + 1,
                chars: s.chars + chars,
                ..s
            }).from_note(i + 1)
            &&& t.index.get(path) == Some(e)
            &&& t.uploaded == s.uploaded + 1 && t.downloaded == s.downloaded && t.chars == s.chars
                + chars
        }),
{
    let path = s.notes.order[i];
    let e = EntryView { id, local_mtime_ms: s.local_ms(i), remote_mtime_ms: ms };
    let u = s.recorded(path, e).one_up(chars);
    lemma_earlier_notes_stay(u, i + 1, i);
    lemma_from_note_counts(u, i + 1);
}

/// A note that replaced its file is recorded with the id of the file, the time at
/// which it was listed and the time that Drive told, is counted with its
/// characters, and the next note follows.
pub proof fn an_update_is_recorded(s: RunView, i: int, f: int, ms: u64, chars: u64)
    requires
        s.wf(),
        s.phase == PhaseView::Pushing(i, f),
    ensures
        ({
            let path = s.notes.order[i];
            let e = EntryView {
                id: s.files[f].id,
                local_mtime_ms: s.notes.map[path],
                remote_mtime_ms: ms,
            };
            let t = s.after(ReplyView::Updated { ms, chars });
            &&& s.pending() == (ActionView::Update { path, id: s.files[f].id })
            &&& t == (RunView {
                index: s.index.set(path, e),
                uploaded: s.uploaded + 1,
                chars: s.chars + chars,
                ..s
            }).from_note(i + 1)
            &&& t.index.get(path) == Some(e)
            &&& t.uploaded == s.uploaded + 1 && t.downloaded == s.downloaded && t.chars == s.chars
                + chars
        }),
{
    let path = s.notes.order[i];
    let e = EntryView { id: s.files[f].id, local_mtime_ms: s.local_ms(i), remote_mtime_ms: ms };
    let u = s.recorded(path, e).one_up(chars);
    lemma_earlier_notes_stay(u, i + 1, i);
    lemma_from_note_counts(u, i + 1);
}

/// A note that its file replaced is recorded with the time of the file on both
/// sides, counts as written, is counted with its characters, and is given that
/// time; then the next note follows.
pub proof fn a_download_is_recorded(s: RunView, i: int, f: int, chars: u64)
    requires
        s.wf(),
        s.phase == PhaseView::Pulling(i, f),
    ensures
        ({
            let path = s.notes.order[i];
            let e = EntryView {
                id: s.files[f].id,
                local_mtime_ms: s.files[f].mtime() as u64,
                remote_mtime_ms: s.files[f].mtime() as u64,
            };
            let t = s.after(ReplyView::Downloaded { chars });
            &&& s.pending() == (ActionView::Download { path, id: s.files[f].id })
            &&& t.pending() == (ActionView::SetMtime { path, ms: s.files[f].mtime() })
            &&& t.index == s.index.set(path, e)
            &&& t.touched == s.touched.push(path)
            &&& t.uploaded == s.uploaded && t.downloaded == s.downloaded + 1 && t.chars == s.chars
                + chars
            &&& t.after(ReplyView::Done) == t.from_note(i + 1)
        }),
{
}

/// Where a copy was made, what was to follow follows; where it failed, the sync
/// ends with that.
pub proof fn a_copy_comes_first(s: RunView, i: int, f: int, error: Seq<char>)
    requires
        s.phase == PhaseView::RescuingRemote(i, f) || s.phase == PhaseView::RescuingLocal(i, f),
    ensures
        s.phase is RescuingRemote ==> s.after(ReplyView::Done).pending() == (ActionView::Update {
            path: s.notes.order[i],
            id: s.files[f].id,
        }),
        s.phase is RescuingLocal ==> s.after(ReplyView::Done).pending() == (ActionView::Download {
            path: s.notes.order[i],
            id: s.files[f].id,
        }),
        s.after(ReplyView::Done).index == s.index,
        s.after(ReplyView::Failed { error }).pending() == ActionView::SaveIndex,
        s.after(ReplyView::Failed { error }).error == Some(error),
{
}

/// A conflict is counted once, where the loser is to be copied; nothing else is
/// counted as one.
pub proof fn a_conflict_is_counted_once(s: RunView, i: int)
    requires
        0 <= i < s.notes.order.len(),
        !(s.plan(i) is Keep),
    ensures
        s.from_note(i).conflicts == s.conflicts + (if s.plan(i) == (Plan::Push { rescue: true })
            || s.plan(i) == (Plan::Pull { rescue: true }) {
            1int
        } else {
            0int
        }),
{
}

// ---------------------------------------------------------------------------
// Renames
// ---------------------------------------------------------------------------

/// A rename is made only where the old name is there and the new one is free.
pub proof fn a_rename_needs_a_free_name(s: RunView, k: int)
    requires
        s.phase == PhaseView::Probing(k),
    ensures
        s.pending() == (ActionView::Probe { from: s.renames[k].0, to: s.renames[k].1 }),
        s.after(ReplyView::Probed { from: true, to: false }).pending() == (ActionView::Rename {
            from: s.renames[k].0,
            to: s.renames[k].1,
        }),
        forall|to: bool|
            #[trigger] s.after(ReplyView::Probed { from: false, to }) == s.from_rename(k + 1),
        s.after(ReplyView::Probed { from: true, to: true }) == s.from_rename(k + 1),
{
}

/// Once a rename was made, the entry stands under the new name, with the time
/// that the file then has, where that can be told; both names count as written.
pub proof fn a_rename_moves_the_entry(s: RunView, k: int, mtime: Option<u64>)
    requires
        s.wf(),
        s.phase == PhaseView::Renaming(k),
        s.index.map.contains_key(s.renames[k].0),
        s.renames[k].0 != s.renames[k].1,
    ensures
        ({
            let (from, to) = s.renames[k];
            let e = s.index.map[from];
            let t = s.after(ReplyView::Renamed { mtime });
            &&& !t.index.map.contains_key(from)
            &&& t.index.get(to) == Some(
                EntryView {
                    id: e.id,
                    local_mtime_ms: match mtime {
                        Some(ms) => ms,
                        None => e.local_mtime_ms,
                    },
                    remote_mtime_ms: e.remote_mtime_ms,
                },
            )
            &&& forall|p: Seq<char>|
                p != from && p != to ==> #[trigger] t.index.get(p) == s.index.get(p)
            &&& t.touched == s.touched.push(from).push(to)
        }),
{
    sync_laws::lemma_from_rename_frame(s.renamed(k, mtime), k + 1);
}

/// Behind the last rename, the files that only Drive has follow.
pub proof fn fetching_follows_the_renames(s: RunView, k: int)
    requires
        k >= s.renames.len(),
    ensures
        s.from_rename(k) == s.with_gone().from_fetch(0),
{
}

// ---------------------------------------------------------------------------
// Fetching and cleaning
// ---------------------------------------------------------------------------

/// A note was deleted where the index has it, it was not listed, and this sync
/// did not write it; the file that the index has for it is known as that of a
/// deleted note.
pub proof fn what_was_not_listed_was_deleted(s: RunView, p: Seq<char>, id: Seq<char>)
    requires
        s.index.wf(),
    ensures
        s.with_gone().gone.contains((p, id)) <==> s.index.map.contains_key(p)
            && !s.touched.contains(p) && !s.notes.map.contains_key(p) && s.index.map[p].id == id,
{
    let g = s.with_gone();
    sync_model::with_gone_knows_all(s);
    if g.gone.contains((p, id)) {
        let j = choose|j: int| 0 <= j < g.gone.len() && g.gone[j] == (p, id);
        assert(s.index.has(g.gone[j].0));
    }
    if s.index.map.contains_key(p) && !s.touched.contains(p) && !s.notes.map.contains_key(p)
        && s.index.map[p].id == id {
        assert(g.index.has(p) && g.was_deleted(p));
        let j = choose|j: int| 0 <= j < g.gone.len() && #[trigger] g.gone[j] == (p, g.index.map[p].id);
        assert(g.gone[j] == (p, id));
    }
}

/// A file is fetched under its name where it is no folder, stands for no note,
/// and is not that of a deleted note, or changed since; others are passed over.
pub proof fn what_only_drive_has_is_fetched(s: RunView, f: int)
    requires
        0 <= f < s.files.len(),
    ensures
        ({
            let file = s.files[f];
            let wanted = !s.seen.contains(file.id) && file.mime_type != Some(
                "application/vnd.google-apps.folder"@,
            ) && ((forall|j: int| 0 <= j < s.gone.len() ==> (#[trigger] s.gone[j]).1 != file.id)
                || s.revived.contains(file.id));
            &&& wanted ==> s.from_fetch(f).pending() == (ActionView::Download {
                path: file.name,
                id: file.id,
            }) && s.from_fetch(f).index == s.index
            &&& !wanted ==> s.from_fetch(f) == s.from_fetch(f + 1)
        }),
{
    let file = s.files[f];
    assert(s.is_gone(file.id) <==> !(forall|j: int|
        0 <= j < s.gone.len() ==> (#[trigger] s.gone[j]).1 != file.id));
}

/// A file that was fetched is recorded under its name with its time on both
/// sides, counts as written, is counted with its characters, and is given that
/// time; then the next file follows.
pub proof fn what_was_fetched_is_recorded(s: RunView, f: int, chars: u64)
    requires
        s.phase == PhaseView::Fetching(f),
    ensures
        ({
            let file = s.files[f];
            let e = EntryView {
                id: file.id,
                local_mtime_ms: file.mtime() as u64,
                remote_mtime_ms: file.mtime() as u64,
            };
            let t = s.after(ReplyView::Downloaded { chars });
            &&& t.pending() == (ActionView::SetMtime { path: file.name, ms: file.mtime() })
            &&& t.index == s.index.set(file.name, e)
            &&& t.touched == s.touched.push(file.name)
            &&& t.uploaded == s.uploaded && t.downloaded == s.downloaded + 1 && t.chars == s.chars
                + chars
            &&& t.after(ReplyView::Done) == t.from_fetch(f + 1)
        }),
{
}

/// Behind the last file, the files of deleted notes are deleted: those whose
/// paths were not written anew, and those that Drive still lists as they were.
pub proof fn deletions_follow_the_fetching(s: RunView, f: int, e: (Seq<char>, Seq<char>))
    requires
        f >= s.files.len(),
    ensures
        s.from_fetch(f) == s.from_clean(),
        s.from_clean().gone.contains(e) <==> s.gone.contains(e) && (!s.touched.contains(e.0) || (
        !s.revived.contains(e.1) && exists|g: int|
            0 <= g < s.files.len() && (#[trigger] s.files[g]).id == e.1)),
        s.from_clean().gone.len() == 0 ==> s.from_clean().pending() == ActionView::SaveIndex,
        s.from_clean().gone.len() > 0 ==> s.from_clean().pending() == (ActionView::DeleteRemote {
            id: s.from_clean().gone[0].1,
        }),
        s.from_clean().index == s.index,
{
    let pred = |x: (Seq<char>, Seq<char>)| s.is_due(x);
    let left = s.gone.filter(pred);
    sync_model::lemma_filter_sub(s.gone, pred);
    assert(s.from_clean().gone == left);
    if left.contains(e) {
        let j = choose|j: int| 0 <= j < left.len() && left[j] == e;
        assert(s.gone.contains(left[j]) && pred(left[j]));
    }
    if s.gone.contains(e) && s.is_due(e) {
        assert(pred(e));
    }
}

/// The entry of a deleted note goes with its file, and the next one follows; once
/// all are gone the index is stored.
pub proof fn an_entry_goes_and_the_next_follows(s: RunView, k: int)
    requires
        s.phase == PhaseView::Cleaning(k),
        !s.touched.contains(s.gone[k].0),
    ensures
        !s.after(ReplyView::Done).index.map.contains_key(s.gone[k].0),
        forall|p: Seq<char>|
            p != s.gone[k].0 ==> #[trigger] s.after(ReplyView::Done).index.get(p) == s.index.get(p),
        k + 1 < s.gone.len() ==> s.after(ReplyView::Done).pending() == (ActionView::DeleteRemote {
            id: s.gone[k + 1].1,
        }),
        k + 1 >= s.gone.len() ==> s.after(ReplyView::Done).pending() == ActionView::SaveIndex,
        k + 1 >= s.gone.len() ==> s.after(ReplyView::Done).error is None,
{
}

// ---------------------------------------------------------------------------
// The end
// ---------------------------------------------------------------------------

/// What is reported at the end: what was counted, or what failed.
pub proof fn the_counts_are_reported(s: RunView, error: Seq<char>)
    requires
        s.phase is Saving,
    ensures
        s.error == Some(error) ==> s.after(ReplyView::Done).pending() == (ActionView::Finish {
            outcome: Err(error),
        }),
        s.error is None ==> s.after(ReplyView::Done).pending() == (ActionView::Finish {
            outcome: Ok(
                ResultView {
                    uploaded: s.uploaded,
                    downloaded: s.downloaded,
                    conflicts: s.conflicts,
                    chars_synced: s.chars,
                    summary: sync_model::summary_of(s.uploaded + s.downloaded, s.conflicts),
                },
            ),
        }),
        s.after(ReplyView::Done).index == s.index,
{
}

/// Whatever fails ends the sync with that, and the index is stored as it stands.
pub proof fn a_failure_ends_the_sync(s: RunView, error: Seq<char>)
    requires
        s.phase is Scanning || s.phase is Creating || s.phase is Pushing || s.phase is Pulling
            || s.phase is Fetching,
    ensures
        s.accepts(ReplyView::Failed { error }),
        s.after(ReplyView::Failed { error }).pending() == ActionView::SaveIndex,
        s.after(ReplyView::Failed { error }).index == s.index,
        s.after(ReplyView::Failed { error }).error == Some(error),
{
}

/// The result in one line tells both counts, each with its noun in the singular
/// for one and in the plural otherwise; or that there was nothing to do.
pub proof fn the_summary_tells_both_counts(n: int, c: int)
    requires
        0 <= n,
        0 <= c,
    ensures
        n == 0 && c == 0 ==> sync_model::summary_of(n, c) == "Already up to date"@,
        n > 0 || c > 0 ==> sync_model::summary_of(n, c) == "Synced "@ + text::decimal(n as nat) + (
        if n == 1 {
            " note"@
        } else {
            " notes"@
        }) + ", "@ + text::decimal(c as nat) + (if c == 1 {
            " conflict"@
        } else {
            " conflicts"@
        }),
{
    reveal_strlit(" note");
    reveal_strlit(" notes");
    reveal_strlit(" conflict");
    reveal_strlit(" conflicts");
    reveal_strlit("s");
    assert(" note"@ + "s"@ =~= " notes"@);
    assert(" conflict"@ + "s"@ =~= " conflicts"@);
}

/// The index has under a path what was last put there, and nothing where it was
/// taken out; every other path has what it had.
pub proof fn the_index_has_what_was_put_there(
    index: Shelf<EntryView>,
    p: Seq<char>,
    e: EntryView,
    q: Seq<char>,
)
    ensures
        index.set(p, e).get(p) == Some(e),
        q != p ==> index.set(p, e).get(q) == index.get(q),
        index.unset(p).get(p) is None,
        q != p ==> index.unset(p).get(q) == index.get(q),
        index.has(p) <==> index.get(p) is Some,
        Shelf::<EntryView>::empty().get(p) is None,
{
}

/// The file of a note changed on Drive where it is listed with a time that lies
/// more than a second from the one that the index has.
pub proof fn a_file_changed_where_its_time_did(s: RunView, p: Seq<char>)
    ensures
        s.changed_there(p) <==> exists|f: int|
            0 <= f < s.files.len() && (#[trigger] s.files[f]).id == s.index.map[p].id && (
            s.files[f].mtime() > s.index.map[p].remote_mtime_ms + 1000
                || s.index.map[p].remote_mtime_ms > s.files[f].mtime() + 1000),
{
    if s.changed_there(p) {
        let f = choose|f: int|
            0 <= f < s.files.len() && (#[trigger] s.files[f]).id == s.index.map[p].id
                && plan::differs(s.files[f].mtime(), s.index.map[p].remote_mtime_ms as int);
        assert(s.files[f].id == s.index.map[p].id);
    }
    if exists|f: int|
        0 <= f < s.files.len() && (#[trigger] s.files[f]).id == s.index.map[p].id && (
        s.files[f].mtime() > s.index.map[p].remote_mtime_ms + 1000
            || s.index.map[p].remote_mtime_ms > s.files[f].mtime() + 1000) {
        let f = choose|f: int|
            0 <= f < s.files.len() && (#[trigger] s.files[f]).id == s.index.map[p].id && (
            s.files[f].mtime() > s.index.map[p].remote_mtime_ms + 1000
                || s.index.map[p].remote_mtime_ms > s.files[f].mtime() + 1000);
        assert(plan::differs(s.files[f].mtime(), s.index.map[p].remote_mtime_ms as int));
    }
}

/// A rename of a note that the index does not know leaves the index as it is.
pub proof fn a_rename_of_what_is_not_indexed(s: RunView, k: int, mtime: Option<u64>)
    requires
        s.phase == PhaseView::Renaming(k),
        !s.index.map.contains_key(s.renames[k].0),
    ensures
        s.after(ReplyView::Renamed { mtime }).index == s.index,
        s.after(ReplyView::Renamed { mtime }) == (RunView {
            touched: s.touched.push(s.renames[k].0).push(s.renames[k].1),
            ..s
        }).from_rename(k + 1),
{
    sync_laws::lemma_from_rename_frame(s.renamed(k, mtime), k + 1);
}

/// Once a rename was made, the next one follows.
pub proof fn the_next_rename_follows(s: RunView, k: int)
    requires
        0 <= k < s.renames.len(),
    ensures
        s.from_rename(k).pending() == (ActionView::Probe {
            from: s.renames[k].0,
            to: s.renames[k].1,
        }),
        s.from_rename(k).index == s.index,
{
}

/// Whatever is asked may be answered by what it asks for, as long as the counts
/// fit.
pub proof fn every_reply_that_fits_is_taken(
    s: RunView,
    notes: Shelf<u64>,
    id: Seq<char>,
    ms: u64,
    chars: u64,
    from: bool,
    to: bool,
    mtime: Option<u64>,
)
    ensures
        s.phase is Purging || s.phase is RescuingRemote || s.phase is RescuingLocal
            || s.phase is Dating || s.phase is DatingFetched || s.phase is Cleaning
            || s.phase is Saving ==> s.accepts(ReplyView::Done),
        s.phase is Scanning && notes.wf() && notes.order.len() + s.files.len() <= u32::MAX
            ==> s.accepts(ReplyView::Scanned { notes }),
        s.phase is Creating && s.chars + chars <= u64::MAX ==> s.accepts(
            ReplyView::Uploaded { id, ms, chars },
        ),
        s.phase is Pushing && s.chars + chars <= u64::MAX ==> s.accepts(
            ReplyView::Updated { ms, chars },
        ),
        (s.phase is Pulling || s.phase is Fetching) && s.chars + chars <= u64::MAX ==> s.accepts(
            ReplyView::Downloaded { chars },
        ),
        s.phase is Probing ==> s.accepts(ReplyView::Probed { from, to }),
        s.phase is Renaming ==> s.accepts(ReplyView::Renamed { mtime }),
{
}

// ---------------------------------------------------------------------------
// What is told is what is there
// ---------------------------------------------------------------------------

/// A file tells each of its parts as it is, an entry of the index does, and so
/// does the result of a sync.
pub proof fn files_and_entries_tell_their_parts(
    f: DriveFile,
    e: SyncFileEntry,
    r: SyncResult,
    v: Seq<DriveFile>,
    t: Seq<String>,
    i: int,
)
    ensures
        f@.id == f.id@ && f@.name == f.name@,
        f.modified_time matches Some(m) ==> f@.modified_time == Some(m@),
        f.modified_time is None ==> f@.modified_time is None,
        f.mime_type matches Some(m) ==> f@.mime_type == Some(m@),
        f.mime_type is None ==> f@.mime_type is None,
        e@.id == e.id@ && e@.local_mtime_ms == e.local_mtime_ms && e@.remote_mtime_ms
            == e.remote_mtime_ms,
        r@.uploaded == r.uploaded && r@.downloaded == r.downloaded && r@.conflicts == r.conflicts
            && r@.chars_synced == r.chars_synced && r@.summary == r.summary@,
        remote::views(v).len() == v.len(),
        0 <= i < v.len() ==> remote::views(v)[i] == v[i]@ && remote::ids(remote::views(v))[i]
            == v[i].id@,
        remote::texts(t).len() == t.len(),
        0 <= i < t.len() ==> remote::texts(t)[i] == t[i]@,
{
}

/// What a sync asks for and what it is told mean what they say.
pub proof fn actions_and_replies_mean_what_they_say(a: Action, r: Reply)
    ensures
        match a {
            Action::DeleteRemote { id } => a@ == (ActionView::DeleteRemote { id: id@ }),
            Action::ScanNotes => a@ == ActionView::ScanNotes,
            Action::CopyRemote { path, id } => a@ == (ActionView::CopyRemote {
                path: path@,
                id: id@,
            }),
            Action::CopyLocal { path } => a@ == (ActionView::CopyLocal { path: path@ }),
            Action::Upload { path } => a@ == (ActionView::Upload { path: path@ }),
            Action::Update { path, id } => a@ == (ActionView::Update { path: path@, id: id@ }),
            Action::Download { path, id } => a@ == (ActionView::Download { path: path@, id: id@ }),
            Action::SetMtime { path, ms } => a@ == (ActionView::SetMtime {
                path: path@,
                ms: ms as int,
            }),
            Action::Probe { from, to } => a@ == (ActionView::Probe { from: from@, to: to@ }),
            Action::Rename { from, to } => a@ == (ActionView::Rename { from: from@, to: to@ }),
            Action::SaveIndex => a@ == ActionView::SaveIndex,
            Action::Finish { outcome: Ok(t) } => a@ == (ActionView::Finish { outcome: Ok(t@) }),
            Action::Finish { outcome: Err(e) } => a@ == (ActionView::Finish { outcome: Err(e@) }),
        },
        match r {
            Reply::Done => r@ == ReplyView::Done,
            Reply::Scanned { notes } => r@ == (ReplyView::Scanned { notes: notes@ }),
            Reply::Uploaded { id, ms, chars } => r@ == (ReplyView::Uploaded { id: id@, ms, chars }),
            Reply::Updated { ms, chars } => r@ == (ReplyView::Updated { ms, chars }),
            Reply::Downloaded { chars } => r@ == (ReplyView::Downloaded { chars }),
            Reply::Probed { from, to } => r@ == (ReplyView::Probed { from, to }),
            Reply::Renamed { mtime } => r@ == (ReplyView::Renamed { mtime }),
            Reply::Failed { error } => r@ == (ReplyView::Failed { error: error@ }),
        },
{
}

} // verus!
