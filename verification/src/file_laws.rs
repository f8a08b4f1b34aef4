//! How writes, moves into and out of the trash, and conflict copies go from
//! beginning to end.

use crate::bytes;
use crate::clock;
use crate::conflict;
use crate::conflict::{RescueView, Side};
use crate::paths;
use crate::steps::{AnswerView, FileStepView};
use crate::text;
use crate::trash;
use crate::trash::TrashView;
use crate::trash_laws;
use crate::write::{Purpose, StepView};
use vstd::prelude::*;

verus! {

// ---------------------------------------------------------------------------
// Writing
// ---------------------------------------------------------------------------

/// The temporary file lies beside the file, under a name that is made from its
/// own.
pub proof fn the_temporary_file_lies_beside(dir: Seq<char>, n: Seq<char>)
    requires
        paths::is_directory(dir),
        paths::is_proper_name(n),
    ensures
        ({
            let path = dir + seq!['/'] + n;
            &&& crate::write::dir_of(path) == dir
            &&& crate::write::tmp_path(Purpose::Note, path) == dir + "/.aanote-tmp-"@ + n
            &&& crate::write::tmp_path(Purpose::Download, path) == dir + "/.aanote-dl-"@ + n
            &&& crate::write::tmp_path(Purpose::Index, path) == dir + "/.aanote-sync-tmp"@
        }),
{
    reveal_strlit(".aanote-tmp-");
    reveal_strlit(".aanote-dl-");
    reveal_strlit(".aanote-sync-tmp");
    reveal_strlit("/.aanote-tmp-");
    reveal_strlit("/.aanote-dl-");
    reveal_strlit("/.aanote-sync-tmp");
    let path = dir + seq!['/'] + n;
    paths::what_lies_in_a_directory(dir, n);
    assert(crate::write::tmp_path(Purpose::Note, path) =~= dir + "/.aanote-tmp-"@ + n);
    assert(crate::write::tmp_path(Purpose::Download, path) =~= dir + "/.aanote-dl-"@ + n);
    assert(crate::write::tmp_path(Purpose::Index, path) =~= dir + "/.aanote-sync-tmp"@);
}

/// A name by itself is written in the directory at hand.
pub proof fn the_temporary_file_of_a_name_by_itself(n: Seq<char>)
    requires
        paths::is_proper_name(n),
    ensures
        crate::write::dir_of(n) == Seq::<char>::empty(),
        crate::write::tmp_path(Purpose::Note, n) == ".aanote-tmp-"@ + n,
        crate::write::tmp_path(Purpose::Download, n) == ".aanote-dl-"@ + n,
        crate::write::tmp_path(Purpose::Index, n) == ".aanote-sync-tmp"@,
{
    reveal_strlit(".aanote-tmp-");
    reveal_strlit(".aanote-dl-");
    reveal_strlit(".aanote-sync-tmp");
    paths::a_name_by_itself(n);
    let none = Seq::<char>::empty();
    paths::a_path_is_put_behind_its_directory(none, ".aanote-tmp-"@ + n);
    paths::a_path_is_put_behind_its_directory(none, ".aanote-dl-"@ + n);
    paths::a_path_is_put_behind_its_directory(none, ".aanote-sync-tmp"@);
}

/// A note is written in these steps, and where each succeeds the write does;
/// whether its content is known to have reached the disk is of no consequence.
pub proof fn a_note_is_written(path: Seq<char>, flushed: Result<(), Seq<char>>)
    ensures
        ({
            let tmp = crate::write::tmp_path(Purpose::Note, path);
            let ok = Ok::<(), Seq<char>>(());
            let a = crate::write::begun(Purpose::Note, path);
            let b = a.after(ok);
            let c = b.after(ok);
            let d = c.after(ok);
            let e = d.after(flushed);
            let f = e.after(ok);
            &&& a.step == (StepView::MakeDir { dir: crate::write::dir_of(path) })
            &&& b.step == (StepView::Create { tmp })
            &&& c.step == (StepView::Write { tmp })
            &&& d.step == (StepView::Sync { tmp })
            &&& e.step == (StepView::Rename { tmp, path })
            &&& f.step == (StepView::Finish { outcome: ok })
        }),
{
}

/// A step of writing a note that fails ends the write, with the step, the file
/// and the cause.
pub proof fn a_failed_step_is_reported(path: Seq<char>, flushed: Result<(), Seq<char>>, cause: Seq<char>)
    ensures
        ({
            let tmp = crate::write::tmp_path(Purpose::Note, path);
            let ok = Ok::<(), Seq<char>>(());
            let failed = Err::<(), Seq<char>>(cause);
            let a = crate::write::begun(Purpose::Note, path);
            let b = a.after(ok);
            let c = b.after(ok);
            let e = c.after(ok).after(flushed);
            &&& a.after(failed).step == (StepView::Finish {
                outcome: Err("Failed to create dir "@ + crate::write::dir_of(path) + ": "@ + cause),
            })
            &&& b.after(failed).step == (StepView::Finish {
                outcome: Err("Failed to create temp "@ + tmp + ": "@ + cause),
            })
            &&& c.after(failed).step == (StepView::Finish {
                outcome: Err("Failed to write "@ + tmp + ": "@ + cause),
            })
            &&& e.after(failed).step == (StepView::Remove { tmp })
            &&& e.after(failed).after(flushed).step == (StepView::Finish {
                outcome: Err("Failed to finalize "@ + path + ": "@ + cause),
            })
        }),
{
}

/// A download is written in these steps; one that fails ends it with the cause.
pub proof fn a_download_is_written(path: Seq<char>, cause: Seq<char>)
    ensures
        ({
            let tmp = crate::write::tmp_path(Purpose::Download, path);
            let ok = Ok::<(), Seq<char>>(());
            let failed = Err::<(), Seq<char>>(cause);
            let a = crate::write::begun(Purpose::Download, path);
            let b = a.after(ok);
            let c = b.after(ok);
            &&& a.step == (StepView::MakeDir { dir: crate::write::dir_of(path) })
            &&& b.step == (StepView::Write { tmp })
            &&& c.step == (StepView::Rename { tmp, path })
            &&& c.after(ok).step == (StepView::Finish { outcome: ok })
            &&& a.after(failed).step == (StepView::Finish { outcome: failed })
            &&& b.after(failed).step == (StepView::Finish { outcome: failed })
            &&& c.after(failed).step == (StepView::Finish { outcome: failed })
        }),
{
}

/// The index is written in these steps; one that fails ends it without a word.
pub proof fn the_index_is_written(path: Seq<char>, cause: Seq<char>)
    ensures
        ({
            let tmp = crate::write::tmp_path(Purpose::Index, path);
            let ok = Ok::<(), Seq<char>>(());
            let failed = Err::<(), Seq<char>>(cause);
            let a = crate::write::begun(Purpose::Index, path);
            let b = a.after(ok);
            &&& a.step == (StepView::Write { tmp })
            &&& b.step == (StepView::Rename { tmp, path })
            &&& b.after(ok).step == (StepView::Finish { outcome: ok })
            &&& a.after(failed).step == (StepView::Finish { outcome: ok })
            &&& b.after(failed).step == (StepView::Finish { outcome: ok })
        }),
{
}

// ---------------------------------------------------------------------------
// Into the trash
// ---------------------------------------------------------------------------

/// The move once the next `k` names were found to be taken.
pub open spec fn with_taken(s: TrashView, k: nat) -> TrashView
    decreases k,
{
    if k == 0 {
        s
    } else {
        with_taken(s, (k - 1) as nat).after(AnswerView::Exists(true))
    }
}

proof fn lemma_with_taken(s: TrashView, k: nat)
    requires
        s.stage is Name,
    ensures
        with_taken(s, k) == (TrashView {
            names: crate::steps::TrialView { tried: s.names.tried + k, ..s.names },
            ..s
        }),
    decreases k,
{
    if k > 0 {
        lemma_with_taken(s, (k - 1) as nat);
    }
}

/// What is there goes into the trash, under the first of its names that is free,
/// whatever its path.
pub proof fn what_is_there_goes_into_the_trash(
    root: Seq<char>,
    rel: Seq<char>,
    stamp: Seq<char>,
    k: nat,
)
    ensures
        ({
            let ok = AnswerView::Outcome(Ok(()));
            let a = trash::trashing(root, rel, stamp);
            let b = a.after(AnswerView::Exists(true));
            let c = with_taken(b.after(ok), k);
            let d = c.after(AnswerView::Exists(false));
            let name = trash::trash_names(root, rel, stamp).nth(k as int);
            &&& a.pending() == (FileStepView::Probe { path: paths::joined(root, rel) })
            &&& b.pending() == (FileStepView::MakeDir {
                dir: paths::joined(root, ".aanote-trash"@),
            })
            &&& c.pending() == (FileStepView::Probe { path: name })
            &&& d.pending() == (FileStepView::Rename { from: paths::joined(root, rel), to: name })
            &&& d.after(ok).pending() == (FileStepView::Finish { outcome: Ok(name) })
        }),
{
    let b = trash::trashing(root, rel, stamp).after(AnswerView::Exists(true)).after(
        AnswerView::Outcome(Ok(())),
    );
    lemma_with_taken(b, k);
}

/// Where a move into the trash fails, what failed is reported.
pub proof fn a_failed_deletion_is_reported(
    root: Seq<char>,
    rel: Seq<char>,
    stamp: Seq<char>,
    k: nat,
    cause: Seq<char>,
)
    ensures
        ({
            let ok = AnswerView::Outcome(Ok(()));
            let failed = AnswerView::Outcome(Err(cause));
            let a = trash::trashing(root, rel, stamp);
            let b = a.after(AnswerView::Exists(true));
            let d = with_taken(b.after(ok), k).after(AnswerView::Exists(false));
            &&& a.after(AnswerView::Exists(false)).pending() == (FileStepView::Finish {
                outcome: Err("Does not exist: "@ + rel),
            })
            &&& b.after(failed).pending() == (FileStepView::Finish {
                outcome: Err("Failed to create trash dir: "@ + cause),
            })
            &&& d.after(failed).pending() == (FileStepView::Finish {
                outcome: Err("Failed to move "@ + rel + " to trash: "@ + cause),
            })
        }),
{
    reveal_strlit(" to trash");
    reveal_strlit(" to trash: ");
    reveal_strlit(": ");
    let b = trash::trashing(root, rel, stamp).after(AnswerView::Exists(true)).after(
        AnswerView::Outcome(Ok(())),
    );
    lemma_with_taken(b, k);
    assert("Failed to move "@ + (rel + " to trash"@) + ": "@ + cause =~= "Failed to move "@ + rel
        + " to trash: "@ + cause);
}

/// The path of something below the root is the way from the root.
pub proof fn what_is_deleted_goes_by_its_way_from_the_root(root: Seq<char>, rel: Seq<char>)
    requires
        paths::is_plain_path(rel),
    ensures
        trash::rel_of(root, paths::joined(root, rel)) == rel,
{
    paths::plain_paths_are_found_again(root, rel);
}

/// The path of something beside the root is taken whole.
pub proof fn what_lies_elsewhere_goes_by_its_path(
    dir: Seq<char>,
    n: Seq<char>,
    other: Seq<char>,
    rest: Seq<char>,
)
    requires
        dir.len() > 0,
        paths::is_proper_name(n),
        paths::is_proper_name(other),
        n != other,
        rest.len() == 0 || rest[0] == '/',
    ensures
        trash::rel_of(dir + seq!['/'] + n, dir + seq!['/'] + other + rest) == dir + seq!['/']
            + other + rest,
{
    paths::what_lies_elsewhere_is_not_below(dir, n, other, rest);
}

/// The trash lies in the root, and a name in it begins with the time.
pub proof fn names_in_the_trash_begin_with_the_time(
    root: Seq<char>,
    rel: Seq<char>,
    stamp: Seq<char>,
    k: int,
)
    requires
        clock::is_stamp(stamp),
        root.len() > 0,
        root.last() != '/',
    ensures
        trash::trash_names(root, rel, stamp).nth(k) == root + "/.aanote-trash/"@ + stamp + (if k
            <= 0 {
            Seq::empty()
        } else {
            seq!['.'] + text::decimal(k as nat)
        }) + trash::trash_tail(rel),
{
    reveal_strlit(".aanote-trash");
    reveal_strlit("/.aanote-trash/");
    reveal_strlit(".");
    let dir = trash::trash_dir(root);
    assert(dir =~= root + seq!['/'] + ".aanote-trash"@);
    assert(dir.push('/') =~= root + "/.aanote-trash/"@);
    assert(clock::is_digit(stamp[0]) || stamp[0] == '+');
    assert((stamp + trash::trash_tail(rel))[0] == stamp[0]);
    assert((stamp + "."@)[0] == stamp[0]);
    let number = if k <= 0 {
        Seq::<char>::empty()
    } else {
        seq!['.'] + text::decimal(k as nat)
    };
    let expected = root + "/.aanote-trash/"@ + stamp + number + trash::trash_tail(rel);
    if k <= 0 {
        assert(trash::trash_names(root, rel, stamp).nth(k) =~= expected);
    } else {
        assert(trash::trash_names(root, rel, stamp).nth(k) =~= expected);
    }
}

proof fn lemma_no_char(s: Seq<char>, c: char)
    requires
        !s.contains(c),
        s.len() > 0,
    ensures
        s[0] != c,
        !s.skip(1).contains(c),
{
    assert(s.contains(s[0]));
    if s.skip(1).contains(c) {
        let k = choose|k: int| 0 <= k < s.skip(1).len() && s.skip(1)[k] == c;
        assert(s[k + 1] == c);
    }
}

proof fn lemma_leveled_first(rel: Seq<char>)
    requires
        rel.len() > 0,
    ensures
        trash::leveled(rel) == (if rel[0] == '/' {
            seq!['_', '_']
        } else {
            seq![rel[0]]
        }) + trash::leveled(rel.skip(1)),
{
    reveal_strlit("/");
    reveal_strlit("__");
    assert("__"@ =~= seq!['_', '_']);
    assert("/"@ =~= seq!['/']);
    assert(rel.subrange(0, 1) =~= seq![rel[0]]);
    if rel[0] == '/' {
        assert(text::occurs_at(rel, "/"@, 0));
    } else {
        assert(rel.subrange(0, 1)[0] != "/"@[0]);
    }
}

proof fn lemma_unleveled_first(s: Seq<char>)
    requires
        s.len() > 0,
    ensures
        s[0] != '_' ==> trash::unleveled(s) == seq![s[0]] + trash::unleveled(s.skip(1)),
        s.len() > 1 && s[0] == '_' && s[1] == '_' ==> trash::unleveled(s) == seq!['/']
            + trash::unleveled(s.skip(2)),
{
    reveal_strlit("/");
    reveal_strlit("__");
    assert("/"@ =~= seq!['/']);
    if s.len() > 1 {
        if s[0] == '_' && s[1] == '_' {
            assert(s.subrange(0, 2) =~= "__"@);
            assert(text::occurs_at(s, "__"@, 0));
        }
        if s[0] != '_' {
            assert(s.subrange(0, 2)[0] != "__"@[0]);
        }
    } else {
        assert(s.skip(1) =~= Seq::empty());
        assert(trash::unleveled(s.skip(1)) =~= Seq::empty());
        assert(seq![s[0]] + trash::unleveled(s.skip(1)) =~= s);
    }
}

proof fn lemma_recognisable(rel: Seq<char>)
    requires
        !rel.contains('_'),
    ensures
        trash::is_recognisable(rel),
    decreases rel.len(),
{
    if rel.len() > 0 {
        let t = rel.skip(1);
        lemma_no_char(rel, '_');
        lemma_recognisable(t);
        lemma_leveled_first(rel);
        let s = trash::leveled(rel);
        lemma_unleveled_first(s);
        if rel[0] == '/' {
            assert(s.skip(2) =~= trash::leveled(t));
        } else {
            assert(s.skip(1) =~= trash::leveled(t));
        }
        assert(seq![rel[0]] + t =~= rel);
    } else {
        assert(trash::leveled(rel) =~= rel);
        assert(trash::unleveled(rel) =~= rel);
    }
}

/// On one level, two underscores stand for each slash, and every other character
/// for itself.
pub proof fn two_underscores_stand_for_a_slash(a: Seq<char>, b: Seq<char>)
    requires
        !a.contains('/'),
    ensures
        trash::leveled(a) == a,
        trash::leveled(a + seq!['/'] + b) == a + seq!['_', '_'] + trash::leveled(b),
    decreases a.len(),
{
    let s = a + seq!['/'] + b;
    lemma_leveled_first(s);
    if a.len() == 0 {
        assert(trash::leveled(a) =~= a);
        assert(s.skip(1) =~= b);
        assert(a + seq!['_', '_'] + trash::leveled(b) =~= seq!['_', '_'] + trash::leveled(b));
    } else {
        let t = a.skip(1);
        lemma_no_char(a, '/');
        two_underscores_stand_for_a_slash(t, b);
        lemma_leveled_first(a);
        assert(seq![a[0]] + t =~= a);
        assert(s.skip(1) =~= t + seq!['/'] + b);
        assert(seq![a[0]] + (t + seq!['_', '_'] + trash::leveled(b)) =~= a + seq!['_', '_']
            + trash::leveled(b));
    }
}

/// The name in the trash of a path without underscores is the time, a dash, and
/// the path on one level.
pub proof fn a_name_in_the_trash_is_time_and_path(rel: Seq<char>, stamp: Seq<char>)
    requires
        !rel.contains('_'),
    ensures
        trash::trash_name(rel, stamp) == stamp + seq!['-'] + trash::leveled(rel),
{
    reveal_strlit("-");
    lemma_recognisable(rel);
    assert(stamp + ("-"@ + trash::leveled(rel)) =~= stamp + seq!['-'] + trash::leveled(rel));
}

// ---------------------------------------------------------------------------
// Out of the trash
// ---------------------------------------------------------------------------

/// What was moved into the trash comes back to where it lay, whatever its path
/// and whichever name it was given: its folder is made, the place is looked up,
/// and it is moved there where that is free.
pub proof fn what_was_deleted_comes_back(
    root: Seq<char>,
    rel: Seq<char>,
    dir: Seq<char>,
    n: Seq<char>,
    stamp: Seq<char>,
    k: int,
    cause: Seq<char>,
)
    requires
        paths::is_directory(dir),
        paths::is_proper_name(n),
        paths::joined(root, rel) == dir + seq!['/'] + n,
        clock::is_stamp(stamp),
        0 <= k,
    ensures
        ({
            let ok = AnswerView::Outcome(Ok(()));
            let failed = AnswerView::Outcome(Err(cause));
            let path = trash::trash_names(root, rel, stamp).nth(k);
            let place = dir + seq!['/'] + n;
            let a = trash::restoring(root, path);
            let b = a.after(ok);
            let c = b.after(AnswerView::Exists(false));
            &&& a.pending() == (FileStepView::MakeDir { dir })
            &&& b.pending() == (FileStepView::Probe { path: place })
            &&& c.pending() == (FileStepView::Rename { from: path, to: place })
            &&& c.after(ok).pending() == (FileStepView::Finish { outcome: Ok(place) })
            &&& a.after(failed).pending() == (FileStepView::Finish {
                outcome: Err("Failed to create dir: "@ + cause),
            })
            &&& b.after(AnswerView::Exists(true)).pending() == (FileStepView::Finish {
                outcome: Err("A file already exists at the original location: "@ + place),
            })
            &&& c.after(failed).pending() == (FileStepView::Finish {
                outcome: Err("Failed to restore: "@ + cause),
            })
        }),
{
    trash_laws::restoring_undoes_trashing(root, rel, stamp, k);
    paths::what_lies_in_a_directory(dir, n);
}

/// What has no name, or a name that tells of no origin, does not come back.
pub proof fn what_tells_of_no_origin_does_not_come_back(
    root: Seq<char>,
    path: Seq<char>,
    n: Seq<char>,
)
    ensures
        paths::file_name_of(path) is None ==> trash::restoring(root, path).pending() == (
        FileStepView::Finish { outcome: Err("Invalid trash path"@) }),
        paths::file_name_of(path) == Some(n) && trash::origin(n) is None ==> trash::restoring(
            root,
            path,
        ).pending() == (FileStepView::Finish { outcome: Err("Invalid trash filename"@) }),
{
}

/// A name in the trash with nothing but the time before the path is read with a
/// slash for each two underscores.
pub proof fn a_plain_name_is_read_with_slashes(stamp: Seq<char>, flat: Seq<char>)
    requires
        clock::is_stamp(stamp),
    ensures
        trash::origin(stamp + seq!['-'] + flat) == Some(trash::unleveled(flat)),
{
    let name = stamp + seq!['-'] + flat;
    let i = stamp.len() - 7;
    assert forall|k: int| 0 <= k < i implies #[trigger] name[k] != '-' by {
        assert(name[k] == stamp[k]);
        assert(clock::is_digit(stamp[k]) || stamp[k] == '+');
    }
    assert(name[i] == stamp[i]);
    trash_laws::lemma_dash_at(name, i);
    let rest = name.skip(i + 1);
    assert(rest[6] == '-');
    assert forall|k: int| 0 <= k < 6 implies #[trigger] rest[k] != '-' by {
        assert(rest[k] == stamp[i + 1 + k]);
        assert(clock::is_digit(stamp[i + 1 + k]) || stamp[i + 1 + k] == '+');
    }
    trash_laws::lemma_dash_at(rest, 6);
    assert(name[i + 6] == stamp[i + 6]);
    assert(clock::is_digit(stamp[i + 6]) || stamp[i + 6] == '+');
    assert(name.skip(i + 8) =~= flat);
}

/// A name with fewer than two dashes tells of no origin.
pub proof fn a_name_without_dashes_is_refused(a: Seq<char>, b: Seq<char>)
    requires
        !a.contains('-'),
        !b.contains('-'),
    ensures
        trash::origin(a) is None,
        trash::origin(a + seq!['-'] + b) is None,
{
    lemma_no_dash(a);
    lemma_no_dash(b);
    let s = a + seq!['-'] + b;
    assert forall|k: int| 0 <= k < a.len() implies #[trigger] s[k] != '-' by {
        assert(a.contains(a[k]));
    }
    trash_laws::lemma_dash_at(s, a.len() as int);
    assert(s.skip((a.len() + 1) as int) =~= b);
}

proof fn lemma_no_dash(s: Seq<char>)
    requires
        !s.contains('-'),
    ensures
        trash::first_dash(s) is None,
{
    reveal_strlit("-");
    text::first_occurrence_is_first(s, "-"@);
    if text::contains_text(s, "-"@) {
        let i = choose|i: int| text::occurs_at(s, "-"@, i);
        assert(s.subrange(i, i + 1)[0] == s[i]);
        assert(s.contains(s[i]));
    }
}

// ---------------------------------------------------------------------------
// Purging and emptying
// ---------------------------------------------------------------------------

/// What is purged is exactly what is expired, in the order in which it is
/// listed.
pub proof fn what_is_expired_is_purged(names: Seq<Seq<char>>, cutoff: Seq<char>, n: int)
    requires
        0 <= n <= names.len(),
    ensures
        trash::expired_names(names, cutoff, n) == names.take(n).filter(
            |x: Seq<char>| trash::is_expired(x, cutoff),
        ),
    decreases n,
{
    reveal(Seq::filter);
    let t = names.take(n);
    if n > 0 {
        what_is_expired_is_purged(names, cutoff, n - 1);
        assert(t.drop_last() =~= names.take(n - 1));
        assert(t.last() == names[n - 1]);
    }
}

/// Purging names the things in the trash, one path for each name.
pub proof fn purging_names_things_in_the_trash(root: Seq<char>, names: Seq<Seq<char>>, i: int)
    requires
        0 <= i < names.len(),
    ensures
        trash::in_trash_dir(root, names).len() == names.len(),
        trash::in_trash_dir(root, names)[i] == paths::joined(
            paths::joined(root, ".aanote-trash"@),
            names[i],
        ),
{
}

/// A name with fewer than 15 bytes does not expire.
pub proof fn a_short_name_does_not_expire(name: Seq<char>, cutoff: Seq<char>)
    requires
        bytes::byte_len(name, name.len() as int) < 15,
    ensures
        !trash::is_expired(name, cutoff),
{
}

/// A name of ASCII characters expires exactly where its first fifteen come
/// before the cut-off.
pub proof fn fifteen_characters_tell_the_time(front: Seq<char>, tail: Seq<char>, cutoff: Seq<char>)
    requires
        front.len() == 15,
        forall|i: int| 0 <= i < 15 ==> (#[trigger] front[i] as u32) < 0x80,
    ensures
        trash::is_expired(front + tail, cutoff) <==> text::text_lt(front, cutoff),
{
    let name = front + tail;
    assert forall|i: int| 0 <= i < 15 implies (#[trigger] name[i] as u32) < 0x80 by {
        assert(name[i] == front[i]);
    }
    bytes::ascii_takes_one_byte_each(name, 15);
    bytes::chars_before_byte_len(name, 15);
    bytes::byte_len_grows(name, 15, name.len() as int);
    assert(name.take(15) =~= front);
}

/// The trash is purged of what was deleted more than thirty days before.
pub proof fn the_trash_keeps_thirty_days()
    ensures
        trash::RETENTION_MS == 30 * 24 * 60 * 60 * 1000,
{
}

/// What is reported of emptying the trash is how many deletions succeeded.
pub proof fn every_success_is_counted(done: Seq<bool>, n: int)
    requires
        0 <= n <= done.len(),
    ensures
        trash::successes(done, n) == done.take(n).filter(|b: bool| b).len(),
    decreases n,
{
    reveal(Seq::filter);
    let t = done.take(n);
    if n > 0 {
        every_success_is_counted(done, n - 1);
        assert(t.drop_last() =~= done.take(n - 1));
        assert(t.last() == done[n - 1]);
    }
}

// ---------------------------------------------------------------------------
// Conflict copies
// ---------------------------------------------------------------------------

/// The making of a copy once the next `k` names were found to be taken.
pub open spec fn with_taken_names(s: RescueView, k: nat) -> RescueView
    decreases k,
{
    if k == 0 {
        s
    } else {
        with_taken_names(s, (k - 1) as nat).after(AnswerView::Exists(true))
    }
}

proof fn lemma_with_taken_names(s: RescueView, k: nat)
    requires
        s.stage is Name,
    ensures
        with_taken_names(s, k) == (RescueView {
            names: crate::steps::TrialView { tried: s.names.tried + k, ..s.names },
            ..s
        }),
    decreases k,
{
    if k > 0 {
        lemma_with_taken_names(s, (k - 1) as nat);
    }
}

/// How a copy beside a note is called: after the note, the side and the time;
/// with a number from 2 on where that is taken.
pub open spec fn copy_name(
    dir: Seq<char>,
    stem: Seq<char>,
    side: Seq<char>,
    stamp: Seq<char>,
    k: nat,
) -> Seq<char> {
    dir + seq!['/'] + stem + " ("@ + side + " conflict "@ + stamp + (if k == 0 {
        Seq::empty()
    } else {
        seq!['-'] + text::decimal(k + 1)
    }) + ").md"@
}

proof fn lemma_copy_name(
    dir: Seq<char>,
    stem: Seq<char>,
    side: Side,
    stamp: Seq<char>,
    k: nat,
)
    requires
        dir.len() > 0,
        dir.last() != '/',
        stem.len() > 0,
        stem[0] != '/',
    ensures
        conflict::copy_names(dir, stem, side, stamp).nth(k as int) == copy_name(
            dir,
            stem,
            match side {
                Side::Local => "local"@,
                Side::Remote => "remote"@,
            },
            stamp,
            k,
        ),
{
    reveal_strlit("-");
    reveal_strlit(").md");
    let front = conflict::copy_front(stem, side, stamp);
    let name = conflict::side_name(side);
    assert(front[0] == stem[0]);
    assert((front + ").md"@)[0] == stem[0]);
    assert((front + "-"@)[0] == stem[0]);
    let t = conflict::copy_names(dir, stem, side, stamp);
    if k == 0 {
        assert(t.nth(0) =~= copy_name(dir, stem, name, stamp, k));
    } else {
        assert(t.nth(k as int) =~= copy_name(dir, stem, name, stamp, k));
    }
}

/// `stem` is the name `n` without its extension: what stands before its last dot,
/// unless it has none or begins with it.
pub open spec fn is_stem(stem: Seq<char>, n: Seq<char>) -> bool {
    stem.len() > 0 && ((exists|ext: Seq<char>|
        !ext.contains('.') && #[trigger] (stem + "."@ + ext) == n) || (stem == n && !n.contains(
        '.',
    )) || (stem == n && exists|ext: Seq<char>|
        !ext.contains('.') && #[trigger] ("."@ + ext) == n))
}

proof fn lemma_stem(stem: Seq<char>, n: Seq<char>)
    requires
        is_stem(stem, n),
        paths::is_proper_name(n),
    ensures
        paths::stem_of(n) == stem,
        stem[0] != '/',
{
    reveal_strlit(".");
    assert("."@ =~= seq!['.']);
    assert(n.contains(n[0]));
    assert(n[0] == stem[0]);
    if exists|ext: Seq<char>| !ext.contains('.') && #[trigger] (stem + "."@ + ext) == n {
        let ext = choose|ext: Seq<char>| !ext.contains('.') && #[trigger] (stem + "."@ + ext) == n;
        if stem == seq!['.'] && ext.len() == 0 {
            assert(n =~= seq!['.', '.']);
        }
        paths::the_stem_ends_before_the_last_dot(stem, ext);
    } else if !n.contains('.') {
        paths::a_name_without_dot_is_its_stem(n);
    } else {
        let ext = choose|ext: Seq<char>| !ext.contains('.') && #[trigger] ("."@ + ext) == n;
        paths::a_dot_at_the_beginning_belongs_to_the_stem(ext);
    }
}

/// The version of Drive is written beside the note, under the first of its names
/// that is free, whatever the path of the note.
pub proof fn the_version_of_drive_is_kept(
    root: Seq<char>,
    rel: Seq<char>,
    dir: Seq<char>,
    n: Seq<char>,
    stem: Seq<char>,
    stamp: Seq<char>,
    k: nat,
    cause: Seq<char>,
)
    requires
        paths::is_directory(dir),
        paths::is_proper_name(n),
        paths::joined(root, rel) == dir + seq!['/'] + n,
        is_stem(stem, n),
    ensures
        ({
            let s = with_taken_names(conflict::rescue_begun(Side::Remote, root, rel, stamp), k);
            let t = s.after(AnswerView::Exists(false));
            let name = copy_name(dir, stem, "remote"@, stamp, k);
            &&& s.pending() == (FileStepView::Probe { path: name })
            &&& t.pending() == (FileStepView::Write { to: name })
            &&& t.after(AnswerView::Outcome(Ok(()))).pending() == (FileStepView::Finish {
                outcome: Ok(name),
            })
            &&& t.after(AnswerView::Outcome(Err(cause))).pending() == (FileStepView::Finish {
                outcome: Err(
                    "Failed to save a conflict copy of "@ + paths::joined(root, rel) + ": "@ + cause,
                ),
            })
        }),
{
    let s = conflict::rescue_begun(Side::Remote, root, rel, stamp);
    paths::what_lies_in_a_directory(dir, n);
    lemma_stem(stem, n);
    lemma_copy_name(dir, stem, Side::Remote, stamp, k);
    lemma_with_taken_names(s, k);
}

/// The version on disk is copied beside the note, under the first of its names
/// that is free, whatever the path of the note; where there is none there is
/// nothing to copy.
pub proof fn the_version_on_disk_is_kept(
    root: Seq<char>,
    rel: Seq<char>,
    dir: Seq<char>,
    n: Seq<char>,
    stem: Seq<char>,
    stamp: Seq<char>,
    k: nat,
    cause: Seq<char>,
)
    requires
        paths::is_directory(dir),
        paths::is_proper_name(n),
        paths::joined(root, rel) == dir + seq!['/'] + n,
        is_stem(stem, n),
    ensures
        ({
            let a = conflict::rescue_begun(Side::Local, root, rel, stamp);
            let s = with_taken_names(a.after(AnswerView::Exists(true)), k);
            let t = s.after(AnswerView::Exists(false));
            let name = copy_name(dir, stem, "local"@, stamp, k);
            &&& a.pending() == (FileStepView::Probe { path: paths::joined(root, rel) })
            &&& a.after(AnswerView::Exists(false)).pending() == FileStepView::Stop
            &&& s.pending() == (FileStepView::Probe { path: name })
            &&& t.pending() == (FileStepView::Copy { from: paths::joined(root, rel), to: name })
            &&& t.after(AnswerView::Outcome(Ok(()))).pending() == (FileStepView::Finish {
                outcome: Ok(name),
            })
            &&& t.after(AnswerView::Outcome(Err(cause))).pending() == (FileStepView::Finish {
                outcome: Err(
                    "Failed to save a conflict copy of "@ + paths::joined(root, rel) + ": "@ + cause,
                ),
            })
        }),
{
    let a = conflict::rescue_begun(Side::Local, root, rel, stamp);
    paths::what_lies_in_a_directory(dir, n);
    lemma_stem(stem, n);
    lemma_copy_name(dir, stem, Side::Local, stamp, k);
    lemma_with_taken_names(a.after(AnswerView::Exists(true)), k);
}

/// Without a directory there is no place for a copy.
pub proof fn without_a_directory_there_is_no_copy(
    side: Side,
    root: Seq<char>,
    rel: Seq<char>,
    stamp: Seq<char>,
)
    requires
        paths::parent_of(paths::joined(root, rel)) is None,
    ensures
        conflict::rescue_begun(side, root, rel, stamp).pending() == (FileStepView::Finish {
            outcome: Err("No place for a conflict copy of "@ + paths::joined(root, rel)),
        }),
{
}

/// Whatever is asked may be answered either way, as long as the numbers of the
/// names fit.
pub proof fn every_answer_that_fits_is_taken(
    t: TrashView,
    r: trash::RestoreView,
    c: RescueView,
    b: bool,
    o: Result<(), Seq<char>>,
)
    ensures
        t.pending() is Probe && t.names.start + t.names.tried < u64::MAX ==> t.accepts(
            AnswerView::Exists(b),
        ),
        t.pending() is MakeDir || t.pending() is Rename ==> t.accepts(AnswerView::Outcome(o)),
        r.pending() is Probe ==> r.accepts(AnswerView::Exists(b)),
        r.pending() is MakeDir || r.pending() is Rename ==> r.accepts(AnswerView::Outcome(o)),
        c.pending() is Probe && c.names.start + c.names.tried < u64::MAX ==> c.accepts(
            AnswerView::Exists(b),
        ),
        c.pending() is Copy || c.pending() is Write ==> c.accepts(AnswerView::Outcome(o)),
{
}

} // verus!
