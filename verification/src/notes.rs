//! Making, reading, saving, moving and deleting notes: the rules that decide,
//! and what is reported.

use crate::paths;
use crate::paths::join;
use crate::text;
use crate::text::{has_char, join2, join3, replace, same_text, trim};
use crate::text_laws;
use vstd::prelude::*;

verus! {

/// What is reported where `doing` something with `path` failed.
pub open spec fn failure_text(doing: Seq<char>, path: Seq<char>, cause: Seq<char>) -> Seq<char> {
    doing + path + ": "@ + cause
}

/// What is reported where `doing` something with `path` failed.
pub fn failure(doing: &str, path: &str, cause: &str) -> (r: String)
    ensures
        r@ == failure_text(doing@, path@, cause@),
{
    let mut s = join2(doing, path);
    s.append(": ");
    s.append(cause);
    s
}

/// What a step that only succeeds or fails came to.
pub open spec fn outcome_view(r: Result<(), String>) -> Result<(), Seq<char>> {
    match r {
        Ok(_) => Ok(()),
        Err(e) => Err(e@),
    }
}

/// What a step that gives a text came to.
pub open spec fn text_view(r: Result<String, String>) -> Result<Seq<char>, Seq<char>> {
    match r {
        Ok(t) => Ok(t@),
        Err(e) => Err(e@),
    }
}

// ---------------------------------------------------------------------------
// Names
// ---------------------------------------------------------------------------

/// `name` without white space at its ends, where it can be the name of a note
/// or a folder: it is not empty and leads nowhere else.
pub open spec fn sanitized(name: Seq<char>) -> Result<Seq<char>, Seq<char>> {
    let t = text::trimmed(name);
    if t.len() == 0 {
        Err("Name cannot be empty"@)
    } else if t.contains('/') || t.contains('\\') {
        Err("Name cannot contain a path separator (/ or \\): \""@ + t + "\""@)
    } else if t == ".."@ {
        Err("Name cannot contain \"..\""@)
    } else {
        Ok(t)
    }
}

/// `name` without white space at its ends, where it can be the name of a note
/// or a folder.
pub fn sanitize_name(name: &str) -> (r: Result<String, String>)
    ensures
        text_view(r) == sanitized(name@),
{
    let t = trim(name);
    if t.as_str().is_empty() {
        return Err("Name cannot be empty".to_owned());
    }
    if has_char(t.as_str(), '/') || has_char(t.as_str(), '\\') {
        return Err(
            join3("Name cannot contain a path separator (/ or \\): \"", t.as_str(), "\""),
        );
    }
    if same_text(t.as_str(), "..") {
        return Err("Name cannot contain \"..\"".to_owned());
    }
    Ok(t)
}

// ---------------------------------------------------------------------------
// Making
// ---------------------------------------------------------------------------

/// Where the note `name` of the directory `dir` stands.
pub open spec fn note_place(dir: Seq<char>, name: Seq<char>) -> Result<Seq<char>, Seq<char>> {
    match sanitized(name) {
        Ok(n) => Ok(paths::joined(dir, n + ".md"@)),
        Err(e) => Err(e),
    }
}

/// Where the folder `name` of the directory `dir` stands.
pub open spec fn folder_place(dir: Seq<char>, name: Seq<char>) -> Result<Seq<char>, Seq<char>> {
    match sanitized(name) {
        Ok(n) => Ok(paths::joined(dir, n)),
        Err(e) => Err(e),
    }
}

/// `place`, unless something stands there.
pub open spec fn unless_taken(
    place: Result<Seq<char>, Seq<char>>,
    taken: bool,
    what: Seq<char>,
) -> Result<Seq<char>, Seq<char>> {
    match place {
        Ok(p) => if taken {
            Err(what + p)
        } else {
            Ok(p)
        },
        Err(e) => Err(e),
    }
}

/// Where the note `name` of the directory `dir_path` stands.
pub fn note_path(dir_path: &str, name: &str) -> (r: Result<String, String>)
    ensures
        text_view(r) == note_place(dir_path@, name@),
{
    match sanitize_name(name) {
        Ok(n) => Ok(join(dir_path, join2(n.as_str(), ".md").as_str())),
        Err(e) => Err(e),
    }
}

/// Where the folder `name` of the directory `dir_path` stands.
pub fn folder_path(dir_path: &str, name: &str) -> (r: Result<String, String>)
    ensures
        text_view(r) == folder_place(dir_path@, name@),
{
    match sanitize_name(name) {
        Ok(n) => Ok(join(dir_path, n.as_str())),
        Err(e) => Err(e),
    }
}

/// Where a new note is to be written. `taken` says whether something stands at
/// its path.
pub fn create_note(dir_path: &str, name: &str, taken: bool) -> (r: Result<String, String>)
    ensures
        text_view(r) == unless_taken(
            note_place(dir_path@, name@),
            taken,
            "Note already exists: "@,
        ),
{
    match note_path(dir_path, name) {
        Ok(p) => if taken {
            Err(join2("Note already exists: ", p.as_str()))
        } else {
            Ok(p)
        },
        Err(e) => Err(e),
    }
}

/// Where a new folder is to be made. `taken` says whether something stands at
/// its path.
pub fn create_folder(dir_path: &str, name: &str, taken: bool) -> (r: Result<String, String>)
    ensures
        text_view(r) == unless_taken(
            folder_place(dir_path@, name@),
            taken,
            "Folder already exists: "@,
        ),
{
    match folder_path(dir_path, name) {
        Ok(p) => if taken {
            Err(join2("Folder already exists: ", p.as_str()))
        } else {
            Ok(p)
        },
        Err(e) => Err(e),
    }
}

// ---------------------------------------------------------------------------
// Reading and saving
// ---------------------------------------------------------------------------

/// The content of a note, with plain line breaks. `read` is what came of
/// reading the file.
pub fn read_note(path: &str, read: Result<String, String>) -> (r: Result<String, String>)
    ensures
        text_view(r) == match read {
            Ok(s) => Ok(text::replaced(s@, "\r\n"@, "\n"@)),
            Err(e) => Err(failure_text("Failed to read "@, path@, e@)),
        },
{
    match read {
        Ok(s) => {
            proof {
                reveal_strlit("\r\n");
            }
            Ok(replace(s.as_str(), "\r\n", "\n"))
        },
        Err(e) => Err(failure("Failed to read ", path, e.as_str())),
    }
}

/// What is reported of saving a note. `written` is what came of writing it.
pub fn save_note(path: &str, written: Result<(), String>) -> (r: Result<(), String>)
    ensures
        outcome_view(r) == match written {
            Ok(_) => Ok(()),
            Err(e) => Err(failure_text("Failed to save "@, path@, e@)),
        },
{
    match written {
        Ok(_) => Ok(()),
        Err(e) => Err(failure("Failed to save ", path, e.as_str())),
    }
}

/// What the file system tells of when a file changed.
pub enum Stat {
    /// Seconds since the start of 1970, and milliseconds beyond them.
    Changed { secs: u64, millis: u32 },
    /// That cannot be told, or lies before 1970.
    Unknown,
    /// There is no such file.
    Missing,
    /// Nothing can be told of the file.
    Failed,
}

/// A time in milliseconds.
pub open spec fn total_millis(secs: u64, millis: u32) -> int {
    secs * 1000 + millis
}

/// A time in milliseconds.
pub fn millis_of(secs: u64, millis: u32) -> (r: u64)
    requires
        total_millis(secs, millis) <= u64::MAX,
    ensures
        r == total_millis(secs, millis),
        r == secs * 1000 + millis,
{
    secs * 1000 + millis as u64
}

/// When a file changed, in milliseconds; nothing where it is missing or that
/// cannot be told.
pub fn file_mtime(stat: &Stat) -> (r: Result<Option<u64>, String>)
    requires
        *stat matches Stat::Changed { secs, millis } ==> total_millis(secs, millis) <= u64::MAX,
    ensures
        match (stat, r) {
            (Stat::Changed { secs, millis }, Ok(Some(ms))) => ms == *secs * 1000 + *millis,
            (Stat::Unknown, Ok(None)) => true,
            (Stat::Missing, Ok(None)) => true,
            (Stat::Failed, Ok(None)) => true,
            _ => false,
        },
{
    match stat {
        Stat::Changed { secs, millis } => Ok(Some(millis_of(*secs, *millis))),
        _ => Ok(None),
    }
}

/// A time in milliseconds as whole seconds and the nanoseconds beyond them.
pub fn split_millis(ms: u64) -> (r: (u64, u32))
    ensures
        r.0 == ms / 1000,
        r.1 == (ms % 1000) * 1_000_000,
        r.1 < 1_000_000_000,
{
    (ms / 1000, ((ms % 1000) * 1_000_000) as u32)
}

/// A time that was split and put together again is the same.
pub proof fn split_millis_round_trip(ms: u64)
    ensures
        total_millis(ms / 1000, ((ms % 1000) * 1_000_000 / 1_000_000) as u32) == ms,
{
}

/// The note changed on disk since the editor last saw it.
pub open spec fn changed_behind(expected: Option<u64>, on_disk: Option<u64>) -> bool {
    match (expected, on_disk) {
        (Some(e), Some(a)) => a != e,
        _ => false,
    }
}

/// Whether a note may be saved: not where it changed on disk since the time
/// `expected`. A note that is gone may be written anew, and without an expected
/// time it may be saved in any case. `on_disk` is when the file changed.
pub fn save_note_if_unchanged(
    expected: Option<u64>,
    on_disk: Result<Option<u64>, String>,
) -> (r: Result<bool, String>)
    ensures
        match r {
            Ok(save) => (expected is Some ==> on_disk is Ok) && save == !(on_disk matches Ok(a)
                && changed_behind(expected, a)),
            Err(e) => expected is Some && (on_disk matches Err(d) && e@ == d@),
        },
        expected is None ==> (r matches Ok(save) && save),
        expected matches Some(e) ==> match (on_disk, r) {
            (Ok(Some(a)), Ok(save)) => save <==> a == e,
            (Ok(None), Ok(save)) => save,
            (Err(d), Err(f)) => f@ == d@,
            _ => false,
        },
{
    match expected {
        Some(e) => match on_disk {
            Ok(Some(a)) => Ok(a == e),
            Ok(None) => Ok(true),
            Err(d) => Err(d),
        },
        None => Ok(true),
    }
}

// ---------------------------------------------------------------------------
// Moving and deleting
// ---------------------------------------------------------------------------

/// Whether a note or folder may be moved to `new_path`: not where something
/// stands there.
pub fn move_node(new_path: &str, taken: bool) -> (r: Result<(), String>)
    ensures
        outcome_view(r) == if taken {
            Err::<(), Seq<char>>("Destination already exists: "@ + new_path@)
        } else {
            Ok(())
        },
{
    if taken {
        Err(join2("Destination already exists: ", new_path))
    } else {
        Ok(())
    }
}

/// What is reported of a move. `moved` is what came of it.
pub fn move_outcome(old_path: &str, new_path: &str, moved: Result<(), String>) -> (r: Result<
    (),
    String,
>)
    ensures
        outcome_view(r) == match moved {
            Ok(_) => Ok(()),
            Err(e) => Err(
                failure_text("Failed to move "@ + old_path@ + " to "@, new_path@, e@),
            ),
        },
{
    match moved {
        Ok(_) => Ok(()),
        Err(e) => Err(
            failure(
                join3("Failed to move ", old_path, " to ").as_str(),
                new_path,
                e.as_str(),
            ),
        ),
    }
}

/// What stands at a path.
#[derive(Debug, Clone, Copy, PartialEq, Eq, Structural)]
pub enum Kind {
    Nothing,
    File,
    Folder,
}

/// Whether there is something to delete at `path`, where `kind` stands.
pub fn delete_node(path: &str, kind: Kind) -> (r: Result<(), String>)
    ensures
        outcome_view(r) == if kind is Nothing {
            Err::<(), Seq<char>>("Does not exist: "@ + path@)
        } else {
            Ok(())
        },
{
    match kind {
        Kind::Nothing => Err(join2("Does not exist: ", path)),
        _ => Ok(()),
    }
}

/// What is reported of a deletion. `deleted` is what came of it.
pub fn delete_outcome(path: &str, kind: Kind, deleted: Result<(), String>) -> (r: Result<
    (),
    String,
>)
    ensures
        outcome_view(r) == match deleted {
            Ok(_) => Ok(()),
            Err(e) => Err(
                failure_text(
                    if kind is Folder {
                        "Failed to delete folder "@
                    } else {
                        "Failed to delete "@
                    },
                    path@,
                    e@,
                ),
            ),
        },
{
    match deleted {
        Ok(_) => Ok(()),
        Err(e) => {
            match kind {
                Kind::Folder => Err(failure("Failed to delete folder ", path, e.as_str())),
                _ => Err(failure("Failed to delete ", path, e.as_str())),
            }
        },
    }
}

/// Whether `url` may be handed to the system's opener: only a web address may.
pub fn open_external_url(url: &str) -> (r: Result<(), String>)
    ensures
        outcome_view(r) == if text::begins_with(url@, "http://"@) || text::begins_with(
            url@,
            "https://"@,
        ) {
            Ok(())
        } else {
            Err::<(), Seq<char>>("Refusing to open non-http URL: "@ + url@)
        },
{
    if crate::text::has_prefix(url, "http://") || crate::text::has_prefix(url, "https://") {
        Ok(())
    } else {
        Err(join2("Refusing to open non-http URL: ", url))
    }
}

// ---------------------------------------------------------------------------
// Laws
// ---------------------------------------------------------------------------

proof fn lemma_trimmed_first(s: Seq<char>)
    ensures
        text::trimmed(s).len() > 0 ==> !text::is_space(text::trimmed(s)[0])
            && !text::is_space(text::trimmed(s).last()),
{
    lemma_trim_start_first(s);
    lemma_trim_end_last(text::trim_start(s));
}

proof fn lemma_trim_start_first(s: Seq<char>)
    ensures
        text::trim_start(s).len() > 0 ==> !text::is_space(text::trim_start(s)[0]),
    decreases s.len(),
{
    if s.len() > 0 && text::is_space(s[0]) {
        lemma_trim_start_first(s.skip(1));
    }
}

proof fn lemma_trim_end_last(s: Seq<char>)
    ensures
        text::trim_end(s).len() > 0 ==> !text::is_space(text::trim_end(s).last())
            && text::trim_end(s)[0] == s[0],
    decreases s.len(),
{
    if s.len() > 0 && text::is_space(s.last()) {
        lemma_trim_end_last(s.drop_last());
    }
}

/// A name that was accepted is accepted as it is.
pub proof fn sanitized_is_stable(name: Seq<char>)
    ensures
        sanitized(name) matches Ok(n) ==> sanitized(n) == Ok::<Seq<char>, Seq<char>>(n),
{
    lemma_trimmed_first(name);
    let t = text::trimmed(name);
    if t.len() > 0 {
        assert(text::trim_start(t) == t);
        assert(text::trim_end(t) == t);
    }
}

/// A new note lies in the directory that was named, whatever its name.
pub proof fn a_new_note_stays_in_its_directory(dir: Seq<char>, name: Seq<char>)
    ensures
        note_place(dir, name) matches Ok(p) ==> paths::parent_of(p) == Some(
            paths::settled(dir, paths::head_len(dir)),
        ) && paths::file_name_of(p) == Some(text::trimmed(name) + ".md"@),
{
    reveal_strlit(".md");
    let n = text::trimmed(name) + ".md"@;
    if sanitized(name) is Ok {
        assert(n.len() > 3);
        assert forall|k: int| 0 <= k < n.len() implies n[k] != '/' by {
            if k < text::trimmed(name).len() {
                assert(text::trimmed(name).contains(n[k]));
            }
        }
        paths::names_stay_in_their_directory(dir, n);
        assert(n != seq!['.', '.']);
    }
}

/// A new folder lies in the directory that was named; the name `.` stands for
/// that directory itself.
pub proof fn a_new_folder_stays_in_its_directory(dir: Seq<char>, name: Seq<char>)
    requires
        text::trimmed(name) != seq!['.'],
    ensures
        folder_place(dir, name) matches Ok(p) ==> paths::parent_of(p) == Some(
            paths::settled(dir, paths::head_len(dir)),
        ) && paths::file_name_of(p) == Some(text::trimmed(name)),
{
    reveal_strlit("..");
    if sanitized(name) is Ok {
        assert(".."@ =~= seq!['.', '.']);
        paths::names_stay_in_their_directory(dir, text::trimmed(name));
    }
}

/// What is reported of a failure is what was being done, the path, and the
/// cause.
pub proof fn a_failure_tells_path_and_cause(doing: Seq<char>, path: Seq<char>, cause: Seq<char>)
    ensures
        failure_text(doing, path, cause) == doing + path + seq![':', ' '] + cause,
{
    reveal_strlit(": ");
    assert(": "@ =~= seq![':', ' ']);
}

/// A name that leads nowhere else is accepted, without the white space around
/// it, whatever characters it has.
pub proof fn a_good_name_is_accepted(a: Seq<char>, m: Seq<char>, b: Seq<char>)
    requires
        text_laws::is_blank(a),
        text_laws::is_blank(b),
        m.len() > 0,
        !text::is_space(m[0]),
        !text::is_space(m.last()),
        !m.contains('/'),
        !m.contains('\\'),
        m != seq!['.', '.'],
    ensures
        sanitized(a + m + b) == Ok::<Seq<char>, Seq<char>>(m),
{
    reveal_strlit("..");
    assert(".."@ =~= seq!['.', '.']);
    text_laws::trimming_takes_off_what_is_blank(a, m, b);
}

/// A name with nothing in it, one with a separator in it, and the name of the
/// folder above are refused.
pub proof fn a_bad_name_is_refused(a: Seq<char>, m: Seq<char>, b: Seq<char>)
    requires
        text_laws::is_blank(a),
        text_laws::is_blank(b),
    ensures
        sanitized(a) == Err::<Seq<char>, Seq<char>>("Name cannot be empty"@),
        m.len() > 0 && !text::is_space(m[0]) && !text::is_space(m.last()) ==> {
            &&& m.contains('/') || m.contains('\\') ==> sanitized(a + m + b) == Err::<
                Seq<char>,
                Seq<char>,
            >("Name cannot contain a path separator (/ or \\): \""@ + m + "\""@)
            &&& m == seq!['.', '.'] ==> sanitized(a + m + b) == Err::<Seq<char>, Seq<char>>(
                "Name cannot contain \"..\""@,
            )
        },
{
    reveal_strlit("..");
    assert(".."@ =~= seq!['.', '.']);
    text_laws::nothing_is_left_of_what_is_blank(a);
    if m.len() > 0 && !text::is_space(m[0]) && !text::is_space(m.last()) {
        text_laws::trimming_takes_off_what_is_blank(a, m, b);
        if m == seq!['.', '.'] {
            assert(!m.contains('/') && !m.contains('\\'));
        }
    }
}

/// A new note is called by its name and `.md`, in the directory that was named; a
/// new folder by its name.
pub proof fn a_new_note_is_called_by_its_name(dir: Seq<char>, name: Seq<char>, m: Seq<char>)
    requires
        sanitized(name) == Ok::<Seq<char>, Seq<char>>(m),
        dir.len() > 0,
        dir.last() != '/',
    ensures
        note_place(dir, name) == Ok::<Seq<char>, Seq<char>>(
            dir + seq!['/'] + m + seq!['.', 'm', 'd'],
        ),
        folder_place(dir, name) == Ok::<Seq<char>, Seq<char>>(dir + seq!['/'] + m),
{
    reveal_strlit(".md");
    let n = m + ".md"@;
    assert(m.len() > 0);
    assert(m.contains(m[0]));
    assert(n[0] == m[0]);
    paths::a_path_is_put_behind_its_directory(dir, n);
    paths::a_path_is_put_behind_its_directory(dir, m);
    assert(dir + seq!['/'] + n =~= dir + seq!['/'] + m + seq!['.', 'm', 'd']);
}

/// A name that is refused is refused for notes and folders alike.
pub proof fn a_refused_name_has_no_place(dir: Seq<char>, name: Seq<char>, e: Seq<char>)
    requires
        sanitized(name) == Err::<Seq<char>, Seq<char>>(e),
    ensures
        note_place(dir, name) == Err::<Seq<char>, Seq<char>>(e),
        folder_place(dir, name) == Err::<Seq<char>, Seq<char>>(e),
{
}

/// A place that is free is given, one that is taken is not.
pub proof fn only_a_free_place_is_given(p: Seq<char>, what: Seq<char>, e: Seq<char>, taken: bool)
    ensures
        unless_taken(Ok(p), false, what) == Ok::<Seq<char>, Seq<char>>(p),
        unless_taken(Ok(p), true, what) == Err::<Seq<char>, Seq<char>>(what + p),
        unless_taken(Err(e), taken, what) == Err::<Seq<char>, Seq<char>>(e),
{
}

/// Reading a note gives each line break of two characters as one, and every
/// other character as it is.
pub proof fn line_breaks_are_read_as_one(a: Seq<char>, b: Seq<char>)
    requires
        !text::contains_text(a, "\r\n"@),
    ensures
        text::replaced(a, "\r\n"@, "\n"@) == a,
        text::replaced(a + "\r\n"@ + b, "\r\n"@, "\n"@) == a + "\n"@ + text::replaced(
            b,
            "\r\n"@,
            "\n"@,
        ),
{
    reveal_strlit("\r\n");
    let pat = "\r\n"@;
    let s = a + pat + b;
    text::what_does_not_occur_is_not_replaced(a, pat, "\n"@);
    assert forall|i: int| 0 <= i < a.len() implies !#[trigger] text::occurs_at(s, pat, i) by {
        if text::occurs_at(s, pat, i) {
            assert(s.subrange(i, i + 2)[0] == s[i] && s.subrange(i, i + 2)[1] == s[i + 1]);
            if i + 1 < a.len() {
                assert(a.subrange(i, i + 2) =~= pat);
                assert(text::occurs_at(a, pat, i));
            } else {
                assert(s[i + 1] == pat[0]);
            }
        }
    }
    text_laws::the_first_occurrence_is_replaced(a, pat, b, "\n"@);
}

} // verus!
