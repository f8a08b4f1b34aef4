//! Files in the Drive folder, and what becomes of two that share a name.

use crate::clock;
use crate::clock::parse_rfc3339_to_ms;
use crate::index::{EntryView, SyncMeta};
use crate::pathmap::Shelf;
use crate::text;
use crate::text::{not_after, same_text};
use vstd::prelude::*;

verus! {

/// A file as Drive lists it.
#[derive(Debug)]
pub struct DriveFile {
    pub id: String,
    pub name: String,
    pub modified_time: Option<String>,
    pub mime_type: Option<String>,
}

/// The content of a [`DriveFile`].
pub struct FileView {
    pub id: Seq<char>,
    pub name: Seq<char>,
    pub modified_time: Option<Seq<char>>,
    pub mime_type: Option<Seq<char>>,
}

impl View for DriveFile {
    type V = FileView;

    open spec fn view(&self) -> FileView {
        FileView {
            id: self.id@,
            name: self.name@,
            modified_time: text::opt_text(self.modified_time),
            mime_type: text::opt_text(self.mime_type),
        }
    }
}

fn clone_opt(s: &Option<String>) -> (r: Option<String>)
    ensures
        text::opt_text(r) == text::opt_text(*s),
{
    match s {
        Some(t) => Some(t.clone()),
        None => None,
    }
}

impl Clone for DriveFile {
    fn clone(&self) -> (r: DriveFile)
        ensures
            r@ == self@,
    {
        DriveFile {
            id: self.id.clone(),
            name: self.name.clone(),
            modified_time: clone_opt(&self.modified_time),
            mime_type: clone_opt(&self.mime_type),
        }
    }
}

/// The contents of a list of files.
pub open spec fn views(files: Seq<DriveFile>) -> Seq<FileView> {
    files.map_values(|f: DriveFile| f@)
}

/// When a time that Drive gave was, in milliseconds; 0 where it gave none or
/// one that cannot be read.
pub open spec fn time_ms(modified: Option<Seq<char>>) -> int {
    match modified {
        Some(t) => clock::ms_or_zero(clock::rfc3339_ms(t)),
        None => 0,
    }
}

impl FileView {
    /// When the file last changed on Drive.
    pub open spec fn mtime(self) -> int {
        time_ms(self.modified_time)
    }

    pub open spec fn is_folder(self) -> bool {
        self.mime_type == Some(FOLDER_TYPE@)
    }
}

/// The type under which Drive lists a folder.
pub const FOLDER_TYPE: &'static str = "application/vnd.google-apps.folder";

/// When a time that Drive gave was, in milliseconds.
pub fn modified_ms(modified: &Option<String>) -> (r: u64)
    ensures
        r == time_ms(text::opt_text(*modified)),
{
    match modified {
        Some(t) => parse_rfc3339_to_ms(t.as_str()),
        None => 0,
    }
}

impl DriveFile {
    /// When the file last changed on Drive.
    pub fn mtime_ms(&self) -> (r: u64)
        ensures
            r == self@.mtime(),
    {
        modified_ms(&self.modified_time)
    }

    /// Whether this is a folder.
    pub fn is_folder(&self) -> (r: bool)
        ensures
            r == self@.is_folder(),
    {
        match &self.mime_type {
            Some(t) => same_text(t.as_str(), FOLDER_TYPE),
            None => false,
        }
    }
}

// ---------------------------------------------------------------------------
// Files that share a name
// ---------------------------------------------------------------------------

/// Of two files with one name, `a` stays: it is the one that the index maps
/// the name to, or, where the index maps it to neither, the one that changed
/// last, or, where both changed at the same time, the one with the lesser id.
pub open spec fn outranks(mapped: Option<Seq<char>>, a: FileView, b: FileView) -> bool {
    if mapped == Some(a.id) {
        true
    } else if mapped == Some(b.id) {
        false
    } else if a.mtime() == b.mtime() {
        text::text_lt(a.id, b.id)
    } else {
        a.mtime() > b.mtime()
    }
}

/// The id that the index maps `name` to.
pub open spec fn mapped_id(index: Shelf<EntryView>, name: Seq<char>) -> Option<Seq<char>> {
    match index.get(name) {
        Some(e) => Some(e.id),
        None => None,
    }
}

/// Where the file called `name` stands in `files`.
pub open spec fn name_position(files: Seq<FileView>, name: Seq<char>) -> Option<int>
    decreases files.len(),
{
    if files.len() == 0 {
        None
    } else {
        match name_position(files.drop_last(), name) {
            Some(i) => Some(i),
            None => if files.last().name == name {
                Some(files.len() - 1)
            } else {
                None
            },
        }
    }
}

/// Files with one file for each name, and the ids of the others.
pub struct Dedup {
    pub kept: Seq<FileView>,
    pub doomed: Seq<Seq<char>>,
}

impl Dedup {
    /// With one more file.
    pub open spec fn with(self, index: Shelf<EntryView>, f: FileView) -> Dedup {
        match name_position(self.kept, f.name) {
            Some(i) => if outranks(mapped_id(index, f.name), self.kept[i], f) {
                Dedup { kept: self.kept, doomed: self.doomed.push(f.id) }
            } else {
                Dedup { kept: self.kept.update(i, f), doomed: self.doomed.push(self.kept[i].id) }
            },
            None => Dedup { kept: self.kept.push(f), doomed: self.doomed },
        }
    }
}

/// One file for each name in `files`, and the ids of the others.
pub open spec fn dedup(index: Shelf<EntryView>, files: Seq<FileView>) -> Dedup
    decreases files.len(),
{
    if files.len() == 0 {
        Dedup { kept: Seq::empty(), doomed: Seq::empty() }
    } else {
        dedup(index, files.drop_last()).with(index, files.last())
    }
}

/// The contents of a list of texts.
pub open spec fn texts(v: Seq<String>) -> Seq<Seq<char>> {
    v.map_values(|s: String| s@)
}

/// Where the file called `name` stands in `files`.
pub fn find_name(files: &Vec<DriveFile>, name: &str) -> (r: Option<usize>)
    ensures
        match r {
            Some(i) => i < files@.len() && name_position(views(files@), name@) == Some(i as int),
            None => name_position(views(files@), name@) is None,
        },
{
    let mut i: usize = 0;
    assert(views(files@).take(0) =~= Seq::empty());
    while i < files.len()
        invariant
            i <= files@.len(),
            name_position(views(files@).take(i as int), name@) is None,
        decreases files@.len() - i,
    {
        assert(views(files@).take(i + 1).drop_last() =~= views(files@).take(i as int));
        assert(views(files@).take(i + 1).last() == files@[i as int]@);
        if same_text(files[i].name.as_str(), name) {
            proof {
                lemma_name_position_prefix(views(files@), name@, i + 1);
            }
            return Some(i);
        }
        i += 1;
    }
    assert(views(files@).take(i as int) =~= views(files@));
    None
}

proof fn lemma_name_position_prefix(files: Seq<FileView>, name: Seq<char>, n: int)
    requires
        0 <= n <= files.len(),
        name_position(files.take(n), name) is Some,
    ensures
        name_position(files, name) == name_position(files.take(n), name),
    decreases files.len(),
{
    if n == files.len() {
        assert(files.take(n) =~= files);
    } else {
        assert(files.drop_last().take(n) =~= files.take(n));
        lemma_name_position_prefix(files.drop_last(), name, n);
    }
}

/// Whether `a` stays where `a` and `b` share a name.
fn stays(mapped: Option<&String>, a: &DriveFile, b: &DriveFile) -> (r: bool)
    ensures
        r == outranks(
            match mapped {
                Some(m) => Some(m@),
                None => None,
            },
            a@,
            b@,
        ),
{
    if let Some(m) = mapped {
        if same_text(m.as_str(), a.id.as_str()) {
            return true;
        }
        if same_text(m.as_str(), b.id.as_str()) {
            return false;
        }
    }
    let ta = a.mtime_ms();
    let tb = b.mtime_ms();
    if ta == tb {
        !not_after(b.id.as_str(), a.id.as_str())
    } else {
        ta > tb
    }
}

/// Keeps one of the files that share a name, and gives the ids of the others.
pub fn dedup_files(index: &SyncMeta, files: &Vec<DriveFile>) -> (r: (Vec<DriveFile>, Vec<String>))
    requires
        index.wf(),
    ensures
        views(r.0@) == dedup(index@, views(files@)).kept,
        texts(r.1@) == dedup(index@, views(files@)).doomed,
{
    let mut kept: Vec<DriveFile> = Vec::new();
    let mut doomed: Vec<String> = Vec::new();
    let mut i: usize = 0;
    assert(views(files@).take(0) =~= Seq::empty());
    assert(views(kept@) =~= Seq::empty());
    assert(texts(doomed@) =~= Seq::empty());
    while i < files.len()
        invariant
            index.wf(),
            i <= files@.len(),
            views(kept@) == dedup(index@, views(files@).take(i as int)).kept,
            texts(doomed@) == dedup(index@, views(files@).take(i as int)).doomed,
        decreases files@.len() - i,
    {
        let ghost sofar = dedup(index@, views(files@).take(i as int));
        let ghost kept0 = kept@;
        let ghost doomed0 = doomed@;
        assert(views(files@).take(i + 1).drop_last() =~= views(files@).take(i as int));
        assert(views(files@).take(i + 1).last() == files@[i as int]@);
        let f = files[i].clone();
        let ghost fv = f@;
        match find_name(&kept, f.name.as_str()) {
            Some(k) => {
                let mapped = match index.files.get(f.name.as_str()) {
                    Some(e) => Some(&e.id),
                    None => None,
                };
                if stays(mapped, &kept[k], &f) {
                    doomed.push(f.id);
                    assert(texts(doomed@) =~= texts(doomed0).push(fv.id));
                } else {
                    let old_id = kept[k].id.clone();
                    doomed.push(old_id);
                    kept.set(k, f);
                    assert(texts(doomed@) =~= texts(doomed0).push(kept0[k as int]@.id));
                    assert(views(kept@) =~= views(kept0).update(k as int, fv));
                }
            },
            None => {
                kept.push(f);
                assert(views(kept@) =~= views(kept0).push(fv));
            },
        }
        i += 1;
    }
    assert(views(files@).take(i as int) =~= views(files@));
    (kept, doomed)
}

// ---------------------------------------------------------------------------
// Laws
// ---------------------------------------------------------------------------

/// No two files share an id.
pub open spec fn distinct_ids(files: Seq<FileView>) -> bool {
    forall|i: int, j: int|
        0 <= i < files.len() && 0 <= j < files.len() && i != j ==> #[trigger] files[i].id
            != #[trigger] files[j].id
}

/// The ids of some files.
pub open spec fn ids(files: Seq<FileView>) -> Seq<Seq<char>> {
    files.map_values(|f: FileView| f.id)
}

/// The position of a name is that of the first file so called; without one, no
/// file is so called.
pub proof fn name_position_is_first(files: Seq<FileView>, name: Seq<char>)
    ensures
        match name_position(files, name) {
            Some(i) => 0 <= i < files.len() && files[i].name == name && forall|j: int|
                0 <= j < i ==> #[trigger] files[j].name != name,
            None => forall|i: int| 0 <= i < files.len() ==> #[trigger] files[i].name != name,
        },
    decreases files.len(),
{
    if files.len() > 0 {
        let rest = files.drop_last();
        name_position_is_first(rest, name);
        assert forall|i: int| 0 <= i < rest.len() implies rest[i] == #[trigger] files[i] by {}
    }
}

/// Of two files with different ids, one outranks the other and not the other
/// way round.
pub proof fn outranks_total(mapped: Option<Seq<char>>, a: FileView, b: FileView)
    requires
        a.id != b.id,
    ensures
        outranks(mapped, a, b) <==> !outranks(mapped, b, a),
{
    text::text_le_total(a.id, b.id);
    if text::text_le(a.id, b.id) && text::text_le(b.id, a.id) {
        text::text_le_antisymmetric(a.id, b.id);
    }
}

/// To outrank is transitive on files with different ids.
pub proof fn outranks_transitive(
    mapped: Option<Seq<char>>,
    a: FileView,
    b: FileView,
    c: FileView,
)
    requires
        a.id != b.id,
        b.id != c.id,
        a.id != c.id,
        outranks(mapped, a, b),
        outranks(mapped, b, c),
    ensures
        outranks(mapped, a, c),
{
    text::text_le_total(a.id, b.id);
    text::text_le_total(b.id, c.id);
    if text::text_le(c.id, a.id) {
        if text::text_le(a.id, b.id) {
            text::text_le_transitive(c.id, a.id, b.id);
        }
        if text::text_le(b.id, c.id) {
            text::text_le_transitive(b.id, c.id, a.id);
        }
    }
}

/// One file is kept for each name that is listed, none for any other, and no
/// name is kept twice.
pub proof fn dedup_keeps_each_name_once(index: Shelf<EntryView>, files: Seq<FileView>)
    ensures
        forall|i: int, j: int|
            0 <= i < dedup(index, files).kept.len() && 0 <= j < dedup(index, files).kept.len() && i
                != j ==> #[trigger] dedup(index, files).kept[i].name != #[trigger] dedup(
                index,
                files,
            ).kept[j].name,
        forall|i: int|
            0 <= i < files.len() ==> name_position(
                dedup(index, files).kept,
                #[trigger] files[i].name,
            ) is Some,
        forall|i: int|
            0 <= i < dedup(index, files).kept.len() ==> files.contains(
                #[trigger] dedup(index, files).kept[i],
            ),
    decreases files.len(),
{
    if files.len() > 0 {
        let rest = files.drop_last();
        let f = files.last();
        let d = dedup(index, rest);
        let e = dedup(index, files);
        dedup_keeps_each_name_once(index, rest);
        name_position_is_first(d.kept, f.name);
        assert forall|i: int| 0 <= i < files.len() implies name_position(
            e.kept,
            #[trigger] files[i].name,
        ) is Some by {
            let n = files[i].name;
            name_position_is_first(e.kept, n);
            if i < files.len() - 1 {
                assert(rest[i] == files[i]);
                assert(name_position(d.kept, rest[i].name) is Some);
                name_position_is_first(d.kept, n);
                let p = name_position(d.kept, n)->0;
                assert(e.kept[p].name == n);
            } else {
                match name_position(d.kept, f.name) {
                    Some(p) => {
                        assert(e.kept[p].name == n);
                    },
                    None => {
                        assert(e.kept[d.kept.len() as int].name == n);
                    },
                }
            }
        }
        assert forall|i: int| 0 <= i < e.kept.len() implies files.contains(
            #[trigger] e.kept[i],
        ) by {
            if i < d.kept.len() && e.kept[i] == d.kept[i] {
                assert(rest.contains(d.kept[i]));
                let k = choose|k: int| 0 <= k < rest.len() && rest[k] == d.kept[i];
                assert(files[k] == e.kept[i]);
            } else {
                assert(files[files.len() - 1] == e.kept[i]);
            }
        }
    }
}

/// The file that is kept for a name outranks every other file of that name:
/// the indexed one wins, then the newest, then the one with the least id.
pub proof fn dedup_keeps_the_best(index: Shelf<EntryView>, files: Seq<FileView>, i: int, k: int)
    requires
        distinct_ids(files),
        0 <= i < files.len(),
        0 <= k < dedup(index, files).kept.len(),
        dedup(index, files).kept[k].name == files[i].name,
    ensures
        dedup(index, files).kept[k] == files[i] || outranks(
            mapped_id(index, files[i].name),
            dedup(index, files).kept[k],
            files[i],
        ),
    decreases files.len(),
{
    let rest = files.drop_last();
    let f = files.last();
    let d = dedup(index, rest);
    let e = dedup(index, files);
    let name = files[i].name;
    let m = mapped_id(index, name);
    dedup_keeps_each_name_once(index, rest);
    dedup_keeps_each_name_once(index, files);
    name_position_is_first(d.kept, f.name);
    assert forall|a: int, b: int| 0 <= a < rest.len() && 0 <= b < rest.len() && a
        != b implies #[trigger] rest[a].id != #[trigger] rest[b].id by {
        assert(files[a].id != files[b].id);
    }
    match name_position(d.kept, f.name) {
        Some(p) => {
            let was = d.kept[p];
            assert(rest.contains(was));
            let q = choose|q: int| 0 <= q < rest.len() && rest[q] == was;
            assert(files[q] == was);
            assert(files[files.len() - 1] == f);
            assert(was.id != f.id);
            if name == f.name {
                assert(e.kept[p].name == name);
                assert(k == p);
                if i == files.len() - 1 {
                    outranks_total(m, was, f);
                } else {
                    assert(rest[i] == files[i]);
                    dedup_keeps_the_best(index, rest, i, p);
                    if !outranks(m, was, f) {
                        outranks_total(m, was, f);
                        if was != files[i] {
                            assert(files[i].id != f.id);
                            if was.id != files[i].id {
                                outranks_transitive(m, f, was, files[i]);
                            } else {
                                assert(q == i);
                            }
                        }
                    }
                }
            } else {
                assert(rest[i] == files[i]);
                assert(k != p);
                dedup_keeps_the_best(index, rest, i, k);
            }
        },
        None => {
            if i < files.len() - 1 {
                assert(rest[i] == files[i]);
                assert(name_position(d.kept, rest[i].name) is Some);
                name_position_is_first(d.kept, name);
                if k < d.kept.len() {
                    dedup_keeps_the_best(index, rest, i, k);
                } else {
                    let p = name_position(d.kept, name)->0;
                    assert(d.kept[p].name == f.name);
                }
            } else if k < d.kept.len() {
                assert(d.kept[k].name == f.name);
            }
        },
    }
}

/// Which file is kept for a name does not depend on the order in which Drive
/// lists the files.
pub proof fn dedup_ignores_order(
    index: Shelf<EntryView>,
    a: Seq<FileView>,
    b: Seq<FileView>,
    i: int,
    j: int,
)
    requires
        distinct_ids(a),
        distinct_ids(b),
        forall|f: FileView| a.contains(f) <==> b.contains(f),
        0 <= i < dedup(index, a).kept.len(),
        0 <= j < dedup(index, b).kept.len(),
        dedup(index, a).kept[i].name == dedup(index, b).kept[j].name,
    ensures
        dedup(index, a).kept[i] == dedup(index, b).kept[j],
{
    let x = dedup(index, a).kept[i];
    let y = dedup(index, b).kept[j];
    dedup_keeps_each_name_once(index, a);
    dedup_keeps_each_name_once(index, b);
    assert(a.contains(x) && b.contains(y));
    assert(b.contains(x) && a.contains(y));
    let ax = choose|k: int| 0 <= k < a.len() && a[k] == x;
    let ay = choose|k: int| 0 <= k < a.len() && a[k] == y;
    let bx = choose|k: int| 0 <= k < b.len() && b[k] == x;
    dedup_keeps_the_best(index, a, ay, i);
    dedup_keeps_the_best(index, b, bx, j);
    if x != y {
        assert(ax != ay);
        assert(a[ax].id != a[ay].id);
        outranks_total(mapped_id(index, x.name), x, y);
    }
}

/// Every listed file is either kept or doomed.
pub proof fn dedup_loses_nothing(index: Shelf<EntryView>, files: Seq<FileView>)
    ensures
        ids(dedup(index, files).kept).to_multiset().add(
            dedup(index, files).doomed.to_multiset(),
        ) == ids(files).to_multiset(),
    decreases files.len(),
{
    broadcast use vstd::seq_lib::group_to_multiset_ensures;

    let e = dedup(index, files);
    if files.len() == 0 {
        assert(ids(files) =~= Seq::empty());
        assert(ids(e.kept) =~= Seq::empty());
        assert(ids(e.kept).to_multiset().add(e.doomed.to_multiset()) =~= ids(files).to_multiset());
    } else {
        let rest = files.drop_last();
        let f = files.last();
        let d = dedup(index, rest);
        dedup_loses_nothing(index, rest);
        name_position_is_first(d.kept, f.name);
        assert(ids(files) =~= ids(rest).push(f.id));
        match name_position(d.kept, f.name) {
            Some(p) => {
                if outranks(mapped_id(index, f.name), d.kept[p], f) {
                } else {
                    assert(ids(e.kept) =~= ids(d.kept).update(p, f.id));
                    assert(ids(d.kept)[p] == d.kept[p].id);
                    vstd::seq_lib::to_multiset_update(ids(d.kept), p, f.id);
                }
            },
            None => {
                assert(ids(e.kept) =~= ids(d.kept).push(f.id));
            },
        }
        assert(ids(e.kept).to_multiset().add(e.doomed.to_multiset()) =~= ids(files).to_multiset());
    }
}

/// No file that is kept is doomed.
pub proof fn dedup_spares_what_it_keeps(index: Shelf<EntryView>, files: Seq<FileView>, k: int)
    requires
        distinct_ids(files),
        0 <= k < dedup(index, files).kept.len(),
    ensures
        !dedup(index, files).doomed.contains(dedup(index, files).kept[k].id),
{
    broadcast use vstd::seq_lib::group_to_multiset_ensures;

    let e = dedup(index, files);
    let x = e.kept[k].id;
    dedup_loses_nothing(index, files);
    assert(ids(e.kept)[k] == x);
    assert(ids(e.kept).contains(x));
    assert(ids(files).no_duplicates()) by {
        assert forall|i: int, j: int| 0 <= i < ids(files).len() && 0 <= j < ids(files).len() && i
            != j implies ids(files)[i] != ids(files)[j] by {
            assert(files[i].id != files[j].id);
        }
    }
    ids(files).lemma_multiset_has_no_duplicates();
    assert(ids(files).to_multiset().count(x) == ids(e.kept).to_multiset().count(x)
        + e.doomed.to_multiset().count(x));
    assert(ids(files).to_multiset().contains(x));
}

/// A file that is doomed was listed, and another one of its name is kept.
pub proof fn a_doomed_file_has_a_kept_namesake(
    index: Shelf<EntryView>,
    files: Seq<FileView>,
    d: int,
)
    requires
        distinct_ids(files),
        0 <= d < dedup(index, files).doomed.len(),
    ensures
        exists|i: int, k: int|
            {
                &&& 0 <= i < files.len()
                &&& 0 <= k < dedup(index, files).kept.len()
                &&& (#[trigger] files[i]).id == dedup(index, files).doomed[d]
                &&& (#[trigger] dedup(index, files).kept[k]).name == files[i].name
                &&& dedup(index, files).kept[k].id != files[i].id
            },
{
    broadcast use vstd::seq_lib::group_to_multiset_ensures;

    let e = dedup(index, files);
    let x = e.doomed[d];
    dedup_loses_nothing(index, files);
    assert(e.doomed.contains(x));
    assert(ids(files).to_multiset().count(x) == ids(e.kept).to_multiset().count(x)
        + e.doomed.to_multiset().count(x));
    assert(ids(files).contains(x));
    let i = choose|i: int| 0 <= i < ids(files).len() && ids(files)[i] == x;
    assert(files[i].id == x);
    dedup_keeps_each_name_once(index, files);
    name_position_is_first(e.kept, files[i].name);
    let k = name_position(e.kept, files[i].name)->0;
    dedup_spares_what_it_keeps(index, files, k);
    assert(e.kept[k].name == files[i].name);
}

} // verus!
