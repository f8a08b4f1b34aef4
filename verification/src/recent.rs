//! The notes that changed last.

use crate::listing::{Entry, FoundView};
use crate::search;
use crate::search::{in_trash, is_note_entry, place_of};
use crate::sort;
use crate::sort::{sort, Ranked};
use vstd::prelude::*;

verus! {

/// How many recent notes are listed where no number is given.
pub const RECENT_LIMIT: usize = 10;

/// A note, and when it changed.
#[derive(Debug)]
pub struct RecentEntry {
    pub path: String,
    pub mtime_ms: u64,
}

/// What a [`RecentEntry`] tells.
pub struct RecentView {
    pub path: Seq<char>,
    pub mtime_ms: u64,
}

impl View for RecentEntry {
    type V = RecentView;

    open spec fn view(&self) -> RecentView {
        RecentView { path: self.path@, mtime_ms: self.mtime_ms }
    }
}

/// What changed later comes first.
impl Ranked for RecentEntry {
    open spec fn le(a: RecentView, b: RecentView) -> bool {
        a.mtime_ms >= b.mtime_ms
    }

    proof fn le_total(a: RecentView, b: RecentView) {
    }

    proof fn le_transitive(a: RecentView, b: RecentView, c: RecentView) {
    }

    fn no_later(&self, other: &Self) -> (r: bool) {
        self.mtime_ms >= other.mtime_ms
    }
}

/// `e` as a recent note: a note outside the trash whose time can be told.
pub open spec fn recent_note(root: Seq<char>, e: FoundView) -> Option<RecentView> {
    match (search::place(root, e), e.mtime) {
        (Some(rel), Some(ms)) => if search::is_note_file(e) && !search::names_trash(e.path) {
            Some(RecentView { path: rel, mtime_ms: ms })
        } else {
            None
        },
        _ => None,
    }
}

/// The recent notes among the first `n` entries.
pub open spec fn recent_notes(root: Seq<char>, es: Seq<FoundView>, n: int) -> Seq<RecentView>
    decreases n,
{
    if n <= 0 {
        Seq::empty()
    } else {
        match recent_note(root, es[n - 1]) {
            Some(r) => recent_notes(root, es, n - 1).push(r),
            None => recent_notes(root, es, n - 1),
        }
    }
}

/// The first `limit` of `s`.
pub open spec fn at_most<A>(s: Seq<A>, limit: int) -> Seq<A> {
    if s.len() > limit {
        s.take(limit)
    } else {
        s
    }
}

/// The `limit` notes that changed last, the latest first.
pub open spec fn most_recent(root: Seq<char>, es: Seq<FoundView>, limit: int) -> Seq<RecentView> {
    at_most(sort::ranked::<RecentEntry>(recent_notes(root, es, es.len() as int)), limit)
}

/// The notes that changed last, the latest first; none where `root` is no
/// directory. `listed` is what a walk through it came upon.
pub fn list_recent(root: &str, listed: Option<&Vec<Entry>>, limit: Option<usize>) -> (r: Result<
    Vec<RecentEntry>,
    String,
>)
    ensures
        r is Ok,
        sort::views(r->Ok_0@) == match listed {
            Some(es) => most_recent(
                root@,
                sort::views(es@),
                match limit {
                    Some(n) => n as int,
                    None => 10,
                },
            ),
            None => Seq::empty(),
        },
{
    let mut out: Vec<RecentEntry> = Vec::new();
    assert(sort::views(out@) =~= Seq::empty());
    let es = match listed {
        Some(es) => es,
        None => {
            return Ok(out);
        },
    };
    let n: usize = match limit {
        Some(n) => n,
        None => RECENT_LIMIT,
    };
    let ghost all = sort::views(es@);
    let mut i: usize = 0;
    while i < es.len()
        invariant
            i <= es@.len(),
            all == sort::views(es@),
            sort::views(out@) == recent_notes(root@, all, i as int),
        decreases es@.len() - i,
    {
        let e = &es[i];
        assert(all[i as int] == e@);
        if is_note_entry(e) && !in_trash(e) {
            match (place_of(root, e), e.mtime) {
                (Some(rel), Some(ms)) => {
                    let ghost before = out@;
                    let x = RecentEntry { path: rel, mtime_ms: ms };
                    out.push(x);
                    assert(sort::views(out@) =~= sort::views(before).push(x@));
                },
                _ => {},
            }
        }
        i += 1;
    }
    let mut sorted = sort(out);
    let ghost whole = sorted@;
    sorted.truncate(n);
    assert(sort::views(sorted@) =~= at_most(sort::views(whole), n as int));
    Ok(sorted)
}

// ---------------------------------------------------------------------------
// Laws
// ---------------------------------------------------------------------------

/// The latest comes first, and nothing that is left out changed later than
/// something that is listed.
pub proof fn recent_is_latest(root: Seq<char>, es: Seq<FoundView>, limit: int)
    requires
        0 <= limit,
    ensures
        most_recent(root, es, limit).len() <= limit,
        forall|i: int, j: int|
            0 <= i <= j < most_recent(root, es, limit).len() ==> (#[trigger] most_recent(
                root,
                es,
                limit,
            )[i]).mtime_ms >= (#[trigger] most_recent(root, es, limit)[j]).mtime_ms,
        forall|i: int, j: int|
            0 <= i < most_recent(root, es, limit).len() && limit <= j < sort::ranked::<RecentEntry>(
                recent_notes(root, es, es.len() as int),
            ).len() ==> (#[trigger] most_recent(root, es, limit)[i]).mtime_ms >= (
            #[trigger] sort::ranked::<RecentEntry>(
                recent_notes(root, es, es.len() as int),
            )[j]).mtime_ms,
{
    let all = recent_notes(root, es, es.len() as int);
    let r = sort::ranked::<RecentEntry>(all);
    sort::ranked_is_in_order::<RecentEntry>(all);
    let m = most_recent(root, es, limit);
    assert forall|i: int, j: int| 0 <= i <= j < m.len() implies (#[trigger] m[i]).mtime_ms >= (
    #[trigger] m[j]).mtime_ms by {
        assert(<RecentEntry as Ranked>::le(r[i], r[j]));
    }
    assert forall|i: int, j: int| 0 <= i < m.len() && limit <= j < r.len() implies (
    #[trigger] m[i]).mtime_ms >= (#[trigger] r[j]).mtime_ms by {
        assert(<RecentEntry as Ranked>::le(r[i], r[j]));
    }
}

} // verus!
