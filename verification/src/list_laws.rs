//! What a folder shows, in terms of what lies in it.

use crate::listing;
use crate::listing::FoundView;
use crate::local;
use crate::paths;
use crate::recent;
use crate::recent::{RecentEntry, RecentView};
use crate::search;
use crate::sort;
use crate::text_laws;
use crate::tree;
use crate::tree::{ListingView, NodeView};
use crate::tree_laws;
use vstd::multiset::Multiset;
use vstd::prelude::*;

verus! {

/// `e` was found at `rel`, seen from `root`.
pub open spec fn found_at(root: Seq<char>, e: FoundView, rel: Seq<char>) -> bool {
    paths::is_plain_path(rel) && e.path == paths::joined(root, rel)
}

/// The entries were found at `rels`, seen from `root`.
pub open spec fn all_found_at(root: Seq<char>, es: Seq<FoundView>, rels: Seq<Seq<char>>) -> bool {
    &&& rels.len() == es.len()
    &&& forall|i: int| 0 <= i < es.len() ==> found_at(root, #[trigger] es[i], rels[i])
}

/// The name of an entry, where it is text and not hidden.
pub open spec fn has_open_name(e: FoundView) -> bool {
    e.name matches Some(n) && n.len() > 0 && n[0] != '.'
}

/// A file with the name of a note.
pub open spec fn is_note_here(e: FoundView) -> bool {
    e.is_file && has_open_name(e) && exists|s: Seq<char>| #[trigger] (s + ".md"@) == e.name->0
}

/// Not known to have more than a mebibyte.
pub open spec fn is_small(e: FoundView) -> bool {
    e.len matches Some(n) ==> n <= 1048576
}

/// The word `.aanote-trash` stands in the path.
pub open spec fn tells_of_trash(path: Seq<char>) -> bool {
    exists|a: Seq<char>, b: Seq<char>| #[trigger] (a + ".aanote-trash"@ + b) == path
}

/// The trash is told by its word, wherever in the path it stands.
pub proof fn the_trash_is_told_by_its_name(path: Seq<char>)
    ensures
        search::names_trash(path) <==> tells_of_trash(path),
{
    text_laws::to_occur_is_to_stand_between(path, ".aanote-trash"@);
}

/// Where an entry lies, within ten levels; further down is out of reach.
pub proof fn ten_levels_are_in_reach(root: Seq<char>, e: FoundView, rel: Seq<char>)
    requires
        found_at(root, e, rel),
    ensures
        search::place(root, e) == if listing::depth(rel) <= 10 {
            Some(rel)
        } else {
            None
        },
{
    paths::plain_paths_are_found_again(root, rel);
}

/// A note is a file that is called `.md` at the end and not hidden.
pub proof fn a_note_is_a_file_called_md(e: FoundView)
    ensures
        search::is_note_file(e) <==> is_note_here(e),
{
    reveal_strlit("");
    listing::notes_are_called_md(e.name_or(""@));
}

// ---------------------------------------------------------------------------
// The notes of a sync
// ---------------------------------------------------------------------------

/// `e` takes part in a sync under `rel`: a file that is not hidden, at any depth.
pub open spec fn takes_part(root: Seq<char>, e: FoundView, rel: Seq<char>) -> bool {
    found_at(root, e, rel) && e.is_file && paths::plain_name(rel)[0] != '.'
}

/// When an entry changed; 0 where that cannot be told.
pub open spec fn time_of(e: FoundView) -> u64 {
    match e.mtime {
        Some(ms) => ms,
        None => 0,
    }
}

/// A file takes part in a sync exactly where it is a file and not hidden,
/// however deep it lies.
pub proof fn every_file_but_the_hidden_takes_part(root: Seq<char>, e: FoundView, rel: Seq<char>)
    requires
        found_at(root, e, rel),
    ensures
        local::sync_note(root, e) == if e.is_file && paths::plain_name(rel)[0] != '.' {
            Some((rel, time_of(e)))
        } else {
            None
        },
{
    paths::plain_paths_are_found_again(root, rel);
    paths::file_names_are_names(e.path);
    assert(paths::plain_name(rel).len() > 0);
}

/// A listing has the time of the last entry that takes part under a path.
pub proof fn the_last_entry_tells_the_time(
    root: Seq<char>,
    es: Seq<FoundView>,
    n: int,
    i: int,
    p: Seq<char>,
    ms: u64,
)
    requires
        0 <= i < n <= es.len(),
        local::sync_note(root, es[i]) == Some((p, ms)),
        forall|j: int|
            i < j < n ==> (local::sync_note(root, #[trigger] es[j]) matches Some((q, _)) ==> q != p),
    ensures
        local::sync_notes(root, es, n).has(p),
        local::sync_notes(root, es, n).map[p] == ms,
    decreases n,
{
    if i < n - 1 {
        the_last_entry_tells_the_time(root, es, n - 1, i, p, ms);
        assert(local::sync_note(root, es[n - 1]) matches Some((q, _)) ==> q != p);
    }
}

/// A listing has no path but those of entries that take part, with the time of
/// one of them.
pub proof fn every_listed_path_has_an_entry(
    root: Seq<char>,
    es: Seq<FoundView>,
    n: int,
    p: Seq<char>,
) -> (i: int)
    requires
        0 <= n <= es.len(),
        local::sync_notes(root, es, n).has(p),
    ensures
        0 <= i < n,
        local::sync_note(root, es[i]) == Some((p, local::sync_notes(root, es, n).map[p])),
    decreases n,
{
    match local::sync_note(root, es[n - 1]) {
        Some((q, ms)) if q == p => n - 1,
        _ => every_listed_path_has_an_entry(root, es, n - 1, p),
    }
}

/// The scan of a folder lists each file in it that is not hidden, however deep it
/// lies, under its path and with its time, and nothing else.
pub proof fn the_scan_lists_every_file(
    root: Seq<char>,
    es: Seq<FoundView>,
    rels: Seq<Seq<char>>,
    p: Seq<char>,
)
    requires
        all_found_at(root, es, rels),
        rels.no_duplicates(),
    ensures
        local::sync_notes(root, es, es.len() as int).has(p) <==> exists|i: int|
            0 <= i < es.len() && rels[i] == p && takes_part(root, #[trigger] es[i], p),
        forall|i: int|
            0 <= i < es.len() && rels[i] == p && takes_part(root, #[trigger] es[i], p)
                ==> local::sync_notes(root, es, es.len() as int).map[p] == time_of(es[i]),
{
    let n = es.len() as int;
    let all = local::sync_notes(root, es, n);
    if all.has(p) {
        let i = every_listed_path_has_an_entry(root, es, n, p);
        assert(found_at(root, es[i], rels[i]));
        every_file_but_the_hidden_takes_part(root, es[i], rels[i]);
        assert(takes_part(root, es[i], p));
    }
    assert forall|i: int|
        0 <= i < n && rels[i] == p && takes_part(root, #[trigger] es[i], p) implies all.has(p)
        && all.map[p] == time_of(es[i]) by {
        every_file_but_the_hidden_takes_part(root, es[i], p);
        assert forall|j: int| i < j < n implies (local::sync_note(root, #[trigger] es[j])
            matches Some((q, _)) ==> q != p) by {
            assert(found_at(root, es[j], rels[j]));
            every_file_but_the_hidden_takes_part(root, es[j], rels[j]);
            assert(rels[i] != rels[j]);
        }
        the_last_entry_tells_the_time(root, es, n, i, p, time_of(es[i]));
    }
}

/// Where there is nothing there is nothing to list.
pub proof fn the_scan_of_nothing_is_empty(root: Seq<char>)
    ensures
        local::sync_notes(root, Seq::empty(), 0).map == Map::<Seq<char>, u64>::empty(),
{
}

// ---------------------------------------------------------------------------
// The tree
// ---------------------------------------------------------------------------

/// The name under which an entry is shown.
pub open spec fn shown_name(e: FoundView) -> Seq<char> {
    match e.name {
        Some(n) => n,
        None => "unknown"@,
    }
}

/// `e`, found at `rel`, is shown in the tree: within ten levels, with nothing
/// hidden on the way, a folder, or a file that is called `.md` at the end and has
/// a mebibyte at most.
pub open spec fn is_shown(e: FoundView, rel: Seq<char>) -> bool {
    &&& listing::depth(rel) <= 10
    &&& !listing::lies_hidden(rel)
    &&& !(shown_name(e).len() > 0 && shown_name(e)[0] == '.')
    &&& e.is_dir || (is_small(e) && exists|s: Seq<char>| #[trigger] (s + ".md"@) == shown_name(e))
}

/// What of the first `n` entries is shown.
pub open spec fn shown_labels(es: Seq<FoundView>, rels: Seq<Seq<char>>, n: int) -> Multiset<
    (Seq<char>, Seq<char>, bool),
>
    decreases n,
{
    if n <= 0 {
        Multiset::empty()
    } else if is_shown(es[n - 1], rels[n - 1]) {
        shown_labels(es, rels, n - 1).insert(
            (shown_name(es[n - 1]), rels[n - 1], es[n - 1].is_dir),
        )
    } else {
        shown_labels(es, rels, n - 1)
    }
}

proof fn lemma_shown(root: Seq<char>, e: FoundView, rel: Seq<char>)
    requires
        found_at(root, e, rel),
    ensures
        paths::below(e.path, root) == Some(rel),
        tree::in_tree(root, e) <==> is_shown(e, rel),
        tree_laws::label(tree::entry_node(e, rel)) == (shown_name(e), rel, e.is_dir),
{
    paths::plain_paths_are_found_again(root, rel);
    text_laws::the_end_is_what_comes_last(shown_name(e), ".md"@);
}

proof fn lemma_shown_labels(root: Seq<char>, es: Seq<FoundView>, rels: Seq<Seq<char>>, n: int)
    requires
        0 <= n <= es.len(),
        all_found_at(root, es, rels),
    ensures
        tree_laws::flat_labels(tree_laws::shown_nodes(root, es.take(n))).to_multiset()
            == shown_labels(es, rels, n),
    decreases n,
{
    let t = es.take(n);
    if n > 0 {
        assert(t.drop_last() =~= es.take(n - 1));
        assert(t.last() == es[n - 1]);
        assert(found_at(root, es[n - 1], rels[n - 1]));
        lemma_shown_labels(root, es, rels, n - 1);
        lemma_shown(root, es[n - 1], rels[n - 1]);
        let before = tree_laws::shown_nodes(root, es.take(n - 1));
        let node = tree::entry_node(es[n - 1], rels[n - 1]);
        if is_shown(es[n - 1], rels[n - 1]) {
            assert(tree_laws::flat_labels(before.push(node)) =~= tree_laws::flat_labels(
                before,
            ).push(tree_laws::label(node)));
            vstd::seq_lib::to_multiset_build(
                tree_laws::flat_labels(before),
                tree_laws::label(node),
            );
        }
    } else {
        assert(tree_laws::flat_labels(tree_laws::shown_nodes(root, t)) =~= Seq::empty());
        Seq::<(Seq<char>, Seq<char>, bool)>::empty().to_multiset_ensures();
        assert(Seq::<(Seq<char>, Seq<char>, bool)>::empty().to_multiset() =~= Multiset::empty());
    }
}

/// A scan shows each entry that is to be shown, once, under its name and its
/// path, and nothing else.
pub proof fn the_tree_shows_what_is_to_be_shown(
    root: Seq<char>,
    es: Seq<FoundView>,
    rels: Seq<Seq<char>>,
)
    requires
        all_found_at(root, es, rels),
    ensures
        tree::scanned(root, ListingView::Entries(es)) matches Ok(t) && tree_laws::labels(t)
            == shown_labels(es, rels, es.len() as int),
{
    assert forall|i: int| 0 <= i < es.len() implies paths::below(
        (#[trigger] es[i]).path,
        root,
    ) is Some by {
        assert(found_at(root, es[i], rels[i]));
        lemma_shown(root, es[i], rels[i]);
    }
    tree_laws::a_scan_shows_every_entry_once(root, es);
    lemma_shown_labels(root, es, rels, es.len() as int);
    assert(es.take(es.len() as int) =~= es);
}

/// An entry that is to be shown stands in the tree, whatever else is there.
pub proof fn what_is_to_be_shown_is_there(
    root: Seq<char>,
    es: Seq<FoundView>,
    rels: Seq<Seq<char>>,
    i: int,
)
    requires
        all_found_at(root, es, rels),
        0 <= i < es.len(),
        is_shown(es[i], rels[i]),
    ensures
        tree::scanned(root, ListingView::Entries(es)) matches Ok(t) && tree_laws::labels(t).count(
            (shown_name(es[i]), rels[i], es[i].is_dir),
        ) > 0,
{
    the_tree_shows_what_is_to_be_shown(root, es, rels);
    lemma_counted(es, rels, es.len() as int, i);
}

proof fn lemma_counted(es: Seq<FoundView>, rels: Seq<Seq<char>>, n: int, i: int)
    requires
        0 <= i < n <= es.len(),
        is_shown(es[i], rels[i]),
    ensures
        shown_labels(es, rels, n).count((shown_name(es[i]), rels[i], es[i].is_dir)) > 0,
    decreases n,
{
    if i < n - 1 {
        lemma_counted(es, rels, n - 1, i);
    }
}

/// What is missing, or no directory, is reported by its path.
pub proof fn a_scan_without_directory_fails(path: Seq<char>)
    ensures
        tree::scanned(path, ListingView::Missing) == Err::<Seq<NodeView>, Seq<char>>(
            "Directory does not exist: "@ + path,
        ),
        tree::scanned(path, ListingView::NotADirectory) == Err::<Seq<NodeView>, Seq<char>>(
            "Path is not a directory: "@ + path,
        ),
{
}

// ---------------------------------------------------------------------------
// Recent notes
// ---------------------------------------------------------------------------

/// `e`, found at `rel`, is a candidate for the recent notes: a note outside the
/// trash, within ten levels, whose time is known.
pub open spec fn is_candidate(e: FoundView, rel: Seq<char>) -> bool {
    is_note_here(e) && !tells_of_trash(e.path) && listing::depth(rel) <= 10 && e.mtime is Some
}

/// The candidates among the first `n` entries, with their paths and times.
pub open spec fn candidates(es: Seq<FoundView>, rels: Seq<Seq<char>>, n: int) -> Multiset<
    (Seq<char>, u64),
>
    decreases n,
{
    if n <= 0 {
        Multiset::empty()
    } else if is_candidate(es[n - 1], rels[n - 1]) {
        candidates(es, rels, n - 1).insert((rels[n - 1], es[n - 1].mtime->0))
    } else {
        candidates(es, rels, n - 1)
    }
}

/// Notes with their paths and times.
pub open spec fn dated(s: Seq<RecentView>) -> Seq<(Seq<char>, u64)> {
    s.map_values(|r: RecentView| (r.path, r.mtime_ms))
}

proof fn lemma_candidates(root: Seq<char>, es: Seq<FoundView>, rels: Seq<Seq<char>>, n: int)
    requires
        0 <= n <= es.len(),
        all_found_at(root, es, rels),
    ensures
        dated(recent::recent_notes(root, es, n)).to_multiset() == candidates(es, rels, n),
    decreases n,
{
    if n > 0 {
        let e = es[n - 1];
        let rel = rels[n - 1];
        assert(found_at(root, e, rel));
        lemma_candidates(root, es, rels, n - 1);
        ten_levels_are_in_reach(root, e, rel);
        the_trash_is_told_by_its_name(e.path);
        a_note_is_a_file_called_md(e);
        let before = recent::recent_notes(root, es, n - 1);
        if is_candidate(e, rel) {
            let r = RecentView { path: rel, mtime_ms: e.mtime->0 };
            assert(dated(before.push(r)) =~= dated(before).push((rel, e.mtime->0)));
            vstd::seq_lib::to_multiset_build(dated(before), (rel, e.mtime->0));
        }
    } else {
        assert(dated(recent::recent_notes(root, es, n)) =~= Seq::empty());
        Seq::<(Seq<char>, u64)>::empty().to_multiset_ensures();
        assert(Seq::<(Seq<char>, u64)>::empty().to_multiset() =~= Multiset::empty());
    }
}

proof fn lemma_dated_placed(s: Seq<RecentView>, x: RecentView)
    ensures
        dated(sort::placed::<RecentEntry>(s, x)).to_multiset() == dated(s).to_multiset().insert(
            (x.path, x.mtime_ms),
        ),
    decreases s.len(),
{
    let r = sort::placed::<RecentEntry>(s, x);
    let d = (x.path, x.mtime_ms);
    if s.len() == 0 || <RecentEntry as sort::Ranked>::le(x, s[0]) {
        assert(dated(r) =~= dated(s).insert(0, d));
        vstd::seq_lib::to_multiset_insert(dated(s), 0, d);
    } else {
        let t = s.skip(1);
        let q = sort::placed::<RecentEntry>(t, x);
        let e = (s[0].path, s[0].mtime_ms);
        lemma_dated_placed(t, x);
        assert(dated(r) =~= dated(q).insert(0, e));
        vstd::seq_lib::to_multiset_insert(dated(q), 0, e);
        assert(dated(s) =~= dated(t).insert(0, e));
        vstd::seq_lib::to_multiset_insert(dated(t), 0, e);
        assert(dated(r).to_multiset() =~= dated(s).to_multiset().insert(d));
    }
}

proof fn lemma_dated_ranked(s: Seq<RecentView>)
    ensures
        dated(sort::ranked::<RecentEntry>(s)).to_multiset() == dated(s).to_multiset(),
    decreases s.len(),
{
    if s.len() > 0 {
        let t = s.skip(1);
        let e = (s[0].path, s[0].mtime_ms);
        lemma_dated_ranked(t);
        lemma_dated_placed(sort::ranked::<RecentEntry>(t), s[0]);
        assert(dated(s) =~= dated(t).insert(0, e));
        vstd::seq_lib::to_multiset_insert(dated(t), 0, e);
    }
}

/// With room for all of them, the recent notes are all candidates, each with its
/// path and its time, and nothing else; the latest first.
pub proof fn every_candidate_is_recent(
    root: Seq<char>,
    es: Seq<FoundView>,
    rels: Seq<Seq<char>>,
    limit: int,
)
    requires
        all_found_at(root, es, rels),
        es.len() <= limit,
    ensures
        dated(recent::most_recent(root, es, limit)).to_multiset() == candidates(
            es,
            rels,
            es.len() as int,
        ),
{
    let s = recent::recent_notes(root, es, es.len() as int);
    lemma_candidates(root, es, rels, es.len() as int);
    lemma_dated_ranked(s);
    sort::ranked_keeps_every_item::<RecentEntry>(s);
    lemma_no_more(root, es, es.len() as int);
}

proof fn lemma_no_more(root: Seq<char>, es: Seq<FoundView>, n: int)
    requires
        0 <= n,
    ensures
        recent::recent_notes(root, es, n).len() <= n,
    decreases n,
{
    if n > 0 {
        lemma_no_more(root, es, n - 1);
    }
}

/// With less room, the recent notes are the first of all of them: as many as
/// there is room for.
pub proof fn a_limit_cuts_the_end_off(root: Seq<char>, es: Seq<FoundView>, limit: int)
    requires
        0 <= limit,
    ensures
        ({
            let all = recent::most_recent(root, es, es.len() as int);
            let n = if limit < all.len() {
                limit
            } else {
                all.len() as int
            };
            recent::most_recent(root, es, limit) == all.take(n)
        }),
{
    let s = recent::recent_notes(root, es, es.len() as int);
    let r = sort::ranked::<RecentEntry>(s);
    sort::ranked_keeps_every_item::<RecentEntry>(s);
    lemma_no_more(root, es, es.len() as int);
    assert(r.take(r.len() as int) =~= r);
    if limit > r.len() {
        assert(recent::most_recent(root, es, limit) == r);
    }
}

/// The candidates among the first `n` entries, in the order in which they were
/// found.
pub open spec fn candidates_in_order(es: Seq<FoundView>, rels: Seq<Seq<char>>, n: int) -> Seq<
    (Seq<char>, u64),
>
    decreases n,
{
    if n <= 0 {
        Seq::empty()
    } else if is_candidate(es[n - 1], rels[n - 1]) {
        candidates_in_order(es, rels, n - 1).push((rels[n - 1], es[n - 1].mtime->0))
    } else {
        candidates_in_order(es, rels, n - 1)
    }
}

/// Recent notes are ordered from the candidates as they were found, so that those
/// of the same time stay in that order.
pub proof fn candidates_are_taken_as_found(
    root: Seq<char>,
    es: Seq<FoundView>,
    rels: Seq<Seq<char>>,
    n: int,
)
    requires
        0 <= n <= es.len(),
        all_found_at(root, es, rels),
    ensures
        dated(recent::recent_notes(root, es, n)) == candidates_in_order(es, rels, n),
    decreases n,
{
    if n > 0 {
        let e = es[n - 1];
        let rel = rels[n - 1];
        assert(found_at(root, e, rel));
        candidates_are_taken_as_found(root, es, rels, n - 1);
        ten_levels_are_in_reach(root, e, rel);
        the_trash_is_told_by_its_name(e.path);
        a_note_is_a_file_called_md(e);
        let before = recent::recent_notes(root, es, n - 1);
        if is_candidate(e, rel) {
            let r = RecentView { path: rel, mtime_ms: e.mtime->0 };
            assert(dated(before.push(r)) =~= dated(before).push((rel, e.mtime->0)));
        }
    } else {
        assert(dated(recent::recent_notes(root, es, n)) =~= Seq::empty());
    }
}

/// A file does not take part in a sync where nothing tells its place below the
/// root.
pub proof fn what_lies_elsewhere_takes_no_part(root: Seq<char>, e: FoundView)
    requires
        paths::below(e.path, root) is None,
    ensures
        local::sync_note(root, e) is None,
        search::place(root, e) is None,
{
}

// ---------------------------------------------------------------------------
// What is told is what is there
// ---------------------------------------------------------------------------

/// An entry tells each of its parts as it is.
pub proof fn an_entry_tells_its_parts(e: listing::Entry)
    ensures
        e@.path == e.path@,
        e.name matches Some(n) ==> e@.name == Some(n@),
        e.name is None ==> e@.name is None,
        e@.is_dir == e.is_dir,
        e@.is_file == e.is_file,
        e@.len == e.len,
        e@.mtime == e.mtime,
        e.content matches Some(c) ==> e@.content == Some(c@),
        e.content is None ==> e@.content is None,
{
}

/// So do a node, a hit, a recent note, and a text in lower case.
pub proof fn results_tell_their_parts(
    n: tree::FileNode,
    h: search::SearchHit,
    r: RecentEntry,
    l: search::Lowered,
)
    ensures
        n@.name == n.name@ && n@.path == n.path@ && n@.is_dir == n.is_dir,
        n@.children.len() == n.children@.len(),
        forall|i: int|
            0 <= i < n.children@.len() ==> #[trigger] n@.children[i] == n.children@[i]@,
        h@.path == h.path@ && h@.snippet == h.snippet@,
        r@.path == r.path@ && r@.mtime_ms == r.mtime_ms,
        l@.text == l.text@ && l@.widths == l.widths@,
{
    tree::node_view_children(n);
    assert forall|i: int| 0 <= i < n.children@.len() implies #[trigger] n@.children[i]
        == n.children@[i]@ by {
        assert(sort::views(n.children@)[i] == n.children@[i]@);
    }
}

/// A list tells what each of its items tells, in order.
pub proof fn a_list_tells_its_items<T: View>(v: Seq<T>, i: int)
    requires
        0 <= i < v.len(),
    ensures
        sort::views(v).len() == v.len(),
        sort::views(v)[i] == v[i]@,
{
}

} // verus!
