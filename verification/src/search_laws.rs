//! What holds of every search.

use crate::bytes;
use crate::list_laws;
use crate::listing;
use crate::listing::FoundView;
use crate::search;
use crate::search::{HitView, LoweredView, SearchHit};
use crate::sort;
use crate::text;
use crate::text_laws;
use vstd::prelude::*;

verus! {

proof fn lemma_ranked_contains<T: sort::Ranked>(s: Seq<T::V>, x: T::V)
    ensures
        sort::ranked::<T>(s).contains(x) <==> s.contains(x),
{
    sort::ranked_keeps_every_item::<T>(s);
    s.to_multiset_ensures();
    sort::ranked::<T>(s).to_multiset_ensures();
    assert(sort::ranked::<T>(s).to_multiset().count(x) == s.to_multiset().count(x));
}

proof fn lemma_content_matches(
    root: Seq<char>,
    es: Seq<FoundView>,
    lows: Seq<Option<Seq<char>>>,
    q: Seq<char>,
    n: int,
    p: Seq<char>,
)
    requires
        0 <= n <= es.len(),
        lows.len() == es.len(),
    ensures
        search::content_matches(root, es, lows, q, n).contains(p) <==> exists|i: int|
            0 <= i < n && search::content_match(root, #[trigger] es[i], lows[i], q) == Some(p),
    decreases n,
{
    if n > 0 {
        lemma_content_matches(root, es, lows, q, n - 1, p);
        let before = search::content_matches(root, es, lows, q, n - 1);
        let now = search::content_matches(root, es, lows, q, n);
        match search::content_match(root, es[n - 1], lows[n - 1], q) {
            Some(rel) => {
                assert(now[before.len() as int] == rel);
                if before.contains(p) {
                    let k = choose|k: int| 0 <= k < before.len() && before[k] == p;
                    assert(now[k] == p);
                }
                if now.contains(p) && p != rel {
                    let k = choose|k: int| 0 <= k < now.len() && now[k] == p;
                    assert(before[k] == p);
                }
            },
            None => {},
        }
    }
}

/// A search finds a path exactly where a note that holds the query lies there.
pub proof fn search_finds_the_matches(
    root: Seq<char>,
    es: Seq<FoundView>,
    lows: Seq<Option<Seq<char>>>,
    q: Seq<char>,
    p: Seq<char>,
)
    requires
        lows.len() == es.len(),
    ensures
        sort::ranked::<String>(
            search::content_matches(root, es, lows, q, es.len() as int),
        ).contains(p) <==> exists|i: int|
            0 <= i < es.len() && search::content_match(root, #[trigger] es[i], lows[i], q) == Some(
                p,
            ),
{
    lemma_content_matches(root, es, lows, q, es.len() as int, p);
    lemma_ranked_contains::<String>(
        search::content_matches(root, es, lows, q, es.len() as int),
        p,
    );
}

/// Entry `i` is a note that is found by its content.
pub open spec fn hit_by_content(
    root: Seq<char>,
    es: Seq<FoundView>,
    lows: Seq<Option<LoweredView>>,
    q: Seq<char>,
    query_len: int,
    i: int,
    p: Seq<char>,
) -> bool {
    search::content_hit(root, es[i], lows[i], q, query_len) matches Some(h) && h.path == p
}

/// Entry `i` is a note that is found by its name.
pub open spec fn hit_by_name(
    root: Seq<char>,
    es: Seq<FoundView>,
    names: Seq<Seq<char>>,
    q: Seq<char>,
    i: int,
    p: Seq<char>,
) -> bool {
    search::name_hit(root, es[i], names[i], q) matches Some(h) && h.path == p
}

/// Entry `i` is a note that is found at `p`, by its content or by its name.
pub open spec fn is_hit(
    root: Seq<char>,
    es: Seq<FoundView>,
    lows: Seq<Option<LoweredView>>,
    names: Seq<Seq<char>>,
    q: Seq<char>,
    query_len: int,
    i: int,
    p: Seq<char>,
) -> bool {
    hit_by_content(root, es, lows, q, query_len, i, p) || hit_by_name(root, es, names, q, i, p)
}

proof fn lemma_content_hits(
    root: Seq<char>,
    es: Seq<FoundView>,
    lows: Seq<Option<LoweredView>>,
    q: Seq<char>,
    query_len: int,
    n: int,
    p: Seq<char>,
)
    requires
        0 <= n <= es.len(),
    ensures
        search::has_hit(search::content_hits(root, es, lows, q, query_len, n), p) <==> exists|
            i: int,
        |
            0 <= i < n && #[trigger] hit_by_content(root, es, lows, q, query_len, i, p),
    decreases n,
{
    if n > 0 {
        lemma_content_hits(root, es, lows, q, query_len, n - 1, p);
        let before = search::content_hits(root, es, lows, q, query_len, n - 1);
        let now = search::content_hits(root, es, lows, q, query_len, n);
        match search::content_hit(root, es[n - 1], lows[n - 1], q, query_len) {
            Some(h) => {
                assert(now[before.len() as int] == h);
                if search::has_hit(before, p) {
                    let k = choose|k: int| 0 <= k < before.len() && (#[trigger] before[k]).path == p;
                    assert(now[k].path == p);
                }
                if h.path == p {
                    assert(hit_by_content(root, es, lows, q, query_len, n - 1, p));
                } else if search::has_hit(now, p) {
                    let k = choose|k: int| 0 <= k < now.len() && (#[trigger] now[k]).path == p;
                    assert(before[k].path == p);
                }
            },
            None => {},
        }
    } else {
        assert(search::content_hits(root, es, lows, q, query_len, n).len() == 0);
    }
}

proof fn lemma_with_name_hits(
    hits: Seq<HitView>,
    root: Seq<char>,
    es: Seq<FoundView>,
    names: Seq<Seq<char>>,
    q: Seq<char>,
    n: int,
    p: Seq<char>,
)
    requires
        0 <= n <= es.len(),
    ensures
        search::has_hit(search::with_name_hits(hits, root, es, names, q, n), p) <==> (
        search::has_hit(hits, p) || exists|i: int|
            0 <= i < n && #[trigger] hit_by_name(root, es, names, q, i, p)),
    decreases n,
{
    if n > 0 {
        lemma_with_name_hits(hits, root, es, names, q, n - 1, p);
        let before = search::with_name_hits(hits, root, es, names, q, n - 1);
        let now = search::with_name_hits(hits, root, es, names, q, n);
        match search::name_hit(root, es[n - 1], names[n - 1], q) {
            Some(h) => {
                if h.path == p {
                    assert(hit_by_name(root, es, names, q, n - 1, p));
                }
                if !search::has_hit(before, h.path) {
                    assert(now[before.len() as int] == h);
                    if search::has_hit(before, p) {
                        let k = choose|k: int|
                            0 <= k < before.len() && (#[trigger] before[k]).path == p;
                        assert(now[k].path == p);
                    }
                    if h.path != p && search::has_hit(now, p) {
                        let k = choose|k: int| 0 <= k < now.len() && (#[trigger] now[k]).path == p;
                        assert(before[k].path == p);
                    }
                }
            },
            None => {},
        }
    }
}

/// There is a hit at a path exactly where a note outside the trash lies there
/// whose content or name holds the query.
pub proof fn hits_are_the_matches(
    root: Seq<char>,
    es: Seq<FoundView>,
    lows: Seq<Option<LoweredView>>,
    names: Seq<Seq<char>>,
    q: Seq<char>,
    query_len: int,
    p: Seq<char>,
)
    ensures
        search::has_hit(
            sort::ranked::<SearchHit>(search::all_hits(root, es, lows, names, q, query_len)),
            p,
        ) <==> exists|i: int|
            0 <= i < es.len() && #[trigger] is_hit(root, es, lows, names, q, query_len, i, p),
{
    let n = es.len() as int;
    let first = search::content_hits(root, es, lows, q, query_len, n);
    let all = search::all_hits(root, es, lows, names, q, query_len);
    let r = sort::ranked::<SearchHit>(all);
    lemma_content_hits(root, es, lows, q, query_len, n, p);
    lemma_with_name_hits(first, root, es, names, q, n, p);
    if search::has_hit(all, p) {
        let k = choose|k: int| 0 <= k < all.len() && (#[trigger] all[k]).path == p;
        lemma_ranked_contains::<SearchHit>(all, all[k]);
        assert(all.contains(all[k]));
        let j = choose|j: int| 0 <= j < r.len() && r[j] == all[k];
        assert(r[j].path == p);
        if search::has_hit(first, p) {
            let i = choose|i: int|
                0 <= i < n && #[trigger] hit_by_content(root, es, lows, q, query_len, i, p);
            assert(is_hit(root, es, lows, names, q, query_len, i, p));
        } else {
            let i = choose|i: int| 0 <= i < n && #[trigger] hit_by_name(root, es, names, q, i, p);
            assert(is_hit(root, es, lows, names, q, query_len, i, p));
        }
    }
    if search::has_hit(r, p) {
        let j = choose|j: int| 0 <= j < r.len() && (#[trigger] r[j]).path == p;
        lemma_ranked_contains::<SearchHit>(all, r[j]);
        assert(r.contains(r[j]));
        let k = choose|k: int| 0 <= k < all.len() && all[k] == r[j];
        assert(all[k].path == p);
    }
    if exists|i: int|
        0 <= i < n && #[trigger] is_hit(root, es, lows, names, q, query_len, i, p) {
        let i = choose|i: int|
            0 <= i < n && #[trigger] is_hit(root, es, lows, names, q, query_len, i, p);
        assert(hit_by_content(root, es, lows, q, query_len, i, p) || hit_by_name(
            root,
            es,
            names,
            q,
            i,
            p,
        ));
        assert(search::has_hit(all, p));
    }
}

/// Nothing in the trash is a hit.
pub proof fn trash_has_no_hits(
    root: Seq<char>,
    es: Seq<FoundView>,
    lows: Seq<Option<LoweredView>>,
    names: Seq<Seq<char>>,
    q: Seq<char>,
    query_len: int,
    i: int,
)
    requires
        0 <= i < es.len(),
        search::names_trash(es[i].path),
    ensures
        search::content_hit(root, es[i], lows[i], q, query_len) is None,
        search::name_hit(root, es[i], names[i], q) is None,
{
}

// ---------------------------------------------------------------------------
// No path is listed twice
// ---------------------------------------------------------------------------

/// No two entries lie at the same place below `root`.
pub open spec fn distinct_places(root: Seq<char>, es: Seq<FoundView>) -> bool {
    forall|i: int, j: int|
        0 <= i < es.len() && 0 <= j < es.len() && i != j && search::place(
            root,
            #[trigger] es[i],
        ) is Some ==> search::place(root, es[i]) != search::place(root, #[trigger] es[j])
}

/// Each path comes before those behind it.
pub open spec fn ascending(paths: Seq<Seq<char>>) -> bool {
    forall|i: int, j: int|
        0 <= i < j < paths.len() ==> text::text_lt(#[trigger] paths[i], #[trigger] paths[j])
}

/// The paths of the hits.
pub open spec fn hit_paths(hits: Seq<HitView>) -> Seq<Seq<char>> {
    hits.map_values(|h: HitView| h.path)
}

proof fn lemma_matches_differ(
    root: Seq<char>,
    es: Seq<FoundView>,
    lows: Seq<Option<Seq<char>>>,
    q: Seq<char>,
    n: int,
)
    requires
        0 <= n <= es.len(),
        lows.len() == es.len(),
        distinct_places(root, es),
    ensures
        search::content_matches(root, es, lows, q, n).no_duplicates(),
    decreases n,
{
    if n > 0 {
        lemma_matches_differ(root, es, lows, q, n - 1);
        let before = search::content_matches(root, es, lows, q, n - 1);
        match search::content_match(root, es[n - 1], lows[n - 1], q) {
            Some(rel) => {
                lemma_content_matches(root, es, lows, q, n - 1, rel);
                if before.contains(rel) {
                    let i = choose|i: int|
                        0 <= i < n - 1 && search::content_match(root, #[trigger] es[i], lows[i], q)
                            == Some(rel);
                    assert(search::place(root, es[i]) != search::place(root, es[n - 1]));
                }
            },
            None => {},
        }
    }
}

/// Where no two entries lie at the same place, a search lists its paths in
/// ascending order, and none twice.
pub proof fn no_path_is_found_twice(
    root: Seq<char>,
    es: Seq<FoundView>,
    lows: Seq<Option<Seq<char>>>,
    q: Seq<char>,
)
    requires
        lows.len() == es.len(),
        distinct_places(root, es),
    ensures
        ascending(
            sort::ranked::<String>(search::content_matches(root, es, lows, q, es.len() as int)),
        ),
{
    let s = search::content_matches(root, es, lows, q, es.len() as int);
    let r = sort::ranked::<String>(s);
    lemma_matches_differ(root, es, lows, q, es.len() as int);
    sort::ranked_is_in_order::<String>(s);
    sort::ranked_keeps_every_item::<String>(s);
    s.lemma_multiset_has_no_duplicates();
    r.lemma_multiset_has_no_duplicates_conv();
    assert forall|i: int, j: int| 0 <= i < j < r.len() implies text::text_lt(
        #[trigger] r[i],
        #[trigger] r[j],
    ) by {
        assert(<String as sort::Ranked>::le(r[i], r[j]));
        if text::text_le(r[j], r[i]) {
            text::text_le_antisymmetric(r[i], r[j]);
        }
    }
}

proof fn lemma_content_hits_differ(
    root: Seq<char>,
    es: Seq<FoundView>,
    lows: Seq<Option<LoweredView>>,
    q: Seq<char>,
    query_len: int,
    n: int,
)
    requires
        0 <= n <= es.len(),
        distinct_places(root, es),
    ensures
        hit_paths(search::content_hits(root, es, lows, q, query_len, n)).no_duplicates(),
    decreases n,
{
    if n > 0 {
        lemma_content_hits_differ(root, es, lows, q, query_len, n - 1);
        let before = search::content_hits(root, es, lows, q, query_len, n - 1);
        match search::content_hit(root, es[n - 1], lows[n - 1], q, query_len) {
            Some(h) => {
                assert(hit_paths(before.push(h)) =~= hit_paths(before).push(h.path));
                lemma_content_hits(root, es, lows, q, query_len, n - 1, h.path);
                if hit_paths(before).contains(h.path) {
                    let k = choose|k: int|
                        0 <= k < hit_paths(before).len() && hit_paths(before)[k] == h.path;
                    assert(before[k].path == h.path);
                    assert(search::has_hit(before, h.path));
                    let i = choose|i: int|
                        0 <= i < n - 1 && #[trigger] hit_by_content(
                            root,
                            es,
                            lows,
                            q,
                            query_len,
                            i,
                            h.path,
                        );
                    assert(search::place(root, es[i]) != search::place(root, es[n - 1]));
                }
            },
            None => {},
        }
    }
}

proof fn lemma_name_hits_differ(
    hits: Seq<HitView>,
    root: Seq<char>,
    es: Seq<FoundView>,
    names: Seq<Seq<char>>,
    q: Seq<char>,
    n: int,
)
    requires
        hit_paths(hits).no_duplicates(),
    ensures
        hit_paths(search::with_name_hits(hits, root, es, names, q, n)).no_duplicates(),
    decreases n,
{
    if n > 0 {
        lemma_name_hits_differ(hits, root, es, names, q, n - 1);
        let before = search::with_name_hits(hits, root, es, names, q, n - 1);
        match search::name_hit(root, es[n - 1], names[n - 1], q) {
            Some(h) => {
                assert(hit_paths(before.push(h)) =~= hit_paths(before).push(h.path));
                if hit_paths(before).contains(h.path) {
                    let k = choose|k: int|
                        0 <= k < hit_paths(before).len() && hit_paths(before)[k] == h.path;
                    assert(before[k].path == h.path);
                    assert(search::has_hit(before, h.path));
                }
            },
            None => {},
        }
    }
}

/// Where no two entries lie at the same place, the hits are listed with their
/// paths in ascending order, and none twice.
pub proof fn no_path_is_hit_twice(
    root: Seq<char>,
    es: Seq<FoundView>,
    lows: Seq<Option<LoweredView>>,
    names: Seq<Seq<char>>,
    q: Seq<char>,
    query_len: int,
)
    requires
        distinct_places(root, es),
    ensures
        ascending(
            hit_paths(
                sort::ranked::<SearchHit>(search::all_hits(root, es, lows, names, q, query_len)),
            ),
        ),
{
    let n = es.len() as int;
    let s = search::all_hits(root, es, lows, names, q, query_len);
    let r = sort::ranked::<SearchHit>(s);
    lemma_content_hits_differ(root, es, lows, q, query_len, n);
    lemma_name_hits_differ(
        search::content_hits(root, es, lows, q, query_len, n),
        root,
        es,
        names,
        q,
        n,
    );
    sort::ranked_is_in_order::<SearchHit>(s);
    sort::ranked_keeps_every_item::<SearchHit>(s);
    assert forall|i: int, j: int| 0 <= i < s.len() && 0 <= j < s.len() && i != j implies s[i]
        != s[j] by {
        assert(hit_paths(s)[i] != hit_paths(s)[j]);
    }
    s.lemma_multiset_has_no_duplicates();
    r.lemma_multiset_has_no_duplicates_conv();
    assert forall|i: int, j: int| 0 <= i < j < hit_paths(r).len() implies text::text_lt(
        #[trigger] hit_paths(r)[i],
        #[trigger] hit_paths(r)[j],
    ) by {
        assert(<SearchHit as sort::Ranked>::le(r[i], r[j]));
        if text::text_le(r[j].path, r[i].path) {
            text::text_le_antisymmetric(r[i].path, r[j].path);
            lemma_ranked_contains::<SearchHit>(s, r[i]);
            lemma_ranked_contains::<SearchHit>(s, r[j]);
            assert(r.contains(r[i]) && r.contains(r[j]));
            let a = choose|a: int| 0 <= a < s.len() && s[a] == r[i];
            let b = choose|b: int| 0 <= b < s.len() && s[b] == r[j];
            if a != b {
                assert(hit_paths(s)[a] != hit_paths(s)[b]);
            }
            assert(r[i] == r[j]);
        }
    }
}

// ---------------------------------------------------------------------------
// Snippets
// ---------------------------------------------------------------------------

proof fn lemma_trim_start(s: Seq<char>) -> (a: int)
    ensures
        0 <= a <= s.len(),
        text::trim_start(s) == s.skip(a),
        forall|i: int| 0 <= i < a ==> text::is_space(#[trigger] s[i]),
    decreases s.len(),
{
    if s.len() > 0 && text::is_space(s[0]) {
        let b = lemma_trim_start(s.skip(1));
        assert(s.skip(1).skip(b) =~= s.skip(b + 1));
        assert forall|i: int| 0 <= i < b + 1 implies text::is_space(#[trigger] s[i]) by {
            if i > 0 {
                assert(s.skip(1)[i - 1] == s[i]);
            }
        }
        b + 1
    } else {
        assert(s.skip(0) =~= s);
        0
    }
}

proof fn lemma_trim_end(s: Seq<char>) -> (b: int)
    ensures
        0 <= b <= s.len(),
        text::trim_end(s) == s.take(b),
        forall|i: int| b <= i < s.len() ==> text::is_space(#[trigger] s[i]),
    decreases s.len(),
{
    if s.len() > 0 && text::is_space(s.last()) {
        let t = s.drop_last();
        let b = lemma_trim_end(t);
        assert(t.take(b) =~= s.take(b));
        assert forall|i: int| b <= i < s.len() implies text::is_space(#[trigger] s[i]) by {
            if i < t.len() {
                assert(t[i] == s[i]);
            }
        }
        b
    } else {
        assert(s.take(s.len() as int) =~= s);
        s.len() as int
    }
}

/// A snippet shows the match: where `query` stands in the content from
/// character `m` on, has no line breaks and no white space at its ends, and is
/// short enough to fit behind the text before it.
pub proof fn snippet_shows_the_match(content: Seq<char>, query: Seq<char>, m: int)
    requires
        text::occurs_at(content, query, m),
        query.len() > 0,
        query.len() + search::SNIPPET_MARGIN + 1 <= search::SNIPPET_LIMIT,
        !query.contains('\n'),
        !query.contains('\r'),
        !text::is_space(query[0]),
        !text::is_space(query.last()),
    ensures
        text::contains_text(
            search::snippet(content, bytes::byte_len(content, m) as int, query.len() as int),
            query,
        ),
{
    let ql = query.len() as int;
    bytes::chars_before_byte_len(content, m);
    let start = search::window_start(m);
    let end = search::window_end(content.len() as int, m, ql);
    let window = content.subrange(start, end);
    let line = search::on_one_line(window);
    let p = m - start;
    assert forall|k: int| 0 <= k < ql implies line[p + k] == #[trigger] query[k] by {
        assert(content.subrange(m, m + ql)[k] == query[k]);
        assert(window[p + k] == query[k]);
        assert(query.contains(query[k]));
    }
    let a = lemma_trim_start(line);
    let rest = line.skip(a);
    let b = lemma_trim_end(rest);
    let middle = rest.take(b);
    assert(text::trimmed(line) == middle);
    assert(line[p] == query[0]);
    assert(line[p + ql - 1] == query[ql - 1]);
    assert(a <= p);
    if p + ql > a + b {
        assert(rest[p + ql - 1 - a] == line[p + ql - 1]);
        assert(text::is_space(rest[p + ql - 1 - a]));
    }
    let lead = if start > 0 {
        1int
    } else {
        0int
    };
    let left = if start > 0 {
        seq!['\u{2026}'] + middle
    } else {
        middle
    };
    let both = if end < content.len() {
        left.push('\u{2026}')
    } else {
        left
    };
    let out = search::snippet(content, bytes::byte_len(content, m) as int, ql);
    let at = lead + p - a;
    assert forall|k: int| 0 <= k < ql implies out[at + k] == #[trigger] query[k] by {
        assert(middle[p - a + k] == line[p + k]);
        assert(both[at + k] == query[k]);
    }
    assert(out.subrange(at, at + ql) =~= query);
    assert(text::occurs_at(out, query, at));
}

/// How many characters the first `m` characters have in lower case.
pub open spec fn low_len(widths: Seq<usize>, m: int) -> int
    decreases m,
{
    if m <= 0 {
        0
    } else {
        low_len(widths, m - 1) + widths[m - 1]
    }
}

proof fn lemma_low_len_skip(widths: Seq<usize>, m: int)
    requires
        0 < m <= widths.len(),
    ensures
        low_len(widths, m) == widths[0] + low_len(widths.skip(1), m - 1),
    decreases m,
{
    if m > 1 {
        lemma_low_len_skip(widths, m - 1);
        assert(widths.skip(1)[m - 2] == widths[m - 1]);
    } else {
        assert(low_len(widths, 0) == 0);
        assert(low_len(widths.skip(1), 0) == 0);
    }
}

proof fn lemma_low_len_grows(widths: Seq<usize>, m: int)
    ensures
        low_len(widths, m) >= 0,
    decreases m,
{
    if m > 0 {
        lemma_low_len_grows(widths, m - 1);
    }
}

proof fn lemma_source_char(widths: Seq<usize>, k: int, m: int)
    requires
        0 <= m < widths.len(),
        low_len(widths, m) <= k < low_len(widths, m + 1),
    ensures
        search::source_char(widths, k) == m,
    decreases m,
{
    lemma_low_len_skip(widths, m + 1);
    if m > 0 {
        lemma_low_len_skip(widths, m);
        lemma_low_len_grows(widths.skip(1), m - 1);
        lemma_source_char(widths.skip(1), k - widths[0], m - 1);
    } else {
        assert(low_len(widths.skip(1), 0) == 0);
    }
}

/// The snippet of a hit is taken from around the first match: from around the
/// character of the note whose lower case the match begins in, however many
/// characters and bytes the characters before it have in lower case.
pub proof fn a_hit_is_shown_where_it_matched(
    content: Seq<char>,
    low: LoweredView,
    q: Seq<char>,
    query_len: int,
    k: int,
    m: int,
)
    requires
        low.widths.len() == content.len(),
        text::first_occurrence(low.text, q) == Some(k),
        0 <= m < content.len(),
        low_len(low.widths, m) <= k < low_len(low.widths, m + 1),
    ensures
        search::match_snippet(content, low, q, query_len) == Some(
            search::snippet(content, bytes::byte_len(content, m) as int, query_len),
        ),
        bytes::chars_before(content, bytes::byte_len(content, m) as int) == m,
{
    lemma_source_char(low.widths, k, m);
    bytes::chars_before_byte_len(content, m);
}

// ---------------------------------------------------------------------------
// What is found, in terms of what lies in the folder
// ---------------------------------------------------------------------------

/// The query occurs in the text, both in lower case; one without characters
/// occurs everywhere.
pub open spec fn is_in(query: Seq<char>, s: Seq<char>) -> bool {
    query.len() == 0 || exists|a: Seq<char>, b: Seq<char>| #[trigger]
        (a + search::lowercase(query) + b) == search::lowercase(s)
}

/// `e`, found at `rel`, is a note within ten levels that is searched.
pub open spec fn is_in_reach(e: FoundView, rel: Seq<char>) -> bool {
    list_laws::is_note_here(e) && listing::depth(rel) <= 10
}

/// What stands in `e`, found at `rel`, holds the query.
pub open spec fn holds_query(e: FoundView, rel: Seq<char>, query: Seq<char>) -> bool {
    is_in_reach(e, rel) && list_laws::is_small(e) && (e.content matches Some(c) && is_in(query, c))
}

/// The name of `e`, found at `rel`, holds the query.
pub open spec fn is_named_by(e: FoundView, rel: Seq<char>, query: Seq<char>) -> bool {
    is_in_reach(e, rel) && is_in(query, e.name->0)
}

proof fn lemma_is_in(query: Seq<char>, s: Seq<char>)
    ensures
        text::contains_text(search::lowercase(s), search::low_query(query)) <==> is_in(query, s),
{
    let low = search::lowercase(s);
    let q = search::low_query(query);
    text_laws::to_occur_is_to_stand_between(low, q);
    if query.len() == 0 {
        assert(low.subrange(0, 0) =~= q);
        assert(text::occurs_at(low, q, 0));
    }
}

/// A search finds a path exactly where a note within ten levels lies there, with
/// a mebibyte at most, whose whole content holds the query, both in lower case.
pub proof fn a_search_finds_what_holds_the_query(
    root: Seq<char>,
    es: Seq<FoundView>,
    rels: Seq<Seq<char>>,
    query: Seq<char>,
    p: Seq<char>,
)
    requires
        list_laws::all_found_at(root, es, rels),
    ensures
        sort::ranked::<String>(
            search::content_matches(
                root,
                es,
                search::low_contents(es),
                search::low_query(query),
                es.len() as int,
            ),
        ).contains(p) <==> exists|i: int|
            0 <= i < es.len() && rels[i] == p && holds_query(#[trigger] es[i], p, query),
{
    let lows = search::low_contents(es);
    let q = search::low_query(query);
    search_finds_the_matches(root, es, lows, q, p);
    assert forall|i: int| 0 <= i < es.len() implies (search::content_match(
        root,
        #[trigger] es[i],
        lows[i],
        q,
    ) == Some(p) <==> rels[i] == p && holds_query(es[i], p, query)) by {
        let e = es[i];
        assert(list_laws::found_at(root, e, rels[i]));
        list_laws::ten_levels_are_in_reach(root, e, rels[i]);
        list_laws::a_note_is_a_file_called_md(e);
        if e.content is Some {
            lemma_is_in(query, e.content->0);
        }
    }
}

/// There is a hit at a path exactly where a note outside the trash lies there,
/// within ten levels, whose content, with a mebibyte at most, or whose name holds
/// the query.
pub proof fn a_hit_is_what_holds_the_query_or_is_named_by_it(
    root: Seq<char>,
    es: Seq<FoundView>,
    rels: Seq<Seq<char>>,
    query: Seq<char>,
    query_len: int,
    p: Seq<char>,
)
    requires
        list_laws::all_found_at(root, es, rels),
    ensures
        search::has_hit(
            sort::ranked::<SearchHit>(
                search::all_hits(
                    root,
                    es,
                    search::lowered_contents(es),
                    search::low_names(es),
                    search::low_query(query),
                    query_len,
                ),
            ),
            p,
        ) <==> exists|i: int|
            0 <= i < es.len() && rels[i] == p && !list_laws::tells_of_trash(
                (#[trigger] es[i]).path,
            ) && (holds_query(es[i], p, query) || is_named_by(es[i], p, query)),
{
    let lows = search::lowered_contents(es);
    let names = search::low_names(es);
    let q = search::low_query(query);
    hits_are_the_matches(root, es, lows, names, q, query_len, p);
    assert forall|i: int| 0 <= i < es.len() implies (#[trigger] is_hit(
        root,
        es,
        lows,
        names,
        q,
        query_len,
        i,
        p,
    ) <==> rels[i] == p && !list_laws::tells_of_trash(es[i].path) && (holds_query(es[i], p, query)
        || is_named_by(es[i], p, query))) by {
        lemma_hit(root, es, rels, query, query_len, i, p);
    }
    if exists|i: int|
        0 <= i < es.len() && rels[i] == p && !list_laws::tells_of_trash((#[trigger] es[i]).path) && (
        holds_query(es[i], p, query) || is_named_by(es[i], p, query)) {
        let i = choose|i: int|
            0 <= i < es.len() && rels[i] == p && !list_laws::tells_of_trash(
                (#[trigger] es[i]).path,
            ) && (holds_query(es[i], p, query) || is_named_by(es[i], p, query));
        assert(is_hit(root, es, lows, names, q, query_len, i, p));
    }
}

proof fn lemma_hit(
    root: Seq<char>,
    es: Seq<FoundView>,
    rels: Seq<Seq<char>>,
    query: Seq<char>,
    query_len: int,
    i: int,
    p: Seq<char>,
)
    requires
        list_laws::all_found_at(root, es, rels),
        0 <= i < es.len(),
    ensures
        hit_by_content(
            root,
            es,
            search::lowered_contents(es),
            search::low_query(query),
            query_len,
            i,
            p,
        ) <==> rels[i] == p && !list_laws::tells_of_trash(es[i].path) && holds_query(
            es[i],
            p,
            query,
        ),
        hit_by_name(root, es, search::low_names(es), search::low_query(query), i, p) <==> rels[i]
            == p && !list_laws::tells_of_trash(es[i].path) && is_named_by(es[i], p, query),
{
    let e = es[i];
    let q = search::low_query(query);
    assert(list_laws::found_at(root, e, rels[i]));
    list_laws::ten_levels_are_in_reach(root, e, rels[i]);
    list_laws::a_note_is_a_file_called_md(e);
    list_laws::the_trash_is_told_by_its_name(e.path);
    lemma_is_in(query, e.name_or(""@));
    if e.content is Some {
        lemma_is_in(query, e.content->0);
        text::first_occurrence_is_first(search::lowercase(e.content->0), q);
    }
}

proof fn lemma_content_hit_is_kept(
    root: Seq<char>,
    es: Seq<FoundView>,
    lows: Seq<Option<LoweredView>>,
    q: Seq<char>,
    query_len: int,
    n: int,
    i: int,
    h: HitView,
)
    requires
        0 <= i < n <= es.len(),
        search::content_hit(root, es[i], lows[i], q, query_len) == Some(h),
    ensures
        search::content_hits(root, es, lows, q, query_len, n).contains(h),
    decreases n,
{
    let now = search::content_hits(root, es, lows, q, query_len, n);
    let before = search::content_hits(root, es, lows, q, query_len, n - 1);
    if i < n - 1 {
        lemma_content_hit_is_kept(root, es, lows, q, query_len, n - 1, i, h);
        let k = choose|k: int| 0 <= k < before.len() && before[k] == h;
        assert(now[k] == h);
    } else {
        assert(now[before.len() as int] == h);
    }
}

proof fn lemma_hits_stay(
    hits: Seq<HitView>,
    root: Seq<char>,
    es: Seq<FoundView>,
    names: Seq<Seq<char>>,
    q: Seq<char>,
    n: int,
    h: HitView,
)
    requires
        hits.contains(h),
    ensures
        search::with_name_hits(hits, root, es, names, q, n).contains(h),
    decreases n,
{
    if n > 0 {
        lemma_hits_stay(hits, root, es, names, q, n - 1, h);
        let before = search::with_name_hits(hits, root, es, names, q, n - 1);
        let now = search::with_name_hits(hits, root, es, names, q, n);
        let k = choose|k: int| 0 <= k < before.len() && before[k] == h;
        assert(now[k] == h);
    }
}

/// A note that is found by its content is shown with the text around the first
/// match; also where its name holds the query.
pub proof fn a_note_is_shown_around_its_match(
    root: Seq<char>,
    es: Seq<FoundView>,
    rels: Seq<Seq<char>>,
    query: Seq<char>,
    query_len: int,
    i: int,
    k: int,
    m: int,
)
    requires
        list_laws::all_found_at(root, es, rels),
        0 <= i < es.len(),
        !list_laws::tells_of_trash(es[i].path),
        holds_query(es[i], rels[i], query),
        query.len() > 0,
        text::occurs_at(search::lowercase(es[i].content->0), search::lowercase(query), k),
        forall|j: int|
            0 <= j < k ==> !#[trigger] text::occurs_at(
                search::lowercase(es[i].content->0),
                search::lowercase(query),
                j,
            ),
        0 <= m < es[i].content->0.len(),
        low_len(search::low_widths(es[i].content->0), m) <= k < low_len(
            search::low_widths(es[i].content->0),
            m + 1,
        ),
    ensures
        sort::ranked::<SearchHit>(
            search::all_hits(
                root,
                es,
                search::lowered_contents(es),
                search::low_names(es),
                search::low_query(query),
                query_len,
            ),
        ).contains(
            HitView {
                path: rels[i],
                snippet: search::snippet(
                    es[i].content->0,
                    bytes::byte_len(es[i].content->0, m) as int,
                    query_len,
                ),
            },
        ),
{
    let lows = search::lowered_contents(es);
    let names = search::low_names(es);
    let q = search::low_query(query);
    let c = es[i].content->0;
    let n = es.len() as int;
    lemma_hit(root, es, rels, query, query_len, i, rels[i]);
    text::first_occurrence_is_first(search::lowercase(c), q);
    let f = text::first_occurrence(search::lowercase(c), q)->0;
    assert(f == k);
    a_hit_is_shown_where_it_matched(c, search::lowered(c), q, query_len, k, m);
    let h = search::content_hit(root, es[i], lows[i], q, query_len)->0;
    lemma_content_hit_is_kept(root, es, lows, q, query_len, n, i, h);
    lemma_hits_stay(
        search::content_hits(root, es, lows, q, query_len, n),
        root,
        es,
        names,
        q,
        n,
        h,
    );
    lemma_ranked_contains::<SearchHit>(search::all_hits(root, es, lows, names, q, query_len), h);
}

proof fn lemma_name_hit_is_kept(
    hits: Seq<HitView>,
    root: Seq<char>,
    es: Seq<FoundView>,
    names: Seq<Seq<char>>,
    q: Seq<char>,
    n: int,
    i: int,
    h: HitView,
)
    requires
        0 <= i < n <= es.len(),
        search::name_hit(root, es[i], names[i], q) == Some(h),
        !search::has_hit(hits, h.path),
        forall|j: int| 0 <= j < n && j != i ==> !#[trigger] hit_by_name(root, es, names, q, j, h.path),
    ensures
        search::with_name_hits(hits, root, es, names, q, n).contains(h),
    decreases n,
{
    let before = search::with_name_hits(hits, root, es, names, q, n - 1);
    let now = search::with_name_hits(hits, root, es, names, q, n);
    if i < n - 1 {
        lemma_name_hit_is_kept(hits, root, es, names, q, n - 1, i, h);
        let k = choose|k: int| 0 <= k < before.len() && before[k] == h;
        assert(now[k] == h);
    } else {
        lemma_with_name_hits(hits, root, es, names, q, n - 1, h.path);
        assert(now[before.len() as int] == h);
    }
}

/// A note that is found by its name alone is shown with its title.
pub proof fn a_note_found_by_name_shows_its_title(
    root: Seq<char>,
    es: Seq<FoundView>,
    rels: Seq<Seq<char>>,
    query: Seq<char>,
    query_len: int,
    i: int,
)
    requires
        list_laws::all_found_at(root, es, rels),
        rels.no_duplicates(),
        0 <= i < es.len(),
        !list_laws::tells_of_trash(es[i].path),
        is_named_by(es[i], rels[i], query),
        !holds_query(es[i], rels[i], query),
    ensures
        sort::ranked::<SearchHit>(
            search::all_hits(
                root,
                es,
                search::lowered_contents(es),
                search::low_names(es),
                search::low_query(query),
                query_len,
            ),
        ).contains(
            HitView {
                path: rels[i],
                snippet: search::title(
                    match es[i].content {
                        Some(c) => c,
                        None => Seq::empty(),
                    },
                ),
            },
        ),
{
    reveal_strlit("");
    assert(""@ =~= Seq::empty());
    let lows = search::lowered_contents(es);
    let names = search::low_names(es);
    let q = search::low_query(query);
    let n = es.len() as int;
    let p = rels[i];
    let first = search::content_hits(root, es, lows, q, query_len, n);
    lemma_hit(root, es, rels, query, query_len, i, p);
    lemma_content_hits(root, es, lows, q, query_len, n, p);
    assert forall|j: int| 0 <= j < n && j != i implies !#[trigger] hit_by_name(
        root,
        es,
        names,
        q,
        j,
        p,
    ) by {
        lemma_hit(root, es, rels, query, query_len, j, p);
        assert(rels[j] != rels[i]);
    }
    assert forall|j: int| 0 <= j < n implies !#[trigger] hit_by_content(
        root,
        es,
        lows,
        q,
        query_len,
        j,
        p,
    ) by {
        lemma_hit(root, es, rels, query, query_len, j, p);
        if j != i {
            assert(rels[j] != rels[i]);
        }
    }
    let h = search::name_hit(root, es[i], names[i], q)->0;
    lemma_name_hit_is_kept(first, root, es, names, q, n, i, h);
    lemma_ranked_contains::<SearchHit>(search::all_hits(root, es, lows, names, q, query_len), h);
}

// ---------------------------------------------------------------------------
// What a snippet and a title show
// ---------------------------------------------------------------------------

/// Where there is more than the window on both sides, a snippet shows sixty
/// characters before the match, the match, and sixty characters behind it, on
/// one line, with an ellipsis at each end; 140 characters at most.
pub proof fn a_snippet_shows_sixty_characters_around(
    x: Seq<char>,
    before: Seq<char>,
    found: Seq<char>,
    behind: Seq<char>,
    y: Seq<char>,
)
    requires
        x.len() > 0,
        y.len() > 0,
        before.len() == 60,
        behind.len() == 60,
    ensures
        ({
            let content = x + before + found + behind + y;
            let at = bytes::byte_len(content, (x.len() + before.len()) as int);
            let shown = seq!['\u{2026}'] + text::trimmed(
                search::on_one_line(before + found + behind),
            ) + seq!['\u{2026}'];
            search::snippet(content, at as int, found.len() as int) == if shown.len() > 140 {
                shown.take(140)
            } else {
                shown
            }
        }),
{
    let content = x + before + found + behind + y;
    let m = (x.len() + before.len()) as int;
    bytes::chars_before_byte_len(content, m);
    let end = m + found.len() + 60;
    assert(content.subrange(m - 60, end) =~= before + found + behind);
    let middle = text::trimmed(search::on_one_line(before + found + behind));
    assert((seq!['\u{2026}'] + middle).push('\u{2026}') =~= seq!['\u{2026}'] + middle + seq![
        '\u{2026}',
    ]);
}

/// Where there is no more than the window on either side, a snippet shows the
/// whole content on one line, in 140 characters at most.
pub proof fn a_snippet_shows_a_short_note_whole(
    before: Seq<char>,
    found: Seq<char>,
    behind: Seq<char>,
)
    requires
        before.len() <= 60,
        behind.len() <= 60,
    ensures
        ({
            let content = before + found + behind;
            let at = bytes::byte_len(content, before.len() as int);
            let shown = text::trimmed(search::on_one_line(content));
            search::snippet(content, at as int, found.len() as int) == if shown.len() > 140 {
                shown.take(140)
            } else {
                shown
            }
        }),
{
    let content = before + found + behind;
    bytes::chars_before_byte_len(content, before.len() as int);
    assert(content.subrange(0, content.len() as int) =~= content);
}

/// A snippet shows sixty characters before the match, or all there are, the
/// match, and sixty characters behind it, or all there are, on one line; with an
/// ellipsis at each end where there is more, in 140 characters at most.
pub proof fn a_snippet_is_cut_only_where_there_is_more(
    x: Seq<char>,
    before: Seq<char>,
    rest: Seq<char>,
    y: Seq<char>,
    query_len: int,
)
    requires
        0 <= query_len,
        before.len() <= 60,
        rest.len() <= query_len + 60,
        x.len() > 0 ==> before.len() == 60,
        y.len() > 0 ==> rest.len() == query_len + 60,
    ensures
        ({
            let content = x + before + rest + y;
            let at = bytes::byte_len(content, (x.len() + before.len()) as int);
            let middle = text::trimmed(search::on_one_line(before + rest));
            let shown = (if x.len() > 0 {
                seq!['\u{2026}']
            } else {
                Seq::empty()
            }) + middle + (if y.len() > 0 {
                seq!['\u{2026}']
            } else {
                Seq::empty()
            });
            search::snippet(content, at as int, query_len) == if shown.len() > 140 {
                shown.take(140)
            } else {
                shown
            }
        }),
{
    let content = x + before + rest + y;
    let m = (x.len() + before.len()) as int;
    bytes::chars_before_byte_len(content, m);
    let start = search::window_start(m);
    let end = search::window_end(content.len() as int, m, query_len);
    assert(start == x.len());
    assert(end == m + rest.len());
    assert(content.subrange(start, end) =~= before + rest);
    let middle = text::trimmed(search::on_one_line(before + rest));
    let shown = (if x.len() > 0 {
        seq!['\u{2026}']
    } else {
        Seq::empty()
    }) + middle + (if y.len() > 0 {
        seq!['\u{2026}']
    } else {
        Seq::empty()
    });
    let left = if start > 0 {
        seq!['\u{2026}'] + middle
    } else {
        middle
    };
    let both = if end < content.len() {
        left.push('\u{2026}')
    } else {
        left
    };
    assert(both =~= shown);
}

/// One line is as long as the text, has a space for each line break, and every
/// other character as it was.
pub proof fn one_line_has_spaces_for_line_breaks(s: Seq<char>, i: int)
    requires
        0 <= i < s.len(),
    ensures
        search::on_one_line(s).len() == s.len(),
        s[i] == '\n' || s[i] == '\r' ==> search::on_one_line(s)[i] == ' ',
        s[i] != '\n' && s[i] != '\r' ==> search::on_one_line(s)[i] == s[i],
{
}

proof fn lemma_line_len_of(line: Seq<char>, rest: Seq<char>)
    requires
        !line.contains('\n'),
        rest.len() == 0 || rest[0] == '\n',
    ensures
        search::line_len(line + rest) == line.len(),
    decreases line.len(),
{
    if line.len() == 0 {
        assert(line + rest =~= rest);
    } else {
        let t = line.skip(1);
        assert(line.contains(line[0]));
        assert forall|c: char| t.contains(c) implies line.contains(c) by {
            let k = choose|k: int| 0 <= k < t.len() && t[k] == c;
            assert(line[k + 1] == c);
        }
        lemma_line_len_of(t, rest);
        assert((line + rest).skip(1) =~= t + rest);
    }
}

/// The first line of a text ends before its line break, of either kind, or with
/// the text.
pub proof fn the_first_line_ends_before_the_break(line: Seq<char>, rest: Seq<char>)
    requires
        !line.contains('\n'),
    ensures
        search::first_line(line) == line,
        line.len() == 0 || line.last() != '\r' ==> search::first_line(line + seq!['\n'] + rest)
            == line,
        search::first_line(line + seq!['\r', '\n'] + rest) == line,
{
    let none = Seq::<char>::empty();
    lemma_line_len_of(line, none);
    assert(line + none =~= line);
    assert(line.take(line.len() as int) =~= line);
    let a = line + seq!['\n'] + rest;
    lemma_line_len_of(line, seq!['\n'] + rest);
    assert(a =~= line + (seq!['\n'] + rest));
    assert(a.take(line.len() as int) =~= line);
    if line.len() > 0 {
        assert(a[line.len() - 1] == line.last());
    }
    let cr = line.push('\r');
    let b = line + seq!['\r', '\n'] + rest;
    assert(!cr.contains('\n')) by {
        if cr.contains('\n') {
            let k = choose|k: int| 0 <= k < cr.len() && cr[k] == '\n';
            assert(line[k] == '\n');
        }
    }
    lemma_line_len_of(cr, seq!['\n'] + rest);
    assert(b =~= cr + (seq!['\n'] + rest));
    assert(b[line.len() as int] == '\r');
    assert(b.take(line.len() as int) =~= line);
}

/// Blank lines at the beginning of a note do not count for its title.
pub proof fn blank_lines_are_passed_over(blank: Seq<char>, rest: Seq<char>)
    requires
        !blank.contains('\n'),
        text_laws::is_blank(blank),
    ensures
        search::title(blank + seq!['\n'] + rest) == search::title(rest),
{
    let s = blank + seq!['\n'] + rest;
    lemma_line_len_of(blank, seq!['\n'] + rest);
    assert(s =~= blank + (seq!['\n'] + rest));
    assert(s.skip((blank.len() + 1) as int) =~= rest);
    let first = search::first_line(s);
    assert(text_laws::is_blank(first)) by {
        assert forall|i: int| 0 <= i < first.len() implies text::is_space(#[trigger] first[i]) by {
            assert(first[i] == blank[i]);
        }
    }
    text_laws::nothing_is_left_of_what_is_blank(first);
}

/// The first line that is not blank is the title, up to 120 characters.
pub proof fn the_first_line_is_the_title(line: Seq<char>, rest: Seq<char>)
    requires
        !line.contains('\n'),
        !text_laws::is_blank(line),
        line.last() != '\r',
    ensures
        ({
            let cut = if line.len() > 120 {
                line.take(120)
            } else {
                line
            };
            &&& search::title(line) == cut
            &&& search::title(line + seq!['\n'] + rest) == cut
            &&& search::title(line + seq!['\r', '\n'] + rest) == cut
        }),
{
    let (a, b) = text_laws::what_is_not_blank_is_trimmed(line);
    the_first_line_ends_before_the_break(line, rest);
}

/// A note without content, or with nothing but white space on its last line, has
/// no title.
pub proof fn what_is_blank_has_no_title(blank: Seq<char>)
    requires
        !blank.contains('\n'),
        text_laws::is_blank(blank),
    ensures
        search::title(blank).len() == 0,
{
    the_first_line_ends_before_the_break(blank, Seq::empty());
    text_laws::nothing_is_left_of_what_is_blank(blank);
    lemma_line_len_of(blank, Seq::empty());
    assert(blank + Seq::<char>::empty() =~= blank);
}

/// The widths of a text are those of its characters, in order.
pub proof fn widths_are_those_of_the_characters(s: Seq<char>, i: int)
    requires
        0 <= i < s.len(),
    ensures
        search::low_widths(s).len() == s.len(),
        search::low_widths(s)[i] == search::char_lower(s[i]).len() as usize,
{
}

} // verus!
