//! Searching notes by what stands in them and by name.

use crate::bytes;
use crate::bytes::{bytes_before, count_before};
use crate::listing;
use crate::listing::{note_name, within_reach, Entry, FoundView};
use crate::paths;
use crate::paths::strip_prefix;
use crate::sort;
use crate::sort::{sort, Ranked};
use crate::text;
use crate::text::{chars_of, find_chars, has_text, join2, not_after, same_text, text_range, trim_range};
use crate::trash::TRASH_DIR;
use vstd::prelude::*;

verus! {

/// How many characters a snippet shows before the match, and after it.
pub const SNIPPET_MARGIN: usize = 60;

/// How many characters a snippet has at most.
pub const SNIPPET_LIMIT: usize = 140;

/// How many characters of its first line stand for a note found by name.
pub const FIRST_LINE_LIMIT: usize = 120;

/// What `str::to_lowercase` gives.
pub uninterp spec fn lowercase(s: Seq<char>) -> Seq<char>;

/// `str::to_lowercase`, whose result depends on the text alone.
pub assume_specification[ str::to_lowercase ](s: &str) -> (r: String)
    ensures
        r@ == lowercase(s@),
;

/// What `char::to_lowercase` gives.
pub uninterp spec fn char_lower(c: char) -> Seq<char>;

/// `char::to_lowercase`, whose result depends on the character alone. What that
/// result is, and that the lower case of a text is made up of such results, is
/// not said.
#[verifier::external_body]
fn lower_of(c: char) -> (r: Vec<char>)
    ensures
        r@ == char_lower(c),
{
    c.to_lowercase().collect()
}

/// A note that was found, and some of the text around the match.
#[derive(Debug)]
pub struct SearchHit {
    pub path: String,
    pub snippet: String,
}

/// What a [`SearchHit`] tells.
pub struct HitView {
    pub path: Seq<char>,
    pub snippet: Seq<char>,
}

impl View for SearchHit {
    type V = HitView;

    open spec fn view(&self) -> HitView {
        HitView { path: self.path@, snippet: self.snippet@ }
    }
}

impl Clone for SearchHit {
    fn clone(&self) -> (r: Self)
        ensures
            r@ == self@,
    {
        SearchHit { path: self.path.clone(), snippet: self.snippet.clone() }
    }
}

/// Hits are ordered by path.
impl Ranked for SearchHit {
    open spec fn le(a: HitView, b: HitView) -> bool {
        text::text_le(a.path, b.path)
    }

    proof fn le_total(a: HitView, b: HitView) {
        text::text_le_total(a.path, b.path);
    }

    proof fn le_transitive(a: HitView, b: HitView, c: HitView) {
        text::text_le_transitive(a.path, b.path, c.path);
    }

    fn no_later(&self, other: &Self) -> (r: bool) {
        not_after(self.path.as_str(), other.path.as_str())
    }
}

// ---------------------------------------------------------------------------
// Snippets
// ---------------------------------------------------------------------------

/// `s` with a space for each line break character.
pub open spec fn on_one_line(s: Seq<char>) -> Seq<char> {
    s.map_values(
        |c: char|
            if c == '\n' || c == '\r' {
                ' '
            } else {
                c
            },
    )
}

/// Where the window around a match at character `m` begins.
pub open spec fn window_start(m: int) -> int {
    if m > SNIPPET_MARGIN {
        m - SNIPPET_MARGIN
    } else {
        0
    }
}

/// Where the window around a match of `query_len` characters at character `m`
/// of `len` ends.
pub open spec fn window_end(len: int, m: int, query_len: int) -> int {
    if m + query_len + SNIPPET_MARGIN < len {
        m + query_len + SNIPPET_MARGIN
    } else {
        len
    }
}

/// The text around a match of `query_len` characters that begins at byte
/// `match_idx`: on one line, with an ellipsis at each end where there is more.
pub open spec fn snippet(content: Seq<char>, match_idx: int, query_len: int) -> Seq<char> {
    let m = bytes::chars_before(content, match_idx) as int;
    let start = window_start(m);
    let end = window_end(content.len() as int, m, query_len);
    let middle = text::trimmed(on_one_line(content.subrange(start, end)));
    let left = if start > 0 {
        seq!['\u{2026}'] + middle
    } else {
        middle
    };
    let both = if end < content.len() {
        left.push('\u{2026}')
    } else {
        left
    };
    if both.len() > SNIPPET_LIMIT {
        both.take(SNIPPET_LIMIT as int)
    } else {
        both
    }
}

/// The text around a match of `query_len` characters that begins at byte
/// `match_idx`.
pub fn make_snippet(content: &str, match_idx: usize, query_len: usize) -> (r: String)
    ensures
        r@ == snippet(content@, match_idx as int, query_len as int),
{
    let v = chars_of(content);
    let m = count_before(&v, match_idx);
    let start: usize = if m > SNIPPET_MARGIN {
        m - SNIPPET_MARGIN
    } else {
        0
    };
    let after: usize = v.len() - m;
    let end: usize = if query_len < after && SNIPPET_MARGIN < after - query_len {
        m + query_len + SNIPPET_MARGIN
    } else {
        v.len()
    };
    let mut line: Vec<char> = Vec::new();
    let mut i: usize = start;
    while i < end
        invariant
            start <= i <= end <= v@.len(),
            line@ == on_one_line(v@.subrange(start as int, i as int)),
        decreases end - i,
    {
        let c = v[i];
        if c == '\n' || c == '\r' {
            line.push(' ');
        } else {
            line.push(c);
        }
        assert(line@ =~= on_one_line(v@.subrange(start as int, i + 1)));
        i += 1;
    }
    let (a, b) = trim_range(&line, 0, line.len());
    assert(line@.subrange(0, line@.len() as int) =~= line@);
    let ghost middle = line@.subrange(a as int, b as int);
    let mut both: Vec<char> = Vec::new();
    if start > 0 {
        both.push('\u{2026}');
    }
    let ghost head = both@;
    let mut k: usize = a;
    while k < b
        invariant
            a <= k <= b <= line@.len(),
            both@ == head + line@.subrange(a as int, k as int),
        decreases b - k,
    {
        both.push(line[k]);
        assert(both@ =~= head + line@.subrange(a as int, k + 1));
        k += 1;
    }
    assert(both@ =~= if start > 0 {
        seq!['\u{2026}'] + middle
    } else {
        middle
    });
    if end < v.len() {
        both.push('\u{2026}');
    }
    let n: usize = if both.len() > SNIPPET_LIMIT {
        SNIPPET_LIMIT
    } else {
        both.len()
    };
    assert(both@.subrange(0, n as int) =~= both@.take(n as int));
    assert(both@.take(both@.len() as int) =~= both@);
    text_range(&both, 0, n)
}

/// Where the first line of `s` ends.
pub open spec fn line_len(s: Seq<char>) -> int
    decreases s.len(),
{
    if s.len() == 0 || s[0] == '\n' {
        0
    } else {
        1 + line_len(s.skip(1))
    }
}

/// The first line of `s`, without its line break.
pub open spec fn first_line(s: Seq<char>) -> Seq<char> {
    let n = line_len(s);
    if 0 < n < s.len() && s[n - 1] == '\r' {
        s.take(n - 1)
    } else {
        s.take(n)
    }
}

/// The first line of `s` that is not blank; nothing where all are.
pub open spec fn first_full_line(s: Seq<char>) -> Seq<char>
    decreases s.len(),
    via first_full_line_shrinks
{
    if text::trimmed(first_line(s)).len() > 0 {
        first_line(s)
    } else if line_len(s) >= s.len() {
        Seq::empty()
    } else {
        first_full_line(s.skip(line_len(s) + 1))
    }
}

#[via_fn]
proof fn first_full_line_shrinks(s: Seq<char>) {
    lemma_line_len(s);
}

proof fn lemma_line_len(s: Seq<char>)
    ensures
        0 <= line_len(s) <= s.len(),
    decreases s.len(),
{
    if s.len() > 0 && s[0] != '\n' {
        lemma_line_len(s.skip(1));
    }
}

/// What stands for a note that was found by name.
pub open spec fn title(content: Seq<char>) -> Seq<char> {
    let line = first_full_line(content);
    if line.len() > FIRST_LINE_LIMIT {
        line.take(FIRST_LINE_LIMIT as int)
    } else {
        line
    }
}

fn end_of_line(v: &Vec<char>, from: usize) -> (r: usize)
    requires
        from <= v@.len(),
    ensures
        from <= r <= v@.len(),
        r - from == line_len(v@.skip(from as int)),
        r < v@.len() ==> v@[r as int] == '\n',
{
    let mut k: usize = from;
    while k < v.len() && v[k] != '\n'
        invariant
            from <= k <= v@.len(),
            line_len(v@.skip(from as int)) == k - from + line_len(v@.skip(k as int)),
        decreases v@.len() - k,
    {
        assert(v@.skip(k as int).skip(1) =~= v@.skip(k + 1));
        k += 1;
    }
    k
}

/// The first line of `s`, without its line break.
pub fn line_of(s: &str) -> (r: String)
    ensures
        r@ == first_line(s@),
{
    let v = chars_of(s);
    assert(v@.skip(0) =~= v@);
    let n = end_of_line(&v, 0);
    let end: usize = if 0 < n && n < v.len() && v[n - 1] == '\r' {
        n - 1
    } else {
        n
    };
    assert(v@.subrange(0, end as int) =~= v@.take(end as int));
    text_range(&v, 0, end)
}

/// What stands for a note that was found by name: the beginning of its first
/// line that is not blank.
pub fn title_of(content: &str) -> (r: String)
    ensures
        r@ == title(content@),
{
    let v = chars_of(content);
    let mut from: usize = 0;
    assert(v@.skip(0) =~= v@);
    while from < v.len()
        invariant
            from <= v@.len(),
            v@ == content@,
            first_full_line(content@) == first_full_line(v@.skip(from as int)),
        decreases v@.len() - from,
    {
        let n = end_of_line(&v, from);
        let ghost s = v@.skip(from as int);
        let end: usize = if from < n && n < v.len() && v[n - 1] == '\r' {
            n - 1
        } else {
            n
        };
        proof {
            assert(first_line(s) =~= v@.subrange(from as int, end as int));
        }
        let (a, b) = trim_range(&v, from, end);
        assert(b - a == text::trimmed(first_line(s)).len());
        if a < b {
            let stop: usize = if end - from > FIRST_LINE_LIMIT {
                from + FIRST_LINE_LIMIT
            } else {
                end
            };
            assert(first_line(s).take(stop - from) =~= v@.subrange(from as int, stop as int));
            return text_range(&v, from, stop);
        }
        if n == v.len() {
            return String::new();
        }
        assert(s.skip(line_len(s) + 1) =~= v@.skip(n + 1));
        from = n + 1;
    }
    String::new()
}

// ---------------------------------------------------------------------------
// Searching
// ---------------------------------------------------------------------------

/// `e` is a file with the name of a note.
pub open spec fn is_note_file(e: FoundView) -> bool {
    e.is_file && listing::is_note(e.name_or(""@))
}

/// Where `e` lies, seen from `root`, where it is within reach.
pub open spec fn place(root: Seq<char>, e: FoundView) -> Option<Seq<char>> {
    match paths::below(e.path, root) {
        Some(rel) if listing::depth(rel) <= listing::MAX_DEPTH => Some(rel),
        _ => None,
    }
}

/// The path names the trash.
pub open spec fn names_trash(path: Seq<char>) -> bool {
    text::contains_text(path, TRASH_DIR@)
}

/// The contents in lower case.
pub open spec fn low_contents(es: Seq<FoundView>) -> Seq<Option<Seq<char>>> {
    es.map_values(
        |e: FoundView|
            match e.content {
                Some(c) => Some(lowercase(c)),
                None => None,
            },
    )
}

/// The names in lower case.
pub open spec fn low_names(es: Seq<FoundView>) -> Seq<Seq<char>> {
    es.map_values(|e: FoundView| lowercase(e.name_or(""@)))
}

/// The characters of optional texts.
pub open spec fn opt_texts(v: Seq<Option<String>>) -> Seq<Option<Seq<char>>> {
    v.map_values(|t: Option<String>| text::opt_text(t))
}

/// Whether `e` is a file with the name of a note.
pub fn is_note_entry(e: &Entry) -> (r: bool)
    ensures
        r == is_note_file(e@),
{
    e.is_file && note_name(e.name_or("").as_str())
}

/// Where `e` lies, seen from `root`, where it is within reach.
pub fn place_of(root: &str, e: &Entry) -> (r: Option<String>)
    ensures
        text::opt_text(r) == place(root@, e@),
{
    match strip_prefix(e.path.as_str(), root) {
        Some(rel) => if within_reach(rel.as_str()) {
            Some(rel)
        } else {
            None
        },
        None => None,
    }
}

/// Where `e` lies, if it is a note that is not too large and whose content, in
/// lower case `low`, holds `q`.
pub open spec fn content_match(
    root: Seq<char>,
    e: FoundView,
    low: Option<Seq<char>>,
    q: Seq<char>,
) -> Option<Seq<char>> {
    match low {
        Some(c) => if is_note_file(e) && !e.too_large() && text::contains_text(c, q) {
            place(root, e)
        } else {
            None
        },
        None => None,
    }
}

/// Where those of the first `n` entries lie whose content holds `q`.
pub open spec fn content_matches(
    root: Seq<char>,
    es: Seq<FoundView>,
    lows: Seq<Option<Seq<char>>>,
    q: Seq<char>,
    n: int,
) -> Seq<Seq<char>>
    decreases n,
{
    if n <= 0 {
        Seq::empty()
    } else {
        let before = content_matches(root, es, lows, q, n - 1);
        match content_match(root, es[n - 1], lows[n - 1], q) {
            Some(rel) => before.push(rel),
            None => before,
        }
    }
}

/// Where those entries lie whose content, in lower case `lows`, holds `q`; in
/// the order of their paths.
pub fn search_lowered(root: &str, es: &Vec<Entry>, lows: &Vec<Option<String>>, q: &str) -> (r: Vec<
    String,
>)
    requires
        lows@.len() == es@.len(),
    ensures
        sort::views(r@) == sort::ranked::<String>(
            content_matches(
                root@,
                sort::views(es@),
                opt_texts(lows@),
                q@,
                es@.len() as int,
            ),
        ),
{
    let ghost all = sort::views(es@);
    let mut out: Vec<String> = Vec::new();
    let mut i: usize = 0;
    assert(sort::views(out@) =~= Seq::empty());
    while i < es.len()
        invariant
            i <= es@.len(),
            lows@.len() == es@.len(),
            all == sort::views(es@),
            sort::views(out@) == content_matches(root@, all, opt_texts(lows@), q@, i as int),
        decreases es@.len() - i,
    {
        let e = &es[i];
        assert(all[i as int] == e@);
        assert(opt_texts(lows@)[i as int] == text::opt_text(lows@[i as int]));
        match &lows[i] {
            Some(c) => {
                if is_note_entry(e) && !e.too_large() && has_text(c.as_str(), q) {
                    match place_of(root, e) {
                        Some(rel) => {
                            let ghost before = out@;
                            out.push(rel);
                            assert(sort::views(out@) =~= sort::views(before).push(rel@));
                        },
                        None => {},
                    }
                }
            },
            None => {},
        }
        i += 1;
    }
    sort(out)
}

fn lower_contents(es: &Vec<Entry>) -> (r: Vec<Option<String>>)
    ensures
        r@.len() == es@.len(),
        opt_texts(r@) == low_contents(sort::views(es@)),
{
    let mut out: Vec<Option<String>> = Vec::new();
    let mut i: usize = 0;
    while i < es.len()
        invariant
            i <= es@.len(),
            out@.len() == i,
            forall|j: int|
                0 <= j < i ==> text::opt_text(#[trigger] out@[j]) == low_contents(
                    sort::views(es@),
                )[j],
        decreases es@.len() - i,
    {
        assert(sort::views(es@)[i as int] == es@[i as int]@);
        let low = match &es[i].content {
            Some(c) => Some(c.as_str().to_lowercase()),
            None => None,
        };
        out.push(low);
        i += 1;
    }
    assert(opt_texts(out@) =~= low_contents(sort::views(es@)));
    out
}

fn lower_names(es: &Vec<Entry>) -> (r: Vec<String>)
    ensures
        r@.len() == es@.len(),
        sort::views(r@) == low_names(sort::views(es@)),
{
    let mut out: Vec<String> = Vec::new();
    let mut i: usize = 0;
    while i < es.len()
        invariant
            i <= es@.len(),
            out@.len() == i,
            forall|j: int|
                0 <= j < i ==> (#[trigger] out@[j])@ == low_names(sort::views(es@))[j],
        decreases es@.len() - i,
    {
        assert(sort::views(es@)[i as int] == es@[i as int]@);
        out.push(es[i].name_or("").as_str().to_lowercase());
        i += 1;
    }
    assert(sort::views(out@) =~= low_names(sort::views(es@)));
    out
}

/// The query in lower case. One without characters has none.
pub open spec fn low_query(query: Seq<char>) -> Seq<char> {
    if query.len() == 0 {
        query
    } else {
        lowercase(query)
    }
}

fn lower_query(query: &str) -> (r: String)
    ensures
        r@ == low_query(query@),
{
    if query.is_empty() {
        query.to_owned()
    } else {
        query.to_lowercase()
    }
}

/// The paths of the notes that hold `query` in any case, in order. `listed` is
/// what a walk through `root` came upon, where that is a directory.
pub fn search_notes(root: &str, listed: Option<&Vec<Entry>>, query: &str) -> (r: Result<
    Vec<String>,
    String,
>)
    ensures
        match (listed, r) {
            (Some(es), Ok(found)) => sort::views(found@) == sort::ranked::<String>(
                content_matches(
                    root@,
                    sort::views(es@),
                    low_contents(sort::views(es@)),
                    low_query(query@),
                    es@.len() as int,
                ),
            ),
            (None, Err(e)) => e@ == "Not a directory: "@ + root@,
            _ => false,
        },
{
    match listed {
        Some(es) => {
            let lows = lower_contents(es);
            let q = lower_query(query);
            Ok(search_lowered(root, es, &lows, q.as_str()))
        },
        None => Err(join2("Not a directory: ", root)),
    }
}

/// A text in lower case, and how many of its characters come from each
/// character of the text as it was written.
pub struct Lowered {
    pub text: String,
    pub widths: Vec<usize>,
}

/// What a [`Lowered`] tells.
pub struct LoweredView {
    pub text: Seq<char>,
    pub widths: Seq<usize>,
}

impl View for Lowered {
    type V = LoweredView;

    open spec fn view(&self) -> LoweredView {
        LoweredView { text: self.text@, widths: self.widths@ }
    }
}

/// What an optional [`Lowered`] tells.
pub open spec fn opt_lowered(l: Option<Lowered>) -> Option<LoweredView> {
    match l {
        Some(l) => Some(l@),
        None => None,
    }
}

/// What optional [`Lowered`]s tell.
pub open spec fn opt_lowereds(v: Seq<Option<Lowered>>) -> Seq<Option<LoweredView>> {
    v.map_values(|l: Option<Lowered>| opt_lowered(l))
}

/// How many characters each character of `s` has in lower case.
pub open spec fn low_widths(s: Seq<char>) -> Seq<usize> {
    s.map_values(|c: char| char_lower(c).len() as usize)
}

/// `s` in lower case.
pub open spec fn lowered(s: Seq<char>) -> LoweredView {
    LoweredView { text: lowercase(s), widths: low_widths(s) }
}

/// The contents in lower case, with their widths.
pub open spec fn lowered_contents(es: Seq<FoundView>) -> Seq<Option<LoweredView>> {
    es.map_values(
        |e: FoundView|
            match e.content {
                Some(c) => Some(lowered(c)),
                None => None,
            },
    )
}

/// Which character of a text gave rise to character `k` of it in lower case,
/// where each character gave rise to as many as `widths` tells; the number of
/// characters where none did.
pub open spec fn source_char(widths: Seq<usize>, k: int) -> int
    decreases widths.len(),
{
    if widths.len() == 0 || k < widths[0] {
        0
    } else {
        1 + source_char(widths.skip(1), k - widths[0])
    }
}

fn source_of(widths: &Vec<usize>, k: usize) -> (r: usize)
    ensures
        r == source_char(widths@, k as int),
{
    let mut i: usize = 0;
    let mut left: usize = k;
    assert(widths@.skip(0) =~= widths@);
    while i < widths.len() && widths[i] <= left
        invariant
            i <= widths@.len(),
            source_char(widths@, k as int) == i + source_char(widths@.skip(i as int), left as int),
        decreases widths@.len() - i,
    {
        assert(widths@.skip(i as int).skip(1) =~= widths@.skip(i + 1));
        left = left - widths[i];
        i += 1;
    }
    i
}

fn widths_of(s: &str) -> (r: Vec<usize>)
    ensures
        r@ == low_widths(s@),
{
    let v = chars_of(s);
    let mut out: Vec<usize> = Vec::new();
    let mut i: usize = 0;
    while i < v.len()
        invariant
            i <= v@.len(),
            out@ == low_widths(v@).take(i as int),
        decreases v@.len() - i,
    {
        let n: usize = lower_of(v[i]).len();
        out.push(n);
        i += 1;
        assert(out@ =~= low_widths(v@).take(i as int));
    }
    assert(low_widths(v@).take(i as int) =~= low_widths(v@));
    out
}

fn lowered_of(es: &Vec<Entry>) -> (r: Vec<Option<Lowered>>)
    ensures
        r@.len() == es@.len(),
        opt_lowereds(r@) == lowered_contents(sort::views(es@)),
{
    let mut out: Vec<Option<Lowered>> = Vec::new();
    let mut i: usize = 0;
    while i < es.len()
        invariant
            i <= es@.len(),
            out@.len() == i,
            forall|j: int|
                0 <= j < i ==> opt_lowered(#[trigger] out@[j]) == lowered_contents(
                    sort::views(es@),
                )[j],
        decreases es@.len() - i,
    {
        assert(sort::views(es@)[i as int] == es@[i as int]@);
        let low = match &es[i].content {
            Some(c) => Some(
                Lowered { text: c.as_str().to_lowercase(), widths: widths_of(c.as_str()) },
            ),
            None => None,
        };
        out.push(low);
        i += 1;
    }
    assert(opt_lowereds(out@) =~= lowered_contents(sort::views(es@)));
    out
}

/// The character of `content` at which a match begins that, in lower case,
/// begins at character `k`.
pub open spec fn match_start(content: Seq<char>, widths: Seq<usize>, k: int) -> int {
    if source_char(widths, k) < content.len() {
        source_char(widths, k)
    } else {
        content.len() as int
    }
}

/// The snippet of a note with a content that, in lower case `low`, holds `q`:
/// what stands around the characters that gave rise to the first match.
pub open spec fn match_snippet(
    content: Seq<char>,
    low: LoweredView,
    q: Seq<char>,
    query_len: int,
) -> Option<Seq<char>> {
    match text::first_occurrence(low.text, q) {
        Some(k) => Some(
            snippet(
                content,
                bytes::byte_len(content, match_start(content, low.widths, k)) as int,
                query_len,
            ),
        ),
        None => None,
    }
}

/// The snippet of a note with a content that, in lower case `low`, holds `q`.
pub fn snippet_of(content: &str, low: &Lowered, q: &str, query_len: usize) -> (r: Option<String>)
    ensures
        text::opt_text(r) == match_snippet(content@, low@, q@, query_len as int),
{
    let v = chars_of(low.text.as_str());
    let p = chars_of(q);
    match find_chars(&v, &p) {
        Some(k) => {
            let written = chars_of(content);
            let m = source_of(&low.widths, k);
            let start: usize = if m < written.len() {
                m
            } else {
                written.len()
            };
            let idx = bytes_before(content, &written, start);
            Some(make_snippet(content, idx, query_len))
        },
        None => None,
    }
}

/// The hit of a note outside the trash, not too large, whose content holds `q`.
pub open spec fn content_hit(
    root: Seq<char>,
    e: FoundView,
    low: Option<LoweredView>,
    q: Seq<char>,
    query_len: int,
) -> Option<HitView> {
    match (place(root, e), e.content, low) {
        (Some(rel), Some(c), Some(l)) => if is_note_file(e) && !names_trash(e.path)
            && !e.too_large() {
            match match_snippet(c, l, q, query_len) {
                Some(s) => Some(HitView { path: rel, snippet: s }),
                None => None,
            }
        } else {
            None
        },
        _ => None,
    }
}

/// The hits by content among the first `n` entries.
pub open spec fn content_hits(
    root: Seq<char>,
    es: Seq<FoundView>,
    lows: Seq<Option<LoweredView>>,
    q: Seq<char>,
    query_len: int,
    n: int,
) -> Seq<HitView>
    decreases n,
{
    if n <= 0 {
        Seq::empty()
    } else {
        let before = content_hits(root, es, lows, q, query_len, n - 1);
        match content_hit(root, es[n - 1], lows[n - 1], q, query_len) {
            Some(h) => before.push(h),
            None => before,
        }
    }
}

/// The hit of a note outside the trash whose name, in lower case `low`, holds
/// `q`.
pub open spec fn name_hit(
    root: Seq<char>,
    e: FoundView,
    low: Seq<char>,
    q: Seq<char>,
) -> Option<HitView> {
    match place(root, e) {
        Some(rel) => if is_note_file(e) && !names_trash(e.path) && text::contains_text(low, q) {
            Some(
                HitView {
                    path: rel,
                    snippet: title(
                        match e.content {
                            Some(c) => c,
                            None => ""@,
                        },
                    ),
                },
            )
        } else {
            None
        },
        None => None,
    }
}

/// One of the hits has the path `p`.
pub open spec fn has_hit(hits: Seq<HitView>, p: Seq<char>) -> bool {
    exists|i: int| 0 <= i < hits.len() && (#[trigger] hits[i]).path == p
}

/// `hits`, and the hits by name among the first `n` entries whose paths are not
/// there yet.
pub open spec fn with_name_hits(
    hits: Seq<HitView>,
    root: Seq<char>,
    es: Seq<FoundView>,
    names: Seq<Seq<char>>,
    q: Seq<char>,
    n: int,
) -> Seq<HitView>
    decreases n,
{
    if n <= 0 {
        hits
    } else {
        let before = with_name_hits(hits, root, es, names, q, n - 1);
        match name_hit(root, es[n - 1], names[n - 1], q) {
            Some(h) => if has_hit(before, h.path) {
                before
            } else {
                before.push(h)
            },
            None => before,
        }
    }
}

/// All hits: those by content, and those by name alone.
pub open spec fn all_hits(
    root: Seq<char>,
    es: Seq<FoundView>,
    lows: Seq<Option<LoweredView>>,
    names: Seq<Seq<char>>,
    q: Seq<char>,
    query_len: int,
) -> Seq<HitView> {
    with_name_hits(
        content_hits(root, es, lows, q, query_len, es.len() as int),
        root,
        es,
        names,
        q,
        es.len() as int,
    )
}

/// Whether the path of `e` names the trash.
pub fn in_trash(e: &Entry) -> (r: bool)
    ensures
        r == names_trash(e@.path),
{
    has_text(e.path.as_str(), TRASH_DIR)
}

fn hit_by_content(root: &str, e: &Entry, low: &Option<Lowered>, q: &str, query_len: usize) -> (r:
    Option<SearchHit>)
    ensures
        match r {
            Some(h) => content_hit(
                root@,
                e@,
                opt_lowered(*low),
                q@,
                query_len as int,
            ) == Some(h@),
            None => content_hit(
                root@,
                e@,
                opt_lowered(*low),
                q@,
                query_len as int,
            ) is None,
        },
{
    if !is_note_entry(e) || in_trash(e) || e.too_large() {
        return None;
    }
    match (place_of(root, e), &e.content, low) {
        (Some(rel), Some(c), Some(l)) => match snippet_of(
            c.as_str(),
            l,
            q,
            query_len,
        ) {
            Some(s) => Some(SearchHit { path: rel, snippet: s }),
            None => None,
        },
        _ => None,
    }
}

fn hit_by_name(root: &str, e: &Entry, low: &str, q: &str) -> (r: Option<SearchHit>)
    ensures
        match r {
            Some(h) => name_hit(root@, e@, low@, q@) == Some(h@),
            None => name_hit(root@, e@, low@, q@) is None,
        },
{
    if !is_note_entry(e) || in_trash(e) || !has_text(low, q) {
        return None;
    }
    match place_of(root, e) {
        Some(rel) => {
            let snippet = match &e.content {
                Some(c) => title_of(c.as_str()),
                None => title_of(""),
            };
            Some(SearchHit { path: rel, snippet })
        },
        None => None,
    }
}

fn hit_known(hits: &Vec<SearchHit>, path: &str) -> (r: bool)
    ensures
        r == has_hit(sort::views(hits@), path@),
{
    let mut i: usize = 0;
    while i < hits.len()
        invariant
            i <= hits@.len(),
            forall|j: int| 0 <= j < i ==> (#[trigger] sort::views(hits@)[j]).path != path@,
        decreases hits@.len() - i,
    {
        assert(sort::views(hits@)[i as int] == hits@[i as int]@);
        if same_text(hits[i].path.as_str(), path) {
            return true;
        }
        i += 1;
    }
    false
}

/// The hits for `q` where the contents and names of the entries, in lower case,
/// are `lows` and `names`; in the order of their paths.
pub fn snippets_lowered(
    root: &str,
    es: &Vec<Entry>,
    lows: &Vec<Option<Lowered>>,
    names: &Vec<String>,
    q: &str,
    query_len: usize,
) -> (r: Vec<SearchHit>)
    requires
        lows@.len() == es@.len(),
        names@.len() == es@.len(),
    ensures
        sort::views(r@) == sort::ranked::<SearchHit>(
            all_hits(
                root@,
                sort::views(es@),
                opt_lowereds(lows@),
                sort::views(names@),
                q@,
                query_len as int,
            ),
        ),
{
    let ghost all = sort::views(es@);
    let mut hits: Vec<SearchHit> = Vec::new();
    let mut i: usize = 0;
    assert(sort::views(hits@) =~= Seq::empty());
    while i < es.len()
        invariant
            i <= es@.len(),
            lows@.len() == es@.len(),
            all == sort::views(es@),
            sort::views(hits@) == content_hits(
                root@,
                all,
                opt_lowereds(lows@),
                q@,
                query_len as int,
                i as int,
            ),
        decreases es@.len() - i,
    {
        assert(all[i as int] == es@[i as int]@);
        assert(opt_lowereds(lows@)[i as int] == opt_lowered(lows@[i as int]));
        match hit_by_content(root, &es[i], &lows[i], q, query_len) {
            Some(h) => {
                let ghost before = hits@;
                hits.push(h);
                assert(sort::views(hits@) =~= sort::views(before).push(h@));
            },
            None => {},
        }
        i += 1;
    }
    let ghost first = sort::views(hits@);
    i = 0;
    while i < es.len()
        invariant
            i <= es@.len(),
            names@.len() == es@.len(),
            all == sort::views(es@),
            sort::views(hits@) == with_name_hits(
                first,
                root@,
                all,
                sort::views(names@),
                q@,
                i as int,
            ),
        decreases es@.len() - i,
    {
        assert(all[i as int] == es@[i as int]@);
        assert(sort::views(names@)[i as int] == names@[i as int]@);
        match hit_by_name(root, &es[i], names[i].as_str(), q) {
            Some(h) => {
                if !hit_known(&hits, h.path.as_str()) {
                    let ghost before = hits@;
                    hits.push(h);
                    assert(sort::views(hits@) =~= sort::views(before).push(h@));
                }
            },
            None => {},
        }
        i += 1;
    }
    sort(hits)
}

/// The notes that hold `query` in any case, or whose names do, each with a
/// snippet; in the order of their paths. `listed` is what a walk through `root`
/// came upon, where that is a directory.
pub fn search_notes_snippet(root: &str, listed: Option<&Vec<Entry>>, query: &str) -> (r: Result<
    Vec<SearchHit>,
    String,
>)
    ensures
        match (listed, r) {
            (Some(es), Ok(hits)) => sort::views(hits@) == if low_query(query@).len() == 0 {
                Seq::empty()
            } else {
                sort::ranked::<SearchHit>(
                    all_hits(
                        root@,
                        sort::views(es@),
                        lowered_contents(sort::views(es@)),
                        low_names(sort::views(es@)),
                        low_query(query@),
                        query@.len() as int,
                    ),
                )
            },
            (None, Err(e)) => e@ == "Not a directory: "@ + root@,
            _ => false,
        },
        query@.len() == 0 ==> (r matches Ok(hits) ==> sort::views(hits@) == Seq::<
            HitView,
        >::empty()),
{
    match listed {
        Some(es) => {
            let q = lower_query(query);
            if q.as_str().is_empty() {
                let none: Vec<SearchHit> = Vec::new();
                assert(sort::views(none@) =~= Seq::empty());
                return Ok(none);
            }
            let lows = lowered_of(es);
            let names = lower_names(es);
            let n: usize = chars_of(query).len();
            Ok(snippets_lowered(root, es, &lows, &names, q.as_str(), n))
        },
        None => Err(join2("Not a directory: ", root)),
    }
}

} // verus!
