//! What holds of texts.

use crate::text;
use vstd::prelude::*;

verus! {

// ---------------------------------------------------------------------------
// Occurrences
// ---------------------------------------------------------------------------

/// What stands between two texts occurs in the whole, at its place.
pub proof fn what_stands_between_occurs(a: Seq<char>, p: Seq<char>, b: Seq<char>)
    ensures
        text::occurs_at(a + p + b, p, a.len() as int),
        text::contains_text(a + p + b, p),
{
    let s = a + p + b;
    assert(s.subrange(a.len() as int, (a.len() + p.len()) as int) =~= p);
    assert(text::occurs_at(s, p, a.len() as int));
}

/// A text in which another occurs is made up of what stands before it, of the
/// other, and of what stands behind it.
pub proof fn an_occurrence_divides_the_text(s: Seq<char>, p: Seq<char>, i: int)
    requires
        text::occurs_at(s, p, i),
    ensures
        0 <= i <= s.len() - p.len(),
        s == s.take(i) + p + s.skip(i + p.len()),
{
    let t = s.take(i) + p + s.skip(i + p.len());
    assert forall|k: int| 0 <= k < s.len() implies s[k] == t[k] by {
        if i <= k < i + p.len() {
            assert(s.subrange(i, i + p.len())[k - i] == s[k]);
        }
    }
    assert(s =~= t);
}

/// A text occurs in another exactly where the other can be made up around it.
pub proof fn to_occur_is_to_stand_between(s: Seq<char>, p: Seq<char>)
    ensures
        text::contains_text(s, p) <==> exists|a: Seq<char>, b: Seq<char>| #[trigger] (a + p + b) == s,
{
    if text::contains_text(s, p) {
        let i = choose|i: int| text::occurs_at(s, p, i);
        an_occurrence_divides_the_text(s, p, i);
    }
    if exists|a: Seq<char>, b: Seq<char>| #[trigger] (a + p + b) == s {
        let (a, b) = choose|a: Seq<char>, b: Seq<char>| #[trigger] (a + p + b) == s;
        what_stands_between_occurs(a, p, b);
    }
}

/// A text ends in another exactly where it is made up of something and the
/// other.
pub proof fn the_end_is_what_comes_last(s: Seq<char>, p: Seq<char>)
    ensures
        text::ends_in(s, p) <==> exists|a: Seq<char>| #[trigger] (a + p) == s,
{
    if text::ends_in(s, p) {
        let i = s.len() - p.len();
        an_occurrence_divides_the_text(s, p, i);
        assert(s.take(i) + p =~= s);
    }
    if exists|a: Seq<char>| #[trigger] (a + p) == s {
        let a = choose|a: Seq<char>| #[trigger] (a + p) == s;
        assert(s.subrange(a.len() as int, s.len() as int) =~= p);
    }
}

/// A text begins with another exactly where it is made up of the other and
/// something.
pub proof fn the_beginning_is_what_comes_first(s: Seq<char>, p: Seq<char>)
    ensures
        text::begins_with(s, p) <==> exists|b: Seq<char>| #[trigger] (p + b) == s,
{
    if text::begins_with(s, p) {
        an_occurrence_divides_the_text(s, p, 0);
        assert(p + s.skip(p.len() as int) =~= s);
    }
    if exists|b: Seq<char>| #[trigger] (p + b) == s {
        let b = choose|b: Seq<char>| #[trigger] (p + b) == s;
        assert(s.subrange(0, p.len() as int) =~= p);
    }
}

// ---------------------------------------------------------------------------
// White space
// ---------------------------------------------------------------------------

/// All of it is white space.
pub open spec fn is_blank(s: Seq<char>) -> bool {
    forall|i: int| 0 <= i < s.len() ==> text::is_space(#[trigger] s[i])
}

/// Tabs, line breaks and the space are white space, and no other ASCII
/// character; beyond ASCII these are.
pub proof fn white_space_is(c: char)
    ensures
        (c as u32) < 0x80 ==> (text::is_space(c) <==> c == '\t' || c == '\n' || c == '\u{b}' || c
            == '\u{c}' || c == '\r' || c == ' '),
        (c as u32) >= 0x80 ==> (text::is_space(c) <==> c == '\u{85}' || c == '\u{a0}' || c
            == '\u{1680}' || ('\u{2000}' as u32 <= c as u32 <= '\u{200a}' as u32) || c == '\u{2028}'
            || c == '\u{2029}' || c == '\u{202f}' || c == '\u{205f}' || c == '\u{3000}'),
{
}

proof fn lemma_blank_skip(s: Seq<char>)
    requires
        is_blank(s),
        s.len() > 0,
    ensures
        is_blank(s.skip(1)),
        is_blank(s.drop_last()),
{
    assert forall|i: int| 0 <= i < s.skip(1).len() implies text::is_space(
        #[trigger] s.skip(1)[i],
    ) by {
        assert(s.skip(1)[i] == s[i + 1]);
    }
    assert forall|i: int| 0 <= i < s.drop_last().len() implies text::is_space(
        #[trigger] s.drop_last()[i],
    ) by {
        assert(s.drop_last()[i] == s[i]);
    }
}

proof fn lemma_trim_start(a: Seq<char>, m: Seq<char>)
    requires
        is_blank(a),
        m.len() == 0 || !text::is_space(m[0]),
    ensures
        text::trim_start(a + m) == m,
    decreases a.len(),
{
    if a.len() == 0 {
        assert(a + m =~= m);
    } else {
        lemma_blank_skip(a);
        lemma_trim_start(a.skip(1), m);
        assert(text::is_space(a[0]));
        assert((a + m)[0] == a[0]);
        assert((a + m).skip(1) =~= a.skip(1) + m);
    }
}

proof fn lemma_trim_end(m: Seq<char>, b: Seq<char>)
    requires
        is_blank(b),
        m.len() == 0 || !text::is_space(m.last()),
    ensures
        text::trim_end(m + b) == m,
    decreases b.len(),
{
    if b.len() == 0 {
        assert(m + b =~= m);
    } else {
        lemma_blank_skip(b);
        lemma_trim_end(m, b.drop_last());
        assert(text::is_space(b[b.len() - 1]));
        assert((m + b).last() == b.last());
        assert((m + b).drop_last() =~= m + b.drop_last());
    }
}

/// Trimming takes off the white space around a text, all of it, and nothing
/// else.
pub proof fn trimming_takes_off_what_is_blank(a: Seq<char>, m: Seq<char>, b: Seq<char>)
    requires
        is_blank(a),
        is_blank(b),
        m.len() > 0,
        !text::is_space(m[0]),
        !text::is_space(m.last()),
    ensures
        text::trimmed(a + m + b) == m,
{
    assert(a + m + b =~= a + (m + b));
    assert((m + b)[0] == m[0]);
    lemma_trim_start(a, m + b);
    lemma_trim_end(m, b);
}

/// Nothing is left of what is blank.
pub proof fn nothing_is_left_of_what_is_blank(a: Seq<char>)
    requires
        is_blank(a),
    ensures
        text::trimmed(a).len() == 0,
{
    lemma_trim_start(a, Seq::empty());
    assert(a + Seq::<char>::empty() =~= a);
    assert(text::trim_end(Seq::<char>::empty()) =~= Seq::empty());
}

/// What is not blank is some text within blank ends.
pub proof fn what_is_not_blank_is_trimmed(s: Seq<char>) -> (r: (int, int))
    requires
        !is_blank(s),
    ensures
        0 <= r.0 < r.1 <= s.len(),
        is_blank(s.take(r.0)),
        is_blank(s.skip(r.1)),
        !text::is_space(s[r.0]),
        !text::is_space(s[r.1 - 1]),
        text::trimmed(s) == s.subrange(r.0, r.1),
{
    let k = choose|k: int| 0 <= k < s.len() && !text::is_space(#[trigger] s[k]);
    let a = lemma_first_full(s, k);
    let b = lemma_last_full(s, k);
    let m = s.subrange(a, b);
    assert(m[0] == s[a]);
    assert(m.last() == s[b - 1]);
    assert(s =~= s.take(a) + m + s.skip(b));
    trimming_takes_off_what_is_blank(s.take(a), m, s.skip(b));
    (a, b)
}

proof fn lemma_first_full(s: Seq<char>, k: int) -> (a: int)
    requires
        0 <= k < s.len(),
        !text::is_space(s[k]),
    ensures
        0 <= a <= k,
        !text::is_space(s[a]),
        is_blank(s.take(a)),
    decreases k,
{
    if is_blank(s.take(k)) {
        k
    } else {
        let j = choose|j: int| 0 <= j < s.take(k).len() && !text::is_space(#[trigger] s.take(k)[j]);
        assert(s.take(k)[j] == s[j]);
        lemma_first_full(s, j)
    }
}

proof fn lemma_last_full(s: Seq<char>, k: int) -> (b: int)
    requires
        0 <= k < s.len(),
        !text::is_space(s[k]),
    ensures
        k < b <= s.len(),
        !text::is_space(s[b - 1]),
        is_blank(s.skip(b)),
    decreases s.len() - k,
{
    if is_blank(s.skip(k + 1)) {
        k + 1
    } else {
        let t = s.skip(k + 1);
        let j = choose|j: int| 0 <= j < t.len() && !text::is_space(#[trigger] t[j]);
        assert(t[j] == s[k + 1 + j]);
        lemma_last_full(s, k + 1 + j)
    }
}

// ---------------------------------------------------------------------------
// Replacing
// ---------------------------------------------------------------------------

/// The first occurrence is replaced, what stands before it stays, and what
/// stands behind it is dealt with in the same way.
pub proof fn the_first_occurrence_is_replaced(
    a: Seq<char>,
    pat: Seq<char>,
    b: Seq<char>,
    rep: Seq<char>,
)
    requires
        pat.len() > 0,
        forall|i: int| 0 <= i < a.len() ==> !#[trigger] text::occurs_at(a + pat + b, pat, i),
    ensures
        text::replaced(a + pat + b, pat, rep) == a + rep + text::replaced(b, pat, rep),
    decreases a.len(),
{
    let s = a + pat + b;
    if a.len() == 0 {
        what_stands_between_occurs(a, pat, b);
        assert(s.skip(pat.len() as int) =~= b);
        assert(a + rep + text::replaced(b, pat, rep) =~= rep + text::replaced(b, pat, rep));
    } else {
        let t = a.skip(1);
        let u = t + pat + b;
        assert(s.skip(1) =~= u);
        assert(!text::occurs_at(s, pat, 0));
        assert forall|i: int| 0 <= i < t.len() implies !#[trigger] text::occurs_at(u, pat, i) by {
            if text::occurs_at(u, pat, i) {
                assert(s.subrange(i + 1, i + 1 + pat.len()) =~= u.subrange(i, i + pat.len()));
                assert(text::occurs_at(s, pat, i + 1));
            }
        }
        the_first_occurrence_is_replaced(t, pat, b, rep);
        assert(seq![s[0]] + (t + rep + text::replaced(b, pat, rep)) =~= a + rep + text::replaced(
            b,
            pat,
            rep,
        ));
    }
}

// ---------------------------------------------------------------------------
// Order
// ---------------------------------------------------------------------------

/// Two texts are ordered by the first character in which they differ.
pub proof fn the_first_difference_decides(
    front: Seq<char>,
    x: char,
    a: Seq<char>,
    y: char,
    b: Seq<char>,
)
    requires
        (x as u32) < (y as u32),
    ensures
        text::text_le(front.push(x) + a, front.push(y) + b),
        text::text_lt(front.push(x) + a, front.push(y) + b),
    decreases front.len(),
{
    let s = front.push(x) + a;
    let t = front.push(y) + b;
    if front.len() > 0 {
        let rest = front.skip(1);
        the_first_difference_decides(rest, x, a, y, b);
        assert(s.skip(1) =~= rest.push(x) + a);
        assert(t.skip(1) =~= rest.push(y) + b);
        assert(s[0] == front[0] && t[0] == front[0]);
    } else {
        assert(s[0] == x && t[0] == y);
    }
}

/// A text comes before every longer one that begins with it.
pub proof fn what_is_begun_comes_later(s: Seq<char>, more: Seq<char>)
    requires
        more.len() > 0,
    ensures
        text::text_le(s, s + more),
        text::text_lt(s, s + more),
    decreases s.len(),
{
    let t = s + more;
    if s.len() > 0 {
        what_is_begun_comes_later(s.skip(1), more);
        assert(t.skip(1) =~= s.skip(1) + more);
        assert(t[0] == s[0]);
    }
}

// ---------------------------------------------------------------------------
// Numerals
// ---------------------------------------------------------------------------

/// The number that a row of digits stands for.
pub open spec fn value(s: Seq<char>) -> int
    decreases s.len(),
{
    if s.len() == 0 {
        0
    } else {
        10 * value(s.drop_last()) + (s.last() as int - '0' as int)
    }
}

/// A numeral stands for its number, in digits, and begins with no zero unless it
/// is one.
pub proof fn a_numeral_stands_for_its_number(n: nat)
    ensures
        value(text::decimal(n)) == n,
        text::decimal(n).len() > 0,
        forall|i: int|
            0 <= i < text::decimal(n).len() ==> '0' as int <= #[trigger] text::decimal(n)[i] as int
                <= '9' as int,
        n > 0 ==> text::decimal(n)[0] != '0',
    decreases n,
{
    let s = text::decimal(n);
    text::decimal_is_not_empty(n);
    assert forall|i: int| 0 <= i < s.len() implies '0' as int <= #[trigger] s[i] as int
        <= '9' as int by {
        text::decimal_has_digits(n, i);
    }
    if n >= 10 {
        a_numeral_stands_for_its_number(n / 10);
        assert(s.drop_last() =~= text::decimal(n / 10));
        assert(s[0] == text::decimal(n / 10)[0]);
    } else {
        assert(s.drop_last() =~= Seq::empty());
        assert(value(s.drop_last()) == 0);
    }
}

} // verus!
