//! Paths as texts whose pieces are separated by `/`.
//!
//! Empty pieces and pieces `.` carry no meaning, except for the `/` that an
//! absolute path begins with and a `.` at the very start.

use crate::text::{chars_of, text_range};
use vstd::prelude::*;

verus! {

/// How much of `p` comes before its pieces: the `/` of an absolute path, or
/// the `.` of a path that starts at the current directory.
pub open spec fn head_len(p: Seq<char>) -> int {
    if p.len() > 0 && p[0] == '/' {
        1
    } else if p.len() > 0 && p[0] == '.' && (p.len() == 1 || p[1] == '/') {
        1
    } else {
        0
    }
}

/// Where the last piece of `p` begins, behind its first `head` characters.
pub open spec fn last_start(p: Seq<char>, head: int) -> int
    decreases p.len(),
{
    if p.len() <= head || p.len() == 0 {
        head
    } else if p.last() == '/' {
        p.len() as int
    } else {
        last_start(p.drop_last(), head)
    }
}

/// `p` without its last piece and the `/` before it.
pub open spec fn cut_last(p: Seq<char>, head: int) -> Seq<char> {
    let st = last_start(p, head);
    if st > head {
        p.take(st - 1)
    } else {
        p.take(head)
    }
}

/// The last piece of `p`.
pub open spec fn last_piece(p: Seq<char>, head: int) -> Seq<char> {
    p.skip(last_start(p, head))
}

/// A piece that carries no meaning.
pub open spec fn is_idle(piece: Seq<char>) -> bool {
    piece.len() == 0 || piece == seq!['.']
}

/// `p` without the idle pieces it ends in.
pub open spec fn settled(p: Seq<char>, head: int) -> Seq<char>
    decreases p.len(),
{
    if p.len() <= head || head < 0 {
        p
    } else if is_idle(last_piece(p, head)) && cut_last(p, head).len() < p.len() {
        settled(cut_last(p, head), head)
    } else {
        p
    }
}

/// The directory that `p` lies in: `p` without its last piece. The root and
/// the empty path lie in none.
pub open spec fn parent_of(p: Seq<char>) -> Option<Seq<char>> {
    let h = head_len(p);
    let q = settled(p, h);
    if q.len() > h {
        Some(settled(cut_last(q, h), h))
    } else if h == 1 && p[0] == '.' {
        Some(Seq::empty())
    } else {
        None
    }
}

/// The last piece of `p`, unless that leads upwards.
pub open spec fn file_name_of(p: Seq<char>) -> Option<Seq<char>> {
    let h = head_len(p);
    let q = settled(p, h);
    if q.len() > h && last_piece(q, h) != seq!['.', '.'] {
        Some(last_piece(q, h))
    } else {
        None
    }
}

/// `b` seen from the directory `a`.
pub open spec fn joined(a: Seq<char>, b: Seq<char>) -> Seq<char> {
    if b.len() > 0 && b[0] == '/' {
        b
    } else if a.len() > 0 && a.last() != '/' {
        a.push('/') + b
    } else {
        a + b
    }
}

/// Where the last `.` of `name` stands, if one does.
pub open spec fn last_dot(name: Seq<char>) -> Option<int>
    decreases name.len(),
{
    if name.len() == 0 {
        None
    } else if name.last() == '.' {
        Some(name.len() - 1)
    } else {
        last_dot(name.drop_last())
    }
}

/// A file name without its extension. A `.` at the start begins no extension.
pub open spec fn stem_of(name: Seq<char>) -> Seq<char> {
    match last_dot(name) {
        Some(k) => if k > 0 && name != seq!['.', '.'] {
            name.take(k)
        } else {
            name
        },
        None => name,
    }
}

proof fn lemma_last_start(p: Seq<char>, head: int)
    requires
        0 <= head <= p.len(),
    ensures
        head <= last_start(p, head) <= p.len(),
    decreases p.len(),
{
    if p.len() > head && p.last() != '/' {
        lemma_last_start(p.drop_last(), head);
    }
}

proof fn lemma_settled(p: Seq<char>, head: int)
    requires
        0 <= head <= p.len(),
    ensures
        head <= settled(p, head).len() <= p.len(),
        settled(p, head) == p.take(settled(p, head).len() as int),
    decreases p.len(),
{
    assert(p.take(p.len() as int) =~= p);
    if p.len() > head {
        lemma_last_start(p, head);
        let c = cut_last(p, head);
        if is_idle(last_piece(p, head)) && c.len() < p.len() {
            lemma_settled(c, head);
            assert(c.take(settled(c, head).len() as int) =~= p.take(settled(c, head).len() as int));
        }
    }
}

/// The directory that a path lies in is a shorter path, and the path begins
/// with it.
pub proof fn parent_comes_first(p: Seq<char>)
    ensures
        parent_of(p) matches Some(d) ==> d.len() < p.len() && d == p.take(d.len() as int),
{
    let h = head_len(p);
    let q = settled(p, h);
    lemma_settled(p, h);
    if q.len() > h {
        lemma_last_start(q, h);
        let c = cut_last(q, h);
        lemma_settled(c, h);
        assert(c.take(settled(c, h).len() as int) =~= p.take(settled(c, h).len() as int));
    } else if h == 1 && p[0] == '.' {
        assert(p.take(0) =~= Seq::empty());
    }
}

/// A plain name: not empty, without a `/`, and not `.`.
pub open spec fn is_name(n: Seq<char>) -> bool {
    !is_idle(n) && !n.contains('/')
}

proof fn lemma_last_piece(p: Seq<char>, head: int)
    requires
        0 <= head <= p.len(),
    ensures
        !last_piece(p, head).contains('/'),
    decreases p.len(),
{
    lemma_last_start(p, head);
    let st = last_start(p, head);
    if p.len() > head && p.last() != '/' {
        let q = p.drop_last();
        lemma_last_start(q, head);
        lemma_last_piece(q, head);
        assert(last_piece(p, head) =~= last_piece(q, head).push(p.last()));
        assert forall|k: int| 0 <= k < last_piece(p, head).len() implies last_piece(p, head)[k]
            != '/' by {
            if k < last_piece(q, head).len() {
                assert(last_piece(q, head).contains(last_piece(q, head)[k]));
            }
        }
    }
}

proof fn lemma_settled_piece(p: Seq<char>, head: int)
    requires
        0 <= head <= p.len(),
    ensures
        settled(p, head).len() > head ==> !is_idle(last_piece(settled(p, head), head)),
    decreases p.len(),
{
    if p.len() > head {
        lemma_last_start(p, head);
        if is_idle(last_piece(p, head)) && cut_last(p, head).len() < p.len() {
            lemma_settled_piece(cut_last(p, head), head);
        }
    }
}

/// The name of a file is a plain name.
pub proof fn file_names_are_names(p: Seq<char>)
    ensures
        file_name_of(p) matches Some(n) ==> is_name(n),
{
    let h = head_len(p);
    lemma_settled(p, h);
    lemma_settled_piece(p, h);
    lemma_last_piece(settled(p, h), h);
}

proof fn lemma_last_start_of_name(p: Seq<char>, n: Seq<char>, head: int)
    requires
        0 <= head <= p.len(),
        !n.contains('/'),
    ensures
        last_start(p + n, head) == last_start(p, head) || p.len() == head,
        p.len() == head ==> last_start(p + n, head) == head,
        p.len() > head && p.last() == '/' ==> last_start(p + n, head) == p.len(),
    decreases n.len(),
{
    if n.len() == 0 {
        assert(p + n =~= p);
    } else {
        let t = n.drop_last();
        assert forall|c: char| t.contains(c) implies n.contains(c) by {
            let k = choose|k: int| 0 <= k < t.len() && t[k] == c;
            assert(n[k] == c);
        }
        assert((p + n).last() == n.last());
        assert(n.contains(n.last()));
        assert((p + n).drop_last() =~= p + t);
        lemma_last_start_of_name(p, t, head);
    }
}

/// A plain name, seen from a directory, is a path that lies in this directory
/// and has this name.
pub proof fn names_stay_in_their_directory(dir: Seq<char>, n: Seq<char>)
    requires
        is_name(n),
    ensures
        parent_of(joined(dir, n)) == Some(settled(dir, head_len(dir))),
        n != seq!['.', '.'] ==> file_name_of(joined(dir, n)) == Some(n),
        settled(joined(dir, n), head_len(joined(dir, n))) == joined(dir, n),
{
    let h = head_len(dir);
    assert(n.contains(n[0]));
    let front = if dir.len() > 0 && dir.last() != '/' {
        dir.push('/')
    } else {
        dir
    };
    let p = joined(dir, n);
    assert(p =~= front + n);
    if n.len() == 1 {
        assert(n =~= seq![n[0]]);
    }
    assert(head_len(p) == h) by {
        if dir.len() == 0 {
            if n.len() > 1 {
                assert(n.contains(n[1]));
            }
        }
    }
    lemma_last_start_of_name(front, n, h);
    let st = last_start(p, h);
    assert(st == front.len());
    assert(last_piece(p, h) =~= n);
    assert(settled(p, h) == p);
    if front.len() > h {
        let c = cut_last(p, h);
        assert(c =~= front.drop_last());
        if dir.len() > 0 && dir.last() != '/' {
            assert(c =~= dir);
        } else {
            // The directory ends in a slash, which carries no meaning.
            assert(last_start(dir, h) == dir.len());
            assert(last_piece(dir, h) =~= Seq::empty());
            assert(cut_last(dir, h) =~= c);
        }
    } else {
        assert(cut_last(p, h) =~= dir);
    }
}

fn head(v: &Vec<char>) -> (r: usize)
    ensures
        r == head_len(v@),
        r <= v@.len(),
{
    if v.len() > 0 && v[0] == '/' {
        1
    } else if v.len() > 0 && v[0] == '.' && (v.len() == 1 || v[1] == '/') {
        1
    } else {
        0
    }
}

fn start_of_last(v: &Vec<char>, n: usize, head: usize) -> (r: usize)
    requires
        head <= n <= v@.len(),
    ensures
        r == last_start(v@.take(n as int), head as int),
        head <= r <= n,
{
    let mut k: usize = n;
    while k > head && v[k - 1] != '/'
        invariant
            head <= k <= n <= v@.len(),
            last_start(v@.take(n as int), head as int) == last_start(v@.take(k as int), head as int),
        decreases k,
    {
        assert(v@.take(k as int).drop_last() =~= v@.take(k - 1));
        k -= 1;
    }
    k
}

/// The length of `settled(v[..n], head)`, which is a prefix of `v`.
fn settle(v: &Vec<char>, n: usize, head: usize) -> (r: usize)
    requires
        head <= n <= v@.len(),
    ensures
        head <= r <= n,
        v@.take(r as int) == settled(v@.take(n as int), head as int),
{
    let mut k: usize = n;
    while k > head
        invariant
            head <= k <= n <= v@.len(),
            settled(v@.take(n as int), head as int) == settled(v@.take(k as int), head as int),
        decreases k,
    {
        let st = start_of_last(v, k, head);
        let ghost q = v@.take(k as int);
        assert(q.skip(st as int) =~= v@.subrange(st as int, k as int));
        let idle = st == k || (st + 1 == k && v[st] == '.');
        proof {
            if st + 1 == k && v@[st as int] == '.' {
                assert(q.skip(st as int) =~= seq!['.']);
            } else if st < k {
                assert(q.skip(st as int).len() == k - st);
                if q.skip(st as int) == seq!['.'] {
                    assert(q.skip(st as int)[0] == '.');
                }
            }
        }
        if !idle {
            return k;
        }
        assert(cut_last(q, head as int) =~= v@.take(if st > head { st - 1 } else { head as int }));
        if st > head {
            k = st - 1;
        } else {
            k = head;
        }
    }
    k
}

/// The directory that `p` lies in.
pub fn parent(p: &str) -> (r: Option<String>)
    ensures
        match r {
            Some(d) => parent_of(p@) == Some(d@),
            None => parent_of(p@) is None,
        },
{
    let v = chars_of(p);
    let h = head(&v);
    assert(v@.take(v@.len() as int) =~= v@);
    let n = settle(&v, v.len(), h);
    if n > h {
        let st = start_of_last(&v, n, h);
        let m = if st > h {
            st - 1
        } else {
            h
        };
        assert(cut_last(v@.take(n as int), h as int) =~= v@.take(m as int));
        let k = settle(&v, m, h);
        assert(v@.subrange(0, k as int) =~= v@.take(k as int));
        Some(text_range(&v, 0, k))
    } else if h == 1 && v[0] == '.' {
        let r = String::new();
        Some(r)
    } else {
        None
    }
}

/// The last piece of `p`, unless that leads upwards.
pub fn file_name(p: &str) -> (r: Option<String>)
    ensures
        match r {
            Some(d) => file_name_of(p@) == Some(d@),
            None => file_name_of(p@) is None,
        },
{
    let v = chars_of(p);
    let h = head(&v);
    assert(v@.take(v@.len() as int) =~= v@);
    let n = settle(&v, v.len(), h);
    if n > h {
        let st = start_of_last(&v, n, h);
        let ghost piece = last_piece(v@.take(n as int), h as int);
        assert(piece =~= v@.subrange(st as int, n as int));
        if n - st == 2 && v[st] == '.' && v[st + 1] == '.' {
            assert(piece =~= seq!['.', '.']);
            return None;
        }
        proof {
            if piece == seq!['.', '.'] {
                assert(piece[0] == '.' && piece[1] == '.');
            }
        }
        Some(text_range(&v, st, n))
    } else {
        None
    }
}

/// `b` seen from the directory `a`.
pub fn join(a: &str, b: &str) -> (r: String)
    ensures
        r@ == joined(a@, b@),
{
    let va = chars_of(a);
    let vb = chars_of(b);
    if vb.len() > 0 && vb[0] == '/' {
        return b.to_owned();
    }
    let mut s = a.to_owned();
    if va.len() > 0 && va[va.len() - 1] != '/' {
        s.push('/');
    }
    s.append(b);
    s
}

/// A file name without its extension.
pub fn stem(name: &str) -> (r: String)
    ensures
        r@ == stem_of(name@),
{
    let v = chars_of(name);
    let mut k: usize = v.len();
    assert(v@.take(k as int) =~= v@);
    while k > 0 && v[k - 1] != '.'
        invariant
            k <= v@.len(),
            last_dot(v@) == last_dot(v@.take(k as int)),
        decreases k,
    {
        assert(v@.take(k as int).drop_last() =~= v@.take(k - 1));
        k -= 1;
    }
    if k <= 1 {
        return name.to_owned();
    }
    if v.len() == 2 && v[0] == '.' {
        if v[1] == '.' {
            assert(v@ =~= seq!['.', '.']);
            return name.to_owned();
        }
    }
    proof {
        if v@ == seq!['.', '.'] {
            assert(v@[0] == '.' && v@[1] == '.');
        }
    }
    assert(v@.subrange(0, k - 1) =~= v@.take(k - 1));
    text_range(&v, 0, k - 1)
}

// ---------------------------------------------------------------------------
// Paths below a directory
// ---------------------------------------------------------------------------

/// `s` without the idle pieces it begins with.
pub open spec fn skip_idle(s: Seq<char>) -> Seq<char>
    decreases s.len(),
{
    if s.len() > 0 && s[0] == '/' {
        skip_idle(s.skip(1))
    } else if s.len() > 0 && s[0] == '.' && (s.len() == 1 || s[1] == '/') {
        skip_idle(s.skip(1))
    } else {
        s
    }
}

/// The length of the first piece of `s`.
pub open spec fn first_len(s: Seq<char>) -> int
    decreases s.len(),
{
    if s.len() == 0 || s[0] == '/' {
        0
    } else {
        1 + first_len(s.skip(1))
    }
}

/// What is left of `x` once the pieces of `y` are taken from its front.
pub open spec fn strip_pieces(x: Seq<char>, y: Seq<char>) -> Option<Seq<char>>
    decreases y.len(),
    via strip_pieces_shrinks
{
    let x1 = skip_idle(x);
    let y1 = skip_idle(y);
    let n = first_len(x1);
    let m = first_len(y1);
    if y1.len() == 0 {
        Some(settled(x1, 0))
    } else if x1.len() > 0 && x1.take(n) == y1.take(m) {
        strip_pieces(x1.skip(n), y1.skip(m))
    } else {
        None
    }
}

#[via_fn]
proof fn strip_pieces_shrinks(x: Seq<char>, y: Seq<char>) {
    lemma_skip_idle(y);
    lemma_first_len(skip_idle(y));
}

/// `p` as it is seen from the directory `base`, where it lies below that.
pub open spec fn below(p: Seq<char>, base: Seq<char>) -> Option<Seq<char>> {
    if base.len() == 0 {
        Some(settled(p, head_len(p)))
    } else if head_len(p) != head_len(base) {
        None
    } else if head_len(base) == 1 {
        if p[0] == base[0] {
            strip_pieces(p.skip(1), base.skip(1))
        } else {
            None
        }
    } else {
        strip_pieces(p, base)
    }
}

proof fn lemma_skip_idle(s: Seq<char>)
    ensures
        skip_idle(s).len() <= s.len(),
        skip_idle(s).len() > 0 ==> skip_idle(s)[0] != '/',
        skip_idle(s) == s.skip(s.len() - skip_idle(s).len()),
    decreases s.len(),
{
    if s.len() > 0 && (s[0] == '/' || (s[0] == '.' && (s.len() == 1 || s[1] == '/'))) {
        let t = s.skip(1);
        lemma_skip_idle(t);
        assert(t.skip(t.len() - skip_idle(t).len()) =~= s.skip(s.len() - skip_idle(t).len()));
    } else {
        assert(s.skip(0) =~= s);
    }
}

proof fn lemma_first_len(s: Seq<char>)
    ensures
        0 <= first_len(s) <= s.len(),
        s.len() > 0 && s[0] != '/' ==> first_len(s) > 0,
    decreases s.len(),
{
    if s.len() > 0 && s[0] != '/' {
        lemma_first_len(s.skip(1));
    }
}

fn past_idle(v: &Vec<char>, from: usize) -> (r: usize)
    requires
        from <= v@.len(),
    ensures
        from <= r <= v@.len(),
        v@.skip(r as int) == skip_idle(v@.skip(from as int)),
        r < v@.len() ==> v@[r as int] != '/',
{
    let mut k: usize = from;
    while k < v.len() && (v[k] == '/' || (v[k] == '.' && (k + 1 == v.len() || v[k + 1] == '/')))
        invariant
            from <= k <= v@.len(),
            skip_idle(v@.skip(from as int)) == skip_idle(v@.skip(k as int)),
        decreases v@.len() - k,
    {
        assert(v@.skip(k as int).skip(1) =~= v@.skip(k + 1));
        k += 1;
    }
    k
}

fn past_piece(v: &Vec<char>, from: usize) -> (r: usize)
    requires
        from <= v@.len(),
    ensures
        from <= r <= v@.len(),
        r - from == first_len(v@.skip(from as int)),
{
    let mut k: usize = from;
    while k < v.len() && v[k] != '/'
        invariant
            from <= k <= v@.len(),
            first_len(v@.skip(from as int)) == k - from + first_len(v@.skip(k as int)),
        decreases v@.len() - k,
    {
        assert(v@.skip(k as int).skip(1) =~= v@.skip(k + 1));
        k += 1;
    }
    k
}

fn same_range(a: &Vec<char>, i: usize, j: usize, b: &Vec<char>, k: usize, l: usize) -> (r: bool)
    requires
        i <= j <= a@.len(),
        k <= l <= b@.len(),
    ensures
        r == (a@.subrange(i as int, j as int) == b@.subrange(k as int, l as int)),
{
    let ghost x = a@.subrange(i as int, j as int);
    let ghost y = b@.subrange(k as int, l as int);
    if j - i != l - k {
        assert(x.len() != y.len());
        return false;
    }
    let mut d: usize = 0;
    while d < j - i
        invariant
            i <= j <= a.len(),
            k <= l <= b.len(),
            j - i == l - k,
            d <= j - i,
            x == a@.subrange(i as int, j as int),
            y == b@.subrange(k as int, l as int),
            forall|e: int| 0 <= e < d ==> x[e] == y[e],
        decreases j - i - d,
    {
        if a[i + d] != b[k + d] {
            assert(x[d as int] != y[d as int]);
            return false;
        }
        d += 1;
    }
    assert(x =~= y);
    true
}

fn strip_from(v: &Vec<char>, i: usize, w: &Vec<char>, j: usize) -> (r: Option<String>)
    requires
        i <= v@.len(),
        j <= w@.len(),
    ensures
        match r {
            Some(d) => strip_pieces(v@.skip(i as int), w@.skip(j as int)) == Some(d@),
            None => strip_pieces(v@.skip(i as int), w@.skip(j as int)) is None,
        },
{
    let mut a: usize = i;
    let mut b: usize = j;
    loop
        invariant
            a <= v@.len(),
            b <= w@.len(),
            strip_pieces(v@.skip(i as int), w@.skip(j as int)) == strip_pieces(
                v@.skip(a as int),
                w@.skip(b as int),
            ),
        decreases w@.len() - b,
    {
        let a1 = past_idle(v, a);
        let b1 = past_idle(w, b);
        if b1 == w.len() {
            let mut rest: Vec<char> = Vec::new();
            let mut k: usize = a1;
            while k < v.len()
                invariant
                    a1 <= k <= v@.len(),
                    rest@ == v@.subrange(a1 as int, k as int),
                decreases v@.len() - k,
            {
                rest.push(v[k]);
                assert(rest@ =~= v@.subrange(a1 as int, k + 1));
                k += 1;
            }
            assert(rest@ =~= v@.skip(a1 as int));
            assert(rest@.take(rest@.len() as int) =~= rest@);
            let n = settle(&rest, rest.len(), 0);
            assert(rest@.subrange(0, n as int) =~= rest@.take(n as int));
            return Some(text_range(&rest, 0, n));
        }
        let a2 = past_piece(v, a1);
        let b2 = past_piece(w, b1);
        let ghost x1 = v@.skip(a1 as int);
        let ghost y1 = w@.skip(b1 as int);
        proof {
            lemma_first_len(y1);
            assert(x1.take(a2 - a1) =~= v@.subrange(a1 as int, a2 as int));
            assert(y1.take(b2 - b1) =~= w@.subrange(b1 as int, b2 as int));
            assert(x1.skip(a2 - a1) =~= v@.skip(a2 as int));
            assert(y1.skip(b2 - b1) =~= w@.skip(b2 as int));
        }
        if a1 == v.len() || !same_range(v, a1, a2, w, b1, b2) {
            return None;
        }
        a = a2;
        b = b2;
    }
}

/// `p` as it is seen from the directory `base`, where it lies below that.
pub fn strip_prefix(p: &str, base: &str) -> (r: Option<String>)
    ensures
        match r {
            Some(d) => below(p@, base@) == Some(d@),
            None => below(p@, base@) is None,
        },
{
    let v = chars_of(p);
    let w = chars_of(base);
    let hv = head(&v);
    let hw = head(&w);
    if w.len() == 0 {
        assert(v@.take(v@.len() as int) =~= v@);
        let n = settle(&v, v.len(), hv);
        assert(v@.subrange(0, n as int) =~= v@.take(n as int));
        return Some(text_range(&v, 0, n));
    }
    if hv != hw {
        return None;
    }
    if hw == 1 {
        if v[0] == w[0] {
            strip_from(&v, 1, &w, 1)
        } else {
            None
        }
    } else {
        assert(v@.skip(0) =~= v@);
        assert(w@.skip(0) =~= w@);
        strip_from(&v, 0, &w, 0)
    }
}

// ---------------------------------------------------------------------------
// Plain paths
// ---------------------------------------------------------------------------

/// A piece of `p` begins at `i`.
pub open spec fn begins_piece(p: Seq<char>, i: int) -> bool {
    0 <= i < p.len() && (i == 0 || p[i - 1] == '/')
}

/// A plain path: relative, and none of its pieces is empty, `.` or `..`.
pub open spec fn is_plain_path(p: Seq<char>) -> bool {
    &&& p.len() > 0
    &&& p.last() != '/'
    &&& forall|i: int| #[trigger]
        begins_piece(p, i) ==> {
            &&& p[i] != '/'
            &&& p[i] == '.' ==> i + 1 < p.len() && p[i + 1] != '/'
            &&& p[i] == '.' && p[i + 1] == '.' ==> i + 2 < p.len() && p[i + 2] != '/'
        }
}

/// The name at the end of a plain path.
pub open spec fn plain_name(p: Seq<char>) -> Seq<char> {
    last_piece(p, 0)
}

proof fn lemma_last_begins(p: Seq<char>)
    ensures
        0 <= last_start(p, 0) <= p.len(),
        last_start(p, 0) > 0 ==> p[last_start(p, 0) - 1] == '/',
        p.len() > 0 && p.last() != '/' ==> last_start(p, 0) < p.len(),
    decreases p.len(),
{
    if p.len() > 0 && p.last() != '/' {
        lemma_last_begins(p.drop_last());
    }
}

proof fn lemma_plain_name(p: Seq<char>)
    requires
        is_plain_path(p),
    ensures
        is_name(plain_name(p)),
        plain_name(p) != seq!['.', '.'],
        settled(p, 0) == p,
        skip_idle(p) == p,
        head_len(p) == 0,
{
    let st = last_start(p, 0);
    let n = plain_name(p);
    lemma_last_begins(p);
    lemma_last_piece(p, 0);
    assert(begins_piece(p, st));
    assert(begins_piece(p, 0));
    assert(n.len() == p.len() - st);
    assert(n[0] == p[st]);
    let dot = seq!['.'];
    let dots = seq!['.', '.'];
    assert(dot.len() == 1 && dot[0] == '.');
    assert(dots.len() == 2 && dots[0] == '.' && dots[1] == '.');
    if n == dots {
        assert(p[st + 1] == n[1]);
    }
}

/// The front of `y` that `skip_idle` takes off is the same where `z` follows.
proof fn lemma_skip_idle_before(y: Seq<char>, z: Seq<char>)
    requires
        y.len() == 0 || y.last() == '/' || z.len() == 0 || z[0] == '/',
    ensures
        skip_idle(y).len() > 0 ==> skip_idle(y + z) == skip_idle(y) + z,
        skip_idle(y).len() == 0 ==> skip_idle(y + z) == skip_idle(z),
    decreases y.len(),
{
    if y.len() == 0 {
        assert(y + z =~= z);
    } else {
        let t = y.skip(1);
        assert((y + z).skip(1) =~= t + z);
        if t.len() > 0 {
            assert(t.last() == y.last());
        }
        lemma_skip_idle_before(t, z);
        assert((y + z)[0] == y[0]);
        if y.len() > 1 {
            assert((y + z)[1] == y[1]);
        }
    }
}

proof fn lemma_first_len_before(y: Seq<char>, z: Seq<char>)
    requires
        y.len() == 0 || y.last() == '/' || z.len() == 0 || z[0] == '/',
        y.len() > 0 || z.len() == 0 || z[0] == '/',
    ensures
        first_len(y + z) == first_len(y),
    decreases y.len(),
{
    if y.len() == 0 {
        assert(y + z =~= z);
    } else if y[0] != '/' {
        let t = y.skip(1);
        assert((y + z).skip(1) =~= t + z);
        if t.len() > 0 {
            assert(t.last() == y.last());
        }
        lemma_first_len_before(t, z);
    }
}

proof fn lemma_strip_front(y: Seq<char>, z: Seq<char>)
    requires
        y.len() == 0 || y.last() == '/' || z.len() == 0 || z[0] == '/',
    ensures
        strip_pieces(y + z, y) == Some(settled(skip_idle(z), 0)),
    decreases y.len(),
{
    let y1 = skip_idle(y);
    lemma_skip_idle_before(y, z);
    lemma_skip_idle(y);
    if y1.len() > 0 {
        let m = first_len(y1);
        assert(y1.last() == y.last());
        lemma_first_len(y1);
        lemma_first_len_before(y1, z);
        assert((y1 + z).take(m) =~= y1.take(m));
        assert((y1 + z).skip(m) =~= y1.skip(m) + z);
        let r = y1.skip(m);
        if r.len() > 0 {
            assert(r.last() == y1.last());
        }
        lemma_strip_front(r, z);
    }
}

/// The text before a plain path that is seen from `root`.
spec fn front_of(root: Seq<char>) -> Seq<char> {
    if root.len() > 0 && root.last() != '/' {
        root.push('/')
    } else {
        root
    }
}

proof fn lemma_plain_file_name(root: Seq<char>, p: Seq<char>)
    requires
        is_plain_path(p),
    ensures
        file_name_of(joined(root, p)) == Some(plain_name(p)),
        settled(joined(root, p), head_len(joined(root, p))) == joined(root, p),
{
    let st = last_start(p, 0);
    let n = plain_name(p);
    let dir = front_of(root) + p.take(st);
    assert(begins_piece(p, 0));
    lemma_plain_name(p);
    lemma_last_begins(p);
    assert(joined(root, p) =~= front_of(root) + p);
    assert(p =~= p.take(st) + n);
    assert(joined(root, p) =~= dir + n);
    if st > 0 {
        assert(dir.last() == '/');
    } else {
        assert(dir =~= front_of(root));
    }
    assert(n.contains(n[0]));
    assert(joined(dir, n) =~= dir + n);
    names_stay_in_their_directory(dir, n);
}

proof fn lemma_plain_below(root: Seq<char>, p: Seq<char>)
    requires
        is_plain_path(p),
    ensures
        below(joined(root, p), root) == Some(p),
{
    let full = joined(root, p);
    assert(begins_piece(p, 0));
    lemma_plain_name(p);
    if root.len() == 0 {
        assert(full =~= p);
    } else {
        let z = if root.last() != '/' {
            seq!['/'] + p
        } else {
            p
        };
        assert((seq!['/'] + p).skip(1) =~= p);
        assert(skip_idle(z) == p);
        assert(full =~= root + z);
        assert(full[0] == root[0]);
        if root.len() > 1 {
            assert(full[1] == root[1]);
        } else {
            assert(full[1] == z[0]);
        }
        assert(head_len(full) == head_len(root));
        if head_len(root) == 1 {
            let y = root.skip(1);
            if y.len() > 0 {
                assert(y.last() == root.last());
            }
            assert(full.skip(1) =~= y + z);
            lemma_strip_front(y, z);
        } else {
            lemma_strip_front(root, z);
        }
    }
}

/// A plain path, seen from a directory, lies below that directory, at the path
/// as it was written, and has the name at its end.
pub proof fn plain_paths_are_found_again(root: Seq<char>, p: Seq<char>)
    requires
        is_plain_path(p),
    ensures
        below(joined(root, p), root) == Some(p),
        file_name_of(joined(root, p)) == Some(plain_name(p)),
{
    lemma_plain_file_name(root, p);
    lemma_plain_below(root, p);
}

/// A name leads to something in a directory: it is plain, and not `..`.
pub open spec fn is_proper_name(n: Seq<char>) -> bool {
    &&& n.len() > 0
    &&& !n.contains('/')
    &&& n != seq!['.']
    &&& n != seq!['.', '.']
}

/// Seen from a directory, a path is the directory, a slash and the path; without
/// a second slash where the directory ends in one, and the path alone where that
/// is absolute or the directory has no characters.
pub proof fn a_path_is_put_behind_its_directory(dir: Seq<char>, p: Seq<char>)
    ensures
        p.len() > 0 && p[0] == '/' ==> joined(dir, p) == p,
        !(p.len() > 0 && p[0] == '/') && dir.len() > 0 && dir.last() != '/' ==> joined(dir, p)
            == dir + seq!['/'] + p,
        !(p.len() > 0 && p[0] == '/') && dir.len() > 0 && dir.last() == '/' ==> joined(dir, p)
            == dir + p,
        dir.len() == 0 ==> joined(dir, p) == p,
{
    assert(dir.push('/') + p =~= dir + seq!['/'] + p);
    if dir.len() == 0 {
        assert(dir + p =~= p);
    }
}

/// What lies in a folder below the root has that folder as its directory, and
/// its own name.
pub proof fn what_lies_in_a_folder(root: Seq<char>, d: Seq<char>, n: Seq<char>)
    requires
        is_plain_path(d),
        is_proper_name(n),
    ensures
        parent_of(joined(root, d + seq!['/'] + n)) == Some(joined(root, d)),
        file_name_of(joined(root, d + seq!['/'] + n)) == Some(n),
{
    let dir = joined(root, d);
    assert(begins_piece(d, 0));
    lemma_plain_file_name(root, d);
    assert(dir.len() > 0 && dir.last() == d.last());
    assert(n.contains(n[0]));
    assert(joined(dir, n) =~= joined(root, d + seq!['/'] + n)) by {
        assert((d + seq!['/'] + n)[0] == d[0]);
    }
    names_stay_in_their_directory(dir, n);
    assert(head_len(joined(root, d)) == head_len(dir));
}

/// A name by itself lies in the directory that has no characters.
pub proof fn a_name_by_itself(n: Seq<char>)
    requires
        is_proper_name(n),
    ensures
        parent_of(n) == Some(Seq::<char>::empty()),
        file_name_of(n) == Some(n),
{
    let none = Seq::<char>::empty();
    assert(n.contains(n[0]));
    assert(joined(none, n) =~= n);
    names_stay_in_their_directory(none, n);
    assert(settled(none, head_len(none)) =~= none);
}

proof fn lemma_strip_common(y: Seq<char>, z: Seq<char>, t: Seq<char>)
    requires
        z.len() > 0 && z[0] == '/',
        t.len() > 0 && t[0] == '/',
    ensures
        strip_pieces(y + z, y + t) == strip_pieces(z, t),
    decreases y.len(),
{
    let y1 = skip_idle(y);
    lemma_skip_idle_before(y, z);
    lemma_skip_idle_before(y, t);
    lemma_skip_idle(y);
    if y1.len() > 0 {
        let m = first_len(y1);
        lemma_first_len(y1);
        lemma_first_len_before(y1, z);
        lemma_first_len_before(y1, t);
        assert((y1 + z).take(m) =~= y1.take(m));
        assert((y1 + t).take(m) =~= y1.take(m));
        assert((y1 + z).skip(m) =~= y1.skip(m) + z);
        assert((y1 + t).skip(m) =~= y1.skip(m) + t);
        lemma_strip_common(y1.skip(m), z, t);
    }
}

/// What lies in another folder beside the root does not lie below the root.
pub proof fn what_lies_elsewhere_is_not_below(
    dir: Seq<char>,
    n: Seq<char>,
    other: Seq<char>,
    rest: Seq<char>,
)
    requires
        dir.len() > 0,
        is_proper_name(n),
        is_proper_name(other),
        n != other,
        rest.len() == 0 || rest[0] == '/',
    ensures
        below(dir + seq!['/'] + other + rest, dir + seq!['/'] + n) is None,
{
    let z = seq!['/'] + other + rest;
    let t = seq!['/'] + n;
    let p = dir + seq!['/'] + other + rest;
    let base = dir + seq!['/'] + n;
    assert(p =~= dir + z);
    assert(base =~= dir + t);
    assert(p[0] == base[0]);
    assert(p[1] == base[1]) by {
        if dir.len() == 1 {
            assert(p[1] == '/' && base[1] == '/');
        }
    }
    assert(head_len(p) == head_len(base));
    let x1 = other + rest;
    assert(n.contains(n[0]) && other.contains(other[0]));
    if n.len() > 1 {
        assert(n.contains(n[1]));
    } else {
        assert(n =~= seq![n[0]]);
    }
    if other.len() > 1 {
        assert(other.contains(other[1]));
    } else {
        assert(other =~= seq![other[0]]);
    }
    assert(z.skip(1) =~= x1);
    assert(t.skip(1) =~= n);
    assert(x1[0] == other[0]);
    if x1.len() > 1 && other.len() == 1 {
        assert(x1[1] == rest[0]);
    }
    if other.len() > 1 {
        assert(x1[1] == other[1]);
    }
    assert(skip_idle(x1) == x1);
    assert(skip_idle(n) == n);
    assert(skip_idle(z) == x1);
    assert(skip_idle(t) == n);
    lemma_first_len_of_name(other, rest);
    lemma_first_len_of_name(n, Seq::empty());
    assert(n + Seq::<char>::empty() =~= n);
    assert(x1.take(other.len() as int) =~= other);
    assert(n.take(n.len() as int) =~= n);
    assert(strip_pieces(z, t) is None);
    if head_len(base) == 1 {
        let y = dir.skip(1);
        assert(p.skip(1) =~= y + z);
        assert(base.skip(1) =~= y + t);
        lemma_strip_common(y, z, t);
    } else {
        lemma_strip_common(dir, z, t);
    }
}

proof fn lemma_first_len_of_name(n: Seq<char>, rest: Seq<char>)
    requires
        !n.contains('/'),
        rest.len() == 0 || rest[0] == '/',
    ensures
        first_len(n + rest) == n.len(),
    decreases n.len(),
{
    if n.len() == 0 {
        assert(n + rest =~= rest);
    } else {
        let t = n.skip(1);
        assert(n.contains(n[0]));
        assert forall|c: char| t.contains(c) implies n.contains(c) by {
            let k = choose|k: int| 0 <= k < t.len() && t[k] == c;
            assert(n[k + 1] == c);
        }
        lemma_first_len_of_name(t, rest);
        assert((n + rest).skip(1) =~= t + rest);
    }
}

proof fn lemma_last_dot(a: Seq<char>, b: Seq<char>)
    requires
        !b.contains('.'),
    ensures
        last_dot(a.push('.') + b) == Some(a.len() as int),
    decreases b.len(),
{
    let s = a.push('.') + b;
    if b.len() == 0 {
        assert(s.last() == '.');
    } else {
        assert(b.contains(b.last()));
        assert(s.last() == b.last());
        let t = b.drop_last();
        assert forall|c: char| t.contains(c) implies b.contains(c) by {
            let k = choose|k: int| 0 <= k < t.len() && t[k] == c;
            assert(b[k] == c);
        }
        assert(s.drop_last() =~= a.push('.') + t);
        lemma_last_dot(a, t);
    }
}

/// The stem of a name is what stands before its last dot.
pub proof fn the_stem_ends_before_the_last_dot(a: Seq<char>, b: Seq<char>)
    requires
        !b.contains('.'),
        a.len() > 0,
        a != seq!['.'] || b.len() > 0,
    ensures
        stem_of(a + seq!['.'] + b) == a,
{
    let s = a.push('.') + b;
    assert(a + seq!['.'] + b =~= s);
    lemma_last_dot(a, b);
    assert(s.take(a.len() as int) =~= a);
    if s == seq!['.', '.'] {
        assert(s.len() == 2);
        assert(s[0] == '.');
        if a.len() == 1 {
            assert(a =~= seq!['.']);
        }
    }
}

/// A name without a dot is its own stem.
pub proof fn a_name_without_dot_is_its_stem(n: Seq<char>)
    requires
        !n.contains('.'),
    ensures
        stem_of(n) == n,
    decreases n.len(),
{
    lemma_no_dot(n);
}

proof fn lemma_no_dot(n: Seq<char>)
    requires
        !n.contains('.'),
    ensures
        last_dot(n) is None,
    decreases n.len(),
{
    if n.len() > 0 {
        let t = n.drop_last();
        assert(n.contains(n.last()));
        assert forall|c: char| t.contains(c) implies n.contains(c) by {
            let k = choose|k: int| 0 <= k < t.len() && t[k] == c;
            assert(n[k] == c);
        }
        lemma_no_dot(t);
    }
}

/// A directory with nothing idle at its end.
pub open spec fn is_directory(dir: Seq<char>) -> bool {
    dir.len() > 0 && dir.last() != '/' && settled(dir, head_len(dir)) == dir
}

/// Every plain path, seen from anywhere, is a directory with nothing idle at its
/// end.
pub proof fn a_plain_path_is_a_directory(root: Seq<char>, d: Seq<char>)
    requires
        is_plain_path(d),
    ensures
        is_directory(joined(root, d)),
{
    assert(begins_piece(d, 0));
    lemma_plain_file_name(root, d);
    assert(joined(root, d).last() == d.last());
}

/// What lies in a directory has it as its directory, and its own name.
pub proof fn what_lies_in_a_directory(dir: Seq<char>, n: Seq<char>)
    requires
        is_directory(dir),
        is_proper_name(n),
    ensures
        parent_of(dir + seq!['/'] + n) == Some(dir),
        file_name_of(dir + seq!['/'] + n) == Some(n),
        joined(dir, n) == dir + seq!['/'] + n,
{
    assert(n.contains(n[0]));
    a_path_is_put_behind_its_directory(dir, n);
    names_stay_in_their_directory(dir, n);
}

/// A dot at the beginning of a name begins no extension.
pub proof fn a_dot_at_the_beginning_belongs_to_the_stem(b: Seq<char>)
    requires
        !b.contains('.'),
    ensures
        stem_of(seq!['.'] + b) == seq!['.'] + b,
{
    let none = Seq::<char>::empty();
    lemma_last_dot(none, b);
    assert(none.push('.') + b =~= seq!['.'] + b);
}

/// The root has no directory and no name, and neither has what is empty.
pub proof fn the_root_lies_in_nothing()
    ensures
        parent_of(seq!['/']) is None,
        file_name_of(seq!['/']) is None,
        parent_of(Seq::<char>::empty()) is None,
        file_name_of(Seq::<char>::empty()) is None,
{
}

} // verus!
