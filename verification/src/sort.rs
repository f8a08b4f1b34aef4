//! Sorting that keeps the order of items that rank the same.

use crate::text;
use crate::text::not_after;
use vstd::prelude::*;

verus! {

/// Items that rank before or after one another.
pub trait Ranked: View + Sized {
    /// `a` does not rank after `b`.
    spec fn le(a: Self::V, b: Self::V) -> bool;

    /// Any two items are ranked one way or the other.
    proof fn le_total(a: Self::V, b: Self::V)
        ensures
            Self::le(a, b) || Self::le(b, a),
    ;

    /// Ranking is transitive.
    proof fn le_transitive(a: Self::V, b: Self::V, c: Self::V)
        requires
            Self::le(a, b),
            Self::le(b, c),
        ensures
            Self::le(a, c),
    ;

    /// Whether `self` does not rank after `other`.
    fn no_later(&self, other: &Self) -> (r: bool)
        ensures
            r == Self::le(self@, other@),
    ;
}

/// What the items of `v` stand for.
pub open spec fn views<T: View>(v: Seq<T>) -> Seq<T::V> {
    v.map_values(|x: T| x@)
}

/// `x` put into `s` before the first item that it does not rank after.
pub open spec fn placed<T: Ranked>(s: Seq<T::V>, x: T::V) -> Seq<T::V>
    decreases s.len(),
{
    if s.len() == 0 || T::le(x, s[0]) {
        seq![x] + s
    } else {
        seq![s[0]] + placed::<T>(s.skip(1), x)
    }
}

/// The items of `s` by rank; those that rank the same stay in order.
pub open spec fn ranked<T: Ranked>(s: Seq<T::V>) -> Seq<T::V>
    decreases s.len(),
{
    if s.len() == 0 {
        s
    } else {
        placed::<T>(ranked::<T>(s.skip(1)), s[0])
    }
}

/// No item ranks before one that stands in front of it.
pub open spec fn in_order<T: Ranked>(s: Seq<T::V>) -> bool {
    forall|i: int, j: int| 0 <= i <= j < s.len() ==> T::le(#[trigger] s[i], #[trigger] s[j])
}

proof fn lemma_placed_in_order<T: Ranked>(s: Seq<T::V>, x: T::V)
    requires
        in_order::<T>(s),
    ensures
        in_order::<T>(placed::<T>(s, x)),
        forall|y: T::V| #[trigger] placed::<T>(s, x).contains(y) ==> y == x || s.contains(y),
    decreases s.len(),
{
    let r = placed::<T>(s, x);
    T::le_total(x, x);
    if s.len() == 0 || T::le(x, s[0]) {
        assert forall|i: int, j: int| 0 <= i <= j < r.len() implies T::le(
            #[trigger] r[i],
            #[trigger] r[j],
        ) by {
            if i == 0 && j > 0 {
                assert(r[j] == s[j - 1]);
                assert(T::le(s[0], s[j - 1]));
                T::le_transitive(x, s[0], s[j - 1]);
            } else if i > 0 {
                assert(r[i] == s[i - 1] && r[j] == s[j - 1]);
            }
        }
        assert forall|y: T::V| #[trigger] r.contains(y) implies y == x || s.contains(y) by {
            let k = choose|k: int| 0 <= k < r.len() && r[k] == y;
            if k > 0 {
                assert(s[k - 1] == y);
            }
        }
    } else {
        let t = s.skip(1);
        let q = placed::<T>(t, x);
        assert forall|i: int, j: int| 0 <= i <= j < t.len() implies T::le(
            #[trigger] t[i],
            #[trigger] t[j],
        ) by {
            assert(t[i] == s[i + 1] && t[j] == s[j + 1]);
        }
        lemma_placed_in_order::<T>(t, x);
        T::le_total(x, s[0]);
        assert forall|i: int, j: int| 0 <= i <= j < r.len() implies T::le(
            #[trigger] r[i],
            #[trigger] r[j],
        ) by {
            if i > 0 {
                assert(r[i] == q[i - 1] && r[j] == q[j - 1]);
            } else if j > 0 {
                assert(r[j] == q[j - 1]);
                assert(q.contains(q[j - 1]));
                if q[j - 1] != x {
                    let k = choose|k: int| 0 <= k < t.len() && t[k] == q[j - 1];
                    assert(s[k + 1] == q[j - 1]);
                    assert(T::le(s[0], s[k + 1]));
                }
            } else {
                T::le_total(s[0], s[0]);
            }
        }
        assert forall|y: T::V| #[trigger] r.contains(y) implies y == x || s.contains(y) by {
            let k = choose|k: int| 0 <= k < r.len() && r[k] == y;
            if k > 0 {
                assert(q[k - 1] == y);
                assert(q.contains(y));
                if y != x {
                    let m = choose|m: int| 0 <= m < t.len() && t[m] == y;
                    assert(s[m + 1] == y);
                }
            } else {
                assert(s[0] == y);
            }
        }
    }
}

/// Sorting puts items in order.
pub proof fn ranked_is_in_order<T: Ranked>(s: Seq<T::V>)
    ensures
        in_order::<T>(ranked::<T>(s)),
    decreases s.len(),
{
    if s.len() > 0 {
        ranked_is_in_order::<T>(s.skip(1));
        lemma_placed_in_order::<T>(ranked::<T>(s.skip(1)), s[0]);
    }
}

proof fn lemma_placed_same_items<T: Ranked>(s: Seq<T::V>, x: T::V)
    ensures
        placed::<T>(s, x).to_multiset() == s.to_multiset().insert(x),
        placed::<T>(s, x).len() == s.len() + 1,
    decreases s.len(),
{
    if s.len() == 0 || T::le(x, s[0]) {
        assert(seq![x] + s =~= s.insert(0, x));
        vstd::seq_lib::to_multiset_insert(s, 0, x);
    } else {
        let t = s.skip(1);
        let q = placed::<T>(t, x);
        lemma_placed_same_items::<T>(t, x);
        assert(seq![s[0]] + q =~= q.insert(0, s[0]));
        vstd::seq_lib::to_multiset_insert(q, 0, s[0]);
        assert(s =~= t.insert(0, s[0]));
        vstd::seq_lib::to_multiset_insert(t, 0, s[0]);
        assert(t.to_multiset().insert(x).insert(s[0]) =~= t.to_multiset().insert(s[0]).insert(x));
    }
}

/// Sorting neither loses nor adds an item.
pub proof fn ranked_keeps_every_item<T: Ranked>(s: Seq<T::V>)
    ensures
        ranked::<T>(s).to_multiset() == s.to_multiset(),
        ranked::<T>(s).len() == s.len(),
    decreases s.len(),
{
    if s.len() > 0 {
        let t = s.skip(1);
        ranked_keeps_every_item::<T>(t);
        lemma_placed_same_items::<T>(ranked::<T>(t), s[0]);
        assert(s =~= t.insert(0, s[0]));
        vstd::seq_lib::to_multiset_insert(t, 0, s[0]);
    }
}

/// The items that rank the same as `x`, in order.
pub open spec fn peers<T: Ranked>(s: Seq<T::V>, x: T::V) -> Seq<T::V>
    decreases s.len(),
{
    if s.len() == 0 {
        s
    } else if T::le(x, s[0]) && T::le(s[0], x) {
        seq![s[0]] + peers::<T>(s.skip(1), x)
    } else {
        peers::<T>(s.skip(1), x)
    }
}

proof fn lemma_placed_peers<T: Ranked>(s: Seq<T::V>, y: T::V, x: T::V)
    ensures
        peers::<T>(placed::<T>(s, y), x) == peers::<T>(seq![y] + s, x),
    decreases s.len(),
{
    assert((seq![y] + s).skip(1) =~= s);
    if s.len() > 0 && !T::le(y, s[0]) {
        let t = s.skip(1);
        lemma_placed_peers::<T>(t, y, x);
        assert((seq![s[0]] + placed::<T>(t, y)).skip(1) =~= placed::<T>(t, y));
        assert((seq![y] + t).skip(1) =~= t);
        // `y` and `s[0]` do not both rank the same as `x`.
        if T::le(x, y) && T::le(y, x) && T::le(x, s[0]) && T::le(s[0], x) {
            T::le_transitive(y, x, s[0]);
        }
        assert(peers::<T>(s, x) == if T::le(x, s[0]) && T::le(s[0], x) {
            seq![s[0]] + peers::<T>(t, x)
        } else {
            peers::<T>(t, x)
        });
    }
}

/// Items that rank the same stay in the order in which they came.
pub proof fn ranked_is_stable<T: Ranked>(s: Seq<T::V>, x: T::V)
    ensures
        peers::<T>(ranked::<T>(s), x) == peers::<T>(s, x),
    decreases s.len(),
{
    if s.len() > 0 {
        let t = s.skip(1);
        ranked_is_stable::<T>(t, x);
        lemma_placed_peers::<T>(ranked::<T>(t), s[0], x);
        assert((seq![s[0]] + ranked::<T>(t)).skip(1) =~= ranked::<T>(t));
    }
}

/// Of items of which no two rank the same there is one order only.
pub proof fn there_is_one_order_only<T: Ranked>(a: Seq<T::V>, b: Seq<T::V>)
    requires
        in_order::<T>(a),
        in_order::<T>(b),
        a.to_multiset() == b.to_multiset(),
        forall|x: T::V, y: T::V|
            a.contains(x) && a.contains(y) && #[trigger] T::le(x, y) && #[trigger] T::le(y, x) ==> x
                == y,
    ensures
        a == b,
    decreases a.len(),
{
    a.to_multiset_ensures();
    b.to_multiset_ensures();
    if a.len() == 0 {
        assert(a =~= b);
    } else {
        assert(a.contains(a[0]));
        assert(a.to_multiset().count(a[0]) > 0);
        assert(b.contains(a[0]));
        let k = choose|k: int| 0 <= k < b.len() && b[k] == a[0];
        assert(b.contains(b[0]));
        assert(b.to_multiset().count(b[0]) > 0);
        assert(a.contains(b[0]));
        let j = choose|j: int| 0 <= j < a.len() && a[j] == b[0];
        assert(T::le(b[0], b[k]));
        assert(T::le(a[0], a[j]));
        assert(a[0] == b[0]);
        let s = a.remove(0);
        let t = b.remove(0);
        vstd::seq_lib::to_multiset_remove(a, 0);
        vstd::seq_lib::to_multiset_remove(b, 0);
        assert forall|x: T::V| s.contains(x) implies a.contains(x) by {
            let i = choose|i: int| 0 <= i < s.len() && s[i] == x;
            assert(a[i + 1] == x);
        }
        assert forall|i: int, l: int| 0 <= i <= l < s.len() implies T::le(
            #[trigger] s[i],
            #[trigger] s[l],
        ) by {
            assert(s[i] == a[i + 1] && s[l] == a[l + 1]);
        }
        assert forall|i: int, l: int| 0 <= i <= l < t.len() implies T::le(
            #[trigger] t[i],
            #[trigger] t[l],
        ) by {
            assert(t[i] == b[i + 1] && t[l] == b[l + 1]);
        }
        there_is_one_order_only::<T>(s, t);
        assert(a =~= seq![a[0]] + s);
        assert(b =~= seq![b[0]] + t);
    }
}

proof fn lemma_placed_at<T: Ranked>(s: Seq<T::V>, x: T::V, k: int)
    requires
        0 <= k <= s.len(),
        forall|j: int| 0 <= j < k ==> !T::le(x, #[trigger] s[j]),
        k < s.len() ==> T::le(x, s[k]),
    ensures
        placed::<T>(s, x) == s.insert(k, x),
    decreases k,
{
    if k == 0 {
        assert(seq![x] + s =~= s.insert(0, x));
    } else {
        let t = s.skip(1);
        assert forall|j: int| 0 <= j < k - 1 implies !T::le(x, #[trigger] t[j]) by {
            assert(t[j] == s[j + 1]);
        }
        lemma_placed_at::<T>(t, x, k - 1);
        assert(!T::le(x, s[0]));
        assert(seq![s[0]] + t.insert(k - 1, x) =~= s.insert(k, x));
    }
}

/// The items of `items` by rank; those that rank the same stay in order.
pub fn sort<T: Ranked>(items: Vec<T>) -> (r: Vec<T>)
    ensures
        views(r@) == ranked::<T>(views(items@)),
{
    let ghost all = views(items@);
    let mut rest = items;
    let mut out: Vec<T> = Vec::new();
    assert(views(out@) =~= Seq::empty());
    assert(all.skip(all.len() as int) =~= Seq::empty());
    while rest.len() > 0
        invariant
            all == views(items@),
            rest@.len() <= all.len(),
            views(rest@) == all.take(rest@.len() as int),
            views(out@) == ranked::<T>(all.skip(rest@.len() as int)),
        decreases rest@.len(),
    {
        let ghost n = rest@.len() - 1;
        let ghost rest0 = rest@;
        match rest.pop() {
            Some(x) => {
                let ghost tail = all.skip(n);
                proof {
                    assert(views(rest0)[n] == x@);
                    assert(all[n] == x@);
                    assert(tail.skip(1) =~= all.skip(n + 1));
                    assert(views(rest@) =~= all.take(n));
                    ranked_is_in_order::<T>(all.skip(n + 1));
                }
                place(&mut out, x);
            },
            None => {},
        }
    }
    assert(all.skip(0) =~= all);
    out
}

/// Puts `x` into the sorted `out` before the first item that it does not rank
/// after.
fn place<T: Ranked>(out: &mut Vec<T>, x: T)
    requires
        in_order::<T>(views(old(out)@)),
    ensures
        views(final(out)@) == placed::<T>(views(old(out)@), x@),
{
    let ghost s = views(out@);
    let mut lo: usize = 0;
    let mut hi: usize = out.len();
    while lo < hi
        invariant
            s == views(out@),
            in_order::<T>(s),
            lo <= hi <= out@.len(),
            forall|j: int| 0 <= j < lo ==> !T::le(x@, #[trigger] s[j]),
            forall|j: int| hi <= j < s.len() ==> T::le(x@, #[trigger] s[j]),
        decreases hi - lo,
    {
        let mid: usize = lo + (hi - lo) / 2;
        assert(s[mid as int] == out@[mid as int]@);
        if x.no_later(&out[mid]) {
            proof {
                assert forall|j: int| mid <= j < s.len() implies T::le(x@, #[trigger] s[j]) by {
                    T::le_transitive(x@, s[mid as int], s[j]);
                }
            }
            hi = mid;
        } else {
            proof {
                assert forall|j: int| 0 <= j <= mid implies !T::le(x@, #[trigger] s[j]) by {
                    if T::le(x@, s[j]) {
                        T::le_transitive(x@, s[j], s[mid as int]);
                    }
                }
            }
            lo = mid + 1;
        }
    }
    proof {
        lemma_placed_at::<T>(s, x@, lo as int);
    }
    let ghost before = out@;
    out.insert(lo, x);
    assert(views(out@) =~= s.insert(lo as int, x@));
}

impl Ranked for String {
    open spec fn le(a: Seq<char>, b: Seq<char>) -> bool {
        text::text_le(a, b)
    }

    proof fn le_total(a: Seq<char>, b: Seq<char>) {
        text::text_le_total(a, b);
    }

    proof fn le_transitive(a: Seq<char>, b: Seq<char>, c: Seq<char>) {
        text::text_le_transitive(a, b, c);
    }

    fn no_later(&self, other: &Self) -> (r: bool) {
        not_after(self.as_str(), other.as_str())
    }
}

} // verus!
