//! What holds of every tree of notes.

use crate::listing;
use crate::listing::FoundView;
use crate::paths;
use crate::sort;
use crate::sort::Ranked;
use crate::text;
use crate::tree;
use crate::tree::{FileNode, ListingView, NodeView};
use vstd::multiset::Multiset;
use vstd::prelude::*;

verus! {

// ---------------------------------------------------------------------------
// Every entry stands in the tree once
// ---------------------------------------------------------------------------

/// A node without what lies in it.
pub open spec fn label(n: NodeView) -> (Seq<char>, Seq<char>, bool) {
    (n.name, n.path, n.is_dir)
}

/// The nodes of a tree, at every depth.
pub open spec fn labels(tree: Seq<NodeView>) -> Multiset<(Seq<char>, Seq<char>, bool)>
    decreases tree,
{
    if tree.len() == 0 {
        Multiset::empty()
    } else {
        labels(tree.subrange(1, tree.len() as int)).add(labels(tree[0].children)).insert(
            label(tree[0]),
        )
    }
}

/// The nodes of a list, each without what lies in it.
pub open spec fn flat_labels(flat: Seq<NodeView>) -> Seq<(Seq<char>, Seq<char>, bool)> {
    flat.map_values(|n: NodeView| label(n))
}

/// None of the nodes has anything in it.
pub open spec fn all_bare(flat: Seq<NodeView>) -> bool {
    forall|i: int| 0 <= i < flat.len() ==> (#[trigger] flat[i]).children.len() == 0
}

proof fn lemma_labels_push(tree: Seq<NodeView>, n: NodeView)
    requires
        n.children.len() == 0,
    ensures
        labels(tree.push(n)) == labels(tree).insert(label(n)),
    decreases tree.len(),
{
    let t = tree.push(n);
    if tree.len() == 0 {
        assert(t.subrange(1, 1) =~= Seq::empty());
        assert(labels(t.subrange(1, 1)) =~= Multiset::empty());
        assert(labels(n.children) =~= Multiset::empty());
        assert(labels(t) =~= labels(tree).insert(label(n)));
    } else {
        let rest = tree.subrange(1, tree.len() as int);
        lemma_labels_push(rest, n);
        assert(t.subrange(1, t.len() as int) =~= rest.push(n));
        assert(labels(t) =~= labels(tree).insert(label(n)));
    }
}

proof fn lemma_labels_changed(tree: Seq<NodeView>, p: Seq<char>, m: NodeView, n: NodeView)
    requires
        n.children.len() == 0,
        tree::found(tree, p) == Some(m),
    ensures
        labels(tree::changed(tree, p, tree::with_child(m, n))) == labels(tree).insert(label(n)),
    decreases tree,
{
    let new = tree::with_child(m, n);
    let c = tree::changed(tree, p, new);
    let rest = tree.subrange(1, tree.len() as int);
    if tree[0].path == p {
        lemma_labels_push(m.children, n);
        assert(c.subrange(1, c.len() as int) =~= rest);
    } else if tree[0].is_dir && tree::found(tree[0].children, p) is Some {
        lemma_labels_changed(tree[0].children, p, m, n);
        assert(c.subrange(1, c.len() as int) =~= rest);
    } else {
        lemma_labels_changed(rest, p, m, n);
        assert(c.subrange(1, c.len() as int) =~= tree::changed(rest, p, new));
    }
    assert(labels(c) =~= labels(tree).insert(label(n)));
}

/// Putting a node into a tree adds this node and changes no other.
pub proof fn inserting_adds_one(tree: Seq<NodeView>, n: NodeView)
    requires
        n.children.len() == 0,
    ensures
        labels(tree::inserted(tree, n)) == labels(tree).insert(label(n)),
{
    lemma_labels_push(tree, n);
    match paths::parent_of(n.path) {
        Some(d) => match tree::found(tree, d) {
            Some(m) if d.len() > 0 => {
                lemma_labels_changed(tree, d, m, n);
            },
            _ => {},
        },
        None => {},
    }
}

proof fn lemma_labels_planted(s: Seq<NodeView>)
    requires
        all_bare(s),
    ensures
        labels(tree::planted(Seq::empty(), s)) == flat_labels(s).to_multiset(),
    decreases s.len(),
{
    if s.len() == 0 {
        assert(flat_labels(s) =~= Seq::empty());
        flat_labels(s).to_multiset_ensures();
        assert(flat_labels(s).to_multiset() =~= Multiset::empty());
        assert(labels(tree::planted(Seq::empty(), s)) =~= Multiset::empty());
    } else {
        let t = s.drop_last();
        lemma_labels_planted(t);
        inserting_adds_one(tree::planted(Seq::empty(), t), s.last());
        assert(flat_labels(s) =~= flat_labels(t).push(label(s.last())));
        vstd::seq_lib::to_multiset_build(flat_labels(t), label(s.last()));
    }
}

proof fn lemma_labels_placed(s: Seq<NodeView>, x: NodeView)
    ensures
        flat_labels(sort::placed::<FileNode>(s, x)).to_multiset() == flat_labels(
            s,
        ).to_multiset().insert(label(x)),
        all_bare(s) && x.children.len() == 0 ==> all_bare(sort::placed::<FileNode>(s, x)),
    decreases s.len(),
{
    let r = sort::placed::<FileNode>(s, x);
    if s.len() == 0 || <FileNode as Ranked>::le(x, s[0]) {
        assert(flat_labels(r) =~= flat_labels(s).insert(0, label(x)));
        vstd::seq_lib::to_multiset_insert(flat_labels(s), 0, label(x));
    } else {
        let t = s.skip(1);
        let q = sort::placed::<FileNode>(t, x);
        lemma_labels_placed(t, x);
        assert(flat_labels(r) =~= flat_labels(q).insert(0, label(s[0])));
        vstd::seq_lib::to_multiset_insert(flat_labels(q), 0, label(s[0]));
        assert(flat_labels(s) =~= flat_labels(t).insert(0, label(s[0])));
        vstd::seq_lib::to_multiset_insert(flat_labels(t), 0, label(s[0]));
        assert(flat_labels(r).to_multiset() =~= flat_labels(s).to_multiset().insert(label(x)));
        if all_bare(s) && x.children.len() == 0 {
            assert forall|i: int| 0 <= i < t.len() implies (#[trigger] t[i]).children.len()
                == 0 by {
                assert(t[i] == s[i + 1]);
            }
            assert forall|i: int| 0 <= i < r.len() implies (#[trigger] r[i]).children.len()
                == 0 by {
                if i > 0 {
                    assert(r[i] == q[i - 1]);
                }
            }
        }
    }
}

proof fn lemma_labels_ranked(s: Seq<NodeView>)
    ensures
        flat_labels(sort::ranked::<FileNode>(s)).to_multiset() == flat_labels(s).to_multiset(),
        all_bare(s) ==> all_bare(sort::ranked::<FileNode>(s)),
    decreases s.len(),
{
    if s.len() > 0 {
        let t = s.skip(1);
        lemma_labels_ranked(t);
        lemma_labels_placed(sort::ranked::<FileNode>(t), s[0]);
        assert(flat_labels(s) =~= flat_labels(t).insert(0, label(s[0])));
        vstd::seq_lib::to_multiset_insert(flat_labels(t), 0, label(s[0]));
        if all_bare(s) {
            assert forall|i: int| 0 <= i < t.len() implies (#[trigger] t[i]).children.len()
                == 0 by {
                assert(t[i] == s[i + 1]);
            }
        }
    }
}

/// The tree of a list holds each of its nodes as often as the list does, and no
/// other.
pub proof fn a_tree_holds_every_entry_once(flat: Seq<NodeView>)
    requires
        all_bare(flat),
    ensures
        labels(tree::built(flat)) == flat_labels(flat).to_multiset(),
{
    lemma_labels_ranked(flat);
    lemma_labels_planted(sort::ranked::<FileNode>(flat));
}

// ---------------------------------------------------------------------------
// Every level is in order
// ---------------------------------------------------------------------------

/// At every depth, folders stand before notes, and each kind by path.
pub open spec fn orderly(tree: Seq<NodeView>) -> bool
    decreases tree,
{
    &&& sort::in_order::<FileNode>(tree)
    &&& forall|i: int| 0 <= i < tree.len() ==> orderly((#[trigger] tree[i]).children)
}

/// No node, at any depth, ranks after `x`.
pub open spec fn none_after(tree: Seq<NodeView>, x: NodeView) -> bool
    decreases tree,
{
    forall|i: int|
        0 <= i < tree.len() ==> <FileNode as Ranked>::le(#[trigger] tree[i], x) && none_after(
            tree[i].children,
            x,
        )
}

proof fn lemma_none_after_transitive(tree: Seq<NodeView>, x: NodeView, y: NodeView)
    requires
        none_after(tree, x),
        <FileNode as Ranked>::le(x, y),
    ensures
        none_after(tree, y),
    decreases tree,
{
    assert forall|i: int| 0 <= i < tree.len() implies <FileNode as Ranked>::le(
        #[trigger] tree[i],
        y,
    ) && none_after(tree[i].children, y) by {
        <FileNode as Ranked>::le_transitive(tree[i], x, y);
        lemma_none_after_transitive(tree[i].children, x, y);
    }
}

proof fn lemma_orderly_push(tree: Seq<NodeView>, n: NodeView)
    requires
        orderly(tree),
        none_after(tree, n),
        n.children.len() == 0,
    ensures
        orderly(tree.push(n)),
        none_after(tree.push(n), n),
{
    let t = tree.push(n);
    <FileNode as Ranked>::le_total(n, n);
    assert forall|i: int, j: int| 0 <= i <= j < t.len() implies <FileNode as Ranked>::le(
        #[trigger] t[i],
        #[trigger] t[j],
    ) by {
        if j < tree.len() {
            assert(t[i] == tree[i] && t[j] == tree[j]);
        } else if i < tree.len() {
            assert(t[i] == tree[i]);
        }
    }
    assert forall|i: int| 0 <= i < t.len() implies orderly((#[trigger] t[i]).children) by {
        if i < tree.len() {
            assert(t[i] == tree[i]);
        }
    }
    assert forall|i: int| 0 <= i < t.len() implies <FileNode as Ranked>::le(#[trigger] t[i], n)
        && none_after(t[i].children, n) by {
        if i < tree.len() {
            assert(t[i] == tree[i]);
        }
    }
}

proof fn lemma_leader_exists(tree: Seq<NodeView>, p: Seq<char>) -> (k: int)
    requires
        tree::found(tree, p) is Some,
    ensures
        tree::leads(tree, p, k),
    decreases tree.len(),
{
    if tree.len() > 0 && tree::holds(tree[0], p) {
        0
    } else {
        let t = tree.subrange(1, tree.len() as int);
        let k = lemma_leader_exists(t, p);
        assert forall|j: int| 0 <= j < k + 1 implies !tree::holds(#[trigger] tree[j], p) by {
            if j > 0 {
                assert(t[j - 1] == tree[j]);
            }
        }
        assert(t[k] == tree[k + 1]);
        k + 1
    }
}

proof fn lemma_orderly_changed(tree: Seq<NodeView>, p: Seq<char>, m: NodeView, n: NodeView)
    requires
        orderly(tree),
        none_after(tree, n),
        n.children.len() == 0,
        tree::found(tree, p) == Some(m),
    ensures
        orderly(tree::changed(tree, p, tree::with_child(m, n))),
        none_after(tree::changed(tree, p, tree::with_child(m, n)), n),
    decreases tree,
{
    let new = tree::with_child(m, n);
    let c = tree::changed(tree, p, new);
    let k = lemma_leader_exists(tree, p);
    tree::lemma_leads(tree, p, k, new);
    assert(<FileNode as Ranked>::le(tree[k], n));
    if tree[k].path == p {
        lemma_orderly_push(m.children, n);
    } else {
        lemma_orderly_changed(tree[k].children, p, m, n);
    }
    assert(c[k].path == tree[k].path && c[k].is_dir == tree[k].is_dir);
    assert forall|i: int, j: int| 0 <= i <= j < c.len() implies <FileNode as Ranked>::le(
        #[trigger] c[i],
        #[trigger] c[j],
    ) by {
        assert(<FileNode as Ranked>::le(tree[i], tree[j]));
    }
    assert forall|i: int| 0 <= i < c.len() implies orderly((#[trigger] c[i]).children) by {
        if i != k {
            assert(c[i] == tree[i]);
        }
    }
    assert forall|i: int| 0 <= i < c.len() implies <FileNode as Ranked>::le(#[trigger] c[i], n)
        && none_after(c[i].children, n) by {
        if i != k {
            assert(c[i] == tree[i]);
        }
    }
}

proof fn lemma_orderly_inserted(tree: Seq<NodeView>, n: NodeView)
    requires
        orderly(tree),
        none_after(tree, n),
        n.children.len() == 0,
    ensures
        orderly(tree::inserted(tree, n)),
        none_after(tree::inserted(tree, n), n),
{
    lemma_orderly_push(tree, n);
    match paths::parent_of(n.path) {
        Some(d) => match tree::found(tree, d) {
            Some(m) if d.len() > 0 => {
                lemma_orderly_changed(tree, d, m, n);
            },
            _ => {},
        },
        None => {},
    }
}

proof fn lemma_orderly_planted(s: Seq<NodeView>)
    requires
        sort::in_order::<FileNode>(s),
        all_bare(s),
    ensures
        orderly(tree::planted(Seq::empty(), s)),
        s.len() > 0 ==> none_after(tree::planted(Seq::empty(), s), s.last()),
    decreases s.len(),
{
    if s.len() > 0 {
        let t = s.drop_last();
        lemma_orderly_planted(t);
        let tree = tree::planted(Seq::empty(), t);
        if t.len() > 0 {
            assert(<FileNode as Ranked>::le(s[t.len() - 1], s[s.len() - 1]));
            lemma_none_after_transitive(tree, t.last(), s.last());
        }
        lemma_orderly_inserted(tree, s.last());
    }
}

/// In the tree of a list, folders stand before notes at every depth, and each
/// kind by path.
pub proof fn a_tree_is_orderly(flat: Seq<NodeView>)
    requires
        all_bare(flat),
    ensures
        orderly(tree::built(flat)),
{
    lemma_labels_ranked(flat);
    sort::ranked_is_in_order::<FileNode>(flat);
    lemma_orderly_planted(sort::ranked::<FileNode>(flat));
}

// ---------------------------------------------------------------------------
// Every entry lies in its folder
// ---------------------------------------------------------------------------

/// No two nodes have the same path.
pub open spec fn distinct_paths(flat: Seq<NodeView>) -> bool {
    forall|i: int, j: int|
        0 <= i < flat.len() && 0 <= j < flat.len() && i != j ==> (#[trigger] flat[i]).path != (
        #[trigger] flat[j]).path
}

/// A node with the path `q` lies right in `m`.
pub open spec fn has_child(m: NodeView, q: Seq<char>) -> bool {
    exists|k: int| 0 <= k < m.children.len() && (#[trigger] m.children[k]).path == q
}

/// `b` is `a`, perhaps with more in it.
spec fn grown(a: NodeView, b: NodeView) -> bool {
    &&& b.path == a.path
    &&& b.is_dir == a.is_dir
    &&& b.children.len() >= a.children.len()
    &&& forall|k: int|
        0 <= k < a.children.len() ==> (#[trigger] b.children[k]).path == a.children[k].path
}

proof fn lemma_found_push(tree: Seq<NodeView>, n: NodeView, p: Seq<char>)
    requires
        n.children.len() == 0,
    ensures
        tree::found(tree.push(n), p) == match tree::found(tree, p) {
            Some(m) => Some(m),
            None => if n.path == p {
                Some(n)
            } else {
                None
            },
        },
    decreases tree.len(),
{
    let t = tree.push(n);
    assert(tree::found(n.children, p) is None);
    if tree.len() == 0 {
        assert(t.subrange(1, 1) =~= Seq::empty());
        assert(tree::found(t.subrange(1, 1), p) is None);
    } else {
        let rest = tree.subrange(1, tree.len() as int);
        lemma_found_push(rest, n, p);
        assert(t.subrange(1, t.len() as int) =~= rest.push(n));
    }
}

proof fn lemma_changed_level(tree: Seq<NodeView>, p: Seq<char>, m: NodeView, n: NodeView)
    requires
        tree::found(tree, p) == Some(m),
    ensures
        tree::changed(tree, p, tree::with_child(m, n)).len() == tree.len(),
        forall|i: int|
            0 <= i < tree.len() ==> (#[trigger] tree::changed(
                tree,
                p,
                tree::with_child(m, n),
            )[i]).path == tree[i].path,
{
    let k = lemma_leader_exists(tree, p);
    tree::lemma_leads(tree, p, k, tree::with_child(m, n));
}

/// Where a child other than `p` is added to a node, what is found under `p` is
/// what was found before, perhaps with more in it.
proof fn lemma_found_changed(
    tree: Seq<NodeView>,
    q: Seq<char>,
    m: NodeView,
    n: NodeView,
    p: Seq<char>,
)
    requires
        tree::found(tree, q) == Some(m),
        n.children.len() == 0,
        n.path != p,
    ensures
        match (tree::found(tree, p), tree::found(
            tree::changed(tree, q, tree::with_child(m, n)),
            p,
        )) {
            (Some(a), Some(b)) => grown(a, b),
            (None, None) => true,
            _ => false,
        },
    decreases tree,
{
    let new = tree::with_child(m, n);
    let c = tree::changed(tree, q, new);
    let rest = tree.subrange(1, tree.len() as int);
    if tree[0].path == q {
        lemma_found_push(m.children, n, p);
        assert(c.subrange(1, c.len() as int) =~= rest);
    } else if tree[0].is_dir && tree::found(tree[0].children, q) is Some {
        lemma_found_changed(tree[0].children, q, m, n, p);
        lemma_changed_level(tree[0].children, q, m, n);
        assert(c.subrange(1, c.len() as int) =~= rest);
    } else {
        lemma_found_changed(rest, q, m, n, p);
        assert(c.subrange(1, c.len() as int) =~= tree::changed(rest, q, new));
    }
}

/// Where a child is added to a folder, it is found under its path.
proof fn lemma_child_found(tree: Seq<NodeView>, q: Seq<char>, m: NodeView, n: NodeView)
    requires
        tree::found(tree, q) == Some(m),
        m.is_dir,
        n.children.len() == 0,
    ensures
        tree::found(tree::changed(tree, q, tree::with_child(m, n)), n.path) is Some,
    decreases tree,
{
    let new = tree::with_child(m, n);
    let c = tree::changed(tree, q, new);
    let rest = tree.subrange(1, tree.len() as int);
    if tree[0].path == q {
        lemma_found_push(m.children, n, n.path);
    } else if tree[0].is_dir && tree::found(tree[0].children, q) is Some {
        lemma_child_found(tree[0].children, q, m, n);
    } else {
        lemma_child_found(rest, q, m, n);
        assert(c.subrange(1, c.len() as int) =~= tree::changed(rest, q, new));
    }
}

/// The node to which a child was added is found with it.
proof fn lemma_changed_found(tree: Seq<NodeView>, q: Seq<char>, m: NodeView, n: NodeView)
    requires
        tree::found(tree, q) == Some(m),
    ensures
        tree::found(tree::changed(tree, q, tree::with_child(m, n)), q) == Some(
            tree::with_child(m, n),
        ),
    decreases tree,
{
    let new = tree::with_child(m, n);
    let c = tree::changed(tree, q, new);
    let rest = tree.subrange(1, tree.len() as int);
    if tree[0].path == q {
    } else if tree[0].is_dir && tree::found(tree[0].children, q) is Some {
        lemma_changed_found(tree[0].children, q, m, n);
    } else {
        lemma_changed_found(rest, q, m, n);
        assert(c.subrange(1, c.len() as int) =~= tree::changed(rest, q, new));
    }
}

proof fn lemma_found_not_after(tree: Seq<NodeView>, p: Seq<char>, x: NodeView)
    requires
        none_after(tree, x),
        tree::found(tree, p) is Some,
    ensures
        <FileNode as Ranked>::le(tree::found(tree, p).unwrap(), x),
    decreases tree,
{
    let k = lemma_leader_exists(tree, p);
    tree::lemma_leads(tree, p, k, x);
    assert(<FileNode as Ranked>::le(tree[k], x));
    if tree[k].path != p {
        lemma_found_not_after(tree[k].children, p, x);
    }
}

/// What is found stays, whatever else is put into the tree.
proof fn lemma_found_stays(tree: Seq<NodeView>, n: NodeView, p: Seq<char>)
    requires
        n.children.len() == 0,
        n.path != p,
        tree::found(tree, p) is Some,
    ensures
        tree::found(tree::inserted(tree, n), p) is Some,
        grown(tree::found(tree, p).unwrap(), tree::found(tree::inserted(tree, n), p).unwrap()),
{
    lemma_found_push(tree, n, p);
    match paths::parent_of(n.path) {
        Some(d) => match tree::found(tree, d) {
            Some(m) if d.len() > 0 => {
                lemma_found_changed(tree, d, m, n, p);
            },
            _ => {},
        },
        None => {},
    }
}

/// A folder that was put into a tree of folders is found.
proof fn lemma_folder_found(tree: Seq<NodeView>, n: NodeView)
    requires
        n.children.len() == 0,
        n.is_dir,
        none_after(tree, n),
    ensures
        tree::found(tree::inserted(tree, n), n.path) is Some,
{
    lemma_found_push(tree, n, n.path);
    match paths::parent_of(n.path) {
        Some(d) => match tree::found(tree, d) {
            Some(m) if d.len() > 0 => {
                lemma_found_not_after(tree, d, n);
                lemma_child_found(tree, d, m, n);
            },
            _ => {},
        },
        None => {},
    }
}

/// After the first `k` nodes of `s` were put into a tree, folder `i` is found,
/// and node `j`, whose folder it is, lies in it.
proof fn lemma_nested_planted(s: Seq<NodeView>, k: int, i: int, j: int)
    requires
        sort::in_order::<FileNode>(s),
        all_bare(s),
        distinct_paths(s),
        0 <= i < j < s.len(),
        i < k <= s.len(),
        s[i].is_dir,
        s[i].path.len() > 0,
        paths::parent_of(s[j].path) == Some(s[i].path),
    ensures
        tree::found(tree::planted(Seq::empty(), s.take(k)), s[i].path) is Some,
        j < k ==> has_child(
            tree::found(tree::planted(Seq::empty(), s.take(k)), s[i].path).unwrap(),
            s[j].path,
        ),
    decreases k,
{
    let d = s[i].path;
    let n = s[k - 1];
    let before = s.take(k - 1);
    let tree = tree::planted(Seq::empty(), before);
    assert(s.take(k).drop_last() =~= before);
    assert(s.take(k).last() == n);
    if k - 1 == i {
        assert forall|a: int, b: int| 0 <= a <= b < before.len() implies <FileNode as Ranked>::le(
            #[trigger] before[a],
            #[trigger] before[b],
        ) by {
            assert(before[a] == s[a] && before[b] == s[b]);
        }
        assert(all_bare(before));
        lemma_orderly_planted(before);
        if before.len() > 0 {
            assert(<FileNode as Ranked>::le(s[k - 2], s[k - 1]));
            lemma_none_after_transitive(tree, before.last(), n);
        }
        lemma_folder_found(tree, n);
    } else {
        lemma_nested_planted(s, k - 1, i, j);
        assert(n.path != d);
        lemma_found_stays(tree, n, d);
        let a = tree::found(tree, d).unwrap();
        let b = tree::found(tree::inserted(tree, n), d).unwrap();
        if k - 1 == j {
            lemma_changed_found(tree, d, a, n);
            assert(b.children[b.children.len() - 1].path == s[j].path);
        } else if j < k {
            let c = choose|c: int| 0 <= c < a.children.len() && (#[trigger] a.children[c]).path
                == s[j].path;
            assert(b.children[c].path == s[j].path);
        }
    }
}

proof fn lemma_ranked_paths(flat: Seq<NodeView>)
    requires
        distinct_paths(flat),
    ensures
        distinct_paths(sort::ranked::<FileNode>(flat)),
{
    let r = sort::ranked::<FileNode>(flat);
    sort::ranked_keeps_every_item::<FileNode>(flat);
    flat.to_multiset_ensures();
    r.to_multiset_ensures();
    assert(flat.no_duplicates());
    flat.lemma_multiset_has_no_duplicates();
    r.lemma_multiset_has_no_duplicates_conv();
    assert forall|i: int, j: int|
        0 <= i < r.len() && 0 <= j < r.len() && i != j implies (#[trigger] r[i]).path != (
    #[trigger] r[j]).path by {
        assert(r.contains(r[i]) && r.contains(r[j]));
        assert(flat.to_multiset().count(r[i]) > 0);
        assert(flat.to_multiset().count(r[j]) > 0);
        let a = choose|a: int| 0 <= a < flat.len() && flat[a] == r[i];
        let b = choose|b: int| 0 <= b < flat.len() && flat[b] == r[j];
        if r[i].path == r[j].path {
            assert(flat[a].path == flat[b].path);
            assert(a == b);
            assert(r[i] == r[j]);
        }
    }
}

/// In the tree of a list without repeated paths, every entry whose folder is in
/// the list lies right in that folder.
pub proof fn entries_lie_in_their_folders(flat: Seq<NodeView>, a: int, b: int)
    requires
        all_bare(flat),
        distinct_paths(flat),
        0 <= a < flat.len(),
        0 <= b < flat.len(),
        flat[a].is_dir,
        flat[a].path.len() > 0,
        paths::parent_of(flat[b].path) == Some(flat[a].path),
    ensures
        tree::found(tree::built(flat), flat[a].path) is Some,
        has_child(tree::found(tree::built(flat), flat[a].path).unwrap(), flat[b].path),
{
    let r = sort::ranked::<FileNode>(flat);
    lemma_ranked_paths(flat);
    lemma_labels_ranked(flat);
    sort::ranked_is_in_order::<FileNode>(flat);
    sort::ranked_keeps_every_item::<FileNode>(flat);
    flat.to_multiset_ensures();
    r.to_multiset_ensures();
    assert(flat.contains(flat[a]) && flat.contains(flat[b]));
    assert(r.to_multiset().count(flat[a]) > 0);
    assert(r.to_multiset().count(flat[b]) > 0);
    let i = choose|i: int| 0 <= i < r.len() && r[i] == flat[a];
    let j = choose|j: int| 0 <= j < r.len() && r[j] == flat[b];
    paths::parent_comes_first(flat[b].path);
    text::prefix_comes_first(flat[b].path, flat[a].path.len() as int);
    if j <= i {
        assert(<FileNode as Ranked>::le(r[j], r[i]));
        text::text_le_antisymmetric(flat[a].path, flat[b].path);
    }
    lemma_nested_planted(r, r.len() as int, i, j);
    assert(r.take(r.len() as int) =~= r);
}

// ---------------------------------------------------------------------------
// No two entries share a place
// ---------------------------------------------------------------------------

/// At every depth, each node ranks before those behind it and after none.
pub open spec fn strictly_orderly(tree: Seq<NodeView>) -> bool
    decreases tree,
{
    &&& forall|i: int, j: int|
        0 <= i < j < tree.len() ==> <FileNode as Ranked>::le(#[trigger] tree[i], #[trigger] tree[j])
            && !<FileNode as Ranked>::le(tree[j], tree[i])
    &&& forall|i: int| 0 <= i < tree.len() ==> strictly_orderly((#[trigger] tree[i]).children)
}

/// No path is there twice.
spec fn one_each(all: Multiset<(Seq<char>, Seq<char>, bool)>) -> bool {
    &&& forall|x: (Seq<char>, Seq<char>, bool)| #[trigger] all.count(x) <= 1
    &&& forall|x: (Seq<char>, Seq<char>, bool), y: (Seq<char>, Seq<char>, bool)|
        all.count(x) > 0 && all.count(y) > 0 && x.1 == y.1 ==> x == y
}

proof fn lemma_labels_at(tree: Seq<NodeView>, i: int)
    requires
        0 <= i < tree.len(),
    ensures
        labels(tree).count(label(tree[i])) > 0,
        forall|x: (Seq<char>, Seq<char>, bool)|
            labels(tree[i].children).count(x) <= #[trigger] labels(tree).count(x),
    decreases tree.len(),
{
    if i > 0 {
        let t = tree.subrange(1, tree.len() as int);
        assert(t[i - 1] == tree[i]);
        lemma_labels_at(t, i - 1);
    }
}

proof fn lemma_labels_twice(tree: Seq<NodeView>, i: int, j: int)
    requires
        0 <= i < j < tree.len(),
        label(tree[i]) == label(tree[j]),
    ensures
        labels(tree).count(label(tree[i])) > 1,
    decreases tree.len(),
{
    let t = tree.subrange(1, tree.len() as int);
    assert(t[j - 1] == tree[j]);
    if i > 0 {
        assert(t[i - 1] == tree[i]);
        lemma_labels_twice(t, i - 1, j - 1);
    } else {
        lemma_labels_at(t, j - 1);
    }
}

proof fn lemma_strictly_orderly(tree: Seq<NodeView>)
    requires
        orderly(tree),
        one_each(labels(tree)),
    ensures
        strictly_orderly(tree),
    decreases tree,
{
    assert forall|i: int, j: int| 0 <= i < j < tree.len() implies <FileNode as Ranked>::le(
        #[trigger] tree[i],
        #[trigger] tree[j],
    ) && !<FileNode as Ranked>::le(tree[j], tree[i]) by {
        lemma_labels_at(tree, i);
        lemma_labels_at(tree, j);
        if <FileNode as Ranked>::le(tree[j], tree[i]) {
            assert(<FileNode as Ranked>::le(tree[i], tree[j]));
            text::text_le_antisymmetric(tree[i].path, tree[j].path);
            assert(label(tree[i]).1 == label(tree[j]).1);
            lemma_labels_twice(tree, i, j);
        }
    }
    assert forall|i: int| 0 <= i < tree.len() implies strictly_orderly(
        (#[trigger] tree[i]).children,
    ) by {
        lemma_labels_at(tree, i);
        let c = tree[i].children;
        assert forall|x: (Seq<char>, Seq<char>, bool)| #[trigger] labels(c).count(x) <= 1 by {
            assert(labels(tree).count(x) <= 1);
        }
        assert forall|x: (Seq<char>, Seq<char>, bool), y: (Seq<char>, Seq<char>, bool)|
            labels(c).count(x) > 0 && labels(c).count(y) > 0 && x.1 == y.1 implies x == y by {
            assert(labels(tree).count(x) > 0);
            assert(labels(tree).count(y) > 0);
        }
        lemma_strictly_orderly(c);
    }
}

/// In the tree of a list without repeated paths, the order is strict at every
/// depth.
pub proof fn distinct_paths_are_strictly_ordered(flat: Seq<NodeView>)
    requires
        all_bare(flat),
        distinct_paths(flat),
    ensures
        strictly_orderly(tree::built(flat)),
{
    let f = flat_labels(flat);
    a_tree_is_orderly(flat);
    a_tree_holds_every_entry_once(flat);
    f.to_multiset_ensures();
    assert forall|i: int, j: int| 0 <= i < f.len() && 0 <= j < f.len() && i != j implies f[i]
        != f[j] by {
        assert(flat[i].path != flat[j].path);
    }
    f.lemma_multiset_has_no_duplicates();
    assert forall|x: (Seq<char>, Seq<char>, bool)| #[trigger] f.to_multiset().count(x) <= 1 by {
        if f.to_multiset().count(x) > 0 {
            assert(f.to_multiset().contains(x));
        }
    }
    assert forall|x: (Seq<char>, Seq<char>, bool), y: (Seq<char>, Seq<char>, bool)|
        f.to_multiset().count(x) > 0 && f.to_multiset().count(y) > 0 && x.1 == y.1 implies x
        == y by {
        assert(f.contains(x) && f.contains(y));
        let i = choose|i: int| 0 <= i < f.len() && f[i] == x;
        let j = choose|j: int| 0 <= j < f.len() && f[j] == y;
        assert(flat[i].path == flat[j].path);
    }
    lemma_strictly_orderly(tree::built(flat));
}

/// At every depth, each folder stands before every note, and of two folders or
/// two notes the one whose path comes first in the order of texts.
pub open spec fn well_ordered(tree: Seq<NodeView>) -> bool
    decreases tree,
{
    &&& forall|i: int, j: int|
        0 <= i < j < tree.len() ==> ((#[trigger] tree[i]).is_dir || !(#[trigger] tree[j]).is_dir)
            && (tree[i].is_dir == tree[j].is_dir ==> text::text_lt(tree[i].path, tree[j].path))
    &&& forall|i: int| 0 <= i < tree.len() ==> well_ordered((#[trigger] tree[i]).children)
}

proof fn lemma_well_ordered(tree: Seq<NodeView>)
    requires
        strictly_orderly(tree),
    ensures
        well_ordered(tree),
    decreases tree,
{
    assert forall|i: int, j: int| 0 <= i < j < tree.len() implies ((#[trigger] tree[i]).is_dir || !(
    #[trigger] tree[j]).is_dir) && (tree[i].is_dir == tree[j].is_dir ==> text::text_lt(
        tree[i].path,
        tree[j].path,
    )) by {
        assert(!<FileNode as Ranked>::le(tree[j], tree[i]));
    }
    assert forall|i: int| 0 <= i < tree.len() implies well_ordered((#[trigger] tree[i]).children) by {
        lemma_well_ordered(tree[i].children);
    }
}

/// In the tree of a list without repeated paths, folders stand before notes at
/// every depth, and each kind by path.
pub proof fn folders_stand_before_notes(flat: Seq<NodeView>)
    requires
        all_bare(flat),
        distinct_paths(flat),
    ensures
        well_ordered(tree::built(flat)),
{
    distinct_paths_are_strictly_ordered(flat);
    lemma_well_ordered(tree::built(flat));
}

/// A node is found wherever it stands: at the top, or in a folder, or in one
/// within it; and only there.
pub proof fn a_node_is_found_wherever_it_stands(tree: Seq<NodeView>, p: Seq<char>)
    ensures
        tree::found(tree, p) is Some <==> exists|i: int|
            0 <= i < tree.len() && ((#[trigger] tree[i]).path == p || (tree[i].is_dir
                && tree::found(tree[i].children, p) is Some)),
        tree::found(tree, p) matches Some(n) ==> n.path == p,
    decreases tree,
{
    if tree::found(tree, p) is Some {
        let k = lemma_leader_exists(tree, p);
        tree::lemma_leads(tree, p, k, tree[k]);
        assert(tree::holds(tree[k], p));
        if tree[k].path != p {
            a_node_is_found_wherever_it_stands(tree[k].children, p);
        }
    } else {
        assert forall|j: int| 0 <= j < tree.len() implies !tree::holds(#[trigger] tree[j], p) by {
            lemma_not_held(tree, p, j);
        }
    }
}

proof fn lemma_not_held(tree: Seq<NodeView>, p: Seq<char>, j: int)
    requires
        tree::found(tree, p) is None,
        0 <= j < tree.len(),
    ensures
        !tree::holds(tree[j], p),
    decreases tree.len(),
{
    if j > 0 {
        let t = tree.subrange(1, tree.len() as int);
        assert(t[j - 1] == tree[j]);
        lemma_not_held(t, p, j - 1);
    }
}

/// A node that is put into a tree goes behind all that lies in the folder that
/// its path names, or behind all at the top where there is no such folder.
pub proof fn a_node_goes_into_its_folder(tree: Seq<NodeView>, n: NodeView, d: Seq<char>)
    requires
        n.children.len() == 0,
        paths::parent_of(n.path) == Some(d),
    ensures
        d.len() == 0 || tree::found(tree, d) is None ==> tree::inserted(tree, n) == tree.push(n),
        d.len() > 0 && tree::found(tree, d) is Some ==> {
            let m = tree::found(tree, d)->0;
            tree::found(tree::inserted(tree, n), d) == Some(
                NodeView {
                    name: m.name,
                    path: m.path,
                    is_dir: m.is_dir,
                    children: m.children.push(n),
                },
            )
        },
{
    if d.len() > 0 && tree::found(tree, d) is Some {
        lemma_changed_found(tree, d, tree::found(tree, d)->0, n);
    }
}

/// The tree of a list without repeated paths does not depend on the order of
/// the list.
pub proof fn the_order_of_the_list_does_not_matter(f: Seq<NodeView>, g: Seq<NodeView>)
    requires
        distinct_paths(f),
        f.to_multiset() == g.to_multiset(),
    ensures
        tree::built(f) == tree::built(g),
{
    let a = sort::ranked::<FileNode>(f);
    let b = sort::ranked::<FileNode>(g);
    sort::ranked_is_in_order::<FileNode>(f);
    sort::ranked_is_in_order::<FileNode>(g);
    sort::ranked_keeps_every_item::<FileNode>(f);
    sort::ranked_keeps_every_item::<FileNode>(g);
    lemma_ranked_paths(f);
    assert forall|x: NodeView, y: NodeView|
        a.contains(x) && a.contains(y) && #[trigger] <FileNode as Ranked>::le(x, y)
            && #[trigger] <FileNode as Ranked>::le(y, x) implies x == y by {
        text::text_le_antisymmetric(x.path, y.path);
        let i = choose|i: int| 0 <= i < a.len() && a[i] == x;
        let j = choose|j: int| 0 <= j < a.len() && a[j] == y;
        if i != j {
            assert(a[i].path != a[j].path);
        }
    }
    sort::there_is_one_order_only::<FileNode>(a, b);
}

// ---------------------------------------------------------------------------
// What stands at the top, and what has nothing in it
// ---------------------------------------------------------------------------

/// One of the nodes at the top is `n`, perhaps with something in it.
pub open spec fn at_top(tree: Seq<NodeView>, n: NodeView) -> bool {
    exists|k: int| 0 <= k < tree.len() && label(#[trigger] tree[k]) == label(n)
}

/// The folder that the path names is not in the list.
pub open spec fn has_no_folder(flat: Seq<NodeView>, path: Seq<char>) -> bool {
    paths::parent_of(path) matches Some(d) ==> d.len() == 0 || forall|i: int|
        0 <= i < flat.len() ==> (#[trigger] flat[i]).path != d
}

/// At every depth, there is nothing in a note.
pub open spec fn notes_are_bare(tree: Seq<NodeView>) -> bool
    decreases tree,
{
    forall|i: int|
        0 <= i < tree.len() ==> ((#[trigger] tree[i]).is_dir || tree[i].children.len() == 0)
            && notes_are_bare(tree[i].children)
}

/// No path in the list leads through a note.
pub open spec fn no_way_through_notes(flat: Seq<NodeView>) -> bool {
    forall|i: int, j: int|
        0 <= i < flat.len() && 0 <= j < flat.len() && !(#[trigger] flat[i]).is_dir
            ==> paths::parent_of((#[trigger] flat[j]).path) != Some(flat[i].path)
}

proof fn lemma_found_label(tree: Seq<NodeView>, p: Seq<char>)
    requires
        tree::found(tree, p) is Some,
    ensures
        tree::found(tree, p)->0.path == p,
        labels(tree).count(label(tree::found(tree, p)->0)) > 0,
    decreases tree,
{
    let k = lemma_leader_exists(tree, p);
    tree::lemma_leads(tree, p, k, tree[k]);
    lemma_labels_at(tree, k);
    if tree[k].path != p {
        lemma_found_label(tree[k].children, p);
        let l = label(tree::found(tree, p)->0);
        assert(labels(tree[k].children).count(l) <= labels(tree).count(l));
    }
}

/// What is found among the nodes of a list that were put into a tree is one of
/// them.
proof fn lemma_found_in_list(s: Seq<NodeView>, p: Seq<char>) -> (i: int)
    requires
        all_bare(s),
        tree::found(tree::planted(Seq::empty(), s), p) is Some,
    ensures
        0 <= i < s.len(),
        s[i].path == p,
        label(s[i]) == label(tree::found(tree::planted(Seq::empty(), s), p)->0),
{
    let tree = tree::planted(Seq::empty(), s);
    lemma_found_label(tree, p);
    lemma_labels_planted(s);
    let l = label(tree::found(tree, p)->0);
    flat_labels(s).to_multiset_ensures();
    assert(flat_labels(s).contains(l));
    let i = choose|i: int| 0 <= i < flat_labels(s).len() && flat_labels(s)[i] == l;
    assert(flat_labels(s)[i] == label(s[i]));
    i
}

proof fn lemma_top_stays(tree: Seq<NodeView>, n: NodeView, x: NodeView)
    requires
        at_top(tree, x),
    ensures
        at_top(tree::inserted(tree, n), x),
{
    let k = choose|k: int| 0 <= k < tree.len() && label(#[trigger] tree[k]) == label(x);
    let r = tree::inserted(tree, n);
    match paths::parent_of(n.path) {
        Some(d) => match tree::found(tree, d) {
            Some(m) if d.len() > 0 => {
                let i = lemma_leader_exists(tree, d);
                tree::lemma_leads(tree, d, i, tree::with_child(m, n));
            },
            _ => {},
        },
        None => {},
    }
    assert(label(r[k]) == label(x));
}

proof fn lemma_top_planted(s: Seq<NodeView>, j: int, k: int)
    requires
        all_bare(s),
        0 <= j < k <= s.len(),
        has_no_folder(s, s[j].path),
    ensures
        at_top(tree::planted(Seq::empty(), s.take(k)), s[j]),
    decreases k,
{
    let before = s.take(k - 1);
    let tree = tree::planted(Seq::empty(), before);
    assert(s.take(k).drop_last() =~= before);
    assert(s.take(k).last() == s[k - 1]);
    if k - 1 == j {
        match paths::parent_of(s[j].path) {
            Some(d) => {
                if d.len() > 0 && tree::found(tree, d) is Some {
                    let i = lemma_found_in_list(before, d);
                    assert(s[i].path == d);
                }
            },
            None => {},
        }
        let r = tree::inserted(tree, s[j]);
        assert(r == tree.push(s[j]));
        assert(label(r[tree.len() as int]) == label(s[j]));
    } else {
        lemma_top_planted(s, j, k - 1);
        lemma_top_stays(tree, s[k - 1], s[j]);
    }
}

proof fn lemma_ranked_same(flat: Seq<NodeView>)
    ensures
        sort::ranked::<FileNode>(flat).len() == flat.len(),
        forall|x: NodeView|
            #[trigger] sort::ranked::<FileNode>(flat).contains(x) <==> flat.contains(x),
{
    let r = sort::ranked::<FileNode>(flat);
    sort::ranked_keeps_every_item::<FileNode>(flat);
    flat.to_multiset_ensures();
    r.to_multiset_ensures();
    assert forall|x: NodeView| #[trigger] r.contains(x) <==> flat.contains(x) by {
        assert(r.to_multiset().count(x) == flat.to_multiset().count(x));
    }
}

/// In the tree of a list, an entry whose folder is not in the list stands at
/// the top.
pub proof fn entries_without_folder_stand_at_the_top(flat: Seq<NodeView>, b: int)
    requires
        all_bare(flat),
        0 <= b < flat.len(),
        has_no_folder(flat, flat[b].path),
    ensures
        at_top(tree::built(flat), flat[b]),
{
    let r = sort::ranked::<FileNode>(flat);
    lemma_ranked_same(flat);
    lemma_labels_ranked(flat);
    assert(flat.contains(flat[b]));
    assert(r.contains(flat[b]));
    let j = choose|j: int| 0 <= j < r.len() && r[j] == flat[b];
    match paths::parent_of(flat[b].path) {
        Some(d) if d.len() > 0 => {
            assert forall|i: int| 0 <= i < r.len() implies (#[trigger] r[i]).path != d by {
                assert(r.contains(r[i]));
                assert(flat.contains(r[i]));
                let a = choose|a: int| 0 <= a < flat.len() && flat[a] == r[i];
                assert(flat[a].path != d);
            }
        },
        _ => {},
    }
    lemma_top_planted(r, j, r.len() as int);
    assert(r.take(r.len() as int) =~= r);
}

proof fn lemma_bare_changed(tree: Seq<NodeView>, p: Seq<char>, m: NodeView, n: NodeView)
    requires
        notes_are_bare(tree),
        n.children.len() == 0,
        tree::found(tree, p) == Some(m),
        m.is_dir,
    ensures
        notes_are_bare(tree::changed(tree, p, tree::with_child(m, n))),
    decreases tree,
{
    let new = tree::with_child(m, n);
    let c = tree::changed(tree, p, new);
    let k = lemma_leader_exists(tree, p);
    tree::lemma_leads(tree, p, k, new);
    if tree[k].path == p {
        assert(notes_are_bare(tree[k].children));
        lemma_bare_push(m.children, n);
    } else {
        lemma_bare_changed(tree[k].children, p, m, n);
    }
    assert forall|i: int| 0 <= i < c.len() implies ((#[trigger] c[i]).is_dir
        || c[i].children.len() == 0) && notes_are_bare(c[i].children) by {
        if i != k {
            assert(c[i] == tree[i]);
        }
    }
}

proof fn lemma_bare_push(tree: Seq<NodeView>, n: NodeView)
    requires
        notes_are_bare(tree),
        n.children.len() == 0,
    ensures
        notes_are_bare(tree.push(n)),
{
    let t = tree.push(n);
    assert forall|i: int| 0 <= i < t.len() implies ((#[trigger] t[i]).is_dir
        || t[i].children.len() == 0) && notes_are_bare(t[i].children) by {
        if i < tree.len() {
            assert(t[i] == tree[i]);
        }
    }
}

proof fn lemma_bare_planted(s: Seq<NodeView>)
    requires
        all_bare(s),
        no_way_through_notes(s),
    ensures
        notes_are_bare(tree::planted(Seq::empty(), s)),
    decreases s.len(),
{
    if s.len() > 0 {
        let t = s.drop_last();
        let n = s.last();
        let tree = tree::planted(Seq::empty(), t);
        assert(n == s[s.len() - 1]);
        lemma_bare_planted(t);
        lemma_bare_push(tree, n);
        match paths::parent_of(n.path) {
            Some(d) => match tree::found(tree, d) {
                Some(m) if d.len() > 0 => {
                    let i = lemma_found_in_list(t, d);
                    assert(s[i] == t[i]);
                    assert(s[i].is_dir);
                    lemma_bare_changed(tree, d, m, n);
                },
                _ => {},
            },
            None => {},
        }
    }
}

/// In the tree of a list in which no path leads through a note, there is
/// nothing in a note.
pub proof fn notes_have_nothing_in_them(flat: Seq<NodeView>)
    requires
        all_bare(flat),
        no_way_through_notes(flat),
    ensures
        notes_are_bare(tree::built(flat)),
{
    let r = sort::ranked::<FileNode>(flat);
    lemma_ranked_same(flat);
    lemma_labels_ranked(flat);
    assert forall|i: int, j: int|
        0 <= i < r.len() && 0 <= j < r.len() && !(#[trigger] r[i]).is_dir implies paths::parent_of(
        (#[trigger] r[j]).path,
    ) != Some(r[i].path) by {
        assert(r.contains(r[i]) && r.contains(r[j]));
        assert(flat.contains(r[i]) && flat.contains(r[j]));
        let a = choose|a: int| 0 <= a < flat.len() && flat[a] == r[i];
        let b = choose|b: int| 0 <= b < flat.len() && flat[b] == r[j];
        assert(!flat[a].is_dir);
        assert(paths::parent_of(flat[b].path) != Some(flat[a].path));
    }
    lemma_bare_planted(r);
}

// ---------------------------------------------------------------------------
// What the tree leaves out
// ---------------------------------------------------------------------------

/// Nothing that lies in a hidden folder stands in the tree, so nothing that
/// lies in the trash does.
pub proof fn hidden_folders_are_left_out(
    root: Seq<char>,
    e: FoundView,
    folder: Seq<char>,
    rest: Seq<char>,
)
    requires
        listing::is_hidden(folder),
        paths::below(e.path, root) == Some(folder + rest),
    ensures
        !tree::in_tree(root, e),
{
    assert((folder + rest)[0] == '.');
}

/// The nodes of those entries that stand in the tree of `root`, all of which
/// lie below it.
pub open spec fn shown_nodes(root: Seq<char>, es: Seq<FoundView>) -> Seq<NodeView>
    decreases es.len(),
{
    if es.len() == 0 {
        Seq::empty()
    } else if tree::in_tree(root, es.last()) {
        shown_nodes(root, es.drop_last()).push(
            tree::entry_node(es.last(), paths::below(es.last().path, root)->0),
        )
    } else {
        shown_nodes(root, es.drop_last())
    }
}

proof fn lemma_shown_nodes(root: Seq<char>, es: Seq<FoundView>)
    requires
        forall|i: int| 0 <= i < es.len() ==> paths::below((#[trigger] es[i]).path, root) is Some,
    ensures
        tree::tree_nodes(root, es) == Ok::<Seq<NodeView>, Seq<char>>(shown_nodes(root, es)),
        all_bare(shown_nodes(root, es)),
    decreases es.len(),
{
    if es.len() > 0 {
        let t = es.drop_last();
        assert forall|i: int| 0 <= i < t.len() implies paths::below(
            (#[trigger] t[i]).path,
            root,
        ) is Some by {
            assert(t[i] == es[i]);
        }
        lemma_shown_nodes(root, t);
        assert(paths::below(es[es.len() - 1].path, root) is Some);
        let a = shown_nodes(root, t);
        let b = shown_nodes(root, es);
        assert forall|i: int| 0 <= i < b.len() implies (#[trigger] b[i]).children.len() == 0 by {
            if i < a.len() {
                assert(b[i] == a[i]);
            }
        }
    }
}

/// A scan succeeds where everything that was listed lies below the root; its
/// tree then holds each entry that is not left out once, and no other, with
/// every level in order.
pub proof fn a_scan_shows_every_entry_once(root: Seq<char>, es: Seq<FoundView>)
    requires
        forall|i: int| 0 <= i < es.len() ==> paths::below((#[trigger] es[i]).path, root) is Some,
    ensures
        tree::scanned(root, ListingView::Entries(es)) matches Ok(t) && labels(t) == flat_labels(
            shown_nodes(root, es),
        ).to_multiset() && orderly(t),
{
    lemma_shown_nodes(root, es);
    a_tree_holds_every_entry_once(shown_nodes(root, es));
    a_tree_is_orderly(shown_nodes(root, es));
}

} // verus!
