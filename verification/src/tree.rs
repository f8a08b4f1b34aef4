//! The notes and folders of a directory as a tree.

use crate::listing;
use crate::listing::{hidden, hidden_below, within_reach, Entry, FoundView};
use crate::paths;
use crate::paths::{parent, strip_prefix};
use crate::sort;
use crate::sort::{sort, Ranked};
use crate::text;
use crate::text::{has_suffix, join2, not_after, same_text};
use vstd::prelude::*;

verus! {

/// A note, or a folder with what lies in it.
#[derive(Debug)]
pub struct FileNode {
    pub name: String,
    /// The path, seen from the root of the notes.
    pub path: String,
    pub is_dir: bool,
    pub children: Vec<FileNode>,
}

/// What a [`FileNode`] stands for.
pub struct NodeView {
    pub name: Seq<char>,
    pub path: Seq<char>,
    pub is_dir: bool,
    pub children: Seq<NodeView>,
}

/// What `n` stands for.
pub open spec fn node_view(n: FileNode) -> NodeView
    decreases n,
{
    NodeView {
        name: n.name@,
        path: n.path@,
        is_dir: n.is_dir,
        children: Seq::new(
            n.children@.len(),
            |i: int|
                if 0 <= i < n.children@.len() {
                    node_view(n.children@[i])
                } else {
                    arbitrary()
                },
        ),
    }
}

impl View for FileNode {
    type V = NodeView;

    open spec fn view(&self) -> NodeView {
        node_view(*self)
    }
}

/// The children of what a node stands for are what its children stand for.
pub proof fn node_view_children(n: FileNode)
    ensures
        n@.children == sort::views(n.children@),
{
    assert(n@.children =~= sort::views(n.children@));
}

impl Clone for FileNode {
    fn clone(&self) -> (r: Self)
        ensures
            r@ == self@,
        decreases *self,
    {
        let mut children: Vec<FileNode> = Vec::new();
        let mut i: usize = 0;
        while i < self.children.len()
            invariant
                i <= self.children@.len(),
                children@.len() == i,
                forall|j: int| 0 <= j < i ==> (#[trigger] children@[j])@ == self.children@[j]@,
            decreases self.children@.len() - i,
        {
            children.push(self.children[i].clone());
            i += 1;
        }
        let r = FileNode {
            name: self.name.clone(),
            path: self.path.clone(),
            is_dir: self.is_dir,
            children,
        };
        proof {
            node_view_children(r);
            node_view_children(*self);
            assert(sort::views(r.children@) =~= sort::views(self.children@));
        }
        r
    }
}

/// Folders come before notes; each kind is ordered by path.
impl Ranked for FileNode {
    open spec fn le(a: NodeView, b: NodeView) -> bool {
        if a.is_dir == b.is_dir {
            text::text_le(a.path, b.path)
        } else {
            a.is_dir
        }
    }

    proof fn le_total(a: NodeView, b: NodeView) {
        text::text_le_total(a.path, b.path);
    }

    proof fn le_transitive(a: NodeView, b: NodeView, c: NodeView) {
        if a.is_dir == b.is_dir && b.is_dir == c.is_dir {
            text::text_le_transitive(a.path, b.path, c.path);
        }
    }

    fn no_later(&self, other: &Self) -> (r: bool) {
        if self.is_dir == other.is_dir {
            not_after(self.path.as_str(), other.path.as_str())
        } else {
            self.is_dir
        }
    }
}

// ---------------------------------------------------------------------------
// Finding
// ---------------------------------------------------------------------------

/// The first node with the path `p`, where a folder comes before what lies in
/// it, and that before what follows the folder.
pub open spec fn found(tree: Seq<NodeView>, p: Seq<char>) -> Option<NodeView>
    decreases tree,
{
    if tree.len() == 0 {
        None
    } else if tree[0].path == p {
        Some(tree[0])
    } else if tree[0].is_dir && found(tree[0].children, p) is Some {
        found(tree[0].children, p)
    } else {
        found(tree.subrange(1, tree.len() as int), p)
    }
}

/// `tree` with `new` in place of the first node with the path `p`.
pub open spec fn changed(tree: Seq<NodeView>, p: Seq<char>, new: NodeView) -> Seq<NodeView>
    decreases tree,
{
    if tree.len() == 0 {
        tree
    } else if tree[0].path == p {
        tree.update(0, new)
    } else if tree[0].is_dir && found(tree[0].children, p) is Some {
        tree.update(
            0,
            NodeView { children: changed(tree[0].children, p, new), ..tree[0] },
        )
    } else {
        seq![tree[0]] + changed(tree.subrange(1, tree.len() as int), p, new)
    }
}

/// Node `i` of `tree` is the first that has the path `p` or holds it.
pub open spec fn leads(tree: Seq<NodeView>, p: Seq<char>, i: int) -> bool {
    &&& 0 <= i < tree.len()
    &&& forall|j: int| 0 <= j < i ==> !holds(#[trigger] tree[j], p)
    &&& holds(tree[i], p)
}

/// `n` has the path `p` or a node below it has.
pub open spec fn holds(n: NodeView, p: Seq<char>) -> bool {
    n.path == p || (n.is_dir && found(n.children, p) is Some)
}

pub proof fn lemma_leads(tree: Seq<NodeView>, p: Seq<char>, i: int, new: NodeView)
    requires
        leads(tree, p, i),
    ensures
        found(tree, p) == if tree[i].path == p {
            Some(tree[i])
        } else {
            found(tree[i].children, p)
        },
        changed(tree, p, new) == if tree[i].path == p {
            tree.update(i, new)
        } else {
            tree.update(i, NodeView { children: changed(tree[i].children, p, new), ..tree[i] })
        },
    decreases i,
{
    if i > 0 {
        assert(!holds(tree[0], p));
        let t = tree.subrange(1, tree.len() as int);
        assert forall|j: int| 0 <= j < i - 1 implies !holds(#[trigger] t[j], p) by {
            assert(t[j] == tree[j + 1]);
        }
        assert(t[i - 1] == tree[i]);
        lemma_leads(t, p, i - 1, new);
        let x = if tree[i].path == p {
            new
        } else {
            NodeView { children: changed(tree[i].children, p, new), ..tree[i] }
        };
        assert(seq![tree[0]] + t.update(i - 1, x) =~= tree.update(i, x));
    }
}

pub proof fn lemma_no_leader(tree: Seq<NodeView>, p: Seq<char>)
    requires
        forall|j: int| 0 <= j < tree.len() ==> !holds(#[trigger] tree[j], p),
    ensures
        found(tree, p) is None,
    decreases tree.len(),
{
    if tree.len() > 0 {
        assert(!holds(tree[0], p));
        let t = tree.subrange(1, tree.len() as int);
        assert forall|j: int| 0 <= j < t.len() implies !holds(#[trigger] t[j], p) by {
            assert(t[j] == tree[j + 1]);
        }
        lemma_no_leader(t, p);
    }
}

/// The position of the node that has the path `p` or holds it.
fn leader(tree: &[FileNode], path: &str) -> (r: Option<usize>)
    ensures
        match r {
            Some(i) => leads(sort::views(tree@), path@, i as int),
            None => found(sort::views(tree@), path@) is None,
        },
    decreases tree@,
{
    let ghost nodes = sort::views(tree@);
    let mut i: usize = 0;
    while i < tree.len()
        invariant
            i <= tree@.len(),
            nodes == sort::views(tree@),
            forall|j: int| 0 <= j < i ==> !holds(#[trigger] nodes[j], path@),
        decreases tree@.len() - i,
    {
        assert(nodes[i as int] == tree@[i as int]@);
        if same_text(tree[i].path.as_str(), path) {
            return Some(i);
        }
        if tree[i].is_dir {
            proof {
                node_view_children(tree@[i as int]);
            }
            if leader(tree[i].children.as_slice(), path).is_some() {
                proof {
                    let c = nodes[i as int].children;
                    let k = choose|k: int| leads(c, path@, k);
                    lemma_leads(c, path@, k, nodes[i as int]);
                    lemma_found_below(c, path@, k);
                }
                return Some(i);
            }
        }
        i += 1;
    }
    proof {
        lemma_no_leader(nodes, path@);
    }
    None
}

proof fn lemma_found_below(tree: Seq<NodeView>, p: Seq<char>, k: int)
    requires
        leads(tree, p, k),
    ensures
        found(tree, p) is Some,
{
    lemma_leads(tree, p, k, tree[k]);
}

/// The first node with the path `path`.
pub fn find_node_mut<'a>(tree: &'a mut [FileNode], path: &str) -> (r: Option<&'a mut FileNode>)
    ensures
        match r {
            Some(n) => {
                &&& found(sort::views(old(tree)@), path@) == Some((*n)@)
                &&& sort::views(final(tree)@) == changed(
                    sort::views(old(tree)@),
                    path@,
                    (*final(n))@,
                )
            },
            None => {
                &&& found(sort::views(old(tree)@), path@) is None
                &&& final(tree)@ == old(tree)@
            },
        },
    decreases old(tree)@,
{
    let ghost nodes = sort::views(tree@);
    match leader(tree, path) {
        Some(i) => {
            proof {
                assert(nodes[i as int] == tree@[i as int]@);
                assert forall|new: NodeView| #[trigger]
                    changed(nodes, path@, new) == if nodes[i as int].path == path@ {
                        nodes.update(i as int, new)
                    } else {
                        nodes.update(
                            i as int,
                            NodeView {
                                children: changed(nodes[i as int].children, path@, new),
                                ..nodes[i as int]
                            },
                        )
                    } by {
                    lemma_leads(nodes, path@, i as int, new);
                }
                lemma_leads(nodes, path@, i as int, nodes[i as int]);
                assert forall|n: FileNode| (#[trigger] n@).children == sort::views(n.children@) by {
                    node_view_children(n);
                }
                let whole = tree@;
                assert forall|n: FileNode| #[trigger]
                    sort::views(whole.update(i as int, n)) == nodes.update(i as int, n@) by {
                    assert(sort::views(whole.update(i as int, n)) =~= nodes.update(i as int, n@));
                }
            }
            if same_text(tree[i].path.as_str(), path) {
                Some(&mut tree[i])
            } else {
                find_node_mut(tree[i].children.as_mut_slice(), path)
            }
        },
        None => None,
    }
}

// ---------------------------------------------------------------------------
// Building
// ---------------------------------------------------------------------------

/// `m` with `n` as its last child.
pub open spec fn with_child(m: NodeView, n: NodeView) -> NodeView {
    NodeView { children: m.children.push(n), ..m }
}

/// `tree` with `n` in the folder that its path names, or at the root where the
/// tree has no such folder.
pub open spec fn inserted(tree: Seq<NodeView>, n: NodeView) -> Seq<NodeView> {
    match paths::parent_of(n.path) {
        Some(d) => match found(tree, d) {
            Some(m) if d.len() > 0 => changed(tree, d, with_child(m, n)),
            _ => tree.push(n),
        },
        None => tree.push(n),
    }
}

/// Puts `node` into the folder that its path names, or at the root where the
/// tree has no such folder.
pub fn insert_node(tree: &mut Vec<FileNode>, node: FileNode)
    ensures
        sort::views(final(tree)@) == inserted(sort::views(old(tree)@), node@),
{
    let ghost whole = tree@;
    let ghost nodes = sort::views(tree@);
    match parent(node.path.as_str()) {
        Some(d) => {
            if !d.as_str().is_empty() {
                match find_node_mut(tree.as_mut_slice(), d.as_str()) {
                    Some(m) => {
                        proof {
                            node_view_children(*m);
                        }
                        let ghost before = *m;
                        m.children.push(node);
                        proof {
                            node_view_children(*m);
                            assert(sort::views(m.children@) =~= sort::views(before.children@).push(
                                node@,
                            ));
                        }
                        return ;
                    },
                    None => {},
                }
            }
        },
        None => {},
    }
    tree.push(node);
    assert(sort::views(tree@) =~= nodes.push(node@));
}

/// `tree` with the nodes of `s` put into it one after the other.
pub open spec fn planted(tree: Seq<NodeView>, s: Seq<NodeView>) -> Seq<NodeView>
    decreases s.len(),
{
    if s.len() == 0 {
        tree
    } else {
        inserted(planted(tree, s.drop_last()), s.last())
    }
}

/// The tree of the nodes of `flat`: folders go in before notes, and each kind
/// by path.
pub open spec fn built(flat: Seq<NodeView>) -> Seq<NodeView> {
    planted(Seq::empty(), sort::ranked::<FileNode>(flat))
}

/// The tree of the nodes of `flat`.
pub fn build_tree(flat: Vec<FileNode>) -> (r: Vec<FileNode>)
    ensures
        sort::views(r@) == built(sort::views(flat@)),
{
    let sorted = sort(flat);
    let ghost all = sort::views(sorted@);
    let mut tree: Vec<FileNode> = Vec::new();
    let mut i: usize = 0;
    assert(sort::views(tree@) =~= Seq::empty());
    assert(all.take(0) =~= Seq::empty());
    while i < sorted.len()
        invariant
            i <= sorted@.len(),
            all == sort::views(sorted@),
            sort::views(tree@) == planted(Seq::empty(), all.take(i as int)),
        decreases sorted@.len() - i,
    {
        insert_node(&mut tree, sorted[i].clone());
        proof {
            let t = all.take(i + 1);
            assert(t.drop_last() =~= all.take(i as int));
            assert(t.last() == sorted@[i as int]@);
        }
        i += 1;
    }
    assert(all.take(i as int) =~= all);
    tree
}

// ---------------------------------------------------------------------------
// Scanning
// ---------------------------------------------------------------------------

/// What a walk through a directory came upon.
pub enum Listing {
    /// There is nothing at the path.
    Missing,
    /// There is something else than a directory at the path.
    NotADirectory,
    Entries(Vec<Entry>),
}

/// What a [`Listing`] tells.
pub enum ListingView {
    Missing,
    NotADirectory,
    Entries(Seq<FoundView>),
}

impl View for Listing {
    type V = ListingView;

    open spec fn view(&self) -> ListingView {
        match self {
            Listing::Missing => ListingView::Missing,
            Listing::NotADirectory => ListingView::NotADirectory,
            Listing::Entries(es) => ListingView::Entries(sort::views(es@)),
        }
    }
}

/// `e` stands in the tree of `root`: a folder or a note that is not too large,
/// that is not hidden and lies in nothing hidden, and that is within reach.
pub open spec fn in_tree(root: Seq<char>, e: FoundView) -> bool {
    let name = e.name_or("unknown"@);
    &&& !listing::is_hidden(name)
    &&& e.is_dir || (text::ends_in(name, ".md"@) && !e.too_large())
    &&& paths::below(e.path, root) matches Some(rel) ==> !listing::lies_hidden(rel)
        && listing::depth(rel) <= listing::MAX_DEPTH
}

/// The node of `e`, which lies at `rel`.
pub open spec fn entry_node(e: FoundView, rel: Seq<char>) -> NodeView {
    NodeView {
        name: e.name_or("unknown"@),
        path: rel,
        is_dir: e.is_dir,
        children: Seq::empty(),
    }
}

/// The nodes of those entries that stand in the tree. A walk comes upon nothing
/// that is not below `root`; that would be an error.
pub open spec fn tree_nodes(root: Seq<char>, es: Seq<FoundView>) -> Result<
    Seq<NodeView>,
    Seq<char>,
>
    decreases es.len(),
{
    if es.len() == 0 {
        Ok(Seq::empty())
    } else {
        match tree_nodes(root, es.drop_last()) {
            Err(e) => Err(e),
            Ok(nodes) => if !in_tree(root, es.last()) {
                Ok(nodes)
            } else {
                match paths::below(es.last().path, root) {
                    Some(rel) => Ok(nodes.push(entry_node(es.last(), rel))),
                    None => Err("prefix not found"@),
                }
            },
        }
    }
}

/// The tree of the directory `path`.
pub open spec fn scanned(path: Seq<char>, listing: ListingView) -> Result<
    Seq<NodeView>,
    Seq<char>,
> {
    match listing {
        ListingView::Missing => Err("Directory does not exist: "@ + path),
        ListingView::NotADirectory => Err("Path is not a directory: "@ + path),
        ListingView::Entries(es) => match tree_nodes(path, es) {
            Ok(nodes) => Ok(built(nodes)),
            Err(e) => Err(e),
        },
    }
}

/// Whether `e`, which lies at `rel`, stands in the tree.
fn shown(root: &str, e: &Entry, rel: &Option<String>) -> (r: bool)
    requires
        paths::below(e.path@, root@) == text::opt_text(*rel),
    ensures
        r == in_tree(root@, e@),
{
    let name = e.name_or("unknown");
    if hidden(name.as_str()) {
        return false;
    }
    if !e.is_dir && (!has_suffix(name.as_str(), ".md") || e.too_large()) {
        return false;
    }
    match rel {
        Some(p) => !hidden_below(p.as_str()) && within_reach(p.as_str()),
        None => true,
    }
}

/// The tree of the directory `path`, given what a walk through it came upon.
pub fn scan_directory(path: &str, listing: &Listing) -> (r: Result<Vec<FileNode>, String>)
    ensures
        match r {
            Ok(t) => scanned(path@, listing@) == Ok::<Seq<NodeView>, Seq<char>>(sort::views(t@)),
            Err(e) => scanned(path@, listing@) == Err::<Seq<NodeView>, Seq<char>>(e@),
        },
{
    let es = match listing {
        Listing::Missing => {
            return Err(join2("Directory does not exist: ", path));
        },
        Listing::NotADirectory => {
            return Err(join2("Path is not a directory: ", path));
        },
        Listing::Entries(es) => es,
    };
    let ghost all = sort::views(es@);
    let mut nodes: Vec<FileNode> = Vec::new();
    let mut i: usize = 0;
    assert(all.take(0) =~= Seq::empty());
    assert(sort::views(nodes@) =~= Seq::empty());
    while i < es.len()
        invariant
            i <= es@.len(),
            all == sort::views(es@),
            listing@ == ListingView::Entries(all),
            tree_nodes(path@, all.take(i as int)) == Ok::<Seq<NodeView>, Seq<char>>(
                sort::views(nodes@),
            ),
        decreases es@.len() - i,
    {
        let e = &es[i];
        let rel = strip_prefix(e.path.as_str(), path);
        proof {
            let t = all.take(i + 1);
            assert(t.drop_last() =~= all.take(i as int));
            assert(t.last() == e@);
        }
        if shown(path, e, &rel) {
            match rel {
                Some(p) => {
                    let ghost before = nodes@;
                    let n = FileNode {
                        name: e.name_or("unknown"),
                        path: p,
                        is_dir: e.is_dir,
                        children: Vec::new(),
                    };
                    proof {
                        node_view_children(n);
                        assert(sort::views(n.children@) =~= Seq::empty());
                    }
                    nodes.push(n);
                    assert(sort::views(nodes@) =~= sort::views(before).push(n@));
                },
                None => {
                    proof {
                        lemma_first_error(path@, all, i + 1);
                    }
                    return Err("prefix not found".to_owned());
                },
            }
        }
        i += 1;
    }
    assert(all.take(i as int) =~= all);
    Ok(build_tree(nodes))
}

proof fn lemma_first_error(root: Seq<char>, es: Seq<FoundView>, n: int)
    requires
        0 <= n <= es.len(),
        tree_nodes(root, es.take(n)) is Err,
    ensures
        tree_nodes(root, es) == tree_nodes(root, es.take(n)),
    decreases es.len() - n,
{
    if n < es.len() {
        assert(es.take(n + 1).drop_last() =~= es.take(n));
        lemma_first_error(root, es, n + 1);
    } else {
        assert(es.take(n) =~= es);
    }
}

} // verus!
