//! What a walk through a directory tells, and which of it counts as a note.

use crate::text;
use crate::text::{chars_of, has_suffix};
use crate::text_laws;
use vstd::prelude::*;

verus! {

/// How deep below the root the tree, the search and the recent notes reach.
pub const MAX_DEPTH: usize = 10;

/// Larger notes are left out of the tree and of the search, in bytes.
pub const NOTE_LIMIT: u64 = 1_048_576;

/// One file or folder that a walk came upon.
pub struct Entry {
    /// Where it was found: the root of the walk, and the way from there.
    pub path: String,
    /// Its name, unless that is no text.
    pub name: Option<String>,
    pub is_dir: bool,
    pub is_file: bool,
    /// Its size in bytes, where that can be told.
    pub len: Option<u64>,
    /// When it changed, in milliseconds, where that can be told.
    pub mtime: Option<u64>,
    /// What stands in it, where it was read and is text.
    pub content: Option<String>,
}

/// What an [`Entry`] tells.
pub struct FoundView {
    pub path: Seq<char>,
    pub name: Option<Seq<char>>,
    pub is_dir: bool,
    pub is_file: bool,
    pub len: Option<u64>,
    pub mtime: Option<u64>,
    pub content: Option<Seq<char>>,
}

impl View for Entry {
    type V = FoundView;

    open spec fn view(&self) -> FoundView {
        FoundView {
            path: self.path@,
            name: text::opt_text(self.name),
            is_dir: self.is_dir,
            is_file: self.is_file,
            len: self.len,
            mtime: self.mtime,
            content: text::opt_text(self.content),
        }
    }
}

impl FoundView {
    /// The name, or `other` where it is no text.
    pub open spec fn name_or(self, other: Seq<char>) -> Seq<char> {
        match self.name {
            Some(n) => n,
            None => other,
        }
    }

    /// It is known to be larger than a note may be.
    pub open spec fn too_large(self) -> bool {
        self.len matches Some(n) && n > NOTE_LIMIT
    }
}

/// The name of something hidden.
pub open spec fn is_hidden(name: Seq<char>) -> bool {
    name.len() > 0 && name[0] == '.'
}

/// The name of a note.
pub open spec fn is_note(name: Seq<char>) -> bool {
    !is_hidden(name) && text::ends_in(name, ".md"@)
}

/// A piece of the path, or the whole, is the name of something hidden.
pub open spec fn lies_hidden(rel: Seq<char>) -> bool {
    exists|i: int| 0 <= i < rel.len() && #[trigger] rel[i] == '.' && (i == 0 || rel[i - 1] == '/')
}

/// How many pieces `rel` has.
pub open spec fn depth(rel: Seq<char>) -> nat
    decreases rel.len(),
{
    if rel.len() == 0 {
        1
    } else if rel.last() == '/' {
        depth(rel.drop_last()) + 1
    } else {
        depth(rel.drop_last())
    }
}

/// Whether `name` is the name of something hidden.
pub fn hidden(name: &str) -> (r: bool)
    ensures
        r == is_hidden(name@),
{
    let v = chars_of(name);
    v.len() > 0 && v[0] == '.'
}

/// Whether `name` is the name of a note.
pub fn note_name(name: &str) -> (r: bool)
    ensures
        r == is_note(name@),
{
    !hidden(name) && has_suffix(name, ".md")
}

/// Whether a piece of the path is the name of something hidden.
pub fn hidden_below(rel: &str) -> (r: bool)
    ensures
        r == lies_hidden(rel@),
{
    let v = chars_of(rel);
    let mut i: usize = 0;
    while i < v.len()
        invariant
            i <= v@.len(),
            v@ == rel@,
            forall|j: int| 0 <= j < i ==> !(#[trigger] v@[j] == '.' && (j == 0 || v@[j - 1] == '/')),
        decreases v@.len() - i,
    {
        if v[i] == '.' && (i == 0 || v[i - 1] == '/') {
            assert(rel@[i as int] == '.');
            return true;
        }
        i += 1;
    }
    false
}

/// Whether `rel` lies no deeper than [`MAX_DEPTH`].
pub fn within_reach(rel: &str) -> (r: bool)
    ensures
        r == (depth(rel@) <= MAX_DEPTH),
{
    let v = chars_of(rel);
    let mut slashes: usize = 0;
    let mut i: usize = 0;
    while i < v.len()
        invariant
            i <= v@.len(),
            v@ == rel@,
            slashes + 1 == depth(v@.take(i as int)),
            slashes <= i,
        decreases v@.len() - i,
    {
        assert(v@.take(i + 1).drop_last() =~= v@.take(i as int));
        if v[i] == '/' {
            slashes += 1;
        }
        i += 1;
    }
    assert(v@.take(i as int) =~= v@);
    slashes < MAX_DEPTH
}

impl Entry {
    /// The name, or `other` where it is no text.
    pub fn name_or(&self, other: &str) -> (r: String)
        ensures
            r@ == self@.name_or(other@),
    {
        match &self.name {
            Some(n) => n.clone(),
            None => other.to_owned(),
        }
    }

    /// Whether it is known to be larger than a note may be.
    pub fn too_large(&self) -> (r: bool)
        ensures
            r == self@.too_large(),
    {
        match self.len {
            Some(n) => n > NOTE_LIMIT,
            None => false,
        }
    }
}

// ---------------------------------------------------------------------------
// Laws
// ---------------------------------------------------------------------------

/// A name is hidden exactly where it begins with a dot.
pub proof fn hidden_names_begin_with_a_dot(rest: Seq<char>, c: char)
    ensures
        is_hidden(seq![c] + rest) <==> c == '.',
        !is_hidden(Seq::<char>::empty()),
{
    assert((seq![c] + rest)[0] == c);
}

/// A note is what is called `.md` at the end and does not begin with a dot.
pub proof fn notes_are_called_md(name: Seq<char>)
    ensures
        is_note(name) <==> name.len() > 0 && name[0] != '.' && exists|s: Seq<char>|
            #[trigger] (s + ".md"@) == name,
{
    reveal_strlit(".md");
    text_laws::the_end_is_what_comes_last(name, ".md"@);
}

/// What is larger than a mebibyte is too large, and nothing else; what is not
/// known to be is not.
pub proof fn notes_have_a_mebibyte_at_most(e: FoundView)
    ensures
        e.len matches Some(n) ==> (e.too_large() <==> n > 1048576),
        e.len is None ==> !e.too_large(),
{
}

/// A path has one piece more than it has slashes.
pub proof fn a_slash_begins_a_piece(a: Seq<char>, b: Seq<char>)
    ensures
        depth(a + seq!['/'] + b) == depth(a) + depth(b),
    decreases b.len(),
{
    let s = a + seq!['/'] + b;
    if b.len() == 0 {
        assert(s.last() == '/');
        assert(s.drop_last() =~= a);
    } else {
        assert(s.last() == b.last());
        assert(s.drop_last() =~= a + seq!['/'] + b.drop_last());
        a_slash_begins_a_piece(a, b.drop_last());
    }
}

/// Without a slash there is one piece.
pub proof fn a_name_is_one_piece(n: Seq<char>)
    requires
        !n.contains('/'),
    ensures
        depth(n) == 1,
    decreases n.len(),
{
    if n.len() > 0 {
        let t = n.drop_last();
        assert(n.contains(n.last()));
        assert forall|c: char| t.contains(c) implies n.contains(c) by {
            let k = choose|k: int| 0 <= k < t.len() && t[k] == c;
            assert(n[k] == c);
        }
        a_name_is_one_piece(t);
    }
}

/// Something lies hidden exactly where its path, or a piece of it, begins with a
/// dot.
pub proof fn to_lie_hidden_is_to_have_a_dotted_piece(rel: Seq<char>)
    ensures
        lies_hidden(rel) <==> (exists|b: Seq<char>| #[trigger] ("."@ + b) == rel) || (exists|
            a: Seq<char>,
            b: Seq<char>,
        | #[trigger]
            (a + "/."@ + b) == rel),
{
    reveal_strlit(".");
    reveal_strlit("/.");
    if lies_hidden(rel) {
        let i = choose|i: int|
            0 <= i < rel.len() && #[trigger] rel[i] == '.' && (i == 0 || rel[i - 1] == '/');
        if i == 0 {
            assert("."@ + rel.skip(1) =~= rel);
        } else {
            assert(rel.take(i - 1) + "/."@ + rel.skip(i + 1) =~= rel);
        }
    }
    if exists|b: Seq<char>| #[trigger] ("."@ + b) == rel {
        assert(rel[0] == '.');
    }
    if exists|a: Seq<char>, b: Seq<char>| #[trigger] (a + "/."@ + b) == rel {
        let (a, b) = choose|a: Seq<char>, b: Seq<char>| #[trigger]
            (a + "/."@ + b) == rel;
        assert(rel[a.len() as int] == '/');
        assert(rel[(a.len() + 1) as int] == '.');
    }
}

} // verus!
