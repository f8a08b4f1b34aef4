//! The files that a sync finds below the root of the notes.

use crate::listing;
use crate::listing::{hidden, Entry, FoundView};
use crate::pathmap::{PathMap, Shelf};
use crate::paths;
use crate::paths::{file_name, strip_prefix};
use crate::sort;
use vstd::prelude::*;

verus! {

/// Where `e` lies and when it changed, if it takes part in a sync: it is a file
/// and not hidden. A time that cannot be told counts as 0.
pub open spec fn sync_note(root: Seq<char>, e: FoundView) -> Option<(Seq<char>, u64)> {
    match paths::below(e.path, root) {
        Some(rel) => if e.is_file && !(paths::file_name_of(e.path) matches Some(n)
            && listing::is_hidden(n)) {
            Some(
                (
                    rel,
                    match e.mtime {
                        Some(ms) => ms,
                        None => 0,
                    },
                ),
            )
        } else {
            None
        },
        None => None,
    }
}

/// Those of the first `n` entries that take part in a sync.
pub open spec fn sync_notes(root: Seq<char>, es: Seq<FoundView>, n: int) -> Shelf<u64>
    decreases n,
{
    if n <= 0 {
        Shelf::empty()
    } else {
        match sync_note(root, es[n - 1]) {
            Some((rel, ms)) => sync_notes(root, es, n - 1).set(rel, ms),
            None => sync_notes(root, es, n - 1),
        }
    }
}

/// The files below `root` that take part in a sync, with the times they
/// changed; none where there is no such directory. `listed` is what a walk
/// through it came upon.
pub fn scan_local_dir(root: &str, listed: Option<&Vec<Entry>>) -> (r: PathMap<u64>)
    ensures
        r.wf(),
        r@ == match listed {
            Some(es) => sync_notes(root@, sort::views(es@), es@.len() as int),
            None => Shelf::empty(),
        },
{
    let mut notes: PathMap<u64> = PathMap::new();
    match listed {
        Some(es) => {
            let ghost all = sort::views(es@);
            let mut i: usize = 0;
            while i < es.len()
                invariant
                    i <= es@.len(),
                    all == sort::views(es@),
                    notes.wf(),
                    notes@ == sync_notes(root@, all, i as int),
                decreases es@.len() - i,
            {
                let e = &es[i];
                assert(all[i as int] == e@);
                let is_hidden = match file_name(e.path.as_str()) {
                    Some(n) => hidden(n.as_str()),
                    None => false,
                };
                if e.is_file && !is_hidden {
                    match strip_prefix(e.path.as_str(), root) {
                        Some(rel) => {
                            let ms: u64 = match e.mtime {
                                Some(ms) => ms,
                                None => 0,
                            };
                            notes.insert(rel, ms);
                        },
                        None => {},
                    }
                }
                i += 1;
            }
        },
        None => {},
    }
    notes
}

} // verus!
