//! What holds of the trash.

use crate::clock;
use crate::paths;
use crate::steps::{AnswerView, FileStepView};
use crate::text;
use crate::trash;
use crate::trash::{RestoreView, TrashView};
use vstd::prelude::*;

verus! {

// ---------------------------------------------------------------------------
// Nothing is overwritten
// ---------------------------------------------------------------------------

/// Something is moved into the trash only under a name that was just found to
/// be free.
pub proof fn trashing_overwrites_nothing(s: TrashView, answer: AnswerView)
    requires
        s.accepts(answer),
        s.after(answer).stage is Moving,
    ensures
        s.pending() == (FileStepView::Probe { path: s.after(answer).names.name() }),
        answer == AnswerView::Exists(false),
{
}

/// Something is brought back only to a place that was just found to be free.
pub proof fn restoring_overwrites_nothing(s: RestoreView, answer: AnswerView)
    requires
        s.accepts(answer),
        s.after(answer).stage is Moving,
    ensures
        s.pending() == (FileStepView::Probe { path: s.dest }),
        answer == AnswerView::Exists(false),
{
}

// ---------------------------------------------------------------------------
// What goes into the trash comes back
// ---------------------------------------------------------------------------

/// A path on one level, with escapes, tells the path.
pub proof fn unflattening_undoes_flattening(rel: Seq<char>)
    ensures
        trash::unflattened(trash::flattened(rel)) == rel,
    decreases rel.len(),
{
    let s = trash::flattened(rel);
    if rel.len() > 0 {
        let rest = rel.skip(1);
        let c = trash::flat_char(rel);
        let n = c.len() as int;
        let t = trash::flattened(rest);
        unflattening_undoes_flattening(rest);
        assert(s.skip(n) =~= t);
        assert(s[0] == c[0]);
        if n > 1 {
            assert(s[1] == c[1]);
        } else if rel[0] == '_' && s.len() > 1 {
            assert(s[1] == t[0]);
            assert(rest[0] == rel[1]);
            assert(t[0] == trash::flat_char(rest)[0]);
        }
        if n > 2 {
            assert(s[2] == c[2]);
        }
        assert(trash::unflattened(s) == seq![rel[0]] + trash::unflattened(t));
        assert(seq![rel[0]] + rest =~= rel);
    } else {
        assert(trash::unflattened(s) =~= rel);
    }
}

pub(crate) proof fn lemma_dash_at(s: Seq<char>, k: int)
    requires
        0 <= k < s.len(),
        s[k] == '-',
        forall|i: int| 0 <= i < k ==> #[trigger] s[i] != '-',
    ensures
        trash::first_dash(s) == Some(k),
{
    reveal_strlit("-");
    text::first_occurrence_is_first(s, "-"@);
    assert(s.subrange(k, k + 1) =~= "-"@);
    assert(text::occurs_at(s, "-"@, k));
    let f = text::first_occurrence(s, "-"@)->0;
    assert(s.subrange(f, f + 1)[0] == s[f]);
    if f < k {
        assert(s[f] != '-');
    }
}

proof fn lemma_no_slash(rel: Seq<char>)
    ensures
        !trash::flattened(rel).contains('/'),
    decreases rel.len(),
{
    if rel.len() > 0 {
        let f = trash::flattened(rel);
        let c = trash::flat_char(rel);
        let g = trash::flattened(rel.skip(1));
        lemma_no_slash(rel.skip(1));
        assert forall|k: int| 0 <= k < f.len() implies f[k] != '/' by {
            if k >= c.len() {
                assert(f[k] == g[k - c.len()]);
                assert(g.contains(g[k - c.len()]));
            } else {
                assert(f[k] == c[k]);
            }
        }
    }
}

proof fn lemma_no_slash_leveled(rel: Seq<char>)
    ensures
        !trash::leveled(rel).contains('/'),
    decreases rel.len(),
{
    reveal_strlit("/");
    reveal_strlit("__");
    if rel.len() > 0 {
        let f = trash::leveled(rel);
        let t = rel.skip(1);
        let g = trash::leveled(t);
        let c = if rel[0] == '/' {
            "__"@
        } else {
            seq![rel[0]]
        };
        lemma_no_slash_leveled(t);
        assert(rel.subrange(0, 1) =~= seq![rel[0]]);
        assert("/"@ =~= seq!['/']);
        assert(f == c + g) by {
            if rel[0] == '/' {
                assert(text::occurs_at(rel, "/"@, 0));
            } else {
                assert(rel.subrange(0, 1)[0] != "/"@[0]);
            }
        }
        assert forall|k: int| 0 <= k < f.len() implies f[k] != '/' by {
            if k >= c.len() {
                assert(f[k] == g[k - c.len()]);
                assert(g.contains(g[k - c.len()]));
            } else {
                assert(f[k] == c[k]);
            }
        }
    } else {
        assert(trash::leveled(rel) =~= Seq::empty());
    }
}

/// What stands between the time of day and the path in a name that was tried:
/// nothing, or a number.
pub open spec fn is_number(s: Seq<char>) -> bool {
    s.len() == 0 || (s[0] == '.' && forall|i: int|
        1 <= i < s.len() ==> clock::is_digit(#[trigger] s[i]))
}

/// The name of what is moved into the trash tells where it lay, whatever its
/// path, also with a number behind the time.
pub proof fn the_name_tells_the_origin(rel: Seq<char>, stamp: Seq<char>, number: Seq<char>)
    requires
        clock::is_stamp(stamp),
        is_number(number),
    ensures
        trash::origin(stamp + number + trash::trash_tail(rel)) == Some(rel),
{
    reveal_strlit("-");
    reveal_strlit("%-");
    let tail = trash::trash_tail(rel);
    let plain = trash::is_recognisable(rel);
    let flat = if plain {
        trash::leveled(rel)
    } else {
        trash::flattened(rel)
    };
    let name = stamp + number + tail;
    let i = stamp.len() - 7;
    let j = 6 + number.len() + if plain {
        0int
    } else {
        1int
    };
    assert forall|k: int| 0 <= k < i implies #[trigger] name[k] != '-' by {
        assert(name[k] == stamp[k]);
        assert(clock::is_digit(stamp[k]) || stamp[k] == '+');
    }
    assert(name[i] == stamp[i]);
    lemma_dash_at(name, i);
    let rest = name.skip(i + 1);
    assert(name[i + 1 + j] == '-') by {
        assert(name[i + 1 + j] == tail[i + 1 + j - stamp.len() - number.len()]);
    }
    assert(rest[j] == '-');
    assert forall|k: int| 0 <= k < j implies #[trigger] rest[k] != '-' by {
        assert(rest[k] == name[i + 1 + k]);
        if k < 6 {
            assert(rest[k] == stamp[i + 1 + k]);
            assert(clock::is_digit(stamp[i + 1 + k]) || stamp[i + 1 + k] == '+');
        } else if k < 6 + number.len() {
            assert(rest[k] == number[k - 6]);
            assert(k > 6 ==> clock::is_digit(number[k - 6]));
        } else {
            assert(rest[k] == tail[0]);
        }
    }
    lemma_dash_at(rest, j);
    assert(name.skip(i + j + 2) =~= flat);
    if plain {
        if number.len() == 0 {
            assert(name[i + j] == stamp[i + j]);
            assert(clock::is_digit(stamp[i + j]) || stamp[i + j] == '+');
        } else {
            let k = number.len() - 1;
            assert(name[i + j] == number[k]);
            assert(k > 0 ==> clock::is_digit(number[k]));
        }
    } else {
        assert(name[i + j] == tail[0]);
        unflattening_undoes_flattening(rel);
    }
}

/// What was moved into the trash, under whichever of the names tried, goes back
/// to where it lay.
pub proof fn restoring_undoes_trashing(root: Seq<char>, rel: Seq<char>, stamp: Seq<char>, k: int)
    requires
        clock::is_stamp(stamp),
        0 <= k,
    ensures
        trash::restore_place(root, trash::trash_names(root, rel, stamp).nth(k)) == Ok::<
            Seq<char>,
            Seq<char>,
        >(trash::trashing(root, rel, stamp).source),
{
    reveal_strlit("-");
    reveal_strlit("%-");
    reveal_strlit(".");
    let dir = trash::trash_dir(root);
    let tail = trash::trash_tail(rel);
    let digits = text::decimal(k as nat);
    let number = if k == 0 {
        Seq::<char>::empty()
    } else {
        "."@ + digits
    };
    let name = stamp + number + tail;
    text::decimal_is_not_empty(k as nat);
    assert forall|i: int| 1 <= i < number.len() implies clock::is_digit(#[trigger] number[i]) by {
        assert(number[i] == digits[i - 1]);
        text::decimal_has_digits(k as nat, i - 1);
    }
    lemma_no_slash(rel);
    lemma_no_slash_leveled(rel);
    let plain = trash::is_recognisable(rel);
    let flat = if plain {
        trash::leveled(rel)
    } else {
        trash::flattened(rel)
    };
    assert forall|i: int| 0 <= i < name.len() implies name[i] != '/' by {
        let m = stamp.len() + number.len();
        if i < stamp.len() {
            assert(name[i] == stamp[i]);
            if i != stamp.len() - 7 {
                assert(clock::is_digit(stamp[i]) || stamp[i] == '+');
            }
        } else if i < m {
            assert(name[i] == number[i - stamp.len()]);
            assert(i > stamp.len() ==> clock::is_digit(number[i - stamp.len()]));
        } else {
            let h = tail.len() - flat.len();
            assert(name[i] == tail[i - m]);
            if i - m >= h {
                assert(tail[i - m] == flat[i - m - h]);
                assert(flat.contains(flat[i - m - h]));
            }
        }
    }
    assert(!name.contains('/'));
    assert(name.len() > 15);
    let path = trash::trash_names(root, rel, stamp).nth(k);
    assert(name[0] == stamp[0]);
    assert(clock::is_digit(stamp[0]) || stamp[0] == '+');
    assert(path =~= paths::joined(dir, name)) by {
        assert((stamp + tail)[0] == stamp[0]);
        assert((stamp + "."@)[0] == stamp[0]);
        if k == 0 {
            assert(name =~= stamp + tail);
        } else {
            assert(name =~= stamp + "."@ + digits + tail);
        }
    }
    paths::names_stay_in_their_directory(dir, name);
    the_name_tells_the_origin(rel, stamp, number);
}

} // verus!
