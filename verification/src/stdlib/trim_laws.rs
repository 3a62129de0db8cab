//! Trimming: what is left of a text, and that trimming it again changes nothing.
use vstd::prelude::*;

use super::string_funcs::{arg_or_focus, collapsed_spaces, trim_spec};
use crate::text::{space_run, space_tail, trimmed, white_space};
use crate::value::Val;

verus! {

/// The words of a text: its longest stretches without white space, in order.
pub open spec fn words_in(s: Seq<char>) -> Seq<Seq<char>>
    decreases s.len(),
{
    if s.len() == 0 {
        Seq::empty()
    } else {
        let before = words_in(s.drop_last());
        if white_space(s.last()) {
            before
        } else if s.len() >= 2 && !white_space(s[s.len() - 2]) {
            before.drop_last().push(before.last().push(s.last()))
        } else {
            before.push(seq![s.last()])
        }
    }
}

/// Whether the white space of a text is single spaces.
pub open spec fn single_spaced(s: Seq<char>) -> bool {
    &&& forall|i: int| 0 <= i < s.len() && white_space(#[trigger] s[i]) ==> s[i] == ' '
    &&& forall|i: int, j: int|
        0 <= i < s.len() && j == i + 1 && j < s.len() ==> !(white_space(#[trigger] s[i]) && white_space(#[trigger] s[j]))
}

/// Whether a text neither begins nor ends with white space.
pub open spec fn bare_ends(s: Seq<char>) -> bool {
    s.len() > 0 ==> !white_space(s[0]) && !white_space(s.last())
}

spec fn all_white(s: Seq<char>) -> bool {
    forall|i: int| 0 <= i < s.len() ==> white_space(#[trigger] s[i])
}

/// What becomes of a text whose white space is made single spaces.
proof fn lemma_collapsed(s: Seq<char>)
    ensures
        ({
            let c = collapsed_spaces(s);
            &&& s.len() == 0 <==> c.len() == 0
            &&& s.len() > 0 ==> white_space(c.last()) == white_space(s.last())
            &&& s.len() > 0 && !white_space(s[0]) ==> c[0] == s[0]
            &&& single_spaced(c)
            &&& words_in(c) == words_in(s)
        }),
    decreases s.len(),
{
    if s.len() > 0 {
        let p = s.drop_last();
        let x = s.last();
        lemma_collapsed(p);
        let before = collapsed_spaces(p);
        let c = collapsed_spaces(s);
        if p.len() > 0 {
            assert(p.last() == s[s.len() - 2]);
            assert(p[0] == s[0]);
        }
        if c != before {
            assert(c.drop_last() =~= before);
            if before.len() > 0 {
                assert(c[c.len() - 2] == before.last());
                assert(c[0] == before[0]);
            }
            assert forall|i: int, j: int| 0 <= i < c.len() && j == i + 1 && j < c.len() implies !(white_space(
                #[trigger] c[i],
            ) && white_space(#[trigger] c[j])) by {
                assert(c[i] == before[i]);
                if j < before.len() {
                    assert(c[j] == before[j]);
                }
            }
            assert forall|i: int| 0 <= i < c.len() && white_space(#[trigger] c[i]) implies c[i] == ' ' by {
                if i < before.len() {
                    assert(c[i] == before[i]);
                }
            }
        }
    }
}

/// White space before a text is no word.
proof fn lemma_white_before(w: Seq<char>, s: Seq<char>)
    requires
        all_white(w),
    ensures
        words_in(w + s) == words_in(s),
    decreases w.len() + s.len(),
{
    let t = w + s;
    if s.len() > 0 {
        assert(t.drop_last() =~= w + s.drop_last());
        lemma_white_before(w, s.drop_last());
        assert(t.last() == s.last());
        if s.len() >= 2 {
            assert(t[t.len() - 2] == s[s.len() - 2]);
        } else if w.len() > 0 {
            assert(t[t.len() - 2] == w[w.len() - 1]);
        }
    } else if w.len() > 0 {
        assert(t =~= w);
        assert(white_space(w[w.len() - 1]));
        assert(w.drop_last() + s =~= w.drop_last());
        lemma_white_before(w.drop_last(), s);
    } else {
        assert(t =~= s);
    }
}

/// White space behind a text is no word.
proof fn lemma_white_behind(s: Seq<char>, w: Seq<char>)
    requires
        all_white(w),
    ensures
        words_in(s + w) == words_in(s),
    decreases w.len(),
{
    let t = s + w;
    if w.len() > 0 {
        assert(t.drop_last() =~= s + w.drop_last());
        assert(t.last() == w[w.len() - 1]);
        lemma_white_behind(s, w.drop_last());
    } else {
        assert(t =~= s);
    }
}

proof fn lemma_space_run(s: Seq<char>, from: int)
    requires
        0 <= from <= s.len(),
    ensures
        from <= space_run(s, from) <= s.len(),
        forall|i: int| from <= i < space_run(s, from) ==> white_space(#[trigger] s[i]),
        space_run(s, from) < s.len() ==> !white_space(s[space_run(s, from)]),
    decreases s.len() - from,
{
    if from < s.len() && white_space(s[from]) {
        lemma_space_run(s, from + 1);
    }
}

proof fn lemma_space_tail(s: Seq<char>, to: int)
    requires
        0 <= to <= s.len(),
    ensures
        0 <= space_tail(s, to) <= to,
        forall|i: int| space_tail(s, to) <= i < to ==> white_space(#[trigger] s[i]),
        space_tail(s, to) > 0 ==> !white_space(s[space_tail(s, to) - 1]),
    decreases to,
{
    if to > 0 && white_space(s[to - 1]) {
        lemma_space_tail(s, to - 1);
    }
}

/// What becomes of a text without the white space at its ends.
proof fn lemma_trimmed(s: Seq<char>)
    ensures
        bare_ends(trimmed(s)),
        words_in(trimmed(s)) == words_in(s),
{
    let n = s.len() as int;
    let (a, b) = (space_run(s, 0), space_tail(s, n));
    lemma_space_run(s, 0);
    lemma_space_tail(s, n);
    let t = trimmed(s);
    if a >= b {
        assert forall|i: int| 0 <= i < n implies white_space(#[trigger] s[i]) by {
            if i >= a {
                assert(i >= b);
            }
        }
        lemma_white_before(s, Seq::empty());
        assert(s + Seq::<char>::empty() =~= s);
    } else {
        let (w, v) = (s.take(a), s.skip(b));
        assert(t[0] == s[a] && t.last() == s[b - 1]);
        assert(s =~= w + (t + v));
        lemma_white_before(w, t + v);
        lemma_white_behind(t, v);
    }
}

/// A text that is trimmed stays as it is.
proof fn lemma_stays(s: Seq<char>)
    requires
        single_spaced(s),
    ensures
        collapsed_spaces(s) == s,
    decreases s.len(),
{
    if s.len() > 0 {
        let p = s.drop_last();
        assert forall|i: int, j: int| 0 <= i < p.len() && j == i + 1 && j < p.len() implies !(white_space(
            #[trigger] p[i],
        ) && white_space(#[trigger] p[j])) by {
            assert(p[i] == s[i] && p[j] == s[j]);
        }
        assert forall|i: int| 0 <= i < p.len() && white_space(#[trigger] p[i]) implies p[i] == ' ' by {
            assert(p[i] == s[i]);
        }
        lemma_stays(p);
        assert(s[s.len() - 1] == s.last());
        assert(p.push(s.last()) =~= s);
    } else {
        assert(s =~= Seq::<char>::empty());
    }
}

/// `$trim` leaves no white space at the ends of a text and single spaces within
/// it, keeps its words in their order, and changes nothing when it is called
/// again.
pub proof fn law_trim(s: Seq<char>, focus: Val)
    ensures
        ({
            let t = collapsed_spaces(trimmed(s));
            &&& trim_spec(seq![Val::String(s)], focus) == Ok::<Val, Seq<char>>(Val::String(t))
            &&& bare_ends(t)
            &&& single_spaced(t)
            &&& words_in(t) == words_in(s)
            &&& trim_spec(seq![Val::String(t)], focus) == Ok::<Val, Seq<char>>(Val::String(t))
        }),
{
    let inner = trimmed(s);
    let t = collapsed_spaces(inner);
    assert(arg_or_focus(seq![Val::String(s)], focus) == Val::String(s));
    assert(arg_or_focus(seq![Val::String(t)], focus) == Val::String(t));
    lemma_trimmed(s);
    lemma_collapsed(inner);
    lemma_stays(t);
    assert(bare_ends(t));
    assert(space_run(t, 0) == 0);
    assert(space_tail(t, t.len() as int) == t.len());
    assert(trimmed(t) =~= t);
}

} // verus!
