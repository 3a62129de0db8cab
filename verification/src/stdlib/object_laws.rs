//! What holds of objects and of texts as JSON.
use vstd::prelude::*;

use super::object::{all_keys, found_in, keys, law_lookup_of_key, lookup, values, with_keys};
use crate::environment::{bound, Env};
use crate::lexer::{hex4, hex_value, plain, simple_escape, string_rest, token_at, unicode_escape, TokenType};
use crate::error::Fault;
use crate::stringify::{escaped, escaped_all, hex_digit, quoted};
use crate::value::{distinct_keys, law_insert_then_get, member, Val};

verus! {

// ── Objects ──────────────────────────────────────────────────────────────────

/// `$keys` and `$values` go through the members of an object in one order: the
/// value at a place is what `$lookup` finds for the key at that place.
pub proof fn law_keys_and_values(o: Seq<(Seq<char>, Val)>, i: int)
    requires
        distinct_keys(o),
        o.len() > 1,
        0 <= i < o.len(),
    ensures
        keys(seq![Val::Object(o)]) matches Ok(Val::Array(k)) && values(seq![Val::Object(o)]) matches Ok(Val::Array(v)) && {
            &&& k.len() == o.len() && v.len() == o.len()
            &&& lookup(seq![Val::Object(o), k[i]]) == Ok::<Val, Seq<char>>(v[i])
        },
{
    law_lookup_of_key(o, i);
}

/// Whether an object has a key.
pub open spec fn listed(o: Seq<(Seq<char>, Val)>, key: Seq<char>) -> bool {
    exists|i: int| 0 <= i < o.len() && (#[trigger] o[i]).0 == key
}

/// Whether a value is an object with a key.
pub open spec fn has_key(v: Val, key: Seq<char>) -> bool {
    match v {
        Val::Object(o) => listed(o, key),
        _ => false,
    }
}

proof fn lemma_with_keys(known: Seq<Val>, o: Seq<(Seq<char>, Val)>, key: Seq<char>)
    requires
        known.no_duplicates(),
    ensures
        with_keys(known, o).no_duplicates(),
        with_keys(known, o).contains(Val::String(key)) <==> known.contains(Val::String(key)) || listed(o, key),
    decreases o.len(),
{
    let k = Val::String(key);
    if o.len() > 0 {
        let rest = o.drop_last();
        lemma_with_keys(known, rest, key);
        let before = with_keys(known, rest);
        let last = Val::String(o.last().0);
        let all = with_keys(known, o);
        assert(o[o.len() - 1] == o.last());
        if listed(rest, key) {
            let i = choose|i: int| 0 <= i < rest.len() && (#[trigger] rest[i]).0 == key;
            assert(o[i].0 == key);
        }
        if listed(o, key) {
            let i = choose|i: int| 0 <= i < o.len() && (#[trigger] o[i]).0 == key;
            if i < rest.len() {
                assert(rest[i].0 == key);
            }
        }
        if k == last {
            assert(o[o.len() - 1].0 == key);
            assert(listed(o, key));
        }
        if listed(o, key) && !listed(rest, key) {
            assert(k == last);
        }
        if !before.contains(last) {
            assert(all == before.push(last));
            assert(all[before.len() as int] == last);
            if before.contains(k) {
                let j = before.index_of(k);
                assert(all[j] == k);
            }
            if all.contains(k) {
                let j = all.index_of(k);
                if j < before.len() {
                    assert(before[j] == k);
                }
            }
            assert forall|i: int, j: int| 0 <= i < all.len() && 0 <= j < all.len() && i != j implies all[i] != all[j] by {
                if i < before.len() && j < before.len() {
                    assert(before[i] != before[j]);
                } else if i < before.len() {
                    assert(before.contains(before[i]));
                } else {
                    assert(before.contains(before[j]));
                }
            }
        }
    }
}

/// Of an array of objects `$keys` gives each key that one of them has, once.
pub proof fn law_keys_of_all(s: Seq<Val>, key: Seq<char>)
    ensures
        all_keys(s).no_duplicates(),
        all_keys(s).contains(Val::String(key)) <==> exists|i: int| 0 <= i < s.len() && has_key(#[trigger] s[i], key),
    decreases s.len(),
{
    if s.len() > 0 {
        let rest = s.drop_last();
        law_keys_of_all(rest, key);
        let last = s[s.len() - 1];
        match last {
            Val::Object(o) => {
                lemma_with_keys(all_keys(rest), o, key);
            },
            _ => {},
        }
        if exists|i: int| 0 <= i < rest.len() && has_key(#[trigger] rest[i], key) {
            let i = choose|i: int| 0 <= i < rest.len() && has_key(#[trigger] rest[i], key);
            assert(s[i] == rest[i]);
        }
        if exists|i: int| 0 <= i < s.len() && has_key(#[trigger] s[i], key) {
            let i = choose|i: int| 0 <= i < s.len() && has_key(#[trigger] s[i], key);
            if i < rest.len() {
                assert(rest[i] == s[i]);
            }
        }
    }
}

/// What arrays of objects have for a key, they have one after the other.
pub proof fn law_lookup_in_all(s: Seq<Val>, t: Seq<Val>, o: Seq<(Seq<char>, Val)>, key: Seq<char>)
    ensures
        found_in(s + t, key) == found_in(s, key) + found_in(t, key),
        member(o, key) matches Some(v) ==> found_in(seq![Val::Object(o)], key) == seq![v],
        member(o, key) is None ==> found_in(seq![Val::Object(o)], key) == Seq::<Val>::empty(),
    decreases t.len(),
{
    assert(seq![Val::Object(o)].drop_last() =~= Seq::empty());
    assert(found_in(Seq::empty(), key) =~= Seq::empty());
    match member(o, key) {
        Some(v) => {
            assert(Seq::<Val>::empty().push(v) =~= seq![v]);
        },
        None => {},
    }
    if t.len() == 0 {
        assert(s + t =~= s);
        assert(found_in(s, key) + found_in(t, key) =~= found_in(s, key));
    } else {
        law_lookup_in_all(s, t.drop_last(), o, key);
        assert((s + t).drop_last() =~= s + t.drop_last());
        assert((s + t).last() == t.last());
        match t.last() {
            Val::Object(p) => match member(p, key) {
                Some(v) => {
                    let (a, b) = (found_in(s, key), found_in(t.drop_last(), key));
                    assert((a + b).push(v) =~= a + b.push(v));
                },
                None => {},
            },
            _ => {},
        }
    }
}

/// A name that was bound stands for what it was bound to, and every other for
/// what it stood for.
pub proof fn law_bound_names(e: Env, name: Seq<char>, value: Val, other: Seq<char>)
    ensures
        crate::environment::found_in(bound(e, name, value), name) == Some(value),
        other != name ==> crate::environment::found_in(bound(e, name, value), other) == crate::environment::found_in(
            e,
            other,
        ),
        bound(e, name, value).cancel == e.cancel,
{
    law_insert_then_get(e.bindings, name, value, other);
}

// ── Texts as JSON ────────────────────────────────────────────────────────────

proof fn lemma_escaped_first(c: char, s: Seq<char>)
    ensures
        escaped_all(seq![c] + s) == escaped(c) + escaped_all(s),
    decreases s.len(),
{
    let all = seq![c] + s;
    if s.len() == 0 {
        assert(all =~= seq![c]);
        assert(all.drop_last() =~= Seq::empty());
        assert(escaped_all(all.drop_last()) == Seq::<char>::empty());
        assert(escaped_all(s) == Seq::<char>::empty());
        assert(Seq::<char>::empty() + escaped(c) =~= escaped(c) + Seq::<char>::empty());
    } else {
        lemma_escaped_first(c, s.drop_last());
        assert(all.drop_last() =~= seq![c] + s.drop_last());
        assert(all.last() == s.last());
        let (a, b, d) = (escaped(c), escaped_all(s.drop_last()), escaped(s.last()));
        assert(a + b + d =~= a + (b + d));
    }
}

proof fn lemma_hex(d: int)
    requires
        0 <= d < 16,
    ensures
        hex_value(hex_digit(d)) == Some(d),
{
}

/// What is escaped is read as it was.
proof fn lemma_read_back(pre: Seq<char>, s: Seq<char>, post: Seq<char>, start: int)
    ensures
        string_rest(pre + escaped_all(s) + seq!['"'] + post, pre.len() as int, '"', start) == Ok::<
            (Seq<char>, int),
            Fault,
        >((s, 1int + pre.len() + escaped_all(s).len())),
    decreases s.len(),
{
    let p = pre + escaped_all(s) + seq!['"'] + post;
    let i = pre.len() as int;
    if s.len() == 0 {
        assert(p[i] == '"');
        assert(s =~= Seq::empty());
    } else {
        let c = s[0];
        let rest = s.skip(1);
        assert(seq![c] + rest =~= s);
        lemma_escaped_first(c, rest);
        let e = escaped(c);
        lemma_read_back(pre + e, rest, post, start);
        assert((pre + e) + escaped_all(rest) + seq!['"'] + post =~= p);
        assert(forall|k: int| 0 <= k < e.len() ==> p[i + k] == #[trigger] e[k]);
        assert(p[i] == e[0]);
        if e.len() == 2 {
            assert(p[i + 1] == e[1]);
            assert(simple_escape(e[1]) == Some(c));
        } else if e.len() == 6 {
            assert(p[i + 1] == e[1] && p[i + 2] == e[2] && p[i + 3] == e[3] && p[i + 4] == e[4] && p[i + 5] == e[5]);
            lemma_control(p, i, c);
        }
    }
}

proof fn lemma_control(p: Seq<char>, i: int, c: char)
    requires
        0 <= i,
        i + 6 <= p.len(),
        c <= '\u{1f}',
        p[i + 2] == '0',
        p[i + 3] == '0',
        p[i + 4] == hex_digit(c as int / 16),
        p[i + 5] == hex_digit(c as int % 16),
    ensures
        unicode_escape(p, i + 2) == Some((c, i + 6)),
{
    let x = c as int;
    assert(0 <= x <= 0x1f);
    lemma_hex(x / 16);
    lemma_hex(x % 16);
    assert(hex_value('0') == Some(0int));
    assert(hex4(p, i + 2) == Some(x));
    assert(x as char == c);
}

/// A text as JSON is a string literal, which stands for that text.
pub proof fn law_json_text_is_a_literal(s: Seq<char>, infix: bool)
    ensures
        token_at(quoted(s), 0, infix) == Ok::<(crate::lexer::Tok, int), Fault>(
            (plain(TokenType::String, s, 0), quoted(s).len() as int),
        ),
{
    let q = quoted(s);
    lemma_read_back(seq!['"'], s, Seq::empty(), 0);
    assert(seq!['"'] + escaped_all(s) + seq!['"'] + Seq::<char>::empty() =~= q);
    assert(q[0] == '"');
}

} // verus!
