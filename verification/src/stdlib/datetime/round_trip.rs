//! `$toMillis` by a picture undoes `$fromMillis` by that picture.
use vstd::arithmetic::power::pow;
use vstd::prelude::*;

use super::component_laws::{
    lemma_digits_name_nothing, lemma_first_digits, lemma_halves, lemma_marker, lemma_no_comma, lemma_padded, marker,
    shows,
};
use super::format::{
    formatted, fraction, integer_mod, is_moment, marker_space, moment_of, picture_text, squeezed, token_text, unclosed,
    Moment,
};
use super::laws::{lemma_civil_counted, lemma_moment_seen, END_MS, FIRST_MS};
use super::parse::{
    advanced, field_width, fields_ms, frac_ms, full_hour, has_token, in_words, literal, mentions, names, no_fields,
    picture_ms, pieces, run_pieces, stored, token_value, wrapped_i32, Fields, Piece,
};
use super::tz::zero_padded;
use super::{from_millis, to_millis, zone_arg};
use crate::number::{law_whole_numbers_come_back, Number};
use crate::stdlib::args::arg;
use crate::text::{
    all_digits, ascii_lower_all, byte_len, digit_run, find_char, is_digit, lemma_ascii_cases, lemma_nat_text_len,
    lowercase, number_of, occurs_at, space_run, space_tail, trimmed,
};
use crate::value::Val;

verus! {

// ── Pictures of fixed widths ─────────────────────────────────────────────────

/// The modifier that gives a component as many digits as it can have, with which
/// it can be read without anything between it and the next.
pub open spec fn full_modifier(c: char) -> Seq<char> {
    if c == 'Y' {
        seq!['0', '0', '0', '1']
    } else if c == 'f' {
        seq!['0', '0', '1']
    } else if c == 'P' {
        Seq::empty()
    } else {
        seq!['0', '1']
    }
}

/// Whether a piece of a picture is a component of the date or the time of day at
/// its full width, or a character that stands for itself.
pub open spec fn full_piece(p: Piece) -> bool {
    let c = p.component;
    if p.token {
        &&& c == 'Y' || c == 'M' || c == 'D' || c == 'H' || c == 'h' || c == 'm' || c == 's' || c == 'f' || c == 'P'
        &&& p.modifier == full_modifier(c)
    } else {
        c != '[' && c != ']' && p.modifier == Seq::<char>::empty()
    }
}

/// How a piece is written in a picture.
pub open spec fn mark(p: Piece) -> Seq<char> {
    if p.token {
        seq!['['] + marker(p.component, p.modifier) + seq![']']
    } else {
        seq![p.component]
    }
}

/// The picture of pieces.
pub open spec fn picture_of(ps: Seq<Piece>) -> Seq<char>
    decreases ps.len(),
{
    if ps.len() == 0 {
        Seq::empty()
    } else {
        mark(ps[0]) + picture_of(ps.skip(1))
    }
}

/// What a piece gives.
pub open spec fn piece_shown(p: Piece, t: Moment) -> Seq<char> {
    if p.token {
        token_text(marker(p.component, p.modifier), t)->Ok_0
    } else {
        seq![p.component]
    }
}

/// What pieces give.
pub open spec fn all_shown(ps: Seq<Piece>, t: Moment) -> Seq<char>
    decreases ps.len(),
{
    if ps.len() == 0 {
        Seq::empty()
    } else {
        piece_shown(ps[0], t) + all_shown(ps.skip(1), t)
    }
}

/// Whether pieces hold all of the date and the time of day: the hour either on a
/// clock of twenty-four hours or on one of twelve with its half of the day.
pub open spec fn tells_the_time(ps: Seq<Piece>) -> bool {
    &&& mentions(ps, 'Y') && mentions(ps, 'M') && mentions(ps, 'D')
    &&& mentions(ps, 'm') && mentions(ps, 's') && mentions(ps, 'f')
    &&& if mentions(ps, 'h') {
        mentions(ps, 'P') && !mentions(ps, 'H')
    } else {
        mentions(ps, 'H')
    }
}

// ── Widths ───────────────────────────────────────────────────────────────────

proof fn lemma_trimmed(m: Seq<char>)
    requires
        m.len() > 0,
        all_digits(m),
    ensures
        trimmed(m) == m,
{
    assert(is_digit(m[0]));
    assert(is_digit(m[m.len() - 1]));
    assert(space_run(m, 0) == 0);
    assert(space_tail(m, m.len() as int) == m.len());
    assert(m.subrange(0, m.len() as int) =~= m);
}

proof fn lemma_run(s: Seq<char>, from: int, n: nat)
    requires
        0 <= from,
        from + n <= s.len(),
        forall|i: int| from <= i < from + n ==> is_digit(#[trigger] s[i]),
    ensures
        digit_run(s, from) >= n,
    decreases n,
{
    if n > 0 {
        assert(is_digit(s[from]));
        lemma_run(s, from + 1, (n - 1) as nat);
    }
}

proof fn lemma_tens()
    ensures
        pow(10, 2) == 100,
        pow(10, 3) == 1000,
        pow(10, 4) == 10000,
        pow(10, 6) == 1_000_000,
        pow(10, 9) == 1_000_000_000,
{
    reveal(pow);
    reveal_with_fuel(pow, 10);
}

/// A number that fits is written with as many digits as the modifier has.
proof fn lemma_wide(v: int, m: Seq<char>, w: nat)
    requires
        m.len() == w,
        2 <= w <= 4,
        all_digits(m),
        m[0] == '0',
        0 <= v < pow(10, w),
    ensures
        shows(integer_mod(v, m), v),
        integer_mod(v, m).len() == w,
{
    lemma_trimmed(m);
    lemma_no_comma(m, 0);
    assert forall|i: int| 0 <= i < w implies is_digit(#[trigger] m[i]) by {};
    lemma_run(m, 0, w);
    lemma_run_ends(m, 0);
    reveal_strlit("1");
    lemma_padded(v as nat, w);
    lemma_nat_text_len(v as nat, w);
}

proof fn lemma_run_ends(s: Seq<char>, from: int)
    requires
        0 <= from <= s.len(),
    ensures
        from + digit_run(s, from) <= s.len(),
    decreases s.len() - from,
{
    if from < s.len() {
        lemma_run_ends(s, from + 1);
    }
}

/// The number that a component is.
pub open spec fn component_value(c: char, t: Moment) -> int {
    if c == 'Y' {
        t.year as int
    } else if c == 'M' {
        t.month as int
    } else if c == 'D' {
        t.day as int
    } else if c == 'H' {
        t.hour as int
    } else if c == 'h' {
        (t.hour + 11) % 12 + 1
    } else if c == 'm' {
        t.minute as int
    } else if c == 's' {
        t.second as int
    } else {
        t.millis as int
    }
}

/// Whether a moment can be written at full widths.
spec fn in_range(t: Moment) -> bool {
    &&& 0 <= t.year <= 9999
    &&& 1 <= t.month <= 12
    &&& 1 <= t.day <= 31
    &&& t.hour < 24
    &&& t.minute < 60
    &&& t.second < 60
    &&& 0 <= t.millis < 1000
}

proof fn lemma_fraction(t: Moment)
    requires
        in_range(t),
    ensures
        shows(fraction(t.millis as int, full_modifier('f')), t.millis as int),
        fraction(t.millis as int, full_modifier('f')).len() == 3,
{
    let m = full_modifier('f');
    let n = (t.millis * 1_000_000) as nat;
    let full = zero_padded(n, 9);
    lemma_tens();
    lemma_padded(n, 9);
    lemma_nat_text_len(n, 9);
    reveal_with_fuel(byte_len, 4);
    assert(byte_len(m) == 3);
    lemma_first_digits(full, 3);
    let s = full.take(3);
    assert forall|i: int| 0 <= i < s.len() implies is_digit(#[trigger] s[i]) by {
        assert(s[i] == full[i]);
    }
    let a = number_of(s) as int;
    assert(a * 1_000_000 <= t.millis * 1_000_000 < (a + 1) * 1_000_000);
}

/// A numeric component at its full width.
proof fn lemma_component(p: Piece, t: Moment)
    requires
        full_piece(p),
        p.token,
        p.component != 'P',
        in_range(t),
    ensures
        token_text(marker(p.component, p.modifier), t) is Ok,
        shows(piece_shown(p, t), component_value(p.component, t)),
        piece_shown(p, t).len() == p.modifier.len(),
{
    let c = p.component;
    let m = p.modifier;
    lemma_marker(c, m);
    lemma_tens();
    assert(all_digits(m));
    lemma_digits_name_nothing(m);
    lemma_no_comma(m, 0);
    if c == 'f' {
        lemma_fraction(t);
    } else {
        lemma_wide(component_value(c, t), m, m.len());
    }
}

// ── Writing ──────────────────────────────────────────────────────────────────

proof fn lemma_squeezed(s: Seq<char>)
    requires
        forall|i: int| 0 <= i < s.len() ==> !marker_space(#[trigger] s[i]),
    ensures
        squeezed(s) == s,
    decreases s.len(),
{
    if s.len() > 0 {
        let rest = s.drop_last();
        assert forall|i: int| 0 <= i < rest.len() implies !marker_space(#[trigger] rest[i]) by {
            assert(rest[i] == s[i]);
        }
        lemma_squeezed(rest);
        assert(!marker_space(s[s.len() - 1]));
        assert(rest.push(s.last()) =~= s);
    } else {
        assert(s =~= Seq::empty());
    }
}

proof fn lemma_find(s: Seq<char>, c: char, from: int, i: int)
    requires
        0 <= from <= i < s.len(),
        s[i] == c,
        forall|k: int| from <= k < i ==> s[k] != c,
    ensures
        find_char(s, c, from) == Some(i),
    decreases i - from,
{
    if from < i {
        lemma_find(s, c, from + 1, i);
    }
}

proof fn lemma_plain_marker(p: Piece)
    requires
        full_piece(p),
        p.token,
    ensures
        ({
            let m = marker(p.component, p.modifier);
            &&& forall|i: int| 0 <= i < m.len() ==> !marker_space(#[trigger] m[i]) && m[i] != ']' && m[i] != '['
            &&& squeezed(m) == m
        }),
{
    let m = marker(p.component, p.modifier);
    assert forall|i: int| 0 <= i < m.len() implies !marker_space(#[trigger] m[i]) && m[i] != ']' && m[i] != '[' by {
        if i > 0 {
            assert(m[i] == p.modifier[i - 1]);
        }
    }
    lemma_squeezed(m);
}

proof fn lemma_shown_ok(p: Piece, t: Moment)
    requires
        full_piece(p),
        p.token,
        in_range(t),
    ensures
        token_text(marker(p.component, p.modifier), t) == Ok::<Seq<char>, Seq<char>>(piece_shown(p, t)),
{
    if p.component == 'P' {
        lemma_marker('P', p.modifier);
    } else {
        lemma_component(p, t);
    }
}

/// The picture of pieces is cut into them, and gives what they give.
#[verifier::spinoff_prover]
proof fn lemma_picture(pre: Seq<char>, ps: Seq<Piece>, t: Moment)
    requires
        forall|i: int| 0 <= i < ps.len() ==> full_piece(#[trigger] ps[i]),
        in_range(t),
    ensures
        ({
            let p = pre + picture_of(ps);
            let i = pre.len() as int;
            &&& pieces(p, i) == Ok::<Option<Seq<Piece>>, Seq<char>>(Some(ps))
            &&& picture_text(p, i, t) == Ok::<Seq<char>, Seq<char>>(all_shown(ps, t))
            &&& !unclosed(p, i)
        }),
    decreases ps.len(),
{
    let p = pre + picture_of(ps);
    let i = pre.len() as int;
    if ps.len() == 0 {
        assert(ps =~= Seq::empty());
    } else {
        let first = ps[0];
        let rest = ps.skip(1);
        assert forall|k: int| 0 <= k < rest.len() implies full_piece(#[trigger] rest[k]) by {
            assert(rest[k] == ps[k + 1]);
        }
        let m = mark(first);
        lemma_picture(pre + m, rest, t);
        assert(p =~= (pre + m) + picture_of(rest));
        let next = (pre + m).len() as int;
        assert(seq![first] + rest =~= ps);
        if first.token {
            let inner = marker(first.component, first.modifier);
            lemma_plain_marker(first);
            lemma_marker(first.component, first.modifier);
            let j = i + 1 + inner.len();
            assert(p[i] == m[0] && p[i + 1] == m[1] && p[j] == m[j - i]);
            assert(m[1] == inner[0]);
            assert forall|k: int| i + 1 <= k < j implies p[k] != ']' by {
                assert(p[k] == m[k - i]);
                assert(m[k - i] == inner[k - i - 1]);
            }
            lemma_find(p, ']', i + 1, j);
            assert(p.subrange(i + 1, j) =~= inner);
            lemma_shown_ok(first, t);
            reveal_strlit("N");
            assert(first == (Piece { token: true, component: inner[0], modifier: inner.skip(1) }));
        } else {
            assert(p[i] == m[0]);
            assert(first == literal(first.component));
        }
    }
}

// ── Reading ──────────────────────────────────────────────────────────────────

/// A number at the front of a text, at its full width.
proof fn lemma_number_read(rest: Seq<char>, p: Piece, t: Moment)
    requires
        full_piece(p),
        p.token,
        p.component != 'P',
        in_range(t),
        p.modifier.len() <= rest.len(),
        rest.take(p.modifier.len() as int) == piece_shown(p, t),
    ensures
        token_value(rest, p.modifier) == Some((component_value(p.component, t), p.modifier.len() as int)),
{
    let m = p.modifier;
    let w = m.len();
    let d = piece_shown(p, t);
    lemma_component(p, t);
    assert(all_digits(m));
    lemma_digits_name_nothing(m);
    reveal_strlit("wo");
    reveal_strlit("Wo");
    reveal_strlit("Ww");
    reveal_strlit("ww");
    assert(m[0] == '0');
    assert(!occurs_at(m, "wo"@, 0) && !occurs_at(m, "Wo"@, 0) && !occurs_at(m, "Ww"@, 0) && !occurs_at(m, "ww"@, 0))
        by {
        assert("wo"@[0] == 'w' && "Wo"@[0] == 'W' && "Ww"@[0] == 'W' && "ww"@[0] == 'w');
        if occurs_at(m, "wo"@, 0) {
            assert(m.subrange(0, 2)[0] == m[0]);
        }
        if occurs_at(m, "Wo"@, 0) {
            assert(m.subrange(0, 2)[0] == m[0]);
        }
        if occurs_at(m, "Ww"@, 0) {
            assert(m.subrange(0, 2)[0] == m[0]);
        }
        if occurs_at(m, "ww"@, 0) {
            assert(m.subrange(0, 2)[0] == m[0]);
        }
    }
    assert(!names(m) && !in_words(m));
    assert(field_width(m) == w);
    assert forall|i: int| 0 <= i < w implies is_digit(#[trigger] rest[i]) by {
        assert(d[i] == rest[i]);
    }
    assert(is_digit(rest[0]));
    lemma_run(rest, 0, w);
    assert(rest.subrange(0, w as int) =~= d);
}

/// The fields after a piece.
spec fn stepped(f: Fields, p: Piece, t: Moment) -> Fields {
    let g = Fields { pos: (f.pos + piece_shown(p, t).len()) as usize, ..f };
    if !p.token {
        g
    } else if p.component == 'P' {
        Fields { pm: t.hour >= 12, ..g }
    } else {
        stored(f, p.component, component_value(p.component, t), p.modifier.len() as int)->0
    }
}

proof fn lemma_half_read(rest: Seq<char>, t: Moment)
    requires
        rest.len() >= 2,
        t.hour < 24,
        rest.take(2) == (if t.hour < 12 {
            "am"@
        } else {
            "pm"@
        }),
    ensures
        lowercase(rest.take(2)) == rest.take(2),
{
    reveal_strlit("am");
    reveal_strlit("pm");
    lemma_ascii_cases(rest.take(2));
    assert(ascii_lower_all(rest.take(2)) =~= rest.take(2));
}

proof fn lemma_read(s: Seq<char>, p: Piece, f: Fields, t: Moment)
    requires
        full_piece(p),
        in_range(t),
        f.pos + piece_shown(p, t).len() <= s.len() <= usize::MAX,
        s.subrange(f.pos as int, f.pos + piece_shown(p, t).len()) == piece_shown(p, t),
    ensures
        advanced(s, p, f) == Some(stepped(f, p, t)),
        piece_shown(p, t).len() <= 4,
        p.token && p.component != 'P' ==> piece_shown(p, t).len() == p.modifier.len(),
{
    let rest = s.skip(f.pos as int);
    let d = piece_shown(p, t);
    if !p.token {
        assert(rest[0] == s.subrange(f.pos as int, f.pos + 1)[0]);
    } else if p.component == 'P' {
        lemma_marker('P', p.modifier);
        reveal_strlit("am");
        reveal_strlit("pm");
        reveal_strlit("N");
        lemma_halves();
        assert(rest.take(2) =~= s.subrange(f.pos as int, f.pos + 2));
        lemma_half_read(rest, t);
    } else {
        lemma_component(p, t);
        assert(rest.take(d.len() as int) =~= s.subrange(f.pos as int, f.pos + d.len()));
        lemma_number_read(rest, p, t);
    }
}

/// What the fields hold after pieces.
spec fn agrees(f: Fields, ps: Seq<Piece>, t: Moment) -> bool {
    &&& f.tz == 0 && !f.has_tz && f.day_of_year == 0
    &&& mentions(ps, 'Y') ==> f.has_year && f.civil.year == t.year
    &&& mentions(ps, 'M') ==> f.civil.month == t.month
    &&& mentions(ps, 'D') ==> f.civil.day == t.day
    &&& mentions(ps, 'm') ==> f.civil.minute == t.minute
    &&& mentions(ps, 's') ==> f.civil.second == t.second
    &&& mentions(ps, 'f') ==> f.millis == t.millis
    &&& mentions(ps, 'P') ==> f.pm == (t.hour >= 12)
    &&& f.twelve == mentions(ps, 'h')
    &&& mentions(ps, 'h') && !mentions(ps, 'H') ==> f.civil.hour == (t.hour + 11) % 12 + 1
    &&& mentions(ps, 'H') && !mentions(ps, 'h') ==> f.civil.hour == t.hour
}

proof fn lemma_mentions(ps: Seq<Piece>, p: Piece, c: char)
    ensures
        mentions(ps.push(p), c) == (mentions(ps, c) || (p.token && p.component == c)),
{
    let all = ps.push(p);
    if mentions(ps, c) {
        let i = choose|i: int| 0 <= i < ps.len() && (#[trigger] ps[i]).token && ps[i].component == c;
        assert(all[i] == ps[i]);
    }
    assert(all[ps.len() as int] == p);
    if mentions(all, c) {
        let i = choose|i: int| 0 <= i < all.len() && (#[trigger] all[i]).token && all[i].component == c;
        if i < ps.len() {
            assert(ps[i] == all[i]);
        }
    }
}

proof fn lemma_agrees(f: Fields, ps: Seq<Piece>, p: Piece, t: Moment)
    requires
        agrees(f, ps, t),
        full_piece(p),
        in_range(t),
        f.pos + p.modifier.len() <= usize::MAX,
    ensures
        agrees(stepped(f, p, t), ps.push(p), t),
{
    lemma_mentions(ps, p, 'Y');
    lemma_mentions(ps, p, 'M');
    lemma_mentions(ps, p, 'D');
    lemma_mentions(ps, p, 'H');
    lemma_mentions(ps, p, 'h');
    lemma_mentions(ps, p, 'm');
    lemma_mentions(ps, p, 's');
    lemma_mentions(ps, p, 'f');
    lemma_mentions(ps, p, 'P');
    assert(frac_ms(t.millis as int, 3) == t.millis);
    assert(wrapped_i32(t.millis as int) == t.millis);
}

proof fn lemma_run_pieces(s: Seq<char>, ps: Seq<Piece>, k: int, f: Fields, t: Moment)
    requires
        forall|i: int| 0 <= i < ps.len() ==> full_piece(#[trigger] ps[i]),
        in_range(t),
        0 <= k <= ps.len(),
        s.len() <= usize::MAX,
        f.pos <= s.len(),
        s.skip(f.pos as int) == all_shown(ps.skip(k), t),
        agrees(f, ps.take(k), t),
    ensures
        run_pieces(s, ps, k, f) matches Some(g) && agrees(g, ps, t),
    decreases ps.len() - k,
{
    if k == ps.len() {
        assert(ps.take(k) =~= ps);
    } else {
        let p = ps[k];
        let left = ps.skip(k);
        assert(left[0] == p);
        assert(left.skip(1) =~= ps.skip(k + 1));
        let d = piece_shown(p, t);
        let rest = s.skip(f.pos as int);
        assert(rest == d + all_shown(ps.skip(k + 1), t));
        assert(s.subrange(f.pos as int, f.pos + d.len()) =~= d) by {
            assert(s.subrange(f.pos as int, f.pos + d.len()) =~= rest.take(d.len() as int));
        }
        lemma_read(s, p, f, t);
        let g = stepped(f, p, t);
        assert(g.pos == f.pos + d.len());
        assert(s.skip(g.pos as int) =~= rest.skip(d.len() as int));
        assert(rest.skip(d.len() as int) =~= all_shown(ps.skip(k + 1), t));
        if !p.token {
            assert(p.modifier.len() == 0);
        }
        lemma_agrees(f, ps.take(k), p, t);
        assert(ps.take(k).push(p) =~= ps.take(k + 1));
        lemma_run_pieces(s, ps, k + 1, g, t);
    }
}

// ── The law ──────────────────────────────────────────────────────────────────

/// `$toMillis` by a picture undoes `$fromMillis` by that picture, from year 0 to
/// year 9999: for every picture that holds the date and the time of day at full
/// widths, in any order and with anything between them, on a clock of
/// twenty-four hours or of twelve.
#[verifier::rlimit(40)]
pub proof fn law_picture_round_trip(ms: int, ps: Seq<Piece>, focus: Val, now: int)
    requires
        FIRST_MS <= ms < END_MS,
        forall|i: int| 0 <= i < ps.len() ==> full_piece(#[trigger] ps[i]),
        tells_the_time(ps),
        all_shown(ps, moment_of(ms, 0)).len() <= usize::MAX,
    ensures
        ({
            let picture = Val::String(picture_of(ps));
            let text = Val::String(all_shown(ps, moment_of(ms, 0)));
            &&& from_millis(seq![Val::Number(Number::of_int(ms)), picture], focus) == Ok::<Val, Seq<char>>(text)
            &&& to_millis(seq![text, picture], now) == Ok::<Val, Seq<char>>(Val::Number(Number::of_int(ms)))
        }),
{
    let t = lemma_moment_seen(ms, 0);
    lemma_civil_counted(t, ms, 0);
    assert(in_range(t));
    let s = all_shown(ps, t);
    let p = picture_of(ps);
    lemma_picture(Seq::empty(), ps, t);
    assert(Seq::<char>::empty() + p =~= p);
    assert(formatted(p, t) == Ok::<Seq<char>, Seq<char>>(s));
    lemma_time_written(ms, p, s, focus);
    lemma_text_read(s, p, ps, t, ms, now);
    let b = seq![Val::String(s), Val::String(p)];
    assert(arg(b, 0) == Val::String(s));
    assert(arg(b, 1) == Val::String(p));
}

proof fn lemma_time_written(ms: int, p: Seq<char>, s: Seq<char>, focus: Val)
    requires
        FIRST_MS <= ms < END_MS,
        formatted(p, moment_of(ms, 0)) == Ok::<Seq<char>, Seq<char>>(s),
    ensures
        from_millis(seq![Val::Number(Number::of_int(ms)), Val::String(p)], focus) == Ok::<Val, Seq<char>>(
            Val::String(s),
        ),
{
    law_whole_numbers_come_back(ms, i64::MIN as int, i64::MAX as int);
    let a = seq![Val::Number(Number::of_int(ms)), Val::String(p)];
    assert(a[0] == Val::Number(Number::of_int(ms)));
    assert(arg(a, 1) == Val::String(p));
    assert(arg(a, 2) == Val::Undefined);
    assert(zone_arg(Val::Undefined) == Ok::<int, Seq<char>>(0));
}

#[verifier::rlimit(40)]
proof fn lemma_text_read(s: Seq<char>, p: Seq<char>, ps: Seq<Piece>, t: Moment, ms: int, now: int)
    requires
        forall|i: int| 0 <= i < ps.len() ==> full_piece(#[trigger] ps[i]),
        tells_the_time(ps),
        in_range(t),
        is_moment(t, ms, 0),
        s == all_shown(ps, t),
        s.len() <= usize::MAX,
        pieces(p, 0) == Ok::<Option<Seq<Piece>>, Seq<char>>(Some(ps)),
    ensures
        picture_ms(s, p, now) == Ok::<Option<int>, Seq<char>>(Some(ms)),
{
    let f = no_fields();
    assert(ps.take(0) =~= Seq::empty());
    assert(ps.skip(0) =~= ps);
    assert(s.skip(0) =~= s);
    lemma_run_pieces(s, ps, 0, f, t);
    let g = run_pieces(s, ps, 0, f)->0;
    assert(has_token(ps)) by {
        let i = choose|i: int| 0 <= i < ps.len() && (#[trigger] ps[i]).token && ps[i].component == 'Y';
        assert(ps[i].token);
    }
    assert(!mentions(ps, 'X')) by {
        if mentions(ps, 'X') {
            let i = choose|i: int| 0 <= i < ps.len() && (#[trigger] ps[i]).token && ps[i].component == 'X';
            assert(full_piece(ps[i]));
        }
    }
    lemma_counted(g, ps, t, ms, now);
}

proof fn lemma_counted(g: Fields, ps: Seq<Piece>, t: Moment, ms: int, now: int)
    requires
        agrees(g, ps, t),
        tells_the_time(ps),
        in_range(t),
        is_moment(t, ms, 0),
    ensures
        fields_ms(g, true, now) == Some(ms),
        fields_ms(g, mentions(ps, 'H') || mentions(ps, 'h') || mentions(ps, 'm'), now) == Some(ms),
{
    lemma_civil_counted(t, ms, 0);
    assert(full_hour(g) == t.hour);
}

} // verus!
