//! What holds of the functions on numbers, texts and arrays as a whole.
use vstd::prelude::*;

use super::array::{append, count, elements, flattened, reverse, shortest, zip, MAX_APPEND_SIZE};
use super::args::arg;
use super::numeric::{
    any_digit, average_result, number_result, based_integer, based_number, based_text, digit_letter, format_base,
    largest, all_numbers, max_result, min_result, needed_number, smallest, sum_of, sum_result,
};
use super::string_funcs::{before, contains, length, padded, part_of, split, substring};
use crate::number::{
    law_whole_numbers_are_exact, law_whole_numbers_come_back, law_whole_quotient, law_whole_sum, Number, INFINITE,
    WHOLE_LIMIT,
};
use crate::text::{find_seq, occurs_at, space_run, space_tail, split_from, white_space};
use crate::value::{compared, ordered, text_before, truth, truth_any, CompareOp, Val};

verus! {

// ── Numbers ──────────────────────────────────────────────────────────────────

/// Numbers as values.
pub open spec fn as_values(s: Seq<Number>) -> Seq<Val> {
    s.map_values(|n: Number| Val::Number(n))
}

proof fn lemma_all_numbers(s: Seq<Number>)
    ensures
        all_numbers(as_values(s)) == Some(s),
    decreases s.len(),
{
    let v = as_values(s);
    if s.len() == 0 {
        assert(s =~= Seq::empty());
    } else {
        assert(v.drop_last() =~= as_values(s.drop_last()));
        lemma_all_numbers(s.drop_last());
        assert(s.drop_last().push(s.last()) =~= s);
    }
}

proof fn lemma_largest(s: Seq<Number>)
    requires
        s.len() > 0,
        forall|i: int| 0 <= i < s.len() ==> !(#[trigger] s[i]).nan(),
    ensures
        s.contains(largest(s)),
        !largest(s).nan(),
        forall|i: int| 0 <= i < s.len() ==> !largest(s).lt_spec(#[trigger] s[i]),
    decreases s.len(),
{
    let rest = s.drop_last();
    let x = s.last();
    assert(s[s.len() - 1] == x);
    if s.len() == 1 {
        assert(largest(rest) == Number::make(true, INFINITE as int));
        let low = Number::make(true, INFINITE as int);
        assert(!low.nan() && low.key() == -(INFINITE as int));
        if !low.lt_spec(x) {
            assert(x.key() == low.key());
            assert(x == low);
        }
    } else {
        assert forall|i: int| 0 <= i < rest.len() implies !(#[trigger] rest[i]).nan() by {
            assert(rest[i] == s[i]);
        }
        lemma_largest(rest);
        let m = largest(rest);
        let k = rest.index_of(m);
        assert(s[k] == m);
        assert forall|i: int| 0 <= i < s.len() implies !largest(s).lt_spec(#[trigger] s[i]) by {
            if i < rest.len() {
                assert(rest[i] == s[i]);
                assert(!m.lt_spec(rest[i]));
            }
        }
    }
}

proof fn lemma_smallest(s: Seq<Number>)
    requires
        s.len() > 0,
        forall|i: int| 0 <= i < s.len() ==> !(#[trigger] s[i]).nan(),
    ensures
        s.contains(smallest(s)),
        !smallest(s).nan(),
        forall|i: int| 0 <= i < s.len() ==> !(#[trigger] s[i]).lt_spec(smallest(s)),
    decreases s.len(),
{
    let rest = s.drop_last();
    let x = s.last();
    assert(s[s.len() - 1] == x);
    if s.len() == 1 {
        let high = Number::make(false, INFINITE as int);
        assert(smallest(rest) == high);
        assert(!high.nan() && high.key() == INFINITE as int);
        if !x.lt_spec(high) {
            assert(x.key() == high.key());
            assert(x == high);
        }
    } else {
        assert forall|i: int| 0 <= i < rest.len() implies !(#[trigger] rest[i]).nan() by {
            assert(rest[i] == s[i]);
        }
        lemma_smallest(rest);
        let m = smallest(rest);
        let k = rest.index_of(m);
        assert(s[k] == m);
        assert forall|i: int| 0 <= i < s.len() implies !(#[trigger] s[i]).lt_spec(smallest(s)) by {
            if i < rest.len() {
                assert(rest[i] == s[i]);
                assert(!rest[i].lt_spec(m));
            }
        }
    }
}

/// `$max` gives one of the numbers, and none is greater; `$min` gives one of
/// them, and none is less.
pub proof fn law_max_and_min(s: Seq<Number>)
    requires
        s.len() > 0,
        forall|i: int| 0 <= i < s.len() ==> !(#[trigger] s[i]).nan(),
    ensures
        max_result(seq![Val::Array(as_values(s))]) matches Ok(Val::Number(m)) && s.contains(m) && forall|i: int|
            0 <= i < s.len() ==> !m.lt_spec(#[trigger] s[i]),
        min_result(seq![Val::Array(as_values(s))]) matches Ok(Val::Number(m)) && s.contains(m) && forall|i: int|
            0 <= i < s.len() ==> !(#[trigger] s[i]).lt_spec(m),
{
    lemma_all_numbers(s);
    lemma_largest(s);
    lemma_smallest(s);
    let a = seq![Val::Array(as_values(s))];
    assert(a[0] == Val::Array(as_values(s)));
}

/// Integers added up.
pub open spec fn total(s: Seq<int>) -> int
    decreases s.len(),
{
    if s.len() == 0 {
        0
    } else {
        total(s.drop_last()) + s.last()
    }
}

/// Whether integers are whole numbers whose sum can be counted with exactly.
pub open spec fn countable(s: Seq<int>) -> bool {
    total(s) < WHOLE_LIMIT && forall|i: int| 0 <= i < s.len() ==> 0 <= #[trigger] s[i]
}

pub open spec fn whole_numbers(s: Seq<int>) -> Seq<Number> {
    s.map_values(|i: int| Number::of_int(i))
}

proof fn lemma_sum(s: Seq<int>)
    requires
        countable(s),
    ensures
        0 <= total(s),
        sum_of(whole_numbers(s)) == Number::of_int(total(s)),
    decreases s.len(),
{
    if s.len() > 0 {
        let rest = s.drop_last();
        assert(s[s.len() - 1] >= 0);
        assert forall|i: int| 0 <= i < rest.len() implies 0 <= #[trigger] rest[i] by {
            assert(rest[i] == s[i]);
        }
        lemma_sum(rest);
        assert(whole_numbers(s).drop_last() =~= whole_numbers(rest));
        law_whole_sum(total(rest), s.last());
    }
}

/// `$sum` of whole numbers is their sum as integers, and `$average` what each
/// would be if all were the same.
pub proof fn law_sum_and_average(s: Seq<int>, mean: int)
    requires
        countable(s),
        s.len() > 0,
        s.len() < WHOLE_LIMIT,
        mean >= 0,
    ensures
        sum_result(seq![Val::Array(as_values(whole_numbers(s)))]) == Ok::<Val, Seq<char>>(
            Val::Number(Number::of_int(total(s))),
        ),
        total(s) == mean * s.len() ==> average_result(seq![Val::Array(as_values(whole_numbers(s)))]) == Ok::<
            Val,
            Seq<char>,
        >(Val::Number(Number::of_int(mean))),
{
    let n = whole_numbers(s);
    lemma_all_numbers(n);
    lemma_sum(s);
    let a = seq![Val::Array(as_values(n))];
    assert(a[0] == Val::Array(as_values(n)));
    if total(s) == mean * s.len() {
        law_whole_quotient(mean, s.len() as int);
    }
}

proof fn lemma_based(n: nat, base: nat)
    requires
        2 <= base <= 36,
    ensures
        based_text(n, base).len() > 0,
        based_number(based_text(n, base), base as int) == Some(n as int),
        based_text(n, base)[0] != '-' && based_text(n, base)[0] != '+',
    decreases n,
{
    let t = based_text(n, base);
    if n < base {
        assert(t.drop_last() =~= Seq::empty());
        assert(any_digit(digit_letter(n as int)) == Some(n as int));
        assert(based_number(t.drop_last(), base as int) == Some(0int));
        assert(0 * base == 0) by (nonlinear_arith);
    } else {
        vstd::arithmetic::div_mod::lemma_div_decreases(n as int, base as int);
        lemma_based(n / base, base);
        vstd::arithmetic::div_mod::lemma_fundamental_div_mod(n as int, base as int);
        vstd::arithmetic::div_mod::lemma_mod_bound(n as int, base as int);
        let d = (n % base) as int;
        assert(any_digit(digit_letter(d)) == Some(d));
        assert(t.drop_last() =~= based_text(n / base, base));
        assert((n / base) * base == base * (n / base)) by (nonlinear_arith);
        assert(t[0] == based_text(n / base, base)[0]);
    }
}

/// What `$formatBase` writes of a whole number is that number, read in the base.
pub proof fn law_format_base(n: int, base: int)
    requires
        0 <= n < WHOLE_LIMIT,
        2 <= base <= 36,
    ensures
        format_base(seq![Val::Number(Number::of_int(n)), Val::Number(Number::of_int(base))]) matches Ok(Val::String(t))
            && based_integer(t, base) == Some(n),
{
    let x = Number::of_int(n);
    let a = seq![Val::Number(x), Val::Number(Number::of_int(base))];
    assert(a[0] == Val::Number(x));
    assert(needed_number(a) == Ok::<Option<Number>, Seq<char>>(Some(x)));
    assert(arg(a, 1) == Val::Number(Number::of_int(base)));
    law_whole_numbers_come_back(base, 0, u32::MAX as int);
    lemma_rounds_to_itself(n);
    law_whole_numbers_come_back(n, i64::MIN as int, i64::MAX as int);
    lemma_based(n as nat, base as nat);
}

proof fn lemma_rounds_to_itself(n: int)
    requires
        0 <= n < WHOLE_LIMIT,
    ensures
        Number::of_int(n).round_spec() == Number::of_int(n),
{
    law_whole_numbers_are_exact(n);
    let x = Number::of_int(n);
    let p = vstd::arithmetic::power2::pow2(crate::number::UNIT as nat) as int;
    vstd::arithmetic::power2::lemma_pow2_pos(crate::number::UNIT as nat);
    vstd::arithmetic::div_mod::lemma_div_multiples_vanish(n, p);
    vstd::arithmetic::div_mod::lemma_mod_multiples_basic(n, p);
    assert(n * p == p * n) by (nonlinear_arith);
    assert(x.whole() == n);
}

/// A number in a base with the mark of that base before it, `0x`, `0o` or `0b`, is
/// what `$number` reads.
pub proof fn law_number_in_a_base(n: int, mark: char, base: int, focus: Val)
    requires
        0 <= n <= i64::MAX,
        ({
            ||| base == 16 && (mark == 'x' || mark == 'X')
            ||| base == 8 && (mark == 'o' || mark == 'O')
            ||| base == 2 && (mark == 'b' || mark == 'B')
        }),
    ensures
        number_result(seq![Val::String(seq!['0', mark] + based_text(n as nat, base as nat))], focus) == Ok::<
            Val,
            Seq<char>,
        >(Val::Number(Number::of_int(n))),
{
    let d = based_text(n as nat, base as nat);
    let s = seq!['0', mark] + d;
    lemma_based(n as nat, base as nat);
    lemma_last_digit(n as nat, base as nat);
    assert(s[0] == '0' && s[1] == mark && s.last() == d.last());
    assert(space_run(s, 0) == 0);
    assert(space_tail(s, s.len() as int) == s.len());
    assert(s.subrange(0, s.len() as int) =~= s);
    assert(s.skip(2) =~= d);
    let a = seq![Val::String(s)];
    assert(a[0] == Val::String(s));
}

proof fn lemma_last_digit(n: nat, base: nat)
    requires
        2 <= base <= 36,
    ensures
        based_text(n, base).len() > 0,
        !white_space(based_text(n, base).last()),
{
    if n >= base {
        vstd::arithmetic::div_mod::lemma_mod_bound(n as int, base as int);
    }
}

// ── Texts ────────────────────────────────────────────────────────────────────

/// `$length` counts characters: none in an empty text, and one more for each.
pub proof fn law_length(s: Seq<char>, c: char, focus: Val)
    ensures
        length(seq![Val::String(Seq::empty())], focus) == Ok::<Val, Seq<char>>(Val::Number(Number::of_int(0))),
        length(seq![Val::String(s)], focus) == Ok::<Val, Seq<char>>(Val::Number(Number::of_int(s.len() as int))),
        length(seq![Val::String(s.push(c))], focus) == Ok::<Val, Seq<char>>(
            Val::Number(Number::of_int(1 + s.len() as int)),
        ),
{
}

/// A text is its first characters and the rest; a start below zero counts from
/// the end.
pub proof fn law_substring(s: Seq<char>, i: int, k: int)
    requires
        0 <= i <= s.len() < WHOLE_LIMIT,
        s.len() <= usize::MAX,
        0 < k <= s.len(),
    ensures
        ({
            let at = |n: int| Val::Number(Number::of_int(n));
            let text = Val::String(s);
            &&& substring(seq![text, at(0), at(i)]) matches Ok(Val::String(a)) && substring(
                seq![text, at(i)],
            ) matches Ok(Val::String(b)) && a + b == s && a.len() == i
            &&& substring(seq![text, at(-k)]) == substring(seq![text, at(s.len() - k)])
            &&& substring(seq![text, at(-k)]) matches Ok(Val::String(c)) && c.len() == k
        }),
{
    law_whole_numbers_come_back(0, i64::MIN as int, i64::MAX as int);
    law_whole_numbers_come_back(i, i64::MIN as int, i64::MAX as int);
    law_whole_numbers_come_back(i, 0, usize::MAX as int);
    law_whole_numbers_come_back(-k, i64::MIN as int, i64::MAX as int);
    law_whole_numbers_come_back(s.len() - k, i64::MIN as int, i64::MAX as int);
    let a = part_of(s, 0, Some(i));
    let b = part_of(s, i, None);
    assert(s.skip(0) =~= s);
    assert(a =~= s.take(i));
    assert(a + b =~= s);
}

/// A padded text begins with the text where the width is above zero and ends with
/// it where it is below; the rest goes through the padding again and again.
pub proof fn law_padding(s: Seq<char>, width: int, p: Seq<char>, i: int)
    requires
        p.len() > 0,
        0 <= i,
    ensures
        ({
            let t = padded(s, width, p);
            &&& width > 0 ==> t.take(s.len() as int) == s && (s.len() + i < t.len() ==> t[s.len() + i] == p[i
                % p.len() as int])
            &&& width < 0 ==> t.skip(t.len() - s.len()) == s && (i < t.len() - s.len() ==> t[i] == p[i % p.len() as int])
            &&& width == 0 ==> t == s
        }),
{
    let t = padded(s, width, p);
    assert(width > 0 ==> t.take(s.len() as int) =~= s);
    assert(width < 0 ==> t.skip(t.len() - s.len()) =~= s);
}

proof fn lemma_first(s: Seq<char>, p: Seq<char>, from: int)
    requires
        0 <= from,
    ensures
        match find_seq(s, p, from) {
            Some(i) => from <= i && occurs_at(s, p, i) && forall|k: int| from <= k < i ==> !#[trigger] occurs_at(s, p, k),
            None => forall|k: int| from <= k ==> !#[trigger] occurs_at(s, p, k),
        },
    decreases s.len() + 1 - from,
{
    if from <= s.len() && !occurs_at(s, p, from) {
        lemma_first(s, p, from + 1);
    }
}

/// `$contains` holds exactly when the text is something, the other and something
/// else.
pub proof fn law_contains(s: Seq<char>, p: Seq<char>, focus: Val)
    ensures
        contains(seq![Val::String(s), Val::String(p)], focus) == Ok::<Val, Seq<char>>(
            Val::Bool(exists|a: Seq<char>, b: Seq<char>| s == #[trigger] (a + p + b)),
        ),
{
    lemma_first(s, p, 0);
    match find_seq(s, p, 0) {
        Some(i) => {
            let (a, b) = (s.take(i), s.skip(i + p.len()));
            assert(s =~= a + p + b);
        },
        None => {
            if exists|a: Seq<char>, b: Seq<char>| s == #[trigger] (a + p + b) {
                let (a, b) = choose|a: Seq<char>, b: Seq<char>| s == #[trigger] (a + p + b);
                assert(s.subrange(a.len() as int, a.len() as int + p.len()) =~= p);
                assert(occurs_at(s, p, a.len() as int));
            }
        },
    }
}

/// What stands before a separator ends at the first place where it occurs.
pub proof fn law_before_the_first(s: Seq<char>, sep: Seq<char>, k: int)
    requires
        0 <= k < before(s, sep).len(),
    ensures
        !occurs_at(s, sep, k),
{
    lemma_first(s, sep, 0);
}

/// Whether a separator is nowhere in a text.
pub open spec fn without(t: Seq<char>, sep: Seq<char>) -> bool {
    forall|j: int| !#[trigger] occurs_at(t, sep, j)
}

proof fn lemma_piece(s: Seq<char>, sep: Seq<char>, start: int, end: int)
    requires
        0 <= start <= end <= s.len(),
        sep.len() > 0,
        forall|j: int| start <= j < end ==> !#[trigger] occurs_at(s, sep, j),
    ensures
        without(s.subrange(start, end), sep),
{
    let t = s.subrange(start, end);
    assert forall|j: int| !#[trigger] occurs_at(t, sep, j) by {
        if occurs_at(t, sep, j) {
            assert(s.subrange(start + j, start + j + sep.len()) =~= t.subrange(j, j + sep.len()));
            assert(occurs_at(s, sep, start + j));
        }
    }
}

/// A piece of a split text that begins at a place.
#[verifier::spinoff_prover]
proof fn lemma_pieces(s: Seq<char>, sep: Seq<char>, start: int, i: int, k: int)
    requires
        0 <= start <= i <= s.len(),
        sep.len() > 0,
        forall|j: int| start <= j < i ==> !#[trigger] occurs_at(s, sep, j),
        0 <= k < split_from(s, sep, start, i).len(),
    ensures
        without(split_from(s, sep, start, i)[k], sep),
    decreases s.len() - i,
{
    let all = split_from(s, sep, start, i);
    if i >= s.len() {
        assert(s.skip(start) =~= s.subrange(start, i));
        lemma_piece(s, sep, start, i);
        assert(all == seq![s.skip(start)]);
        assert(all[k] == s.subrange(start, i));
    } else if occurs_at(s, sep, i) {
        let next = i + sep.len();
        let more = split_from(s, sep, next, next);
        assert(all == seq![s.subrange(start, i)] + more);
        if k == 0 {
            lemma_piece(s, sep, start, i);
            assert(all[0] == s.subrange(start, i));
        } else {
            assert(all[k] == more[k - 1]);
            lemma_pieces(s, sep, next, next, k - 1);
        }
    } else {
        assert forall|j: int| start <= j < i + 1 implies !#[trigger] occurs_at(s, sep, j) by {}
        assert(all == split_from(s, sep, start, i + 1));
        lemma_pieces(s, sep, start, i + 1, k);
    }
}

/// None of the pieces that `$split` gives has the separator in it; with a limit
/// it gives the first of those that it gives without.
pub proof fn law_split(s: Seq<char>, sep: Seq<char>, limit: int, k: int)
    requires
        sep.len() > 0,
        0 <= limit < WHOLE_LIMIT,
        limit <= usize::MAX,
    ensures
        split(seq![Val::String(s), Val::String(sep)]) matches Ok(Val::Array(all)) && {
            &&& 0 <= k < all.len() ==> (all[k] matches Val::String(t) && without(t, sep))
            &&& split(seq![Val::String(s), Val::String(sep), Val::Number(Number::of_int(limit))]) == Ok::<
                Val,
                Seq<char>,
            >(
                Val::Array(
                    all.take(
                        if limit < all.len() {
                            limit
                        } else {
                            all.len() as int
                        },
                    ),
                ),
            )
        },
{
    let parts = split_from(s, sep, 0, 0);
    let f = |t: Seq<char>| Val::String(t);
    let all = parts.map_values(f);
    assert(parts.take(parts.len() as int) =~= parts);
    if 0 <= k < all.len() {
        lemma_pieces(s, sep, 0, 0, k);
    }
    law_whole_numbers_are_exact(limit);
    law_whole_numbers_come_back(limit, 0, usize::MAX as int);
    law_whole_numbers_are_exact(0);
    let n = if limit < all.len() {
        limit
    } else {
        all.len() as int
    };
    assert(parts.take(n).map_values(f) =~= all.take(n));
}

// ── Arrays ───────────────────────────────────────────────────────────────────

/// `$reverse` puts each element as far from the end as it was from the start.
pub proof fn law_reverse(s: Seq<Val>, i: int)
    requires
        0 <= i < s.len(),
    ensures
        reverse(seq![Val::Array(s)]) matches Ok(Val::Array(t)) && t.len() == s.len() && t[s.len() - 1 - i] == s[i],
{
}

/// Appended arrays have as many elements as both, and backwards are the second
/// backwards and the first backwards.
pub proof fn law_append(s: Seq<Val>, t: Seq<Val>)
    requires
        s.len() + t.len() <= MAX_APPEND_SIZE,
    ensures
        append(seq![Val::Array(s), Val::Array(t)]) matches Ok(both) && {
            &&& count(seq![both]) == Ok::<Val, Seq<char>>(Val::Number(Number::of_int((s.len() + t.len()) as int)))
            &&& reverse(seq![both]) == append(
                seq![reverse(seq![Val::Array(t)])->Ok_0, reverse(seq![Val::Array(s)])->Ok_0],
            )
            &&& both matches Val::Array(r) && r.take(s.len() as int) == s
        },
{
    assert((s + t).reverse() =~= t.reverse() + s.reverse());
    assert((s + t).take(s.len() as int) =~= s);
}

proof fn lemma_shortest(a: Seq<Val>, k: int)
    requires
        0 <= k < a.len(),
    ensures
        shortest(a) <= elements(a[k]).len(),
        exists|j: int| 0 <= j < a.len() && shortest(a) == elements(#[trigger] a[j]).len(),
    decreases a.len(),
{
    if a.len() == 1 {
        assert(shortest(a) == elements(a[0]).len());
    } else {
        let rest = a.drop_last();
        let last = a[a.len() - 1];
        if k < rest.len() {
            lemma_shortest(rest, k);
        } else {
            lemma_shortest(rest, 0);
        }
        let j = choose|j: int| 0 <= j < rest.len() && shortest(rest) == elements(#[trigger] rest[j]).len();
        assert(a[j] == rest[j]);
        if shortest(a) != shortest(rest) {
            assert(shortest(a) == elements(last).len());
        }
    }
}

/// `$zip` gives as many rows as the shortest argument has elements; each holds
/// what stands at its place in each argument.
pub proof fn law_zip(a: Seq<Val>, i: int, k: int)
    requires
        0 <= k < a.len(),
        forall|j: int| 0 <= j < a.len() ==> (#[trigger] a[j]) is Array,
    ensures
        zip(a) matches Ok(Val::Array(rows)) && {
            &&& rows.len() <= a[k]->Array_0.len()
            &&& exists|j: int| 0 <= j < a.len() && rows.len() == (#[trigger] a[j])->Array_0.len()
            &&& 0 <= i < rows.len() ==> (rows[i] matches Val::Array(row) && row.len() == a.len() && row[k]
                == a[k]->Array_0[i])
        },
{
    lemma_shortest(a, k);
    let j = choose|j: int| 0 <= j < a.len() && shortest(a) == elements(#[trigger] a[j]).len();
    assert(a[j] is Array);
    assert(a[k] is Array);
}

/// `$flatten` takes arrays one after another, and an array in an array for its
/// elements, one level less deep.
pub proof fn law_flatten(s: Seq<Val>, t: Seq<Val>, depth: int)
    requires
        depth > 0,
    ensures
        flattened(s + t, depth) == flattened(s, depth) + flattened(t, depth),
        flattened(seq![Val::Array(s)], depth) == flattened(s, depth - 1),
        flattened(s, 0) == s,
        (forall|i: int| 0 <= i < s.len() ==> !((#[trigger] s[i]) is Array)) ==> flattened(s, depth) == s,
    decreases s.len() + t.len(),
{
    lemma_flatten_added(s, t, depth);
    lemma_flat(s, 0);
    assert(seq![Val::Array(s)].drop_last() =~= Seq::empty());
    assert(flattened(Seq::empty(), depth) =~= Seq::empty());
    assert(Seq::<Val>::empty() + flattened(s, depth - 1) =~= flattened(s, depth - 1));
    if forall|i: int| 0 <= i < s.len() ==> !((#[trigger] s[i]) is Array) {
        lemma_flat(s, depth);
    }
}

proof fn lemma_flatten_added(s: Seq<Val>, t: Seq<Val>, depth: int)
    ensures
        flattened(s + t, depth) == flattened(s, depth) + flattened(t, depth),
    decreases t.len(),
{
    if t.len() == 0 {
        assert(s + t =~= s);
        assert(flattened(s, depth) + flattened(t, depth) =~= flattened(s, depth));
    } else {
        lemma_flatten_added(s, t.drop_last(), depth);
        assert((s + t).drop_last() =~= s + t.drop_last());
        assert((s + t).last() == t.last());
        match t.last() {
            Val::Array(inner) if depth > 0 => {
                let (a, b, c) = (
                    flattened(s, depth),
                    flattened(t.drop_last(), depth),
                    flattened(inner, depth - 1),
                );
                assert(a + b + c =~= a + (b + c));
            },
            v => {
                let (a, b) = (flattened(s, depth), flattened(t.drop_last(), depth));
                assert((a + b).push(v) =~= a + b.push(v));
            },
        }
    }
}

proof fn lemma_flat(s: Seq<Val>, depth: int)
    requires
        depth <= 0 || forall|i: int| 0 <= i < s.len() ==> !((#[trigger] s[i]) is Array),
    ensures
        flattened(s, depth) == s,
    decreases s.len(),
{
    if s.len() > 0 {
        let rest = s.drop_last();
        assert forall|i: int| depth > 0 && 0 <= i < rest.len() implies !((#[trigger] rest[i]) is Array) by {
            assert(rest[i] == s[i]);
        }
        assert(depth > 0 ==> !(s[s.len() - 1] is Array));
        lemma_flat(rest, depth);
        assert(rest.push(s.last()) =~= s);
    } else {
        assert(s =~= Seq::empty());
    }
}

// ── Truth ────────────────────────────────────────────────────────────────────

/// An array is true exactly when one of its elements is, where all of them are
/// true or false.
pub proof fn law_truth_of_arrays(s: Seq<Val>)
    requires
        forall|i: int| 0 <= i < s.len() ==> truth(#[trigger] s[i]) is Ok,
    ensures
        truth(Val::Array(s)) == Ok::<bool, Seq<char>>(
            exists|i: int| 0 <= i < s.len() && truth(#[trigger] s[i]) == Ok::<bool, Seq<char>>(true),
        ),
{
    lemma_truth_any(s);
}

proof fn lemma_truth_any(s: Seq<Val>)
    requires
        forall|i: int| 0 <= i < s.len() ==> truth(#[trigger] s[i]) is Ok,
    ensures
        truth_any(s) == Ok::<bool, Seq<char>>(
            exists|i: int| 0 <= i < s.len() && truth(#[trigger] s[i]) == Ok::<bool, Seq<char>>(true),
        ),
    decreases s.len(),
{
    if s.len() > 0 {
        let rest = s.drop_last();
        assert forall|i: int| 0 <= i < rest.len() implies truth(#[trigger] rest[i]) is Ok by {
            assert(rest[i] == s[i]);
        }
        lemma_truth_any(rest);
        let last = s[s.len() - 1];
        assert(truth(last) is Ok);
        if exists|i: int| 0 <= i < rest.len() && truth(#[trigger] rest[i]) == Ok::<bool, Seq<char>>(true) {
            let i = choose|i: int| 0 <= i < rest.len() && truth(#[trigger] rest[i]) == Ok::<bool, Seq<char>>(true);
            assert(s[i] == rest[i]);
        }
        if exists|i: int| 0 <= i < s.len() && truth(#[trigger] s[i]) == Ok::<bool, Seq<char>>(true) {
            let i = choose|i: int| 0 <= i < s.len() && truth(#[trigger] s[i]) == Ok::<bool, Seq<char>>(true);
            if i < rest.len() {
                assert(rest[i] == s[i]);
            }
        }
    }
}

// ── The order of texts ───────────────────────────────────────────────────────

proof fn lemma_same_start(a: Seq<char>, b: Seq<char>, from: int, to: int)
    requires
        0 <= from <= to,
        to <= a.len(),
        to <= b.len(),
        forall|k: int| from <= k < to ==> a[k] == b[k],
    ensures
        text_before(a, b, from) == text_before(a, b, to),
    decreases to - from,
{
    if from < to {
        lemma_same_start(a, b, from + 1, to);
    }
}

/// Texts go by the first character in which they differ, and one that another
/// begins with comes before it. `<` and `>` say so of the two in either order,
/// and `>=` and `<=` the contrary.
pub proof fn law_text_order(p: Seq<char>, c: char, s: Seq<char>, d: char, t: Seq<char>)
    requires
        c != d,
    ensures
        ({
            let a = Val::String(p + seq![c] + s);
            let b = Val::String(p + seq![d] + t);
            let yes = |v: bool| Ok::<Val, Seq<char>>(Val::Bool(v));
            &&& compared(a, b, CompareOp::Lt) == yes(c < d)
            &&& compared(a, b, CompareOp::Gt) == yes(c > d)
            &&& compared(a, b, CompareOp::Le) == yes(c < d)
            &&& compared(a, b, CompareOp::Ge) == yes(c > d)
            &&& compared(Val::String(p), a, CompareOp::Lt) == yes(true)
            &&& compared(Val::String(p), a, CompareOp::Gt) == yes(false)
            &&& compared(a, a, CompareOp::Le) == yes(true)
            &&& compared(a, a, CompareOp::Lt) == yes(false)
            &&& ordered(a, b) == Ok::<int, Seq<char>>(
                if c < d {
                    -1
                } else {
                    1
                },
            )
        }),
{
    let x = p + seq![c] + s;
    let y = p + seq![d] + t;
    let n = p.len() as int;
    assert(x[n] == c && y[n] == d);
    lemma_same_start(x, y, 0, n);
    lemma_same_start(y, x, 0, n);
    lemma_same_start(p, x, 0, n);
    lemma_same_start(x, p, 0, n);
    lemma_same_start(x, x, 0, x.len() as int);
}

} // verus!
