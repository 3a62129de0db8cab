//! `$number` undoes `$string`.
use vstd::prelude::*;

use super::numeric::{base_of, number_result};
use super::string_funcs::{arg_or_focus, string};
use crate::decimal::{
    ecma_digits, law_number_text_reads_back, law_shortest_exists, lemma_zero_rounds_to_zero, number_text, shortest_of,
};
use crate::number::Number;
use crate::text::{
    all_digits, ascii_space, is_digit, lemma_nat_text, nat_text, repeated, space_run, space_tail, trimmed, white_space,
};
use crate::value::Val;

verus! {

/// How a decimal begins and ends as ECMAScript writes it.
proof fn lemma_ecma_ends(d: Seq<char>, point: int)
    requires
        d.len() > 0,
        all_digits(d),
        d[0] != '0',
    ensures
        ({
            let s = ecma_digits(d, point);
            &&& s.len() > 0
            &&& is_digit(s[0])
            &&& is_digit(s.last())
            &&& s[0] == '0' ==> s.len() >= 2 && s[1] == '.'
        }),
{
    let s = ecma_digits(d, point);
    assert(is_digit(d[0]));
    assert(is_digit(d[d.len() - 1]));
    if d.len() <= point <= 21 {
        let k = (point - d.len()) as nat;
        if k > 0 {
            assert(s.last() == repeated('0', k)[k - 1]);
        } else {
            assert(s.last() == d[d.len() - 1]);
        }
        assert(s[0] == d[0]);
    } else if 0 < point <= 21 {
        assert(s[0] == d[0]);
        assert(s.last() == d[d.len() - 1]);
    } else if -6 < point <= 0 {
        assert(s.last() == d[d.len() - 1]);
    } else {
        let e = point - 1;
        let v = (if e < 0 {
            -e
        } else {
            e
        }) as nat;
        lemma_nat_text(v);
        let t = nat_text(v);
        assert(is_digit(t[t.len() - 1]));
        assert(s.last() == t[t.len() - 1]);
        assert(s[0] == d[0]);
    }
}

/// A text that neither begins nor ends with white space stays as it is.
proof fn lemma_trimmed(s: Seq<char>)
    requires
        s.len() > 0,
        !white_space(s[0]),
        !white_space(s.last()),
    ensures
        trimmed(s) == s,
{
    assert(space_run(s, 0) == 0);
    assert(space_tail(s, s.len() as int) == s.len());
    assert(s.subrange(0, s.len() as int) =~= s);
}

/// `$number` undoes `$string` on numbers: the text of a number is read as that
/// number. The negative zero is written without its sign.
pub proof fn law_number_undoes_string(x: Number, focus: Val)
    requires
        x.finite(),
        !(x.zero() && x.negative()),
    ensures
        string(seq![Val::Number(x)], focus) == Ok::<Val, Seq<char>>(Val::String(number_text(x))),
        number_result(seq![Val::String(number_text(x))], focus) == Ok::<Val, Seq<char>>(Val::Number(x)),
{
    let a = seq![Val::Number(x)];
    assert(arg_or_focus(a, focus) == Val::Number(x));
    let s = number_text(x);
    let b = seq![Val::String(s)];
    assert(b[0] == Val::String(s));
    law_number_text_reads_back(x);
    assert(s.len() > 0 && !white_space(s[0]) && !white_space(s.last()) && !(s.len() >= 2 && s[0] == '0' && base_of(s[1])
        is Some)) by {
        if x.zero() {
            reveal_strlit("0");
            assert(white_space('0') == ascii_space('0'));
        } else {
            law_shortest_exists(x.mag());
            let (n, q) = shortest_of(x.mag());
            if n == 0 {
                lemma_zero_rounds_to_zero(q);
            }
            lemma_nat_text(n);
            let d = nat_text(n);
            lemma_ecma_ends(d, d.len() + q);
            let t = ecma_digits(d, d.len() + q);
            assert(white_space(s[0]) == ascii_space(s[0])) by {
                assert(s[0] <= '\x7f');
            }
            assert(s.last() == t.last());
            assert(white_space(s.last()) == ascii_space(s.last())) by {
                assert(s.last() <= '\x7f');
            }
        }
    }
    lemma_trimmed(s);
}

} // verus!
