//! Numbers in words can be read back.
use vstd::prelude::*;

use super::format_integer::{
    capitalised, cased_words, format_integer, integer_text, mandatory_count, small_word, titled_from, word_break,
    words_token, LARGEST,
};
use super::integer_laws::{
    digits_picture, law_digits_round_trip, law_letters_round_trip, law_roman_round_trip, letters_picture,
};
use super::number_words::{
    count_words, last_word_start, ones_word, ordinal_phrase, ordinal_table, picture_modifier, picture_token, scale_of,
    scale_word, small_words, table_first, table_second, tens_word, tens_words, words_of,
};
use super::parse_integer::{
    cardinal_phrase, empty_tally, ones_value, parsed_integer, parse_integer, phrase_number, spaced, tallied, tens_value,
    word_value, words_number, Tally,
};
use crate::number::{
    law_whole_numbers_are_exact, law_whole_numbers_come_back, WHOLE_LIMIT, law_whole_product, law_whole_sum, Number,
};
use crate::text::{
    ascii_lower_all, ascii_space, find_char, ascii_text, ascii_upper, ascii_upper_all, lemma_ascii_cases, lowercase,
    space_run, white_space, word_run, words_from,
};
use crate::value::Val;

verus! {

// ── The words ────────────────────────────────────────────────────────────────

/// A number that tells the words of the table apart, made of the length of a
/// word and four of its letters.
#[verifier::opaque]
spec fn key(w: Seq<char>) -> int {
    if w.len() < 3 {
        0
    } else {
        (((w.len() * 128 + w[0] as int) * 128 + w[1] as int) * 128 + w[2] as int) * 128 + w.last() as int
    }
}

/// The place of a word in the table by its key: the cardinals from 0, the
/// ordinals from 100, and two words that are not in it.
#[verifier::opaque]
spec fn place(key: int) -> int {
    if key == 1039905509 {
        0
    } else if key == 1050540015 {
        1
    } else if key == 1587165541 {
        2
    } else if key == 1289485042 {
        3
    } else if key == 1289386853 {
        4
    } else if key == 1048214648 {
        5
    } else if key == 1585019758 {
        6
    } else if key == 1555723252 {
        7
    } else if key == 1306163045 {
        8
    } else if key == 1050244974 {
        9
    } else if key == 1824207598 {
        10
    } else if key == 1855845093 {
        11
    } else if key == 2392470766 {
        12
    } else if key == 2363226862 {
        13
    } else if key == 2094691182 {
        14
    } else if key == 2121956462 {
        15
    } else if key == 2658761582 {
        16
    } else if key == 2361029614 {
        17
    } else if key == 2379904878 {
        18
    } else if key == 1855845113 {
        19
    } else if key == 1855599865 {
        20
    } else if key == 1557920121 {
        21
    } else if key == 1557820281 {
        22
    } else if key == 1585085561 {
        23
    } else if key == 2121890681 {
        24
    } else if key == 1824158713 {
        25
    } else if key == 1843033977 {
        26
    } else if key == 2099083108 {
        27
    } else if key == 2392471524 {
        28
    } else if key == 2109372014 {
        29
    } else if key == 2086303342 {
        30
    } else if key == 2392634606 {
        31
    } else if key == 1557821812 {
        100
    } else if key == 1853452772 {
        101
    } else if key == 1587164388 {
        102
    } else if key == 1826355944 {
        103
    } else if key == 1557820264 {
        104
    } else if key == 1585085544 {
        105
    } else if key == 2121890664 {
        106
    } else if key == 1824158696 {
        107
    } else if key == 1574598504 {
        108
    } else if key == 1587115880 {
        109
    } else if key == 2361078504 {
        110
    } else if key == 2124280552 {
        111
    } else if key == 2929341672 {
        112
    } else if key == 2900097768 {
        113
    } else if key == 2631562088 {
        114
    } else if key == 2658827368 {
        115
    } else if key == 3195632488 {
        116
    } else if key == 2897900520 {
        117
    } else if key == 2916775784 {
        118
    } else if key == 2661151464 {
        119
    } else if key == 2660906216 {
        120
    } else if key == 2363226472 {
        121
    } else if key == 2363126632 {
        122
    } else if key == 2390391912 {
        123
    } else if key == 2927197032 {
        124
    } else if key == 2629465064 {
        125
    } else if key == 2648340328 {
        126
    } else if key == 2635954024 {
        127
    } else if key == 2929342440 {
        128
    } else if key == 2646242920 {
        129
    } else if key == 2623174248 {
        130
    } else if key == 2929505512 {
        131
    } else if key == 1331263855 {
        200
    } else if key == 1010545252 {
        201
    } else {
        -1
    }
}

/// Whether a word is of small letters only.
spec fn bare(w: Seq<char>) -> bool {
    w.len() > 0 && forall|i: int| 0 <= i < w.len() ==> 'a' <= #[trigger] w[i] <= 'z'
}

/// The cardinal at a place of the table.
spec fn cardinal(k: int) -> Seq<char> {
    ordinal_table()[k].0
}

/// The ordinal at a place of the table.
spec fn ordinal(k: int) -> Seq<char> {
    ordinal_table()[k].1
}

/// Each word of the table has its own place.
proof fn lemma_places(k: int)
    requires
        0 <= k < 32,
    ensures
        ordinal_table().len() == 32,
        place(key(cardinal(k))) == k,
        place(key(ordinal(k))) == 100 + k,
        bare(cardinal(k)),
        bare(ordinal(k)),
{
    reveal(key);
    reveal(place);
    if k == 0 {
        reveal_strlit("one");
        reveal_strlit("first");
    } else if k == 1 {
        reveal_strlit("two");
        reveal_strlit("second");
    } else if k == 2 {
        reveal_strlit("three");
        reveal_strlit("third");
    } else if k == 3 {
        reveal_strlit("four");
        reveal_strlit("fourth");
    } else if k == 4 {
        reveal_strlit("five");
        reveal_strlit("fifth");
    } else if k == 5 {
        reveal_strlit("six");
        reveal_strlit("sixth");
    } else if k == 6 {
        reveal_strlit("seven");
        reveal_strlit("seventh");
    } else if k == 7 {
        reveal_strlit("eight");
        reveal_strlit("eighth");
    } else if k == 8 {
        reveal_strlit("nine");
        reveal_strlit("ninth");
    } else if k == 9 {
        reveal_strlit("ten");
        reveal_strlit("tenth");
    } else if k == 10 {
        reveal_strlit("eleven");
        reveal_strlit("eleventh");
    } else if k == 11 {
        reveal_strlit("twelve");
        reveal_strlit("twelfth");
    } else if k == 12 {
        reveal_strlit("thirteen");
        reveal_strlit("thirteenth");
    } else if k == 13 {
        reveal_strlit("fourteen");
        reveal_strlit("fourteenth");
    } else if k == 14 {
        reveal_strlit("fifteen");
        reveal_strlit("fifteenth");
    } else if k == 15 {
        reveal_strlit("sixteen");
        reveal_strlit("sixteenth");
    } else if k == 16 {
        reveal_strlit("seventeen");
        reveal_strlit("seventeenth");
    } else if k == 17 {
        reveal_strlit("eighteen");
        reveal_strlit("eighteenth");
    } else if k == 18 {
        reveal_strlit("nineteen");
        reveal_strlit("nineteenth");
    } else if k == 19 {
        reveal_strlit("twenty");
        reveal_strlit("twentieth");
    } else if k == 20 {
        reveal_strlit("thirty");
        reveal_strlit("thirtieth");
    } else if k == 21 {
        reveal_strlit("forty");
        reveal_strlit("fortieth");
    } else if k == 22 {
        reveal_strlit("fifty");
        reveal_strlit("fiftieth");
    } else if k == 23 {
        reveal_strlit("sixty");
        reveal_strlit("sixtieth");
    } else if k == 24 {
        reveal_strlit("seventy");
        reveal_strlit("seventieth");
    } else if k == 25 {
        reveal_strlit("eighty");
        reveal_strlit("eightieth");
    } else if k == 26 {
        reveal_strlit("ninety");
        reveal_strlit("ninetieth");
    } else if k == 27 {
        reveal_strlit("hundred");
        reveal_strlit("hundredth");
    } else if k == 28 {
        reveal_strlit("thousand");
        reveal_strlit("thousandth");
    } else if k == 29 {
        reveal_strlit("million");
        reveal_strlit("millionth");
    } else if k == 30 {
        reveal_strlit("billion");
        reveal_strlit("billionth");
    } else if k == 31 {
        reveal_strlit("trillion");
        reveal_strlit("trillionth");
    }
}

proof fn lemma_other_places()
    ensures
        place(key("zero"@)) == 200,
        place(key("and"@)) == 201,
        bare("zero"@),
        bare("and"@),
{
    reveal(key);
    reveal(place);
    reveal_strlit("zero");
    reveal_strlit("and");
}

/// The ordinal of a cardinal of the table is the one beside it.
proof fn lemma_second(k: int, from: int)
    requires
        0 <= from <= k < 32,
    ensures
        table_second(ordinal_table(), cardinal(k), from) == Some(ordinal(k)),
    decreases k - from,
{
    lemma_places(k);
    lemma_places(from);
    if from < k {
        lemma_second(k, from + 1);
    }
}

/// The cardinal of an ordinal of the table is the one beside it.
proof fn lemma_first(k: int, from: int)
    requires
        0 <= from <= k < 32,
    ensures
        table_first(ordinal_table(), ordinal(k), from) == Some(cardinal(k)),
    decreases k - from,
{
    lemma_places(k);
    lemma_places(from);
    if from < k {
        lemma_first(k, from + 1);
    }
}

/// A word with a place below the ordinals, or beyond them, is no ordinal.
proof fn lemma_no_ordinal(w: Seq<char>, from: int)
    requires
        0 <= from <= 32,
        place(key(w)) < 100 || place(key(w)) >= 200,
    ensures
        table_first(ordinal_table(), w, from) is None,
    decreases 32 - from,
{
    lemma_places(0);
    if from < 32 {
        lemma_places(from);
        lemma_no_ordinal(w, from + 1);
    }
}

/// What the cardinal at a place is worth.
spec fn worth(k: int) -> int {
    if k < 19 {
        k + 1
    } else if k < 27 {
        10 * (k - 17)
    } else if k == 27 {
        100
    } else if k == 28 {
        1000
    } else if k == 29 {
        1_000_000
    } else if k == 30 {
        1_000_000_000
    } else {
        1_000_000_000_000
    }
}

proof fn lemma_ones_value(k: int, n: int)
    requires
        0 <= k < 32,
        1 <= n <= 20,
        k >= 19 || n <= k + 1,
    ensures
        ones_value(cardinal(k), n) == (if k < 19 {
            Some(k + 1)
        } else {
            None::<int>
        }),
    decreases 20 - n,
{
    lemma_places(k);
    if n <= 19 {
        lemma_places(n - 1);
        assert(ones_word(n) == cardinal(n - 1));
        if n - 1 != k {
            lemma_ones_value(k, n + 1);
        }
    }
}

proof fn lemma_tens_value(k: int, n: int)
    requires
        19 <= k < 27,
        2 <= n <= k - 17,
    ensures
        tens_value(cardinal(k), n) == Some(10 * (k - 17)),
    decreases 10 - n,
{
    lemma_places(k);
    lemma_places(n + 17);
    assert(tens_word(n) == cardinal(n + 17));
    if n < k - 17 {
        lemma_tens_value(k, n + 1);
    }
}

/// A cardinal of the table is read as what it is worth.
proof fn lemma_worth(k: int)
    requires
        0 <= k < 32,
    ensures
        word_value(cardinal(k)) == Some(worth(k)),
        cardinal(k) != "and"@,
{
    lemma_places(k);
    lemma_other_places();
    lemma_places(27);
    lemma_places(28);
    lemma_places(29);
    lemma_places(30);
    lemma_places(31);
    assert(cardinal(27) == "hundred"@);
    assert(cardinal(28) == "thousand"@);
    assert(cardinal(29) == "million"@);
    assert(cardinal(30) == "billion"@);
    assert(cardinal(31) == "trillion"@);
    lemma_ones_value(k, 1);
    if 19 <= k < 27 {
        lemma_tens_value(k, 2);
    }
}

// ── Splitting ────────────────────────────────────────────────────────────────

/// Runs in a text that goes on after a space.
proof fn lemma_runs_before(a: Seq<char>, b: Seq<char>, i: int)
    requires
        0 <= i <= a.len(),
        white_space(' '),
    ensures
        ({
            let s = a + seq![' '] + b;
            &&& i <= space_run(a, i) <= a.len()
            &&& i <= word_run(a, i) <= a.len()
            &&& space_run(a, i) < a.len() ==> space_run(s, i) == space_run(a, i) && !white_space(a[space_run(a, i)])
            &&& space_run(a, i) == a.len() ==> space_run(s, i) == a.len() + 1 + space_run(b, 0)
            &&& i < a.len() ==> word_run(s, i) == word_run(a, i)
        }),
    decreases a.len() - i,
{
    let s = a + seq![' '] + b;
    if i < a.len() {
        assert(s[i] == a[i]);
        lemma_runs_before(a, b, i + 1);
        if i + 1 == a.len() {
            assert(s[i + 1] == ' ');
            assert(word_run(s, i + 1) == i + 1);
            assert(word_run(a, i + 1) == i + 1);
        }
    } else {
        assert(s[i] == ' ');
        lemma_runs_after(a, b, 0);
        assert(i + 1 == a.len() + 1 + 0);
        assert(space_run(s, i) == space_run(s, i + 1));
    }
}

/// Runs after the space are those of what follows it.
proof fn lemma_runs_after(a: Seq<char>, b: Seq<char>, j: int)
    requires
        0 <= j <= b.len(),
    ensures
        ({
            let s = a + seq![' '] + b;
            &&& space_run(s, a.len() + 1 + j) == a.len() + 1 + space_run(b, j)
            &&& word_run(s, a.len() + 1 + j) == a.len() + 1 + word_run(b, j)
            &&& j <= space_run(b, j) <= b.len()
            &&& j <= word_run(b, j) <= b.len()
            &&& space_run(b, j) < b.len() ==> !white_space(b[space_run(b, j)])
        }),
    decreases b.len() - j,
{
    let s = a + seq![' '] + b;
    if j < b.len() {
        assert(s[a.len() + 1 + j] == b[j]);
        lemma_runs_after(a, b, j + 1);
    }
}

/// The words after the space are those of what follows it.
proof fn lemma_words_after(a: Seq<char>, b: Seq<char>, j: int)
    requires
        0 <= j <= b.len(),
    ensures
        words_from(a + seq![' '] + b, a.len() + 1 + j) == words_from(b, j),
    decreases b.len() - j,
{
    let s = a + seq![' '] + b;
    lemma_runs_after(a, b, j);
    let x = space_run(b, j);
    if x < b.len() {
        lemma_runs_after(a, b, x);
        let y = word_run(b, x);
        assert(y > x) by {
            lemma_runs_after(a, b, x + 1);
        }
        lemma_words_after(a, b, y);
        assert(s.subrange(a.len() + 1 + x, a.len() + 1 + y) =~= b.subrange(x, y));
    }
}

/// The words of two texts with a space between are those of both.
proof fn lemma_words_join(a: Seq<char>, b: Seq<char>, i: int)
    requires
        0 <= i <= a.len(),
        white_space(' '),
    ensures
        words_from(a + seq![' '] + b, i) == words_from(a, i) + words_from(b, 0),
    decreases a.len() - i,
{
    let s = a + seq![' '] + b;
    lemma_runs_before(a, b, i);
    let x = space_run(a, i);
    if x < a.len() {
        lemma_runs_before(a, b, x);
        let y = word_run(a, x);
        assert(y > x) by {
            lemma_runs_before(a, b, x + 1);
        }
        lemma_words_join(a, b, y);
        assert(s.subrange(x, y) =~= a.subrange(x, y));
        assert(words_from(s, i) =~= words_from(a, i) + words_from(b, 0));
    } else {
        assert(words_from(a, i) == Seq::<Seq<char>>::empty());
        lemma_runs_after(a, b, 0);
        let z = space_run(b, 0);
        assert(space_run(s, i) == a.len() + 1 + z);
        lemma_words_after(a, b, 0);
        assert(space_run(s, a.len() + 1int) == a.len() + 1 + z);
        assert(words_from(s, i) == words_from(s, a.len() + 1int));
        assert(words_from(a, i) + words_from(b, 0) =~= words_from(b, 0));
    }
}

/// A word without white space is one word.
proof fn lemma_one_word(w: Seq<char>)
    requires
        bare(w),
    ensures
        words_from(w, 0) == seq![w],
{
    assert forall|i: int| 0 <= i < w.len() implies !white_space(#[trigger] w[i]) by {
        assert('a' <= w[i] <= 'z');
    }
    lemma_whole_run(w, 0);
    assert(space_run(w, 0) == 0);
    assert(w.subrange(0, w.len() as int) =~= w);
    assert(space_run(w, w.len() as int) == w.len());
    assert(words_from(w, w.len() as int) =~= Seq::empty());
    assert(words_from(w, 0) =~= seq![w]);
}

proof fn lemma_whole_run(w: Seq<char>, i: int)
    requires
        0 <= i <= w.len(),
        forall|k: int| 0 <= k < w.len() ==> !white_space(#[trigger] w[k]),
    ensures
        word_run(w, i) == w.len(),
    decreases w.len() - i,
{
    if i < w.len() {
        lemma_whole_run(w, i + 1);
    }
}

/// A phrase of small letters, spaces, commas and hyphens.
spec fn plain_phrase(s: Seq<char>) -> bool {
    forall|i: int| 0 <= i < s.len() ==> #[trigger] plain_char(s[i])
}

spec fn plain_char(c: char) -> bool {
    'a' <= c <= 'z' || c == ' ' || c == ',' || c == '-'
}

/// The word at a place; below the table it is the one that is not counted.
spec fn word(k: int) -> Seq<char> {
    if k < 0 {
        "and"@
    } else {
        cardinal(k)
    }
}

spec fn words_at(l: Seq<int>) -> Seq<Seq<char>> {
    l.map_values(|k: int| word(k))
}

spec fn places(l: Seq<int>) -> bool {
    forall|i: int| 0 <= i < l.len() ==> (#[trigger] l[i]) < 32
}

/// Whether a phrase ends with a word that stands alone.
spec fn ends_with(s: Seq<char>, w: Seq<char>) -> bool {
    &&& w.len() <= s.len()
    &&& s.skip(s.len() - w.len()) == w
    &&& s.len() > w.len() ==> s[s.len() - w.len() - 1] == ' ' || s[s.len() - w.len() - 1] == '-'
}

/// Whether a phrase spells words.
spec fn spells(s: Seq<char>, l: Seq<int>) -> bool {
    &&& plain_phrase(s)
    &&& l.len() > 0
    &&& places(l)
    &&& 0 <= l.last()
    &&& words_from(spaced(s), 0) == words_at(l)
    &&& ends_with(s, word(l.last()))
}

proof fn lemma_spaced_bare(w: Seq<char>)
    requires
        bare(w),
    ensures
        spaced(w) == w,
        plain_phrase(w),
{
    assert forall|i: int| 0 <= i < w.len() implies #[trigger] plain_char(w[i]) by {
        assert('a' <= w[i] <= 'z');
    }
    assert forall|i: int| 0 <= i < w.len() implies #[trigger] spaced(w)[i] == w[i] by {
        assert('a' <= w[i] <= 'z');
    }
    assert(spaced(w) =~= w);
}

proof fn lemma_spells_one(k: int)
    requires
        0 <= k < 32,
    ensures
        spells(cardinal(k), seq![k]),
{
    let w = cardinal(k);
    lemma_places(k);
    lemma_spaced_bare(w);
    lemma_one_word(w);
    assert(words_at(seq![k]) =~= seq![w]);
    assert(w.skip(0) =~= w);
}

/// What a break between words is.
spec fn is_break(sep: Seq<char>) -> bool {
    sep == " "@ || sep == "-"@ || sep == ", "@
}

/// The words of a phrase with a break in it are those of both sides.
proof fn lemma_words_across(a: Seq<char>, sep: Seq<char>, b: Seq<char>)
    requires
        is_break(sep),
    ensures
        words_from(spaced(a + sep + b), 0) == words_from(spaced(a), 0) + words_from(spaced(b), 0),
        sep.len() > 0,
        sep.last() == ' ' || sep.last() == '-',
        plain_phrase(sep),
{
    reveal_strlit(" ");
    reveal_strlit("-");
    reveal_strlit(", ");
    assert(white_space(' ') == ascii_space(' '));
    let x = spaced(a);
    let y = spaced(b);
    if sep == ", "@ {
        let e = Seq::<char>::empty();
        assert(spaced(a + sep + b) =~= x + seq![' '] + (e + seq![' '] + y));
        lemma_words_join(e, y, 0);
        assert(words_from(e, 0) =~= Seq::empty());
        assert(words_from(e, 0) + words_from(y, 0) =~= words_from(y, 0));
        lemma_words_join(x, e + seq![' '] + y, 0);
    } else {
        assert(spaced(a + sep + b) =~= x + seq![' '] + y);
        lemma_words_join(x, y, 0);
    }
}

/// Two phrases with a break between them spell the words of both.
proof fn lemma_spells_join(a: Seq<char>, la: Seq<int>, sep: Seq<char>, b: Seq<char>, lb: Seq<int>)
    requires
        spells(a, la),
        spells(b, lb),
        is_break(sep),
    ensures
        spells(a + sep + b, la + lb),
{
    let s = a + sep + b;
    lemma_words_across(a, sep, b);
    assert(words_at(la + lb) =~= words_at(la) + words_at(lb));
    assert forall|i: int| 0 <= i < s.len() implies #[trigger] plain_char(s[i]) by {
        if i < a.len() {
            assert(plain_char(a[i]));
        } else if i < a.len() + sep.len() {
            assert(plain_char(sep[i - a.len()]));
        } else {
            assert(plain_char(b[i - a.len() - sep.len()]));
        }
    }
    let l = la + lb;
    assert forall|i: int| 0 <= i < l.len() implies (#[trigger] l[i]) < 32 by {
        if i < la.len() {
            assert(la[i] < 32);
        } else {
            assert(lb[i - la.len()] < 32);
        }
    }
    assert(l.last() == lb.last());
    let w = word(l.last());
    assert(s.skip(s.len() - w.len()) =~= b.skip(b.len() - w.len()));
    if b.len() == w.len() {
        assert(s[s.len() - w.len() - 1] == sep.last());
    }
}

/// Two phrases with an "and" between them spell the words of both.
proof fn lemma_spells_and(a: Seq<char>, la: Seq<int>, b: Seq<char>, lb: Seq<int>)
    requires
        spells(a, la),
        spells(b, lb),
    ensures
        spells(a + " and "@ + b, la + seq![-1int] + lb),
{
    let s = a + " and "@ + b;
    let l = la + seq![-1int] + lb;
    reveal_strlit(" and ");
    reveal_strlit("and");
    reveal_strlit(" ");
    lemma_other_places();
    lemma_spaced_bare("and"@);
    lemma_one_word("and"@);
    let tail = "and"@ + " "@ + b;
    assert(s =~= a + " "@ + tail);
    lemma_words_across("and"@, " "@, b);
    lemma_words_across(a, " "@, tail);
    assert(words_at(l) =~= words_at(la) + (seq!["and"@] + words_at(lb)));
    assert forall|i: int| 0 <= i < s.len() implies #[trigger] plain_char(s[i]) by {
        if i < a.len() {
            assert(plain_char(a[i]));
        } else if i >= a.len() + 5 {
            assert(plain_char(b[i - a.len() - 5]));
        } else {
            assert(s[i] == " and "@[i - a.len()]);
        }
    }
    assert forall|i: int| 0 <= i < l.len() implies (#[trigger] l[i]) < 32 by {
        if i < la.len() {
            assert(la[i] < 32);
        } else if i > la.len() {
            assert(lb[i - la.len() - 1] < 32);
        }
    }
    assert(l.last() == lb.last());
    let w = word(l.last());
    assert(s.skip(s.len() - w.len()) =~= b.skip(b.len() - w.len()));
    if b.len() == w.len() {
        assert(s[s.len() - w.len() - 1] == " and "@[4]);
    }
}

// ── Numbers ──────────────────────────────────────────────────────────────────

/// The places of the words of a number below a hundred.
spec fn tens_list(n: int) -> Seq<int> {
    if n < 20 {
        seq![n - 1]
    } else if n % 10 == 0 {
        seq![n / 10 + 17]
    } else {
        seq![n / 10 + 17, n % 10 - 1]
    }
}

/// The places of the words of a number below a thousand.
spec fn small_list(n: int) -> Seq<int> {
    if n < 100 {
        tens_list(n)
    } else if n % 100 == 0 {
        seq![n / 100 - 1, 27]
    } else {
        seq![n / 100 - 1, 27] + seq![-1int] + tens_list(n % 100)
    }
}

/// The place of the name of a power of a thousand.
spec fn scale_place(v: int) -> int {
    if v == 1_000_000_000_000 {
        31
    } else if v == 1_000_000_000 {
        30
    } else if v == 1_000_000 {
        29
    } else {
        28
    }
}

/// The places of the words of a number.
spec fn count_list(n: int) -> Seq<int>
    decreases n,
{
    if n < 1000 {
        small_list(n)
    } else {
        let v = scale_of(n);
        let rest = n % v;
        let head = count_list(n / v) + seq![scale_place(v)];
        if rest == 0 {
            head
        } else if rest < 100 {
            head + seq![-1int] + count_list(rest)
        } else {
            head + count_list(rest)
        }
    }
}

proof fn lemma_tens_spelled(n: int)
    requires
        1 <= n < 100,
    ensures
        spells(tens_words(n), tens_list(n)),
{
    if n < 20 {
        assert(ones_word(n) == cardinal(n - 1));
        lemma_spells_one(n - 1);
    } else {
        let t = n / 10;
        assert(tens_word(t) == cardinal(t + 17));
        lemma_spells_one(t + 17);
        if n % 10 != 0 {
            let o = n % 10;
            assert(ones_word(o) == cardinal(o - 1));
            lemma_spells_one(o - 1);
            lemma_spells_join(tens_word(t), seq![t + 17], "-"@, ones_word(o), seq![o - 1]);
            assert(seq![t + 17] + seq![o - 1] =~= tens_list(n));
        }
    }
}

proof fn lemma_small_spelled(n: int)
    requires
        1 <= n < 1000,
    ensures
        spells(small_words(n), small_list(n)),
{
    if n < 100 {
        lemma_tens_spelled(n);
        assert(small_words(n) == tens_words(n));
    } else {
        let h = n / 100;
        assert(ones_word(h) == cardinal(h - 1));
        assert("hundred"@ == cardinal(27));
        lemma_spells_one(h - 1);
        lemma_spells_one(27);
        lemma_spells_join(ones_word(h), seq![h - 1], " "@, "hundred"@, seq![27int]);
        let head = ones_word(h) + " "@ + "hundred"@;
        let list = seq![h - 1, 27];
        assert(seq![h - 1] + seq![27int] =~= list);
        reveal_strlit(" ");
        reveal_strlit("hundred");
        reveal_strlit(" hundred");
        reveal_strlit(" hundred and ");
        reveal_strlit(" and ");
        if n % 100 == 0 {
            assert(small_words(n) =~= head);
        } else {
            lemma_tens_spelled(n % 100);
            lemma_spells_and(head, list, tens_words(n % 100), tens_list(n % 100));
            assert(small_words(n) =~= head + " and "@ + tens_words(n % 100));
        }
    }
}

/// A number in words spells the words at its places.
proof fn lemma_count_spelled(n: int)
    requires
        1 <= n,
    ensures
        spells(count_words(n), count_list(n)),
    decreases n,
{
    if n < 1000 {
        lemma_small_spelled(n);
    } else {
        let v = scale_of(n);
        let rest = n % v;
        let q = n / v;
        assert(1 <= q < n) by (nonlinear_arith)
            requires
                n >= v,
                v >= 1000,
                q == n / v,
        ;
        assert(0 <= rest < v);
        lemma_count_spelled(q);
        let p = scale_place(v);
        assert(scale_word(v) == cardinal(p));
        lemma_spells_one(p);
        lemma_spells_join(count_words(q), count_list(q), " "@, scale_word(v), seq![p]);
        let head = count_words(q) + " "@ + scale_word(v);
        let list = count_list(q) + seq![p];
        if rest > 0 {
            lemma_count_spelled(rest);
            if rest < 100 {
                lemma_spells_and(head, list, count_words(rest), count_list(rest));
            } else {
                lemma_spells_join(head, list, ", "@, count_words(rest), count_list(rest));
            }
        }
    }
}

// ── Counting ─────────────────────────────────────────────────────────────────

/// A tally of whole numbers.
spec fn whole_tally(total: int, current: int) -> Tally {
    Tally { total: Number::of_int(total), current: Number::of_int(current) }
}

/// A tally with one more word.
spec fn told(t: Tally, k: int) -> Tally {
    if k < 0 {
        t
    } else {
        tallied(t, worth(k))
    }
}

/// A tally with words from a place of a list on.
spec fn told_from(l: Seq<int>, i: int, t: Tally) -> Tally
    decreases l.len() - i,
{
    if i < 0 || i >= l.len() {
        t
    } else {
        told_from(l, i + 1, told(t, l[i]))
    }
}

/// Reading words counts them up.
proof fn lemma_told(l: Seq<int>, i: int, t: Tally)
    requires
        0 <= i <= l.len(),
        places(l),
    ensures
        ({
            let r = told_from(l, i, t);
            words_number(words_at(l), i, t) == Some(r.total.plus_spec(r.current))
        }),
    decreases l.len() - i,
{
    if i < l.len() {
        let k = l[i];
        lemma_told(l, i + 1, told(t, k));
        assert(words_at(l)[i] == word(k));
        if k >= 0 {
            lemma_worth(k);
        }
    }
}

/// Lists one after the other count up one after the other.
proof fn lemma_told_add(a: Seq<int>, b: Seq<int>, i: int, t: Tally)
    requires
        0 <= i <= a.len(),
    ensures
        told_from(a + b, i, t) == told_from(b, 0, told_from(a, i, t)),
    decreases a.len() - i,
{
    if i < a.len() {
        assert((a + b)[i] == a[i]);
        lemma_told_add(a, b, i + 1, told(t, a[i]));
    } else {
        lemma_told_shift(a, b, 0, t);
    }
}

proof fn lemma_told_shift(a: Seq<int>, b: Seq<int>, j: int, t: Tally)
    requires
        0 <= j <= b.len(),
    ensures
        told_from(a + b, a.len() + j, t) == told_from(b, j, t),
    decreases b.len() - j,
{
    if j < b.len() {
        assert((a + b)[a.len() + j] == b[j]);
        lemma_told_shift(a, b, j + 1, told(t, b[j]));
    }
}

/// A word below a hundred is added to the group.
proof fn lemma_tell_unit(total: int, current: int, k: int)
    requires
        0 <= k < 27,
        0 <= current < 1000,
    ensures
        told(whole_tally(total, current), k) == whole_tally(total, current + worth(k)),
{
    law_whole_sum(current, worth(k));
}

proof fn lemma_tens_told(total: int, current: int, n: int)
    requires
        1 <= n < 100,
        0 <= current < 1000,
    ensures
        told_from(tens_list(n), 0, whole_tally(total, current)) == whole_tally(total, current + n),
{
    reveal_with_fuel(told_from, 3);
    let t = whole_tally(total, current);
    let l = tens_list(n);
    if n < 20 {
        lemma_tell_unit(total, current, n - 1);
    } else {
        lemma_tell_unit(total, current, n / 10 + 17);
        if n % 10 != 0 {
            lemma_tell_unit_wide(total, current + 10 * (n / 10), n % 10 - 1);
        }
    }
}

proof fn lemma_tell_unit_wide(total: int, current: int, k: int)
    requires
        0 <= k < 27,
        0 <= current < 2000,
    ensures
        told(whole_tally(total, current), k) == whole_tally(total, current + worth(k)),
{
    law_whole_sum(current, worth(k));
}

proof fn lemma_small_told(total: int, n: int)
    requires
        1 <= n < 1000,
    ensures
        told_from(small_list(n), 0, whole_tally(total, 0)) == whole_tally(total, n),
{
    if n < 100 {
        lemma_tens_told(total, 0, n);
    } else {
        reveal_with_fuel(told_from, 4);
        let h = n / 100;
        let head = seq![h - 1, 27];
        lemma_tell_unit(total, 0, h - 1);
        law_whole_numbers_are_exact(h);
        law_whole_product(h, 100);
        assert(told_from(head, 0, whole_tally(total, 0)) == whole_tally(total, 100 * h));
        if n % 100 != 0 {
            let a = seq![-1int];
            let b = tens_list(n % 100);
            lemma_told_add(head + a, b, 0, whole_tally(total, 0));
            lemma_told_add(head, a, 0, whole_tally(total, 0));
            assert(told_from(a, 0, whole_tally(total, 100 * h)) == whole_tally(total, 100 * h));
            lemma_tens_told(total, 100 * h, n % 100);
        }
    }
}

/// The words of a number count up to it.
proof fn lemma_count_told(total: int, n: int) -> (r: (int, int))
    requires
        0 <= total,
        1 <= n,
        total + n < 1_000_000_000_000_000,
    ensures
        told_from(count_list(n), 0, whole_tally(total, 0)) == whole_tally(r.0, r.1),
        r.0 + r.1 == total + n,
        0 <= r.0,
        0 <= r.1 < 1000,
    decreases n,
{
    if n < 1000 {
        lemma_small_told(total, n);
        (total, n)
    } else {
        let v = scale_of(n);
        let rest = n % v;
        let q = n / v;
        assert(1 <= q < 1000);
        assert(q * v + rest == n) by {
            vstd::arithmetic::div_mod::lemma_fundamental_div_mod(n, v);
            vstd::arithmetic::mul::lemma_mul_is_commutative(q, v);
        }
        assert(count_list(q) == small_list(q));
        lemma_small_told(total, q);
        let p = scale_place(v);
        let head = count_list(q) + seq![p];
        reveal_with_fuel(told_from, 2);
        lemma_told_add(count_list(q), seq![p], 0, whole_tally(total, 0));
        law_whole_numbers_are_exact(q);
        law_whole_product(q, v);
        law_whole_sum(total, q * v);
        assert(worth(p) == v);
        let t2 = total + q * v;
        assert(told_from(head, 0, whole_tally(total, 0)) == whole_tally(t2, 0));
        if rest == 0 {
            (t2, 0)
        } else {
            let r = lemma_count_told(t2, rest);
            if rest < 100 {
                let a = seq![-1int];
                lemma_told_add(head + a, count_list(rest), 0, whole_tally(total, 0));
                lemma_told_add(head, a, 0, whole_tally(total, 0));
                assert(told_from(a, 0, whole_tally(t2, 0)) == whole_tally(t2, 0));
            } else {
                lemma_told_add(head, count_list(rest), 0, whole_tally(total, 0));
            }
            r
        }
    }
}

// ── Ordinals ─────────────────────────────────────────────────────────────────

/// The last word of a phrase begins where it was put.
proof fn lemma_last_start(s: Seq<char>, w: Seq<char>, to: int)
    requires
        ends_with(s, w),
        bare(w),
        s.len() - w.len() <= to <= s.len(),
    ensures
        last_word_start(s, to) == s.len() - w.len(),
    decreases to,
{
    let from = s.len() - w.len();
    if to > from {
        assert(s[to - 1] == s.skip(from)[to - 1 - from]);
        assert('a' <= w[to - 1 - from] <= 'z');
        lemma_last_start(s, w, to - 1);
    }
}

/// A phrase that ends with a cardinal stays as it is.
proof fn lemma_cardinal_stays(s: Seq<char>, w: Seq<char>)
    requires
        ends_with(s, w),
        bare(w),
        place(key(w)) < 100 || place(key(w)) >= 200,
    ensures
        cardinal_phrase(s) == s,
{
    lemma_last_start(s, w, s.len() as int);
    lemma_no_ordinal(w, 0);
}

/// Making an ordinal of a phrase is undone by making a cardinal of it.
proof fn lemma_ordinal_undone(s: Seq<char>, k: int)
    requires
        0 <= k < 32,
        ends_with(s, cardinal(k)),
        plain_phrase(s),
    ensures
        cardinal_phrase(ordinal_phrase(s)) == s,
        plain_phrase(ordinal_phrase(s)),
{
    let w = cardinal(k);
    let o = ordinal(k);
    lemma_places(k);
    let i = s.len() - w.len();
    lemma_last_start(s, w, s.len() as int);
    lemma_second(k, 0);
    let p = ordinal_phrase(s);
    assert(p == s.take(i) + o);
    assert(p.skip(i) =~= o);
    assert(p.len() - o.len() == i);
    if i > 0 {
        assert(p[i - 1] == s[i - 1]);
    }
    assert(ends_with(p, o));
    lemma_last_start(p, o, p.len() as int);
    lemma_first(k, 0);
    assert(p.take(i) =~= s.take(i));
    assert(s.take(i) + w =~= s) by {
        assert(s =~= s.take(i) + s.skip(i));
    }
    assert forall|j: int| 0 <= j < p.len() implies #[trigger] plain_char(p[j]) by {
        if j < i {
            assert(plain_char(s[j]));
        } else {
            assert('a' <= o[j - i] <= 'z');
        }
    }
}

// ── Case ─────────────────────────────────────────────────────────────────────

spec fn lower(c: char) -> char {
    if 'A' <= c <= 'Z' {
        (c as int + 32) as char
    } else {
        c
    }
}

proof fn lemma_lower_at(s: Seq<char>)
    ensures
        ascii_lower_all(s).len() == s.len(),
        forall|i: int| 0 <= i < s.len() ==> #[trigger] ascii_lower_all(s)[i] == lower(s[i]),
{
}

proof fn lemma_lower_add(a: Seq<char>, b: Seq<char>)
    ensures
        ascii_lower_all(a + b) == ascii_lower_all(a) + ascii_lower_all(b),
{
    assert(ascii_lower_all(a + b) =~= ascii_lower_all(a) + ascii_lower_all(b));
}

/// Small letters are small already.
proof fn lemma_lower_plain(s: Seq<char>)
    requires
        plain_phrase(s),
    ensures
        ascii_lower_all(s) == s,
        ascii_lower_all(ascii_upper_all(s)) == s,
{
    assert forall|i: int| 0 <= i < s.len() implies #[trigger] lower(s[i]) == s[i] && lower(ascii_upper(s[i])) == s[i] by {
        assert(plain_char(s[i]));
    }
    lemma_lower_at(s);
    assert(ascii_lower_all(s) =~= s);
    let u = ascii_upper_all(s);
    lemma_lower_at(u);
    assert forall|i: int| 0 <= i < s.len() implies #[trigger] ascii_lower_all(u)[i] == s[i] by {
        assert(lower(s[i]) == s[i]);
        assert(u[i] == ascii_upper(s[i]));
    }
    assert(ascii_lower_all(u) =~= s);
}

/// A capital is a letter still.
proof fn lemma_lower_capitalised(w: Seq<char>, first: bool)
    ensures
        ascii_lower_all(capitalised(w, first)) == ascii_lower_all(w),
{
    let l = ascii_lower_all(w);
    lemma_lower_at(w);
    lemma_lower_at(l);
    assert(ascii_lower_all(l) =~= l);
    let c = capitalised(w, first);
    if w.len() > 0 && !(!first && small_word(l)) {
        assert(c =~= seq![ascii_upper(l[0])] + l.skip(1));
        lemma_lower_at(c);
        assert forall|i: int| 0 <= i < c.len() implies #[trigger] ascii_lower_all(c)[i] == l[i] by {
            assert(l[i] == lower(w[i]));
        }
        assert(ascii_lower_all(c) =~= l);
    }
}

/// Title case is undone by lower case.
proof fn lemma_lower_titled(s: Seq<char>, i: int, word: Seq<char>, first: bool)
    requires
        0 <= i <= s.len(),
    ensures
        ascii_lower_all(titled_from(s, i, word, first)) == ascii_lower_all(word) + ascii_lower_all(s.skip(i)),
    decreases s.len() - i,
{
    lemma_lower_capitalised(word, first);
    if i < s.len() {
        assert(s.skip(i) =~= seq![s[i]] + s.skip(i + 1));
        lemma_lower_add(seq![s[i]], s.skip(i + 1));
        if word_break(s[i]) {
            let rest = titled_from(s, i + 1, Seq::empty(), s[i] == '-');
            lemma_lower_titled(s, i + 1, Seq::empty(), s[i] == '-');
            assert(ascii_lower_all(Seq::<char>::empty()) + ascii_lower_all(s.skip(i + 1)) =~= ascii_lower_all(
                s.skip(i + 1),
            ));
            lemma_lower_add(seq![s[i]], rest);
            lemma_lower_add(capitalised(word, first), seq![s[i]] + rest);
        } else {
            lemma_lower_titled(s, i + 1, word.push(s[i]), first);
            assert(word.push(s[i]) =~= word + seq![s[i]]);
            lemma_lower_add(word, seq![s[i]]);
            assert((ascii_lower_all(word) + ascii_lower_all(seq![s[i]])) + ascii_lower_all(s.skip(i + 1))
                =~= ascii_lower_all(word) + (ascii_lower_all(seq![s[i]]) + ascii_lower_all(s.skip(i + 1))));
        }
    } else {
        assert(s.skip(i) =~= Seq::empty());
        assert(ascii_lower_all(s.skip(i)) =~= Seq::empty());
        assert(ascii_lower_all(word) + ascii_lower_all(s.skip(i)) =~= ascii_lower_all(word));
    }
}

// ── The law ──────────────────────────────────────────────────────────────────

/// A number in words is read as that number.
proof fn lemma_phrase_number(n: int)
    requires
        1 <= n < 1_000_000_000_000_000,
    ensures
        words_number(words_from(spaced(count_words(n)), 0), 0, empty_tally()) == Some(Number::of_int(n)),
{
    lemma_count_spelled(n);
    let l = count_list(n);
    let r = lemma_count_told(0, n);
    lemma_told(l, 0, whole_tally(0, 0));
    law_whole_sum(r.0, r.1);
}

/// Zero in words is read as zero.
proof fn lemma_zero_number()
    ensures
        cardinal_phrase("zero"@) == "zero"@,
        plain_phrase("zero"@),
        words_number(words_from(spaced("zero"@), 0), 0, empty_tally()) == Some(Number::of_int(0)),
{
    let w = "zero"@;
    lemma_other_places();
    assert(w.skip(0) =~= w);
    lemma_cardinal_stays(w, w);
    lemma_spaced_bare(w);
    lemma_one_word(w);
    law_whole_sum(0, 0);
    reveal_with_fuel(words_number, 2);
    assert(seq![w][0] != "and"@);
}

/// A text that is a phrase in lower case is ASCII.
proof fn lemma_plain_is_ascii(text: Seq<char>, phrase: Seq<char>)
    requires
        plain_phrase(phrase),
        ascii_lower_all(text) == phrase,
    ensures
        ascii_text(text),
{
    lemma_lower_at(text);
    assert forall|i: int| 0 <= i < text.len() implies #[trigger] text[i] <= '\x7f' by {
        assert(plain_char(phrase[i]));
        assert(phrase[i] == lower(text[i]));
    }
}

/// Parsing a phrase gives the number that was formatted in words: in any case,
/// as a cardinal or as an ordinal. From a thousand trillions on a phrase can be
/// read in more than one way, zero has no ordinal, and a sign is no word.
pub proof fn law_words_round_trip(n: int, picture: Seq<char>, text: Seq<char>)
    requires
        0 <= n < 1_000_000_000_000_000,
        words_token(picture_token(picture)),
        picture_modifier(picture) == "o"@ ==> n > 0,
        integer_text(n, picture) == Ok::<Seq<char>, Seq<char>>(text),
    ensures
        parsed_integer(text, picture) == Ok::<Number, Seq<char>>(Number::of_int(n)),
{
    let token = picture_token(picture);
    let modifier = picture_modifier(picture);
    let words = words_of(n);
    let phrase = if modifier == "o"@ {
        ordinal_phrase(words)
    } else {
        words
    };
    if n == 0 {
        lemma_zero_number();
    } else {
        lemma_phrase_number(n);
        lemma_count_spelled(n);
        let k = count_list(n).last();
        lemma_places(k);
        if modifier == "o"@ {
            lemma_ordinal_undone(words, k);
        } else {
            lemma_cardinal_stays(words, cardinal(k));
        }
    }
    assert(plain_phrase(phrase));
    assert(cardinal_phrase(phrase) == words);
    assert(text == cased_words(words, token, modifier));
    lemma_lower_plain(phrase);
    lemma_lower_titled(phrase, 0, Seq::empty(), true);
    assert(phrase.skip(0) =~= phrase);
    assert(ascii_lower_all(Seq::<char>::empty()) + ascii_lower_all(phrase) =~= phrase);
    assert(ascii_lower_all(text) == phrase);
    lemma_plain_is_ascii(text, phrase);
    lemma_ascii_cases(text);
    assert(lowercase(text) == phrase);
    assert(phrase_number(phrase) == Some(Number::of_int(n)));
}

/// Whether a number formatted by a picture can be read back by it.
pub open spec fn readable(n: int, picture: Seq<char>) -> bool {
    let t = picture_token(picture);
    if words_token(t) {
        0 <= n < 1_000_000_000_000_000 && (picture_modifier(picture) == "o"@ ==> n > 0)
    } else if t == "i"@ || t == "I"@ || letters_picture(picture) {
        0 <= n <= LARGEST
    } else {
        -LARGEST <= n <= LARGEST && digits_picture(picture)
    }
}

/// Parsing a text by the picture that a number was formatted by gives that
/// number.
pub proof fn law_parse_undoes_format(n: int, picture: Seq<char>, text: Seq<char>)
    requires
        readable(n, picture),
        integer_text(n, picture) == Ok::<Seq<char>, Seq<char>>(text),
    ensures
        parsed_integer(text, picture) == Ok::<Number, Seq<char>>(Number::of_int(n)),
{
    let t = picture_token(picture);
    if words_token(t) {
        law_words_round_trip(n, picture, text);
    } else if t == "i"@ || t == "I"@ {
        law_roman_round_trip(n, picture, text);
    } else if letters_picture(picture) {
        law_letters_round_trip(n, picture, text);
    } else {
        law_digits_round_trip(n, picture, text);
    }
}

/// Pictures of words, of numerals, of letters and of grouped digits are read
/// back: words below a thousand trillions, numerals and letters without a sign.
pub proof fn law_common_pictures_are_readable(n: int)
    ensures
        0 <= n < 1_000_000_000_000_000 ==> readable(n, "w"@),
        0 <= n <= LARGEST ==> readable(n, "I"@) && readable(n, "a"@),
        -LARGEST <= n <= LARGEST ==> readable(n, "#,##0"@),
{
    reveal_strlit("w");
    reveal_strlit("W");
    reveal_strlit("Ww");
    reveal_strlit("i");
    reveal_strlit("I");
    reveal_strlit("a");
    reveal_strlit("c");
    reveal_strlit("o");
    reveal_strlit("#,##0");
    reveal_with_fuel(find_char, 6);
    let d = "#,##0"@;
    assert("w"@[0] == 'w' && "I"@[0] == 'I' && "a"@[0] == 'a' && "i"@[0] == 'i' && "W"@[0] == 'W');
    assert("c"@[0] != "o"@[0]);
    assert(d[0] == '#' && d[1] == ',' && d[2] == '#' && d[3] == '#' && d[4] == '0');
    assert(d.last() == '0');
    assert(mandatory_count(d) > 0);
}

/// `$parseInteger` undoes `$formatInteger` for the same picture, on whole numbers
/// that the picture can be read back for.
pub proof fn law_parse_integer_undoes_format_integer(n: int, picture: Seq<char>, text: Seq<char>)
    requires
        readable(n, picture),
        -WHOLE_LIMIT <= n <= WHOLE_LIMIT,
        format_integer(seq![Val::Number(Number::of_int(n)), Val::String(picture)]) == Ok::<Val, Seq<char>>(
            Val::String(text),
        ),
    ensures
        parse_integer(seq![Val::String(text), Val::String(picture)]) == Ok::<Val, Seq<char>>(
            Val::Number(Number::of_int(n)),
        ),
{
    let a = seq![Val::Number(Number::of_int(n)), Val::String(picture)];
    let b = seq![Val::String(text), Val::String(picture)];
    assert(a[0] == Val::Number(Number::of_int(n)) && a[1] == Val::String(picture));
    assert(b[0] == Val::String(text) && b[1] == Val::String(picture));
    law_whole_numbers_come_back(n, i64::MIN as int, i64::MAX as int);
    law_parse_undoes_format(n, picture, text);
}

} // verus!
