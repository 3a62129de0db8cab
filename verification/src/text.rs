//! Text as sequences of characters.
//!
//! Everything that looks inside text works on characters; `String` appears at
//! the edges. The few facts about text that come from Unicode tables are named
//! here and taken from the standard library.
use vstd::prelude::*;

verus! {

// ── Conversions ──────────────────────────────────────────────────────────────

/// `String::push` appends one character.
pub assume_specification[ std::string::String::push ](s: &mut std::string::String, c: char)
    ensures
        final(s)@ == old(s)@.push(c),
;

/// The characters of a string.
pub fn chars_of(s: &str) -> (r: Vec<char>)
    ensures
        r@ == s@,
{
    let mut r: Vec<char> = Vec::new();
    for c in iter: s.chars()
        invariant
            r@ =~= iter.seq().take(iter.index()),
            iter.seq() == s@,
    {
        r.push(c);
    }
    assert(r@ =~= s@);
    r
}

/// The string with these characters.
pub fn text_of(s: &[char]) -> (r: String)
    ensures
        r@ == s@,
{
    let mut r = String::new();
    let mut i: usize = 0;
    while i < s.len()
        invariant
            i <= s.len(),
            r@ =~= s@.take(i as int),
        decreases s.len() - i,
    {
        r.push(s[i]);
        i = i + 1;
    }
    assert(r@ =~= s@);
    r
}

/// A copy of part of a character sequence.
pub fn part(s: &[char], from: usize, to: usize) -> (r: Vec<char>)
    requires
        from <= to <= s@.len(),
    ensures
        r@ == s@.subrange(from as int, to as int),
{
    let mut r: Vec<char> = Vec::new();
    let mut i: usize = from;
    while i < to
        invariant
            from <= i <= to <= s@.len(),
            r@ =~= s@.subrange(from as int, i as int),
        decreases to - i,
    {
        r.push(s[i]);
        i = i + 1;
    }
    r
}

/// Append characters.
pub fn push_all(out: &mut Vec<char>, s: &[char])
    ensures
        final(out)@ == old(out)@ + s@,
{
    let mut i: usize = 0;
    while i < s.len()
        invariant
            i <= s.len(),
            out@ =~= old(out)@ + s@.take(i as int),
        decreases s.len() - i,
    {
        out.push(s[i]);
        i = i + 1;
    }
    assert(s@.take(i as int) =~= s@);
}

/// Append a string.
pub fn push_text(out: &mut Vec<char>, s: &str)
    ensures
        final(out)@ == old(out)@ + s@,
{
    let c = chars_of(s);
    push_all(out, c.as_slice());
}

/// `n` copies of a character.
pub open spec fn repeated(c: char, n: nat) -> Seq<char> {
    Seq::new(n, |i: int| c)
}

/// Append `n` copies of a character.
pub fn push_repeated(out: &mut Vec<char>, c: char, n: usize)
    ensures
        final(out)@ == old(out)@ + repeated(c, n as nat),
{
    let mut i: usize = 0;
    while i < n
        invariant
            i <= n,
            out@ =~= old(out)@ + repeated(c, i as nat),
        decreases n - i,
    {
        out.push(c);
        i = i + 1;
    }
}

// ── Comparison ───────────────────────────────────────────────────────────────

/// Whether two character sequences are the same.
pub fn same(a: &[char], b: &[char]) -> (r: bool)
    ensures
        r == (a@ == b@),
{
    if a.len() != b.len() {
        return false;
    }
    let mut i: usize = 0;
    while i < a.len()
        invariant
            i <= a.len(),
            a@.len() == b@.len(),
            a@.take(i as int) =~= b@.take(i as int),
        decreases a.len() - i,
    {
        if a[i] != b[i] {
            assert(a@[i as int] != b@[i as int]);
            return false;
        }
        i = i + 1;
    }
    assert(a@.take(i as int) =~= a@);
    assert(b@.take(i as int) =~= b@);
    true
}

/// Whether a character sequence reads as a string.
pub fn is_text(a: &[char], s: &str) -> (r: bool)
    ensures
        r == (a@ == s@),
{
    let b = chars_of(s);
    same(a, b.as_slice())
}

/// Whether `p` occurs in `s` at position `i`.
pub open spec fn occurs_at(s: Seq<char>, p: Seq<char>, i: int) -> bool {
    0 <= i && i + p.len() <= s.len() && s.subrange(i, i + p.len()) == p
}

pub fn matches_at(s: &[char], p: &[char], i: usize) -> (r: bool)
    requires
        i <= s@.len(),
    ensures
        r == occurs_at(s@, p@, i as int),
{
    if p.len() > s.len() - i {
        return false;
    }
    let mut k: usize = 0;
    while k < p.len()
        invariant
            k <= p.len(),
            i + p.len() <= s.len(),
            s@.subrange(i as int, i + k) =~= p@.take(k as int),
        decreases p.len() - k,
    {
        if s[i + k] != p[k] {
            proof {
                let w = s@.subrange(i as int, i + p.len());
                assert(w[k as int] != p@[k as int]);
            }
            return false;
        }
        k = k + 1;
    }
    assert(p@.take(k as int) =~= p@);
    true
}

/// Whether a sequence begins with a string.
pub fn starts_with(s: &[char], p: &str) -> (r: bool)
    ensures
        r == occurs_at(s@, p@, 0),
{
    let c = chars_of(p);
    matches_at(s, c.as_slice(), 0)
}

// ── Searching ────────────────────────────────────────────────────────────────

/// Position of the first `c` at or after `from`.
pub open spec fn find_char(s: Seq<char>, c: char, from: int) -> Option<int>
    decreases s.len() - from,
{
    if from < 0 || from >= s.len() {
        None
    } else if s[from] == c {
        Some(from)
    } else {
        find_char(s, c, from + 1)
    }
}

pub fn find(s: &[char], c: char, from: usize) -> (r: Option<usize>)
    ensures
        match r {
            Some(i) => find_char(s@, c, from as int) == Some(i as int) && from <= i < s@.len() && i < usize::MAX
                && s@[i as int] == c,
            None => find_char(s@, c, from as int) is None,
        },
{
    let mut i: usize = from;
    while i < s.len()
        invariant
            from <= i,
            i <= s.len() || i == from,
            find_char(s@, c, from as int) == find_char(s@, c, i as int),
        decreases s.len() - i,
    {
        if s[i] == c {
            return Some(i);
        }
        i = i + 1;
    }
    None
}

/// Position of the last `c` before `to`.
pub open spec fn rfind_char(s: Seq<char>, c: char, to: int) -> Option<int>
    decreases to,
{
    if to <= 0 || to > s.len() {
        None
    } else if s[to - 1] == c {
        Some(to - 1)
    } else {
        rfind_char(s, c, to - 1)
    }
}

pub fn rfind(s: &[char], c: char) -> (r: Option<usize>)
    ensures
        match r {
            Some(i) => rfind_char(s@, c, s@.len() as int) == Some(i as int) && i < s@.len() && s@[i as int] == c,
            None => rfind_char(s@, c, s@.len() as int) is None,
        },
{
    let mut i: usize = s.len();
    while i > 0
        invariant
            i <= s.len(),
            rfind_char(s@, c, s@.len() as int) == rfind_char(s@, c, i as int),
        decreases i,
    {
        if s[i - 1] == c {
            return Some(i - 1);
        }
        i = i - 1;
    }
    None
}

/// Position of the first occurrence of `p` at or after `from`.
pub open spec fn find_seq(s: Seq<char>, p: Seq<char>, from: int) -> Option<int>
    decreases s.len() + 1 - from,
{
    if from < 0 || from > s.len() {
        None
    } else if occurs_at(s, p, from) {
        Some(from)
    } else {
        find_seq(s, p, from + 1)
    }
}

pub fn find_text(s: &[char], p: &[char], from: usize) -> (r: Option<usize>)
    ensures
        match r {
            Some(i) => find_seq(s@, p@, from as int) == Some(i as int) && from <= i && i + p@.len() <= s@.len()
                && occurs_at(s@, p@, i as int),
            None => find_seq(s@, p@, from as int) is None,
        },
{
    if from > s.len() {
        return None;
    }
    let n: usize = s.len();
    let mut i: usize = from;
    while i < n
        invariant
            from <= i <= n,
            n == s@.len(),
            find_seq(s@, p@, from as int) == find_seq(s@, p@, i as int),
        decreases n - i,
    {
        if matches_at(s, p, i) {
            return Some(i);
        }
        i = i + 1;
    }
    if matches_at(s, p, n) {
        return Some(n);
    }
    assert(find_seq(s@, p@, n + 1) is None);
    None
}

// ── Digits ───────────────────────────────────────────────────────────────────

pub open spec fn is_digit(c: char) -> bool {
    '0' <= c <= '9'
}

pub fn digit(c: char) -> (r: bool)
    ensures
        r == is_digit(c),
{
    '0' <= c && c <= '9'
}

/// The character of a decimal digit.
pub open spec fn digit_char(d: int) -> char {
    ('0' as int + d) as char
}

pub fn char_of_digit(d: u8) -> (r: char)
    requires
        d < 10,
    ensures
        r == digit_char(d as int),
        is_digit(r),
{
    (48u8 + d) as char
}

/// Value of a decimal digit.
pub open spec fn digit_value(c: char) -> int {
    c as int - '0' as int
}

/// Whether all characters are decimal digits.
pub open spec fn all_digits(s: Seq<char>) -> bool {
    forall|i: int| 0 <= i < s.len() ==> is_digit(#[trigger] s[i])
}

/// The number that decimal digits stand for.
pub open spec fn number_of(s: Seq<char>) -> nat
    decreases s.len(),
{
    if s.len() == 0 {
        0
    } else {
        (10 * number_of(s.drop_last()) + digit_value(s.last())) as nat
    }
}

/// Number of leading decimal digits at or after `from`.
pub open spec fn digit_run(s: Seq<char>, from: int) -> nat
    decreases s.len() - from,
{
    if from < 0 || from >= s.len() || !is_digit(s[from]) {
        0
    } else {
        1 + digit_run(s, from + 1)
    }
}

/// End of the run of decimal digits that starts at `from`.
pub fn digits_end(s: &[char], from: usize) -> (r: usize)
    requires
        from <= s@.len(),
    ensures
        r == from + digit_run(s@, from as int),
        from <= r <= s@.len(),
        all_digits(s@.subrange(from as int, r as int)),
        r < s@.len() ==> !is_digit(s@[r as int]),
{
    let mut i: usize = from;
    while i < s.len() && digit(s[i])
        invariant
            from <= i <= s.len(),
            from + digit_run(s@, from as int) == i + digit_run(s@, i as int),
            all_digits(s@.subrange(from as int, i as int)),
        decreases s.len() - i,
    {
        i = i + 1;
    }
    i
}

/// What an integer type reads from text: an optional sign and decimal digits,
/// with a value between `lo` and `hi`. A minus sign needs a signed type.
pub open spec fn parse_spec(s: Seq<char>, lo: int, hi: int) -> Option<int> {
    let signed = lo < 0;
    let sign = s.len() > 0 && (s[0] == '+' || (s[0] == '-' && signed));
    let d = if sign {
        s.skip(1)
    } else {
        s
    };
    let v = if sign && s[0] == '-' {
        -(number_of(d) as int)
    } else {
        number_of(d) as int
    };
    if d.len() > 0 && all_digits(d) && lo <= v <= hi {
        Some(v)
    } else {
        None
    }
}

pub proof fn lemma_number_grows(s: Seq<char>, i: int)
    requires
        all_digits(s),
        0 <= i <= s.len(),
    ensures
        number_of(s.take(i)) <= number_of(s),
    decreases s.len() - i,
{
    if i == s.len() {
        assert(s.take(i) =~= s);
    } else {
        lemma_number_grows(s, i + 1);
        assert(s.take(i + 1).drop_last() =~= s.take(i));
        assert(is_digit(s[i]));
    }
}

/// The integer that text stands for, if it is one within bounds.
pub fn parse_int(s: &[char], lo: i128, hi: i128) -> (r: Option<i128>)
    requires
        -0x1_0000_0000_0000_0000 <= lo <= 0,
        0 <= hi <= 0x1_0000_0000_0000_0000,
    ensures
        match r {
            Some(v) => parse_spec(s@, lo as int, hi as int) == Some(v as int) && lo <= v <= hi,
            None => parse_spec(s@, lo as int, hi as int) is None,
        },
{
    let signed: bool = lo < 0;
    let sign: bool = s.len() > 0 && (s[0] == '+' || (s[0] == '-' && signed));
    let negative: bool = sign && s[0] == '-';
    let start: usize = if sign {
        1
    } else {
        0
    };
    let ghost d = if sign {
        s@.skip(1)
    } else {
        s@
    };
    assert(d =~= s@.skip(start as int));
    assert(s@.skip(0) =~= s@);
    if start == s.len() {
        return None;
    }
    let mut acc: i128 = 0;
    let mut i: usize = start;
    assert(d.take(0) =~= Seq::empty());
    while i < s.len()
        invariant
            start <= i <= s@.len(),
            d == s@.skip(start as int),
            s@.skip(0) == s@,
            0 <= acc <= 0x1_0000_0000_0000_0000,
            acc == number_of(d.take(i - start)),
            all_digits(d.take(i - start)),
            -0x1_0000_0000_0000_0000 <= lo <= 0,
            0 <= hi <= 0x1_0000_0000_0000_0000,
            d.len() > 0,
            sign == (s@.len() > 0 && (s@[0] == '+' || (s@[0] == '-' && lo < 0))),
            start == (if sign {
                1int
            } else {
                0
            }),
            negative == (sign && s@[0] == '-'),
        decreases s.len() - i,
    {
        let c: char = s[i];
        let ghost k = i - start;
        assert(d[k] == c);
        if !digit(c) {
            assert(!all_digits(d));
            return None;
        }
        let v: i128 = (c as u32 - 48) as i128;
        acc = acc * 10 + v;
        proof {
            assert(d.take(k + 1).drop_last() =~= d.take(k));
            assert(d.take(k + 1).last() == c);
        }
        if acc > 0x1_0000_0000_0000_0000 {
            proof {
                if all_digits(d) {
                    lemma_number_grows(d, k + 1);
                }
            }
            return None;
        }
        i = i + 1;
    }
    assert(d.take(i - start) =~= d);
    let v: i128 = if negative {
        -acc
    } else {
        acc
    };
    if lo <= v && v <= hi {
        Some(v)
    } else {
        None
    }
}

/// `n` in decimal.
pub open spec fn nat_text(n: nat) -> Seq<char>
    decreases n,
{
    if n < 10 {
        seq![digit_char(n as int)]
    } else {
        nat_text(n / 10).push(digit_char((n % 10) as int))
    }
}

/// `n` in decimal, with a minus sign where it is negative.
pub open spec fn int_text(n: int) -> Seq<char> {
    if n < 0 {
        seq!['-'] + nat_text((-n) as nat)
    } else {
        nat_text(n as nat)
    }
}

pub proof fn lemma_nat_text(n: nat)
    ensures
        nat_text(n).len() >= 1,
        all_digits(nat_text(n)),
        number_of(nat_text(n)) == n,
        n > 0 ==> nat_text(n)[0] != '0',
    decreases n,
{
    if n < 10 {
        let s = nat_text(n);
        assert(s.drop_last() =~= Seq::empty());
        assert(number_of(Seq::<char>::empty()) == 0);
        assert(number_of(s) == digit_value(s.last()));
    } else {
        lemma_nat_text(n / 10);
        let s = nat_text(n);
        assert(s.drop_last() =~= nat_text(n / 10));
        assert(is_digit(s.last()));
        assert forall|i: int| 0 <= i < s.len() implies is_digit(#[trigger] s[i]) by {
            if i < s.len() - 1 {
                assert(s[i] == nat_text(n / 10)[i]);
            }
        }
    }
}

/// A number below a power of ten has no more digits than that has zeros.
pub proof fn lemma_nat_text_len(n: nat, k: nat)
    requires
        n < vstd::arithmetic::power::pow(10, k),
        k > 0,
    ensures
        nat_text(n).len() <= k,
    decreases k,
{
    reveal(vstd::arithmetic::power::pow);
    if n >= 10 {
        if k == 1 {
            assert(vstd::arithmetic::power::pow(10, 0) == 1);
            assert(vstd::arithmetic::power::pow(10, 1) == 10);
        } else {
            assert(vstd::arithmetic::power::pow(10, k) == 10 * vstd::arithmetic::power::pow(10, (k - 1) as nat));
            lemma_nat_text_len(n / 10, (k - 1) as nat);
        }
    }
}

/// A 64-bit number has at most twenty digits.
pub proof fn lemma_nat_text_short(n: nat)
    requires
        n <= u64::MAX,
    ensures
        1 <= nat_text(n).len() <= 20,
{
    lemma_nat_text(n);
    assert(vstd::arithmetic::power::pow(10, 20) == 100_000_000_000_000_000_000) by {
        reveal(vstd::arithmetic::power::pow);
        reveal_with_fuel(vstd::arithmetic::power::pow, 21);
    }
    lemma_nat_text_len(n, 20);
}

/// Decimal digits of a number.
pub fn nat_chars(n: u64) -> (r: Vec<char>)
    ensures
        r@ == nat_text(n as nat),
        1 <= r@.len() <= 20,
    decreases n,
{
    proof {
        lemma_nat_text_short(n as nat);
    }
    if n < 10 {
        let mut r: Vec<char> = Vec::new();
        r.push(char_of_digit(n as u8));
        assert(r@ =~= nat_text(n as nat));
        r
    } else {
        let mut r = nat_chars(n / 10);
        r.push(char_of_digit((n % 10) as u8));
        r
    }
}

/// Absolute value of a signed number.
pub fn magnitude(n: i64) -> (r: u64)
    ensures
        r == (if n < 0 {
            -(n as int)
        } else {
            n as int
        }),
{
    if n < 0 {
        if n == i64::MIN {
            0x8000_0000_0000_0000
        } else {
            (-n) as u64
        }
    } else {
        n as u64
    }
}

/// Decimal notation of a signed number.
pub fn int_chars(n: i64) -> (r: Vec<char>)
    ensures
        r@ == int_text(n as int),
        1 <= r@.len() <= 21,
{
    let d = nat_chars(magnitude(n));
    if n < 0 {
        let mut r: Vec<char> = Vec::new();
        r.push('-');
        push_all(&mut r, d.as_slice());
        assert(r@ =~= int_text(n as int));
        r
    } else {
        d
    }
}

// ── Case and character classes ───────────────────────────────────────────────

/// Unicode lowercase of a text beyond ASCII, as `str::to_lowercase` maps it.
pub uninterp spec fn unicode_lowercase(s: Seq<char>) -> Seq<char>;

/// Lowercase of a text.
#[verifier::opaque]
pub open spec fn lowercase(s: Seq<char>) -> Seq<char> {
    if ascii_text(s) {
        ascii_lower_all(s)
    } else {
        unicode_lowercase(s)
    }
}

/// `str::to_lowercase`: the Unicode lowercase mapping of the whole text, which
/// maps the capitals of ASCII text and nothing else of it.
#[verifier::external_body]
pub(crate) fn std_lowercase(s: &str) -> (r: String)
    ensures
        r@ == lowercase(s@),
        ascii_text(s@) ==> r@ == ascii_lower_all(s@),
        !ascii_text(s@) ==> r@ == unicode_lowercase(s@),
{
    s.to_lowercase()
}

/// Unicode lowercase of a character, as `char::to_lowercase` maps it.
pub uninterp spec fn char_lowercase(c: char) -> Seq<char>;

/// `char::to_lowercase`: the Unicode lowercase mapping of a character, which
/// is one or more characters.
#[verifier::external_body]
pub(crate) fn std_char_lowercase(c: char) -> (r: Vec<char>)
    ensures
        r@ == char_lowercase(c),
        r@.len() > 0,
{
    c.to_lowercase().collect()
}

/// Unicode uppercase of a text beyond ASCII, as `str::to_uppercase` maps it.
pub uninterp spec fn unicode_uppercase(s: Seq<char>) -> Seq<char>;

/// Uppercase of a text.
#[verifier::opaque]
pub open spec fn uppercase(s: Seq<char>) -> Seq<char> {
    if ascii_text(s) {
        ascii_upper_all(s)
    } else {
        unicode_uppercase(s)
    }
}

/// The case mappings of ASCII text are those of ASCII.
pub proof fn lemma_ascii_cases(s: Seq<char>)
    requires
        ascii_text(s),
    ensures
        lowercase(s) == ascii_lower_all(s),
        uppercase(s) == ascii_upper_all(s),
{
    reveal(lowercase);
    reveal(uppercase);
}

/// `str::to_uppercase`: the Unicode uppercase mapping of the whole text, which
/// maps the small letters of ASCII text and nothing else of it.
#[verifier::external_body]
pub(crate) fn std_uppercase(s: &str) -> (r: String)
    ensures
        r@ == uppercase(s@),
        ascii_text(s@) ==> r@ == ascii_upper_all(s@),
        !ascii_text(s@) ==> r@ == unicode_uppercase(s@),
{
    s.to_uppercase()
}

/// Whether a character beyond ASCII has the Unicode property `White_Space`.
pub uninterp spec fn unicode_space(c: char) -> bool;

/// Whether a character has the Unicode property `White_Space`.
pub open spec fn white_space(c: char) -> bool {
    if c <= '\x7f' {
        ascii_space(c)
    } else {
        unicode_space(c)
    }
}

/// Whether an ASCII character is white space.
pub open spec fn ascii_space(c: char) -> bool {
    c == ' ' || '\t' <= c <= '\r'
}

/// `char::is_whitespace`: the Unicode property `White_Space`, which holds of
/// the space and of the characters from the tab to the carriage return, and of
/// no other ASCII character.
#[verifier::external_body]
pub(crate) fn std_is_whitespace(c: char) -> (r: bool)
    ensures
        r == white_space(c),
        c > '\x7f' ==> r == unicode_space(c),
{
    c.is_whitespace()
}

/// Whether a character has the Unicode property `Alphabetic`.
pub uninterp spec fn alphabetic(c: char) -> bool;

/// `char::is_alphabetic`: the Unicode property `Alphabetic`.
#[verifier::external_body]
pub(crate) fn std_is_alphabetic(c: char) -> (r: bool)
    ensures
        r == alphabetic(c),
{
    c.is_alphabetic()
}

/// Whether a number is that of a character.
pub open spec fn scalar_value(v: int) -> bool {
    0 <= v < 0xd800 || 0xe000 <= v <= 0x10ffff
}

/// `char::from_u32`: the character with a number, if there is one.
#[verifier::external_body]
pub(crate) fn std_from_u32(v: u32) -> (r: Option<char>)
    ensures
        match r {
            Some(c) => scalar_value(v as int) && c as int == v,
            None => !scalar_value(v as int),
        },
{
    char::from_u32(v)
}

/// Lowercase of a character sequence.
pub fn lower_chars(s: &[char]) -> (r: Vec<char>)
    ensures
        r@ == lowercase(s@),
{
    let t = text_of(s);
    let l = std_lowercase(t.as_str());
    chars_of(l.as_str())
}

/// Uppercase of a character sequence.
pub fn upper_chars(s: &[char]) -> (r: Vec<char>)
    ensures
        r@ == uppercase(s@),
{
    let t = text_of(s);
    let u = std_uppercase(t.as_str());
    chars_of(u.as_str())
}

pub open spec fn ascii_letter(c: char) -> bool {
    ('a' <= c <= 'z') || ('A' <= c <= 'Z')
}

/// ASCII upper case of a character.
pub open spec fn ascii_upper(c: char) -> char {
    if 'a' <= c <= 'z' {
        (c as int - 32) as char
    } else {
        c
    }
}

pub fn upper_ascii(c: char) -> (r: char)
    ensures
        r == ascii_upper(c),
{
    if 'a' <= c && c <= 'z' {
        ((c as u8) - 32) as char
    } else {
        c
    }
}

/// A text without the white space at both ends.
pub open spec fn trimmed(s: Seq<char>) -> Seq<char> {
    let a = space_run(s, 0);
    let b = space_tail(s, s.len() as int);
    if a >= b {
        Seq::empty()
    } else {
        s.subrange(a, b)
    }
}

/// First position at or after `from` that is not white space.
pub open spec fn space_run(s: Seq<char>, from: int) -> int
    decreases s.len() - from,
{
    if from < 0 || from >= s.len() || !white_space(s[from]) {
        from
    } else {
        space_run(s, from + 1)
    }
}

/// End of the text before `to` without its trailing white space.
pub open spec fn space_tail(s: Seq<char>, to: int) -> int
    decreases to,
{
    if to <= 0 || to > s.len() || !white_space(s[to - 1]) {
        to
    } else {
        space_tail(s, to - 1)
    }
}

/// `str::trim` on characters.
pub fn trim(s: &[char]) -> (r: Vec<char>)
    ensures
        r@ == trimmed(s@),
{
    let mut a: usize = 0;
    while a < s.len() && std_is_whitespace(s[a])
        invariant
            a <= s.len(),
            space_run(s@, 0) == space_run(s@, a as int),
        decreases s.len() - a,
    {
        a = a + 1;
    }
    let mut b: usize = s.len();
    while b > 0 && std_is_whitespace(s[b - 1])
        invariant
            b <= s.len(),
            space_tail(s@, s@.len() as int) == space_tail(s@, b as int),
        decreases b,
    {
        b = b - 1;
    }
    if a >= b {
        Vec::new()
    } else {
        part(s, a, b)
    }
}

// ── Encoded length ───────────────────────────────────────────────────────────

/// Bytes that a character takes in UTF-8.
pub open spec fn utf8_width(c: char) -> nat {
    if c <= '\u{7f}' {
        1
    } else if c <= '\u{7ff}' {
        2
    } else if c <= '\u{ffff}' {
        3
    } else {
        4
    }
}

/// Bytes that a text takes in UTF-8.
pub open spec fn byte_len(s: Seq<char>) -> nat
    decreases s.len(),
{
    if s.len() == 0 {
        0
    } else {
        byte_len(s.drop_last()) + utf8_width(s.last())
    }
}

pub fn width_of_char(c: char) -> (r: usize)
    ensures
        r == utf8_width(c),
{
    if c <= '\u{7f}' {
        1
    } else if c <= '\u{7ff}' {
        2
    } else if c <= '\u{ffff}' {
        3
    } else {
        4
    }
}

/// Bytes that a text takes in UTF-8, or the largest number where that is more.
pub fn count_bytes(s: &[char]) -> (r: u128)
    ensures
        r == byte_len(s@),
{
    let mut r: u128 = 0;
    let mut i: usize = 0;
    assert(s@.take(0) =~= Seq::empty());
    while i < s.len()
        invariant
            i <= s.len(),
            r == byte_len(s@.take(i as int)),
            r <= 4 * i,
        decreases s.len() - i,
    {
        assert(s@.take(i + 1).drop_last() =~= s@.take(i as int));
        r = r + width_of_char(s[i]) as u128;
        i = i + 1;
    }
    assert(s@.take(i as int) =~= s@);
    r
}

/// Append `n` copies of a character, for a count wider than a length.
pub fn push_many(out: &mut Vec<char>, c: char, n: u128)
    ensures
        final(out)@ == old(out)@ + repeated(c, n as nat),
{
    let mut i: u128 = 0;
    while i < n
        invariant
            i <= n,
            out@ =~= old(out)@ + repeated(c, i as nat),
        decreases n - i,
    {
        out.push(c);
        i = i + 1;
    }
}

// ── Case of ASCII letters ────────────────────────────────────────────────────

/// Whether a text is ASCII.
pub open spec fn ascii_text(s: Seq<char>) -> bool {
    forall|i: int| 0 <= i < s.len() ==> #[trigger] s[i] <= '\x7f'
}

/// ASCII upper case of a text.
pub open spec fn ascii_upper_all(s: Seq<char>) -> Seq<char> {
    s.map_values(|c: char| ascii_upper(c))
}

pub fn upper_ascii_all(s: &[char]) -> (r: Vec<char>)
    ensures
        r@ == ascii_upper_all(s@),
{
    let mut r: Vec<char> = Vec::new();
    let mut i: usize = 0;
    while i < s.len()
        invariant
            i <= s.len(),
            r@ =~= ascii_upper_all(s@).take(i as int),
        decreases s.len() - i,
    {
        r.push(upper_ascii(s[i]));
        i = i + 1;
    }
    assert(ascii_upper_all(s@).take(i as int) =~= ascii_upper_all(s@));
    r
}

/// ASCII lower case of a text.
pub open spec fn ascii_lower_all(s: Seq<char>) -> Seq<char> {
    s.map_values(|c: char| if 'A' <= c <= 'Z' { (c as int + 32) as char } else { c })
}

pub fn lower_ascii_all(s: &[char]) -> (r: Vec<char>)
    ensures
        r@ == ascii_lower_all(s@),
{
    let mut r: Vec<char> = Vec::new();
    let mut i: usize = 0;
    while i < s.len()
        invariant
            i <= s.len(),
            r@ =~= ascii_lower_all(s@).take(i as int),
        decreases s.len() - i,
    {
        let c: char = s[i];
        if 'A' <= c && c <= 'Z' {
            r.push((c as u8 + 32) as char);
        } else {
            r.push(c);
        }
        i = i + 1;
    }
    assert(ascii_lower_all(s@).take(i as int) =~= ascii_lower_all(s@));
    r
}

// ── Words ────────────────────────────────────────────────────────────────────

/// End of the run of characters other than white space that starts at `from`.
pub open spec fn word_run(s: Seq<char>, from: int) -> int
    decreases s.len() - from,
{
    if from < 0 || from >= s.len() || white_space(s[from]) {
        from
    } else {
        word_run(s, from + 1)
    }
}

proof fn lemma_runs_move(s: Seq<char>, from: int)
    requires
        0 <= from <= s.len(),
    ensures
        from <= space_run(s, from) <= s.len(),
        from <= word_run(s, from) <= s.len(),
        space_run(s, from) < s.len() ==> !white_space(s[space_run(s, from)]),
    decreases s.len() - from,
{
    if from < s.len() {
        lemma_runs_move(s, from + 1);
    }
}

/// The words of a text from `from` on, as white space separates them.
pub open spec fn words_from(s: Seq<char>, from: int) -> Seq<Seq<char>>
    decreases s.len() - from,
    when 0 <= from <= s.len()
    via words_decreases
{
    let a = space_run(s, from);
    if a >= s.len() {
        Seq::empty()
    } else {
        seq![s.subrange(a, word_run(s, a))] + words_from(s, word_run(s, a))
    }
}

#[via_fn]
proof fn words_decreases(s: Seq<char>, from: int) {
    lemma_runs_move(s, from);
    let a = space_run(s, from);
    if a < s.len() {
        lemma_runs_move(s, a + 1);
    }
}

pub open spec fn texts_of(v: Seq<Vec<char>>) -> Seq<Seq<char>> {
    v.map_values(|t: Vec<char>| t@)
}

/// The words of a text, as white space separates them.
pub fn split_words(s: &[char]) -> (r: Vec<Vec<char>>)
    ensures
        texts_of(r@) == words_from(s@, 0),
{
    let n: usize = s.len();
    let mut r: Vec<Vec<char>> = Vec::new();
    let mut i: usize = 0;
    assert(texts_of(r@) + words_from(s@, 0) =~= words_from(s@, 0));
    loop
        invariant
            i <= n,
            n == s@.len(),
            texts_of(r@) + words_from(s@, i as int) == words_from(s@, 0),
        ensures
            texts_of(r@) == words_from(s@, 0),
        decreases n - i,
    {
        let mut a: usize = i;
        while a < n && std_is_whitespace(s[a])
            invariant
                i <= a <= n,
                n == s@.len(),
                space_run(s@, i as int) == space_run(s@, a as int),
            decreases n - a,
        {
            a = a + 1;
        }
        if a >= n {
            assert(texts_of(r@) + Seq::<Seq<char>>::empty() =~= texts_of(r@));
            break;
        }
        let mut b: usize = a;
        while b < n && !std_is_whitespace(s[b])
            invariant
                a <= b <= n,
                n == s@.len(),
                word_run(s@, a as int) == word_run(s@, b as int),
            decreases n - b,
        {
            b = b + 1;
        }
        proof {
            lemma_runs_move(s@, i as int);
            lemma_runs_move(s@, a + 1);
        }
        let w = part(s, a, b);
        let ghost before = r@;
        r.push(w);
        assert(texts_of(r@) =~= texts_of(before).push(w@));
        assert(texts_of(r@) + words_from(s@, b as int) =~= texts_of(before) + (seq![w@] + words_from(s@, b as int)));
        i = b;
    }
    r
}

// ── Replacing and splitting ──────────────────────────────────────────────────

/// One replacement fewer.
pub open spec fn one_less(limit: Option<nat>) -> Option<nat> {
    match limit {
        Some(n) => if n > 0 {
            Some((n - 1) as nat)
        } else {
            Some(0)
        },
        None => None,
    }
}

/// The text from `i` on with the occurrences of another replaced, from left to
/// right, as many as the limit allows.
pub open spec fn replaced(s: Seq<char>, old: Seq<char>, new: Seq<char>, i: int, limit: Option<nat>) -> Seq<char>
    decreases s.len() - i,
{
    if i < 0 || i >= s.len() {
        Seq::empty()
    } else if limit == Some(0nat) {
        s.skip(i)
    } else if old.len() > 0 && occurs_at(s, old, i) {
        new + replaced(s, old, new, i + old.len(), one_less(limit))
    } else {
        seq![s[i]] + replaced(s, old, new, i + 1, limit)
    }
}

pub open spec fn as_limit(limit: Option<usize>) -> Option<nat> {
    match limit {
        Some(n) => Some(n as nat),
        None => None,
    }
}

/// The text with the occurrences of another replaced.
pub fn replace_text(s: &[char], old: &[char], new: &[char], limit: Option<usize>) -> (r: Vec<char>)
    requires
        old@.len() > 0,
    ensures
        r@ == replaced(s@, old@, new@, 0, as_limit(limit)),
{
    let n: usize = s.len();
    let mut r: Vec<char> = Vec::new();
    let mut left: Option<usize> = limit;
    let mut i: usize = 0;
    assert(r@ + replaced(s@, old@, new@, 0, as_limit(limit)) =~= replaced(s@, old@, new@, 0, as_limit(limit)));
    while i < n
        invariant
            i <= n,
            n == s@.len(),
            old@.len() > 0,
            r@ + replaced(s@, old@, new@, i as int, as_limit(left)) == replaced(
                s@,
                old@,
                new@,
                0,
                as_limit(limit),
            ),
        decreases n - i,
    {
        let ghost before = r@;
        let ghost rest = replaced(s@, old@, new@, i as int, as_limit(left));
        if left == Some(0) {
            let tail = part(s, i, n);
            push_all(&mut r, tail.as_slice());
            assert(tail@ =~= s@.skip(i as int));
            assert(r@ + Seq::<char>::empty() =~= before + rest);
            i = n;
        } else if matches_at(s, old, i) {
            push_all(&mut r, new);
            left = match left {
                Some(k) => Some(k - 1),
                None => None,
            };
            assert(r@ + replaced(s@, old@, new@, i + old@.len(), as_limit(left)) =~= before + rest);
            i = i + old.len();
        } else {
            r.push(s[i]);
            assert(r@ + replaced(s@, old@, new@, i + 1, as_limit(left)) =~= before + rest);
            i = i + 1;
        }
    }
    assert(r@ + Seq::<char>::empty() =~= r@);
    r
}

/// The pieces of a text between occurrences of a separator: the one in hand
/// began at `start`, and what follows `i` is still to be looked at.
pub open spec fn split_from(s: Seq<char>, sep: Seq<char>, start: int, i: int) -> Seq<Seq<char>>
    decreases s.len() - i,
{
    if i < 0 || i >= s.len() {
        seq![s.skip(start)]
    } else if sep.len() > 0 && occurs_at(s, sep, i) {
        seq![s.subrange(start, i)] + split_from(s, sep, i + sep.len(), i + sep.len())
    } else {
        split_from(s, sep, start, i + 1)
    }
}

/// The pieces of a text between occurrences of a separator.
pub fn split_text(s: &[char], sep: &[char]) -> (r: Vec<Vec<char>>)
    requires
        sep@.len() > 0,
    ensures
        texts_of(r@) == split_from(s@, sep@, 0, 0),
{
    let n: usize = s.len();
    let mut r: Vec<Vec<char>> = Vec::new();
    let mut start: usize = 0;
    let mut i: usize = 0;
    assert(texts_of(r@) + split_from(s@, sep@, 0, 0) =~= split_from(s@, sep@, 0, 0));
    while i < n
        invariant
            start <= i <= n,
            n == s@.len(),
            sep@.len() > 0,
            texts_of(r@) + split_from(s@, sep@, start as int, i as int) == split_from(s@, sep@, 0, 0),
        decreases n - i,
    {
        if matches_at(s, sep, i) {
            let ghost before = texts_of(r@);
            let ghost rest = split_from(s@, sep@, start as int, i as int);
            let p = part(s, start, i);
            r.push(p);
            i = i + sep.len();
            start = i;
            assert(texts_of(r@) =~= before.push(p@));
            assert(texts_of(r@) + split_from(s@, sep@, i as int, i as int) =~= before + rest);
        } else {
            i = i + 1;
        }
    }
    let ghost before = texts_of(r@);
    let p = part(s, start, n);
    assert(p@ =~= s@.skip(start as int));
    r.push(p);
    assert(texts_of(r@) =~= before + seq![p@]);
    r
}

/// Texts with a separator between them.
pub open spec fn joined(parts: Seq<Seq<char>>, sep: Seq<char>) -> Seq<char>
    decreases parts.len(),
{
    if parts.len() == 0 {
        Seq::empty()
    } else if parts.len() == 1 {
        parts[0]
    } else {
        joined(parts.drop_last(), sep) + sep + parts.last()
    }
}

/// A list is joined by its first text, the separator, and the rest joined.
pub proof fn lemma_joined_first(first: Seq<char>, rest: Seq<Seq<char>>, sep: Seq<char>)
    requires
        rest.len() > 0,
    ensures
        joined(seq![first] + rest, sep) == first + sep + joined(rest, sep),
    decreases rest.len(),
{
    let all = seq![first] + rest;
    if rest.len() == 1 {
        assert(all.drop_last() =~= seq![first]);
        assert(joined(seq![first], sep) == first);
        assert(all.last() == rest[0]);
        assert(joined(all, sep) == first + sep + rest[0]);
    } else {
        assert(all.drop_last() =~= seq![first] + rest.drop_last());
        lemma_joined_first(first, rest.drop_last(), sep);
        assert(joined(all, sep) =~= first + sep + joined(rest, sep));
    }
}

proof fn lemma_split_joined(s: Seq<char>, sep: Seq<char>, start: int, i: int)
    requires
        0 <= start <= i <= s.len(),
        sep.len() > 0,
    ensures
        split_from(s, sep, start, i).len() > 0,
        joined(split_from(s, sep, start, i), sep) == s.skip(start),
    decreases s.len() - i,
{
    if i < s.len() {
        if occurs_at(s, sep, i) {
            let j = i + sep.len();
            lemma_split_joined(s, sep, j, j);
            lemma_joined_first(s.subrange(start, i), split_from(s, sep, j, j), sep);
            assert(s.subrange(start, i) + sep + s.skip(j) =~= s.skip(start));
        } else {
            lemma_split_joined(s, sep, start, i + 1);
        }
    }
}

/// Joining the pieces that a separator splits a text into gives the text back.
pub proof fn law_join_undoes_split(s: Seq<char>, sep: Seq<char>)
    requires
        sep.len() > 0,
    ensures
        joined(split_from(s, sep, 0, 0), sep) == s,
{
    lemma_split_joined(s, sep, 0, 0);
    assert(s.skip(0) =~= s);
}

proof fn lemma_replaced_joins(s: Seq<char>, old: Seq<char>, new: Seq<char>, start: int, i: int)
    requires
        0 <= start <= i <= s.len(),
        old.len() > 0,
    ensures
        split_from(s, old, start, i).len() > 0,
        joined(split_from(s, old, start, i), new) == s.subrange(start, i) + replaced(s, old, new, i, None),
    decreases s.len() - i,
{
    if i >= s.len() {
        assert(s.subrange(start, i) + replaced(s, old, new, i, None) =~= s.skip(start));
    } else if occurs_at(s, old, i) {
        let j = i + old.len();
        lemma_replaced_joins(s, old, new, j, j);
        lemma_joined_first(s.subrange(start, i), split_from(s, old, j, j), new);
        assert(s.subrange(j, j) + replaced(s, old, new, j, None) =~= replaced(s, old, new, j, None));
        assert(s.subrange(start, i) + new + replaced(s, old, new, j, None) =~= s.subrange(start, i) + (new + replaced(
            s,
            old,
            new,
            j,
            None,
        )));
    } else {
        lemma_replaced_joins(s, old, new, start, i + 1);
        assert(s.subrange(start, i + 1) + replaced(s, old, new, i + 1, None) =~= s.subrange(start, i) + (seq![s[i]]
            + replaced(s, old, new, i + 1, None)));
    }
}

/// Replacing a text everywhere is splitting at it and joining with another.
pub proof fn law_replace_is_split_and_join(s: Seq<char>, old: Seq<char>, new: Seq<char>)
    requires
        old.len() > 0,
    ensures
        replaced(s, old, new, 0, None) == joined(split_from(s, old, 0, 0), new),
{
    lemma_replaced_joins(s, old, new, 0, 0);
    assert(s.subrange(0, 0) + replaced(s, old, new, 0, None) =~= replaced(s, old, new, 0, None));
}

} // verus!
