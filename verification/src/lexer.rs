//! Tokens of an expression.
use vstd::prelude::*;

use crate::decimal::{decimal_number, read_decimal};
use crate::error::{error_at, error_on, fault, fault_at, fault_on, Fault, JsonataError};
use crate::number::Number;
use crate::text::{
    chars_of, digit, digit_run, digits_end, find, find_char, is_digit, is_text, part, scalar_value, std_from_u32,
    text_of,
};

verus! {

/// The kind of a token.
#[derive(Clone, Copy, Debug, PartialEq, Eq, Structural)]
pub enum TokenType {
    EOF,
    Name,
    Variable,
    String,
    Number,
    /// `true`, `false` or `null`.
    Value,
    Regex,
    And,
    Or,
    In,
    Dot,
    DotDot,
    LBracket,
    RBracket,
    LBrace,
    RBrace,
    LParen,
    RParen,
    Comma,
    At,
    Hash,
    Semicolon,
    Colon,
    Assign,
    Question,
    Elvis,
    Coalesce,
    Plus,
    Minus,
    Star,
    StarStar,
    Slash,
    Percent,
    Pipe,
    Equals,
    NE,
    LT,
    LE,
    GT,
    GE,
    Caret,
    Amp,
    Bang,
    Tilde,
    Chain,
}

/// A token with its place in the source.
#[derive(Debug)]
pub struct Token {
    pub typ: TokenType,
    /// The text of a name, a string or an operator.
    pub value: String,
    pub pos: usize,
    pub num_val: Number,
    pub regex_pat: String,
    pub regex_flg: String,
}

/// What a token is.
#[verifier::ext_equal]
pub struct Tok {
    pub typ: TokenType,
    pub value: Seq<char>,
    pub pos: usize,
    pub num_val: Number,
    pub regex_pat: Seq<char>,
    pub regex_flg: Seq<char>,
}

impl View for Token {
    type V = Tok;

    open spec fn view(&self) -> Tok {
        Tok {
            typ: self.typ,
            value: self.value@,
            pos: self.pos,
            num_val: self.num_val,
            regex_pat: self.regex_pat@,
            regex_flg: self.regex_flg@,
        }
    }
}

impl Clone for Token {
    fn clone(&self) -> (r: Token)
        ensures
            r@ == self@,
    {
        Token {
            typ: self.typ,
            value: self.value.clone(),
            pos: self.pos,
            num_val: self.num_val,
            regex_pat: self.regex_pat.clone(),
            regex_flg: self.regex_flg.clone(),
        }
    }
}

/// A token without a number or a regular expression.
pub open spec fn plain(typ: TokenType, value: Seq<char>, pos: int) -> Tok {
    Tok {
        typ,
        value,
        pos: pos as usize,
        num_val: Number { bits: 0 },
        regex_pat: Seq::empty(),
        regex_flg: Seq::empty(),
    }
}

fn plain_token(typ: TokenType, value: String, pos: usize) -> (r: Token)
    ensures
        r@ == plain(typ, value@, pos as int),
{
    let r = Token {
        typ,
        value,
        pos,
        num_val: Number { bits: 0 },
        regex_pat: String::new(),
        regex_flg: String::new(),
    };
    assert(r@ =~= plain(typ, value@, pos as int));
    r
}

impl Token {
    /// The token at the end of the source.
    pub fn eof() -> (r: Token)
        ensures
            r@ == plain(TokenType::EOF, Seq::empty(), 0),
    {
        let s = String::new();
        assert(s@ =~= Seq::<char>::empty());
        plain_token(TokenType::EOF, s, 0)
    }
}

// ── Blanks ───────────────────────────────────────────────────────────────────

pub open spec fn blank(c: char) -> bool {
    c == ' ' || c == '\t' || c == '\n' || c == '\r' || c == '\u{b}'
}

fn is_blank(c: char) -> (r: bool)
    ensures
        r == blank(c),
{
    c == ' ' || c == '\t' || c == '\n' || c == '\r' || c == '\u{b}'
}

pub open spec fn opens_comment(s: Seq<char>, i: int) -> bool {
    i + 1 < s.len() && s[i] == '/' && s[i + 1] == '*'
}

/// Position of the next `*/` at or after `i`.
pub open spec fn comment_end(s: Seq<char>, i: int) -> Option<int>
    decreases s.len() - i,
{
    if i < 0 || i + 1 >= s.len() {
        None
    } else if s[i] == '*' && s[i + 1] == '/' {
        Some(i)
    } else {
        comment_end(s, i + 1)
    }
}

/// Position after blanks and comments.
pub open spec fn skipped(s: Seq<char>, i: int) -> Result<int, Fault>
    decreases s.len() - i,
    when 0 <= i
    via skipped_decreases
{
    if i >= s.len() {
        Ok(i)
    } else if blank(s[i]) {
        skipped(s, i + 1)
    } else if opens_comment(s, i) {
        match comment_end(s, i + 2) {
            Some(j) => skipped(s, j + 2),
            None => Err(fault_at("S0106"@, i as usize)),
        }
    } else {
        Ok(i)
    }
}

#[via_fn]
proof fn skipped_decreases(s: Seq<char>, i: int) {
    if i < s.len() {
        lemma_comment_end(s, i + 2);
    }
}

proof fn lemma_comment_end(s: Seq<char>, i: int)
    requires
        0 <= i,
    ensures
        match comment_end(s, i) {
            Some(j) => i <= j && j + 1 < s.len(),
            None => true,
        },
    decreases s.len() - i,
{
    if i + 1 < s.len() {
        lemma_comment_end(s, i + 1);
    }
}

fn find_comment_end(s: &[char], from: usize) -> (r: Option<usize>)
    requires
        from <= s@.len(),
    ensures
        match r {
            Some(j) => comment_end(s@, from as int) == Some(j as int) && from <= j && j + 1 < s@.len(),
            None => comment_end(s@, from as int) is None,
        },
{
    let n: usize = s.len();
    let mut i: usize = from;
    while i < n && n - i > 1
        invariant
            from <= i <= n,
            n == s@.len(),
            comment_end(s@, from as int) == comment_end(s@, i as int),
        decreases n - i,
    {
        if s[i] == '*' && s[i + 1] == '/' {
            return Some(i);
        }
        i = i + 1;
    }
    None
}

fn skip_blanks(s: &[char], from: usize) -> (r: Result<usize, JsonataError>)
    requires
        from <= s@.len(),
    ensures
        match r {
            Ok(j) => skipped(s@, from as int) == Ok::<int, Fault>(j as int) && from <= j <= s@.len(),
            Err(e) => skipped(s@, from as int) == Err::<int, Fault>(fault(e)),
        },
{
    let n: usize = s.len();
    let mut i: usize = from;
    while i < n
        invariant
            from <= i <= n,
            n == s@.len(),
            skipped(s@, from as int) == skipped(s@, i as int),
        decreases n - i,
    {
        if is_blank(s[i]) {
            i = i + 1;
        } else if n - i > 1 && s[i] == '/' && s[i + 1] == '*' {
            match find_comment_end(s, i + 2) {
                Some(j) => {
                    i = j + 2;
                },
                None => {
                    return Err(error_at("S0106", "comment is not closed", i));
                },
            }
        } else {
            return Ok(i);
        }
    }
    Ok(i)
}

// ── Operators ────────────────────────────────────────────────────────────────

/// The operator of two characters that starts at `i`.
pub open spec fn double_op(a: char, b: char) -> Option<TokenType> {
    if a == '.' && b == '.' {
        Some(TokenType::DotDot)
    } else if a == ':' && b == '=' {
        Some(TokenType::Assign)
    } else if a == '!' && b == '=' {
        Some(TokenType::NE)
    } else if a == '>' && b == '=' {
        Some(TokenType::GE)
    } else if a == '<' && b == '=' {
        Some(TokenType::LE)
    } else if a == '*' && b == '*' {
        Some(TokenType::StarStar)
    } else if a == '~' && b == '>' {
        Some(TokenType::Chain)
    } else if a == '?' && b == ':' {
        Some(TokenType::Elvis)
    } else if a == '?' && b == '?' {
        Some(TokenType::Coalesce)
    } else {
        None
    }
}

fn read_double(a: char, b: char) -> (r: Option<TokenType>)
    ensures
        r == double_op(a, b),
{
    if a == '.' && b == '.' {
        Some(TokenType::DotDot)
    } else if a == ':' && b == '=' {
        Some(TokenType::Assign)
    } else if a == '!' && b == '=' {
        Some(TokenType::NE)
    } else if a == '>' && b == '=' {
        Some(TokenType::GE)
    } else if a == '<' && b == '=' {
        Some(TokenType::LE)
    } else if a == '*' && b == '*' {
        Some(TokenType::StarStar)
    } else if a == '~' && b == '>' {
        Some(TokenType::Chain)
    } else if a == '?' && b == ':' {
        Some(TokenType::Elvis)
    } else if a == '?' && b == '?' {
        Some(TokenType::Coalesce)
    } else {
        None
    }
}

/// The operator of one character.
pub open spec fn single_op(c: char) -> Option<TokenType> {
    match c {
        '.' => Some(TokenType::Dot),
        '[' => Some(TokenType::LBracket),
        ']' => Some(TokenType::RBracket),
        '{' => Some(TokenType::LBrace),
        '}' => Some(TokenType::RBrace),
        '(' => Some(TokenType::LParen),
        ')' => Some(TokenType::RParen),
        ',' => Some(TokenType::Comma),
        '@' => Some(TokenType::At),
        '#' => Some(TokenType::Hash),
        ';' => Some(TokenType::Semicolon),
        ':' => Some(TokenType::Colon),
        '?' => Some(TokenType::Question),
        '+' => Some(TokenType::Plus),
        '-' => Some(TokenType::Minus),
        '*' => Some(TokenType::Star),
        '/' => Some(TokenType::Slash),
        '%' => Some(TokenType::Percent),
        '|' => Some(TokenType::Pipe),
        '=' => Some(TokenType::Equals),
        '<' => Some(TokenType::LT),
        '>' => Some(TokenType::GT),
        '^' => Some(TokenType::Caret),
        '&' => Some(TokenType::Amp),
        '!' => Some(TokenType::Bang),
        '~' => Some(TokenType::Tilde),
        _ => None,
    }
}

fn read_single(c: char) -> (r: Option<TokenType>)
    ensures
        r == single_op(c),
{
    match c {
        '.' => Some(TokenType::Dot),
        '[' => Some(TokenType::LBracket),
        ']' => Some(TokenType::RBracket),
        '{' => Some(TokenType::LBrace),
        '}' => Some(TokenType::RBrace),
        '(' => Some(TokenType::LParen),
        ')' => Some(TokenType::RParen),
        ',' => Some(TokenType::Comma),
        '@' => Some(TokenType::At),
        '#' => Some(TokenType::Hash),
        ';' => Some(TokenType::Semicolon),
        ':' => Some(TokenType::Colon),
        '?' => Some(TokenType::Question),
        '+' => Some(TokenType::Plus),
        '-' => Some(TokenType::Minus),
        '*' => Some(TokenType::Star),
        '/' => Some(TokenType::Slash),
        '%' => Some(TokenType::Percent),
        '|' => Some(TokenType::Pipe),
        '=' => Some(TokenType::Equals),
        '<' => Some(TokenType::LT),
        '>' => Some(TokenType::GT),
        '^' => Some(TokenType::Caret),
        '&' => Some(TokenType::Amp),
        '!' => Some(TokenType::Bang),
        '~' => Some(TokenType::Tilde),
        _ => None,
    }
}

// ── Strings ──────────────────────────────────────────────────────────────────

/// Value of a hexadecimal digit.
pub open spec fn hex_value(c: char) -> Option<int> {
    if '0' <= c <= '9' {
        Some(c as int - '0' as int)
    } else if 'a' <= c <= 'f' {
        Some(c as int - 'a' as int + 10)
    } else if 'A' <= c <= 'F' {
        Some(c as int - 'A' as int + 10)
    } else {
        None
    }
}

fn read_hex(c: char) -> (r: Option<u32>)
    ensures
        match r {
            Some(v) => hex_value(c) == Some(v as int) && v < 16,
            None => hex_value(c) is None,
        },
{
    if '0' <= c && c <= '9' {
        Some(c as u32 - 48)
    } else if 'a' <= c && c <= 'f' {
        Some(c as u32 - 87)
    } else if 'A' <= c && c <= 'F' {
        Some(c as u32 - 55)
    } else {
        None
    }
}

/// The number of four hexadecimal digits at `i`.
pub open spec fn hex4(s: Seq<char>, i: int) -> Option<int> {
    if i < 0 || i + 4 > s.len() {
        None
    } else {
        match (hex_value(s[i]), hex_value(s[i + 1]), hex_value(s[i + 2]), hex_value(s[i + 3])) {
            (Some(a), Some(b), Some(c), Some(d)) => Some(a * 4096 + b * 256 + c * 16 + d),
            _ => None,
        }
    }
}

fn read_hex4(s: &[char], i: usize) -> (r: Option<u32>)
    requires
        i <= s@.len(),
    ensures
        match r {
            Some(v) => hex4(s@, i as int) == Some(v as int) && v < 0x10000 && i + 4 <= s@.len(),
            None => hex4(s@, i as int) is None,
        },
{
    if s.len() - i < 4 {
        return None;
    }
    match (read_hex(s[i]), read_hex(s[i + 1]), read_hex(s[i + 2]), read_hex(s[i + 3])) {
        (Some(a), Some(b), Some(c), Some(d)) => Some(a * 4096 + b * 256 + c * 16 + d),
        _ => None,
    }
}

/// The character that an escape of one letter stands for.
pub open spec fn simple_escape(c: char) -> Option<char> {
    match c {
        '"' => Some('"'),
        '\\' => Some('\\'),
        '/' => Some('/'),
        'b' => Some('\u{8}'),
        'f' => Some('\u{c}'),
        'n' => Some('\n'),
        'r' => Some('\r'),
        't' => Some('\t'),
        _ => None,
    }
}

fn read_escape(c: char) -> (r: Option<char>)
    ensures
        r == simple_escape(c),
{
    match c {
        '"' => Some('"'),
        '\\' => Some('\\'),
        '/' => Some('/'),
        'b' => Some('\u{8}'),
        'f' => Some('\u{c}'),
        'n' => Some('\n'),
        'r' => Some('\r'),
        't' => Some('\t'),
        _ => None,
    }
}

/// The character that the Unicode escape whose digits start at `i` stands
/// for, and the position after it. A pair of surrogates is one character; a
/// surrogate alone is the replacement character.
pub open spec fn unicode_escape(s: Seq<char>, i: int) -> Option<(char, int)> {
    match hex4(s, i) {
        None => None,
        Some(h) => if 0xd800 <= h < 0xdc00 && i + 5 < s.len() && s[i + 4] == '\\' && s[i + 5] == 'u' && (hex4(
            s,
            i + 6,
        ) matches Some(l) && 0xdc00 <= l < 0xe000) {
            Some(((0x10000 + (h - 0xd800) * 0x400 + (hex4(s, i + 6)->0 - 0xdc00)) as char, i + 10))
        } else if 0xd800 <= h < 0xe000 {
            Some(('\u{fffd}', i + 4))
        } else {
            Some((h as char, i + 4))
        },
    }
}

fn scalar(v: u32) -> (r: char)
    requires
        scalar_value(v as int),
    ensures
        r as int == v,
{
    match std_from_u32(v) {
        Some(c) => c,
        None => '\u{fffd}',
    }
}

fn read_unicode(s: &[char], i: usize) -> (r: Option<(char, usize)>)
    requires
        i <= s@.len(),
    ensures
        match r {
            Some((c, j)) => unicode_escape(s@, i as int) == Some((c, j as int)) && i < j <= s@.len(),
            None => unicode_escape(s@, i as int) is None,
        },
{
    let n: usize = s.len();
    match read_hex4(s, i) {
        None => None,
        Some(h) => {
            if 0xd800 <= h && h < 0xe000 {
                if h < 0xdc00 && n - i > 5 && s[i + 4] == '\\' && s[i + 5] == 'u' {
                    match read_hex4(s, i + 6) {
                        Some(l) => {
                            if 0xdc00 <= l && l < 0xe000 {
                                let c: char = scalar(0x10000 + (h - 0xd800) * 0x400 + (l - 0xdc00));
                                return Some((c, i + 10));
                            }
                        },
                        None => {},
                    }
                }
                Some(('\u{fffd}', i + 4))
            } else {
                Some((scalar(h), i + 4))
            }
        },
    }
}

/// The rest of a string that ends with `quote`, from `i` on: its characters,
/// and the position after the quote. `start` is where the string began.
pub open spec fn string_rest(s: Seq<char>, i: int, quote: char, start: int) -> Result<(Seq<char>, int), Fault>
    decreases s.len() - i,
    when 0 <= i
{
    if i >= s.len() {
        Err(fault_at("S0101"@, start as usize))
    } else if s[i] == quote {
        Ok((Seq::empty(), i + 1))
    } else if s[i] == '\\' {
        if i + 1 >= s.len() {
            Err(fault_at("S0101"@, start as usize))
        } else if s[i + 1] == 'u' {
            match unicode_escape(s, i + 2) {
                Some((c, j)) => if j > i && j <= s.len() {
                    with_char(c, string_rest(s, j, quote, start))
                } else {
                    arbitrary()
                },
                None => Err(fault_at("S0104"@, i as usize)),
            }
        } else {
            match simple_escape(s[i + 1]) {
                Some(c) => with_char(c, string_rest(s, i + 2, quote, start)),
                None => Err(fault_on("S0103"@, i as usize, seq![s[i + 1]])),
            }
        }
    } else {
        with_char(s[i], string_rest(s, i + 1, quote, start))
    }
}

pub open spec fn with_char(c: char, rest: Result<(Seq<char>, int), Fault>) -> Result<(Seq<char>, int), Fault> {
    match rest {
        Ok((t, j)) => Ok((seq![c] + t, j)),
        Err(e) => Err(e),
    }
}

/// What has been read of a string, put in front of the rest.
pub open spec fn with_text(
    head: Seq<char>,
    rest: Result<(Seq<char>, int), Fault>,
) -> Result<(Seq<char>, int), Fault> {
    match rest {
        Ok((t, j)) => Ok((head + t, j)),
        Err(e) => Err(e),
    }
}

proof fn lemma_with_char(head: Seq<char>, c: char, rest: Result<(Seq<char>, int), Fault>)
    ensures
        with_text(head, with_char(c, rest)) == with_text(head.push(c), rest),
{
    match rest {
        Ok((t, j)) => {
            assert(head + (seq![c] + t) =~= head.push(c) + t);
        },
        Err(_) => {},
    }
}

fn read_string(s: &[char], start: usize, quote: char) -> (r: Result<(Vec<char>, usize), JsonataError>)
    requires
        start < s@.len(),
    ensures
        match r {
            Ok((t, j)) => string_rest(s@, start + 1, quote, start as int) == Ok::<(Seq<char>, int), Fault>(
                (t@, j as int),
            ) && start < j <= s@.len(),
            Err(e) => string_rest(s@, start + 1, quote, start as int) == Err::<(Seq<char>, int), Fault>(fault(e)),
        },
{
    let n: usize = s.len();
    let mut out: Vec<char> = Vec::new();
    let mut i: usize = start + 1;
    let ghost whole = string_rest(s@, start + 1, quote, start as int);
    assert(whole == with_text(out@, whole)) by {
        match whole {
            Ok((t, j)) => {
                assert(out@ + t =~= t);
            },
            Err(_) => {},
        }
    }
    while i < n
        invariant
            start < i <= n,
            n == s@.len(),
            whole == string_rest(s@, start + 1, quote, start as int),
            whole == with_text(out@, string_rest(s@, i as int, quote, start as int)),
        decreases n - i,
    {
        let c: char = s[i];
        if c == quote {
            assert(out@ + Seq::<char>::empty() =~= out@);
            return Ok((out, i + 1));
        }
        if c != '\\' {
            proof {
                lemma_with_char(out@, c, string_rest(s@, i + 1, quote, start as int));
            }
            out.push(c);
            i = i + 1;
        } else {
            if n - i <= 1 {
                return Err(error_at("S0101", "string literal is not closed", start));
            }
            let e: char = s[i + 1];
            if e == 'u' {
                match read_unicode(s, i + 2) {
                    Some((u, j)) => {
                        proof {
                            lemma_with_char(out@, u, string_rest(s@, j as int, quote, start as int));
                        }
                        out.push(u);
                        i = j;
                    },
                    None => {
                        return Err(error_at("S0104", "\\u must be followed by four hexadecimal digits", i));
                    },
                }
            } else {
                match read_escape(e) {
                    Some(u) => {
                        proof {
                            lemma_with_char(out@, u, string_rest(s@, i + 2, quote, start as int));
                        }
                        out.push(u);
                        i = i + 2;
                    },
                    None => {
                        let mut t: Vec<char> = Vec::new();
                        t.push(e);
                        assert(t@ =~= seq![e]);
                        return Err(error_on("S0103", "unsupported escape sequence", i, text_of(t.as_slice())));
                    },
                }
            }
        }
    }
    Err(error_at("S0101", "string literal is not closed", start))
}

// ── Numbers ──────────────────────────────────────────────────────────────────

/// Position after a number that starts at `i`, which is a digit.
pub open spec fn number_end(s: Seq<char>, i: int) -> int {
    let a = if s[i] == '0' {
        i + 1
    } else {
        i + digit_run(s, i)
    };
    let b = if a + 1 < s.len() && s[a] == '.' && is_digit(s[a + 1]) {
        a + 1 + digit_run(s, a + 1)
    } else {
        a
    };
    let sign = if b + 1 < s.len() && (s[b + 1] == '+' || s[b + 1] == '-') {
        b + 2
    } else {
        b + 1
    };
    if b < s.len() && (s[b] == 'e' || s[b] == 'E') && sign < s.len() && is_digit(s[sign]) {
        sign + digit_run(s, sign)
    } else {
        b
    }
}

fn find_number_end(s: &[char], i: usize) -> (r: usize)
    requires
        i < s@.len(),
        is_digit(s@[i as int]),
    ensures
        r == number_end(s@, i as int),
        i < r <= s@.len(),
{
    let n: usize = s.len();
    let a: usize = if s[i] == '0' {
        i + 1
    } else {
        digits_end(s, i)
    };
    assert(i < a <= n);
    let b: usize = if a < n && n - a > 1 && s[a] == '.' && digit(s[a + 1]) {
        digits_end(s, a + 1)
    } else {
        a
    };
    assert(i < b <= n);
    if b < n && (s[b] == 'e' || s[b] == 'E') {
        let sign: usize = if n - b > 1 && (s[b + 1] == '+' || s[b + 1] == '-') {
            b + 2
        } else {
            b + 1
        };
        if sign < n && digit(s[sign]) {
            return digits_end(s, sign);
        }
    }
    b
}

// ── Regular expressions ──────────────────────────────────────────────────────

/// Whether an odd number of backslashes stands right before `i`, at or after
/// `from`.
pub open spec fn escaped_at(s: Seq<char>, i: int, from: int) -> bool
    decreases i - from,
{
    i > from && s[i - 1] == '\\' && !escaped_at(s, i - 1, from)
}

/// Change of the nesting depth at a bracket that no backslash precedes.
pub open spec fn nesting(s: Seq<char>, i: int, from: int) -> int {
    if i > from && s[i - 1] == '\\' {
        0
    } else if s[i] == '(' || s[i] == '[' || s[i] == '{' {
        1
    } else if s[i] == ')' || s[i] == ']' || s[i] == '}' {
        -1
    } else {
        0
    }
}

/// Position of the slash that ends a regular expression, searched from `i` on
/// at a nesting depth. The expression began at `from`.
pub open spec fn regex_end(s: Seq<char>, i: int, from: int, depth: int) -> Option<int>
    decreases s.len() - i,
{
    if i < 0 || i >= s.len() {
        None
    } else if s[i] == '/' && depth == 0 && !escaped_at(s, i, from) {
        Some(i)
    } else {
        regex_end(s, i + 1, from, depth + nesting(s, i, from))
    }
}

/// Length of the flags that start at `i`.
pub open spec fn flag_run(s: Seq<char>, i: int) -> nat
    decreases s.len() - i,
{
    if 0 <= i < s.len() && (s[i] == 'i' || s[i] == 'm') {
        1 + flag_run(s, i + 1)
    } else {
        0
    }
}

/// The regular expression whose opening slash stands at `i`.
pub open spec fn regex_at(s: Seq<char>, i: int) -> Result<(Tok, int), Fault> {
    match regex_end(s, i + 1, i + 1, 0) {
        None => Err(fault_at("S0302"@, i as usize)),
        Some(j) => if j == i + 1 {
            Err(fault_at("S0301"@, i as usize))
        } else {
            let k = j + 1 + flag_run(s, j + 1);
            Ok(
                (
                    Tok {
                        typ: TokenType::Regex,
                        value: Seq::empty(),
                        pos: i as usize,
                        num_val: Number { bits: 0 },
                        regex_pat: s.subrange(i + 1, j),
                        regex_flg: s.subrange(j + 1, k),
                    },
                    k,
                ),
            )
        },
    }
}

fn find_regex_end(s: &[char], from: usize) -> (r: Option<usize>)
    requires
        from <= s@.len(),
    ensures
        match r {
            Some(j) => regex_end(s@, from as int, from as int, 0) == Some(j as int) && from <= j < s@.len(),
            None => regex_end(s@, from as int, from as int, 0) is None,
        },
{
    let n: usize = s.len();
    let mut i: usize = from;
    let mut depth: i128 = 0;
    let mut escaped: bool = false;
    while i < n
        invariant
            from <= i <= n,
            n == s@.len(),
            -(i - from) <= depth <= i - from,
            escaped == escaped_at(s@, i as int, from as int),
            regex_end(s@, from as int, from as int, 0) == regex_end(s@, i as int, from as int, depth as int),
        decreases n - i,
    {
        let c: char = s[i];
        if c == '/' && depth == 0 && !escaped {
            return Some(i);
        }
        if !(i > from && s[i - 1] == '\\') {
            if c == '(' || c == '[' || c == '{' {
                depth = depth + 1;
            } else if c == ')' || c == ']' || c == '}' {
                depth = depth - 1;
            }
        }
        escaped = c == '\\' && !escaped;
        i = i + 1;
    }
    None
}

fn read_regex(s: &[char], i: usize) -> (r: Result<(Token, usize), JsonataError>)
    requires
        i < s@.len(),
    ensures
        is_token(r, regex_at(s@, i as int), i as int, s@.len()),
{
    let n: usize = s.len();
    match find_regex_end(s, i + 1) {
        None => Err(error_at("S0302", "regular expression is not closed", i)),
        Some(j) => {
            if j == i + 1 {
                return Err(error_at("S0301", "empty regular expressions are not allowed", i));
            }
            let mut k: usize = j + 1;
            while k < n && (s[k] == 'i' || s[k] == 'm')
                invariant
                    j < k <= n,
                    n == s@.len(),
                    j + 1 + flag_run(s@, j + 1) == k + flag_run(s@, k as int),
                decreases s@.len() - k,
            {
                k = k + 1;
            }
            let t = Token {
                typ: TokenType::Regex,
                value: String::new(),
                pos: i,
                num_val: Number { bits: 0 },
                regex_pat: text_of(part(s, i + 1, j).as_slice()),
                regex_flg: text_of(part(s, j + 1, k).as_slice()),
            };
            assert(t.value@ =~= Seq::<char>::empty());
            Ok((t, k))
        },
    }
}

// ── Names ────────────────────────────────────────────────────────────────────

/// Position after the name that starts at `i`: up to a blank or an operator.
pub open spec fn name_end(s: Seq<char>, i: int) -> int
    decreases s.len() - i,
{
    if i < 0 || i >= s.len() || blank(s[i]) || single_op(s[i]) is Some {
        i
    } else {
        name_end(s, i + 1)
    }
}

fn find_name_end(s: &[char], from: usize) -> (r: usize)
    requires
        from <= s@.len(),
    ensures
        r == name_end(s@, from as int),
        from <= r <= s@.len(),
        from < s@.len() && !blank(s@[from as int]) && single_op(s@[from as int]) is None ==> r > from,
{
    let n: usize = s.len();
    let mut i: usize = from;
    while i < n && !is_blank(s[i]) && read_single(s[i]).is_none()
        invariant
            from <= i <= n,
            n == s@.len(),
            name_end(s@, from as int) == name_end(s@, i as int),
        decreases n - i,
    {
        i = i + 1;
    }
    i
}

/// What a word is: a variable, an operator, a value or a name.
pub open spec fn word_token(w: Seq<char>, pos: int) -> Tok {
    if w.len() > 0 && w[0] == '$' {
        plain(TokenType::Variable, w.skip(1), pos)
    } else if w == "or"@ {
        plain(TokenType::Or, w, pos)
    } else if w == "in"@ {
        plain(TokenType::In, w, pos)
    } else if w == "and"@ {
        plain(TokenType::And, w, pos)
    } else if w == "true"@ || w == "false"@ || w == "null"@ {
        plain(TokenType::Value, w, pos)
    } else {
        plain(TokenType::Name, w, pos)
    }
}

fn read_word(w: &[char], pos: usize) -> (r: Token)
    ensures
        r@ == word_token(w@, pos as int),
        r.typ != TokenType::EOF,
{
    if w.len() > 0 && w[0] == '$' {
        let v = part(w, 1, w.len());
        assert(v@ =~= w@.skip(1));
        return plain_token(TokenType::Variable, text_of(v.as_slice()), pos);
    }
    let typ: TokenType = if is_text(w, "or") {
        TokenType::Or
    } else if is_text(w, "in") {
        TokenType::In
    } else if is_text(w, "and") {
        TokenType::And
    } else if is_text(w, "true") || is_text(w, "false") || is_text(w, "null") {
        TokenType::Value
    } else {
        TokenType::Name
    };
    plain_token(typ, text_of(w), pos)
}

// ── Tokens ───────────────────────────────────────────────────────────────────

/// The token that starts at `i`, which is not a blank, and the position after it.
pub open spec fn token_at(s: Seq<char>, i: int, infix: bool) -> Result<(Tok, int), Fault> {
    if i >= s.len() {
        Ok((plain(TokenType::EOF, Seq::empty(), i), i))
    } else if s[i] == '/' && !infix {
        regex_at(s, i)
    } else if i + 1 < s.len() && double_op(s[i], s[i + 1]) is Some {
        Ok((plain(double_op(s[i], s[i + 1])->0, s.subrange(i, i + 2), i), i + 2))
    } else if single_op(s[i]) is Some {
        Ok((plain(single_op(s[i])->0, s.subrange(i, i + 1), i), i + 1))
    } else if s[i] == '"' || s[i] == '\'' {
        match string_rest(s, i + 1, s[i], i) {
            Ok((t, j)) => Ok((plain(TokenType::String, t, i), j)),
            Err(e) => Err(e),
        }
    } else if is_digit(s[i]) {
        let j = number_end(s, i);
        match decimal_number(s.subrange(i, j)) {
            Some(v) => if v.finite() {
                Ok(
                    (
                        Tok {
                            typ: TokenType::Number,
                            value: s.subrange(i, j),
                            pos: i as usize,
                            num_val: v,
                            regex_pat: Seq::empty(),
                            regex_flg: Seq::empty(),
                        },
                        j,
                    ),
                )
            } else {
                Err(fault_on("S0102"@, i as usize, s.subrange(i, j)))
            },
            None => Err(fault_on("S0102"@, i as usize, s.subrange(i, j))),
        }
    } else if s[i] == '`' {
        match find_char(s, '`', i + 1) {
            Some(j) => Ok((plain(TokenType::Name, s.subrange(i + 1, j), i), j + 1)),
            None => Err(fault_at("S0105"@, i as usize)),
        }
    } else {
        let j = name_end(s, i);
        Ok((word_token(s.subrange(i, j), i), j))
    }
}

/// The next token at or after `at`, and the position after it.
pub open spec fn next_token(s: Seq<char>, at: int, infix: bool) -> Result<(Tok, int), Fault> {
    match skipped(s, at) {
        Ok(i) => token_at(s, i, infix),
        Err(e) => Err(e),
    }
}

/// Whether a result is the expected token and position, past `from`.
pub open spec fn is_token(
    r: Result<(Token, usize), JsonataError>,
    want: Result<(Tok, int), Fault>,
    from: int,
    len: nat,
) -> bool {
    match r {
        Ok((t, j)) => {
            &&& want == Ok::<(Tok, int), Fault>((t@, j as int))
            &&& from <= j <= len
            &&& t.typ != TokenType::EOF ==> from < j
        },
        Err(e) => want == Err::<(Tok, int), Fault>(fault(e)),
    }
}

fn read_number(s: &[char], i: usize) -> (r: Result<(Token, usize), JsonataError>)
    requires
        i < s@.len(),
        is_digit(s@[i as int]),
    ensures
        is_token(r, token_at(s@, i as int, true), i as int, s@.len()),
        token_at(s@, i as int, true) == token_at(s@, i as int, false),
{
    assert(double_op(s@[i as int], s@[i + 1]) is None);
    let j: usize = find_number_end(s, i);
    let raw = part(s, i, j);
    match read_decimal(raw.as_slice()) {
        Some(v) => {
            if v.is_finite() {
                let t = Token {
                    typ: TokenType::Number,
                    value: text_of(raw.as_slice()),
                    pos: i,
                    num_val: v,
                    regex_pat: String::new(),
                    regex_flg: String::new(),
                };
                assert(t.regex_pat@ =~= Seq::<char>::empty());
                assert(t.regex_flg@ =~= Seq::<char>::empty());
                return Ok((t, j));
            }
        },
        None => {},
    }
    Err(error_on("S0102", "number out of range", i, text_of(raw.as_slice())))
}

fn read_token(s: &[char], i: usize, infix: bool) -> (r: Result<(Token, usize), JsonataError>)
    requires
        i <= s@.len(),
        i < s@.len() ==> !blank(s@[i as int]),
    ensures
        is_token(r, token_at(s@, i as int, infix), i as int, s@.len()),
{
    let n: usize = s.len();
    if i >= n {
        let t = String::new();
        assert(t@ =~= Seq::<char>::empty());
        return Ok((plain_token(TokenType::EOF, t, i), i));
    }
    let c: char = s[i];
    if c == '/' && !infix {
        return read_regex(s, i);
    }
    if n - i > 1 {
        match read_double(c, s[i + 1]) {
            Some(typ) => {
                return Ok((plain_token(typ, text_of(part(s, i, i + 2).as_slice()), i), i + 2));
            },
            None => {},
        }
    }
    match read_single(c) {
        Some(typ) => {
            return Ok((plain_token(typ, text_of(part(s, i, i + 1).as_slice()), i), i + 1));
        },
        None => {},
    }
    if c == '"' || c == '\'' {
        return match read_string(s, i, c) {
            Ok((t, j)) => Ok((plain_token(TokenType::String, text_of(t.as_slice()), i), j)),
            Err(e) => Err(e),
        };
    }
    if digit(c) {
        return read_number(s, i);
    }
    if c == '`' {
        return match find(s, '`', i + 1) {
            Some(j) => Ok((plain_token(TokenType::Name, text_of(part(s, i + 1, j).as_slice()), i), j + 1)),
            None => Err(error_at("S0105", "quoted name is not closed", i)),
        };
    }
    let j: usize = find_name_end(s, i);
    Ok((read_word(part(s, i, j).as_slice(), i), j))
}

/// A source text that is read token by token.
pub struct Lexer {
    pub src: Vec<char>,
    pub pos: usize,
}

impl Lexer {
    pub open spec fn wf(self) -> bool {
        self.pos <= self.src@.len()
    }

    /// Start reading a text.
    pub fn new(src: &str) -> (r: Lexer)
        ensures
            r.src@ == src@,
            r.pos == 0,
            r.wf(),
    {
        Lexer { src: chars_of(src), pos: 0 }
    }

    /// The next token. A slash is an operator in infix position, and starts a
    /// regular expression elsewhere.
    pub fn next(&mut self, infix: bool) -> (r: Result<Token, JsonataError>)
        requires
            old(self).wf(),
        ensures
            final(self).wf(),
            final(self).src == old(self).src,
            final(self).pos >= old(self).pos,
            match r {
                Ok(t) => {
                    &&& next_token(old(self).src@, old(self).pos as int, infix) == Ok::<(Tok, int), Fault>(
                        (t@, final(self).pos as int),
                    )
                    &&& t.typ != TokenType::EOF ==> final(self).pos > old(self).pos
                },
                Err(e) => next_token(old(self).src@, old(self).pos as int, infix) == Err::<(Tok, int), Fault>(
                    fault(e),
                ),
            },
    {
        let i: usize = match skip_blanks(self.src.as_slice(), self.pos) {
            Ok(i) => i,
            Err(e) => {
                return Err(e);
            },
        };
        proof {
            lemma_skipped_stops(self.src@, self.pos as int);
        }
        match read_token(self.src.as_slice(), i, infix) {
            Ok((t, j)) => {
                self.pos = j;
                Ok(t)
            },
            Err(e) => Err(e),
        }
    }
}

pub proof fn lemma_skipped_stops(s: Seq<char>, i: int)
    requires
        0 <= i <= s.len(),
    ensures
        match skipped(s, i) {
            Ok(j) => i <= j <= s.len() && (j < s.len() ==> !blank(s[j])),
            Err(_) => true,
        },
    decreases s.len() - i,
{
    if i < s.len() {
        if blank(s[i]) {
            lemma_skipped_stops(s, i + 1);
        } else if opens_comment(s, i) {
            lemma_comment_end(s, i + 2);
            match comment_end(s, i + 2) {
                Some(j) => {
                    lemma_skipped_stops(s, j + 2);
                },
                None => {},
            }
        }
    }
}

} // verus!
