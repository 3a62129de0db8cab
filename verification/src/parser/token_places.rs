//! Where tokens stand in a source text.
use vstd::prelude::*;

use super::ast::BinaryOp;
use crate::lexer::{
    double_op, flag_run, hex4, lemma_skipped_stops, name_end, next_token, number_end, regex_end, single_op, string_rest,
    token_at, unicode_escape, word_token, Tok, TokenType,
};
use crate::text::{digit_run, find_char, is_digit, occurs_at};

verus! {

// ── Ends of tokens ───────────────────────────────────────────────────────────

proof fn lemma_digit_run(s: Seq<char>, i: int)
    requires
        0 <= i <= s.len(),
    ensures
        i + digit_run(s, i) <= s.len(),
        i < s.len() && is_digit(s[i]) ==> digit_run(s, i) >= 1,
    decreases s.len() - i,
{
    if i < s.len() {
        lemma_digit_run(s, i + 1);
    }
}

proof fn lemma_number_end(s: Seq<char>, i: int)
    requires
        0 <= i < s.len(),
        is_digit(s[i]),
    ensures
        i < number_end(s, i) <= s.len(),
{
    lemma_digit_run(s, i);
    let a = if s[i] == '0' {
        i + 1
    } else {
        i + digit_run(s, i)
    };
    if a + 1 < s.len() {
        lemma_digit_run(s, a + 1);
    }
    let b = if a + 1 < s.len() && s[a] == '.' && is_digit(s[a + 1]) {
        a + 1 + digit_run(s, a + 1)
    } else {
        a
    };
    let sign = if b + 1 < s.len() && (s[b + 1] == '+' || s[b + 1] == '-') {
        b + 2
    } else {
        b + 1
    };
    if sign < s.len() {
        lemma_digit_run(s, sign);
    }
}

proof fn lemma_string_rest(s: Seq<char>, i: int, quote: char, start: int)
    requires
        0 <= i,
    ensures
        string_rest(s, i, quote, start) matches Ok((t, j)) ==> i < j <= s.len(),
    decreases s.len() - i,
{
    if i < s.len() && s[i] != quote {
        if s[i] == '\\' {
            if i + 1 < s.len() {
                if s[i + 1] == 'u' {
                    match unicode_escape(s, i + 2) {
                        Some((c, j)) => {
                            assert(hex4(s, i + 2) is Some);
                            lemma_string_rest(s, j, quote, start);
                        },
                        None => {},
                    }
                } else {
                    lemma_string_rest(s, i + 2, quote, start);
                }
            }
        } else {
            lemma_string_rest(s, i + 1, quote, start);
        }
    }
}

proof fn lemma_regex_end(s: Seq<char>, i: int, from: int, depth: int)
    requires
        0 <= i,
    ensures
        regex_end(s, i, from, depth) matches Some(j) ==> i <= j < s.len(),
    decreases s.len() - i,
{
    if i < s.len() {
        lemma_regex_end(s, i + 1, from, depth + crate::lexer::nesting(s, i, from));
    }
}

proof fn lemma_flag_run(s: Seq<char>, i: int)
    requires
        0 <= i <= s.len(),
    ensures
        i + flag_run(s, i) <= s.len(),
    decreases s.len() - i,
{
    if i < s.len() {
        lemma_flag_run(s, i + 1);
    }
}

proof fn lemma_name_end(s: Seq<char>, i: int)
    requires
        0 <= i <= s.len(),
    ensures
        i <= name_end(s, i) <= s.len(),
    decreases s.len() - i,
{
    if i < s.len() {
        lemma_name_end(s, i + 1);
    }
}

proof fn lemma_find(s: Seq<char>, c: char, from: int)
    requires
        0 <= from,
    ensures
        find_char(s, c, from) matches Some(j) ==> from <= j < s.len(),
    decreases s.len() - from,
{
    if from < s.len() {
        lemma_find(s, c, from + 1);
    }
}

/// A token ends behind where it begins, but for the end of the text.
proof fn lemma_token_end(s: Seq<char>, i: int, infix: bool)
    requires
        0 <= i <= s.len() <= usize::MAX,
        i < s.len() ==> !crate::lexer::blank(s[i]),
    ensures
        token_at(s, i, infix) matches Ok((t, j)) ==> {
            &&& t.pos == i
            &&& i <= j <= s.len()
            &&& t.typ != TokenType::EOF ==> i < j
        },
{
    if i < s.len() {
        if s[i] == '/' && !infix {
            lemma_regex_end(s, i + 1, i + 1, 0);
            match regex_end(s, i + 1, i + 1, 0) {
                Some(j) => {
                    lemma_flag_run(s, j + 1);
                },
                None => {},
            }
        } else if i + 1 < s.len() && double_op(s[i], s[i + 1]) is Some {
        } else if single_op(s[i]) is Some {
        } else if s[i] == '"' || s[i] == '\'' {
            lemma_string_rest(s, i + 1, s[i], i);
        } else if is_digit(s[i]) {
            lemma_number_end(s, i);
        } else if s[i] == '`' {
            lemma_find(s, '`', i + 1);
        } else {
            lemma_name_end(s, i + 1);
        }
    }
}

// ── Operators ────────────────────────────────────────────────────────────────

/// Whether an operator stands between two operands.
pub open spec fn infix_op(op: BinaryOp) -> bool {
    op != BinaryOp::Subscript && op != BinaryOp::ObjConst && op != BinaryOp::Sort && op != BinaryOp::Assign
}

/// How an operator between two operands is written.
pub open spec fn written(op: BinaryOp) -> Seq<char> {
    match op {
        BinaryOp::Dot => seq!['.'],
        BinaryOp::Mul => seq!['*'],
        BinaryOp::Div => seq!['/'],
        BinaryOp::Mod => seq!['%'],
        BinaryOp::Pow => seq!['*', '*'],
        BinaryOp::Add => seq!['+'],
        BinaryOp::Sub => seq!['-'],
        BinaryOp::Concat => seq!['&'],
        BinaryOp::Chain => seq!['~', '>'],
        BinaryOp::Eq => seq!['='],
        BinaryOp::Ne => seq!['!', '='],
        BinaryOp::Lt => seq!['<'],
        BinaryOp::Le => seq!['<', '='],
        BinaryOp::Gt => seq!['>'],
        BinaryOp::Ge => seq!['>', '='],
        BinaryOp::In => seq!['i', 'n'],
        BinaryOp::And => seq!['a', 'n', 'd'],
        BinaryOp::Or => seq!['o', 'r'],
        BinaryOp::Range => seq!['.', '.'],
        BinaryOp::CondTern => seq!['?', ':'],
        BinaryOp::NullCoal => seq!['?', '?'],
        BinaryOp::Pipe => seq!['|'],
        _ => Seq::empty(),
    }
}

/// The token of an operator between two operands.
pub open spec fn token_of(op: BinaryOp) -> TokenType {
    match op {
        BinaryOp::Dot => TokenType::Dot,
        BinaryOp::Mul => TokenType::Star,
        BinaryOp::Div => TokenType::Slash,
        BinaryOp::Mod => TokenType::Percent,
        BinaryOp::Pow => TokenType::StarStar,
        BinaryOp::Add => TokenType::Plus,
        BinaryOp::Sub => TokenType::Minus,
        BinaryOp::Concat => TokenType::Amp,
        BinaryOp::Chain => TokenType::Chain,
        BinaryOp::Eq => TokenType::Equals,
        BinaryOp::Ne => TokenType::NE,
        BinaryOp::Lt => TokenType::LT,
        BinaryOp::Le => TokenType::LE,
        BinaryOp::Gt => TokenType::GT,
        BinaryOp::Ge => TokenType::GE,
        BinaryOp::In => TokenType::In,
        BinaryOp::And => TokenType::And,
        BinaryOp::Or => TokenType::Or,
        BinaryOp::Range => TokenType::DotDot,
        BinaryOp::CondTern => TokenType::Elvis,
        BinaryOp::NullCoal => TokenType::Coalesce,
        BinaryOp::Pipe => TokenType::Pipe,
        _ => TokenType::EOF,
    }
}

/// Whether a token, if it is an operator, is the one that is written where it
/// stands.
#[verifier::opaque]
pub open spec fn says_operator(s: Seq<char>, t: Tok) -> bool {
    forall|op: BinaryOp|
        infix_op(op) && t.typ == #[trigger] token_of(op) ==> occurs_at(s, written(op), t.pos as int)
}

proof fn lemma_one(s: Seq<char>, i: int, c: char)
    requires
        0 <= i < s.len(),
        s[i] == c,
    ensures
        occurs_at(s, seq![c], i),
{
    assert(s.subrange(i, i + 1) =~= seq![c]);
}

proof fn lemma_two(s: Seq<char>, i: int, c: char, d: char)
    requires
        0 <= i < s.len() - 1,
        s[i] == c,
        s[i + 1] == d,
    ensures
        occurs_at(s, seq![c, d], i),
{
    assert(s.subrange(i, i + 2) =~= seq![c, d]);
}

proof fn lemma_word(s: Seq<char>, i: int, op: BinaryOp)
    requires
        0 <= i <= s.len() <= usize::MAX,
        infix_op(op),
        word_token(s.subrange(i, name_end(s, i)), i).typ == token_of(op),
    ensures
        occurs_at(s, written(op), i),
{
    lemma_name_end(s, i);
    let w = s.subrange(i, name_end(s, i));
    reveal_strlit("or");
    reveal_strlit("in");
    reveal_strlit("and");
    assert("or"@ =~= seq!['o', 'r']);
    assert("in"@ =~= seq!['i', 'n']);
    assert("and"@ =~= seq!['a', 'n', 'd']);
    assert(w == written(op));
}

#[verifier::spinoff_prover]
proof fn lemma_symbol(s: Seq<char>, i: int, op: BinaryOp)
    requires
        0 <= i < s.len() <= usize::MAX,
        infix_op(op),
        ({
            ||| i + 1 < s.len() && double_op(s[i], s[i + 1]) == Some(token_of(op))
            ||| single_op(s[i]) == Some(token_of(op))
        }),
    ensures
        occurs_at(s, written(op), i),
{
    if written(op).len() == 2 {
        lemma_two(s, i, s[i], s[i + 1]);
    } else {
        lemma_one(s, i, s[i]);
    }
}

/// An operator that is read is written where it stands.
pub proof fn lemma_token(s: Seq<char>, at: int, infix: bool)
    requires
        0 <= at <= s.len() <= usize::MAX,
    ensures
        next_token(s, at, infix) matches Ok((t, j)) ==> {
            &&& at <= t.pos <= j <= s.len()
            &&& t.typ != TokenType::EOF ==> t.pos < j
            &&& says_operator(s, t)
        },
{
    reveal(says_operator);
    lemma_skipped_stops(s, at);
    match crate::lexer::skipped(s, at) {
        Ok(i) => {
            lemma_token_end(s, i, infix);
            match token_at(s, i, infix) {
                Ok((t, j)) => {
                    assert forall|op: BinaryOp| infix_op(op) && t.typ == #[trigger] token_of(op) implies occurs_at(
                        s,
                        written(op),
                        t.pos as int,
                    ) by {
                        if s[i] == '/' && !infix {
                        } else if i + 1 < s.len() && double_op(s[i], s[i + 1]) is Some {
                            lemma_symbol(s, i, op);
                        } else if single_op(s[i]) is Some {
                            lemma_symbol(s, i, op);
                        } else if s[i] == '"' || s[i] == '\'' || is_digit(s[i]) || s[i] == '`' {
                        } else {
                            lemma_word(s, i, op);
                        }
                    }
                },
                Err(_) => {},
            }
        },
        Err(_) => {},
    }
}

} // verus!
