//! Encodings of text: Base64 and the percent-encoding of URLs.
use base64::Engine;
use vstd::prelude::*;
use vstd::utf8::{
    decode_utf8, encode_utf8, encode_utf8_decode_utf8, encode_utf8_valid_utf8, is_ascii_chars, is_ascii_chars_encode_utf8,
    valid_utf8,
};

use super::args::arg;
use crate::error::{fail, out, JsonataResult};
use crate::text::{chars_of, occurs_at, replace_text, replaced, text_of};
use crate::value::{vals, Val, Value};

verus! {

/// What a function of one text gives that may fail with a code of its own.
pub open spec fn of_text(a: Seq<Val>, f: spec_fn(Seq<char>) -> Option<Seq<char>>, code: Seq<char>) -> Result<Val, Seq<char>> {
    match arg(a, 0) {
        Val::Undefined => Ok(Val::Undefined),
        Val::String(s) => match f(s) {
            Some(t) => Ok(Val::String(t)),
            None => Err(code),
        },
        _ => Err("T0410"@),
    }
}

// ── Base64 ───────────────────────────────────────────────────────────────────

/// What `base64` makes of bytes with its standard alphabet and padding.
pub uninterp spec fn base64_text(bytes: Seq<u8>) -> Seq<char>;

/// The bytes that `base64` reads from text with its standard alphabet and
/// padding, if the text is such.
pub uninterp spec fn base64_bytes(code: Seq<char>) -> Option<Seq<u8>>;

/// `base64::Engine::encode` of the engine `STANDARD`: the text is a function of
/// the bytes, and decoding it gives them back. A length for which the text
/// would not fit in memory is left out.
#[verifier::external_body]
fn engine_encode(bytes: &[u8]) -> (r: String)
    requires
        bytes@.len() <= usize::MAX / 4,
    ensures
        r@ == base64_text(bytes@),
        base64_bytes(r@) == Some(bytes@),
{
    base64::engine::general_purpose::STANDARD.encode(bytes)
}

/// `base64::Engine::decode` of the engine `STANDARD`: the bytes, if any, are a
/// function of the text.
#[verifier::external_body]
fn engine_decode(code: &str) -> (r: Option<Vec<u8>>)
    ensures
        base64_bytes(code@) == (match r {
            Some(b) => Some(b@),
            None => None,
        }),
{
    base64::engine::general_purpose::STANDARD.decode(code.as_bytes()).ok()
}

/// The text that bytes are in UTF-8, if they are.
pub open spec fn utf8_text(bytes: Seq<u8>) -> Option<Seq<char>> {
    if valid_utf8(bytes) {
        Some(decode_utf8(bytes))
    } else {
        None
    }
}

/// `String::from_utf8`: the text that bytes are in UTF-8, if they are.
#[verifier::external_body]
fn std_from_utf8(bytes: Vec<u8>) -> (r: Option<String>)
    ensures
        utf8_text(bytes@) == (match r {
            Some(t) => Some(t@),
            None => None,
        }),
{
    String::from_utf8(bytes).ok()
}

/// What Base64 stands for, as text.
pub open spec fn base64_decoded(s: Seq<char>) -> Option<Seq<char>> {
    match base64_bytes(s) {
        Some(b) => utf8_text(b),
        None => None,
    }
}

/// What `$base64encode` gives.
pub open spec fn base64_encode(a: Seq<Val>) -> Result<Val, Seq<char>> {
    of_text(a, |s: Seq<char>| Some(base64_text(encode_utf8(s))), "T0410"@)
}

/// What `$base64decode` gives.
pub open spec fn base64_decode(a: Seq<Val>) -> Result<Val, Seq<char>> {
    of_text(a, |s: Seq<char>| base64_decoded(s), "D3010"@)
}

/// Whether the encoding of the argument can be as long as a text can be.
pub open spec fn fits_base64(a: Seq<Val>) -> bool {
    arg(a, 0) matches Val::String(s) ==> encode_utf8(s).len() <= usize::MAX / 4
}

/// `$base64encode(text)`: a text as Base64 of its UTF-8. A text must leave
/// memory for its encoding.
pub fn fn_base64_encode(args: &[Value], _focus: &Value) -> (r: JsonataResult)
    requires
        fits_base64(vals(args@)),
    ensures
        out(r) == base64_encode(vals(args@)),
        arg(vals(args@), 0) matches Val::String(s) ==> base64_bytes(out(r)->Ok_0->String_0) == Some(encode_utf8(s)),
{
    if args.len() == 0 {
        return Ok(Value::Undefined);
    }
    assert(vals(args@)[0] == args@[0]@);
    match &args[0] {
        Value::Undefined => Ok(Value::Undefined),
        Value::String(s) => Ok(Value::String(engine_encode(s.as_str().as_bytes()))),
        _ => fail("T0410", "$base64encode: argument must be a string"),
    }
}

/// The text that Base64 stands for, with the bytes already decoded.
pub fn base64_result(bytes: Option<Vec<u8>>) -> (r: JsonataResult)
    ensures
        out(r) == (match bytes {
            Some(b) => match utf8_text(b@) {
                Some(t) => Ok::<Val, Seq<char>>(Val::String(t)),
                None => Err("D3010"@),
            },
            None => Err("D3010"@),
        }),
{
    match bytes {
        Some(b) => match std_from_utf8(b) {
            Some(t) => Ok(Value::String(t)),
            None => fail("D3010", "$base64decode: the bytes are not UTF-8"),
        },
        None => fail("D3010", "$base64decode: the text is not Base64"),
    }
}

/// `$base64decode(text)`: the text that Base64 stands for.
pub fn fn_base64_decode(args: &[Value], _focus: &Value) -> (r: JsonataResult)
    ensures
        out(r) == base64_decode(vals(args@)),
{
    if args.len() == 0 {
        return Ok(Value::Undefined);
    }
    assert(vals(args@)[0] == args@[0]@);
    match &args[0] {
        Value::Undefined => Ok(Value::Undefined),
        Value::String(s) => base64_result(engine_decode(s.as_str())),
        _ => fail("T0410", "$base64decode: argument must be a string"),
    }
}

/// Decoding what was encoded gives the text back: of any text whose encoding is
/// decoded to its bytes, as `$base64encode` promises of each that it makes.
pub proof fn law_base64_round_trip(s: Seq<char>, code: Seq<char>)
    requires
        base64_bytes(code) == Some(encode_utf8(s)),
    ensures
        base64_decode(seq![Val::String(code)]) == Ok::<Val, Seq<char>>(Val::String(s)),
{
    encode_utf8_valid_utf8(s);
    encode_utf8_decode_utf8(s);
}

// ── Percent-encoding ─────────────────────────────────────────────────────────

/// A digit of base sixteen, in upper case.
pub open spec fn hex_digit(n: int) -> char {
    if n < 10 {
        ('0' as int + n) as char
    } else {
        ('A' as int + (n - 10)) as char
    }
}

/// Whether a byte is an ASCII letter or digit.
pub open spec fn alphanumeric(b: u8) -> bool {
    0x30 <= b <= 0x39 || 0x41 <= b <= 0x5a || 0x61 <= b <= 0x7a
}

/// A byte as `%` and two digits.
pub open spec fn escape_of(b: u8) -> Seq<char> {
    seq!['%', hex_digit(b as int / 16), hex_digit(b as int % 16)]
}

/// A byte as it stands in an encoded text, where some stay as they are.
pub open spec fn encoded_byte(b: u8, kept: Set<u8>) -> Seq<char> {
    if alphanumeric(b) || kept.contains(b) {
        seq![b as char]
    } else {
        escape_of(b)
    }
}

/// Bytes as they stand in an encoded text, where some stay as they are.
pub open spec fn encoded(bytes: Seq<u8>, kept: Set<u8>) -> Seq<char>
    decreases bytes.len(),
{
    if bytes.len() == 0 {
        Seq::empty()
    } else {
        encoded_byte(bytes[0], kept) + encoded(bytes.drop_first(), kept)
    }
}

/// `percent_encoding::utf8_percent_encode` with the set `NON_ALPHANUMERIC`:
/// each byte of the UTF-8 as `%` and two digits, except letters and digits.
#[verifier::external_body]
fn engine_escape(s: &str) -> (r: String)
    ensures
        r@ == encoded(encode_utf8(s@), Set::empty()),
{
    percent_encoding::utf8_percent_encode(s, percent_encoding::NON_ALPHANUMERIC).to_string()
}

/// The value of a digit of base sixteen, in either case.
pub open spec fn hex_value(b: u8) -> Option<int> {
    if 0x30 <= b <= 0x39 {
        Some(b - 0x30)
    } else if 0x41 <= b <= 0x46 {
        Some(b - 0x41 + 10)
    } else if 0x61 <= b <= 0x66 {
        Some(b - 0x61 + 10)
    } else {
        None
    }
}

/// Bytes with each `%` that two digits follow made the byte that they stand
/// for, from `i` on.
pub open spec fn unescaped(b: Seq<u8>, i: int) -> Seq<u8>
    decreases b.len() - i,
{
    if i < 0 || i >= b.len() {
        Seq::empty()
    } else if b[i] == 0x25 && i + 2 < b.len() && hex_value(b[i + 1]) is Some && hex_value(b[i + 2]) is Some {
        seq![(hex_value(b[i + 1])->0 * 16 + hex_value(b[i + 2])->0) as u8] + unescaped(b, i + 3)
    } else {
        seq![b[i]] + unescaped(b, i + 1)
    }
}

/// `percent_encoding::percent_decode_str` and its `decode_utf8`: the text with
/// each `%` that two digits follow made the byte that they stand for, if the
/// bytes are UTF-8.
#[verifier::external_body]
fn engine_unescape(s: &str) -> (r: Option<String>)
    ensures
        utf8_text(unescaped(encode_utf8(s@), 0)) == (match r {
            Some(t) => Some(t@),
            None => None,
        }),
{
    percent_encoding::percent_decode_str(s).decode_utf8().ok().map(|t| t.to_string())
}

/// An encoded text with some of its escapes taken back, in order.
pub open spec fn restored(t: Seq<char>, kept: Seq<char>) -> Seq<char>
    decreases kept.len(),
{
    if kept.len() == 0 {
        t
    } else {
        let c = kept.last();
        replaced(restored(t, kept.drop_last()), escape_of(c as u8), seq![c], 0, None)
    }
}

/// The characters that stay as they are in a URL, besides letters and digits.
pub open spec fn url_characters() -> Seq<char> {
    "/:@!$&'()*+,;=?#[]-._~"@
}

/// The characters that stay as they are in a part of a URL, besides letters and
/// digits.
pub open spec fn component_characters() -> Seq<char> {
    "!'()*-._~"@
}

/// A text with all but some characters percent-encoded.
pub open spec fn url_encoded(s: Seq<char>, kept: Seq<char>) -> Seq<char> {
    restored(encoded(encode_utf8(s), Set::empty()), kept)
}

/// What a percent-encoded text stands for.
pub open spec fn url_decoded(s: Seq<char>) -> Option<Seq<char>> {
    utf8_text(unescaped(encode_utf8(s), 0))
}

fn char_of_hex(n: u8) -> (r: char)
    requires
        n < 16,
    ensures
        r == hex_digit(n as int),
{
    if n < 10 {
        (48 + n) as char
    } else {
        (65 + (n - 10)) as char
    }
}

fn make_escape(c: char) -> (r: Vec<char>)
    requires
        c <= '\u{7f}',
    ensures
        r@ == escape_of(c as u8),
{
    let b: u8 = (c as u32) as u8;
    let mut r: Vec<char> = Vec::new();
    r.push('%');
    r.push(char_of_hex(b / 16));
    r.push(char_of_hex(b % 16));
    assert(r@ =~= escape_of(c as u8));
    r
}

fn restore(t: Vec<char>, kept: &[char]) -> (r: Vec<char>)
    requires
        is_ascii_chars(kept@),
    ensures
        r@ == restored(t@, kept@),
{
    let ghost start = t@;
    let mut r = t;
    let mut i: usize = 0;
    assert(kept@.take(0) =~= Seq::empty());
    while i < kept.len()
        invariant
            i <= kept.len(),
            is_ascii_chars(kept@),
            r@ == restored(start, kept@.take(i as int)),
        decreases kept.len() - i,
    {
        assert(kept@.take(i + 1).drop_last() =~= kept@.take(i as int));
        let c: char = kept[i];
        assert(kept@[i as int] <= '\u{7f}');
        let esc = make_escape(c);
        let mut one: Vec<char> = Vec::new();
        one.push(c);
        assert(one@ =~= seq![c]);
        r = replace_text(r.as_slice(), esc.as_slice(), one.as_slice(), None);
        i = i + 1;
    }
    assert(kept@.take(i as int) =~= kept@);
    r
}

/// What `$encodeUrl` gives.
pub open spec fn encode_url(a: Seq<Val>) -> Result<Val, Seq<char>> {
    of_text(a, |s: Seq<char>| Some(url_encoded(s, url_characters())), "T0410"@)
}

/// What `$encodeUrlComponent` gives.
pub open spec fn encode_url_component(a: Seq<Val>) -> Result<Val, Seq<char>> {
    of_text(a, |s: Seq<char>| Some(url_encoded(s, component_characters())), "T0410"@)
}

/// What `$decodeUrl` and `$decodeUrlComponent` give.
pub open spec fn decode_url(a: Seq<Val>) -> Result<Val, Seq<char>> {
    of_text(a, |s: Seq<char>| url_decoded(s), "D3140"@)
}

/// `$encodeUrl(text)`: a text as it may stand in a URL.
pub fn fn_encode_url(args: &[Value], _focus: &Value) -> (r: JsonataResult)
    ensures
        out(r) == encode_url(vals(args@)),
{
    if args.len() == 0 {
        return Ok(Value::Undefined);
    }
    assert(vals(args@)[0] == args@[0]@);
    match &args[0] {
        Value::Undefined => Ok(Value::Undefined),
        Value::String(s) => {
            let kept = chars_of("/:@!$&'()*+,;=?#[]-._~");
            proof {
                lemma_url_characters();
            }
            let t = restore(chars_of(engine_escape(s.as_str()).as_str()), kept.as_slice());
            Ok(Value::String(text_of(t.as_slice())))
        },
        _ => fail("T0410", "$encodeUrl: argument must be a string"),
    }
}

/// `$encodeUrlComponent(text)`: a text as it may stand in a part of a URL.
pub fn fn_encode_url_component(args: &[Value], _focus: &Value) -> (r: JsonataResult)
    ensures
        out(r) == encode_url_component(vals(args@)),
{
    if args.len() == 0 {
        return Ok(Value::Undefined);
    }
    assert(vals(args@)[0] == args@[0]@);
    match &args[0] {
        Value::Undefined => Ok(Value::Undefined),
        Value::String(s) => {
            let kept = chars_of("!'()*-._~");
            proof {
                lemma_url_characters();
            }
            let t = restore(chars_of(engine_escape(s.as_str()).as_str()), kept.as_slice());
            Ok(Value::String(text_of(t.as_slice())))
        },
        _ => fail("T0410", "$encodeUrlComponent: argument must be a string"),
    }
}

/// `$decodeUrl(text)`: what a percent-encoded text stands for.
pub fn fn_decode_url(args: &[Value], _focus: &Value) -> (r: JsonataResult)
    ensures
        out(r) == decode_url(vals(args@)),
{
    if args.len() == 0 {
        return Ok(Value::Undefined);
    }
    assert(vals(args@)[0] == args@[0]@);
    match &args[0] {
        Value::Undefined => Ok(Value::Undefined),
        Value::String(s) => match engine_unescape(s.as_str()) {
            Some(t) => Ok(Value::String(t)),
            None => fail("D3140", "$decodeUrl: the bytes are not UTF-8"),
        },
        _ => fail("T0410", "$decodeUrl: argument must be a string"),
    }
}

/// `$decodeUrlComponent(text)`: what a percent-encoded text stands for.
pub fn fn_decode_url_component(args: &[Value], focus: &Value) -> (r: JsonataResult)
    ensures
        out(r) == decode_url(vals(args@)),
{
    fn_decode_url(args, focus)
}

// ── What decoding undoes ─────────────────────────────────────────────────────

/// Whether a character has an escape that can be taken back: it is ASCII, and
/// neither a letter nor a digit nor the sign of an escape.
pub open spec fn restorable(c: char) -> bool {
    '\0' <= c <= '\u{7f}' && c != '%' && !alphanumeric(c as u8)
}

proof fn lemma_url_characters()
    ensures
        is_ascii_chars(url_characters()),
        is_ascii_chars(component_characters()),
        forall|i: int| 0 <= i < url_characters().len() ==> restorable(#[trigger] url_characters()[i]),
        forall|i: int| 0 <= i < component_characters().len() ==> restorable(#[trigger] component_characters()[i]),
{
    reveal_strlit("/:@!$&'()*+,;=?#[]-._~");
    reveal_strlit("!'()*-._~");
}

/// The codes of characters.
pub open spec fn codes(kept: Seq<char>) -> Set<u8> {
    Set::new(|b: u8| exists|i: int| 0 <= i < kept.len() && (#[trigger] kept[i]) as u8 == b)
}

proof fn lemma_hex(a: int, b: int)
    requires
        0 <= a < 16,
        0 <= b < 16,
        hex_digit(a) == hex_digit(b),
    ensures
        a == b,
{
}

proof fn lemma_replaced_shift(s: Seq<char>, t: Seq<char>, old: Seq<char>, new: Seq<char>, i: int)
    requires
        old.len() > 0,
        0 <= i <= t.len(),
    ensures
        replaced(s + t, old, new, s.len() + i, None) == replaced(t, old, new, i, None),
    decreases t.len() - i,
{
    let all = s + t;
    if i < t.len() {
        assert(all[s.len() + i] == t[i]);
        if i + old.len() <= t.len() {
            assert(all.subrange(s.len() + i, s.len() + i + old.len()) =~= t.subrange(i, i + old.len()));
        }
        assert(occurs_at(all, old, s.len() + i) == occurs_at(t, old, i));
        if occurs_at(t, old, i) {
            lemma_replaced_shift(s, t, old, new, i + old.len());
        } else {
            lemma_replaced_shift(s, t, old, new, i + 1);
        }
    }
}

/// Where an escape does not occur in the first characters of a text, these
/// stay.
proof fn lemma_replaced_skip(s: Seq<char>, t: Seq<char>, old: Seq<char>, new: Seq<char>, i: int)
    requires
        old.len() > 0,
        0 <= i <= s.len(),
        forall|k: int| i <= k < s.len() ==> !occurs_at(s + t, old, k),
    ensures
        replaced(s + t, old, new, i, None) == s.skip(i) + replaced(t, old, new, 0, None),
    decreases s.len() - i,
{
    let all = s + t;
    if i == s.len() {
        lemma_replaced_shift(s, t, old, new, 0);
        assert(s.skip(i) + replaced(t, old, new, 0, None) =~= replaced(t, old, new, 0, None));
    } else {
        lemma_replaced_skip(s, t, old, new, i + 1);
        assert(all[i] == s[i]);
        assert(seq![s[i]] + (s.skip(i + 1) + replaced(t, old, new, 0, None)) =~= s.skip(i) + replaced(
            t,
            old,
            new,
            0,
            None,
        ));
    }
}

proof fn lemma_restore_one(bytes: Seq<u8>, kept: Set<u8>, c: char)
    requires
        restorable(c),
        !kept.contains(0x25),
        forall|b: u8| kept.contains(b) ==> b < 0x80,
    ensures
        replaced(encoded(bytes, kept), escape_of(c as u8), seq![c], 0, None) == encoded(bytes, kept.insert(c as u8)),
    decreases bytes.len(),
{
    let old = escape_of(c as u8);
    let new = seq![c];
    let more = kept.insert(c as u8);
    if bytes.len() > 0 {
        let b = bytes[0];
        let s = encoded_byte(b, kept);
        let t = encoded(bytes.drop_first(), kept);
        let all = s + t;
        lemma_restore_one(bytes.drop_first(), kept, c);
        if alphanumeric(b) || kept.contains(b) {
            assert(all[0] == b as char);
            assert(b as char != '%');
            assert forall|k: int| 0 <= k < s.len() implies !occurs_at(all, old, k) by {
                if occurs_at(all, old, k) {
                    assert(all.subrange(k, k + 3)[0] == '%');
                }
            }
            lemma_replaced_skip(s, t, old, new, 0);
            assert(s.skip(0) =~= s);
        } else if b == c as u8 {
            assert(all.subrange(0, 3) =~= old);
            assert(occurs_at(all, old, 0));
            lemma_replaced_shift(s, t, old, new, 0);
            assert(replaced(all, old, new, 0, None) =~= new + replaced(t, old, new, 0, None));
            assert(b as char == c);
        } else {
            assert forall|k: int| 0 <= k < s.len() implies !occurs_at(all, old, k) by {
                if occurs_at(all, old, k) {
                    let w = all.subrange(k, k + 3);
                    assert(w[0] == '%' && w[0] == all[k]);
                    assert(all[0] == s[0] && all[1] == s[1] && all[2] == s[2]);
                    if k == 0 {
                        assert(w[1] == s[1] && w[2] == s[2]);
                        lemma_hex(b as int / 16, (c as u8) as int / 16);
                        lemma_hex(b as int % 16, (c as u8) as int % 16);
                    }
                }
            }
            lemma_replaced_skip(s, t, old, new, 0);
            assert(s.skip(0) =~= s);
        }
    }
}

proof fn lemma_restored(bytes: Seq<u8>, kept: Seq<char>)
    requires
        forall|i: int| 0 <= i < kept.len() ==> restorable(#[trigger] kept[i]),
    ensures
        restored(encoded(bytes, Set::empty()), kept) == encoded(bytes, codes(kept)),
    decreases kept.len(),
{
    if kept.len() == 0 {
        assert(codes(kept) =~= Set::empty());
    } else {
        let p = kept.drop_last();
        let c = kept.last();
        lemma_restored(bytes, p);
        assert forall|b: u8| codes(p).contains(b) implies b < 0x80 && b != 0x25 by {
            let i = choose|i: int| 0 <= i < p.len() && (#[trigger] p[i]) as u8 == b;
            assert(p[i] == kept[i]);
            assert(restorable(kept[i]));
        }
        lemma_restore_one(bytes, codes(p), c);
        assert forall|b: u8| codes(kept).contains(b) == codes(p).insert(c as u8).contains(b) by {
            if codes(kept).contains(b) {
                let i = choose|i: int| 0 <= i < kept.len() && (#[trigger] kept[i]) as u8 == b;
                if i < p.len() {
                    assert(p[i] == kept[i]);
                }
            }
            if codes(p).contains(b) {
                let i = choose|i: int| 0 <= i < p.len() && (#[trigger] p[i]) as u8 == b;
                assert(kept[i] == p[i]);
            }
            if b == c as u8 {
                assert(kept[kept.len() - 1] as u8 == b);
            }
        }
        assert(codes(kept) =~= codes(p).insert(c as u8));
    }
}

proof fn lemma_encoded_ascii(bytes: Seq<u8>, kept: Set<u8>)
    requires
        forall|b: u8| kept.contains(b) ==> b < 0x80,
    ensures
        is_ascii_chars(encoded(bytes, kept)),
    decreases bytes.len(),
{
    if bytes.len() > 0 {
        lemma_encoded_ascii(bytes.drop_first(), kept);
        let s = encoded_byte(bytes[0], kept);
        let t = encoded(bytes.drop_first(), kept);
        assert forall|i: int| 0 <= i < (s + t).len() implies '\0' <= #[trigger] (s + t)[i] <= '\u{7f}' by {
            if i < s.len() {
                assert((s + t)[i] == s[i]);
            } else {
                assert((s + t)[i] == t[i - s.len()]);
            }
        }
    }
}

/// The bytes of an ASCII text.
spec fn ascii_bytes(s: Seq<char>) -> Seq<u8> {
    s.map_values(|c: char| c as u8)
}

proof fn lemma_unescaped_shift(p: Seq<u8>, b: Seq<u8>, i: int)
    requires
        0 <= i <= b.len(),
    ensures
        unescaped(p + b, p.len() + i) == unescaped(b, i),
    decreases b.len() - i,
{
    let all = p + b;
    if i < b.len() {
        assert(all[p.len() + i] == b[i]);
        if i + 2 < b.len() {
            assert(all[p.len() + i + 1] == b[i + 1]);
            assert(all[p.len() + i + 2] == b[i + 2]);
            if b[i] == 0x25 && hex_value(b[i + 1]) is Some && hex_value(b[i + 2]) is Some {
                lemma_unescaped_shift(p, b, i + 3);
            } else {
                lemma_unescaped_shift(p, b, i + 1);
            }
        } else {
            lemma_unescaped_shift(p, b, i + 1);
        }
    }
}

proof fn lemma_unescaped(bytes: Seq<u8>, kept: Set<u8>)
    requires
        !kept.contains(0x25),
        forall|b: u8| kept.contains(b) ==> b < 0x80,
    ensures
        unescaped(ascii_bytes(encoded(bytes, kept)), 0) == bytes,
    decreases bytes.len(),
{
    if bytes.len() > 0 {
        let b = bytes[0];
        let s = encoded_byte(b, kept);
        let t = encoded(bytes.drop_first(), kept);
        lemma_unescaped(bytes.drop_first(), kept);
        let ps = ascii_bytes(s);
        let pt = ascii_bytes(t);
        let all = ps + pt;
        assert(ascii_bytes(s + t) =~= all);
        lemma_unescaped_shift(ps, pt, 0);
        if alphanumeric(b) || kept.contains(b) {
            assert(all[0] == (b as char) as u8);
            assert((b as char) as u8 == b);
            assert(unescaped(all, 0) == seq![b] + unescaped(all, 1));
        } else {
            assert(all[0] == 0x25);
            assert(all[1] == hex_digit(b as int / 16) as u8);
            assert(all[2] == hex_digit(b as int % 16) as u8);
            assert(hex_value(all[1]) == Some(b as int / 16));
            assert(hex_value(all[2]) == Some(b as int % 16));
            assert(unescaped(all, 0) == seq![b] + unescaped(all, 3));
        }
        assert(seq![b] + bytes.drop_first() =~= bytes);
    }
}

proof fn lemma_decoded(s: Seq<char>, kept: Seq<char>)
    requires
        forall|i: int| 0 <= i < kept.len() ==> restorable(#[trigger] kept[i]),
    ensures
        url_decoded(url_encoded(s, kept)) == Some(s),
{
    let bytes = encode_utf8(s);
    let set = codes(kept);
    lemma_restored(bytes, kept);
    assert forall|b: u8| set.contains(b) implies b < 0x80 && b != 0x25 by {
        let i = choose|i: int| 0 <= i < kept.len() && (#[trigger] kept[i]) as u8 == b;
        assert(restorable(kept[i]));
    }
    let t = encoded(bytes, set);
    lemma_encoded_ascii(bytes, set);
    is_ascii_chars_encode_utf8(t);
    assert(encode_utf8(t) =~= ascii_bytes(t));
    lemma_unescaped(bytes, set);
    encode_utf8_valid_utf8(s);
    encode_utf8_decode_utf8(s);
}

/// Decoding a text that was encoded for a URL gives it back.
pub proof fn law_url_round_trip(s: Seq<char>)
    ensures
        encode_url(seq![Val::String(s)]) == Ok::<Val, Seq<char>>(Val::String(url_encoded(s, url_characters()))),
        decode_url(seq![Val::String(url_encoded(s, url_characters()))]) == Ok::<Val, Seq<char>>(Val::String(s)),
{
    lemma_url_characters();
    lemma_decoded(s, url_characters());
}

/// Decoding a text that was encoded for a part of a URL gives it back.
pub proof fn law_url_component_round_trip(s: Seq<char>)
    ensures
        encode_url_component(seq![Val::String(s)]) == Ok::<Val, Seq<char>>(
            Val::String(url_encoded(s, component_characters())),
        ),
        decode_url(seq![Val::String(url_encoded(s, component_characters()))]) == Ok::<Val, Seq<char>>(Val::String(s)),
{
    lemma_url_characters();
    lemma_decoded(s, component_characters());
}

} // verus!
