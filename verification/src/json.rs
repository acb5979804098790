//! Minimal JSON value type with a recursive-descent parser and a compact serializer.
//!
//! Object keys preserve insertion order, which keeps serialized output deterministic. A number keeps the text it was
//! read from; the parser accepts the text exactly when it is a decimal floating-point literal.
//!
//! The specification reads the input as bytes: [`parse_spec`] says which value (or which error) a text gives, and
//! [`json_text`] what the serializer writes for a value.

use vstd::prelude::*;
use vstd::string::StringSliceAdditionalSpecFns;
use vstd::utf8::{decode_utf8, is_scalar, valid_utf8};

use crate::text::{decimal_text, push_decimal};

verus! {

/// A JSON value.
#[derive(Debug, PartialEq)]
pub enum Json {
    Null,
    Bool(bool),
    /// A number, as the text of its literal.
    Number(String),
    String(String),
    Array(Vec<Json>),
    /// Object as an ordered list of key/value pairs (insertion order preserved).
    Object(Vec<(String, Json)>),
}

/// What a JSON value holds, in the specification.
pub enum JsonValue {
    Null,
    Bool(bool),
    Number(Seq<char>),
    Str(Seq<char>),
    Array(Seq<JsonValue>),
    Object(Seq<(Seq<char>, JsonValue)>),
}

/// The contents of a JSON value.
pub open spec fn json_view(j: Json) -> JsonValue
    decreases j, 0int,
{
    match j {
        Json::Null => JsonValue::Null,
        Json::Bool(b) => JsonValue::Bool(b),
        Json::Number(t) => JsonValue::Number(t@),
        Json::String(s) => JsonValue::Str(s@),
        Json::Array(v) => JsonValue::Array(items_view(v@, v@.len() as int)),
        Json::Object(v) => JsonValue::Object(pairs_view(v@, v@.len() as int)),
    }
}

/// The contents of the first `k` values of `s`.
pub open spec fn items_view(s: Seq<Json>, k: int) -> Seq<JsonValue>
    decreases s, k,
{
    if k <= 0 || k > s.len() {
        Seq::empty()
    } else {
        items_view(s, k - 1).push(json_view(s[k - 1]))
    }
}

/// The contents of the first `k` members of `s`.
pub open spec fn pairs_view(s: Seq<(String, Json)>, k: int) -> Seq<(Seq<char>, JsonValue)>
    decreases s, k,
{
    if k <= 0 || k > s.len() {
        Seq::empty()
    } else {
        pairs_view(s, k - 1).push((s[k - 1].0@, json_view(s[k - 1].1)))
    }
}

impl View for Json {
    type V = JsonValue;

    open spec fn view(&self) -> JsonValue {
        json_view(*self)
    }
}

// ----------------------------------------------------------------------------------------------------------------------
// Numbers.

/// A decimal digit.
pub open spec fn is_digit(c: char) -> bool {
    '0' <= c <= '9'
}

/// The end of the run of digits of `t` that starts at `i`.
pub open spec fn digits_end(t: Seq<char>, i: int) -> int
    decreases t.len() - i,
{
    if 0 <= i < t.len() && is_digit(t[i]) {
        digits_end(t, i + 1)
    } else {
        i
    }
}

/// The text is a decimal floating-point literal in the grammar that std's `f64` parsing documents:
/// `Sign? ( Digit+ | Digit+ '.' Digit* | Digit* '.' Digit+ ) ( [eE] Sign? Digit+ )?`.
pub open spec fn float_syntax(t: Seq<char>) -> bool {
    let i0: int = if 0 < t.len() && (t[0] == '+' || t[0] == '-') {
        1
    } else {
        0
    };
    let a = digits_end(t, i0);
    let dot = a < t.len() && t[a] == '.';
    let m = if dot {
        digits_end(t, a + 1)
    } else {
        a
    };
    let mantissa = a > i0 || (dot && m > a + 1);
    if m == t.len() {
        mantissa
    } else if t[m] == 'e' || t[m] == 'E' {
        let s = if m + 1 < t.len() && (t[m + 1] == '+' || t[m + 1] == '-') {
            m + 2
        } else {
            m + 1
        };
        mantissa && digits_end(t, s) > s && digits_end(t, s) == t.len()
    } else {
        false
    }
}

/// A byte that a number literal may continue with.
pub open spec fn is_number_byte(x: u8) -> bool {
    (0x30 <= x <= 0x39) || x == 0x2e || x == 0x65 || x == 0x45 || x == 0x2b || x == 0x2d
}

/// The end of the run of number bytes of `b` that starts at `i`.
pub open spec fn number_end(b: Seq<u8>, i: int) -> int
    decreases b.len() - i,
{
    if 0 <= i < b.len() && is_number_byte(b[i]) {
        number_end(b, i + 1)
    } else {
        i
    }
}

/// The characters of ASCII bytes.
pub open spec fn ascii_chars(b: Seq<u8>) -> Seq<char> {
    b.map_values(|x: u8| x as char)
}

// ----------------------------------------------------------------------------------------------------------------------
// The grammar, over the bytes of the text.

/// JSON whitespace.
pub open spec fn is_ws(x: u8) -> bool {
    x == 0x20 || x == 0x09 || x == 0x0a || x == 0x0d
}

/// The position after the whitespace of `b` that starts at `pos`.
pub open spec fn ws_end(b: Seq<u8>, pos: int) -> int
    decreases b.len() - pos,
{
    if 0 <= pos < b.len() && is_ws(b[pos]) {
        ws_end(b, pos + 1)
    } else {
        pos
    }
}

pub proof fn lemma_ws_end(b: Seq<u8>, pos: int)
    requires
        0 <= pos <= b.len(),
    ensures
        pos <= ws_end(b, pos) <= b.len(),
        ws_end(b, pos) < b.len() ==> !is_ws(b[ws_end(b, pos)]),
    decreases b.len() - pos,
{
    if pos < b.len() && is_ws(b[pos]) {
        lemma_ws_end(b, pos + 1);
    }
}

/// `prefix` followed by the decimal position.
pub open spec fn at_byte(prefix: Seq<char>, pos: int) -> Seq<char> {
    prefix + decimal_text(pos as nat)
}

/// The value of a hexadecimal digit, if the byte is one.
pub open spec fn hex_value(x: u8) -> Option<u32> {
    if 0x30 <= x <= 0x39 {
        Some((x - 0x30) as u32)
    } else if 0x61 <= x <= 0x66 {
        Some((x - 0x61 + 10) as u32)
    } else if 0x41 <= x <= 0x46 {
        Some((x - 0x41 + 10) as u32)
    } else {
        None
    }
}

/// The code of the four hex digits of a `\u` escape at `pos`, read from digit `i` on with `code` so far.
pub open spec fn hex_spec(b: Seq<u8>, pos: int, i: int, code: u32) -> Result<u32, Seq<char>>
    decreases 4 - i,
{
    if i >= 4 {
        Ok(code)
    } else if pos + i < 0 || pos + i >= b.len() {
        Err("truncated \\u escape"@)
    } else {
        match hex_value(b[pos + i]) {
            None => Err(at_byte("invalid hex digit in \\u escape at byte "@, pos + i + 1)),
            Some(d) => hex_spec(b, pos, i + 1, (code * 16 + d) as u32),
        }
    }
}

/// The character of the `\u` escape whose digits start at `pos`.
pub open spec fn unicode_spec(b: Seq<u8>, pos: int) -> Result<char, Seq<char>> {
    match hex_spec(b, pos, 0, 0) {
        Err(m) => Err(m),
        Ok(code) => if is_scalar(code) {
            Ok(code as char)
        } else {
            Err("invalid unicode code point"@)
        },
    }
}

/// The character that a one-letter escape stands for.
pub open spec fn escaped(x: u8) -> Option<char> {
    if x == 0x22 {
        Some('"')
    } else if x == 0x5c {
        Some('\\')
    } else if x == 0x2f {
        Some('/')
    } else if x == 0x6e {
        Some('\n')
    } else if x == 0x72 {
        Some('\r')
    } else if x == 0x74 {
        Some('\t')
    } else if x == 0x62 {
        Some('\u{08}')
    } else if x == 0x66 {
        Some('\u{0c}')
    } else {
        None
    }
}

/// The number of continuation bytes that a byte of at least `0x80` announces.
pub open spec fn extra_bytes(x: u8) -> int {
    if x >= 0xf0 {
        3
    } else if x >= 0xe0 {
        2
    } else {
        1
    }
}

/// The rest of a string literal from `pos` (after the opening quote), with `acc` read so far: the characters and the
/// position after the closing quote.
pub open spec fn str_chars_spec(b: Seq<u8>, pos: int, acc: Seq<char>) -> Result<(Seq<char>, int), Seq<char>>
    decreases b.len() - pos,
{
    if pos < 0 || pos >= b.len() {
        Err("unterminated string"@)
    } else {
        let c = b[pos];
        if c == 0x22 {
            Ok((acc, pos + 1))
        } else if c == 0x5c {
            if pos + 1 >= b.len() {
                Err(at_byte("invalid escape at byte "@, pos + 1))
            } else if b[pos + 1] == 0x75 {
                match unicode_spec(b, pos + 2) {
                    Err(m) => Err(m),
                    Ok(ch) => if pos + 6 <= b.len() {
                        str_chars_spec(b, pos + 6, acc.push(ch))
                    } else {
                        Err("truncated \\u escape"@)
                    },
                }
            } else {
                match escaped(b[pos + 1]) {
                    None => Err(at_byte("invalid escape at byte "@, pos + 2)),
                    Some(ch) => str_chars_spec(b, pos + 2, acc.push(ch)),
                }
            }
        } else if c < 0x80 {
            str_chars_spec(b, pos + 1, acc.push(c as char))
        } else {
            let n = 1 + extra_bytes(c);
            if pos + n > b.len() {
                Err("truncated UTF-8 sequence"@)
            } else if valid_utf8(b.subrange(pos, pos + n)) {
                str_chars_spec(b, pos + n, acc + decode_utf8(b.subrange(pos, pos + n)))
            } else {
                Err("invalid UTF-8 in string"@)
            }
        }
    }
}

/// A string literal at `pos`: its characters and the position after it.
pub open spec fn string_spec(b: Seq<u8>, pos: int) -> Result<(Seq<char>, int), Seq<char>> {
    if 0 <= pos < b.len() && b[pos] == 0x22 {
        str_chars_spec(b, pos + 1, Seq::empty())
    } else {
        Err(at_byte("expected '\"' at byte "@, pos))
    }
}

/// The bytes of `word` stand at `pos`.
pub open spec fn word_at(b: Seq<u8>, pos: int, word: Seq<char>) -> bool {
    0 <= pos && pos + word.len() <= b.len() && forall|i: int| 0 <= i < word.len() ==> b[pos + i] as char == word[i]
}

/// A number literal at `pos`.
pub open spec fn number_spec(b: Seq<u8>, pos: int) -> Result<(JsonValue, int), Seq<char>> {
    let start = if 0 <= pos < b.len() && b[pos] == 0x2d {
        pos + 1
    } else {
        pos
    };
    let end = number_end(b, start);
    let text = ascii_chars(b.subrange(pos, end));
    if float_syntax(text) {
        Ok((JsonValue::Number(text), end))
    } else {
        Err("invalid number '"@ + text + "'"@)
    }
}

/// A value at `pos` (after optional whitespace): the value and the position after it.
pub open spec fn value_spec(b: Seq<u8>, pos: int) -> Result<(JsonValue, int), Seq<char>>
    decreases b.len() - pos, 2int,
{
    let p = ws_end(b, pos);
    if p < 0 || p >= b.len() {
        Err("unexpected end of input"@)
    } else if p < pos {
        Err("unexpected end of input"@)
    } else {
        let c = b[p];
        if c == 0x7b {
            object_spec(b, p)
        } else if c == 0x5b {
            array_spec(b, p)
        } else if c == 0x22 {
            match string_spec(b, p) {
                Err(m) => Err(m),
                Ok((s, e)) => Ok((JsonValue::Str(s), e)),
            }
        } else if c == 0x74 || c == 0x66 {
            if word_at(b, p, "true"@) {
                Ok((JsonValue::Bool(true), p + 4))
            } else if word_at(b, p, "false"@) {
                Ok((JsonValue::Bool(false), p + 5))
            } else {
                Err(at_byte("invalid literal at byte "@, p))
            }
        } else if c == 0x6e {
            if word_at(b, p, "null"@) {
                Ok((JsonValue::Null, p + 4))
            } else {
                Err(at_byte("invalid literal at byte "@, p))
            }
        } else if c == 0x2d || (0x30 <= c <= 0x39) {
            number_spec(b, p)
        } else {
            Err(at_byte("unexpected character '"@ + seq![c as char] + "' at byte "@, p))
        }
    }
}

/// An object at `p` (where `{` stands).
pub open spec fn object_spec(b: Seq<u8>, p: int) -> Result<(JsonValue, int), Seq<char>>
    decreases b.len() - p, 1int,
{
    let q = ws_end(b, p + 1);
    if 0 <= q < b.len() && b[q] == 0x7d {
        Ok((JsonValue::Object(Seq::empty()), q + 1))
    } else if p < q <= b.len() {
        members_spec(b, q, Seq::empty())
    } else {
        Err("unexpected end of input"@)
    }
}

/// The members of an object from `pos` on, with `acc` read so far.
pub open spec fn members_spec(b: Seq<u8>, pos: int, acc: Seq<(Seq<char>, JsonValue)>) -> Result<
    (JsonValue, int),
    Seq<char>,
>
    decreases b.len() - pos, 3int,
{
    let k = ws_end(b, pos);
    match string_spec(b, k) {
        Err(m) => Err(m),
        Ok((key, k2)) => {
            let k3 = ws_end(b, k2);
            if !(0 <= k3 < b.len() && b[k3] == 0x3a) {
                Err(at_byte("expected ':' at byte "@, k3))
            } else if k3 < pos {
                Err("unexpected end of input"@)
            } else {
                match value_spec(b, k3 + 1) {
                    Err(m) => Err(m),
                    Ok((v, k4)) => {
                        let k5 = ws_end(b, k4);
                        let acc2 = acc.push((key, v));
                        if k5 < 0 || k5 >= b.len() {
                            Err(at_byte("expected ',' or '}' at byte "@, k5))
                        } else if b[k5] == 0x2c {
                            if pos <= k5 {
                                members_spec(b, k5 + 1, acc2)
                            } else {
                                Err("unexpected end of input"@)
                            }
                        } else if b[k5] == 0x7d {
                            Ok((JsonValue::Object(acc2), k5 + 1))
                        } else {
                            Err(at_byte("expected ',' or '}' at byte "@, k5 + 1))
                        }
                    },
                }
            }
        },
    }
}

/// An array at `p` (where `[` stands).
pub open spec fn array_spec(b: Seq<u8>, p: int) -> Result<(JsonValue, int), Seq<char>>
    decreases b.len() - p, 1int,
{
    let q = ws_end(b, p + 1);
    if 0 <= q < b.len() && b[q] == 0x5d {
        Ok((JsonValue::Array(Seq::empty()), q + 1))
    } else if p < q <= b.len() {
        elements_spec(b, q, Seq::empty())
    } else {
        Err("unexpected end of input"@)
    }
}

/// The elements of an array from `pos` on, with `acc` read so far.
pub open spec fn elements_spec(b: Seq<u8>, pos: int, acc: Seq<JsonValue>) -> Result<(JsonValue, int), Seq<char>>
    decreases b.len() - pos, 3int,
{
    match value_spec(b, pos) {
        Err(m) => Err(m),
        Ok((v, k)) => {
            let k2 = ws_end(b, k);
            let acc2 = acc.push(v);
            if k2 < 0 || k2 >= b.len() {
                Err(at_byte("expected ',' or ']' at byte "@, k2))
            } else if b[k2] == 0x2c {
                if pos <= k2 {
                    elements_spec(b, k2 + 1, acc2)
                } else {
                    Err("unexpected end of input"@)
                }
            } else if b[k2] == 0x5d {
                Ok((JsonValue::Array(acc2), k2 + 1))
            } else {
                Err(at_byte("expected ',' or ']' at byte "@, k2 + 1))
            }
        },
    }
}

/// What parsing a whole document gives: its value, or the error message.
pub open spec fn parse_spec(b: Seq<u8>) -> Result<JsonValue, Seq<char>> {
    match value_spec(b, ws_end(b, 0)) {
        Err(m) => Err(m),
        Ok((v, e)) => if ws_end(b, e) < b.len() {
            Err(at_byte("trailing characters at byte "@, ws_end(b, e)))
        } else {
            Ok(v)
        },
    }
}

// ----------------------------------------------------------------------------------------------------------------------
// Outside calls of the parser.

/// `std::char::from_u32`: the character of a Unicode scalar value, `None` for any other number.
pub assume_specification[ std::char::from_u32 ](i: u32) -> (r: Option<char>)
    ensures
        r == (if is_scalar(i) {
            Some(i as char)
        } else {
            None
        }),
;

/// `std::str::from_utf8` on a few bytes: their text when they are valid UTF-8 (as vstd's `valid_utf8` defines it),
/// `None` otherwise.
#[verifier::external_body]
fn utf8_text(buf: &[u8]) -> (r: Option<String>)
    ensures
        r is Some <==> valid_utf8(buf@),
        r matches Some(s) ==> s@ == decode_utf8(buf@),
{
    match std::str::from_utf8(buf) {
        Ok(s) => Some(s.to_string()),
        Err(_) => None,
    }
}

// ----------------------------------------------------------------------------------------------------------------------
// The parser.

/// The executable result `r` stands for the outcome `s` of the grammar.
pub open spec fn value_matches(r: Result<(Json, usize), String>, s: Result<(JsonValue, int), Seq<char>>) -> bool {
    match s {
        Ok((v, e)) => r matches Ok((j, q)) && j@ == v && q == e,
        Err(m) => r matches Err(x) && x@ == m,
    }
}

fn skip_ws(b: &[u8], pos: usize) -> (r: usize)
    requires
        pos <= b.len(),
    ensures
        r == ws_end(b@, pos as int),
        pos <= r <= b.len(),
{
    proof {
        lemma_ws_end(b@, pos as int);
    }
    let mut p = pos;
    while p < b.len() && (b[p] == 0x20 || b[p] == 0x09 || b[p] == 0x0a || b[p] == 0x0d)
        invariant
            pos <= p <= b.len(),
            ws_end(b@, pos as int) == ws_end(b@, p as int),
        decreases b.len() - p,
    {
        p += 1;
    }
    p
}

/// `prefix` followed by the decimal `pos`.
fn at_byte_message(prefix: &str, pos: usize) -> (r: String)
    ensures
        r@ == at_byte(prefix@, pos as int),
{
    let mut m = prefix.to_owned();
    push_decimal(&mut m, pos);
    m
}

fn hex_digit(x: u8) -> (r: Option<u32>)
    ensures
        r == hex_value(x),
{
    if 0x30 <= x && x <= 0x39 {
        Some((x - 0x30) as u32)
    } else if 0x61 <= x && x <= 0x66 {
        Some((x - 0x61 + 10) as u32)
    } else if 0x41 <= x && x <= 0x46 {
        Some((x - 0x41 + 10) as u32)
    } else {
        None
    }
}

/// The character of the `\u` escape whose four hex digits start at `pos`.
fn parse_unicode_escape(b: &[u8], pos: usize) -> (r: Result<char, String>)
    requires
        pos <= b.len(),
    ensures
        match unicode_spec(b@, pos as int) {
            Ok(c) => r == Ok::<char, String>(c) && pos + 4 <= b.len(),
            Err(m) => r matches Err(e) && e@ == m,
        },
{
    let mut code: u32 = 0;
    let mut i: usize = 0;
    while i < 4
        invariant
            i <= 4,
            pos <= b.len(),
            pos + i <= b.len(),
            code < 0x10000,
            code < pow16(i as nat),
            hex_spec(b@, pos as int, 0, 0) == hex_spec(b@, pos as int, i as int, code),
        decreases 4 - i,
    {
        if pos + i >= b.len() {
            proof {
                reveal_strlit("truncated \\u escape");
            }
            return Err(String::from_str("truncated \\u escape"));
        }
        match hex_digit(b[pos + i]) {
            None => {
                return Err(at_byte_message("invalid hex digit in \\u escape at byte ", pos + i + 1));
            },
            Some(d) => {
                proof {
                    assert(d < 16);
                    assert(code * 16 + d < pow16((i + 1) as nat)) by (nonlinear_arith)
                        requires
                            code < pow16(i as nat),
                            d < 16,
                            pow16((i + 1) as nat) == pow16(i as nat) * 16,
                    ;
                    lemma_pow16_bound((i + 1) as nat);
                }
                code = code * 16 + d;
            },
        }
        i += 1;
    }
    match std::char::from_u32(code) {
        Some(c) => Ok(c),
        None => {
            proof {
                reveal_strlit("invalid unicode code point");
            }
            Err(String::from_str("invalid unicode code point"))
        },
    }
}

/// Sixteen to the power `n`.
pub open spec fn pow16(n: nat) -> nat
    decreases n,
{
    if n == 0 {
        1
    } else {
        pow16((n - 1) as nat) * 16
    }
}

proof fn lemma_pow16_bound(n: nat)
    requires
        n <= 4,
    ensures
        pow16(n) <= 0x10000,
{
    reveal_with_fuel(pow16, 5);
}

/// The bytes `b[from..to]`.
fn bytes_of(b: &[u8], from: usize, to: usize) -> (r: Vec<u8>)
    requires
        from <= to <= b.len(),
    ensures
        r@ == b@.subrange(from as int, to as int),
{
    let mut r: Vec<u8> = Vec::new();
    let mut k = from;
    while k < to
        invariant
            from <= k <= to <= b.len(),
            r@ == b@.subrange(from as int, k as int),
        decreases to - k,
    {
        r.push(b[k]);
        proof {
            assert(b@.subrange(from as int, k + 1) =~= b@.subrange(from as int, k as int).push(b@[k as int]));
        }
        k += 1;
    }
    r
}

fn append_string(a: &mut String, s: &String)
    ensures
        final(a)@ == old(a)@ + s@,
{
    a.append(s.as_str());
}

/// A string literal at `pos`: its text and the position after it.
fn parse_string(b: &[u8], pos: usize) -> (r: Result<(String, usize), String>)
    requires
        pos <= b.len(),
    ensures
        match string_spec(b@, pos as int) {
            Ok((t, e)) => r matches Ok((x, q)) && x@ == t && q == e && pos < q <= b.len(),
            Err(m) => r matches Err(x) && x@ == m,
        },
{
    if !(pos < b.len() && b[pos] == 0x22) {
        return Err(at_byte_message("expected '\"' at byte ", pos));
    }
    let mut out = String::new();
    let mut p = pos + 1;
    proof {
        assert(out@ =~= Seq::<char>::empty());
    }
    loop
        invariant
            pos < p <= b.len(),
            b[pos as int] == 0x22,
            string_spec(b@, pos as int) == str_chars_spec(b@, p as int, out@),
        decreases b.len() - p,
    {
        if p >= b.len() {
            proof {
                reveal_strlit("unterminated string");
            }
            return Err(String::from_str("unterminated string"));
        }
        let c = b[p];
        if c == 0x22 {
            return Ok((out, p + 1));
        } else if c == 0x5c {
            if p + 1 >= b.len() {
                return Err(at_byte_message("invalid escape at byte ", p + 1));
            }
            let e = b[p + 1];
            if e == 0x75 {
                match parse_unicode_escape(b, p + 2) {
                    Err(m) => {
                        return Err(m);
                    },
                    Ok(ch) => {
                        out.push(ch);
                        p = p + 6;
                    },
                }
            } else {
                let ch: char = if e == 0x22 {
                    '"'
                } else if e == 0x5c {
                    '\\'
                } else if e == 0x2f {
                    '/'
                } else if e == 0x6e {
                    '\n'
                } else if e == 0x72 {
                    '\r'
                } else if e == 0x74 {
                    '\t'
                } else if e == 0x62 {
                    '\u{08}'
                } else if e == 0x66 {
                    '\u{0c}'
                } else {
                    return Err(at_byte_message("invalid escape at byte ", p + 2));
                };
                out.push(ch);
                p = p + 2;
            }
        } else if c < 0x80 {
            out.push(c as char);
            p = p + 1;
        } else {
            let n: usize = if c >= 0xf0 {
                4
            } else if c >= 0xe0 {
                3
            } else {
                2
            };
            if n > b.len() - p {
                proof {
                    reveal_strlit("truncated UTF-8 sequence");
                }
                return Err(String::from_str("truncated UTF-8 sequence"));
            }
            let buf = bytes_of(b, p, p + n);
            match utf8_text(buf.as_slice()) {
                None => {
                    proof {
                        reveal_strlit("invalid UTF-8 in string");
                    }
                    return Err(String::from_str("invalid UTF-8 in string"));
                },
                Some(t) => {
                    append_string(&mut out, &t);
                    p = p + n;
                },
            }
        }
    }
}

/// A decimal digit byte.
fn digit_byte(x: u8) -> (r: bool)
    ensures
        r == (0x30 <= x <= 0x39),
{
    0x30 <= x && x <= 0x39
}

/// The end of the run of digits of `t` from `i`.
fn skip_digits(t: &Vec<char>, i: usize) -> (r: usize)
    requires
        i <= t.len(),
    ensures
        r == digits_end(t@, i as int),
        i <= r <= t.len(),
{
    let mut k = i;
    while k < t.len() && '0' <= t[k] && t[k] <= '9'
        invariant
            i <= k <= t.len(),
            digits_end(t@, i as int) == digits_end(t@, k as int),
        decreases t.len() - k,
    {
        k += 1;
    }
    k
}

/// The text is a decimal floating-point literal (see [`float_syntax`]).
pub fn is_float_literal(t: &Vec<char>) -> (r: bool)
    ensures
        r == float_syntax(t@),
{
    let i0: usize = if 0 < t.len() && (t[0] == '+' || t[0] == '-') {
        1
    } else {
        0
    };
    let a = skip_digits(t, i0);
    let dot = a < t.len() && t[a] == '.';
    let m = if dot {
        skip_digits(t, a + 1)
    } else {
        a
    };
    let mantissa = a > i0 || (dot && m > a + 1);
    if m == t.len() {
        mantissa
    } else if t[m] == 'e' || t[m] == 'E' {
        let s = if m + 1 < t.len() && (t[m + 1] == '+' || t[m + 1] == '-') {
            m + 2
        } else {
            m + 1
        };
        let d = skip_digits(t, s);
        mantissa && d > s && d == t.len()
    } else {
        false
    }
}

/// A number literal at `pos`.
fn parse_number(b: &[u8], pos: usize) -> (r: Result<(Json, usize), String>)
    requires
        pos < b.len(),
        b[pos as int] == 0x2d || (0x30 <= b[pos as int] <= 0x39),
    ensures
        value_matches(r, number_spec(b@, pos as int)),
        r matches Ok((j, q)) ==> pos < q <= b.len(),
{
    let start = if b[pos] == 0x2d {
        pos + 1
    } else {
        pos
    };
    let mut end = start;
    while end < b.len() && (digit_byte(b[end]) || b[end] == 0x2e || b[end] == 0x65 || b[end] == 0x45 || b[end]
        == 0x2b || b[end] == 0x2d)
        invariant
            start <= end <= b.len(),
            number_end(b@, start as int) == number_end(b@, end as int),
        decreases b.len() - end,
    {
        end += 1;
    }
    let mut chars: Vec<char> = Vec::new();
    let mut text = String::new();
    let mut k = pos;
    while k < end
        invariant
            pos <= k <= end <= b.len(),
            chars@ == ascii_chars(b@.subrange(pos as int, k as int)),
            text@ == chars@,
        decreases end - k,
    {
        let c = b[k] as char;
        chars.push(c);
        text.push(c);
        proof {
            assert(ascii_chars(b@.subrange(pos as int, k + 1)) =~= ascii_chars(b@.subrange(pos as int, k as int)).push(
                b@[k as int] as char,
            ));
        }
        k += 1;
    }
    if is_float_literal(&chars) {
        proof {
            if start == pos {
                assert(0x30 <= b[pos as int] <= 0x39);
                assert(number_end(b@, pos as int) > pos);
            }
        }
        Ok((Json::Number(text), end))
    } else {
        let mut m = String::from_str("invalid number '");
        append_string(&mut m, &text);
        m.append("'");
        proof {
            reveal_strlit("invalid number '");
            reveal_strlit("'");
        }
        Err(m)
    }
}

/// The bytes of `word` stand at `pos`.
fn word_is_at(b: &[u8], pos: usize, word: &str) -> (r: bool)
    requires
        pos <= b.len(),
    ensures
        r == word_at(b@, pos as int, word@),
{
    let w = crate::text::chars_of(word);
    if w.len() > b.len() - pos {
        return false;
    }
    let mut i: usize = 0;
    while i < w.len()
        invariant
            i <= w.len(),
            pos + w.len() <= b.len(),
            w@ == word@,
            forall|j: int| 0 <= j < i ==> b@[pos + j] as char == w@[j],
        decreases w.len() - i,
    {
        if b[pos + i] as char != w[i] {
            return false;
        }
        i += 1;
    }
    true
}

proof fn lemma_items_push(s: Seq<Json>, x: Json, k: int)
    requires
        0 <= k <= s.len(),
    ensures
        items_view(s.push(x), k) == items_view(s, k),
    decreases k,
{
    if k > 0 {
        lemma_items_push(s, x, k - 1);
        assert(s.push(x)[k - 1] == s[k - 1]);
    }
}

proof fn lemma_pairs_push(s: Seq<(String, Json)>, x: (String, Json), k: int)
    requires
        0 <= k <= s.len(),
    ensures
        pairs_view(s.push(x), k) == pairs_view(s, k),
    decreases k,
{
    if k > 0 {
        lemma_pairs_push(s, x, k - 1);
        assert(s.push(x)[k - 1] == s[k - 1]);
    }
}

/// A value at `pos` (after optional whitespace).
fn parse_value(b: &[u8], pos: usize) -> (r: Result<(Json, usize), String>)
    requires
        pos <= b.len(),
    ensures
        value_matches(r, value_spec(b@, pos as int)),
        r matches Ok((j, q)) ==> pos < q <= b.len(),
    decreases b.len() - pos, 2int,
{
    let p = skip_ws(b, pos);
    if p >= b.len() {
        proof {
            reveal_strlit("unexpected end of input");
        }
        return Err(String::from_str("unexpected end of input"));
    }
    let c = b[p];
    if c == 0x7b {
        parse_object(b, p)
    } else if c == 0x5b {
        parse_array(b, p)
    } else if c == 0x22 {
        match parse_string(b, p) {
            Err(m) => Err(m),
            Ok((s, e)) => Ok((Json::String(s), e)),
        }
    } else if c == 0x74 || c == 0x66 {
        if word_is_at(b, p, "true") {
            proof {
                reveal_strlit("true");
            }
            Ok((Json::Bool(true), p + 4))
        } else if word_is_at(b, p, "false") {
            proof {
                reveal_strlit("true");
                reveal_strlit("false");
            }
            Ok((Json::Bool(false), p + 5))
        } else {
            Err(at_byte_message("invalid literal at byte ", p))
        }
    } else if c == 0x6e {
        if word_is_at(b, p, "null") {
            proof {
                reveal_strlit("null");
            }
            Ok((Json::Null, p + 4))
        } else {
            Err(at_byte_message("invalid literal at byte ", p))
        }
    } else if c == 0x2d || (0x30 <= c && c <= 0x39) {
        parse_number(b, p)
    } else {
        let mut m = String::from_str("unexpected character '");
        m.push(c as char);
        m.append("' at byte ");
        push_decimal(&mut m, p);
        proof {
            reveal_strlit("unexpected character '");
            reveal_strlit("' at byte ");
            assert(m@ =~= at_byte("unexpected character '"@ + seq![c as char] + "' at byte "@, p as int));
        }
        Err(m)
    }
}

/// An object at `p` (where `{` stands).
fn parse_object(b: &[u8], p: usize) -> (r: Result<(Json, usize), String>)
    requires
        p < b.len(),
        b[p as int] == 0x7b,
    ensures
        value_matches(r, object_spec(b@, p as int)),
        r matches Ok((j, q)) ==> p < q <= b.len(),
    decreases b.len() - p, 1int,
{
    let q = skip_ws(b, p + 1);
    let mut pairs: Vec<(String, Json)> = Vec::new();
    if q < b.len() && b[q] == 0x7d {
        let j = Json::Object(pairs);
        proof {
            assert(j@ == JsonValue::Object(Seq::empty()));
        }
        return Ok((j, q + 1));
    }
    let mut pos = q;
    loop
        invariant
            p < pos <= b.len(),
            object_spec(b@, p as int) == members_spec(b@, pos as int, pairs_view(pairs@, pairs@.len() as int)),
        decreases b.len() - pos,
    {
        let ghost acc = pairs_view(pairs@, pairs@.len() as int);
        let k = skip_ws(b, pos);
        let (key, k2) = match parse_string(b, k) {
            Err(m) => {
                return Err(m);
            },
            Ok(pair) => pair,
        };
        let k3 = skip_ws(b, k2);
        if !(k3 < b.len() && b[k3] == 0x3a) {
            return Err(at_byte_message("expected ':' at byte ", k3));
        }
        let (v, k4) = match parse_value(b, k3 + 1) {
            Err(m) => {
                return Err(m);
            },
            Ok(pair) => pair,
        };
        let k5 = skip_ws(b, k4);
        let ghost kv = (key@, v@);
        let ghost before = pairs@;
        pairs.push((key, v));
        proof {
            lemma_pairs_push(before, pairs@.last(), before.len() as int);
            assert(pairs@.drop_last() =~= before);
            assert(pairs_view(pairs@, pairs@.len() as int) == acc.push(kv));
        }
        if k5 >= b.len() {
            return Err(at_byte_message("expected ',' or '}' at byte ", k5));
        } else if b[k5] == 0x2c {
            pos = k5 + 1;
        } else if b[k5] == 0x7d {
            let j = Json::Object(pairs);
            return Ok((j, k5 + 1));
        } else {
            return Err(at_byte_message("expected ',' or '}' at byte ", k5 + 1));
        }
    }
}

/// An array at `p` (where `[` stands).
fn parse_array(b: &[u8], p: usize) -> (r: Result<(Json, usize), String>)
    requires
        p < b.len(),
        b[p as int] == 0x5b,
    ensures
        value_matches(r, array_spec(b@, p as int)),
        r matches Ok((j, q)) ==> p < q <= b.len(),
    decreases b.len() - p, 1int,
{
    let q = skip_ws(b, p + 1);
    let mut items: Vec<Json> = Vec::new();
    if q < b.len() && b[q] == 0x5d {
        let j = Json::Array(items);
        proof {
            assert(j@ == JsonValue::Array(Seq::empty()));
        }
        return Ok((j, q + 1));
    }
    let mut pos = q;
    loop
        invariant
            p < pos <= b.len(),
            array_spec(b@, p as int) == elements_spec(b@, pos as int, items_view(items@, items@.len() as int)),
        decreases b.len() - pos,
    {
        let ghost acc = items_view(items@, items@.len() as int);
        let (v, k) = match parse_value(b, pos) {
            Err(m) => {
                return Err(m);
            },
            Ok(pair) => pair,
        };
        let k2 = skip_ws(b, k);
        let ghost vv = v@;
        let ghost before = items@;
        items.push(v);
        proof {
            lemma_items_push(before, items@.last(), before.len() as int);
            assert(items@.drop_last() =~= before);
            assert(items_view(items@, items@.len() as int) == acc.push(vv));
        }
        if k2 >= b.len() {
            return Err(at_byte_message("expected ',' or ']' at byte ", k2));
        } else if b[k2] == 0x2c {
            pos = k2 + 1;
        } else if b[k2] == 0x5d {
            let j = Json::Array(items);
            return Ok((j, k2 + 1));
        } else {
            return Err(at_byte_message("expected ',' or ']' at byte ", k2 + 1));
        }
    }
}

impl Json {
    /// Parses a JSON document from a string. Returns an error message on failure.
    pub fn parse(text: &str) -> (r: Result<Json, String>)
        ensures
            match parse_spec(text.spec_bytes()) {
                Ok(v) => r matches Ok(j) && j@ == v,
                Err(m) => r matches Err(e) && e@ == m,
            },
    {
        let b = text.as_bytes();
        let start = skip_ws(b, 0);
        let (value, end) = match parse_value(b, start) {
            Err(m) => {
                return Err(m);
            },
            Ok(pair) => pair,
        };
        let after = skip_ws(b, end);
        if after < b.len() {
            return Err(at_byte_message("trailing characters at byte ", after));
        }
        Ok(value)
    }
}

// ----------------------------------------------------------------------------------------------------------------------
// Serialization.

/// The lowercase hexadecimal digit of `d` (below sixteen).
pub open spec fn hex_char(d: u32) -> char {
    if d < 10 {
        ((d + 0x30) as u8) as char
    } else {
        ((d - 10 + 0x61) as u8) as char
    }
}

/// How a character is written inside a string literal.
pub open spec fn escape_text(c: char) -> Seq<char> {
    if c == '"' {
        "\\\""@
    } else if c == '\\' {
        "\\\\"@
    } else if c == '\n' {
        "\\n"@
    } else if c == '\r' {
        "\\r"@
    } else if c == '\t' {
        "\\t"@
    } else if c == '\u{08}' {
        "\\b"@
    } else if c == '\u{0c}' {
        "\\f"@
    } else if (c as u32) < 0x20 {
        "\\u00"@ + seq![hex_char((c as u32) / 16), hex_char((c as u32) % 16)]
    } else {
        seq![c]
    }
}

/// The escaped text of the first `k` characters of `s`.
pub open spec fn escaped_text(s: Seq<char>, k: int) -> Seq<char>
    decreases k,
{
    if k <= 0 || k > s.len() {
        Seq::empty()
    } else {
        escaped_text(s, k - 1) + escape_text(s[k - 1])
    }
}

/// A string literal: the escaped text between double quotes.
pub open spec fn string_text(s: Seq<char>) -> Seq<char> {
    seq!['"'] + escaped_text(s, s.len() as int) + seq!['"']
}

/// The compact text of a value: no whitespace, members in order.
pub open spec fn json_text(v: JsonValue) -> Seq<char>
    decreases v, 0int,
{
    match v {
        JsonValue::Null => "null"@,
        JsonValue::Bool(b) => if b {
            "true"@
        } else {
            "false"@
        },
        JsonValue::Number(t) => t,
        JsonValue::Str(s) => string_text(s),
        JsonValue::Array(items) => seq!['['] + items_text(items, items.len() as int) + seq![']'],
        JsonValue::Object(ps) => seq!['{'] + members_text(ps, ps.len() as int) + seq!['}'],
    }
}

/// The first `k` elements, separated by commas.
pub open spec fn items_text(items: Seq<JsonValue>, k: int) -> Seq<char>
    decreases items, k,
{
    if k <= 0 || k > items.len() {
        Seq::empty()
    } else {
        let before = items_text(items, k - 1);
        let sep = if k > 1 {
            seq![',']
        } else {
            Seq::empty()
        };
        before + sep + json_text(items[k - 1])
    }
}

/// The first `k` members, as `key:value`, separated by commas.
pub open spec fn members_text(ps: Seq<(Seq<char>, JsonValue)>, k: int) -> Seq<char>
    decreases ps, k,
{
    if k <= 0 || k > ps.len() {
        Seq::empty()
    } else {
        let before = members_text(ps, k - 1);
        let sep = if k > 1 {
            seq![',']
        } else {
            Seq::empty()
        };
        before + sep + string_text(ps[k - 1].0) + seq![':'] + json_text(ps[k - 1].1)
    }
}

pub proof fn lemma_items_view_index(s: Seq<Json>, k: int, i: int)
    requires
        0 <= i < k <= s.len(),
    ensures
        items_view(s, k).len() == k,
        items_view(s, k)[i] == json_view(s[i]),
    decreases k,
{
    lemma_items_view_len(s, k - 1);
    if i < k - 1 {
        lemma_items_view_index(s, k - 1, i);
    }
}

pub proof fn lemma_items_view_len(s: Seq<Json>, k: int)
    requires
        0 <= k <= s.len(),
    ensures
        items_view(s, k).len() == k,
    decreases k,
{
    if k > 0 {
        lemma_items_view_len(s, k - 1);
    }
}

pub proof fn lemma_pairs_view_index(s: Seq<(String, Json)>, k: int, i: int)
    requires
        0 <= i < k <= s.len(),
    ensures
        pairs_view(s, k).len() == k,
        pairs_view(s, k)[i] == (s[i].0@, json_view(s[i].1)),
    decreases k,
{
    lemma_pairs_view_len(s, k - 1);
    if i < k - 1 {
        lemma_pairs_view_index(s, k - 1, i);
    }
}

pub proof fn lemma_pairs_view_len(s: Seq<(String, Json)>, k: int)
    requires
        0 <= k <= s.len(),
    ensures
        pairs_view(s, k).len() == k,
    decreases k,
{
    if k > 0 {
        lemma_pairs_view_len(s, k - 1);
    }
}

fn hex_digit_char(d: u32) -> (c: char)
    requires
        d < 16,
    ensures
        c == hex_char(d),
{
    if d < 10 {
        ((d + 0x30) as u8) as char
    } else {
        ((d - 10 + 0x61) as u8) as char
    }
}

fn push_str(out: &mut String, s: &str)
    ensures
        final(out)@ == old(out)@ + s@,
{
    out.append(s);
}

/// Appends the string literal of `s` to `out`.
fn write_string(out: &mut String, s: &String)
    ensures
        final(out)@ == old(out)@ + string_text(s@),
{
    let ghost start = out@;
    out.push('"');
    let cs = crate::text::chars_of(s.as_str());
    let mut i: usize = 0;
    while i < cs.len()
        invariant
            i <= cs.len(),
            cs@ == s@,
            out@ == start.push('"') + escaped_text(s@, i as int),
        decreases cs.len() - i,
    {
        let c = cs[i];
        let ghost mid = out@;
        if c == '"' {
            push_str(out, "\\\"");
            proof {
                reveal_strlit("\\\"");
            }
        } else if c == '\\' {
            push_str(out, "\\\\");
            proof {
                reveal_strlit("\\\\");
            }
        } else if c == '\n' {
            push_str(out, "\\n");
            proof {
                reveal_strlit("\\n");
            }
        } else if c == '\r' {
            push_str(out, "\\r");
            proof {
                reveal_strlit("\\r");
            }
        } else if c == '\t' {
            push_str(out, "\\t");
            proof {
                reveal_strlit("\\t");
            }
        } else if c == '\u{08}' {
            push_str(out, "\\b");
            proof {
                reveal_strlit("\\b");
            }
        } else if c == '\u{0c}' {
            push_str(out, "\\f");
            proof {
                reveal_strlit("\\f");
            }
        } else if (c as u32) < 0x20 {
            push_str(out, "\\u00");
            out.push(hex_digit_char((c as u32) / 16));
            out.push(hex_digit_char((c as u32) % 16));
            proof {
                reveal_strlit("\\u00");
            }
        } else {
            out.push(c);
        }
        proof {
            assert(out@ =~= mid + escape_text(c));
            assert(start.push('"') + escaped_text(s@, i + 1) =~= start.push('"') + escaped_text(s@, i as int)
                + escape_text(s@[i as int]));
        }
        i += 1;
    }
    out.push('"');
    proof {
        assert(out@ =~= start + string_text(s@));
    }
}

impl Json {
    /// Appends the compact text of this value to `out`.
    fn write(&self, out: &mut String)
        ensures
            final(out)@ == old(out)@ + json_text(self@),
        decreases self,
    {
        match self {
            Json::Null => {
                push_str(out, "null");
                proof {
                    reveal_strlit("null");
                }
            },
            Json::Bool(b) => {
                if *b {
                    push_str(out, "true");
                    proof {
                        reveal_strlit("true");
                    }
                } else {
                    push_str(out, "false");
                    proof {
                        reveal_strlit("false");
                    }
                }
            },
            Json::Number(t) => {
                push_str(out, t.as_str());
            },
            Json::String(s) => {
                write_string(out, s);
            },
            Json::Array(items) => {
                let ghost start = out@;
                let ghost vs = items_view(items@, items@.len() as int);
                proof {
                    lemma_items_view_len(items@, items@.len() as int);
                }
                out.push('[');
                let mut i: usize = 0;
                while i < items.len()
                    invariant
                        i <= items.len(),
                        *self is Array,
                        *items == self->Array_0,
                        vs == items_view(items@, items@.len() as int),
                        vs.len() == items.len(),
                        out@ == start.push('[') + items_text(vs, i as int),
                    decreases items.len() - i,
                {
                    if i > 0 {
                        out.push(',');
                    }
                    proof {
                        lemma_items_view_index(items@, items@.len() as int, i as int);
                        assert(*items == self->Array_0);
                        assert(decreases_to!(*self => self->Array_0));
                        assert(decreases_to!(self->Array_0 => self->Array_0@));
                        assert(decreases_to!(self->Array_0@ => self->Array_0@[i as int]));
                    }
                    items[i].write(out);
                    proof {
                        assert(out@ =~= start.push('[') + items_text(vs, i + 1));
                    }
                    i += 1;
                }
                out.push(']');
                proof {
                    assert(out@ =~= start + json_text(self@));
                }
            },
            Json::Object(pairs) => {
                let ghost start = out@;
                let ghost ps = pairs_view(pairs@, pairs@.len() as int);
                proof {
                    lemma_pairs_view_len(pairs@, pairs@.len() as int);
                }
                out.push('{');
                let mut i: usize = 0;
                while i < pairs.len()
                    invariant
                        i <= pairs.len(),
                        *self is Object,
                        *pairs == self->Object_0,
                        ps == pairs_view(pairs@, pairs@.len() as int),
                        ps.len() == pairs.len(),
                        out@ == start.push('{') + members_text(ps, i as int),
                    decreases pairs.len() - i,
                {
                    if i > 0 {
                        out.push(',');
                    }
                    proof {
                        lemma_pairs_view_index(pairs@, pairs@.len() as int, i as int);
                    }
                    write_string(out, &pairs[i].0);
                    out.push(':');
                    proof {
                        assert(*pairs == self->Object_0);
                        assert(decreases_to!(*self => self->Object_0));
                        assert(decreases_to!(self->Object_0 => self->Object_0@));
                        assert(decreases_to!(self->Object_0@ => self->Object_0@[i as int]));
                        assert(decreases_to!(self->Object_0@[i as int] => self->Object_0@[i as int].1));
                    }
                    pairs[i].1.write(out);
                    proof {
                        assert(out@ =~= start.push('{') + members_text(ps, i + 1));
                    }
                    i += 1;
                }
                out.push('}');
                proof {
                    assert(out@ =~= start + json_text(self@));
                }
            },
        }
    }

    /// Compact serialization (no superfluous whitespace).
    pub fn to_string(&self) -> (r: String)
        ensures
            r@ == json_text(self@),
    {
        let mut out = String::new();
        self.write(&mut out);
        proof {
            assert(out@ =~= json_text(self@));
        }
        out
    }

    /// Returns the string value if this is a `String`, otherwise `None`.
    pub fn as_str(&self) -> (r: Option<&str>)
        ensures
            match self@ {
                JsonValue::Str(s) => r matches Some(x) && x@ == s,
                _ => r is None,
            },
    {
        match self {
            Json::String(s) => Some(s.as_str()),
            _ => None,
        }
    }

    /// Returns the array elements if this is an `Array`, otherwise `None`.
    pub fn as_array(&self) -> (r: Option<&[Json]>)
        ensures
            match self {
                Json::Array(v) => r matches Some(x) && x@ == v@,
                _ => r is None,
            },
    {
        match self {
            Json::Array(v) => Some(v.as_slice()),
            _ => None,
        }
    }

    /// Looks up a key if this is an `Object` (its first member with that key), otherwise `None`.
    pub fn get(&self, key: &str) -> (r: Option<&Json>)
        ensures
            match self {
                Json::Object(ps) => match r {
                    Some(j) => exists|i: int|
                        0 <= i < ps@.len() && ps@[i].0@ == key@ && *j == ps@[i].1 && forall|k: int|
                            0 <= k < i ==> ps@[k].0@ != key@,
                    None => forall|k: int| 0 <= k < ps@.len() ==> ps@[k].0@ != key@,
                },
                _ => r is None,
            },
    {
        match self {
            Json::Object(pairs) => {
                let wanted = key.to_owned();
                let mut i: usize = 0;
                while i < pairs.len()
                    invariant
                        i <= pairs.len(),
                        *self is Object,
                        *pairs == self->Object_0,
                        wanted@ == key@,
                        forall|k: int| 0 <= k < i ==> pairs@[k].0@ != key@,
                    decreases pairs.len() - i,
                {
                    if pairs[i].0 == wanted {
                        let found = &pairs[i].1;
                        proof {
                            assert(0 <= i < pairs@.len() && pairs@[i as int].0@ == key@ && *found == pairs@[i as int].1);
                        }
                        return Some(found);
                    }
                    i += 1;
                }
                None
            },
            _ => None,
        }
    }
}

} // verus!
