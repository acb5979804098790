//! The serializer and the parser of JSON agree: the UTF-8 bytes of the text that [`json_text`] writes for a
//! well-formed value parse back to that value ([`law_json_round_trip`]). The parser reads each escape of a string
//! literal as the character it stands for ([`law_short_escapes`], [`law_unicode_escape_digits`]).

use vstd::prelude::*;
use vstd::utf8::{
    char_is_scalar, char_u32_cast, decode_utf8, encode_scalar, encode_utf8, encode_utf8_decode_utf8,
    encode_utf8_valid_utf8, has_width_1_encoding, has_width_2_encoding, has_width_3_encoding, has_width_4_encoding,
    is_ascii_chars, is_ascii_chars_encode_utf8, is_scalar, valid_utf8,
};

use crate::json::{
    array_spec, ascii_chars, elements_spec, escape_text, escaped, escaped_text, extra_bytes, float_syntax, hex_char,
    hex_spec, hex_value, is_digit, is_number_byte, is_ws, items_text, json_text, members_spec, members_text,
    number_end, number_spec, object_spec, parse_spec, str_chars_spec, string_spec, string_text, unicode_spec,
    value_spec, word_at, ws_end, JsonValue,
};

verus! {

/// The UTF-8 encoding of a concatenation is the concatenation of the encodings.
pub proof fn lemma_encode_concat(a: Seq<char>, b: Seq<char>)
    ensures
        encode_utf8(a + b) == encode_utf8(a) + encode_utf8(b),
    decreases a.len(),
{
    if a.len() == 0 {
        assert(a + b =~= b);
        assert(encode_utf8(a) + encode_utf8(b) =~= encode_utf8(b));
    } else {
        assert((a + b)[0] == a[0]);
        assert((a + b).drop_first() =~= a.drop_first() + b);
        lemma_encode_concat(a.drop_first(), b);
        assert(encode_utf8(a + b) =~= encode_utf8(a) + encode_utf8(b));
    }
}

/// The encoding of one ASCII character is its code.
pub proof fn lemma_encode_ascii_char(c: char)
    requires
        (c as u32) < 0x80,
    ensures
        encode_utf8(seq![c]) == seq![c as u8],
{
    assert(is_ascii_chars(seq![c]));
    is_ascii_chars_encode_utf8(seq![c]);
    assert(encode_utf8(seq![c]) =~= seq![c as u8]);
}

/// The bytes `x` stand in `b` at position `p`.
pub open spec fn at(b: Seq<u8>, p: int, x: Seq<u8>) -> bool {
    0 <= p && p + x.len() <= b.len() && b.subrange(p, p + x.len()) == x
}

pub proof fn lemma_at_split(b: Seq<u8>, p: int, x: Seq<u8>, y: Seq<u8>)
    requires
        at(b, p, x + y),
    ensures
        at(b, p, x),
        at(b, p + x.len(), y),
{
    assert(b.subrange(p, p + x.len()) =~= (x + y).subrange(0, x.len() as int));
    assert((x + y).subrange(0, x.len() as int) =~= x);
    assert(b.subrange(p + x.len(), p + x.len() + y.len()) =~= (x + y).subrange(x.len() as int, (x + y).len() as int));
    assert((x + y).subrange(x.len() as int, (x + y).len() as int) =~= y);
}

pub proof fn lemma_at_byte(b: Seq<u8>, p: int, x: Seq<u8>, i: int)
    requires
        at(b, p, x),
        0 <= i < x.len(),
    ensures
        b[p + i] == x[i],
{
    assert(b.subrange(p, p + x.len())[i] == b[p + i]);
}

/// The encoding of a character that is written as itself inside a string literal.
proof fn lemma_lead_byte(c: char)
    requires
        (c as u32) >= 0x80,
    ensures
        encode_utf8(seq![c]) == encode_scalar(c as u32),
        encode_scalar(c as u32).len() >= 2,
        encode_scalar(c as u32)[0] >= 0x80,
        encode_scalar(c as u32).len() == 1 + extra_bytes(encode_scalar(c as u32)[0]),
{
    let s = c as u32;
    char_is_scalar(c);
    assert(seq![c].drop_first() =~= Seq::<char>::empty());
    assert(encode_utf8(seq![c]) =~= encode_scalar(s) + encode_utf8(Seq::<char>::empty()));
    assert(encode_utf8(seq![c]) =~= encode_scalar(s));
    assert((has_width_2_encoding(s) ==> 0xC0 <= (0xC0 | ((s >> 6) & 0x1F) as u8) < 0xE0) && (has_width_3_encoding(s)
        ==> 0xE0 <= (0xE0 | ((s >> 12) & 0x0F) as u8) < 0xF0) && (has_width_4_encoding(s) ==> 0xF0 <= (0xF0 | ((s
        >> 18) & 0x7) as u8))) by (bit_vector);
}

/// A hexadecimal digit written by the serializer reads back as its value.
proof fn lemma_hex_char(d: u32)
    requires
        d < 16,
    ensures
        (hex_char(d) as u32) < 0x80,
        hex_value(hex_char(d) as u8) == Some(d),
{
}

/// One character of a string literal, written by the serializer, is read back by the parser.
proof fn lemma_char_round_trip(b: Seq<u8>, p: int, acc: Seq<char>, c: char)
    requires
        at(b, p, encode_utf8(escape_text(c))),
    ensures
        str_chars_spec(b, p, acc) == str_chars_spec(b, p + encode_utf8(escape_text(c)).len(), acc.push(c)),
{
    let e = escape_text(c);
    let x = encode_utf8(e);
    let u = c as u32;
    if c == '"' || c == '\\' || c == '\n' || c == '\r' || c == '\t' || c == '\u{08}' || c == '\u{0c}' {
        reveal_strlit("\\\"");
        reveal_strlit("\\\\");
        reveal_strlit("\\n");
        reveal_strlit("\\r");
        reveal_strlit("\\t");
        reveal_strlit("\\b");
        reveal_strlit("\\f");
        assert(e.len() == 2);
        assert(is_ascii_chars(e));
        is_ascii_chars_encode_utf8(e);
        lemma_at_byte(b, p, x, 0);
        lemma_at_byte(b, p, x, 1);
        assert(b[p] == 0x5c);
        assert(escaped(b[p + 1]) == Some(c));
    } else if u < 0x20 {
        reveal_strlit("\\u00");
        let d1 = u / 16;
        let d2 = u % 16;
        lemma_hex_char(d1);
        lemma_hex_char(d2);
        assert(e =~= seq!['\\', 'u', '0', '0', hex_char(d1), hex_char(d2)]);
        assert(is_ascii_chars(e));
        is_ascii_chars_encode_utf8(e);
        assert(x.len() == 6);
        lemma_at_byte(b, p, x, 0);
        lemma_at_byte(b, p, x, 1);
        lemma_at_byte(b, p, x, 2);
        lemma_at_byte(b, p, x, 3);
        lemma_at_byte(b, p, x, 4);
        lemma_at_byte(b, p, x, 5);
        assert(b[p] == 0x5c);
        assert(b[p + 1] == 0x75);
        assert(hex_value(b[p + 2]) == Some(0u32));
        assert(hex_value(b[p + 3]) == Some(0u32));
        assert(hex_value(b[p + 4]) == Some(d1));
        assert(hex_value(b[p + 5]) == Some(d2));
        assert(hex_spec(b, p + 2, 4, u) == Ok::<u32, Seq<char>>(u));
        assert(hex_spec(b, p + 2, 3, d1) == hex_spec(b, p + 2, 4, (d1 * 16 + d2) as u32));
        assert(d1 * 16 + d2 == u);
        assert(hex_spec(b, p + 2, 2, 0) == hex_spec(b, p + 2, 3, d1));
        assert(hex_spec(b, p + 2, 1, 0) == hex_spec(b, p + 2, 2, 0));
        assert(hex_spec(b, p + 2, 0, 0) == hex_spec(b, p + 2, 1, 0));
        assert(is_scalar(u));
        char_u32_cast(c, u);
        assert(unicode_spec(b, p + 2) == Ok::<char, Seq<char>>(c));
    } else if u < 0x80 {
        assert(e == seq![c]);
        lemma_encode_ascii_char(c);
        lemma_at_byte(b, p, x, 0);
        assert(b[p] == c as u8);
        assert((b[p] as char) == c);
    } else {
        assert(e == seq![c]);
        lemma_lead_byte(c);
        lemma_at_byte(b, p, x, 0);
        encode_utf8_valid_utf8(seq![c]);
        encode_utf8_decode_utf8(seq![c]);
        assert(b.subrange(p, p + x.len()) == x);
        assert(acc + seq![c] =~= acc.push(c));
    }
}

/// The escaped text of the first `k` characters of `s`, written by the serializer, is read back character by character.
proof fn lemma_escaped_round_trip(b: Seq<u8>, p: int, acc: Seq<char>, s: Seq<char>, k: int)
    requires
        0 <= k <= s.len(),
        at(b, p, encode_utf8(escaped_text(s, k))),
    ensures
        str_chars_spec(b, p, acc) == str_chars_spec(b, p + encode_utf8(escaped_text(s, k)).len(), acc + s.take(k)),
    decreases k,
{
    if k == 0 {
        assert(encode_utf8(escaped_text(s, 0)) =~= Seq::<u8>::empty());
        assert(acc + s.take(0) =~= acc);
    } else {
        let before = escaped_text(s, k - 1);
        let last = escape_text(s[k - 1]);
        lemma_encode_concat(before, last);
        lemma_at_split(b, p, encode_utf8(before), encode_utf8(last));
        lemma_escaped_round_trip(b, p, acc, s, k - 1);
        let q = p + encode_utf8(before).len();
        lemma_char_round_trip(b, q, acc + s.take(k - 1), s[k - 1]);
        assert((acc + s.take(k - 1)).push(s[k - 1]) =~= acc + s.take(k));
    }
}

/// A string literal written by the serializer parses back to the string, whatever bytes follow it, and the reading ends
/// right after its closing quote (the string reader returns exactly what `string_spec` gives).
pub proof fn lemma_string_round_trip(b: Seq<u8>, pos: int, s: Seq<char>)
    requires
        at(b, pos, encode_utf8(string_text(s))),
    ensures
        string_spec(b, pos) == Ok::<(Seq<char>, int), Seq<char>>((s, pos + encode_utf8(string_text(s)).len())),
{
    let q = seq!['"'];
    let esc = escaped_text(s, s.len() as int);
    lemma_encode_concat(q + esc, q);
    lemma_encode_concat(q, esc);
    lemma_encode_ascii_char('"');
    lemma_at_split(b, pos, encode_utf8(q) + encode_utf8(esc), encode_utf8(q));
    lemma_at_split(b, pos, encode_utf8(q), encode_utf8(esc));
    lemma_at_byte(b, pos, encode_utf8(q), 0);
    let inner = pos + 1;
    lemma_escaped_round_trip(b, inner, Seq::empty(), s, s.len() as int);
    let close = inner + encode_utf8(esc).len();
    lemma_at_byte(b, close, encode_utf8(q), 0);
    assert(Seq::<char>::empty() + s.take(s.len() as int) =~= s);
}

// ----------------------------------------------------------------------------------------------------------------------
// Values.

/// A character that a number literal may hold.
pub open spec fn is_number_char(c: char) -> bool {
    is_digit(c) || c == '.' || c == 'e' || c == 'E' || c == '+' || c == '-'
}

/// The text of a number that the parser reads back: it starts with a minus sign or a digit, holds only number
/// characters, and is a decimal floating-point literal.
pub open spec fn number_ok(t: Seq<char>) -> bool {
    &&& t.len() > 0
    &&& (t[0] == '-' || is_digit(t[0]))
    &&& forall|i: int| 0 <= i < t.len() ==> is_number_char(#[trigger] t[i])
    &&& float_syntax(t)
}

/// Every number in the value is well formed (strings may hold any character).
pub open spec fn wf_value(v: JsonValue) -> bool
    decreases v, 0int,
{
    match v {
        JsonValue::Number(t) => number_ok(t),
        JsonValue::Array(items) => wf_items(items, items.len() as int),
        JsonValue::Object(ps) => wf_members(ps, ps.len() as int),
        _ => true,
    }
}

/// The first `k` elements are well formed.
pub open spec fn wf_items(items: Seq<JsonValue>, k: int) -> bool
    decreases items, k,
{
    if k <= 0 || k > items.len() {
        true
    } else {
        wf_items(items, k - 1) && wf_value(items[k - 1])
    }
}

/// The values of the first `k` members are well formed.
pub open spec fn wf_members(ps: Seq<(Seq<char>, JsonValue)>, k: int) -> bool
    decreases ps, k,
{
    if k <= 0 || k > ps.len() {
        true
    } else {
        wf_members(ps, k - 1) && wf_value(ps[k - 1].1)
    }
}

proof fn lemma_wf_items_at(items: Seq<JsonValue>, k: int, i: int)
    requires
        0 <= i < k <= items.len(),
        wf_items(items, k),
    ensures
        wf_value(items[i]),
    decreases k,
{
    if i < k - 1 {
        lemma_wf_items_at(items, k - 1, i);
    }
}

proof fn lemma_wf_members_at(ps: Seq<(Seq<char>, JsonValue)>, k: int, i: int)
    requires
        0 <= i < k <= ps.len(),
        wf_members(ps, k),
    ensures
        wf_value(ps[i].1),
    decreases k,
{
    if i < k - 1 {
        lemma_wf_members_at(ps, k - 1, i);
    }
}

/// The UTF-8 bytes of the text of a value.
pub open spec fn bytes(v: JsonValue) -> Seq<u8> {
    encode_utf8(json_text(v))
}

/// What may follow a value: the end of the input or a byte that does not continue a number.
pub open spec fn follows(b: Seq<u8>, e: int) -> bool {
    e == b.len() || (0 <= e < b.len() && !is_number_byte(b[e]))
}

/// The encoding of an ASCII text is its codes.
proof fn lemma_encode_ascii(t: Seq<char>)
    requires
        is_ascii_chars(t),
    ensures
        encode_utf8(t).len() == t.len(),
        forall|i: int| 0 <= i < t.len() ==> encode_utf8(t)[i] == #[trigger] t[i] as u8,
{
    is_ascii_chars_encode_utf8(t);
}

/// The encoding of `c` followed by `rest`, for an ASCII `c`.
proof fn lemma_encode_first(c: char, rest: Seq<char>)
    requires
        (c as u32) < 0x80,
    ensures
        encode_utf8(seq![c] + rest) == seq![c as u8] + encode_utf8(rest),
{
    lemma_encode_concat(seq![c], rest);
    lemma_encode_ascii_char(c);
}

/// The first byte of a value's text: never whitespace nor a closing bracket.
proof fn lemma_first_byte(v: JsonValue)
    requires
        wf_value(v),
    ensures
        bytes(v).len() > 0,
        !is_ws(bytes(v)[0]),
        bytes(v)[0] != 0x5d,
        bytes(v)[0] != 0x7d,
        bytes(v)[0] != 0x2c,
{
    let t = json_text(v);
    reveal_strlit("null");
    reveal_strlit("true");
    reveal_strlit("false");
    assert(t.len() > 0);
    let first = t[0];
    let rest = t.drop_first();
    assert(t =~= seq![first] + rest);
    match v {
        JsonValue::Number(n) => {
            assert(is_number_char(n[0]));
        },
        _ => {},
    }
    assert((first as u32) < 0x80);
    lemma_encode_first(first, rest);
}

/// A run of number bytes that ends where a non-number byte (or the input) does is read whole.
proof fn lemma_number_end(b: Seq<u8>, i: int, e: int)
    requires
        0 <= i <= e <= b.len(),
        forall|k: int| i <= k < e ==> is_number_byte(#[trigger] b[k]),
        e == b.len() || !is_number_byte(b[e]),
    ensures
        number_end(b, i) == e,
    decreases e - i,
{
    if i < e {
        lemma_number_end(b, i + 1, e);
    }
}

/// The position of element `j` of an array whose elements' text starts at `start`.
pub open spec fn item_pos(items: Seq<JsonValue>, j: int, start: int) -> int {
    start + encode_utf8(items_text(items, j)).len() + (if j > 0 {
        1int
    } else {
        0int
    })
}

/// The position of member `j` of an object whose members' text starts at `start`.
pub open spec fn member_pos(ps: Seq<(Seq<char>, JsonValue)>, j: int, start: int) -> int {
    start + encode_utf8(members_text(ps, j)).len() + (if j > 0 {
        1int
    } else {
        0int
    })
}

/// The text of the first `k + 1` elements is that of the first `k`, a separating comma (after the first), and the
/// element.
proof fn lemma_items_step(items: Seq<JsonValue>, k: int)
    requires
        0 <= k < items.len(),
    ensures
        encode_utf8(items_text(items, k + 1)) == encode_utf8(items_text(items, k)) + encode_utf8(
            if k > 0 {
                seq![',']
            } else {
                Seq::empty()
            },
        ) + bytes(items[k]),
        encode_utf8(if k > 0 {
            seq![',']
        } else {
            Seq::<char>::empty()
        }).len() == (if k > 0 {
            1int
        } else {
            0int
        }),
{
    let sep: Seq<char> = if k > 0 {
        seq![',']
    } else {
        Seq::empty()
    };
    lemma_encode_concat(items_text(items, k) + sep, json_text(items[k]));
    lemma_encode_concat(items_text(items, k), sep);
    if k > 0 {
        lemma_encode_ascii_char(',');
    } else {
        assert(encode_utf8(sep) =~= Seq::<u8>::empty());
    }
}

/// The text of the first `k + 1` members is that of the first `k`, a separating comma (after the first), and the
/// member `"key":value`.
proof fn lemma_members_step(ps: Seq<(Seq<char>, JsonValue)>, k: int)
    requires
        0 <= k < ps.len(),
    ensures
        encode_utf8(members_text(ps, k + 1)) == encode_utf8(members_text(ps, k)) + encode_utf8(
            if k > 0 {
                seq![',']
            } else {
                Seq::empty()
            },
        ) + encode_utf8(string_text(ps[k].0)) + seq![0x3au8] + bytes(ps[k].1),
        encode_utf8(if k > 0 {
            seq![',']
        } else {
            Seq::<char>::empty()
        }).len() == (if k > 0 {
            1int
        } else {
            0int
        }),
{
    let sep: Seq<char> = if k > 0 {
        seq![',']
    } else {
        Seq::empty()
    };
    let before = members_text(ps, k);
    let st = string_text(ps[k].0);
    let colon = seq![':'];
    let jt = json_text(ps[k].1);
    lemma_encode_concat(before + sep + st + colon, jt);
    lemma_encode_concat(before + sep + st, colon);
    lemma_encode_concat(before + sep, st);
    lemma_encode_concat(before, sep);
    lemma_encode_ascii_char(':');
    if k > 0 {
        lemma_encode_ascii_char(',');
    } else {
        assert(encode_utf8(sep) =~= Seq::<u8>::empty());
    }
}

/// The text of fewer elements stands at the start of the text of more.
proof fn lemma_items_prefix(items: Seq<JsonValue>, b: Seq<u8>, start: int, k: int, m: int)
    requires
        0 <= k <= m <= items.len(),
        at(b, start, encode_utf8(items_text(items, m))),
    ensures
        at(b, start, encode_utf8(items_text(items, k))),
    decreases m - k,
{
    if k < m {
        lemma_items_step(items, m - 1);
        let e0 = encode_utf8(items_text(items, m - 1));
        let sep = encode_utf8(
            if m - 1 > 0 {
                seq![',']
            } else {
                Seq::empty()
            },
        );
        lemma_at_split(b, start, e0 + sep, bytes(items[m - 1]));
        lemma_at_split(b, start, e0, sep);
        lemma_items_prefix(items, b, start, k, m - 1);
    }
}

/// The text of fewer members stands at the start of the text of more.
proof fn lemma_members_prefix(ps: Seq<(Seq<char>, JsonValue)>, b: Seq<u8>, start: int, k: int, m: int)
    requires
        0 <= k <= m <= ps.len(),
        at(b, start, encode_utf8(members_text(ps, m))),
    ensures
        at(b, start, encode_utf8(members_text(ps, k))),
    decreases m - k,
{
    if k < m {
        lemma_members_step(ps, m - 1);
        let e0 = encode_utf8(members_text(ps, m - 1));
        let sep = encode_utf8(
            if m - 1 > 0 {
                seq![',']
            } else {
                Seq::empty()
            },
        );
        let st = encode_utf8(string_text(ps[m - 1].0));
        lemma_at_split(b, start, e0 + sep + st + seq![0x3au8], bytes(ps[m - 1].1));
        lemma_at_split(b, start, e0 + sep + st, seq![0x3au8]);
        lemma_at_split(b, start, e0 + sep, st);
        lemma_at_split(b, start, e0, sep);
        lemma_members_prefix(ps, b, start, k, m - 1);
    }
}

/// A well-formed value written by the serializer and followed by something that does not continue a number parses
/// back to the value, ending right after its text.
pub proof fn lemma_value_round_trip(v: JsonValue, b: Seq<u8>, pos: int)
    requires
        wf_value(v),
        at(b, pos, bytes(v)),
        follows(b, pos + bytes(v).len()),
    ensures
        value_spec(b, pos) == Ok::<(JsonValue, int), Seq<char>>((v, pos + bytes(v).len())),
    decreases v, 0int,
{
    lemma_first_byte(v);
    lemma_at_byte(b, pos, bytes(v), 0);
    assert(ws_end(b, pos) == pos);
    match v {
        JsonValue::Null => lemma_literal_round_trip(v, b, pos),
        JsonValue::Bool(_) => lemma_literal_round_trip(v, b, pos),
        JsonValue::Number(n) => lemma_number_round_trip(n, b, pos),
        JsonValue::Str(x) => {
            lemma_string_round_trip(b, pos, x);
        },
        JsonValue::Array(items) => lemma_array_round_trip(items, b, pos),
        JsonValue::Object(ps) => lemma_object_round_trip(ps, b, pos),
    }
}

/// `null`, `true` and `false` read back.
proof fn lemma_literal_round_trip(v: JsonValue, b: Seq<u8>, pos: int)
    requires
        v is Null || v is Bool,
        at(b, pos, bytes(v)),
    ensures
        value_spec(b, pos) == Ok::<(JsonValue, int), Seq<char>>((v, pos + bytes(v).len())),
{
    let t = json_text(v);
    reveal_strlit("null");
    reveal_strlit("true");
    reveal_strlit("false");
    lemma_encode_ascii(t);
    assert forall|i: int| 0 <= i < t.len() implies b[pos + i] as char == #[trigger] t[i] by {
        lemma_at_byte(b, pos, bytes(v), i);
    }
    assert(ws_end(b, pos) == pos);
    if v == JsonValue::Bool(false) {
        assert("true"@[0] == 't');
        assert(b[pos + 0] as char == 'f');
        assert(!word_at(b, pos, "true"@));
    }
}

/// A well-formed number reads back.
proof fn lemma_number_round_trip(n: Seq<char>, b: Seq<u8>, pos: int)
    requires
        number_ok(n),
        at(b, pos, bytes(JsonValue::Number(n))),
        follows(b, pos + bytes(JsonValue::Number(n)).len()),
    ensures
        value_spec(b, pos) == Ok::<(JsonValue, int), Seq<char>>(
            (JsonValue::Number(n), pos + bytes(JsonValue::Number(n)).len()),
        ),
{
    let v = JsonValue::Number(n);
    assert forall|i: int| 0 <= i < n.len() implies '\0' <= #[trigger] n[i] <= '\u{7f}' by {
        assert(is_number_char(n[i]));
    }
    lemma_encode_ascii(n);
    let e = pos + n.len();
    assert forall|k: int| pos <= k < e implies #[trigger] b[k] == n[k - pos] as u8 by {
        lemma_at_byte(b, pos, bytes(v), k - pos);
    }
    assert forall|k: int| pos <= k < e implies is_number_byte(#[trigger] b[k]) by {
        assert(b[k] == n[k - pos] as u8);
        assert(is_number_char(n[k - pos]));
    }
    assert(b[pos] == n[0] as u8);
    assert(ws_end(b, pos) == pos);
    let start = if b[pos] == 0x2d {
        pos + 1
    } else {
        pos
    };
    lemma_number_end(b, start, e);
    assert(ascii_chars(b.subrange(pos, e)) =~= n) by {
        assert forall|k: int| 0 <= k < n.len() implies #[trigger] ascii_chars(b.subrange(pos, e))[k] == n[k] by {
            assert(b[pos + k] == n[k] as u8);
        }
    }
    assert(number_spec(b, pos) == Ok::<(JsonValue, int), Seq<char>>((JsonValue::Number(n), e)));
}

/// A well-formed array reads back.
proof fn lemma_array_round_trip(items: Seq<JsonValue>, b: Seq<u8>, pos: int)
    requires
        wf_items(items, items.len() as int),
        at(b, pos, bytes(JsonValue::Array(items))),
    ensures
        value_spec(b, pos) == Ok::<(JsonValue, int), Seq<char>>(
            (JsonValue::Array(items), pos + bytes(JsonValue::Array(items)).len()),
        ),
    decreases items, items.len() + 1,
{
    let v = JsonValue::Array(items);
    let t = json_text(v);
    let inner = items_text(items, items.len() as int);
    lemma_encode_first('[', inner + seq![']']);
    lemma_encode_concat(inner, seq![']']);
    lemma_encode_ascii_char(']');
    assert(t =~= seq!['['] + (inner + seq![']']));
    let ei = encode_utf8(inner);
    assert(bytes(v) =~= seq![0x5bu8] + (ei + seq![0x5du8]));
    lemma_at_split(b, pos, seq![0x5bu8], ei + seq![0x5du8]);
    lemma_at_split(b, pos + 1, ei, seq![0x5du8]);
    lemma_at_byte(b, pos, seq![0x5bu8], 0);
    lemma_at_byte(b, pos + 1 + ei.len(), seq![0x5du8], 0);
    assert(ws_end(b, pos) == pos);
    if items.len() == 0 {
        assert(ei =~= Seq::<u8>::empty());
        assert(items =~= Seq::<JsonValue>::empty());
        assert(ws_end(b, pos + 1) == pos + 1);
    } else {
        lemma_items_prefix(items, b, pos + 1, 1, items.len() as int);
        lemma_items_step(items, 0);
        assert(items_text(items, 0) =~= Seq::<char>::empty());
        assert(encode_utf8(Seq::<char>::empty()) =~= Seq::<u8>::empty());
        lemma_wf_items_at(items, items.len() as int, 0);
        lemma_first_byte(items[0]);
        assert(encode_utf8(items_text(items, 1)) =~= bytes(items[0]));
        lemma_at_byte(b, pos + 1, bytes(items[0]), 0);
        assert(ws_end(b, pos + 1) == pos + 1);
        lemma_elements(items, 0, b, pos + 1);
        assert(items.take(0) =~= Seq::<JsonValue>::empty());
        assert(item_pos(items, 0, pos + 1) == pos + 1);
    }
}

/// A well-formed object reads back.
proof fn lemma_object_round_trip(ps: Seq<(Seq<char>, JsonValue)>, b: Seq<u8>, pos: int)
    requires
        wf_members(ps, ps.len() as int),
        at(b, pos, bytes(JsonValue::Object(ps))),
    ensures
        value_spec(b, pos) == Ok::<(JsonValue, int), Seq<char>>(
            (JsonValue::Object(ps), pos + bytes(JsonValue::Object(ps)).len()),
        ),
    decreases ps, ps.len() + 1,
{
    let v = JsonValue::Object(ps);
    let t = json_text(v);
    let inner = members_text(ps, ps.len() as int);
    lemma_encode_first('{', inner + seq!['}']);
    lemma_encode_concat(inner, seq!['}']);
    lemma_encode_ascii_char('}');
    assert(t =~= seq!['{'] + (inner + seq!['}']));
    let ei = encode_utf8(inner);
    assert(bytes(v) =~= seq![0x7bu8] + (ei + seq![0x7du8]));
    lemma_at_split(b, pos, seq![0x7bu8], ei + seq![0x7du8]);
    lemma_at_split(b, pos + 1, ei, seq![0x7du8]);
    lemma_at_byte(b, pos, seq![0x7bu8], 0);
    lemma_at_byte(b, pos + 1 + ei.len(), seq![0x7du8], 0);
    assert(ws_end(b, pos) == pos);
    if ps.len() == 0 {
        assert(ei =~= Seq::<u8>::empty());
        assert(ps =~= Seq::<(Seq<char>, JsonValue)>::empty());
        assert(ws_end(b, pos + 1) == pos + 1);
    } else {
        lemma_members_prefix(ps, b, pos + 1, 1, ps.len() as int);
        lemma_members_step(ps, 0);
        assert(members_text(ps, 0) =~= Seq::<char>::empty());
        assert(encode_utf8(Seq::<char>::empty()) =~= Seq::<u8>::empty());
        let st = encode_utf8(string_text(ps[0].0));
        lemma_encode_first('"', string_text(ps[0].0).drop_first());
        assert(string_text(ps[0].0) =~= seq!['"'] + string_text(ps[0].0).drop_first());
        assert(encode_utf8(members_text(ps, 1)) =~= st + seq![0x3au8] + bytes(ps[0].1));
        lemma_at_split(b, pos + 1, st + seq![0x3au8], bytes(ps[0].1));
        lemma_at_split(b, pos + 1, st, seq![0x3au8]);
        lemma_at_byte(b, pos + 1, st, 0);
        assert(ws_end(b, pos + 1) == pos + 1);
        lemma_members(ps, 0, b, pos + 1);
        assert(ps.take(0) =~= Seq::<(Seq<char>, JsonValue)>::empty());
        assert(member_pos(ps, 0, pos + 1) == pos + 1);
    }
}

/// From element `j` on, the elements written by the serializer parse back to the whole array.
proof fn lemma_elements(items: Seq<JsonValue>, j: int, b: Seq<u8>, start: int)
    requires
        0 <= j < items.len(),
        wf_items(items, items.len() as int),
        at(b, start, encode_utf8(items_text(items, items.len() as int))),
        start + encode_utf8(items_text(items, items.len() as int)).len() < b.len(),
        b[start + encode_utf8(items_text(items, items.len() as int)).len()] == 0x5d,
    ensures
        elements_spec(b, item_pos(items, j, start), items.take(j)) == Ok::<(JsonValue, int), Seq<char>>(
            (JsonValue::Array(items), start + encode_utf8(items_text(items, items.len() as int)).len() + 1),
        ),
    decreases items, items.len() - j,
{
    let n = items.len() as int;
    let p = item_pos(items, j, start);
    lemma_items_prefix(items, b, start, j + 1, n);
    lemma_items_step(items, j);
    let e0 = encode_utf8(items_text(items, j));
    let sep = encode_utf8(
        if j > 0 {
            seq![',']
        } else {
            Seq::empty()
        },
    );
    lemma_at_split(b, start, e0 + sep, bytes(items[j]));
    let e = p + bytes(items[j]).len();
    assert(e == start + encode_utf8(items_text(items, j + 1)).len());
    if j + 1 < n {
        lemma_items_prefix(items, b, start, j + 2, n);
        lemma_items_step(items, j + 1);
        let e1 = encode_utf8(items_text(items, j + 1));
        lemma_encode_ascii_char(',');
        lemma_at_split(b, start, e1 + seq![0x2cu8], bytes(items[j + 1]));
        lemma_at_split(b, start, e1, seq![0x2cu8]);
        lemma_at_byte(b, start + e1.len(), seq![0x2cu8], 0);
        assert(b[e] == 0x2c);
    } else {
        assert(b[e] == 0x5d);
    }
    lemma_wf_items_at(items, n, j);
    lemma_value_round_trip(items[j], b, p);
    assert(ws_end(b, e) == e);
    assert(items.take(j).push(items[j]) =~= items.take(j + 1));
    if j + 1 < n {
        assert(item_pos(items, j + 1, start) == e + 1);
        lemma_elements(items, j + 1, b, start);
    } else {
        assert(items.take(j + 1) =~= items);
    }
}

/// From member `j` on, the members written by the serializer parse back to the whole object.
proof fn lemma_members(ps: Seq<(Seq<char>, JsonValue)>, j: int, b: Seq<u8>, start: int)
    requires
        0 <= j < ps.len(),
        wf_members(ps, ps.len() as int),
        at(b, start, encode_utf8(members_text(ps, ps.len() as int))),
        start + encode_utf8(members_text(ps, ps.len() as int)).len() < b.len(),
        b[start + encode_utf8(members_text(ps, ps.len() as int)).len()] == 0x7d,
    ensures
        members_spec(b, member_pos(ps, j, start), ps.take(j)) == Ok::<(JsonValue, int), Seq<char>>(
            (JsonValue::Object(ps), start + encode_utf8(members_text(ps, ps.len() as int)).len() + 1),
        ),
    decreases ps, ps.len() - j,
{
    let n = ps.len() as int;
    let p = member_pos(ps, j, start);
    lemma_members_prefix(ps, b, start, j + 1, n);
    lemma_members_step(ps, j);
    let e0 = encode_utf8(members_text(ps, j));
    let sep = encode_utf8(
        if j > 0 {
            seq![',']
        } else {
            Seq::empty()
        },
    );
    let st = encode_utf8(string_text(ps[j].0));
    lemma_at_split(b, start, e0 + sep + st + seq![0x3au8], bytes(ps[j].1));
    lemma_at_split(b, start, e0 + sep + st, seq![0x3au8]);
    lemma_at_split(b, start, e0 + sep, st);
    let k2 = p + st.len();
    lemma_at_byte(b, k2, seq![0x3au8], 0);
    lemma_encode_first('"', string_text(ps[j].0).drop_first());
    assert(string_text(ps[j].0) =~= seq!['"'] + string_text(ps[j].0).drop_first());
    lemma_at_byte(b, p, st, 0);
    assert(ws_end(b, p) == p);
    lemma_string_round_trip(b, p, ps[j].0);
    assert(ws_end(b, k2) == k2);
    let e = k2 + 1 + bytes(ps[j].1).len();
    assert(e == start + encode_utf8(members_text(ps, j + 1)).len());
    if j + 1 < n {
        lemma_members_prefix(ps, b, start, j + 2, n);
        lemma_members_step(ps, j + 1);
        let e1 = encode_utf8(members_text(ps, j + 1));
        lemma_encode_ascii_char(',');
        let st1 = encode_utf8(string_text(ps[j + 1].0));
        lemma_at_split(b, start, e1 + seq![0x2cu8] + st1 + seq![0x3au8], bytes(ps[j + 1].1));
        lemma_at_split(b, start, e1 + seq![0x2cu8] + st1, seq![0x3au8]);
        lemma_at_split(b, start, e1 + seq![0x2cu8], st1);
        lemma_at_split(b, start, e1, seq![0x2cu8]);
        lemma_at_byte(b, start + e1.len(), seq![0x2cu8], 0);
        assert(b[e] == 0x2c);
    } else {
        assert(b[e] == 0x7d);
    }
    lemma_wf_members_at(ps, n, j);
    lemma_value_round_trip(ps[j].1, b, k2 + 1);
    assert(ws_end(b, e) == e);
    assert(ps.take(j).push((ps[j].0, ps[j].1)) =~= ps.take(j + 1));
    if j + 1 < n {
        assert(member_pos(ps, j + 1, start) == e + 1);
        lemma_members(ps, j + 1, b, start);
    } else {
        assert(ps.take(j + 1) =~= ps);
    }
}

/// Serializing a well-formed value (one whose numbers are decimal floating-point literals starting with a minus sign
/// or a digit) and parsing the UTF-8 bytes of the text gives back the value.
pub proof fn law_json_round_trip(v: JsonValue)
    requires
        wf_value(v),
    ensures
        parse_spec(encode_utf8(json_text(v))) == Ok::<JsonValue, Seq<char>>(v),
{
    let b = bytes(v);
    assert(b.subrange(0, b.len() as int) =~= b);
    lemma_first_byte(v);
    assert(ws_end(b, 0) == 0);
    lemma_value_round_trip(v, b, 0);
}

/// The byte that spells the hexadecimal digit `d` (below 16): `0-9`, then `A-F` in upper case or `a-f` in lower case.
pub open spec fn hex_digit_byte(d: int, upper: bool) -> u8 {
    if d < 10 {
        (0x30 + d) as u8
    } else if upper {
        (0x41 + d - 10) as u8
    } else {
        (0x61 + d - 10) as u8
    }
}

/// The string literal `"\uXXXX"` whose four hexadecimal digits spell `code` (below `0x10000`), most significant
/// first, digit `k` in upper case where `upper[k]` holds and in lower case otherwise.
pub open spec fn unicode_escape_literal(code: int, upper: Seq<bool>) -> Seq<u8> {
    seq![
        0x22u8,
        0x5cu8,
        0x75u8,
        hex_digit_byte(code / 4096, upper[0]),
        hex_digit_byte((code / 256) % 16, upper[1]),
        hex_digit_byte((code / 16) % 16, upper[2]),
        hex_digit_byte(code % 16, upper[3]),
        0x22u8,
    ]
}

/// Law: a `\u` escape reads as the code its four hexadecimal digits spell, whichever case each digit is written in.
/// The string literal `"\uXXXX"` is the one character with that code when the code is a Unicode scalar value, and is
/// refused as an invalid code point otherwise; so every mix of upper- and lower-case digits reads as the all
/// lower-case spelling does.
pub proof fn law_unicode_escape_digits(code: u32, upper: Seq<bool>)
    requires
        code < 0x10000,
        upper.len() == 4,
    ensures
        is_scalar(code) ==> string_spec(unicode_escape_literal(code as int, upper), 0) == Ok::<
            (Seq<char>, int),
            Seq<char>,
        >((seq![code as char], 8)),
        !is_scalar(code) ==> string_spec(unicode_escape_literal(code as int, upper), 0) == Err::<
            (Seq<char>, int),
            Seq<char>,
        >("invalid unicode code point"@),
        string_spec(unicode_escape_literal(code as int, upper), 0) == string_spec(
            unicode_escape_literal(code as int, seq![false, false, false, false]),
            0,
        ),
{
    lemma_escape_literal(code, upper);
    lemma_escape_literal(code, seq![false, false, false, false]);
}

proof fn lemma_escape_literal(code: u32, upper: Seq<bool>)
    requires
        code < 0x10000,
        upper.len() == 4,
    ensures
        is_scalar(code) ==> string_spec(unicode_escape_literal(code as int, upper), 0) == Ok::<
            (Seq<char>, int),
            Seq<char>,
        >((seq![code as char], 8)),
        !is_scalar(code) ==> string_spec(unicode_escape_literal(code as int, upper), 0) == Err::<
            (Seq<char>, int),
            Seq<char>,
        >("invalid unicode code point"@),
{
    let c = code as int;
    let b = unicode_escape_literal(c, upper);
    let d0 = c / 4096;
    let d1 = (c / 256) % 16;
    let d2 = (c / 16) % 16;
    let d3 = c % 16;
    assert(0 <= d0 < 16 && 0 <= d1 < 16 && 0 <= d2 < 16 && 0 <= d3 < 16);
    assert(((d0 * 16 + d1) * 16 + d2) * 16 + d3 == c) by (nonlinear_arith)
        requires
            0 <= c < 0x10000,
            d0 == c / 4096,
            d1 == (c / 256) % 16,
            d2 == (c / 16) % 16,
            d3 == c % 16,
    ;
    lemma_digit_byte(d0, upper[0]);
    lemma_digit_byte(d1, upper[1]);
    lemma_digit_byte(d2, upper[2]);
    lemma_digit_byte(d3, upper[3]);
    assert(b[3] == hex_digit_byte(d0, upper[0]));
    assert(b[4] == hex_digit_byte(d1, upper[1]));
    assert(b[5] == hex_digit_byte(d2, upper[2]));
    assert(b[6] == hex_digit_byte(d3, upper[3]));
    assert(hex_spec(b, 3, 4, code) == Ok::<u32, Seq<char>>(code));
    assert(hex_spec(b, 3, 3, (((d0 * 16 + d1) * 16 + d2)) as u32) == Ok::<u32, Seq<char>>(code));
    assert(hex_spec(b, 3, 2, ((d0 * 16 + d1)) as u32) == Ok::<u32, Seq<char>>(code));
    assert(hex_spec(b, 3, 1, d0 as u32) == Ok::<u32, Seq<char>>(code));
    assert(hex_spec(b, 3, 0, 0) == Ok::<u32, Seq<char>>(code));
    assert(b[0] == 0x22 && b[1] == 0x5c && b[2] == 0x75 && b[7] == 0x22);
    if is_scalar(code) {
        assert(str_chars_spec(b, 7, seq![code as char]) == Ok::<(Seq<char>, int), Seq<char>>((seq![code as char], 8)));
        assert(Seq::<char>::empty().push(code as char) =~= seq![code as char]);
    }
}

proof fn lemma_digit_byte(d: int, upper: bool)
    requires
        0 <= d < 16,
    ensures
        hex_value(hex_digit_byte(d, upper)) == Some(d as u32),
{
}

/// The escapes of JSON strings besides `\u`, as pairs of the byte after the backslash and the character it stands
/// for: `\"`, `\\`, `\/`, `\b` (backspace), `\f` (form feed), `\n`, `\r`, `\t`.
pub open spec fn is_short_escape(x: u8, c: char) -> bool {
    ||| x == 0x22 && c == '"'
    ||| x == 0x5c && c == '\\'
    ||| x == 0x2f && c == '/'
    ||| x == 0x62 && c == '\u{08}'
    ||| x == 0x66 && c == '\u{0c}'
    ||| x == 0x6e && c == '\n'
    ||| x == 0x72 && c == '\r'
    ||| x == 0x74 && c == '\t'
}

/// Law: the string literal of one escape `"\x"` is the character the escape stands for, for each of the escapes
/// besides `\u`; after a backslash, any other byte but `u` is refused as an invalid escape at the byte after the
/// backslash.
pub proof fn law_short_escapes(x: u8, c: char)
    ensures
        is_short_escape(x, c) ==> string_spec(seq![0x22u8, 0x5cu8, x, 0x22u8], 0) == Ok::<(Seq<char>, int), Seq<char>>(
            (seq![c], 4),
        ),
        (forall|d: char| !is_short_escape(x, d)) && x != 0x75 ==> string_spec(seq![0x22u8, 0x5cu8, x, 0x22u8], 0)
            == Err::<(Seq<char>, int), Seq<char>>(crate::json::at_byte("invalid escape at byte "@, 3)),
{
    let b = seq![0x22u8, 0x5cu8, x, 0x22u8];
    assert(b[0] == 0x22 && b[1] == 0x5c && b[2] == x && b[3] == 0x22);
    if is_short_escape(x, c) {
        assert(escaped(x) == Some(c));
        assert(str_chars_spec(b, 3, seq![c]) == Ok::<(Seq<char>, int), Seq<char>>((seq![c], 4)));
        assert(Seq::<char>::empty().push(c) =~= seq![c]);
    }
    if (forall|d: char| !is_short_escape(x, d)) && x != 0x75 {
        if escaped(x) is Some {
            assert(is_short_escape(x, escaped(x)->0));
        }
    }
}

} // verus!
