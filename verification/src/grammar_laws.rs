//! Laws of the algebraic syntax.
//!
//! [`law_operator_spellings`]: every documented spelling of an operator, each parenthesis and each constant lexes as
//! its one token, wherever it stands in the text. [`law_white_space_delimits`]: whitespace ends a name and is
//! otherwise ignored. [`law_letter_variable`], [`law_dollar_variable`], [`law_dollar_needs_letter`]: a single letter
//! is one variable (an overbar after it negates it), `$` and a name is one variable, and a `$` needs a letter after
//! it. [`law_or_xor_left_fold`]: OR and XOR share one left-associative tier, so operands joined by them are read as
//! a left fold, each operator applied in order to the result so far and the next operand.
//! [`law_sum_of_products`]: AND binds tighter than both, so products of variables joined by OR and XOR are read as
//! the left fold of the products' values. [`law_dangling_operator_refused`]: a text that ends in an operator or an
//! opening parenthesis is refused.

use vstd::prelude::*;

use crate::algebraic::{
    algebraic_outcome, and_spec, and_tail_spec, cons, is_name_char, is_white_space, lemma_name_end, lex, lex_from,
    not_spec, or_tail_spec, or_xor_spec, primary_spec, Lexeme, Parsed, OVERBAR,
};
use crate::formula::Formula;
use crate::quine_mccluskey::MAX_VARIABLES;
use crate::read_back::{by_name, extends_table, formula_within, lemma_extend_meaning, lemma_register_name, table_from};
use crate::text_read_back::{dollar_tail, glue, lemma_lex_concat, lemma_lex_shift, seam_ok};

verus! {

/// The token that a documented one-character symbol stands for (an operator, a parenthesis or a constant), or `None`
/// for any other character.
pub open spec fn symbol_token(c: char) -> Option<Lexeme> {
    if c == '(' {
        Some(Lexeme::LParen)
    } else if c == ')' {
        Some(Lexeme::RParen)
    } else if c == '0' {
        Some(Lexeme::Const(false))
    } else if c == '1' {
        Some(Lexeme::Const(true))
    } else if c == '|' || c == '+' || c == '\u{2228}' {
        Some(Lexeme::Or)
    } else if c == '^' || c == '\u{2295}' || c == '\u{22BB}' {
        Some(Lexeme::Xor)
    } else if c == '&' || c == '*' || c == '.' || c == '\u{2227}' || c == '\u{22C5}' || c == '\u{00B7}' || c
        == '\u{00D7}' {
        Some(Lexeme::And)
    } else if c == '~' || c == '-' || c == '\u{00AC}' || c == '!' {
        Some(Lexeme::Not)
    } else {
        None
    }
}

/// Law: each documented spelling of an operator (`|`, `+`, `∨` for OR; `^`, `⊕`, `⊻` for XOR; `&`, `*`, `.`, `∧`,
/// `⋅`, `·`, `×` for AND; `~`, `-`, `¬`, `!` for NOT), each parenthesis and each constant (`0`, `1`) lexes as its one
/// token, wherever it stands: the text `a`, the character, then the text `b` lexes as the tokens of `a`, the token,
/// then the tokens of `b` (the first error of `a` or of `b` stays); alone, the character is that one token. (A
/// constant right after a `$` name would continue the name, so for a constant `a` does not end inside one.)
pub proof fn law_operator_spellings(a: Seq<char>, c: char, b: Seq<char>)
    requires
        symbol_token(c) is Some,
        is_name_char(c) ==> !dollar_tail(a),
    ensures
        lex(a + seq![c] + b) == glue(lex(a), cons(symbol_token(c)->0, lex(b))),
        lex(seq![c]) == Ok::<Seq<Lexeme>, Seq<char>>(seq![symbol_token(c)->0]),
{
    lemma_operator_spelling(a, c, b);
    assert(!dollar_tail(Seq::<char>::empty()));
    lemma_operator_spelling(Seq::empty(), c, Seq::empty());
    assert(Seq::<char>::empty() + seq![c] + Seq::<char>::empty() =~= seq![c]);
    assert(lex(Seq::<char>::empty()) == Ok::<Seq<Lexeme>, Seq<char>>(Seq::empty()));
    assert(Seq::<Lexeme>::empty() + (seq![symbol_token(c)->0] + Seq::<Lexeme>::empty()) =~= seq![
        symbol_token(c)->0,
    ]);
}

proof fn lemma_operator_spelling(a: Seq<char>, c: char, b: Seq<char>)
    requires
        symbol_token(c) is Some,
        is_name_char(c) ==> !dollar_tail(a),
    ensures
        lex(a + seq![c] + b) == glue(lex(a), cons(symbol_token(c)->0, lex(b))),
{
    let cb = seq![c] + b;
    assert(cb[0] == c);
    assert(c != OVERBAR && !is_white_space(c));
    assert(seam_ok(a, cb));
    lemma_lex_concat(a, cb, 0);
    assert(a + seq![c] + b =~= a + cb);
    lemma_lex_shift(seq![c], b, 0);
    assert(lex_from(cb, 1) == lex(b));
    assert(lex(cb) == cons(symbol_token(c)->0, lex_from(cb, 1)));
}

/// The Unicode `White_Space` characters, which Rust's `char::is_whitespace` accepts: tab, line feed, vertical tab,
/// form feed, carriage return, space, next line, no-break space, ogham space mark, the spaces from en quad to hair
/// space, line separator, paragraph separator, narrow no-break space, medium mathematical space and ideographic space.
pub open spec fn unicode_white_space(w: char) -> bool {
    ||| w == '\t' || w == '\n' || w == '\u{0B}' || w == '\u{0C}' || w == '\r' || w == ' '
    ||| w == '\u{85}' || w == '\u{A0}' || w == '\u{1680}'
    ||| ('\u{2000}' as u32) <= (w as u32) <= ('\u{200A}' as u32)
    ||| w == '\u{2028}' || w == '\u{2029}' || w == '\u{202F}' || w == '\u{205F}' || w == '\u{3000}'
}

/// Law: whitespace is a delimiter and otherwise ignored. The text `a`, one whitespace character, then the text `b`
/// lexes as the tokens of `a` followed by those of `b` (the first error of `a` or of `b` stays), whatever `a` and `b`
/// are: a name that reaches the end of `a` ends there, and an overbar that starts `b` follows no letter.
pub proof fn law_white_space_delimits(a: Seq<char>, w: char, b: Seq<char>)
    requires
        unicode_white_space(w),
    ensures
        lex(a + seq![w] + b) == glue(lex(a), lex(b)),
{
    let wb = seq![w] + b;
    assert(wb[0] == w);
    assert(w != OVERBAR && !is_name_char(w) && is_white_space(w));
    assert(seam_ok(a, wb));
    lemma_lex_concat(a, wb, 0);
    assert(a + seq![w] + b =~= a + wb);
    lemma_lex_shift(seq![w], b, 0);
    assert(lex(wb) == lex_from(wb, 1));
}

/// An ASCII letter, `a` to `z` or `A` to `Z`.
pub open spec fn ascii_letter(c: char) -> bool {
    ||| ('a' as u32) <= (c as u32) <= ('z' as u32)
    ||| ('A' as u32) <= (c as u32) <= ('Z' as u32)
}

/// A character that continues a `$` name: an ASCII letter, an ASCII digit or `_`.
pub open spec fn ascii_name_char(c: char) -> bool {
    ascii_letter(c) || ('0' as u32) <= (c as u32) <= ('9' as u32) || c == '_'
}

/// Law: a single ASCII letter is one variable, wherever it stands (outside a `$` name), and an overbar right after it
/// negates it: the text `a`, the letter, then the text `b` lexes as the tokens of `a`, the variable, then the tokens
/// of `b`; with an overbar after the letter, as the tokens of `a`, NOT, the variable, then the tokens of `b`.
pub proof fn law_letter_variable(a: Seq<char>, c: char, b: Seq<char>)
    requires
        ascii_letter(c),
        !dollar_tail(a),
    ensures
        b.len() == 0 || b[0] != OVERBAR ==> lex(a + seq![c] + b) == glue(lex(a), cons(Lexeme::Var(seq![c]), lex(b))),
        lex(a + seq![c, OVERBAR] + b) == glue(lex(a), cons(Lexeme::Not, cons(Lexeme::Var(seq![c]), lex(b)))),
{
    assert(crate::algebraic::is_letter(c) && is_name_char(c) && !is_white_space(c));
    if b.len() == 0 || b[0] != OVERBAR {
        let cb = seq![c] + b;
        assert(cb[0] == c);
        assert(seam_ok(a, cb));
        lemma_lex_concat(a, cb, 0);
        assert(a + seq![c] + b =~= a + cb);
        lemma_lex_shift(seq![c], b, 0);
        if b.len() > 0 {
            assert(cb[1] == b[0]);
        }
        assert(lex(cb) == cons(Lexeme::Var(seq![c]), lex_from(cb, 1)));
    }
    let co = seq![c, OVERBAR];
    let cob = co + b;
    assert(cob[0] == c && cob[1] == OVERBAR);
    assert(seam_ok(a, cob));
    lemma_lex_concat(a, cob, 0);
    assert(a + seq![c, OVERBAR] + b =~= a + cob);
    lemma_lex_shift(co, b, 0);
    assert(lex(cob) == cons(Lexeme::Not, cons(Lexeme::Var(seq![c]), lex_from(cob, 2))));
}

/// Law: `$` and a name that starts with an ASCII letter and goes on over ASCII letters, digits and `_` is one
/// variable with that name, wherever it stands, when no name character follows it: the text `a`, `$name`, then the
/// text `b` lexes as the tokens of `a`, the variable, then the tokens of `b`.
pub proof fn law_dollar_variable(a: Seq<char>, name: Seq<char>, b: Seq<char>)
    requires
        name.len() >= 1,
        ascii_letter(name[0]),
        forall|k: int| 0 <= k < name.len() ==> ascii_name_char(#[trigger] name[k]),
        b.len() == 0 || !ascii_name_char(b[0]),
    ensures
        lex(a + seq!['$'] + name + b) == glue(lex(a), cons(Lexeme::Var(name), lex(b))),
{
    let dn = seq!['$'] + name;
    let rest = dn + b;
    let e: int = name.len() as int + 1;
    assert(rest[0] == '$');
    assert(seam_ok(a, rest));
    lemma_lex_concat(a, rest, 0);
    assert(a + seq!['$'] + name + b =~= a + rest);
    assert forall|k: int| 1 <= k < e implies is_name_char(#[trigger] rest[k]) by {
        assert(rest[k] == name[k - 1]);
        assert(ascii_name_char(name[k - 1]));
    }
    if b.len() > 0 {
        assert(rest[e] == b[0]);
        assert(!is_name_char(rest[e]));
    }
    lemma_name_end(rest, 1);
    let j = crate::algebraic::name_end(rest, 1);
    if j < e {
        assert(is_name_char(rest[j]));
    }
    if j > e {
        assert(is_name_char(rest[e]));
    }
    assert(j == e);
    assert(rest[1] == name[0]);
    assert(crate::algebraic::is_letter(rest[1]));
    assert(rest.subrange(1, e) =~= name);
    lemma_lex_shift(dn, b, 0);
    assert(lex_from(rest, e) == lex(b));
    assert(lex(rest) == cons(Lexeme::Var(name), lex_from(rest, e)));
}

/// Law: a `$` must be followed by an ASCII letter: a `$` followed by any other character (`$0`, `$_`, `$ `, ...) is
/// refused, wherever it stands.
pub proof fn law_dollar_needs_letter(a: Seq<char>, d: char, b: Seq<char>)
    requires
        !ascii_letter(d),
    ensures
        lex(a + seq!['$', d] + b) is Err,
{
    let rest = seq!['$', d] + b;
    assert(rest[0] == '$' && rest[1] == d);
    assert(seam_ok(a, rest));
    lemma_lex_concat(a, rest, 0);
    assert(a + seq!['$', d] + b =~= a + rest);
    assert(!crate::algebraic::is_letter(d));
    lemma_name_end(rest, 1);
    assert(lex(rest) is Err);
}

// ----------------------------------------------------------------------------------------------------------------------
// OR and XOR chains.

/// The tokens of a chain of variables joined by OR and XOR: the names `u[idx[0]]`, `u[idx[1]]`, ..., with XOR
/// between operands `j` and `j + 1` where `xor[j]` holds and OR where it does not.
pub open spec fn chain_lexemes(u: Seq<Seq<char>>, idx: Seq<nat>, xor: Seq<bool>) -> Seq<Lexeme> {
    Seq::new(
        (2 * idx.len() - 1) as nat,
        |k: int|
            if k % 2 == 0 {
                Lexeme::Var(u[idx[k / 2] as int])
            } else if xor[k / 2] {
                Lexeme::Xor
            } else {
                Lexeme::Or
            },
    )
}

/// The left fold of the first `k` operands of a chain under the values `env` gives the names: the first operand's
/// value, then each operator applied in order to the result so far and the next operand's value.
pub open spec fn left_fold(
    env: spec_fn(Seq<char>) -> bool,
    u: Seq<Seq<char>>,
    idx: Seq<nat>,
    xor: Seq<bool>,
    k: nat,
) -> bool
    decreases k,
{
    if k <= 1 {
        env(u[idx[0] as int])
    } else {
        let acc = left_fold(env, u, idx, xor, (k - 1) as nat);
        let x = env(u[idx[k - 1] as int]);
        if xor[k - 2] {
            acc != x
        } else {
            acc || x
        }
    }
}

/// A chain whose operands are names among the distinct names `u`.
pub open spec fn chain_ok(u: Seq<Seq<char>>, idx: Seq<nat>, xor: Seq<bool>) -> bool {
    &&& u.no_duplicates()
    &&& u.len() <= MAX_VARIABLES
    &&& idx.len() >= 1
    &&& xor.len() + 1 == idx.len()
    &&& forall|i: int| 0 <= i < idx.len() ==> #[trigger] idx[i] < u.len()
}

/// Operand `k` of the chain reads as its variable, and stops before the operator after it.
proof fn lemma_chain_operand(
    u: Seq<Seq<char>>,
    idx: Seq<nat>,
    xor: Seq<bool>,
    k: int,
    t: Seq<Seq<char>>,
) -> (r: (Seq<Seq<char>>, nat))
    requires
        chain_ok(u, idx, xor),
        table_from(t, u),
        0 <= k < idx.len(),
    ensures
        and_spec(chain_lexemes(u, idx, xor), 2 * k, t) == Ok::<Parsed, crate::algebraic::Failure>(
            Parsed { formula: Formula::Var(r.1), pos: 2 * k + 1, names: r.0 },
        ),
        r.1 < r.0.len(),
        r.0[r.1 as int] == u[idx[k] as int],
        table_from(r.0, u),
        extends_table(r.0, t),
{
    let ts = chain_lexemes(u, idx, xor);
    let q = 2 * k;
    assert(idx[k] < u.len());
    assert(ts[q] == Lexeme::Var(u[idx[k] as int]));
    let r = lemma_register_name(t, u, idx[k]);
    let p = Parsed { formula: Formula::Var(r.1), pos: q + 1, names: r.0 };
    assert(primary_spec(ts, q, t) == Ok::<Parsed, crate::algebraic::Failure>(p));
    assert(not_spec(ts, q, t) == Ok::<Parsed, crate::algebraic::Failure>(p));
    if q + 1 < ts.len() {
        assert(ts[q + 1] is Or || ts[q + 1] is Xor);
    }
    assert(and_tail_spec(ts, q + 1, r.0, Formula::Var(r.1)) == Ok::<Parsed, crate::algebraic::Failure>(p));
    r
}

/// The OR/XOR tail of a chain from operator `k - 1` on, with `left` read for the first `k` operands, reads the whole
/// chain as its left fold.
proof fn lemma_chain_tail(
    u: Seq<Seq<char>>,
    idx: Seq<nat>,
    xor: Seq<bool>,
    env: spec_fn(Seq<char>) -> bool,
    k: nat,
    t: Seq<Seq<char>>,
    left: Formula,
) -> (r: (Formula, Seq<Seq<char>>))
    requires
        chain_ok(u, idx, xor),
        table_from(t, u),
        1 <= k <= idx.len(),
        formula_within(left, t.len()),
        left.holds(by_name(env, t)) == left_fold(env, u, idx, xor, k),
    ensures
        or_tail_spec(chain_lexemes(u, idx, xor), 2 * k - 1, t, left) == Ok::<Parsed, crate::algebraic::Failure>(
            Parsed { formula: r.0, pos: 2 * idx.len() - 1, names: r.1 },
        ),
        table_from(r.1, u),
        extends_table(r.1, t),
        formula_within(r.0, r.1.len()),
        r.0.holds(by_name(env, r.1)) == left_fold(env, u, idx, xor, idx.len()),
    decreases idx.len() - k,
{
    let ts = chain_lexemes(u, idx, xor);
    let pos = 2 * k - 1;
    if k == idx.len() {
        (left, t)
    } else {
        assert(ts[pos] == (if xor[k - 1] {
            Lexeme::Xor
        } else {
            Lexeme::Or
        }));
        let (t2, i) = lemma_chain_operand(u, idx, xor, k as int, t);
        lemma_extend_meaning(left, t, t2, env);
        let x = Formula::Var(i);
        let f = if xor[k - 1] {
            Formula::Xor(Box::new(left), Box::new(x))
        } else {
            Formula::Or(Box::new(left), Box::new(x))
        };
        assert(x.holds(by_name(env, t2)) == env(u[idx[k as int] as int]));
        assert(f.holds(by_name(env, t2)) == left_fold(env, u, idx, xor, k + 1));
        assert(formula_within(x, t2.len()));
        assert(formula_within(f, t2.len()));
        let r = lemma_chain_tail(u, idx, xor, env, k + 1, t2, f);
        assert(extends_table(r.1, t));
        r
    }
}

/// Law: OR and XOR share one left-associative tier. Text whose tokens are variables joined by OR and XOR tokens
/// (the chain of [`chain_lexemes`], its names among the distinct names `u`) parses, from any table built from `u`,
/// to a formula that holds, under the values `env` gives the names, exactly when the left fold of the operands does:
/// `x ^ y + z` means `(x xor y) or z`, and `x + y ^ z` means `(x or y) xor z`.
pub proof fn law_or_xor_left_fold(
    input: Seq<char>,
    u: Seq<Seq<char>>,
    idx: Seq<nat>,
    xor: Seq<bool>,
    t0: Seq<Seq<char>>,
    env: spec_fn(Seq<char>) -> bool,
)
    requires
        chain_ok(u, idx, xor),
        table_from(t0, u),
        lex(input) == Ok::<Seq<Lexeme>, Seq<char>>(chain_lexemes(u, idx, xor)),
    ensures
        algebraic_outcome(input, t0) matches Ok((f, t)) && f.holds(by_name(env, t)) == left_fold(
            env,
            u,
            idx,
            xor,
            idx.len(),
        ),
{
    let ts = chain_lexemes(u, idx, xor);
    let (t1, i0) = lemma_chain_operand(u, idx, xor, 0, t0);
    let x = Formula::Var(i0);
    assert(x.holds(by_name(env, t1)) == left_fold(env, u, idx, xor, 1));
    let r = lemma_chain_tail(u, idx, xor, env, 1, t1, x);
    assert(or_xor_spec(ts, 0, t0) == Ok::<Parsed, crate::algebraic::Failure>(
        Parsed { formula: r.0, pos: ts.len() as int, names: r.1 },
    ));
}

// ----------------------------------------------------------------------------------------------------------------------
// Sums of products.

/// Where literal `m` of a product stands from the product's first token: every token when the variables are
/// juxtaposed, every other token when an explicit AND stands between them.
pub open spec fn literal_offset(m: int, jux: bool) -> int {
    if jux {
        m
    } else {
        2 * m
    }
}

/// The number of tokens of a product of `n` variables.
pub open spec fn product_len(n: int, jux: bool) -> int {
    if jux {
        n
    } else {
        2 * n - 1
    }
}

/// The position just after product `j` of a layout.
pub open spec fn product_end(starts: Seq<int>, ps: Seq<Seq<nat>>, jux: bool, j: int) -> int {
    starts[j] + product_len(ps[j].len() as int, jux)
}

/// The tokens `ts` are products of variables joined by OR and XOR: product `j` starts at `starts[j]` and is the
/// variables `u[ps[j][0]]`, `u[ps[j][1]]`, ..., juxtaposed where `jux` holds and with an AND between two of them where
/// it does not; XOR stands between products `j` and `j + 1` where `xor[j]` holds and OR where it does not.
pub open spec fn products_layout(
    ts: Seq<Lexeme>,
    u: Seq<Seq<char>>,
    ps: Seq<Seq<nat>>,
    xor: Seq<bool>,
    jux: bool,
    starts: Seq<int>,
) -> bool {
    &&& ps.len() >= 1
    &&& starts.len() == ps.len()
    &&& xor.len() + 1 == ps.len()
    &&& starts[0] == 0
    &&& forall|j: int| 0 <= j < ps.len() ==> (#[trigger] ps[j]).len() >= 1
    &&& forall|j: int|
        0 <= j < ps.len() - 1 ==> starts[j + 1] == #[trigger] product_end(starts, ps, jux, j) + 1 && ts[product_end(
            starts,
            ps,
            jux,
            j,
        )] == (if xor[j] {
            Lexeme::Xor
        } else {
            Lexeme::Or
        })
    &&& product_end(starts, ps, jux, ps.len() - 1) == ts.len()
    &&& forall|j: int, m: int|
        0 <= j < ps.len() && 0 <= m < ps[j].len() ==> #[trigger] ps[j][m] < u.len() && ts[starts[j] + literal_offset(
            m,
            jux,
        )] == Lexeme::Var(u[ps[j][m] as int])
    &&& !jux ==> forall|j: int, m: int|
        0 <= j < ps.len() && 0 <= m < ps[j].len() - 1 ==> #[trigger] ts[starts[j] + 2 * m + 1] == Lexeme::And
}

/// The value of the first `m` variables of the product `p` under the values `env` gives the names: their AND.
pub open spec fn product_value(env: spec_fn(Seq<char>) -> bool, u: Seq<Seq<char>>, p: Seq<nat>, m: nat) -> bool
    decreases m,
{
    if m == 0 {
        true
    } else {
        product_value(env, u, p, (m - 1) as nat) && env(u[p[m - 1] as int])
    }
}

/// The left fold of the values of the first `k` products, each operator applied in order to the result so far and the
/// next product's value.
pub open spec fn sum_fold(
    env: spec_fn(Seq<char>) -> bool,
    u: Seq<Seq<char>>,
    ps: Seq<Seq<nat>>,
    xor: Seq<bool>,
    k: nat,
) -> bool
    decreases k,
{
    let last = product_value(env, u, ps[k - 1], ps[k - 1].len());
    if k <= 1 {
        product_value(env, u, ps[0], ps[0].len())
    } else {
        let acc = sum_fold(env, u, ps, xor, (k - 1) as nat);
        if xor[k - 2] {
            acc != last
        } else {
            acc || last
        }
    }
}

/// The products end in order, the last at the end of the tokens.
proof fn lemma_product_ends(
    ts: Seq<Lexeme>,
    u: Seq<Seq<char>>,
    ps: Seq<Seq<nat>>,
    xor: Seq<bool>,
    jux: bool,
    starts: Seq<int>,
    j: int,
)
    requires
        products_layout(ts, u, ps, xor, jux, starts),
        0 <= j < ps.len(),
    ensures
        starts[j] < product_end(starts, ps, jux, j) <= ts.len(),
        0 <= starts[j],
    decreases ps.len() - j,
{
    assert(ps[j].len() >= 1);
    if j + 1 < ps.len() {
        lemma_product_ends(ts, u, ps, xor, jux, starts, j + 1);
        assert(starts[j + 1] == product_end(starts, ps, jux, j) + 1);
    }
    if j > 0 {
        lemma_product_starts(ts, u, ps, xor, jux, starts, j);
    }
}

/// Every product starts at or after the start of the tokens.
proof fn lemma_product_starts(
    ts: Seq<Lexeme>,
    u: Seq<Seq<char>>,
    ps: Seq<Seq<nat>>,
    xor: Seq<bool>,
    jux: bool,
    starts: Seq<int>,
    j: int,
)
    requires
        products_layout(ts, u, ps, xor, jux, starts),
        0 <= j < ps.len(),
    ensures
        0 <= starts[j],
    decreases j,
{
    if j > 0 {
        lemma_product_starts(ts, u, ps, xor, jux, starts, j - 1);
        assert(ps[j - 1].len() >= 1);
        assert(starts[j] == product_end(starts, ps, jux, j - 1) + 1);
    }
}

/// The AND tail of product `j` after its first `m` variables, with `left` read for them, reads the whole product as
/// the AND of its variables and stops at its end.
proof fn lemma_product_tail(
    ts: Seq<Lexeme>,
    u: Seq<Seq<char>>,
    ps: Seq<Seq<nat>>,
    xor: Seq<bool>,
    jux: bool,
    starts: Seq<int>,
    env: spec_fn(Seq<char>) -> bool,
    j: int,
    m: int,
    t: Seq<Seq<char>>,
    left: Formula,
) -> (r: (Formula, Seq<Seq<char>>))
    requires
        products_layout(ts, u, ps, xor, jux, starts),
        u.no_duplicates(),
        u.len() <= MAX_VARIABLES,
        table_from(t, u),
        0 <= j < ps.len(),
        1 <= m <= ps[j].len(),
        formula_within(left, t.len()),
        left.holds(by_name(env, t)) == product_value(env, u, ps[j], m as nat),
    ensures
        and_tail_spec(ts, starts[j] + literal_offset(m - 1, jux) + 1, t, left) == Ok::<
            Parsed,
            crate::algebraic::Failure,
        >(Parsed { formula: r.0, pos: product_end(starts, ps, jux, j), names: r.1 }),
        table_from(r.1, u),
        extends_table(r.1, t),
        formula_within(r.0, r.1.len()),
        r.0.holds(by_name(env, r.1)) == product_value(env, u, ps[j], ps[j].len()),
    decreases ps[j].len() - m,
{
    let q = starts[j] + literal_offset(m - 1, jux) + 1;
    let len = ps[j].len() as int;
    lemma_product_ends(ts, u, ps, xor, jux, starts, j);
    if m == len {
        assert(q == product_end(starts, ps, jux, j));
        if j + 1 < ps.len() {
            assert(ts[q] is Or || ts[q] is Xor);
        }
        (left, t)
    } else {
        let start = starts[j] + literal_offset(m, jux);
        assert(ps[j][m] < u.len() && ts[start] == Lexeme::Var(u[ps[j][m] as int]));
        if !jux {
            assert(ps[j][m - 1] < u.len());
            assert(ts[starts[j] + 2 * (m - 1) + 1] == Lexeme::And);
            assert(ts[q] == Lexeme::And);
        }
        let (t2, i) = lemma_register_name(t, u, ps[j][m]);
        let x = Formula::Var(i);
        let p = Parsed { formula: x, pos: start + 1, names: t2 };
        assert(primary_spec(ts, start, t) == Ok::<Parsed, crate::algebraic::Failure>(p));
        assert(not_spec(ts, start, t) == Ok::<Parsed, crate::algebraic::Failure>(p));
        lemma_extend_meaning(left, t, t2, env);
        let f = Formula::And(Box::new(left), Box::new(x));
        assert(x.holds(by_name(env, t2)) == env(u[ps[j][m] as int]));
        assert(f.holds(by_name(env, t2)) == product_value(env, u, ps[j], (m + 1) as nat));
        assert(formula_within(x, t2.len()));
        assert(formula_within(f, t2.len()));
        assert(start + 1 == starts[j] + literal_offset(m, jux) + 1);
        let r = lemma_product_tail(ts, u, ps, xor, jux, starts, env, j, m + 1, t2, f);
        assert(extends_table(r.1, t));
        r
    }
}

/// Product `j` reads as the AND of its variables and stops at its end.
proof fn lemma_product(
    ts: Seq<Lexeme>,
    u: Seq<Seq<char>>,
    ps: Seq<Seq<nat>>,
    xor: Seq<bool>,
    jux: bool,
    starts: Seq<int>,
    env: spec_fn(Seq<char>) -> bool,
    j: int,
    t: Seq<Seq<char>>,
) -> (r: (Formula, Seq<Seq<char>>))
    requires
        products_layout(ts, u, ps, xor, jux, starts),
        u.no_duplicates(),
        u.len() <= MAX_VARIABLES,
        table_from(t, u),
        0 <= j < ps.len(),
    ensures
        and_spec(ts, starts[j], t) == Ok::<Parsed, crate::algebraic::Failure>(
            Parsed { formula: r.0, pos: product_end(starts, ps, jux, j), names: r.1 },
        ),
        table_from(r.1, u),
        extends_table(r.1, t),
        formula_within(r.0, r.1.len()),
        r.0.holds(by_name(env, r.1)) == product_value(env, u, ps[j], ps[j].len()),
{
    let s0 = starts[j];
    lemma_product_ends(ts, u, ps, xor, jux, starts, j);
    assert(ps[j].len() >= 1);
    assert(ps[j][0] < u.len() && ts[s0 + literal_offset(0, jux)] == Lexeme::Var(u[ps[j][0] as int]));
    assert(s0 + literal_offset(0, jux) == s0);
    let (t1, i) = lemma_register_name(t, u, ps[j][0]);
    let x = Formula::Var(i);
    let p = Parsed { formula: x, pos: s0 + 1, names: t1 };
    assert(primary_spec(ts, s0, t) == Ok::<Parsed, crate::algebraic::Failure>(p));
    assert(not_spec(ts, s0, t) == Ok::<Parsed, crate::algebraic::Failure>(p));
    assert(x.holds(by_name(env, t1)) == product_value(env, u, ps[j], 1)) by {
        assert(product_value(env, u, ps[j], 0));
    }
    assert(formula_within(x, t1.len()));
    let r = lemma_product_tail(ts, u, ps, xor, jux, starts, env, j, 1, t1, x);
    assert(extends_table(r.1, t));
    r
}

/// The OR/XOR tail of a sum after its first `k` products, with `left` read for them, reads the whole sum as the left
/// fold of the products' values.
proof fn lemma_sum_tail(
    ts: Seq<Lexeme>,
    u: Seq<Seq<char>>,
    ps: Seq<Seq<nat>>,
    xor: Seq<bool>,
    jux: bool,
    starts: Seq<int>,
    env: spec_fn(Seq<char>) -> bool,
    k: int,
    t: Seq<Seq<char>>,
    left: Formula,
) -> (r: (Formula, Seq<Seq<char>>))
    requires
        products_layout(ts, u, ps, xor, jux, starts),
        u.no_duplicates(),
        u.len() <= MAX_VARIABLES,
        table_from(t, u),
        1 <= k <= ps.len(),
        formula_within(left, t.len()),
        left.holds(by_name(env, t)) == sum_fold(env, u, ps, xor, k as nat),
    ensures
        or_tail_spec(ts, product_end(starts, ps, jux, k - 1), t, left) == Ok::<Parsed, crate::algebraic::Failure>(
            Parsed { formula: r.0, pos: ts.len() as int, names: r.1 },
        ),
        table_from(r.1, u),
        extends_table(r.1, t),
        formula_within(r.0, r.1.len()),
        r.0.holds(by_name(env, r.1)) == sum_fold(env, u, ps, xor, ps.len()),
    decreases ps.len() - k,
{
    let pos = product_end(starts, ps, jux, k - 1);
    if k == ps.len() {
        (left, t)
    } else {
        lemma_product_ends(ts, u, ps, xor, jux, starts, k - 1);
        lemma_product_ends(ts, u, ps, xor, jux, starts, k);
        assert(starts[k] == pos + 1);
        assert(ts[pos] == (if xor[k - 1] {
            Lexeme::Xor
        } else {
            Lexeme::Or
        }));
        let (g, t2) = lemma_product(ts, u, ps, xor, jux, starts, env, k, t);
        lemma_extend_meaning(left, t, t2, env);
        let f = if xor[k - 1] {
            Formula::Xor(Box::new(left), Box::new(g))
        } else {
            Formula::Or(Box::new(left), Box::new(g))
        };
        assert(f.holds(by_name(env, t2)) == sum_fold(env, u, ps, xor, (k + 1) as nat));
        assert(formula_within(f, t2.len()));
        let r = lemma_sum_tail(ts, u, ps, xor, jux, starts, env, k + 1, t2, f);
        assert(extends_table(r.1, t));
        r
    }
}

/// Law: AND binds tighter than OR and XOR, which share one left-associative tier. Text whose tokens are products of
/// variables (juxtaposed, or with an explicit AND between two of them) joined by OR and XOR tokens, laid out as
/// [`products_layout`] says with the names among the distinct names `u`, parses, from any table built from `u`, to a
/// formula that holds, under the values `env` gives the names, exactly when the left fold of the products' values
/// does, each product's value the AND of its variables: `a b ^ c` means `(a and b) xor c`, and `a ^ b c + d` means
/// `(a xor (b and c)) or d`.
pub proof fn law_sum_of_products(
    input: Seq<char>,
    ts: Seq<Lexeme>,
    u: Seq<Seq<char>>,
    ps: Seq<Seq<nat>>,
    xor: Seq<bool>,
    jux: bool,
    starts: Seq<int>,
    t0: Seq<Seq<char>>,
    env: spec_fn(Seq<char>) -> bool,
)
    requires
        u.no_duplicates(),
        u.len() <= MAX_VARIABLES,
        table_from(t0, u),
        products_layout(ts, u, ps, xor, jux, starts),
        lex(input) == Ok::<Seq<Lexeme>, Seq<char>>(ts),
    ensures
        algebraic_outcome(input, t0) matches Ok((f, t)) && f.holds(by_name(env, t)) == sum_fold(
            env,
            u,
            ps,
            xor,
            ps.len(),
        ),
{
    lemma_product_ends(ts, u, ps, xor, jux, starts, 0);
    let (f0, t1) = lemma_product(ts, u, ps, xor, jux, starts, env, 0, t0);
    let r = lemma_sum_tail(ts, u, ps, xor, jux, starts, env, 1, t1, f0);
    assert(or_xor_spec(ts, 0, t0) == Ok::<Parsed, crate::algebraic::Failure>(
        Parsed { formula: r.0, pos: ts.len() as int, names: r.1 },
    ));
}

// ----------------------------------------------------------------------------------------------------------------------
// Where a parse stops.

/// A token that can end an operand: a variable, a constant or a closing parenthesis.
pub open spec fn ends_operand(l: Lexeme) -> bool {
    l is Var || l is Const || l is RParen
}

/// A successful parse from `pos` reads at least one token and stops right after one that ends an operand.
pub open spec fn stops_after_operand(ts: Seq<Lexeme>, pos: int, o: crate::algebraic::Outcome) -> bool {
    o matches Ok(p) ==> pos < p.pos <= ts.len() && ends_operand(ts[p.pos - 1])
}

/// A successful tail parse from `pos` either reads nothing or stops right after a token that ends an operand.
pub open spec fn tail_stops_after_operand(ts: Seq<Lexeme>, pos: int, o: crate::algebraic::Outcome) -> bool {
    o matches Ok(p) ==> p.pos == pos || (pos < p.pos <= ts.len() && ends_operand(ts[p.pos - 1]))
}

proof fn lemma_or_xor_stops(ts: Seq<Lexeme>, pos: int, names: Seq<Seq<char>>)
    ensures
        stops_after_operand(ts, pos, or_xor_spec(ts, pos, names)),
    decreases ts.len() - pos, 5int,
{
    lemma_and_stops(ts, pos, names);
    if let Ok(p) = and_spec(ts, pos, names) {
        if pos < p.pos <= ts.len() {
            lemma_or_tail_stops(ts, p.pos, p.names, p.formula);
        }
    }
}

proof fn lemma_or_tail_stops(ts: Seq<Lexeme>, pos: int, names: Seq<Seq<char>>, left: Formula)
    ensures
        tail_stops_after_operand(ts, pos, or_tail_spec(ts, pos, names, left)),
    decreases ts.len() - pos, 4int,
{
    if 0 <= pos < ts.len() && (ts[pos] is Or || ts[pos] is Xor) {
        lemma_and_stops(ts, pos + 1, names);
        if let Ok(p) = and_spec(ts, pos + 1, names) {
            let f = if ts[pos] is Or {
                Formula::Or(Box::new(left), Box::new(p.formula))
            } else {
                Formula::Xor(Box::new(left), Box::new(p.formula))
            };
            if pos < p.pos <= ts.len() {
                lemma_or_tail_stops(ts, p.pos, p.names, f);
            }
        }
    }
}

proof fn lemma_and_stops(ts: Seq<Lexeme>, pos: int, names: Seq<Seq<char>>)
    ensures
        stops_after_operand(ts, pos, and_spec(ts, pos, names)),
    decreases ts.len() - pos, 3int,
{
    lemma_not_stops(ts, pos, names);
    if let Ok(p) = not_spec(ts, pos, names) {
        if pos < p.pos <= ts.len() {
            lemma_and_tail_stops(ts, p.pos, p.names, p.formula);
        }
    }
}

proof fn lemma_and_tail_stops(ts: Seq<Lexeme>, pos: int, names: Seq<Seq<char>>, left: Formula)
    ensures
        tail_stops_after_operand(ts, pos, and_tail_spec(ts, pos, names, left)),
    decreases ts.len() - pos, 2int,
{
    if 0 <= pos < ts.len() && (ts[pos] is And || crate::algebraic::starts_factor(ts[pos])) {
        let start = if ts[pos] is And {
            pos + 1
        } else {
            pos
        };
        lemma_not_stops(ts, start, names);
        if let Ok(p) = not_spec(ts, start, names) {
            let f = Formula::And(Box::new(left), Box::new(p.formula));
            if pos < p.pos <= ts.len() {
                lemma_and_tail_stops(ts, p.pos, p.names, f);
            }
        }
    }
}

proof fn lemma_not_stops(ts: Seq<Lexeme>, pos: int, names: Seq<Seq<char>>)
    ensures
        stops_after_operand(ts, pos, not_spec(ts, pos, names)),
    decreases ts.len() - pos, 1int,
{
    if 0 <= pos < ts.len() && ts[pos] is Not {
        lemma_not_stops(ts, pos + 1, names);
    } else {
        lemma_primary_stops(ts, pos, names);
    }
}

proof fn lemma_primary_stops(ts: Seq<Lexeme>, pos: int, names: Seq<Seq<char>>)
    ensures
        stops_after_operand(ts, pos, primary_spec(ts, pos, names)),
    decreases ts.len() - pos, 0int,
{
    if 0 <= pos < ts.len() {
        if ts[pos] is LParen {
            lemma_or_xor_stops(ts, pos + 1, names);
        }
    }
}

/// Law: a text whose last token cannot end an operand (an operator or an opening parenthesis, as in `a +`, `a &`,
/// `a ^ ~` or `a (`) is refused, whatever table it is parsed with.
pub proof fn law_dangling_operator_refused(input: Seq<char>, names: Seq<Seq<char>>)
    requires
        lex(input) matches Ok(ts) && ts.len() > 0 && !ends_operand(ts.last()),
    ensures
        algebraic_outcome(input, names) is Err,
{
    let ts = lex(input)->Ok_0;
    lemma_or_xor_stops(ts, 0, names);
}

} // verus!
