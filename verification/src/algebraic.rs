//! Algebraic parser: an algebraic boolean expression -> DNF [`Expression`].
//!
//! This is the input-side counterpart to [`Expression::to_algebraic`]. A tokenizing pass turns the source text into
//! [`Token`]s, then a recursive descent ([`parse_algebraic`]) builds an [`Expression`] directly in DNF by reusing the
//! boolean algebra on [`Expression`] (`|` ORs product terms, `&` distributes, [`Expression::inverse`] applies De
//! Morgan), exactly like the JsonLogic [`converter`](crate::converter).
//!
//! # Syntax
//!
//! - **and** — `&`, `*`, `.`, `∧`, `⋅`, `·`, `×`, or *juxtaposition* (two adjacent operands, e.g. `ab` = `a & b`),
//! - **or** — `|`, `+`, `∨`,
//! - **xor** — `^`, `⊕`, `⊻`,
//! - **not** — `~`, `-`, `¬`, `!` (all prefix), or a combining overbar `\u{0305}` *immediately following a
//!   single-letter variable*
//! - **parentheses** — `(` and `)`,
//! - **constants** — `1` (true) and `0` (false),
//! - **variables** — a single ASCII letter is one variable; a `$` introduces a multi-character name continuing over
//!   `[0-9a-zA-Z_]` (e.g. `$velocity`).
//!
//! Whitespace is a delimiter but otherwise ignored. Precedence, tightest first: `not`, then `and`, then `or`/`xor`
//! (which share one left-associative tier).
//!
//! The specification reads the same way: [`lex`] says which tokens (or which error) a text gives, the `*_spec`
//! functions are the grammar, each building the [`Formula`] that the parser's algebra evaluates, and
//! [`algebraic_outcome`] puts them together.

use core::ops::{BitAndAssign, BitOrAssign};

use vstd::prelude::*;

use crate::formula::Formula;
use crate::model::{all_wf, no_false, tidy_all};
use crate::text::{char_debug, char_debug_text, chars_of};
use crate::variable_table::{register, VariableTable};
use crate::Expression;

verus! {

/// Combining overbar (U+0305): a postfix negation when it follows a single letter (`a\u{0305}` = `!a`).
pub const OVERBAR: char = '\u{0305}';

// ----------------------------------------------------------------------------------------------------------------------
// Characters.

/// The Unicode `White_Space` characters (what `char::is_whitespace` accepts).
pub open spec fn is_white_space(c: char) -> bool {
    let u = c as u32;
    ||| 0x9 <= u <= 0xd
    ||| u == 0x20
    ||| u == 0x85
    ||| u == 0xa0
    ||| u == 0x1680
    ||| 0x2000 <= u <= 0x200a
    ||| u == 0x2028
    ||| u == 0x2029
    ||| u == 0x202f
    ||| u == 0x205f
    ||| u == 0x3000
}

/// An ASCII letter.
pub open spec fn is_letter(c: char) -> bool {
    let u = c as u32;
    (0x41 <= u <= 0x5a) || (0x61 <= u <= 0x7a)
}

/// A character that continues a `$` name: `[0-9a-zA-Z_]`.
pub open spec fn is_name_char(c: char) -> bool {
    let u = c as u32;
    is_letter(c) || (0x30 <= u <= 0x39) || c == '_'
}

/// An OR operator.
pub open spec fn is_or_char(c: char) -> bool {
    c == '|' || c == '+' || c == '\u{2228}'
}

/// An XOR operator.
pub open spec fn is_xor_char(c: char) -> bool {
    c == '^' || c == '\u{2295}' || c == '\u{22BB}'
}

/// An explicit AND operator.
pub open spec fn is_and_char(c: char) -> bool {
    c == '&' || c == '*' || c == '.' || c == '\u{2227}' || c == '\u{22C5}' || c == '\u{00B7}' || c == '\u{00D7}'
}

/// A prefix NOT operator.
pub open spec fn is_not_char(c: char) -> bool {
    c == '~' || c == '-' || c == '\u{00AC}' || c == '!'
}

fn white_space(c: char) -> (r: bool)
    ensures
        r == is_white_space(c),
{
    let u = c as u32;
    (0x9 <= u && u <= 0xd) || u == 0x20 || u == 0x85 || u == 0xa0 || u == 0x1680 || (0x2000 <= u && u <= 0x200a)
        || u == 0x2028 || u == 0x2029 || u == 0x202f || u == 0x205f || u == 0x3000
}

pub(crate) fn letter(c: char) -> (r: bool)
    ensures
        r == is_letter(c),
{
    let u = c as u32;
    (0x41 <= u && u <= 0x5a) || (0x61 <= u && u <= 0x7a)
}

fn name_char(c: char) -> (r: bool)
    ensures
        r == is_name_char(c),
{
    let u = c as u32;
    letter(c) || (0x30 <= u && u <= 0x39) || c == '_'
}

// ----------------------------------------------------------------------------------------------------------------------
// Tokens.

/// What a token stands for, in the specification.
pub enum Lexeme {
    LParen,
    RParen,
    Or,
    Xor,
    And,
    Not,
    Var(Seq<char>),
    Const(bool),
}

/// A lexical token of the algebraic syntax.
#[derive(Clone, Debug, PartialEq, Eq)]
pub enum Token {
    LParen,
    RParen,
    Or,
    Xor,
    And,
    Not,
    Var(String),
    Const(bool),
}

impl View for Token {
    type V = Lexeme;

    open spec fn view(&self) -> Lexeme {
        match self {
            Token::LParen => Lexeme::LParen,
            Token::RParen => Lexeme::RParen,
            Token::Or => Lexeme::Or,
            Token::Xor => Lexeme::Xor,
            Token::And => Lexeme::And,
            Token::Not => Lexeme::Not,
            Token::Var(name) => Lexeme::Var(name@),
            Token::Const(b) => Lexeme::Const(*b),
        }
    }
}

/// The lexemes of a token sequence.
pub open spec fn lexemes(ts: Seq<Token>) -> Seq<Lexeme> {
    ts.map_values(|t: Token| t@)
}

/// The text of the error for a `$` that starts no name.
pub open spec fn dollar_message() -> Seq<char> {
    "'$' must be followed by an identifier character [0-9a-zA-Z_]"@
}

/// The text of the error for a `$` name that starts with a digit or `_`.
pub open spec fn dollar_letter_message() -> Seq<char> {
    "a '$' name must start with a letter [a-zA-Z]"@
}

/// The text of the error for an overbar that follows no single letter.
pub open spec fn overbar_message() -> Seq<char> {
    "overbar "@ + char_debug_text(OVERBAR) + " may only follow a single-letter variable"@
}

/// The text of the error for a character that the syntax does not know.
pub open spec fn unexpected_char_message(c: char) -> Seq<char> {
    "unexpected character "@ + char_debug_text(c) + " in algebraic expression"@
}

/// The end of the run of name characters of `s` that starts at `j`.
pub open spec fn name_end(s: Seq<char>, j: int) -> int
    decreases s.len() - j,
{
    if 0 <= j < s.len() && is_name_char(s[j]) {
        name_end(s, j + 1)
    } else {
        j
    }
}

pub proof fn lemma_name_end(s: Seq<char>, j: int)
    requires
        0 <= j <= s.len(),
    ensures
        j <= name_end(s, j) <= s.len(),
        forall|k: int| j <= k < name_end(s, j) ==> is_name_char(#[trigger] s[k]),
        name_end(s, j) < s.len() ==> !is_name_char(s[name_end(s, j)]),
    decreases s.len() - j,
{
    if j < s.len() && is_name_char(s[j]) {
        lemma_name_end(s, j + 1);
    }
}

/// `t` followed by the tokens of `r` (an error stays as it is).
pub open spec fn cons(t: Lexeme, r: Result<Seq<Lexeme>, Seq<char>>) -> Result<Seq<Lexeme>, Seq<char>> {
    match r {
        Ok(ts) => Ok(seq![t] + ts),
        Err(m) => Err(m),
    }
}

/// The tokens of `s` from position `i` on, or the first lexical error there.
pub open spec fn lex_from(s: Seq<char>, i: int) -> Result<Seq<Lexeme>, Seq<char>>
    decreases s.len() - i,
{
    if i < 0 || i >= s.len() {
        Ok(Seq::empty())
    } else {
        let c = s[i];
        if is_white_space(c) {
            lex_from(s, i + 1)
        } else if c == '(' {
            cons(Lexeme::LParen, lex_from(s, i + 1))
        } else if c == ')' {
            cons(Lexeme::RParen, lex_from(s, i + 1))
        } else if is_or_char(c) {
            cons(Lexeme::Or, lex_from(s, i + 1))
        } else if is_xor_char(c) {
            cons(Lexeme::Xor, lex_from(s, i + 1))
        } else if is_and_char(c) {
            cons(Lexeme::And, lex_from(s, i + 1))
        } else if is_not_char(c) {
            cons(Lexeme::Not, lex_from(s, i + 1))
        } else if c == '0' {
            cons(Lexeme::Const(false), lex_from(s, i + 1))
        } else if c == '1' {
            cons(Lexeme::Const(true), lex_from(s, i + 1))
        } else if c == '$' {
            let j = name_end(s, i + 1);
            proof {
                lemma_name_end(s, i + 1);
            }
            if j == i + 1 {
                Err(dollar_message())
            } else if !is_letter(s[i + 1]) {
                Err(dollar_letter_message())
            } else {
                cons(Lexeme::Var(s.subrange(i + 1, j)), lex_from(s, j))
            }
        } else if is_letter(c) {
            if i + 1 < s.len() && s[i + 1] == OVERBAR {
                cons(Lexeme::Not, cons(Lexeme::Var(seq![c]), lex_from(s, i + 2)))
            } else {
                cons(Lexeme::Var(seq![c]), lex_from(s, i + 1))
            }
        } else if c == OVERBAR {
            Err(overbar_message())
        } else {
            Err(unexpected_char_message(c))
        }
    }
}

/// The tokens of the text `s`, or its first lexical error.
pub open spec fn lex(s: Seq<char>) -> Result<Seq<Lexeme>, Seq<char>> {
    lex_from(s, 0)
}

/// The tokens `p` followed by the tokens of `r` (an error stays as it is).
pub open spec fn prefixed(p: Seq<Lexeme>, r: Result<Seq<Lexeme>, Seq<char>>) -> Result<Seq<Lexeme>, Seq<char>> {
    match r {
        Ok(ts) => Ok(p + ts),
        Err(m) => Err(m),
    }
}

proof fn lemma_prefixed_cons(p: Seq<Lexeme>, t: Lexeme, r: Result<Seq<Lexeme>, Seq<char>>)
    ensures
        prefixed(p, cons(t, r)) == prefixed(p.push(t), r),
{
    if let Ok(ts) = r {
        assert(p + (seq![t] + ts) =~= p.push(t) + ts);
    }
}

/// Appends the characters `s[from..to]` to a new string.
fn string_of(s: &Vec<char>, from: usize, to: usize) -> (r: String)
    requires
        from <= to <= s.len(),
    ensures
        r@ == s@.subrange(from as int, to as int),
{
    let mut r = String::new();
    let mut k = from;
    while k < to
        invariant
            from <= k <= to <= s.len(),
            r@ == s@.subrange(from as int, k as int),
        decreases to - k,
    {
        r.push(s[k]);
        proof {
            assert(s@.subrange(from as int, k + 1) =~= s@.subrange(from as int, k as int).push(s@[k as int]));
        }
        k += 1;
    }
    r
}

/// Splits algebraic source text into [`Token`]s.
///
/// # Errors
///
/// Returns `Err` on a bare `$` with no following identifier character, a `$` name that starts with a digit or `_`
/// (such as `$0` or `$_`), a combining overbar (`\u{0305}`) that does not
/// immediately follow a single-letter variable, or any character that is not whitespace, an operator, a parenthesis,
/// `0`/`1`, an ASCII letter, or `$` (notably the digits `2`–`9`).
pub fn tokenize(input: &str) -> (r: Result<Vec<Token>, String>)
    ensures
        match lex(input@) {
            Ok(ls) => r matches Ok(ts) && lexemes(ts@) == ls,
            Err(m) => r matches Err(e) && e@ == m,
        },
{
    let s = chars_of(input);
    let mut tokens: Vec<Token> = Vec::new();
    let mut i: usize = 0;
    proof {
        assert(lexemes(tokens@) =~= Seq::<Lexeme>::empty());
        assert(prefixed(Seq::empty(), lex_from(s@, 0)) == lex_from(s@, 0)) by {
            if let Ok(ts) = lex_from(s@, 0) {
                assert(Seq::<Lexeme>::empty() + ts =~= ts);
            }
        }
    }
    while i < s.len()
        invariant
            i <= s.len(),
            s@ == input@,
            lex(input@) == prefixed(lexemes(tokens@), lex_from(s@, i as int)),
        decreases s.len() - i,
    {
        let c = s[i];
        let ghost p = lexemes(tokens@);
        let ghost before = tokens@;
        if white_space(c) {
            i += 1;
            continue;
        }
        let t: Token;
        if c == '(' {
            t = Token::LParen;
        } else if c == ')' {
            t = Token::RParen;
        } else if c == '|' || c == '+' || c == '\u{2228}' {
            t = Token::Or;
        } else if c == '^' || c == '\u{2295}' || c == '\u{22BB}' {
            t = Token::Xor;
        } else if c == '&' || c == '*' || c == '.' || c == '\u{2227}' || c == '\u{22C5}' || c == '\u{00B7}' || c
            == '\u{00D7}' {
            t = Token::And;
        } else if c == '~' || c == '-' || c == '\u{00AC}' || c == '!' {
            t = Token::Not;
        } else if c == '0' {
            t = Token::Const(false);
        } else if c == '1' {
            t = Token::Const(true);
        } else if c == '$' {
            let mut j = i + 1;
            proof {
                lemma_name_end(s@, i + 1);
            }
            while j < s.len() && name_char(s[j])
                invariant
                    i + 1 <= j <= s.len(),
                    name_end(s@, i + 1) == name_end(s@, j as int),
                decreases s.len() - j,
            {
                j += 1;
            }
            if j == i + 1 {
                let e = String::from_str("'$' must be followed by an identifier character [0-9a-zA-Z_]");
                proof {
                    reveal_strlit("'$' must be followed by an identifier character [0-9a-zA-Z_]");
                }
                return Err(e);
            }
            if !letter(s[i + 1]) {
                let e = String::from_str("a '$' name must start with a letter [a-zA-Z]");
                proof {
                    reveal_strlit("a '$' name must start with a letter [a-zA-Z]");
                }
                return Err(e);
            }
            let name = string_of(&s, i + 1, j);
            tokens.push(Token::Var(name));
            proof {
                assert(lexemes(tokens@) =~= p.push(Lexeme::Var(s@.subrange(i + 1, j as int))));
                lemma_prefixed_cons(p, Lexeme::Var(s@.subrange(i + 1, j as int)), lex_from(s@, j as int));
            }
            i = j;
            continue;
        } else if letter(c) {
            let mut single = String::new();
            single.push(c);
            if i + 1 < s.len() && s[i + 1] == OVERBAR {
                tokens.push(Token::Not);
                tokens.push(Token::Var(single));
                proof {
                    assert(lexemes(tokens@) =~= p.push(Lexeme::Not).push(Lexeme::Var(seq![c])));
                    lemma_prefixed_cons(p, Lexeme::Not, cons(Lexeme::Var(seq![c]), lex_from(s@, i + 2)));
                    lemma_prefixed_cons(p.push(Lexeme::Not), Lexeme::Var(seq![c]), lex_from(s@, i + 2));
                }
                i = i + 2;
                continue;
            }
            t = Token::Var(single);
        } else if c == OVERBAR {
            let mut e = String::from_str("overbar ");
            e.append(char_debug(OVERBAR).as_str());
            e.append(" may only follow a single-letter variable");
            proof {
                reveal_strlit("overbar ");
                reveal_strlit(" may only follow a single-letter variable");
            }
            return Err(e);
        } else {
            let mut e = String::from_str("unexpected character ");
            e.append(char_debug(c).as_str());
            e.append(" in algebraic expression");
            proof {
                reveal_strlit("unexpected character ");
                reveal_strlit(" in algebraic expression");
            }
            return Err(e);
        }
        let ghost lt = t@;
        tokens.push(t);
        proof {
            assert(lexemes(tokens@) =~= p.push(lt));
            assert(lex_from(s@, i as int) == cons(lt, lex_from(s@, i + 1)));
            lemma_prefixed_cons(p, lt, lex_from(s@, i + 1));
        }
        i += 1;
    }
    proof {
        assert(lexemes(tokens@) + Seq::<Lexeme>::empty() =~= lexemes(tokens@));
    }
    Ok(tokens)
}

// ----------------------------------------------------------------------------------------------------------------------
// The grammar.

/// A successful parse of a prefix: the formula read, the position after it, and the variable names registered so far.
pub struct Parsed {
    pub formula: Formula,
    pub pos: int,
    pub names: Seq<Seq<char>>,
}

/// A failed parse: the error message and the variable names registered before the error.
pub struct Failure {
    pub message: Seq<char>,
    pub names: Seq<Seq<char>>,
}

/// The outcome of parsing from some position.
pub type Outcome = Result<Parsed, Failure>;

/// The `Debug` text of a token, as the error messages quote it.
pub open spec fn lexeme_text(l: Lexeme) -> Seq<char> {
    match l {
        Lexeme::LParen => "LParen"@,
        Lexeme::RParen => "RParen"@,
        Lexeme::Or => "Or"@,
        Lexeme::Xor => "Xor"@,
        Lexeme::And => "And"@,
        Lexeme::Not => "Not"@,
        Lexeme::Var(name) => "Var(\""@ + name + "\")"@,
        Lexeme::Const(b) => if b {
            "Const(true)"@
        } else {
            "Const(false)"@
        },
    }
}

/// `or_xor := and ( (OR | XOR) and )*` — left-associative, one shared tier.
pub open spec fn or_xor_spec(ts: Seq<Lexeme>, pos: int, names: Seq<Seq<char>>) -> Outcome
    decreases ts.len() - pos, 5int,
{
    match and_spec(ts, pos, names) {
        Err(e) => Err(e),
        Ok(p) => if pos < p.pos <= ts.len() {
            or_tail_spec(ts, p.pos, p.names, p.formula)
        } else {
            Ok(p)
        },
    }
}

/// The `( (OR | XOR) and )*` part of [`or_xor_spec`], with `left` read so far.
pub open spec fn or_tail_spec(ts: Seq<Lexeme>, pos: int, names: Seq<Seq<char>>, left: Formula) -> Outcome
    decreases ts.len() - pos, 4int,
{
    if 0 <= pos < ts.len() && (ts[pos] is Or || ts[pos] is Xor) {
        match and_spec(ts, pos + 1, names) {
            Err(e) => Err(e),
            Ok(p) => {
                let f = if ts[pos] is Or {
                    Formula::Or(Box::new(left), Box::new(p.formula))
                } else {
                    Formula::Xor(Box::new(left), Box::new(p.formula))
                };
                if pos < p.pos <= ts.len() {
                    or_tail_spec(ts, p.pos, p.names, f)
                } else {
                    Ok(Parsed { formula: f, pos: p.pos, names: p.names })
                }
            },
        }
    } else {
        Ok(Parsed { formula: left, pos, names })
    }
}

/// `and := not ( AND? not )*` — explicit AND or juxtaposition of adjacent factors, left-associative.
pub open spec fn and_spec(ts: Seq<Lexeme>, pos: int, names: Seq<Seq<char>>) -> Outcome
    decreases ts.len() - pos, 3int,
{
    match not_spec(ts, pos, names) {
        Err(e) => Err(e),
        Ok(p) => if pos < p.pos <= ts.len() {
            and_tail_spec(ts, p.pos, p.names, p.formula)
        } else {
            Ok(p)
        },
    }
}

/// A factor begins with this token (juxtaposition).
pub open spec fn starts_factor(l: Lexeme) -> bool {
    l is Not || l is Var || l is Const || l is LParen
}

/// The `( AND? not )*` part of [`and_spec`], with `left` read so far.
pub open spec fn and_tail_spec(ts: Seq<Lexeme>, pos: int, names: Seq<Seq<char>>, left: Formula) -> Outcome
    decreases ts.len() - pos, 2int,
{
    if 0 <= pos < ts.len() && (ts[pos] is And || starts_factor(ts[pos])) {
        let start = if ts[pos] is And {
            pos + 1
        } else {
            pos
        };
        match not_spec(ts, start, names) {
            Err(e) => Err(e),
            Ok(p) => {
                let f = Formula::And(Box::new(left), Box::new(p.formula));
                if pos < p.pos <= ts.len() {
                    and_tail_spec(ts, p.pos, p.names, f)
                } else {
                    Ok(Parsed { formula: f, pos: p.pos, names: p.names })
                }
            },
        }
    } else {
        Ok(Parsed { formula: left, pos, names })
    }
}

/// `not := NOT* primary` — prefix negations.
pub open spec fn not_spec(ts: Seq<Lexeme>, pos: int, names: Seq<Seq<char>>) -> Outcome
    decreases ts.len() - pos, 1int,
{
    if 0 <= pos < ts.len() && ts[pos] is Not {
        match not_spec(ts, pos + 1, names) {
            Err(e) => Err(e),
            Ok(p) => Ok(Parsed { formula: Formula::Not(Box::new(p.formula)), pos: p.pos, names: p.names }),
        }
    } else {
        primary_spec(ts, pos, names)
    }
}

/// `primary := VAR | CONST | '(' or_xor ')'`.
pub open spec fn primary_spec(ts: Seq<Lexeme>, pos: int, names: Seq<Seq<char>>) -> Outcome
    decreases ts.len() - pos, 0int,
{
    if pos < 0 || pos >= ts.len() {
        Err(Failure { message: "unexpected end of expression"@, names })
    } else {
        match ts[pos] {
            Lexeme::LParen => match or_xor_spec(ts, pos + 1, names) {
                Err(e) => Err(e),
                Ok(p) => if 0 <= p.pos < ts.len() && ts[p.pos] is RParen {
                    Ok(Parsed { formula: p.formula, pos: p.pos + 1, names: p.names })
                } else {
                    Err(Failure { message: "expected ')'"@, names: p.names })
                },
            },
            Lexeme::Var(name) => match register(names, name) {
                Err(m) => Err(Failure { message: m, names }),
                Ok((t, i)) => Ok(Parsed { formula: Formula::Var(i), pos: pos + 1, names: t }),
            },
            Lexeme::Const(b) => Ok(Parsed { formula: Formula::Const(b), pos: pos + 1, names }),
            l => Err(Failure { message: "unexpected token "@ + lexeme_text(l), names }),
        }
    }
}

/// What parsing the text `input` with a table holding `names` gives: the formula read and the table afterwards, or
/// the error message and the table as the error left it.
pub open spec fn algebraic_outcome(input: Seq<char>, names: Seq<Seq<char>>) -> Result<
    (Formula, Seq<Seq<char>>),
    (Seq<char>, Seq<Seq<char>>),
> {
    match lex(input) {
        Err(m) => Err((m, names)),
        Ok(ts) => if ts.len() == 0 {
            Err(("empty expression"@, names))
        } else {
            match or_xor_spec(ts, 0, names) {
                Err(f) => Err((f.message, f.names)),
                Ok(p) => if p.pos != ts.len() {
                    Err(("unexpected trailing token "@ + lexeme_text(ts[p.pos]), p.names))
                } else {
                    Ok((p.formula, p.names))
                },
            }
        },
    }
}

// ----------------------------------------------------------------------------------------------------------------------
// The parser.

/// The result `r` of an executable parse step, with `names` the table afterwards, is the outcome `o` of the grammar.
pub open spec fn outcome_matches(r: Result<(Expression, usize), String>, o: Outcome, names: Seq<Seq<char>>) -> bool {
    match o {
        Ok(p) => r matches Ok((e, q)) && e@ == p.formula.dnf() && q == p.pos && names == p.names && e.names()
            == Seq::<Seq<char>>::empty(),
        Err(f) => r matches Err(m) && m@ == f.message && names == f.names,
    }
}

/// The `Debug` text of a token.
fn token_text(t: &Token) -> (r: String)
    ensures
        r@ == lexeme_text(t@),
{
    match t {
        Token::LParen => {
            proof {
                reveal_strlit("LParen");
            }
            String::from_str("LParen")
        },
        Token::RParen => {
            proof {
                reveal_strlit("RParen");
            }
            String::from_str("RParen")
        },
        Token::Or => {
            proof {
                reveal_strlit("Or");
            }
            String::from_str("Or")
        },
        Token::Xor => {
            proof {
                reveal_strlit("Xor");
            }
            String::from_str("Xor")
        },
        Token::And => {
            proof {
                reveal_strlit("And");
            }
            String::from_str("And")
        },
        Token::Not => {
            proof {
                reveal_strlit("Not");
            }
            String::from_str("Not")
        },
        Token::Var(name) => {
            let mut r = String::from_str("Var(\"");
            r.append(name.as_str());
            r.append("\")");
            proof {
                reveal_strlit("Var(\"");
                reveal_strlit("\")");
            }
            r
        },
        Token::Const(b) => {
            if *b {
                proof {
                    reveal_strlit("Const(true)");
                }
                String::from_str("Const(true)")
            } else {
                proof {
                    reveal_strlit("Const(false)");
                }
                String::from_str("Const(false)")
            }
        },
    }
}

/// Builds a single positive-literal expression for variable `index`.
pub(crate) fn var_literal(index: usize) -> (r: Expression)
    requires
        index < usize::MAX,
    ensures
        r@ == crate::formula::var_dnf(index as nat),
        r.names() == Seq::<Seq<char>>::empty(),
{
    let width = index + 1;
    let mut terms = vec![false; width];
    let mut mask = vec![false; width];
    terms.set(index, true);
    mask.set(index, true);
    let p = crate::ProductTerm { terms, mask };
    proof {
        let l = crate::model::literal(width as nat, index as int, true);
        assert(p@.terms =~= l.terms);
        assert(p@.mask =~= l.mask);
    }
    let mut v: Vec<crate::ProductTerm> = Vec::new();
    v.push(p);
    let r = Expression::new(v);
    proof {
        assert(r@ =~= crate::formula::var_dnf(index as nat));
    }
    r
}

/// `xor(a, b) = (a & !b) | (!a & b)`, kept in DNF (the same desugaring the JsonLogic converter uses).
pub fn xor(a: Expression, b: &Expression) -> (r: Expression)
    requires
        a.wf(),
        b.wf(),
    ensures
        r@ == crate::formula::xor_dnf(a@, b@),
        r.names() == a.names(),
{
    let b_inv = b.inverse();
    let a_inv = a.inverse();
    let mut left = a;
    left.bitand_assign(&b_inv);
    let mut right = a_inv;
    right.bitand_assign(b);
    left.bitor_assign(&right);
    left
}

/// The DNF of a formula is well formed.
proof fn lemma_wf(f: Formula)
    ensures
        crate::model::all_wf(f.dnf()),
{
    crate::formula::law_dnf_meaning(f, |i: nat| true);
}

/// `or_xor := and ( (OR | XOR) and )*`.
fn parse_or_xor(tokens: &Vec<Token>, pos: usize, table: &mut VariableTable) -> (r: Result<(Expression, usize), String>)
    requires
        old(table).wf(),
        pos <= tokens.len(),
    ensures
        final(table).wf(),
        outcome_matches(r, or_xor_spec(lexemes(tokens@), pos as int, old(table)@), final(table)@),
        r matches Ok((e, q)) ==> pos < q <= tokens.len(),
    decreases tokens.len() - pos, 5int,
{
    let ghost ts = lexemes(tokens@);
    let first = parse_and(tokens, pos, table);
    let (mut left, mut cur) = match first {
        Err(e) => {
            return Err(e);
        },
        Ok(pair) => pair,
    };
    let ghost mut f = and_spec(ts, pos as int, old(table)@)->Ok_0.formula;
    proof {
        lemma_wf(f);
    }
    loop
        invariant
            ts == lexemes(tokens@),
            pos < cur <= tokens.len(),
            table.wf(),
            or_xor_spec(ts, pos as int, old(table)@) == or_tail_spec(ts, cur as int, table@, f),
            left@ == f.dnf(),
            left.names() == Seq::<Seq<char>>::empty(),
            crate::model::all_wf(left@),
        ensures
            left.names() == Seq::<Seq<char>>::empty(),
            pos < cur <= tokens.len(),
            table.wf(),
            or_xor_spec(ts, pos as int, old(table)@) == Ok::<Parsed, Failure>(Parsed { formula: f, pos: cur as int, names: table@ }),
            left@ == f.dnf(),
        decreases tokens.len() - cur,
    {
        let kind: u8 = if cur < tokens.len() {
            match &tokens[cur] {
                Token::Or => 1,
                Token::Xor => 2,
                _ => 0,
            }
        } else {
            0
        };
        if kind == 0 {
            break;
        }
        proof {
            assert(ts[cur as int] == tokens@[cur as int]@);
        }
        let ghost names_before = table@;
        let next = parse_and(tokens, cur + 1, table);
        let (right, after) = match next {
            Err(e) => {
                return Err(e);
            },
            Ok(pair) => pair,
        };
        let ghost g = and_spec(ts, cur + 1, names_before)->Ok_0.formula;
        proof {
            lemma_wf(g);
        }
        if kind == 1 {
            left.bitor_assign(&right);
            proof {
                f = Formula::Or(Box::new(f), Box::new(g));
            }
        } else {
            left = xor(left, &right);
            proof {
                f = Formula::Xor(Box::new(f), Box::new(g));
            }
        }
        proof {
            lemma_wf(f);
        }
        cur = after;
    }
    Ok((left, cur))
}

/// `and := not ( AND? not )*`.
fn parse_and(tokens: &Vec<Token>, pos: usize, table: &mut VariableTable) -> (r: Result<(Expression, usize), String>)
    requires
        old(table).wf(),
        pos <= tokens.len(),
    ensures
        final(table).wf(),
        outcome_matches(r, and_spec(lexemes(tokens@), pos as int, old(table)@), final(table)@),
        r matches Ok((e, q)) ==> pos < q <= tokens.len(),
    decreases tokens.len() - pos, 3int,
{
    let ghost ts = lexemes(tokens@);
    let first = parse_not(tokens, pos, table);
    let (mut left, mut cur) = match first {
        Err(e) => {
            return Err(e);
        },
        Ok(pair) => pair,
    };
    let ghost mut f = not_spec(ts, pos as int, old(table)@)->Ok_0.formula;
    proof {
        lemma_wf(f);
    }
    loop
        invariant
            ts == lexemes(tokens@),
            pos < cur <= tokens.len(),
            table.wf(),
            and_spec(ts, pos as int, old(table)@) == and_tail_spec(ts, cur as int, table@, f),
            left@ == f.dnf(),
            left.names() == Seq::<Seq<char>>::empty(),
            crate::model::all_wf(left@),
        ensures
            left.names() == Seq::<Seq<char>>::empty(),
            pos < cur <= tokens.len(),
            table.wf(),
            and_spec(ts, pos as int, old(table)@) == Ok::<Parsed, Failure>(Parsed { formula: f, pos: cur as int, names: table@ }),
            left@ == f.dnf(),
        decreases tokens.len() - cur,
    {
        // 0: no factor follows; 1: an explicit AND operator; 2: juxtaposition.
        let kind: u8 = if cur < tokens.len() {
            match &tokens[cur] {
                Token::And => 1,
                Token::Not => 2,
                Token::Var(_) => 2,
                Token::Const(_) => 2,
                Token::LParen => 2,
                _ => 0,
            }
        } else {
            0
        };
        if kind == 0 {
            break;
        }
        proof {
            assert(ts[cur as int] == tokens@[cur as int]@);
        }
        let start = if kind == 1 {
            cur + 1
        } else {
            cur
        };
        let ghost names_before = table@;
        let next = parse_not(tokens, start, table);
        let (right, after) = match next {
            Err(e) => {
                return Err(e);
            },
            Ok(pair) => pair,
        };
        let ghost g = not_spec(ts, start as int, names_before)->Ok_0.formula;
        proof {
            lemma_wf(g);
        }
        left.bitand_assign(&right);
        proof {
            f = Formula::And(Box::new(f), Box::new(g));
            lemma_wf(f);
        }
        cur = after;
    }
    Ok((left, cur))
}

/// `not := NOT* primary`.
fn parse_not(tokens: &Vec<Token>, pos: usize, table: &mut VariableTable) -> (r: Result<(Expression, usize), String>)
    requires
        old(table).wf(),
        pos <= tokens.len(),
    ensures
        final(table).wf(),
        outcome_matches(r, not_spec(lexemes(tokens@), pos as int, old(table)@), final(table)@),
        r matches Ok((e, q)) ==> pos < q <= tokens.len(),
    decreases tokens.len() - pos, 1int,
{
    let ghost ts = lexemes(tokens@);
    if pos < tokens.len() {
        if let Token::Not = &tokens[pos] {
            proof {
                assert(ts[pos as int] == tokens@[pos as int]@);
            }
            let inner = parse_not(tokens, pos + 1, table);
            return match inner {
                Err(e) => Err(e),
                Ok((e, q)) => {
                    proof {
                        lemma_wf(not_spec(ts, pos + 1, old(table)@)->Ok_0.formula);
                    }
                    Ok((e.inverse(), q))
                },
            };
        }
        proof {
            assert(ts[pos as int] == tokens@[pos as int]@);
        }
    }
    parse_primary(tokens, pos, table)
}

/// `primary := VAR | CONST | '(' or_xor ')'`.
fn parse_primary(tokens: &Vec<Token>, pos: usize, table: &mut VariableTable) -> (r: Result<
    (Expression, usize),
    String,
>)
    requires
        old(table).wf(),
        pos <= tokens.len(),
    ensures
        final(table).wf(),
        outcome_matches(r, primary_spec(lexemes(tokens@), pos as int, old(table)@), final(table)@),
        r matches Ok((e, q)) ==> pos < q <= tokens.len(),
    decreases tokens.len() - pos, 0int,
{
    let ghost ts = lexemes(tokens@);
    if pos >= tokens.len() {
        proof {
            reveal_strlit("unexpected end of expression");
        }
        return Err(String::from_str("unexpected end of expression"));
    }
    proof {
        assert(ts[pos as int] == tokens@[pos as int]@);
    }
    match &tokens[pos] {
        Token::LParen => {
            let inner = parse_or_xor(tokens, pos + 1, table);
            match inner {
                Err(e) => Err(e),
                Ok((e, q)) => {
                    let closed = q < tokens.len() && match &tokens[q] {
                        Token::RParen => true,
                        _ => false,
                    };
                    if closed {
                        proof {
                            assert(ts[q as int] == tokens@[q as int]@);
                        }
                        Ok((e, q + 1))
                    } else {
                        proof {
                            if q < tokens.len() {
                                assert(ts[q as int] == tokens@[q as int]@);
                            }
                            reveal_strlit("expected ')'");
                        }
                        Err(String::from_str("expected ')'"))
                    }
                },
            }
        },
        Token::Var(name) => {
            let index = table.index_of(name.as_str());
            match index {
                Err(e) => Err(e),
                Ok(i) => Ok((var_literal(i), pos + 1)),
            }
        },
        Token::Const(value) => {
            if *value {
                Ok((Expression::constant_true(), pos + 1))
            } else {
                let e = Expression::constant_false();
                proof {
                    assert(e@ =~= crate::formula::const_dnf(false));
                }
                Ok((e, pos + 1))
            }
        },
        token => {
            let mut m = String::from_str("unexpected token ");
            m.append(token_text(token).as_str());
            proof {
                reveal_strlit("unexpected token ");
            }
            Err(m)
        },
    }
}

/// Parses an algebraic boolean expression into a DNF [`Expression`], registering variables in `table`.
///
/// Every product term comes out in canonical form: only as wide as its highest variable needs, with no sign recorded
/// for an absent variable (see [`tidy`](crate::model::tidy)).
///
/// The returned expression carries no table; attach one with [`Expression::with_table`] if you need the original
/// names on output.
///
/// # Errors
///
/// Returns `Err` on a lexing error, an empty expression, a syntax error (unbalanced parentheses, a dangling operator,
/// trailing tokens), or more than [`MAX_VARIABLES`](crate::quine_mccluskey::MAX_VARIABLES) distinct variables.
pub fn parse_algebraic(input: &str, table: &mut VariableTable) -> (r: Result<Expression, String>)
    requires
        old(table).wf(),
    ensures
        final(table).wf(),
        match algebraic_outcome(input@, old(table)@) {
            Ok((f, names)) => r matches Ok(e) && e@ == tidy_all(f.dnf()) && final(table)@ == names && e.names()
                == Seq::<Seq<char>>::empty() && tidy_all(e@) == e@ && no_false(e@) && all_wf(e@),
            Err((m, names)) => r matches Err(e) && e@ == m && final(table)@ == names,
        },
{
    let tokens = match tokenize(input) {
        Err(e) => {
            return Err(e);
        },
        Ok(ts) => ts,
    };
    let ghost ts = lexemes(tokens@);
    if tokens.len() == 0 {
        proof {
            reveal_strlit("empty expression");
        }
        return Err(String::from_str("empty expression"));
    }
    let parsed = parse_or_xor(&tokens, 0, table);
    let (expr, pos) = match parsed {
        Err(e) => {
            return Err(e);
        },
        Ok(pair) => pair,
    };
    if pos != tokens.len() {
        proof {
            assert(ts[pos as int] == tokens@[pos as int]@);
        }
        let mut m = String::from_str("unexpected trailing token ");
        m.append(token_text(&tokens[pos]).as_str());
        proof {
            reveal_strlit("unexpected trailing token ");
        }
        return Err(m);
    }
    let ghost d = algebraic_outcome(input@, old(table)@)->Ok_0.0.dnf();
    proof {
        crate::formula::law_dnf_meaning(algebraic_outcome(input@, old(table)@)->Ok_0.0, |i: nat| true);
        crate::model::lemma_tidy_all(d, 0);
        crate::model::lemma_tidy_all_tidy(d);
    }
    Ok(expr.tidied())
}

} // verus!
