//! Reading back the algebraic text that the renderer writes.
//!
//! [`law_algebraic_read_back`]: parsing the text that
//! [`Expression::to_algebraic_styled`](crate::Expression::to_algebraic_styled) writes, in any style, gives back a
//! formula that means what the expression means, variable for variable by name, when every name is one the syntax can
//! spell (a run of `[0-9a-zA-Z_]`).

use vstd::prelude::*;

use crate::algebraic::{
    and_spec, and_tail_spec, not_spec, or_tail_spec, or_xor_spec, primary_spec, starts_factor, Parsed,
    cons, is_and_char, is_letter, is_name_char, is_not_char, is_or_char, is_white_space, lemma_name_end, lex, lex_from,
    name_end, Lexeme, OVERBAR,
};
use crate::formula::Formula;
use crate::model::{
    all_false, all_within, all_wf, any_true, complement, conflict, conjoin, conjoin_all, conjoin_row, eval, literal, merge,
    lemma_needed_width, needed_width, negated_literals, no_false, tidy, tidy_all, true_conjunction, Conjunction,
};
use crate::formula::var_dnf;
use crate::quine_mccluskey::MAX_VARIABLES;
use crate::read_back::{
    by_name, extends_table, formula_within, lemma_extend_meaning, lemma_register_name, lemma_term_meaning, literals_hold,
    some_term_holds, table_from,
};
use crate::variable_table::register;
use crate::render::{expression_text, is_single, live_terms, or_text, term_text, terms_text, var_text, variable_name};
use crate::algebraic::algebraic_outcome;
use crate::AlgebraicStyle;

verus! {

/// The tokens of `r` followed by those of `s` (the first error stays).
pub open spec fn glue(r: Result<Seq<Lexeme>, Seq<char>>, s: Result<Seq<Lexeme>, Seq<char>>) -> Result<
    Seq<Lexeme>,
    Seq<char>,
> {
    match r {
        Err(m) => Err(m),
        Ok(x) => match s {
            Err(m) => Err(m),
            Ok(y) => Ok(x + y),
        },
    }
}

/// The text ends inside a `$` name: a `$` followed only by name characters up to the end.
pub open spec fn dollar_tail(a: Seq<char>) -> bool {
    exists|j: int| 0 <= j < a.len() && a[j] == '$' && forall|k: int| j < k < a.len() ==> is_name_char(#[trigger] a[k])
}

/// `b` can follow `a` without changing how `a` lexes: `b` does not start with an overbar, nor with a name character
/// when `a` ends inside a `$` name.
pub open spec fn seam_ok(a: Seq<char>, b: Seq<char>) -> bool {
    b.len() > 0 ==> b[0] != OVERBAR && (dollar_tail(a) ==> !is_name_char(b[0]))
}

proof fn lemma_glue_cons(t: Lexeme, r: Result<Seq<Lexeme>, Seq<char>>, s: Result<Seq<Lexeme>, Seq<char>>)
    ensures
        glue(cons(t, r), s) == cons(t, glue(r, s)),
{
    if let Ok(x) = r {
        if let Ok(y) = s {
            assert(seq![t] + x + y =~= seq![t] + (x + y));
        }
    }
}

/// Past the end of `a`, the name run in `a + b` is the one in `b`, shifted.
proof fn lemma_name_end_shift(a: Seq<char>, b: Seq<char>, k: int)
    requires
        0 <= k <= b.len(),
    ensures
        name_end(a + b, a.len() + k) == a.len() + name_end(b, k),
    decreases b.len() - k,
{
    if k < b.len() {
        assert((a + b)[a.len() + k] == b[k]);
        if is_name_char(b[k]) {
            lemma_name_end_shift(a, b, k + 1);
        }
    }
}

/// Past the end of `a`, `a + b` lexes as `b`.
pub(crate) proof fn lemma_lex_shift(a: Seq<char>, b: Seq<char>, k: int)
    requires
        0 <= k <= b.len(),
    ensures
        lex_from(a + b, a.len() + k) == lex_from(b, k),
    decreases b.len() - k,
{
    let s = a + b;
    let i = a.len() + k;
    if k < b.len() {
        let c = b[k];
        assert(s[i] == c);
        lemma_lex_shift(a, b, k + 1);
        if c == '$' {
            lemma_name_end_shift(a, b, k + 1);
            lemma_name_end(b, k + 1);
            let j = name_end(b, k + 1);
            assert(s.subrange(i + 1, a.len() + j) =~= b.subrange(k + 1, j));
            if j != k + 1 {
                lemma_lex_shift(a, b, j);
            }
        } else if is_letter(c) {
            if k + 1 < b.len() {
                assert(s[i + 1] == b[k + 1]);
                if b[k + 1] == OVERBAR {
                    lemma_lex_shift(a, b, k + 2);
                }
            }
        }
    }
}

/// Inside `a`, a name run that stops before the end of `a` stops at the same place in `a + b`; one that reaches the
/// end of `a` stops there too when `b` does not start with a name character.
proof fn lemma_name_end_prefix(a: Seq<char>, b: Seq<char>, j: int)
    requires
        0 <= j <= a.len(),
        name_end(a, j) == a.len() ==> b.len() == 0 || !is_name_char(b[0]),
    ensures
        name_end(a + b, j) == name_end(a, j),
    decreases a.len() - j,
{
    if j < a.len() {
        assert((a + b)[j] == a[j]);
        if is_name_char(a[j]) {
            lemma_name_end_prefix(a, b, j + 1);
        }
    } else {
        if b.len() > 0 {
            assert((a + b)[j] == b[0]);
        }
    }
}

/// Lexing `a + b` from a position in `a` lexes the rest of `a`, then `b`, when `b` can follow `a`.
pub(crate) proof fn lemma_lex_concat(a: Seq<char>, b: Seq<char>, i: int)
    requires
        0 <= i <= a.len(),
        seam_ok(a, b),
    ensures
        lex_from(a + b, i) == glue(lex_from(a, i), lex(b)),
    decreases a.len() - i,
{
    let s = a + b;
    if i == a.len() {
        lemma_lex_shift(a, b, 0);
        assert(lex_from(a, i) == Ok::<Seq<Lexeme>, Seq<char>>(Seq::empty()));
        if let Ok(y) = lex(b) {
            assert(Seq::<Lexeme>::empty() + y =~= y);
        }
    } else {
        let c = a[i];
        assert(s[i] == c);
        lemma_lex_concat(a, b, i + 1);
        if is_white_space(c) {
        } else if c == '(' || c == ')' || c == '0' || c == '1' {
            lemma_glue_cons(
                if c == '(' {
                    Lexeme::LParen
                } else if c == ')' {
                    Lexeme::RParen
                } else {
                    Lexeme::Const(c == '1')
                },
                lex_from(a, i + 1),
                lex(b),
            );
        } else if c == '$' {
            lemma_name_end(a, i + 1);
            let j = name_end(a, i + 1);
            if j == a.len() {
                assert(dollar_tail(a)) by {
                    assert forall|k: int| i < k < a.len() implies is_name_char(#[trigger] a[k]) by {}
                }
            }
            lemma_name_end_prefix(a, b, i + 1);
            if j != i + 1 {
                assert(s.subrange(i + 1, j) =~= a.subrange(i + 1, j));
                lemma_lex_concat(a, b, j);
                lemma_glue_cons(Lexeme::Var(a.subrange(i + 1, j)), lex_from(a, j), lex(b));
            }
        } else if is_letter(c) {
            if i + 1 < a.len() {
                assert(s[i + 1] == a[i + 1]);
                if a[i + 1] == OVERBAR {
                    lemma_lex_concat(a, b, i + 2);
                    lemma_glue_cons(Lexeme::Var(seq![c]), lex_from(a, i + 2), lex(b));
                    lemma_glue_cons(Lexeme::Not, cons(Lexeme::Var(seq![c]), lex_from(a, i + 2)), lex(b));
                } else {
                    lemma_glue_cons(Lexeme::Var(seq![c]), lex_from(a, i + 1), lex(b));
                }
            } else {
                if b.len() > 0 {
                    assert(s[i + 1] == b[0]);
                }
                lemma_glue_cons(Lexeme::Var(seq![c]), lex_from(a, i + 1), lex(b));
            }
        } else {
            lemma_glue_cons(Lexeme::Or, lex_from(a, i + 1), lex(b));
            lemma_glue_cons(Lexeme::Xor, lex_from(a, i + 1), lex(b));
            lemma_glue_cons(Lexeme::And, lex_from(a, i + 1), lex(b));
            lemma_glue_cons(Lexeme::Not, lex_from(a, i + 1), lex(b));
        }
    }
}

/// A name the syntax can spell: a non-empty run of name characters that starts with a letter.
pub open spec fn spellable(name: Seq<char>) -> bool {
    &&& name.len() > 0
    &&& is_letter(name[0])
    &&& forall|k: int| 0 <= k < name.len() ==> is_name_char(#[trigger] name[k])
}

/// The tokens of a literal: the variable, after a NOT when it is negated.
pub open spec fn literal_lexemes(name: Seq<char>, positive: bool) -> Seq<Lexeme> {
    if positive {
        seq![Lexeme::Var(name)]
    } else {
        seq![Lexeme::Not, Lexeme::Var(name)]
    }
}

/// The tokens of the literals of `c` below `k`: an AND between two literals unless the style juxtaposes them.
pub open spec fn term_lexemes(c: Conjunction, names: Seq<Seq<char>>, style: AlgebraicStyle, k: nat) -> Seq<Lexeme>
    decreases k,
{
    if k == 0 {
        Seq::empty()
    } else {
        let before = term_lexemes(c, names, style, (k - 1) as nat);
        let i = k - 1;
        if !c.mask[i] {
            before
        } else {
            let sep = if before.len() > 0 && !(style is Common) {
                seq![Lexeme::And]
            } else {
                Seq::empty()
            };
            before + sep + literal_lexemes(variable_name(names, i as nat), c.terms[i])
        }
    }
}

proof fn lemma_dollar_tail_append(a: Seq<char>, b: Seq<char>)
    ensures
        dollar_tail(a + b) ==> dollar_tail(b) || (dollar_tail(a) && forall|k: int| 0 <= k < b.len() ==> is_name_char(#[trigger] b[k])),
{
    let s = a + b;
    if dollar_tail(s) {
        let j = choose|j: int| 0 <= j < s.len() && s[j] == '$' && forall|k: int| j < k < s.len() ==> is_name_char(#[trigger] s[k]);
        if j >= a.len() {
            assert(b[j - a.len()] == '$');
            assert forall|k: int| j - a.len() < k < b.len() implies is_name_char(#[trigger] b[k]) by {
                assert(s[k + a.len()] == b[k]);
            }
        } else {
            assert(a[j] == '$');
            assert forall|k: int| j < k < a.len() implies is_name_char(#[trigger] a[k]) by {
                assert(s[k] == a[k]);
            }
            assert forall|k: int| 0 <= k < b.len() implies is_name_char(#[trigger] b[k]) by {
                assert(s[k + a.len()] == b[k]);
            }
        }
    }
}

/// Text without a `$` does not end inside a `$` name.
proof fn lemma_no_dollar(b: Seq<char>)
    requires
        forall|k: int| 0 <= k < b.len() ==> b[k] != '$',
    ensures
        !dollar_tail(b),
{
}

/// A spellable name written out lexes as the one variable, and ends inside a `$` name exactly when it is not a single
/// letter.
proof fn lemma_var_text(name: Seq<char>)
    requires
        spellable(name),
    ensures
        lex(var_text(name)) == Ok::<Seq<Lexeme>, Seq<char>>(seq![Lexeme::Var(name)]),
        dollar_tail(var_text(name)) == !is_single(name),
        var_text(name).len() > 0,
        is_single(name) ==> is_letter(var_text(name)[0]) && var_text(name) == name,
        !is_single(name) ==> var_text(name)[0] == '$',
{
    let v = var_text(name);
    if is_single(name) {
        assert(v == name);
        assert(name =~= seq![name[0]]);
        assert(lex_from(v, 1) == Ok::<Seq<Lexeme>, Seq<char>>(Seq::empty()));
        assert(seq![Lexeme::Var(seq![name[0]])] + Seq::<Lexeme>::empty() =~= seq![Lexeme::Var(name)]);
        lemma_no_dollar(v);
    } else {
        assert(v == seq!['$'] + name);
        lemma_name_end(v, 1);
        assert forall|k: int| 1 <= k < v.len() implies is_name_char(#[trigger] v[k]) by {
            assert(v[k] == name[k - 1]);
        }
        lemma_name_end_all(v, 1);
        assert(v.subrange(1, v.len() as int) =~= name);
        assert(lex_from(v, v.len() as int) == Ok::<Seq<Lexeme>, Seq<char>>(Seq::empty()));
        assert(seq![Lexeme::Var(name)] + Seq::<Lexeme>::empty() =~= seq![Lexeme::Var(name)]);
        assert(dollar_tail(v)) by {
            assert forall|k: int| 0 < k < v.len() implies is_name_char(#[trigger] v[k]) by {
                assert(v[k] == name[k - 1]);
            }
        }
    }
}

/// A run of name characters up to the end of the text runs to the end.
proof fn lemma_name_end_all(s: Seq<char>, j: int)
    requires
        0 <= j <= s.len(),
        forall|k: int| j <= k < s.len() ==> is_name_char(#[trigger] s[k]),
    ensures
        name_end(s, j) == s.len(),
    decreases s.len() - j,
{
    if j < s.len() {
        lemma_name_end_all(s, j + 1);
    }
}

proof fn lemma_dollar_tail_suffix(a: Seq<char>, b: Seq<char>)
    requires
        dollar_tail(b),
    ensures
        dollar_tail(a + b),
{
    let s = a + b;
    let j = choose|j: int| 0 <= j < b.len() && b[j] == '$' && forall|k: int| j < k < b.len() ==> is_name_char(#[trigger] b[k]);
    assert(s[a.len() + j] == '$');
    assert forall|k: int| a.len() + j < k < s.len() implies is_name_char(#[trigger] s[k]) by {
        assert(s[k] == b[k - a.len()]);
    }
}

/// A prefix NOT character lexes as NOT, followed by what the rest lexes as.
proof fn lemma_lex_not(n: char, v: Seq<char>)
    requires
        n == '~' || n == '!' || n == '\u{00AC}',
    ensures
        lex(seq![n] + v) == cons(Lexeme::Not, lex(v)),
{
    let s = seq![n] + v;
    assert(s[0] == n);
    assert(is_not_char(n) && !is_white_space(n) && !is_or_char(n) && !is_and_char(n));
    lemma_lex_shift(seq![n], v, 0);
}

/// A letter with an overbar lexes as NOT and the letter's variable.
proof fn lemma_lex_overbar(c: char)
    requires
        is_letter(c),
    ensures
        lex(seq![c, OVERBAR]) == Ok::<Seq<Lexeme>, Seq<char>>(seq![Lexeme::Not, Lexeme::Var(seq![c])]),
{
    let s = seq![c, OVERBAR];
    assert(s[0] == c && s[1] == OVERBAR);
    assert(lex_from(s, 2) == Ok::<Seq<Lexeme>, Seq<char>>(Seq::empty()));
    assert(seq![Lexeme::Var(seq![c])] + Seq::<Lexeme>::empty() =~= seq![Lexeme::Var(seq![c])]);
    assert(seq![Lexeme::Not] + seq![Lexeme::Var(seq![c])] =~= seq![Lexeme::Not, Lexeme::Var(seq![c])]);
}

/// A space lexes as nothing.
proof fn lemma_lex_space()
    ensures
        lex(seq![' ']) == Ok::<Seq<Lexeme>, Seq<char>>(Seq::empty()),
        !dollar_tail(seq![' ']),
{
    assert(seq![' '][0] == ' ');
    assert(is_white_space(' '));
    assert(lex_from(seq![' '], 1) == Ok::<Seq<Lexeme>, Seq<char>>(Seq::empty()));
}

/// The spaced operator `" o "` lexes as the one token `t` when `o` is an operator character of that token.
proof fn lemma_lex_spaced(o: char, t: Lexeme)
    requires
        (t == Lexeme::Or && is_or_char(o)) || (t == Lexeme::And && is_and_char(o) && !is_or_char(o) && o != '^'
            && o != '\u{2295}' && o != '\u{22BB}'),
        !is_white_space(o),
        o != '(' && o != ')',
    ensures
        lex(seq![' ', o, ' ']) == Ok::<Seq<Lexeme>, Seq<char>>(seq![t]),
        !dollar_tail(seq![' ', o, ' ']),
        !is_name_char(o),
{
    let s = seq![' ', o, ' '];
    assert(s[0] == ' ' && s[1] == o && s[2] == ' ');
    assert(is_white_space(' '));
    assert(lex_from(s, 3) == Ok::<Seq<Lexeme>, Seq<char>>(Seq::empty()));
    assert(lex_from(s, 2) == Ok::<Seq<Lexeme>, Seq<char>>(Seq::empty()));
    assert(seq![t] + Seq::<Lexeme>::empty() =~= seq![t]);
    if t == Lexeme::Or {
        assert(lex_from(s, 1) == cons(Lexeme::Or, lex_from(s, 2)));
    } else {
        assert(!crate::algebraic::is_xor_char(o));
        assert(lex_from(s, 1) == cons(Lexeme::And, lex_from(s, 2)));
    }
    assert(lex_from(s, 0) == lex_from(s, 1));
    assert(!dollar_tail(s)) by {
        if dollar_tail(s) {
            let j = choose|j: int| 0 <= j < s.len() && s[j] == '$' && forall|k: int| j < k < s.len() ==> is_name_char(#[trigger] s[k]);
        }
    }
}

/// The AND that joins literals in a style that does not juxtapose them.
pub open spec fn and_text(style: AlgebraicStyle) -> Seq<char> {
    match style {
        AlgebraicStyle::Logic => " \u{2227} "@,
        _ => " & "@,
    }
}

/// The operators of a style lex as their tokens.
proof fn lemma_operators(style: AlgebraicStyle)
    ensures
        lex(or_text(style)) == Ok::<Seq<Lexeme>, Seq<char>>(seq![Lexeme::Or]),
        !dollar_tail(or_text(style)),
        or_text(style).len() == 3 && or_text(style)[0] == ' ',
        lex(and_text(style)) == Ok::<Seq<Lexeme>, Seq<char>>(seq![Lexeme::And]),
        !dollar_tail(and_text(style)),
        and_text(style).len() == 3 && and_text(style)[0] == ' ',
{
    reveal_strlit(" + ");
    reveal_strlit(" | ");
    reveal_strlit(" \u{2228} ");
    reveal_strlit(" & ");
    reveal_strlit(" \u{2227} ");
    assert(" + "@ =~= seq![' ', '+', ' ']);
    assert(" | "@ =~= seq![' ', '|', ' ']);
    assert(" \u{2228} "@ =~= seq![' ', '\u{2228}', ' ']);
    assert(" & "@ =~= seq![' ', '&', ' ']);
    assert(" \u{2227} "@ =~= seq![' ', '\u{2227}', ' ']);
    lemma_lex_spaced('+', Lexeme::Or);
    lemma_lex_spaced('|', Lexeme::Or);
    lemma_lex_spaced('\u{2228}', Lexeme::Or);
    lemma_lex_spaced('&', Lexeme::And);
    lemma_lex_spaced('\u{2227}', Lexeme::And);
}

/// Every name of the table is spellable.
pub open spec fn all_spellable(names: Seq<Seq<char>>) -> bool {
    forall|i: int| 0 <= i < names.len() ==> spellable(#[trigger] names[i])
}

/// `a + b` lexes as `a`, then `b`, when `b` can follow `a`.
proof fn lemma_lex_append(a: Seq<char>, b: Seq<char>, x: Seq<Lexeme>, y: Seq<Lexeme>)
    requires
        seam_ok(a, b),
        lex(a) == Ok::<Seq<Lexeme>, Seq<char>>(x),
        lex(b) == Ok::<Seq<Lexeme>, Seq<char>>(y),
    ensures
        lex(a + b) == Ok::<Seq<Lexeme>, Seq<char>>(x + y),
{
    lemma_lex_concat(a, b, 0);
}

/// The text of the literals of a term lexes as their tokens, and it ends inside a `$` name exactly when the last
/// literal written was a `$` name.
proof fn lemma_term_text(c: Conjunction, names: Seq<Seq<char>>, style: AlgebraicStyle, k: nat)
    requires
        c.wf(),
        c.within(names.len()),
        all_spellable(names),
        k <= c.mask.len(),
    ensures
        lex(term_text(c, names, style, k).0) == Ok::<Seq<Lexeme>, Seq<char>>(term_lexemes(c, names, style, k)),
        dollar_tail(term_text(c, names, style, k).0) == term_text(c, names, style, k).1,
        term_text(c, names, style, k).0.len() == 0 <==> term_lexemes(c, names, style, k).len() == 0,
    decreases k,
{
    if k == 0 {
        assert(lex_from(Seq::<char>::empty(), 0) == Ok::<Seq<Lexeme>, Seq<char>>(Seq::empty()));
        assert(!dollar_tail(Seq::<char>::empty()));
    } else {
        lemma_term_text(c, names, style, (k - 1) as nat);
        let (a, prev) = term_text(c, names, style, (k - 1) as nat);
        let before = term_lexemes(c, names, style, (k - 1) as nat);
        let i = k - 1;
        if c.mask[i] {
            assert(i < names.len());
            let name = variable_name(names, i as nat);
            assert(name == names[i]);
            assert(spellable(names[i]));
            let single = is_single(name);
            let var = var_text(name);
            let positive = c.terms[i];
            lemma_var_text(name);
            let lit = literal_lexemes(name, positive);
            lemma_operators(style);
            lemma_lex_space();
            match style {
                AlgebraicStyle::Common => {
                    let spaced = if prev && single {
                        a.push(' ')
                    } else {
                        a
                    };
                    assert(lex(spaced) == Ok::<Seq<Lexeme>, Seq<char>>(before) && (single ==> !dollar_tail(spaced))) by {
                        if prev && single {
                            assert(a.push(' ') == a + seq![' ']);
                            lemma_lex_append(a, seq![' '], before, Seq::empty());
                            assert(before + Seq::<Lexeme>::empty() =~= before);
                            lemma_dollar_tail_append(a, seq![' ']);
                        }
                    }
                    let text = term_text(c, names, style, k).0;
                    if positive {
                        assert(text == spaced + var);
                        lemma_lex_append(spaced, var, before, seq![Lexeme::Var(name)]);
                        lemma_dollar_tail_append(spaced, var);
                        if !single {
                            lemma_dollar_tail_suffix(spaced, var);
                        }
                    } else if single {
                        let piece = seq![var[0], OVERBAR];
                        assert(var =~= seq![var[0]]);
                        assert(text =~= spaced + piece);
                        lemma_lex_overbar(var[0]);
                        assert(seq![var[0]] == name);
                        lemma_lex_append(spaced, piece, before, lit);
                        lemma_dollar_tail_append(spaced, piece);
                        assert(!dollar_tail(piece));
                        assert(!is_name_char(piece[1]));
                    } else {
                        let piece = seq!['~'] + var;
                        assert(text =~= spaced + piece);
                        lemma_lex_not('~', var);
                        assert(seq![Lexeme::Not] + seq![Lexeme::Var(name)] =~= lit);
                        lemma_lex_append(spaced, piece, before, lit);
                        lemma_dollar_tail_suffix(seq!['~'], var);
                        lemma_dollar_tail_suffix(spaced, piece);
                    }
                    assert(before + Seq::<Lexeme>::empty() + lit =~= before + lit);
                },
                _ => {
                    let j = and_text(style);
                    assert(j == match style {
                        AlgebraicStyle::Code => " & "@,
                        _ => " \u{2227} "@,
                    });
                    let joined = if a.len() > 0 {
                        a + j
                    } else {
                        a
                    };
                    let sep = if before.len() > 0 {
                        seq![Lexeme::And]
                    } else {
                        Seq::<Lexeme>::empty()
                    };
                    assert(lex(joined) == Ok::<Seq<Lexeme>, Seq<char>>(before + sep) && !dollar_tail(joined)) by {
                        if a.len() > 0 {
                            lemma_lex_append(a, j, before, seq![Lexeme::And]);
                            lemma_dollar_tail_append(a, j);
                            assert(!is_name_char(j[0]));
                        } else {
                            assert(before + sep =~= before);
                        }
                    }
                    let n = match style {
                        AlgebraicStyle::Code => '!',
                        _ => '\u{00AC}',
                    };
                    let text = term_text(c, names, style, k).0;
                    if positive {
                        assert(text == joined + var);
                        lemma_lex_append(joined, var, before + sep, seq![Lexeme::Var(name)]);
                        lemma_dollar_tail_append(joined, var);
                        if !single {
                            lemma_dollar_tail_suffix(joined, var);
                        }
                    } else {
                        let piece = seq![n] + var;
                        assert(text =~= joined + piece);
                        lemma_lex_not(n, var);
                        assert(seq![Lexeme::Not] + seq![Lexeme::Var(name)] =~= lit);
                        lemma_lex_append(joined, piece, before + sep, lit);
                        lemma_dollar_tail_append(joined, piece);
                        lemma_dollar_tail_append(seq![n], var);
                        if !single {
                            lemma_dollar_tail_suffix(seq![n], var);
                            lemma_dollar_tail_suffix(joined, piece);
                        }
                    }
                },
            }
        }
    }
}

/// Text that lexes does not start with an overbar.
proof fn lemma_lex_no_overbar(s: Seq<char>)
    requires
        lex(s) is Ok,
        s.len() > 0,
    ensures
        s[0] != OVERBAR,
{
    if s[0] == OVERBAR {
        assert(!is_white_space(OVERBAR) && !is_or_char(OVERBAR) && !is_and_char(OVERBAR) && !is_not_char(OVERBAR));
        assert(!crate::algebraic::is_xor_char(OVERBAR) && !is_letter(OVERBAR));
        assert(lex(s) is Err);
    }
}

/// Without a literal of its own, a term's tokens are empty; with one, they are not.
proof fn lemma_term_lexemes_len(c: Conjunction, names: Seq<Seq<char>>, style: AlgebraicStyle, k: nat)
    ensures
        term_lexemes(c, names, style, k).len() == 0 <==> forall|i: int| 0 <= i < k ==> !#[trigger] c.mask[i],
    decreases k,
{
    if k > 0 {
        lemma_term_lexemes_len(c, names, style, (k - 1) as nat);
        if term_lexemes(c, names, style, k).len() == 0 {
            assert(!c.mask[k - 1]);
        }
    }
}

/// The tokens of the product terms of `ts` below `k` that are not the `false` sentinel, with an OR between two terms.
pub open spec fn terms_lexemes(ts: Seq<Conjunction>, names: Seq<Seq<char>>, style: AlgebraicStyle, k: nat) -> Seq<
    Lexeme,
>
    decreases k,
{
    if k == 0 {
        Seq::empty()
    } else {
        let before = terms_lexemes(ts, names, style, (k - 1) as nat);
        let c = ts[k - 1];
        if c.is_false() {
            before
        } else {
            let sep = if before.len() > 0 {
                seq![Lexeme::Or]
            } else {
                Seq::empty()
            };
            before + sep + term_lexemes(c, names, style, c.terms.len())
        }
    }
}

/// The text of the product terms lexes as their tokens.
proof fn lemma_terms_text(ts: Seq<Conjunction>, names: Seq<Seq<char>>, style: AlgebraicStyle, k: nat)
    requires
        all_wf(ts),
        all_within(ts, names.len()),
        all_spellable(names),
        !any_true(ts),
        k <= ts.len(),
    ensures
        lex(terms_text(ts, names, style, k)) == Ok::<Seq<Lexeme>, Seq<char>>(terms_lexemes(ts, names, style, k)),
        terms_text(ts, names, style, k).len() == 0 <==> terms_lexemes(ts, names, style, k).len() == 0,
    decreases k,
{
    if k == 0 {
        assert(lex_from(Seq::<char>::empty(), 0) == Ok::<Seq<Lexeme>, Seq<char>>(Seq::empty()));
    } else {
        lemma_terms_text(ts, names, style, (k - 1) as nat);
        let a = terms_text(ts, names, style, (k - 1) as nat);
        let before = terms_lexemes(ts, names, style, (k - 1) as nat);
        let c = ts[k - 1];
        if !c.is_false() {
            assert(c.wf() && c.within(names.len()));
            assert(!c.is_true()) by {
                if c.is_true() {
                    assert(any_true(ts));
                }
            }
            let n = c.terms.len();
            lemma_term_text(c, names, style, n);
            lemma_term_lexemes_len(c, names, style, n);
            let tt = term_text(c, names, style, n).0;
            let tl = term_lexemes(c, names, style, n);
            assert(tl.len() > 0);
            lemma_lex_no_overbar(tt);
            lemma_operators(style);
            let o = or_text(style);
            if a.len() > 0 {
                lemma_lex_append(a, o, before, seq![Lexeme::Or]);
                lemma_dollar_tail_append(a, o);
                assert(!is_name_char(o[0]));
                lemma_lex_append(a + o, tt, before + seq![Lexeme::Or], tl);
                assert(terms_text(ts, names, style, k) == a + o + tt);
            } else {
                assert(terms_text(ts, names, style, k) == tt);
                assert(before + Seq::<Lexeme>::empty() + tl =~= tl);
            }
        }
    }
}

/// The tokens of an expression's text: its constant, or its product terms.
pub open spec fn expression_lexemes(ts: Seq<Conjunction>, names: Seq<Seq<char>>, style: AlgebraicStyle) -> Seq<Lexeme> {
    if any_true(ts) {
        seq![Lexeme::Const(true)]
    } else if all_false(ts) {
        seq![Lexeme::Const(false)]
    } else {
        terms_lexemes(ts, names, style, ts.len())
    }
}

/// The text of an expression lexes as its tokens.
proof fn lemma_expression_text(ts: Seq<Conjunction>, names: Seq<Seq<char>>, style: AlgebraicStyle)
    requires
        all_wf(ts),
        all_within(ts, names.len()),
        all_spellable(names),
    ensures
        lex(expression_text(ts, names, style)) == Ok::<Seq<Lexeme>, Seq<char>>(expression_lexemes(ts, names, style)),
{
    reveal_strlit("1");
    reveal_strlit("0");
    if any_true(ts) {
        let s = "1"@;
        assert(s[0] == '1' && s.len() == 1);
        assert(lex_from(s, 1) == Ok::<Seq<Lexeme>, Seq<char>>(Seq::empty()));
        assert(seq![Lexeme::Const(true)] + Seq::<Lexeme>::empty() =~= seq![Lexeme::Const(true)]);
    } else if all_false(ts) {
        let s = "0"@;
        assert(s[0] == '0' && s.len() == 1);
        assert(lex_from(s, 1) == Ok::<Seq<Lexeme>, Seq<char>>(Seq::empty()));
        assert(seq![Lexeme::Const(false)] + Seq::<Lexeme>::empty() =~= seq![Lexeme::Const(false)]);
    } else {
        lemma_terms_text(ts, names, style, ts.len());
    }
}

// ----------------------------------------------------------------------------------------------------------------------
// Parsing the tokens.

/// The tokens of the first `k` literals stand at the front of those of the first `m`.
proof fn lemma_term_lexemes_prefix(c: Conjunction, names: Seq<Seq<char>>, style: AlgebraicStyle, k: nat, m: nat)
    requires
        k <= m,
    ensures
        term_lexemes(c, names, style, k).len() <= term_lexemes(c, names, style, m).len(),
        forall|x: int|
            0 <= x < term_lexemes(c, names, style, k).len() ==> term_lexemes(c, names, style, m)[x]
                == term_lexemes(c, names, style, k)[x],
    decreases m,
{
    if m > k {
        lemma_term_lexemes_prefix(c, names, style, k, (m - 1) as nat);
    }
}

/// The tokens of the first `k` product terms stand at the front of those of the first `m`.
proof fn lemma_terms_lexemes_prefix(ts: Seq<Conjunction>, names: Seq<Seq<char>>, style: AlgebraicStyle, k: nat, m: nat)
    requires
        k <= m,
    ensures
        terms_lexemes(ts, names, style, k).len() <= terms_lexemes(ts, names, style, m).len(),
        forall|x: int|
            0 <= x < terms_lexemes(ts, names, style, k).len() ==> terms_lexemes(ts, names, style, m)[x]
                == terms_lexemes(ts, names, style, k)[x],
    decreases m,
{
    if m > k {
        lemma_terms_lexemes_prefix(ts, names, style, k, (m - 1) as nat);
    }
}

/// A literal's tokens parse as a factor: its variable, negated when the literal is.
proof fn lemma_literal_parse(
    tl: Seq<Lexeme>,
    q: int,
    positive: bool,
    t: Seq<Seq<char>>,
    names: Seq<Seq<char>>,
    i: nat,
) -> (r: (Formula, Seq<Seq<char>>))
    requires
        names.no_duplicates(),
        names.len() <= MAX_VARIABLES,
        table_from(t, names),
        i < names.len(),
        0 <= q,
        q + literal_lexemes(names[i as int], positive).len() <= tl.len(),
        forall|x: int|
            0 <= x < literal_lexemes(names[i as int], positive).len() ==> tl[q + x] == literal_lexemes(
                names[i as int],
                positive,
            )[x],
    ensures
        not_spec(tl, q, t) == Ok::<Parsed, crate::algebraic::Failure>(
            Parsed { formula: r.0, pos: q + literal_lexemes(names[i as int], positive).len(), names: r.1 },
        ),
        table_from(r.1, names),
        extends_table(r.1, t),
        formula_within(r.0, r.1.len()),
        forall|env: spec_fn(Seq<char>) -> bool|
            #[trigger] r.0.holds(by_name(env, r.1)) == (env(names[i as int]) == positive),
        t == names ==> r.1 == names && r.0.dnf() == seq![literal(i + 1, i as int, positive)],
{
    let name = names[i as int];
    let (t2, j) = lemma_register_name(t, names, i);
    if t == names {
        assert(names.contains(name)) by {
            assert(names[i as int] == name);
        }
        assert(t2 == names);
        assert(j == i) by {
            assert(names[j as int] == names[i as int]);
        }
        assert(Formula::Var(j).dnf() == var_dnf(j));
        lemma_not_var_dnf(j);
    }
    assert forall|env: spec_fn(Seq<char>) -> bool| #[trigger] by_name(env, t2)(j) == env(name) by {}
    let lit = literal_lexemes(name, positive);
    assert(tl[q + 0] == lit[0]);
    if positive {
        assert(lit[0] == Lexeme::Var(name));
        assert(tl[q] == Lexeme::Var(name));
        assert(primary_spec(tl, q, t) == Ok::<Parsed, crate::algebraic::Failure>(
            Parsed { formula: Formula::Var(j), pos: q + 1, names: t2 },
        ));
        assert forall|env: spec_fn(Seq<char>) -> bool|
            #[trigger] Formula::Var(j).holds(by_name(env, t2)) == (env(name) == positive) by {
            assert(by_name(env, t2)(j) == env(name));
        }
        (Formula::Var(j), t2)
    } else {
        assert(lit[0] == Lexeme::Not && lit[1] == Lexeme::Var(name));
        assert(tl[q + 1] == lit[1]);
        assert(tl[q] == Lexeme::Not);
        assert(tl[q + 1] == Lexeme::Var(name));
        assert(primary_spec(tl, q + 1, t) == Ok::<Parsed, crate::algebraic::Failure>(
            Parsed { formula: Formula::Var(j), pos: q + 2, names: t2 },
        ));
        assert(not_spec(tl, q + 1, t) == primary_spec(tl, q + 1, t));
        let f = Formula::Not(Box::new(Formula::Var(j)));
        assert(formula_within(Formula::Var(j), t2.len()));
        assert forall|env: spec_fn(Seq<char>) -> bool|
            #[trigger] f.holds(by_name(env, t2)) == (env(name) == positive) by {
            assert(by_name(env, t2)(j) == env(name));
            assert(Formula::Var(j).holds(by_name(env, t2)) == env(name));
        }
        (f, t2)
    }
}

// ----------------------------------------------------------------------------------------------------------------------
// The DNF that the parser builds for a rendered product term.

/// The literals of `c` below `k`, as wide as `c`.
pub open spec fn restrict(c: Conjunction, k: nat) -> Conjunction {
    Conjunction {
        terms: Seq::new(c.terms.len(), |j: int| j < k && c.mask[j] && c.terms[j]),
        mask: Seq::new(c.terms.len(), |j: int| j < k && c.mask[j]),
    }
}

proof fn lemma_negated_none(l: Conjunction, k: nat)
    requires
        k <= l.mask.len(),
        forall|j: int| 0 <= j < k ==> !#[trigger] l.mask[j],
    ensures
        negated_literals(l, k) == Seq::<Conjunction>::empty(),
    decreases k,
{
    if k > 0 {
        lemma_negated_none(l, (k - 1) as nat);
    }
}

/// A negated variable reads as the one negative literal, as wide as the variable needs.
proof fn lemma_not_var_dnf(i: nat)
    ensures
        Formula::Not(Box::new(Formula::Var(i))).dnf() == seq![literal(i + 1, i as int, false)],
{
    let l = literal(i + 1, i as int, true);
    let n = literal(i + 1, i as int, false);
    let tc = true_conjunction();
    assert(var_dnf(i) == seq![l]);
    assert(seq![l].drop_last() =~= Seq::<Conjunction>::empty());
    assert(seq![l].last() == l);
    lemma_negated_none(l, i);
    assert(literal(l.terms.len(), i as int, !l.terms[i as int]) == n);
    assert(negated_literals(l, i + 1) =~= seq![n]);
    assert(complement(Seq::<Conjunction>::empty()) == seq![tc]);
    assert(complement(seq![l].drop_last()) == seq![tc]);
    assert(!l.is_false());
    assert(complement(seq![l]) == conjoin_all(seq![tc], seq![n]));
    let c = conjoin(tc, n);
    if i > 0 {
        assert(!conflict(n, tc));
        assert(merge(n, tc).terms =~= n.terms);
        assert(merge(n, tc).mask =~= n.mask);
    } else {
        assert(!conflict(tc, n));
        assert(merge(tc, n).terms =~= n.terms);
        assert(merge(tc, n).mask =~= n.mask);
    }
    assert(c == n);
    assert(seq![n].drop_last() =~= Seq::<Conjunction>::empty());
    assert(seq![n].last() == n);
    assert(conjoin_row(tc, Seq::<Conjunction>::empty()) == Seq::<Conjunction>::empty());
    assert(conjoin_row(tc, seq![n].drop_last()) == Seq::<Conjunction>::empty());
    assert(!n.is_false());
    assert(Seq::<Conjunction>::empty().push(n) =~= seq![n]);
    assert(conjoin_row(tc, seq![n]) =~= seq![n]);
    assert(seq![tc].drop_last() =~= Seq::<Conjunction>::empty());
    assert(seq![tc].last() == tc);
    assert(conjoin_all(Seq::<Conjunction>::empty(), seq![n]) == Seq::<Conjunction>::empty());
    assert(conjoin_all(seq![tc].drop_last(), seq![n]) == Seq::<Conjunction>::empty());
    assert(conjoin_all(seq![tc], seq![n]) =~= seq![n]);
    assert(Formula::Var(i).dnf() == var_dnf(i));
    assert(Formula::Not(Box::new(Formula::Var(i))).dnf() == complement(Formula::Var(i).dnf()));
}

/// The needed width reads the mask alone.
proof fn lemma_needed_width_mask(a: Conjunction, b: Conjunction, k: nat)
    requires
        k <= a.mask.len(),
        k <= b.mask.len(),
        forall|j: int| 0 <= j < k ==> a.mask[j] == b.mask[j],
    ensures
        needed_width(a, k) == needed_width(b, k),
    decreases k,
{
    if k > 0 {
        lemma_needed_width_mask(a, b, (k - 1) as nat);
    }
}

/// With the last variable below `len` at `m - 1`, a conjunction needs width `m`.
proof fn lemma_needed_width_at(c: Conjunction, len: nat, m: nat)
    requires
        1 <= m <= len <= c.mask.len(),
        c.mask[m - 1],
        forall|j: int| m <= j < len ==> !#[trigger] c.mask[j],
    ensures
        needed_width(c, len) == m,
    decreases len,
{
    if len > m {
        lemma_needed_width_at(c, (len - 1) as nat, m);
    }
}

/// The last variable of `c` below `k`, when there is one.
proof fn lemma_last_literal(c: Conjunction, k: nat) -> (last: nat)
    requires
        k <= c.mask.len(),
        exists|j: int| 0 <= j < k && #[trigger] c.mask[j],
    ensures
        last < k,
        c.mask[last as int],
        forall|j: int| last < j < k ==> !#[trigger] c.mask[j],
    decreases k,
{
    if c.mask[k - 1] {
        (k - 1) as nat
    } else {
        let j = choose|j: int| 0 <= j < k && #[trigger] c.mask[j];
        assert(j < k - 1);
        lemma_last_literal(c, (k - 1) as nat)
    }
}

/// The first literal of a term reads as the canonical conjunction of the literals up to it.
proof fn lemma_first_restrict(c: Conjunction, k0: nat)
    requires
        c.wf(),
        k0 < c.terms.len(),
        c.mask[k0 as int],
        forall|j: int| 0 <= j < k0 ==> !#[trigger] c.mask[j],
    ensures
        literal(k0 + 1, k0 as int, c.terms[k0 as int]) == tidy(restrict(c, k0 + 1)),
{
    let r = restrict(c, k0 + 1);
    lemma_needed_width_at(r, r.mask.len(), k0 + 1);
    assert(tidy(r).terms =~= literal(k0 + 1, k0 as int, c.terms[k0 as int]).terms);
    assert(tidy(r).mask =~= literal(k0 + 1, k0 as int, c.terms[k0 as int]).mask);
}

/// Adding the next literal `k` of a term to the canonical conjunction of those before it gives the canonical
/// conjunction of the literals up to `k`.
proof fn lemma_restrict_step(c: Conjunction, k: nat)
    requires
        c.wf(),
        k < c.terms.len(),
        c.mask[k as int],
        exists|j: int| 0 <= j < k && #[trigger] c.mask[j],
    ensures
        conjoin_all(seq![tidy(restrict(c, k))], seq![literal(k + 1, k as int, c.terms[k as int])]) == seq![
            tidy(restrict(c, k + 1)),
        ],
{
    let r = restrict(c, k);
    let r1 = restrict(c, k + 1);
    let l = tidy(r);
    let g = literal(k + 1, k as int, c.terms[k as int]);
    let last = lemma_last_literal(c, k);
    assert(r.mask[last as int]);
    lemma_needed_width_at(r, r.mask.len(), last + 1);
    assert(r1.mask[k as int]);
    lemma_needed_width_at(r1, r1.mask.len(), k + 1);
    let m = merge(g, l);
    assert(!conflict(g, l));
    assert(m.terms =~= tidy(r1).terms) by {
        assert forall|j: int| 0 <= j < k + 1 implies m.terms[j] == tidy(r1).terms[j] by {
            if last < j < k {
                assert(!c.mask[j]);
            }
        }
    }
    assert(m.mask =~= tidy(r1).mask) by {
        assert forall|j: int| 0 <= j < k + 1 implies m.mask[j] == tidy(r1).mask[j] by {
            if last < j < k {
                assert(!c.mask[j]);
            }
        }
    }
    assert(conjoin(l, g) == tidy(r1));
    assert(seq![g].drop_last() =~= Seq::<Conjunction>::empty());
    assert(seq![g].last() == g);
    assert(conjoin_row(l, Seq::<Conjunction>::empty()) == Seq::<Conjunction>::empty());
    assert(conjoin_row(l, seq![g].drop_last()) == Seq::<Conjunction>::empty());
    assert(!tidy(r1).is_false());
    assert(Seq::<Conjunction>::empty().push(tidy(r1)) =~= seq![tidy(r1)]);
    assert(conjoin_row(l, seq![g]) =~= seq![tidy(r1)]);
    assert(seq![l].drop_last() =~= Seq::<Conjunction>::empty());
    assert(seq![l].last() == l);
    assert(conjoin_all(Seq::<Conjunction>::empty(), seq![g]) == Seq::<Conjunction>::empty());
    assert(conjoin_all(seq![l].drop_last(), seq![g]) == Seq::<Conjunction>::empty());
    assert(conjoin_all(seq![l], seq![g]) =~= seq![tidy(r1)]);
}

/// All the literals of a term read as the term's canonical form.
proof fn lemma_restrict_all(c: Conjunction)
    requires
        c.wf(),
        !c.is_false(),
    ensures
        tidy(restrict(c, c.terms.len())) == tidy(c),
{
    let r = restrict(c, c.terms.len());
    lemma_needed_width_mask(r, c, c.terms.len());
    lemma_needed_width(c, c.mask.len());
    assert(r.mask.len() == c.mask.len());
    assert(tidy(r).terms =~= tidy(c).terms);
    assert(tidy(r).mask =~= tidy(c).mask);
}

/// The tokens of a term stand in `tl` at `p`, followed by the end or an OR.
pub open spec fn term_at(tl: Seq<Lexeme>, p: int, c: Conjunction, names: Seq<Seq<char>>, style: AlgebraicStyle) -> bool {
    let tt = term_lexemes(c, names, style, c.terms.len());
    &&& 0 <= p
    &&& p + tt.len() <= tl.len()
    &&& forall|x: int| 0 <= x < tt.len() ==> tl[p + x] == tt[x]
    &&& (p + tt.len() == tl.len() || tl[p + tt.len()] is Or)
}

/// After the literals below `k`, the `( AND? not )*` loop reads the rest of the term's literals.
proof fn lemma_and_tail(
    tl: Seq<Lexeme>,
    p: int,
    c: Conjunction,
    names: Seq<Seq<char>>,
    style: AlgebraicStyle,
    k: nat,
    t: Seq<Seq<char>>,
    left: Formula,
    exact: bool,
) -> (r: (Formula, Seq<Seq<char>>))
    requires
        names.no_duplicates(),
        names.len() <= MAX_VARIABLES,
        c.wf(),
        c.within(names.len()),
        term_at(tl, p, c, names, style),
        k <= c.terms.len(),
        term_lexemes(c, names, style, k).len() > 0,
        table_from(t, names),
        formula_within(left, t.len()),
        forall|env: spec_fn(Seq<char>) -> bool| #[trigger] left.holds(by_name(env, t)) == literals_hold(c, names, k, env),
        exists|j: int| 0 <= j < k && #[trigger] c.mask[j],
        exact ==> t == names && left.dnf() == seq![tidy(restrict(c, k))],
    ensures
        and_tail_spec(tl, p + term_lexemes(c, names, style, k).len(), t, left) == Ok::<Parsed, crate::algebraic::Failure>(
            Parsed { formula: r.0, pos: p + term_lexemes(c, names, style, c.terms.len()).len(), names: r.1 },
        ),
        table_from(r.1, names),
        extends_table(r.1, t),
        formula_within(r.0, r.1.len()),
        forall|env: spec_fn(Seq<char>) -> bool|
            #[trigger] r.0.holds(by_name(env, r.1)) == literals_hold(c, names, c.terms.len(), env),
        exact ==> r.1 == names && r.0.dnf() == seq![tidy(restrict(c, c.terms.len()))],
    decreases c.terms.len() - k,
{
    let n = c.terms.len();
    let tt = term_lexemes(c, names, style, n);
    let here = term_lexemes(c, names, style, k);
    let q = p + here.len();
    if k == n {
        if q < tl.len() {
            assert(tl[q] is Or);
            assert(!starts_factor(tl[q]));
        }
        assert(extends_table(t, t));
        (left, t)
    } else {
        lemma_term_lexemes_prefix(c, names, style, k, (k + 1) as nat);
        lemma_term_lexemes_prefix(c, names, style, (k + 1) as nat, n);
        let next = term_lexemes(c, names, style, (k + 1) as nat);
        if !c.mask[k as int] {
            assert(next == here);
            assert forall|env: spec_fn(Seq<char>) -> bool| #[trigger] left.holds(by_name(env, t)) == literals_hold(
                c,
                names,
                (k + 1) as nat,
                env,
            ) by {
                assert(literals_hold(c, names, (k + 1) as nat, env) == literals_hold(c, names, k, env));
            }
            assert(restrict(c, (k + 1) as nat).terms =~= restrict(c, k).terms);
            assert(restrict(c, (k + 1) as nat).mask =~= restrict(c, k).mask);
            let j = choose|j: int| 0 <= j < k && #[trigger] c.mask[j];
            assert(0 <= j < k + 1 && c.mask[j]);
            lemma_and_tail(tl, p, c, names, style, (k + 1) as nat, t, left, exact)
        } else {
            assert(k < names.len());
            let name = names[k as int];
            assert(variable_name(names, k) == name);
            let positive = c.terms[k as int];
            let lit = literal_lexemes(name, positive);
            let sep = if here.len() > 0 && !(style is Common) {
                seq![Lexeme::And]
            } else {
                Seq::<Lexeme>::empty()
            };
            assert(next == here + sep + lit);
            let start = q + sep.len();
            assert forall|x: int| 0 <= x < sep.len() + lit.len() implies tl[q + x] == (sep + lit)[x] by {
                assert(tl[p + (here.len() + x)] == tt[here.len() + x]);
                assert(tt[here.len() + x] == next[here.len() + x]);
            }
            assert(tl[q] == (sep + lit)[0]);
            assert(tl[q] is And || starts_factor(tl[q]));
            assert forall|x: int| 0 <= x < lit.len() implies tl[start + x] == lit[x] by {
                assert(tl[q + (sep.len() + x)] == (sep + lit)[sep.len() + x]);
            }
            let (g, t2) = lemma_literal_parse(tl, start, positive, t, names, k);
            let f = Formula::And(Box::new(left), Box::new(g));
            assert(start + lit.len() == p + next.len());
            assert(and_tail_spec(tl, q, t, left) == and_tail_spec(tl, p + next.len(), t2, f));
            assert forall|env: spec_fn(Seq<char>) -> bool| #[trigger] f.holds(by_name(env, t2)) == literals_hold(
                c,
                names,
                (k + 1) as nat,
                env,
            ) by {
                lemma_extend_meaning(left, t, t2, env);
                assert(left.holds(by_name(env, t)) == literals_hold(c, names, k, env));
                assert(g.holds(by_name(env, t2)) == (env(name) == positive));
                if literals_hold(c, names, (k + 1) as nat, env) {
                    assert(c.mask[k as int]);
                }
            }
            lemma_extend_meaning(left, t, t2, |y: Seq<char>| true);
            if exact {
                assert(f.dnf() == crate::model::conjoin_all(left.dnf(), g.dnf()));
                lemma_restrict_step(c, k);
            }
            let j = choose|j: int| 0 <= j < k && #[trigger] c.mask[j];
            assert(0 <= j < k + 1 && c.mask[j]);
            let r = lemma_and_tail(tl, p, c, names, style, (k + 1) as nat, t2, f, exact);
            r
        }
    }
}

/// The first literal of a term that has one.
proof fn lemma_first_literal(c: Conjunction, n: nat) -> (k0: nat)
    requires
        n <= c.mask.len(),
        exists|i: int| 0 <= i < n && #[trigger] c.mask[i],
    ensures
        k0 < n,
        c.mask[k0 as int],
        forall|i: int| 0 <= i < k0 ==> !#[trigger] c.mask[i],
    decreases n,
{
    if exists|i: int| 0 <= i < n - 1 && #[trigger] c.mask[i] {
        lemma_first_literal(c, (n - 1) as nat)
    } else {
        let i = choose|i: int| 0 <= i < n && #[trigger] c.mask[i];
        assert(i == n - 1);
        (n - 1) as nat
    }
}

/// A product term's tokens parse, by the `and` rule, as a formula that holds exactly when the term does, name for name.
proof fn lemma_term_parse(
    tl: Seq<Lexeme>,
    p: int,
    c: Conjunction,
    names: Seq<Seq<char>>,
    style: AlgebraicStyle,
    t: Seq<Seq<char>>,
) -> (r: (Formula, Seq<Seq<char>>))
    requires
        names.no_duplicates(),
        names.len() <= MAX_VARIABLES,
        c.wf(),
        c.within(names.len()),
        !c.is_false(),
        !c.is_true(),
        term_at(tl, p, c, names, style),
        table_from(t, names),
    ensures
        and_spec(tl, p, t) == Ok::<Parsed, crate::algebraic::Failure>(
            Parsed { formula: r.0, pos: p + term_lexemes(c, names, style, c.terms.len()).len(), names: r.1 },
        ),
        table_from(r.1, names),
        extends_table(r.1, t),
        formula_within(r.0, r.1.len()),
        forall|env: spec_fn(Seq<char>) -> bool| #[trigger] r.0.holds(by_name(env, r.1)) == c.holds(by_name(env, names)),
        t == names ==> r.1 == names && r.0.dnf() == seq![tidy(c)],
{
    let n = c.terms.len();
    let k0 = lemma_first_literal(c, n);
    lemma_term_lexemes_len(c, names, style, k0);
    lemma_term_lexemes_prefix(c, names, style, (k0 + 1) as nat, n);
    let tt = term_lexemes(c, names, style, n);
    let first = term_lexemes(c, names, style, (k0 + 1) as nat);
    assert(k0 < names.len());
    let name = names[k0 as int];
    assert(variable_name(names, k0) == name);
    let positive = c.terms[k0 as int];
    let lit = literal_lexemes(name, positive);
    assert(term_lexemes(c, names, style, k0).len() == 0);
    assert(first =~= lit);
    assert forall|x: int| 0 <= x < lit.len() implies tl[p + x] == lit[x] by {
        assert(tt[x] == first[x]);
    }
    let (g, t1) = lemma_literal_parse(tl, p, positive, t, names, k0);
    assert forall|env: spec_fn(Seq<char>) -> bool| #[trigger] g.holds(by_name(env, t1)) == literals_hold(
        c,
        names,
        (k0 + 1) as nat,
        env,
    ) by {
        assert(g.holds(by_name(env, t1)) == (env(name) == positive));
        if env(name) == positive {
            assert forall|i: int| 0 <= i < k0 + 1 && #[trigger] c.mask[i] implies env(names[i]) == c.terms[i] by {
                assert(i == k0);
            }
        }
    }
    assert(and_spec(tl, p, t) == and_tail_spec(tl, p + first.len(), t1, g));
    lemma_first_restrict(c, k0);
    lemma_restrict_all(c);
    assert(0 <= k0 < k0 + 1 && c.mask[k0 as int]);
    let (f, t2) = lemma_and_tail(tl, p, c, names, style, (k0 + 1) as nat, t1, g, t == names);
    assert forall|env: spec_fn(Seq<char>) -> bool| #[trigger] f.holds(by_name(env, t2)) == c.holds(by_name(env, names)) by {
        lemma_term_meaning(c, names, env);
    }
    (f, t2)
}

/// Without a product term but `false` sentinels below `k`, the tokens are empty.
proof fn lemma_terms_lexemes_len(ts: Seq<Conjunction>, names: Seq<Seq<char>>, style: AlgebraicStyle, k: nat)
    requires
        k <= ts.len(),
        forall|j: int| 0 <= j < k ==> (#[trigger] ts[j]).is_false(),
    ensures
        terms_lexemes(ts, names, style, k).len() == 0,
    decreases k,
{
    if k > 0 {
        lemma_terms_lexemes_len(ts, names, style, (k - 1) as nat);
    }
}

/// After some product terms, what follows in the tokens is the end or an OR.
proof fn lemma_or_stopper(ts: Seq<Conjunction>, names: Seq<Seq<char>>, style: AlgebraicStyle, k: nat)
    requires
        k <= ts.len(),
        terms_lexemes(ts, names, style, k).len() > 0,
    ensures
        ({
            let all = terms_lexemes(ts, names, style, ts.len());
            let here = terms_lexemes(ts, names, style, k).len();
            here == all.len() || (here < all.len() && all[here as int] is Or)
        }),
    decreases ts.len() - k,
{
    if k < ts.len() {
        let here = terms_lexemes(ts, names, style, k);
        let next = terms_lexemes(ts, names, style, (k + 1) as nat);
        if ts[k as int].is_false() {
            assert(next == here);
            lemma_or_stopper(ts, names, style, (k + 1) as nat);
        } else {
            lemma_terms_lexemes_prefix(ts, names, style, (k + 1) as nat, ts.len());
            assert(next[here.len() as int] == Lexeme::Or);
        }
    }
}

/// A product term's tokens stand in the expression's tokens right after those of the terms before it (and the OR).
proof fn lemma_term_in_terms(ts: Seq<Conjunction>, names: Seq<Seq<char>>, style: AlgebraicStyle, k: nat)
    requires
        k < ts.len(),
        !ts[k as int].is_false(),
        !ts[k as int].is_true(),
        ts[k as int].wf(),
    ensures
        ({
            let all = terms_lexemes(ts, names, style, ts.len());
            let here = terms_lexemes(ts, names, style, k);
            let sep = if here.len() > 0 {
                1int
            } else {
                0int
            };
            &&& terms_lexemes(ts, names, style, (k + 1) as nat).len() > 0
            &&& here.len() > 0 ==> all[here.len() as int] is Or
            &&& term_at(all, here.len() + sep, ts[k as int], names, style)
        }),
{
    let all = terms_lexemes(ts, names, style, ts.len());
    let here = terms_lexemes(ts, names, style, k);
    let next = terms_lexemes(ts, names, style, (k + 1) as nat);
    let c = ts[k as int];
    let tt = term_lexemes(c, names, style, c.terms.len());
    let sep = if here.len() > 0 {
        seq![Lexeme::Or]
    } else {
        Seq::<Lexeme>::empty()
    };
    assert(next == here + sep + tt);
    lemma_terms_lexemes_prefix(ts, names, style, (k + 1) as nat, ts.len());
    let p = here.len() + sep.len();
    assert forall|x: int| 0 <= x < tt.len() implies all[p + x] == tt[x] by {
        assert(all[p + x] == next[p + x]);
    }
    if here.len() > 0 {
        assert(all[here.len() as int] == next[here.len() as int]);
    }
    assert(next.len() > 0) by {
        lemma_term_lexemes_len(c, names, style, c.terms.len());
        if tt.len() == 0 {
            assert(c.is_true());
        }
    }
    if next.len() > 0 {
        lemma_or_stopper(ts, names, style, (k + 1) as nat);
    }
}

/// After the product terms below `k`, the `( (OR | XOR) and )*` loop reads the rest of them.
proof fn lemma_or_tail(
    ts: Seq<Conjunction>,
    names: Seq<Seq<char>>,
    style: AlgebraicStyle,
    k: nat,
    t: Seq<Seq<char>>,
    left: Formula,
    exact: bool,
) -> (r: (Formula, Seq<Seq<char>>))
    requires
        names.no_duplicates(),
        names.len() <= MAX_VARIABLES,
        all_wf(ts),
        all_within(ts, names.len()),
        !any_true(ts),
        k <= ts.len(),
        terms_lexemes(ts, names, style, k).len() > 0,
        table_from(t, names),
        formula_within(left, t.len()),
        forall|env: spec_fn(Seq<char>) -> bool| #[trigger] left.holds(by_name(env, t)) == some_term_holds(ts, names, k, env),
        exact ==> t == names && left.dnf() == tidy_all(live_terms(ts.subrange(0, k as int))),
    ensures
        or_tail_spec(
            terms_lexemes(ts, names, style, ts.len()),
            terms_lexemes(ts, names, style, k).len() as int,
            t,
            left,
        ) == Ok::<Parsed, crate::algebraic::Failure>(
            Parsed { formula: r.0, pos: terms_lexemes(ts, names, style, ts.len()).len() as int, names: r.1 },
        ),
        table_from(r.1, names),
        extends_table(r.1, t),
        formula_within(r.0, r.1.len()),
        forall|env: spec_fn(Seq<char>) -> bool|
            #[trigger] r.0.holds(by_name(env, r.1)) == some_term_holds(ts, names, ts.len(), env),
        exact ==> r.1 == names && r.0.dnf() == tidy_all(live_terms(ts)),
    decreases ts.len() - k,
{
    let all = terms_lexemes(ts, names, style, ts.len());
    let here = terms_lexemes(ts, names, style, k);
    if k == ts.len() {
        assert(extends_table(t, t));
        assert(ts.subrange(0, k as int) == ts);
        (left, t)
    } else {
        let c = ts[k as int];
        assert(ts.subrange(0, (k + 1) as int).drop_last() == ts.subrange(0, k as int));
        assert(ts.subrange(0, (k + 1) as int).last() == c);
        let next = terms_lexemes(ts, names, style, (k + 1) as nat);
        if c.is_false() {
            assert(next == here);
            assert forall|env: spec_fn(Seq<char>) -> bool| #[trigger] left.holds(by_name(env, t)) == some_term_holds(
                ts,
                names,
                (k + 1) as nat,
                env,
            ) by {
                if some_term_holds(ts, names, (k + 1) as nat, env) {
                    let j = choose|j: int| 0 <= j < k + 1 && #[trigger] ts[j].holds(by_name(env, names));
                    assert(j != k);
                }
                if some_term_holds(ts, names, k, env) {
                    let j = choose|j: int| 0 <= j < k && #[trigger] ts[j].holds(by_name(env, names));
                    assert(ts[j].holds(by_name(env, names)));
                }
            }
            lemma_or_tail(ts, names, style, (k + 1) as nat, t, left, exact)
        } else {
            assert(c.wf() && c.within(names.len()));
            assert(!c.is_true()) by {
                if c.is_true() {
                    assert(any_true(ts));
                }
            }
            lemma_term_in_terms(ts, names, style, k);
            let q = here.len() as int;
            assert(all[q] is Or);
            let (g, t2) = lemma_term_parse(all, q + 1, c, names, style, t);
            let tt = term_lexemes(c, names, style, c.terms.len());
            assert(next.len() == q + 1 + tt.len());
            let f = Formula::Or(Box::new(left), Box::new(g));
            assert(or_tail_spec(all, q, t, left) == or_tail_spec(all, next.len() as int, t2, f));
            assert forall|env: spec_fn(Seq<char>) -> bool| #[trigger] f.holds(by_name(env, t2)) == some_term_holds(
                ts,
                names,
                (k + 1) as nat,
                env,
            ) by {
                lemma_extend_meaning(left, t, t2, env);
                assert(left.holds(by_name(env, t)) == some_term_holds(ts, names, k, env));
                assert(g.holds(by_name(env, t2)) == c.holds(by_name(env, names)));
                if some_term_holds(ts, names, (k + 1) as nat, env) {
                    let j = choose|j: int| 0 <= j < k + 1 && #[trigger] ts[j].holds(by_name(env, names));
                    if j < k {
                        assert(some_term_holds(ts, names, k, env));
                    }
                }
                if c.holds(by_name(env, names)) {
                    assert(ts[k as int].holds(by_name(env, names)));
                }
                if some_term_holds(ts, names, k, env) {
                    let j = choose|j: int| 0 <= j < k && #[trigger] ts[j].holds(by_name(env, names));
                    assert(ts[j].holds(by_name(env, names)));
                }
            }
            lemma_extend_meaning(left, t, t2, |y: Seq<char>| true);
            if exact {
                assert(f.dnf() == left.dnf() + g.dnf());
                assert(tidy_all(live_terms(ts.subrange(0, (k + 1) as int))) =~= tidy_all(live_terms(ts.subrange(0, k as int)))
                    + seq![tidy(c)]);
            }
            lemma_or_tail(ts, names, style, (k + 1) as nat, t2, f, exact)
        }
    }
}

/// The first product term that is not the `false` sentinel.
proof fn lemma_first_term(ts: Seq<Conjunction>, n: nat) -> (k0: nat)
    requires
        n <= ts.len(),
        exists|j: int| 0 <= j < n && !(#[trigger] ts[j]).is_false(),
    ensures
        k0 < n,
        !ts[k0 as int].is_false(),
        forall|j: int| 0 <= j < k0 ==> (#[trigger] ts[j]).is_false(),
    decreases n,
{
    if exists|j: int| 0 <= j < n - 1 && !(#[trigger] ts[j]).is_false() {
        lemma_first_term(ts, (n - 1) as nat)
    } else {
        let j = choose|j: int| 0 <= j < n && !(#[trigger] ts[j]).is_false();
        assert(j == n - 1);
        (n - 1) as nat
    }
}

/// Parsing the algebraic text of an expression, in any style, starting from an empty table, succeeds when every name
/// of the expression's table is spellable, and the expression that the parser builds (the DNF of the formula read) is
/// true under exactly the values of the names that make the original expression true.
pub proof fn law_algebraic_read_back(
    ts: Seq<Conjunction>,
    names: Seq<Seq<char>>,
    style: AlgebraicStyle,
    env: spec_fn(Seq<char>) -> bool,
)
    requires
        all_wf(ts),
        all_within(ts, names.len()),
        names.no_duplicates(),
        names.len() <= MAX_VARIABLES,
        all_spellable(names),
    ensures
        algebraic_outcome(expression_text(ts, names, style), Seq::empty()) matches Ok((f, t)) && eval(
            f.dnf(),
            by_name(env, t),
        ) == eval(ts, by_name(env, names)),
{
    let t0 = Seq::<Seq<char>>::empty();
    let a = by_name(env, names);
    lemma_expression_text(ts, names, style);
    let tl = expression_lexemes(ts, names, style);
    if any_true(ts) || all_false(ts) {
        let b = any_true(ts);
        assert(tl == seq![Lexeme::Const(b)]);
        assert(primary_spec(tl, 0, t0) == Ok::<Parsed, crate::algebraic::Failure>(
            Parsed { formula: Formula::Const(b), pos: 1, names: t0 },
        ));
        assert(not_spec(tl, 0, t0) == primary_spec(tl, 0, t0));
        assert(and_tail_spec(tl, 1, t0, Formula::Const(b)) == Ok::<Parsed, crate::algebraic::Failure>(
            Parsed { formula: Formula::Const(b), pos: 1, names: t0 },
        ));
        assert(and_spec(tl, 0, t0) == Ok::<Parsed, crate::algebraic::Failure>(
            Parsed { formula: Formula::Const(b), pos: 1, names: t0 },
        ));
        assert(or_tail_spec(tl, 1, t0, Formula::Const(b)) == Ok::<Parsed, crate::algebraic::Failure>(
            Parsed { formula: Formula::Const(b), pos: 1, names: t0 },
        ));
        crate::formula::law_dnf_meaning(Formula::Const(b), by_name(env, t0));
        if b {
            let k = choose|k: int| 0 <= k < ts.len() && (#[trigger] ts[k]).is_true();
            assert(ts[k].holds(a));
        } else if eval(ts, a) {
            let k = choose|k: int| 0 <= k < ts.len() && #[trigger] ts[k].holds(a);
            assert(ts[k].is_false());
        }
    } else {
        let n = ts.len();
        let k0 = lemma_first_term(ts, n);
        lemma_terms_lexemes_len(ts, names, style, k0);
        let c = ts[k0 as int];
        assert(c.wf() && c.within(names.len()));
        assert(!c.is_true()) by {
            if c.is_true() {
                assert(any_true(ts));
            }
        }
        lemma_term_in_terms(ts, names, style, k0);
        assert(table_from(t0, names));
        let (g, t1) = lemma_term_parse(tl, 0, c, names, style, t0);
        let first = terms_lexemes(ts, names, style, (k0 + 1) as nat);
        let tt = term_lexemes(c, names, style, c.terms.len());
        assert(first.len() == tt.len());
        assert forall|env2: spec_fn(Seq<char>) -> bool| #[trigger] g.holds(by_name(env2, t1)) == some_term_holds(
            ts,
            names,
            (k0 + 1) as nat,
            env2,
        ) by {
            assert(g.holds(by_name(env2, t1)) == c.holds(by_name(env2, names)));
            if some_term_holds(ts, names, (k0 + 1) as nat, env2) {
                let j = choose|j: int| 0 <= j < k0 + 1 && #[trigger] ts[j].holds(by_name(env2, names));
                assert(j == k0);
            }
            if c.holds(by_name(env2, names)) {
                assert(ts[k0 as int].holds(by_name(env2, names)));
            }
        }
        let (f, t2) = lemma_or_tail(ts, names, style, (k0 + 1) as nat, t1, g, false);
        assert(or_xor_spec(tl, 0, t0) == or_tail_spec(tl, first.len() as int, t1, g));
        assert(tl.len() > 0);
        crate::formula::law_dnf_meaning(f, by_name(env, t2));
    }
}

/// An expression without `false` sentinels lists all of its product terms as live.
proof fn lemma_live_all(ts: Seq<Conjunction>)
    requires
        no_false(ts),
    ensures
        live_terms(ts) == ts,
    decreases ts.len(),
{
    if ts.len() > 0 {
        let d = ts.drop_last();
        assert forall|k: int| 0 <= k < d.len() implies !(#[trigger] d[k]).is_false() by {
            assert(d[k] == ts[k]);
        }
        lemma_live_all(d);
        assert(ts.last() == ts[ts.len() - 1]);
        assert(d.push(ts.last()) =~= ts);
    }
}

/// Rendering an expression in any style and reading the text back against the expression's own table gives back the
/// same expression: the same product terms, in the same order, and the table unchanged. This holds of an expression
/// over spellable names whose product terms are in canonical form (as the parser makes them), with no `false`
/// sentinel, and which is the constant `true` alone when it holds the empty conjunction.
pub proof fn law_algebraic_round_trip(ts: Seq<Conjunction>, names: Seq<Seq<char>>, style: AlgebraicStyle)
    requires
        all_wf(ts),
        all_within(ts, names.len()),
        names.no_duplicates(),
        names.len() <= MAX_VARIABLES,
        all_spellable(names),
        no_false(ts),
        tidy_all(ts) == ts,
        any_true(ts) ==> ts == seq![true_conjunction()],
    ensures
        algebraic_outcome(expression_text(ts, names, style), names) matches Ok((f, t)) && t == names && tidy_all(
            f.dnf(),
        ) == ts,
{
    let t0 = names;
    lemma_expression_text(ts, names, style);
    let tl = expression_lexemes(ts, names, style);
    if any_true(ts) || all_false(ts) {
        let b = any_true(ts);
        assert(tl == seq![Lexeme::Const(b)]);
        assert(primary_spec(tl, 0, t0) == Ok::<Parsed, crate::algebraic::Failure>(
            Parsed { formula: Formula::Const(b), pos: 1, names: t0 },
        ));
        assert(not_spec(tl, 0, t0) == primary_spec(tl, 0, t0));
        assert(and_tail_spec(tl, 1, t0, Formula::Const(b)) == Ok::<Parsed, crate::algebraic::Failure>(
            Parsed { formula: Formula::Const(b), pos: 1, names: t0 },
        ));
        assert(and_spec(tl, 0, t0) == Ok::<Parsed, crate::algebraic::Failure>(
            Parsed { formula: Formula::Const(b), pos: 1, names: t0 },
        ));
        assert(or_tail_spec(tl, 1, t0, Formula::Const(b)) == Ok::<Parsed, crate::algebraic::Failure>(
            Parsed { formula: Formula::Const(b), pos: 1, names: t0 },
        ));
        assert(Formula::Const(b).dnf() == crate::formula::const_dnf(b));
        let tc = true_conjunction();
        if b {
            assert(needed_width(tc, 1) == 1) by {
                assert(needed_width(tc, 0) == 1);
            }
            assert(tidy(tc).terms =~= tc.terms);
            assert(tidy(tc).mask =~= tc.mask);
            assert(tidy_all(seq![tc]) =~= seq![tc]);
        } else {
            if ts.len() > 0 {
                assert(ts[0].is_false());
            }
            assert(ts =~= Seq::<Conjunction>::empty());
            assert(tidy_all(Seq::<Conjunction>::empty()) =~= Seq::<Conjunction>::empty());
        }
    } else {
        let n = ts.len();
        let k0 = lemma_first_term(ts, n);
        assert(k0 == 0) by {
            if k0 > 0 {
                assert(ts[0].is_false());
            }
        }
        lemma_terms_lexemes_len(ts, names, style, k0);
        let c = ts[k0 as int];
        assert(c.wf() && c.within(names.len()));
        assert(!c.is_true()) by {
            if c.is_true() {
                assert(any_true(ts));
            }
        }
        lemma_term_in_terms(ts, names, style, k0);
        assert(table_from(t0, names));
        let (g, t1) = lemma_term_parse(tl, 0, c, names, style, t0);
        let first = terms_lexemes(ts, names, style, (k0 + 1) as nat);
        let tt = term_lexemes(c, names, style, c.terms.len());
        assert(first.len() == tt.len());
        assert forall|env2: spec_fn(Seq<char>) -> bool| #[trigger] g.holds(by_name(env2, t1)) == some_term_holds(
            ts,
            names,
            (k0 + 1) as nat,
            env2,
        ) by {
            assert(g.holds(by_name(env2, t1)) == c.holds(by_name(env2, names)));
            if some_term_holds(ts, names, (k0 + 1) as nat, env2) {
                let j = choose|j: int| 0 <= j < k0 + 1 && #[trigger] ts[j].holds(by_name(env2, names));
                assert(j == k0);
            }
            if c.holds(by_name(env2, names)) {
                assert(ts[k0 as int].holds(by_name(env2, names)));
            }
        }
        let one = ts.subrange(0, 1);
        assert(one.drop_last() =~= Seq::<Conjunction>::empty());
        assert(one.last() == c);
        assert(live_terms(Seq::<Conjunction>::empty()) == Seq::<Conjunction>::empty());
        assert(live_terms(one.drop_last()) == Seq::<Conjunction>::empty());
        assert(!c.is_false());
        assert(Seq::<Conjunction>::empty().push(c) =~= seq![c]);
        assert(live_terms(one) =~= seq![c]);
        assert(tidy_all(seq![c]) =~= seq![tidy(c)]);
        let (f, t2) = lemma_or_tail(ts, names, style, (k0 + 1) as nat, t1, g, true);
        assert(or_xor_spec(tl, 0, t0) == or_tail_spec(tl, first.len() as int, t1, g));
        assert(tl.len() > 0);
        lemma_live_all(ts);
    }
}

} // verus!
