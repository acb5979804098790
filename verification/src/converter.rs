//! Converter: JsonLogic boolean expression -> DNF [`Expression`].
//!
//! [`to_dnf`] is a recursive descent over a JsonLogic tree that reuses the boolean algebra on [`Expression`]: `|`
//! concatenates product terms, `&` distributes (product of sums -> sum of products), and [`Expression::inverse`]
//! applies De Morgan. Because every operator collapses its operands into DNF as the tree is walked, the result is
//! always in DNF.
//!
//! Accepted operators: the standard JsonLogic `var`, `!`, `and`, `or`, plus the boolean literals `true` / `false`,
//! plus the non-standard Beast extensions `xor`, `nand`, `nor` (input-only; desugared here and never emitted on
//! output). Every other operator is rejected.
//!
//! [`dnf_spec`] is the specification: the [`Formula`] that a tree stands for (and so the DNF that the algebra builds
//! for it), or the error that it is refused with.

use core::ops::{BitAndAssign, BitOrAssign};

use vstd::prelude::*;

use crate::algebraic::{var_literal, xor};
use crate::formula::{law_dnf_meaning, Formula};
use crate::json::{
    items_view, json_view, lemma_items_view_index, lemma_pairs_view_index, pairs_view, Json, JsonValue,
};
use crate::text::{decimal_text, push_decimal, str_debug, str_debug_text};
use crate::variable_table::{register, VariableTable};
use crate::Expression;

verus! {

/// The result of converting a tree with a table holding `names`: the formula and the table afterwards, or the error
/// message and the table as the error left it.
pub type Converted = Result<(Formula, Seq<Seq<char>>), (Seq<char>, Seq<Seq<char>>)>;

/// An n-ary operator that folds its operands.
#[derive(Clone, Copy, PartialEq, Eq, Structural)]
pub enum Fold {
    And,
    Or,
    Xor,
}

/// One step of a fold.
pub open spec fn fold_step(op: Fold, acc: Formula, f: Formula) -> Formula {
    match op {
        Fold::And => Formula::And(Box::new(acc), Box::new(f)),
        Fold::Or => Formula::Or(Box::new(acc), Box::new(f)),
        Fold::Xor => Formula::Xor(Box::new(acc), Box::new(f)),
    }
}

/// The negation of a successful conversion.
pub open spec fn negated(r: Converted) -> Converted {
    match r {
        Ok((f, t)) => Ok((Formula::Not(Box::new(f)), t)),
        Err(e) => Err(e),
    }
}

/// The text of the error for a node that does not have exactly one key.
pub open spec fn key_count_message(n: nat) -> Seq<char> {
    "each node must have exactly one operator key, found "@ + decimal_text(n)
}

/// The text of the error for a `!` with other than one operand.
pub open spec fn bang_arity_message(n: nat) -> Seq<char> {
    "\"!\" takes exactly one operand, found "@ + decimal_text(n)
}

/// The text of the error for a value that is no boolean expression.
pub open spec fn not_boolean_message() -> Seq<char> {
    "expected a boolean expression: an operator object or a boolean literal"@
}

/// The text of the error for an n-ary operator without operands.
pub open spec fn no_operand_message(op: Fold) -> Seq<char> {
    match op {
        Fold::And => "\"and\" requires at least one operand"@,
        Fold::Or => "\"or\" requires at least one operand"@,
        Fold::Xor => "\"xor\" requires at least one operand"@,
    }
}

/// The identity a fold starts from (`true` for AND, `false` for OR).
pub open spec fn fold_start(op: Fold) -> Formula {
    match op {
        Fold::Or => Formula::Const(false),
        _ => Formula::Const(true),
    }
}

/// What a JsonLogic tree stands for.
pub open spec fn dnf_spec(v: JsonValue, names: Seq<Seq<char>>) -> Converted
    decreases v, 0int,
{
    match v {
        JsonValue::Bool(b) => Ok((Formula::Const(b), names)),
        JsonValue::Object(ps) => {
            if ps.len() != 1 {
                Err((key_count_message(ps.len()), names))
            } else {
                let op = ps[0].0;
                let value = ps[0].1;
                if op == "var"@ {
                    match value {
                        JsonValue::Str(name) => match register(names, name) {
                            Ok((t, i)) => Ok((Formula::Var(i), t)),
                            Err(m) => Err((m, names)),
                        },
                        _ => Err(("\"var\" requires a string variable name"@, names)),
                    }
                } else if op == "!"@ {
                    match value {
                        JsonValue::Array(items) => if items.len() == 1 {
                            negated(dnf_spec(items[0], names))
                        } else {
                            Err((bang_arity_message(items.len()), names))
                        },
                        _ => negated(dnf_spec(value, names)),
                    }
                } else if op == "and"@ {
                    fold_spec(Fold::And, value, names)
                } else if op == "or"@ {
                    fold_spec(Fold::Or, value, names)
                } else if op == "nand"@ {
                    negated(fold_spec(Fold::And, value, names))
                } else if op == "nor"@ {
                    negated(fold_spec(Fold::Or, value, names))
                } else if op == "xor"@ {
                    fold_spec(Fold::Xor, value, names)
                } else {
                    Err(("unsupported operator "@ + str_debug_text(op), names))
                }
            }
        },
        _ => Err((not_boolean_message(), names)),
    }
}

/// An n-ary operator over its operands: the elements of an array, or a bare value as the one operand.
pub open spec fn fold_spec(op: Fold, value: JsonValue, names: Seq<Seq<char>>) -> Converted
    decreases value, 1int,
{
    match value {
        JsonValue::Array(items) => if items.len() == 0 {
            Err((no_operand_message(op), names))
        } else if op is Xor {
            match dnf_spec(items[0], names) {
                Err(e) => Err(e),
                Ok((f, t)) => fold_items(op, items, 1, f, t),
            }
        } else {
            fold_items(op, items, 0, fold_start(op), names)
        },
        _ => match dnf_spec(value, names) {
            Err(e) => Err(e),
            Ok((f, t)) => if op is Xor {
                Ok((f, t))
            } else {
                Ok((fold_step(op, fold_start(op), f), t))
            },
        },
    }
}

/// The fold of the operands from `k` on, with `acc` so far.
pub open spec fn fold_items(op: Fold, items: Seq<JsonValue>, k: int, acc: Formula, names: Seq<Seq<char>>) -> Converted
    decreases items, items.len() - k,
{
    if k < 0 || k >= items.len() {
        Ok((acc, names))
    } else {
        match dnf_spec(items[k], names) {
            Err(e) => Err(e),
            Ok((f, t)) => fold_items(op, items, k + 1, fold_step(op, acc, f), t),
        }
    }
}

// ----------------------------------------------------------------------------------------------------------------------
// The converter.

/// The executable result `r`, with `names` the table afterwards, is the conversion `c`.
pub open spec fn converted_matches(r: Result<Expression, String>, c: Converted, names: Seq<Seq<char>>) -> bool {
    match c {
        Ok((f, t)) => r matches Ok(e) && e@ == f.dnf() && names == t && e.names() == Seq::<Seq<char>>::empty(),
        Err((m, t)) => r matches Err(x) && x@ == m && names == t,
    }
}

/// The DNF of a formula is well formed.
proof fn lemma_wf(f: Formula)
    ensures
        crate::model::all_wf(f.dnf()),
{
    law_dnf_meaning(f, |i: nat| true);
}

fn message(text: &str) -> (r: String)
    ensures
        r@ == text@,
{
    text.to_owned()
}

/// The text of the error for an n-ary operator without operands.
fn no_operand(op: Fold) -> (r: String)
    ensures
        r@ == no_operand_message(op),
{
    proof {
        reveal_strlit("\"and\" requires at least one operand");
        reveal_strlit("\"or\" requires at least one operand");
        reveal_strlit("\"xor\" requires at least one operand");
    }
    match op {
        Fold::And => message("\"and\" requires at least one operand"),
        Fold::Or => message("\"or\" requires at least one operand"),
        Fold::Xor => message("\"xor\" requires at least one operand"),
    }
}

/// The identity a fold starts from.
fn start_of(op: Fold) -> (r: Expression)
    ensures
        r@ == fold_start(op).dnf(),
        r.names() == Seq::<Seq<char>>::empty(),
{
    match op {
        Fold::Or => {
            let e = Expression::constant_false();
            proof {
                assert(e@ =~= crate::formula::const_dnf(false));
            }
            e
        },
        _ => Expression::constant_true(),
    }
}

/// One step of a fold, on expressions.
fn step(op: Fold, acc: Expression, next: &Expression) -> (r: Expression)
    requires
        acc.wf(),
        next.wf(),
    ensures
        forall|f: Formula, g: Formula| acc@ == f.dnf() && next@ == g.dnf() ==> r@ == fold_step(op, f, g).dnf(),
        r.names() == acc.names(),
{
    match op {
        Fold::And => {
            let mut a = acc;
            a.bitand_assign(next);
            a
        },
        Fold::Or => {
            let mut a = acc;
            a.bitor_assign(next);
            a
        },
        Fold::Xor => xor(acc, next),
    }
}

/// Parses a JsonLogic boolean expression into a DNF [`Expression`], registering variables in `table`.
///
/// # Errors
///
/// Returns `Err` with a human-readable message when the tree is not a valid boolean expression:
/// - a node object that does not have exactly one operator key,
/// - an unsupported operator (any non-boolean JsonLogic operator),
/// - an operator applied with the wrong arity (`!` with other than one operand, or empty `and` / `or` / `xor`),
/// - a `var` whose value is not a string, or a bare array / number / string / null where a boolean expression was
///   expected,
/// - more variables than [`MAX_VARIABLES`](crate::quine_mccluskey::MAX_VARIABLES) (surfaced from `table`).
pub fn to_dnf(json: &Json, table: &mut VariableTable) -> (r: Result<Expression, String>)
    requires
        old(table).wf(),
    ensures
        final(table).wf(),
        converted_matches(r, dnf_spec(json@, old(table)@), final(table)@),
    decreases json, 0int,
{
    match json {
        Json::Bool(b) => {
            if *b {
                Ok(Expression::constant_true())
            } else {
                let e = Expression::constant_false();
                proof {
                    assert(e@ =~= crate::formula::const_dnf(false));
                }
                Ok(e)
            }
        },
        Json::Object(pairs) => {
            if pairs.len() != 1 {
                proof {
                    crate::json::lemma_pairs_view_len(pairs@, pairs@.len() as int);
                }
                let mut m = message("each node must have exactly one operator key, found ");
                push_decimal(&mut m, pairs.len());
                proof {
                    reveal_strlit("each node must have exactly one operator key, found ");
                }
                return Err(m);
            }
            let op = &pairs[0].0;
            let value = &pairs[0].1;
            proof {
                lemma_pairs_view_index(pairs@, 1, 0);
                assert(*pairs == json->Object_0);
                assert(decreases_to!(*json => json->Object_0));
                assert(decreases_to!(json->Object_0 => json->Object_0@));
                assert(decreases_to!(json->Object_0@ => json->Object_0@[0]));
                assert(decreases_to!(json->Object_0@[0] => json->Object_0@[0].1));
                reveal_strlit("var");
                reveal_strlit("!");
                reveal_strlit("and");
                reveal_strlit("or");
                reveal_strlit("nand");
                reveal_strlit("nor");
                reveal_strlit("xor");
            }
            if *op == message("var") {
                match value {
                    Json::String(name) => {
                        match table.index_of(name.as_str()) {
                            Err(e) => Err(e),
                            Ok(i) => Ok(var_literal(i)),
                        }
                    },
                    _ => {
                        proof {
                            reveal_strlit("\"var\" requires a string variable name");
                        }
                        Err(message("\"var\" requires a string variable name"))
                    },
                }
            } else if *op == message("!") {
                let operand: &Json = match value {
                    Json::Array(items) => {
                        if items.len() != 1 {
                            proof {
                                crate::json::lemma_items_view_len(items@, items@.len() as int);
                            }
                            let mut m = message("\"!\" takes exactly one operand, found ");
                            push_decimal(&mut m, items.len());
                            proof {
                                reveal_strlit("\"!\" takes exactly one operand, found ");
                            }
                            return Err(m);
                        }
                        proof {
                            lemma_items_view_index(items@, 1, 0);
                            assert(*items == value->Array_0);
                            assert(decreases_to!(*value => value->Array_0));
                            assert(decreases_to!(value->Array_0 => value->Array_0@));
                            assert(decreases_to!(value->Array_0@ => value->Array_0@[0]));
                        }
                        &items[0]
                    },
                    _ => value,
                };
                match to_dnf(operand, table) {
                    Err(e) => Err(e),
                    Ok(e) => {
                        proof {
                            lemma_wf(dnf_spec(operand@, old(table)@)->Ok_0.0);
                        }
                        Ok(e.inverse())
                    },
                }
            } else if *op == message("and") {
                fold(Fold::And, value, table)
            } else if *op == message("or") {
                fold(Fold::Or, value, table)
            } else if *op == message("nand") {
                match fold(Fold::And, value, table) {
                    Err(e) => Err(e),
                    Ok(e) => {
                        proof {
                            lemma_wf(fold_spec(Fold::And, value@, old(table)@)->Ok_0.0);
                        }
                        Ok(e.inverse())
                    },
                }
            } else if *op == message("nor") {
                match fold(Fold::Or, value, table) {
                    Err(e) => Err(e),
                    Ok(e) => {
                        proof {
                            lemma_wf(fold_spec(Fold::Or, value@, old(table)@)->Ok_0.0);
                        }
                        Ok(e.inverse())
                    },
                }
            } else if *op == message("xor") {
                fold(Fold::Xor, value, table)
            } else {
                let mut m = message("unsupported operator ");
                let d = str_debug(op.as_str());
                m.append(d.as_str());
                proof {
                    reveal_strlit("unsupported operator ");
                }
                Err(m)
            }
        },
        _ => {
            proof {
                reveal_strlit("expected a boolean expression: an operator object or a boolean literal");
            }
            Err(message("expected a boolean expression: an operator object or a boolean literal"))
        },
    }
}

/// An n-ary operator over its operands: the elements of an array, or a bare value as the one operand.
fn fold(op: Fold, value: &Json, table: &mut VariableTable) -> (r: Result<Expression, String>)
    requires
        old(table).wf(),
    ensures
        final(table).wf(),
        converted_matches(r, fold_spec(op, value@, old(table)@), final(table)@),
    decreases value, 1int,
{
    match value {
        Json::Array(items) => {
            let ghost iv = items_view(items@, items@.len() as int);
            proof {
                crate::json::lemma_items_view_len(items@, items@.len() as int);
            }
            if items.len() == 0 {
                return Err(no_operand(op));
            }
            let mut acc: Expression;
            let mut k: usize;
            let ghost mut f: Formula;
            if op == Fold::Xor {
                proof {
                    lemma_items_view_index(items@, items@.len() as int, 0);
                    assert(decreases_to!(*value => value->Array_0));
                    assert(decreases_to!(value->Array_0 => value->Array_0@));
                    assert(decreases_to!(value->Array_0@ => value->Array_0@[0]));
                }
                let ghost names0 = table@;
                match to_dnf(&items[0], table) {
                    Err(e) => {
                        return Err(e);
                    },
                    Ok(e) => {
                        acc = e;
                    },
                }
                proof {
                    f = dnf_spec(iv[0], names0)->Ok_0.0;
                }
                k = 1;
            } else {
                acc = start_of(op);
                proof {
                    f = fold_start(op);
                }
                k = 0;
            }
            proof {
                lemma_wf(f);
            }
            while k < items.len()
                invariant
                    1 <= items.len(),
                    k <= items.len(),
                    *value is Array,
                    *items == value->Array_0,
                    iv == items_view(items@, items@.len() as int),
                    iv.len() == items.len(),
                    table.wf(),
                    fold_spec(op, value@, old(table)@) == fold_items(op, iv, k as int, f, table@),
                    acc@ == f.dnf(),
                    acc.names() == Seq::<Seq<char>>::empty(),
                    crate::model::all_wf(acc@),
                decreases items.len() - k,
            {
                proof {
                    lemma_items_view_index(items@, items@.len() as int, k as int);
                    assert(decreases_to!(*value => value->Array_0));
                    assert(decreases_to!(value->Array_0 => value->Array_0@));
                    assert(decreases_to!(value->Array_0@ => value->Array_0@[k as int]));
                }
                let ghost names_before = table@;
                let next = match to_dnf(&items[k], table) {
                    Err(e) => {
                        return Err(e);
                    },
                    Ok(e) => e,
                };
                let ghost g = dnf_spec(iv[k as int], names_before)->Ok_0.0;
                proof {
                    lemma_wf(g);
                }
                acc = step(op, acc, &next);
                proof {
                    f = fold_step(op, f, g);
                    lemma_wf(f);
                }
                k += 1;
            }
            Ok(acc)
        },
        _ => {
            let ghost names0 = table@;
            match to_dnf(value, table) {
                Err(e) => Err(e),
                Ok(e) => {
                    let ghost g = dnf_spec(value@, names0)->Ok_0.0;
                    proof {
                        lemma_wf(g);
                    }
                    if op == Fold::Xor {
                        Ok(e)
                    } else {
                        let start = start_of(op);
                        proof {
                            lemma_wf(fold_start(op));
                        }
                        Ok(step(op, start, &e))
                    }
                },
            }
        },
    }
}

} // verus!
