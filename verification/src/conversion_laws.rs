//! Laws of the operators that the converter reads.
//!
//! [`law_fold_meaning`]: `and`, `or` and `xor` fold every operand of their array, in turn, from the left.
//! [`law_nand_is_not_and`] and [`law_nor_is_not_or`]: `{"nand": v}` converts exactly as `{"!": {"and": v}}` does, and
//! `{"nor": v}` as `{"!": {"or": v}}`. [`law_nand_meaning`] and [`law_nor_meaning`]: the formula that
//! `{"nand": [x1, ..., xn]}` converts to holds exactly when some operand does not, and that of `{"nor": [...]}` exactly
//! when none does. [`law_not_meaning`]: `!` negates its one operand, bare or in an array.

use vstd::prelude::*;

use crate::converter::{dnf_spec, fold_items, fold_step, Fold};
use crate::formula::Formula;
use crate::json::JsonValue;
use crate::model::Assignment;

verus! {

/// The one-key JsonLogic node `{op: value}`.
pub open spec fn node(op: Seq<char>, value: JsonValue) -> JsonValue {
    JsonValue::Object(seq![(op, value)])
}

/// Law: `{"nand": v}` converts as `{"!": {"and": v}}` does, whatever `v` is: the same formula and table, or the same
/// error and table.
pub proof fn law_nand_is_not_and(v: JsonValue, names: Seq<Seq<char>>)
    ensures
        dnf_spec(node("nand"@, v), names) == dnf_spec(node("!"@, node("and"@, v)), names),
{
    reveal_strlit("nand");
    reveal_strlit("var");
    reveal_strlit("!");
    reveal_strlit("and");
    reveal_strlit("or");
    assert("nand"@.len() == 4 && "var"@.len() == 3 && "!"@.len() == 1 && "and"@.len() == 3 && "or"@.len() == 2);
    let inner = node("and"@, v);
    assert(node("nand"@, v)->Object_0[0] == ("nand"@, v));
    assert(node("!"@, inner)->Object_0[0] == ("!"@, inner));
    assert(inner->Object_0[0] == ("and"@, v));
    assert("nand"@ != "var"@ && "nand"@ != "!"@ && "nand"@ != "and"@ && "nand"@ != "or"@);
    assert("!"@ != "var"@);
    assert("and"@[0] == 'a' && "var"@[0] == 'v');
    assert("and"@ != "var"@ && "and"@ != "!"@);
    assert(node("nand"@, v)->Object_0.len() == 1);
    assert(node("!"@, inner)->Object_0.len() == 1);
    assert(inner->Object_0.len() == 1);
    assert(dnf_spec(node("nand"@, v), names) == crate::converter::negated(
        crate::converter::fold_spec(Fold::And, v, names),
    ));
    assert(dnf_spec(inner, names) == crate::converter::fold_spec(Fold::And, v, names));
}

/// The value of the n-ary operator `op` over the values of the first `k` formulas of `gs` under `a`, folded from the
/// left: AND starts from `true`, OR and XOR from `false`.
pub open spec fn fold_value(op: Fold, gs: Seq<Formula>, a: Assignment, k: nat) -> bool
    decreases k,
{
    if k == 0 {
        op is And
    } else {
        let acc = fold_value(op, gs, a, (k - 1) as nat);
        let x = gs[k - 1].holds(a);
        match op {
            Fold::And => acc && x,
            Fold::Or => acc || x,
            Fold::Xor => acc != x,
        }
    }
}

/// AND holds when every operand holds, OR when some operand does.
proof fn lemma_fold_value(op: Fold, gs: Seq<Formula>, a: Assignment, k: nat)
    requires
        k <= gs.len(),
    ensures
        op is And ==> fold_value(op, gs, a, k) == (forall|i: int| 0 <= i < k ==> #[trigger] gs[i].holds(a)),
        op is Or ==> fold_value(op, gs, a, k) == (exists|i: int| 0 <= i < k && #[trigger] gs[i].holds(a)),
    decreases k,
{
    if k > 0 {
        lemma_fold_value(op, gs, a, (k - 1) as nat);
        if op is And && !fold_value(op, gs, a, k) && !gs[k - 1].holds(a) {
            assert(!gs[k - 1].holds(a));
        }
        if op is Or && fold_value(op, gs, a, k) && gs[k - 1].holds(a) {
            assert(gs[k - 1].holds(a));
        }
    }
}

/// The fold of the operands from `k` on, with `acc` the fold of the formulas `gs` of the operands before `k`,
/// converted in turn through the tables `ts`.
proof fn lemma_fold_items(
    op: Fold,
    items: Seq<JsonValue>,
    k: int,
    acc: Formula,
    gs: Seq<Formula>,
    ts: Seq<Seq<Seq<char>>>,
    a: Assignment,
) -> (r: (Seq<Formula>, Seq<Seq<Seq<char>>>))
    requires
        0 <= k <= items.len(),
        gs.len() == k,
        ts.len() == k + 1,
        forall|i: int|
            0 <= i < k ==> dnf_spec(#[trigger] items[i], ts[i]) == Ok::<
                (Formula, Seq<Seq<char>>),
                (Seq<char>, Seq<Seq<char>>),
            >((gs[i], ts[i + 1])),
        acc.holds(a) == fold_value(op, gs, a, k as nat),
    ensures
        k <= r.0.len() <= items.len(),
        r.1.len() == r.0.len() + 1,
        r.1[0] == ts[0],
        forall|i: int| 0 <= i < k ==> r.0[i] == gs[i],
        forall|i: int|
            0 <= i < r.0.len() ==> dnf_spec(#[trigger] items[i], r.1[i]) == Ok::<
                (Formula, Seq<Seq<char>>),
                (Seq<char>, Seq<Seq<char>>),
            >((r.0[i], r.1[i + 1])),
        r.0.len() == items.len() ==> (fold_items(op, items, k, acc, ts[k]) matches Ok((f, t)) && t == r.1.last()
            && f.holds(a) == fold_value(op, r.0, a, items.len())),
        r.0.len() < items.len() ==> dnf_spec(items[r.0.len() as int], r.1.last()) is Err && fold_items(
            op,
            items,
            k,
            acc,
            ts[k],
        ) == dnf_spec(items[r.0.len() as int], r.1.last()),
    decreases items.len() - k,
{
    if k == items.len() {
        (gs, ts)
    } else {
        match dnf_spec(items[k], ts[k]) {
            Err(e) => (gs, ts),
            Ok((g, t2)) => {
                let acc2 = fold_step(op, acc, g);
                let gs2 = gs.push(g);
                let ts2 = ts.push(t2);
                assert forall|i: int| 0 <= i < k + 1 implies dnf_spec(#[trigger] items[i], ts2[i]) == Ok::<
                    (Formula, Seq<Seq<char>>),
                    (Seq<char>, Seq<Seq<char>>),
                >((gs2[i], ts2[i + 1])) by {
                    if i < k {
                        assert(gs2[i] == gs[i] && ts2[i] == ts[i] && ts2[i + 1] == ts[i + 1]);
                    }
                }
                lemma_fold_prefix(op, gs, g, a, k as nat);
                let r = lemma_fold_items(op, items, k + 1, acc2, gs2, ts2, a);
                assert forall|i: int| 0 <= i < k implies r.0[i] == gs[i] by {
                    assert(r.0[i] == gs2[i]);
                }
                r
            },
        }
    }
}

/// Pushing a formula leaves the fold of the ones before it unchanged.
proof fn lemma_fold_prefix(op: Fold, gs: Seq<Formula>, g: Formula, a: Assignment, k: nat)
    requires
        k == gs.len(),
    ensures
        fold_value(op, gs.push(g), a, k + 1) == match op {
            Fold::And => fold_value(op, gs, a, k) && g.holds(a),
            Fold::Or => fold_value(op, gs, a, k) || g.holds(a),
            Fold::Xor => fold_value(op, gs, a, k) != g.holds(a),
        },
{
    lemma_fold_same(op, gs, gs.push(g), a, k);
}

/// The fold of the first `k` formulas depends on those alone.
proof fn lemma_fold_same(op: Fold, gs: Seq<Formula>, hs: Seq<Formula>, a: Assignment, k: nat)
    requires
        k <= gs.len(),
        k <= hs.len(),
        forall|i: int| 0 <= i < k ==> gs[i] == hs[i],
    ensures
        fold_value(op, gs, a, k) == fold_value(op, hs, a, k),
    decreases k,
{
    if k > 0 {
        lemma_fold_same(op, gs, hs, a, (k - 1) as nat);
        assert(gs[k - 1] == hs[k - 1]);
    }
}

/// The name of the n-ary operator in JsonLogic.
pub open spec fn fold_name(op: Fold) -> Seq<char> {
    match op {
        Fold::And => "and"@,
        Fold::Or => "or"@,
        Fold::Xor => "xor"@,
    }
}

/// Law: `{"and": [x1, ..., xn]}`, `{"or": [...]}` and `{"xor": [...]}` fold every operand. Converting the operands in
/// turn from the table `names` gives the formulas `r.0` and the tables `r.1` (before the first and after each); when
/// all of them convert, the node converts to a formula, with the table after the last, that holds under an
/// assignment exactly as the operator folds the operands' values from the left: AND when every operand holds, OR when
/// some operand holds, XOR when an odd number of them hold. When one is refused, the node is refused with that
/// operand's error.
pub proof fn law_fold_meaning(op: Fold, items: Seq<JsonValue>, names: Seq<Seq<char>>, a: Assignment) -> (r: (
    Seq<Formula>,
    Seq<Seq<Seq<char>>>,
))
    requires
        items.len() > 0,
    ensures
        r.0.len() <= items.len(),
        r.1.len() == r.0.len() + 1,
        r.1[0] == names,
        forall|i: int|
            0 <= i < r.0.len() ==> dnf_spec(#[trigger] items[i], r.1[i]) == Ok::<
                (Formula, Seq<Seq<char>>),
                (Seq<char>, Seq<Seq<char>>),
            >((r.0[i], r.1[i + 1])),
        r.0.len() == items.len() ==> (dnf_spec(node(fold_name(op), JsonValue::Array(items)), names) matches Ok((f, t))
            && t == r.1.last() && f.holds(a) == fold_value(op, r.0, a, items.len())),
        r.0.len() == items.len() && op is And ==> (dnf_spec(node(fold_name(op), JsonValue::Array(items)), names)
            matches Ok((f, t)) && f.holds(a) == (forall|i: int| 0 <= i < items.len() ==> #[trigger] r.0[i].holds(a))),
        r.0.len() == items.len() && op is Or ==> (dnf_spec(node(fold_name(op), JsonValue::Array(items)), names)
            matches Ok((f, t)) && f.holds(a) == (exists|i: int| 0 <= i < items.len() && #[trigger] r.0[i].holds(a))),
        r.0.len() < items.len() ==> dnf_spec(items[r.0.len() as int], r.1.last()) is Err && dnf_spec(
            node(fold_name(op), JsonValue::Array(items)),
            names,
        ) == dnf_spec(items[r.0.len() as int], r.1.last()),
{
    reveal_strlit("var");
    reveal_strlit("!");
    reveal_strlit("and");
    reveal_strlit("or");
    reveal_strlit("nand");
    reveal_strlit("nor");
    reveal_strlit("xor");
    assert("var"@.len() == 3 && "!"@.len() == 1 && "and"@.len() == 3 && "or"@.len() == 2 && "nand"@.len() == 4
        && "nor"@.len() == 3 && "xor"@.len() == 3);
    assert("var"@[0] == 'v' && "and"@[0] == 'a' && "nor"@[0] == 'n' && "xor"@[0] == 'x');
    let v = JsonValue::Array(items);
    let n = node(fold_name(op), v);
    assert(n->Object_0.len() == 1);
    assert(n->Object_0[0] == (fold_name(op), v));
    assert(dnf_spec(n, names) == crate::converter::fold_spec(op, v, names));
    let r = if op is Xor {
        match dnf_spec(items[0], names) {
            Err(e) => {
                assert(crate::converter::fold_spec(op, v, names) == dnf_spec(items[0], names));
                (Seq::<Formula>::empty(), seq![names])
            },
            Ok((f0, t1)) => {
                assert(crate::converter::fold_spec(op, v, names) == fold_items(op, items, 1, f0, t1));
                let gs = seq![f0];
                assert(fold_value(op, gs, a, 1) == f0.holds(a)) by {
                    assert(gs[0] == f0);
                    assert(!fold_value(op, gs, a, 0));
                }
                let r = lemma_fold_items(op, items, 1, f0, gs, seq![names, t1], a);
                r
            },
        }
    } else {
        let start = crate::converter::fold_start(op);
        assert(crate::converter::fold_spec(op, v, names) == fold_items(op, items, 0, start, names));
        lemma_fold_items(op, items, 0, start, Seq::empty(), seq![names], a)
    };
    lemma_fold_value(op, r.0, a, r.0.len());
    r
}

/// Law: `{"nand": [x1, ..., xn]}` folds every operand. Converting the operands in turn from the table `names` gives
/// the formulas `r.0` and the tables `r.1` (before the first and after each); when all of them convert, the node
/// converts to a formula, with the table after the last, that holds under an assignment exactly when some operand's
/// formula does not; when one is refused, the node is refused with that operand's error.
pub proof fn law_nand_meaning(items: Seq<JsonValue>, names: Seq<Seq<char>>, a: Assignment) -> (r: (
    Seq<Formula>,
    Seq<Seq<Seq<char>>>,
))
    requires
        items.len() > 0,
    ensures
        r.0.len() <= items.len(),
        r.1.len() == r.0.len() + 1,
        r.1[0] == names,
        forall|i: int|
            0 <= i < r.0.len() ==> dnf_spec(#[trigger] items[i], r.1[i]) == Ok::<
                (Formula, Seq<Seq<char>>),
                (Seq<char>, Seq<Seq<char>>),
            >((r.0[i], r.1[i + 1])),
        r.0.len() == items.len() ==> (dnf_spec(node("nand"@, JsonValue::Array(items)), names) matches Ok((f, t))
            && t == r.1.last() && f.holds(a) == (exists|i: int| 0 <= i < items.len() && !(#[trigger] r.0[i].holds(a)))),
        r.0.len() < items.len() ==> dnf_spec(items[r.0.len() as int], r.1.last()) is Err && dnf_spec(
            node("nand"@, JsonValue::Array(items)),
            names,
        ) == dnf_spec(items[r.0.len() as int], r.1.last()),
{
    reveal_strlit("nand");
    reveal_strlit("var");
    reveal_strlit("!");
    reveal_strlit("and");
    reveal_strlit("or");
    assert("nand"@.len() == 4 && "var"@.len() == 3 && "!"@.len() == 1 && "and"@.len() == 3 && "or"@.len() == 2);
    let v = JsonValue::Array(items);
    assert(node("nand"@, v)->Object_0[0] == ("nand"@, v));
    assert("nand"@ != "var"@ && "nand"@ != "!"@ && "nand"@ != "and"@ && "nand"@ != "or"@);
    let start = Formula::Const(true);
    assert(node("nand"@, v)->Object_0.len() == 1);
    assert(dnf_spec(node("nand"@, v), names) == crate::converter::negated(
        crate::converter::fold_spec(Fold::And, v, names),
    ));
    assert(crate::converter::fold_spec(Fold::And, v, names) == fold_items(Fold::And, items, 0, start, names));
    let r = lemma_fold_items(Fold::And, items, 0, start, Seq::empty(), seq![names], a);
    lemma_fold_value(Fold::And, r.0, a, r.0.len());
    assert(dnf_spec(node("nand"@, v), names) == crate::converter::negated(
        fold_items(Fold::And, items, 0, start, names),
    ));
    r
}

/// Law: `{"nor": v}` converts as `{"!": {"or": v}}` does, whatever `v` is: the same formula and table, or the same
/// error and table.
pub proof fn law_nor_is_not_or(v: JsonValue, names: Seq<Seq<char>>)
    ensures
        dnf_spec(node("nor"@, v), names) == dnf_spec(node("!"@, node("or"@, v)), names),
{
    reveal_strlit("nand");
    reveal_strlit("nor");
    reveal_strlit("var");
    reveal_strlit("!");
    reveal_strlit("and");
    reveal_strlit("or");
    assert("nand"@.len() == 4 && "nor"@.len() == 3 && "var"@.len() == 3 && "!"@.len() == 1 && "and"@.len() == 3
        && "or"@.len() == 2);
    assert("nor"@[0] == 'n' && "var"@[0] == 'v' && "and"@[0] == 'a');
    let inner = node("or"@, v);
    assert(node("nor"@, v)->Object_0[0] == ("nor"@, v));
    assert(node("!"@, inner)->Object_0[0] == ("!"@, inner));
    assert(inner->Object_0[0] == ("or"@, v));
    assert(node("nor"@, v)->Object_0.len() == 1);
    assert(node("!"@, inner)->Object_0.len() == 1);
    assert(inner->Object_0.len() == 1);
    assert(dnf_spec(node("nor"@, v), names) == crate::converter::negated(
        crate::converter::fold_spec(Fold::Or, v, names),
    ));
    assert(dnf_spec(inner, names) == crate::converter::fold_spec(Fold::Or, v, names));
}

/// Law: `{"!": x}` and `{"!": [x]}` (for an `x` that is no array) both convert to a formula, with the table that
/// converting `x` leaves, that holds exactly when the formula of `x` does not; when `x` is refused, both are refused
/// with its error.
pub proof fn law_not_meaning(x: JsonValue, names: Seq<Seq<char>>, a: Assignment)
    requires
        !(x is Array),
    ensures
        dnf_spec(node("!"@, JsonValue::Array(seq![x])), names) == dnf_spec(node("!"@, x), names),
        dnf_spec(x, names) matches Ok((g, t)) ==> (dnf_spec(node("!"@, x), names) matches Ok((f, t2)) && t2 == t
            && f.holds(a) == !g.holds(a)),
        dnf_spec(x, names) is Err ==> dnf_spec(node("!"@, x), names) == dnf_spec(x, names),
{
    reveal_strlit("var");
    reveal_strlit("!");
    assert("var"@.len() == 3 && "!"@.len() == 1);
    let arr = JsonValue::Array(seq![x]);
    assert(node("!"@, x)->Object_0[0] == ("!"@, x));
    assert(node("!"@, arr)->Object_0[0] == ("!"@, arr));
    assert(node("!"@, x)->Object_0.len() == 1);
    assert(node("!"@, arr)->Object_0.len() == 1);
    assert(arr->Array_0.len() == 1 && arr->Array_0[0] == x);
    assert(dnf_spec(node("!"@, x), names) == crate::converter::negated(dnf_spec(x, names)));
}

/// Law: `{"nor": [x1, ..., xn]}` folds every operand. Converting the operands in turn from the table `names` gives
/// the formulas `r.0` and the tables `r.1`; when all of them convert, the node converts to a formula, with the table
/// after the last, that holds under an assignment exactly when no operand's formula does; when one is refused, the
/// node is refused with that operand's error.
pub proof fn law_nor_meaning(items: Seq<JsonValue>, names: Seq<Seq<char>>, a: Assignment) -> (r: (
    Seq<Formula>,
    Seq<Seq<Seq<char>>>,
))
    requires
        items.len() > 0,
    ensures
        r.0.len() <= items.len(),
        r.1.len() == r.0.len() + 1,
        r.1[0] == names,
        forall|i: int|
            0 <= i < r.0.len() ==> dnf_spec(#[trigger] items[i], r.1[i]) == Ok::<
                (Formula, Seq<Seq<char>>),
                (Seq<char>, Seq<Seq<char>>),
            >((r.0[i], r.1[i + 1])),
        r.0.len() == items.len() ==> (dnf_spec(node("nor"@, JsonValue::Array(items)), names) matches Ok((f, t))
            && t == r.1.last() && f.holds(a) == (forall|i: int|
            0 <= i < items.len() ==> !(#[trigger] r.0[i].holds(a)))),
        r.0.len() < items.len() ==> dnf_spec(items[r.0.len() as int], r.1.last()) is Err && dnf_spec(
            node("nor"@, JsonValue::Array(items)),
            names,
        ) == dnf_spec(items[r.0.len() as int], r.1.last()),
{
    let v = JsonValue::Array(items);
    law_nor_is_not_or(v, names);
    let r = law_fold_meaning(Fold::Or, items, names, a);
    reveal_strlit("or");
    reveal_strlit("!");
    reveal_strlit("var");
    assert("!"@.len() == 1 && "var"@.len() == 3);
    let inner = node("or"@, v);
    assert(fold_name(Fold::Or) == "or"@);
    assert(node("!"@, inner)->Object_0[0] == ("!"@, inner));
    assert(node("!"@, inner)->Object_0.len() == 1);
    assert(dnf_spec(node("!"@, inner), names) == crate::converter::negated(dnf_spec(inner, names)));
    r
}

} // verus!
