//! Reading back what the renderers write.
//!
//! [`law_json_read_back`]: converting the JsonLogic that [`Expression::to_json`](crate::Expression::to_json) builds
//! gives back a formula that means what the expression means, variable for variable by name, whatever order the
//! converter registers the names in.

use vstd::prelude::*;

use crate::converter::{dnf_spec, fold_items, fold_start, fold_step, Converted, Fold};
use crate::formula::Formula;
use crate::json::JsonValue;
use crate::model::{all_false, all_within, all_wf, any_true, eval, Assignment, Conjunction};
use crate::quine_mccluskey::MAX_VARIABLES;
use crate::render::{expression_json, literal_json, term_json, term_literals, terms_json, var_json, variable_name};
use crate::variable_table::register;

verus! {

/// The assignment that gives variable `i` the value that `env` gives its name in `names` (and `false` past the end).
pub open spec fn by_name(env: spec_fn(Seq<char>) -> bool, names: Seq<Seq<char>>) -> Assignment {
    |i: nat| i < names.len() && env(names[i as int])
}

/// A table built while reading names from `names`: no name twice, and every name one of `names`.
pub open spec fn table_from(t: Seq<Seq<char>>, names: Seq<Seq<char>>) -> bool {
    &&& t.no_duplicates()
    &&& forall|x: Seq<char>| t.contains(x) ==> names.contains(x)
}

/// `t2` extends the table `t`: it keeps every entry of `t` where it was.
pub open spec fn extends_table(t2: Seq<Seq<char>>, t: Seq<Seq<char>>) -> bool {
    &&& t.len() <= t2.len()
    &&& forall|i: int| 0 <= i < t.len() ==> t2[i] == t[i]
}

/// Every variable of the formula is below `n`.
pub open spec fn formula_within(f: Formula, n: nat) -> bool
    decreases f,
{
    match f {
        Formula::Var(i) => i < n,
        Formula::Const(_) => true,
        Formula::Not(g) => formula_within(*g, n),
        Formula::And(g, h) => formula_within(*g, n) && formula_within(*h, n),
        Formula::Or(g, h) => formula_within(*g, n) && formula_within(*h, n),
        Formula::Xor(g, h) => formula_within(*g, n) && formula_within(*h, n),
    }
}

/// Extending the table changes the meaning of no formula over its variables.
pub(crate) proof fn lemma_extend_meaning(f: Formula, t: Seq<Seq<char>>, t2: Seq<Seq<char>>, env: spec_fn(Seq<char>) -> bool)
    requires
        formula_within(f, t.len()),
        extends_table(t2, t),
    ensures
        f.holds(by_name(env, t)) == f.holds(by_name(env, t2)),
        formula_within(f, t2.len()),
    decreases f,
{
    match f {
        Formula::Var(i) => {},
        Formula::Const(_) => {},
        Formula::Not(g) => lemma_extend_meaning(*g, t, t2, env),
        Formula::And(g, h) => {
            lemma_extend_meaning(*g, t, t2, env);
            lemma_extend_meaning(*h, t, t2, env);
        },
        Formula::Or(g, h) => {
            lemma_extend_meaning(*g, t, t2, env);
            lemma_extend_meaning(*h, t, t2, env);
        },
        Formula::Xor(g, h) => {
            lemma_extend_meaning(*g, t, t2, env);
            lemma_extend_meaning(*h, t, t2, env);
        },
    }
}

/// Registering one of `names` in a table built from them succeeds: the table has room for every name.
pub(crate) proof fn lemma_register_name(t: Seq<Seq<char>>, names: Seq<Seq<char>>, i: nat) -> (r: (Seq<Seq<char>>, nat))
    requires
        names.no_duplicates(),
        names.len() <= MAX_VARIABLES,
        table_from(t, names),
        i < names.len(),
    ensures
        register(t, names[i as int]) == Ok::<(Seq<Seq<char>>, nat), Seq<char>>(r),
        r.1 < r.0.len(),
        r.0[r.1 as int] == names[i as int],
        table_from(r.0, names),
        extends_table(r.0, t),
{
    let name = names[i as int];
    if t.contains(name) {
        let j = t.index_of(name);
        (t, j as nat)
    } else {
        assert(t.len() < MAX_VARIABLES) by {
            t.unique_seq_to_set();
            names.unique_seq_to_set();
            assert(t.to_set().subset_of(names.to_set().remove(name)));
            vstd::seq_lib::seq_to_set_is_finite(names);
            vstd::set_lib::lemma_len_subset(t.to_set(), names.to_set().remove(name));
            assert(names.to_set().contains(name));
        }
        let t2 = t.push(name);
        assert(t2.no_duplicates()) by {
            assert forall|a: int, b: int| 0 <= a < t2.len() && 0 <= b < t2.len() && a != b implies t2[a] != t2[b] by {
                if a < t.len() && b < t.len() {
                } else if a < t.len() {
                    assert(t.contains(t[a]));
                } else {
                    assert(t.contains(t[b]));
                }
            }
        }
        assert forall|x: Seq<char>| t2.contains(x) implies names.contains(x) by {
            let k = choose|k: int| 0 <= k < t2.len() && t2[k] == x;
            if k < t.len() {
                assert(t.contains(t[k]));
            }
        }
        (t2, t.len())
    }
}

/// A literal of variable `i` reads back as a formula that holds exactly when the name of `i` has the literal's sign.
proof fn lemma_literal_read(t: Seq<Seq<char>>, names: Seq<Seq<char>>, i: nat, positive: bool) -> (r: (
    Formula,
    Seq<Seq<char>>,
))
    requires
        names.no_duplicates(),
        names.len() <= MAX_VARIABLES,
        table_from(t, names),
        i < names.len(),
    ensures
        dnf_spec(literal_json(names, i, positive), t) == Ok::<(Formula, Seq<Seq<char>>), (Seq<char>, Seq<Seq<char>>)>(
            r,
        ),
        table_from(r.1, names),
        extends_table(r.1, t),
        formula_within(r.0, r.1.len()),
        forall|env: spec_fn(Seq<char>) -> bool|
            #[trigger] r.0.holds(by_name(env, r.1)) == (env(names[i as int]) == positive),
{
    reveal_strlit("var");
    reveal_strlit("!");
    let (t2, j) = lemma_register_name(t, names, i);
    assert(variable_name(names, i) == names[i as int]);
    let var = var_json(names[i as int]);
    assert(dnf_spec(var, t) == Ok::<(Formula, Seq<Seq<char>>), (Seq<char>, Seq<Seq<char>>)>((Formula::Var(j), t2)));
    assert forall|env: spec_fn(Seq<char>) -> bool| #[trigger] by_name(env, t2)(j) == env(names[i as int]) by {
    }
    if positive {
        assert forall|env: spec_fn(Seq<char>) -> bool|
            #[trigger] Formula::Var(j).holds(by_name(env, t2)) == (env(names[i as int]) == positive) by {
            assert(by_name(env, t2)(j) == env(names[i as int]));
        }
        (Formula::Var(j), t2)
    } else {
        let f = Formula::Not(Box::new(Formula::Var(j)));
        assert(("!"@).len() == 1 && ("var"@).len() == 3);
        assert(formula_within(Formula::Var(j), t2.len()));
        assert forall|env: spec_fn(Seq<char>) -> bool|
            #[trigger] f.holds(by_name(env, t2)) == (env(names[i as int]) == positive) by {
            assert(by_name(env, t2)(j) == env(names[i as int]));
            assert(Formula::Var(j).holds(by_name(env, t2)) == env(names[i as int]));
        }
        (f, t2)
    }
}

/// A fold over some items followed by one more item.
pub open spec fn fold_then(op: Fold, r: Converted, x: JsonValue) -> Converted {
    match r {
        Ok((f, t)) => match dnf_spec(x, t) {
            Ok((g, t2)) => Ok((fold_step(op, f, g), t2)),
            Err(e) => Err(e),
        },
        Err(e) => Err(e),
    }
}

/// Folding one more item onto a sequence folds the sequence, then the item.
proof fn lemma_fold_push(op: Fold, s: Seq<JsonValue>, x: JsonValue, k: int, acc: Formula, t: Seq<Seq<char>>)
    requires
        0 <= k <= s.len(),
    ensures
        fold_items(op, s.push(x), k, acc, t) == fold_then(op, fold_items(op, s, k, acc, t), x),
    decreases s.len() - k,
{
    let sx = s.push(x);
    if k == s.len() {
        assert(sx[k] == x);
        match dnf_spec(x, t) {
            Ok((g, t2)) => {
                assert(fold_items(op, sx, k + 1, fold_step(op, acc, g), t2) == Ok::<
                    (Formula, Seq<Seq<char>>),
                    (Seq<char>, Seq<Seq<char>>),
                >((fold_step(op, acc, g), t2)));
            },
            Err(e) => {},
        }
    } else {
        assert(sx[k] == s[k]);
        match dnf_spec(s[k], t) {
            Ok((f, t2)) => {
                lemma_fold_push(op, s, x, k + 1, fold_step(op, acc, f), t2);
            },
            Err(e) => {},
        }
    }
}

/// Every literal of `c` below `k` is satisfied by the values `env` gives the names.
pub open spec fn literals_hold(c: Conjunction, names: Seq<Seq<char>>, k: nat, env: spec_fn(Seq<char>) -> bool) -> bool {
    forall|i: int| 0 <= i < k && #[trigger] c.mask[i] ==> env(names[i]) == c.terms[i]
}

/// The AND-fold of the literals of `c` below `k` reads back as their conjunction.
proof fn lemma_term_fold(c: Conjunction, names: Seq<Seq<char>>, k: nat, t: Seq<Seq<char>>) -> (r: (
    Formula,
    Seq<Seq<char>>,
))
    requires
        names.no_duplicates(),
        names.len() <= MAX_VARIABLES,
        table_from(t, names),
        c.wf(),
        c.within(names.len()),
        k <= c.mask.len(),
    ensures
        fold_items(Fold::And, term_literals(c, names, k), 0, Formula::Const(true), t) == Ok::<
            (Formula, Seq<Seq<char>>),
            (Seq<char>, Seq<Seq<char>>),
        >(r),
        table_from(r.1, names),
        extends_table(r.1, t),
        formula_within(r.0, r.1.len()),
        forall|env: spec_fn(Seq<char>) -> bool| #[trigger] r.0.holds(by_name(env, r.1)) == literals_hold(c, names, k, env),
    decreases k,
{
    if k == 0 {
        assert(term_literals(c, names, 0) =~= Seq::<JsonValue>::empty());
        (Formula::Const(true), t)
    } else {
        let (f, t1) = lemma_term_fold(c, names, (k - 1) as nat, t);
        let before = term_literals(c, names, (k - 1) as nat);
        let i = (k - 1) as nat;
        if c.mask[i as int] {
            let lit = literal_json(names, i, c.terms[i as int]);
            assert(term_literals(c, names, k) == before.push(lit));
            lemma_fold_push(Fold::And, before, lit, 0, Formula::Const(true), t);
            assert(i < names.len());
            let (g, t2) = lemma_literal_read(t1, names, i, c.terms[i as int]);
            let h = Formula::And(Box::new(f), Box::new(g));
            assert forall|env: spec_fn(Seq<char>) -> bool| #[trigger] h.holds(by_name(env, t2)) == literals_hold(
                c,
                names,
                k,
                env,
            ) by {
                lemma_extend_meaning(f, t1, t2, env);
                assert(g.holds(by_name(env, t2)) == (env(names[i as int]) == c.terms[i as int]));
                assert(f.holds(by_name(env, t1)) == literals_hold(c, names, (k - 1) as nat, env));
                if literals_hold(c, names, k, env) {
                    assert(c.mask[i as int]);
                }
            }
            lemma_extend_meaning(f, t1, t2, |x: Seq<char>| true);
            (h, t2)
        } else {
            assert(term_literals(c, names, k) == before);
            assert forall|env: spec_fn(Seq<char>) -> bool| #[trigger] f.holds(by_name(env, t1)) == literals_hold(
                c,
                names,
                k,
                env,
            ) by {
                assert(f.holds(by_name(env, t1)) == literals_hold(c, names, (k - 1) as nat, env));
            }
            (f, t1)
        }
    }
}

/// Without a literal of its own, a term's list of literals is empty; with one, it is not.
proof fn lemma_term_literals_len(c: Conjunction, names: Seq<Seq<char>>, k: nat)
    ensures
        term_literals(c, names, k).len() == 0 <==> forall|i: int| 0 <= i < k ==> !#[trigger] c.mask[i],
    decreases k,
{
    if k > 0 {
        lemma_term_literals_len(c, names, (k - 1) as nat);
        if term_literals(c, names, k).len() == 0 {
            assert(!c.mask[k - 1]);
        }
    }
}

/// A product term that is not the `false` sentinel holds exactly when all its literals hold, name for name.
pub(crate) proof fn lemma_term_meaning(c: Conjunction, names: Seq<Seq<char>>, env: spec_fn(Seq<char>) -> bool)
    requires
        c.wf(),
        c.within(names.len()),
        !c.is_false(),
    ensures
        literals_hold(c, names, c.terms.len(), env) == c.holds(by_name(env, names)),
{
    let k = c.terms.len();
    if literals_hold(c, names, k, env) {
        assert forall|i: int| 0 <= i < c.mask.len() && #[trigger] c.mask[i] implies i < c.terms.len() && c.terms[i]
            == by_name(env, names)(i as nat) by {
            assert(i < names.len());
        }
    }
    if c.holds(by_name(env, names)) {
        assert forall|i: int| 0 <= i < k && #[trigger] c.mask[i] implies env(names[i]) == c.terms[i] by {
            assert(i < names.len());
            assert(by_name(env, names)(i as nat) == env(names[i]));
        }
    }
}

/// A product term that is neither the `false` sentinel nor the constant `true` reads back as a formula that holds
/// exactly when the term does, name for name.
proof fn lemma_term_read(c: Conjunction, names: Seq<Seq<char>>, t: Seq<Seq<char>>) -> (r: (Formula, Seq<Seq<char>>))
    requires
        names.no_duplicates(),
        names.len() <= MAX_VARIABLES,
        table_from(t, names),
        c.wf(),
        c.within(names.len()),
        !c.is_false(),
        !c.is_true(),
    ensures
        dnf_spec(term_json(c, names), t) == Ok::<(Formula, Seq<Seq<char>>), (Seq<char>, Seq<Seq<char>>)>(r),
        table_from(r.1, names),
        extends_table(r.1, t),
        formula_within(r.0, r.1.len()),
        forall|env: spec_fn(Seq<char>) -> bool| #[trigger] r.0.holds(by_name(env, r.1)) == c.holds(by_name(env, names)),
{
    reveal_strlit("var");
    reveal_strlit("!");
    reveal_strlit("and");
    let k = c.terms.len();
    let lits = term_literals(c, names, k);
    let (f, t1) = lemma_term_fold(c, names, k, t);
    lemma_term_literals_len(c, names, k);
    assert(lits.len() > 0);
    assert forall|env: spec_fn(Seq<char>) -> bool| literals_hold(c, names, k, env) == c.holds(by_name(env, names)) by {
        lemma_term_meaning(c, names, env);
    }
    if lits.len() == 1 {
        let empty = Seq::<JsonValue>::empty();
        assert(lits == empty.push(lits[0]));
        lemma_fold_push(Fold::And, empty, lits[0], 0, Formula::Const(true), t);
        assert(fold_items(Fold::And, empty, 0, Formula::Const(true), t) == Ok::<
            (Formula, Seq<Seq<char>>),
            (Seq<char>, Seq<Seq<char>>),
        >((Formula::Const(true), t)));
        assert(term_json(c, names) == lits[0]);
        let (g, t2) = match dnf_spec(lits[0], t) {
            Ok((g, t2)) => (g, t2),
            Err(_) => (Formula::Const(true), t),
        };
        assert(dnf_spec(lits[0], t) is Ok);
        assert(f == Formula::And(Box::new(Formula::Const(true)), Box::new(g)) && t1 == t2);
        assert forall|env: spec_fn(Seq<char>) -> bool| #[trigger] g.holds(by_name(env, t2)) == c.holds(
            by_name(env, names),
        ) by {
            assert(f.holds(by_name(env, t1)) == literals_hold(c, names, k, env));
            assert(Formula::Const(true).holds(by_name(env, t2)));
            assert(Formula::And(Box::new(Formula::Const(true)), Box::new(g)).holds(by_name(env, t2)) == g.holds(
                by_name(env, t2),
            ));
        }
        assert(formula_within(g, t2.len()));
        (g, t2)
    } else {
        assert(("and"@).len() == 3 && ("var"@).len() == 3 && ("!"@).len() == 1);
        assert(("and"@)[0] != ("var"@)[0]);
        assert(fold_start(Fold::And) == Formula::Const(true));
        let ps = seq![("and"@, JsonValue::Array(lits))];
        assert(term_json(c, names) == JsonValue::Object(ps));
        assert(ps.len() == 1 && ps[0].0 == "and"@);
        assert(crate::converter::fold_spec(Fold::And, JsonValue::Array(lits), t) == fold_items(
            Fold::And,
            lits,
            0,
            Formula::Const(true),
            t,
        ));
        assert forall|env: spec_fn(Seq<char>) -> bool| #[trigger] f.holds(by_name(env, t1)) == c.holds(
            by_name(env, names),
        ) by {
            assert(f.holds(by_name(env, t1)) == literals_hold(c, names, k, env));
        }
        (f, t1)
    }
}

/// Some product term of `ts` below `k` holds under the values `env` gives the names.
pub open spec fn some_term_holds(ts: Seq<Conjunction>, names: Seq<Seq<char>>, k: nat, env: spec_fn(Seq<char>) -> bool) -> bool {
    exists|j: int| 0 <= j < k && #[trigger] ts[j].holds(by_name(env, names))
}

/// With no product term but `false` sentinels, the list of product terms is empty; otherwise it is not.
proof fn lemma_terms_json_len(ts: Seq<Conjunction>, names: Seq<Seq<char>>, k: nat)
    requires
        k <= ts.len(),
    ensures
        terms_json(ts, names, k).len() == 0 <==> forall|j: int| 0 <= j < k ==> (#[trigger] ts[j]).is_false(),
    decreases k,
{
    if k > 0 {
        lemma_terms_json_len(ts, names, (k - 1) as nat);
    }
}

/// The OR-fold of the product terms of `ts` below `k` reads back as their disjunction.
proof fn lemma_terms_fold(ts: Seq<Conjunction>, names: Seq<Seq<char>>, k: nat, t: Seq<Seq<char>>) -> (r: (
    Formula,
    Seq<Seq<char>>,
))
    requires
        names.no_duplicates(),
        names.len() <= MAX_VARIABLES,
        table_from(t, names),
        all_wf(ts),
        all_within(ts, names.len()),
        !any_true(ts),
        k <= ts.len(),
    ensures
        fold_items(Fold::Or, terms_json(ts, names, k), 0, Formula::Const(false), t) == Ok::<
            (Formula, Seq<Seq<char>>),
            (Seq<char>, Seq<Seq<char>>),
        >(r),
        table_from(r.1, names),
        extends_table(r.1, t),
        formula_within(r.0, r.1.len()),
        forall|env: spec_fn(Seq<char>) -> bool| #[trigger] r.0.holds(by_name(env, r.1)) == some_term_holds(ts, names, k, env),
    decreases k,
{
    if k == 0 {
        assert(terms_json(ts, names, 0) =~= Seq::<JsonValue>::empty());
        (Formula::Const(false), t)
    } else {
        let (f, t1) = lemma_terms_fold(ts, names, (k - 1) as nat, t);
        let before = terms_json(ts, names, (k - 1) as nat);
        let c = ts[k - 1];
        if c.is_false() {
            assert(terms_json(ts, names, k) == before);
            assert forall|env: spec_fn(Seq<char>) -> bool| #[trigger] f.holds(by_name(env, t1)) == some_term_holds(
                ts,
                names,
                k,
                env,
            ) by {
                assert(f.holds(by_name(env, t1)) == some_term_holds(ts, names, (k - 1) as nat, env));
                if some_term_holds(ts, names, k, env) {
                    let j = choose|j: int| 0 <= j < k && #[trigger] ts[j].holds(by_name(env, names));
                    assert(j != k - 1);
                }
            }
            (f, t1)
        } else {
            assert(!c.is_true()) by {
                if c.is_true() {
                    assert(any_true(ts));
                }
            }
            assert(c.wf() && c.within(names.len()));
            let x = term_json(c, names);
            assert(terms_json(ts, names, k) == before.push(x));
            lemma_fold_push(Fold::Or, before, x, 0, Formula::Const(false), t);
            let (g, t2) = lemma_term_read(c, names, t1);
            let h = Formula::Or(Box::new(f), Box::new(g));
            assert forall|env: spec_fn(Seq<char>) -> bool| #[trigger] h.holds(by_name(env, t2)) == some_term_holds(
                ts,
                names,
                k,
                env,
            ) by {
                lemma_extend_meaning(f, t1, t2, env);
                assert(f.holds(by_name(env, t1)) == some_term_holds(ts, names, (k - 1) as nat, env));
                assert(g.holds(by_name(env, t2)) == c.holds(by_name(env, names)));
                if some_term_holds(ts, names, k, env) {
                    let j = choose|j: int| 0 <= j < k && #[trigger] ts[j].holds(by_name(env, names));
                    if j < k - 1 {
                        assert(some_term_holds(ts, names, (k - 1) as nat, env));
                    }
                }
                if c.holds(by_name(env, names)) {
                    assert(ts[k - 1].holds(by_name(env, names)));
                }
                if some_term_holds(ts, names, (k - 1) as nat, env) {
                    let j = choose|j: int| 0 <= j < k - 1 && #[trigger] ts[j].holds(by_name(env, names));
                    assert(ts[j].holds(by_name(env, names)));
                }
            }
            lemma_extend_meaning(f, t1, t2, |y: Seq<char>| true);
            (h, t2)
        }
    }
}

/// Converting the JsonLogic of an expression back, starting from an empty table, succeeds, and the expression that the
/// converter builds (the DNF of the formula read) is true under exactly the values of the names that make the original
/// expression true.
pub proof fn law_json_read_back(ts: Seq<Conjunction>, names: Seq<Seq<char>>, env: spec_fn(Seq<char>) -> bool)
    requires
        all_wf(ts),
        all_within(ts, names.len()),
        names.no_duplicates(),
        names.len() <= MAX_VARIABLES,
    ensures
        dnf_spec(expression_json(ts, names), Seq::empty()) matches Ok((f, t)) && eval(f.dnf(), by_name(env, t)) == eval(
            ts,
            by_name(env, names),
        ),
{
    reveal_strlit("var");
    reveal_strlit("!");
    reveal_strlit("and");
    reveal_strlit("or");
    let t0 = Seq::<Seq<char>>::empty();
    let a = by_name(env, names);
    if any_true(ts) {
        let k = choose|k: int| 0 <= k < ts.len() && (#[trigger] ts[k]).is_true();
        assert(ts[k].holds(a));
        crate::formula::law_dnf_meaning(Formula::Const(true), by_name(env, t0));
    } else if all_false(ts) {
        if eval(ts, a) {
            let k = choose|k: int| 0 <= k < ts.len() && #[trigger] ts[k].holds(a);
            assert(ts[k].is_false());
        }
        crate::formula::law_dnf_meaning(Formula::Const(false), by_name(env, t0));
    } else {
        let n = ts.len();
        let parts = terms_json(ts, names, n);
        let (f, t1) = lemma_terms_fold(ts, names, n, t0);
        lemma_terms_json_len(ts, names, n);
        assert(parts.len() > 0);
        assert(eval(ts, a) == some_term_holds(ts, names, n, env));
        if parts.len() == 1 {
            let empty = Seq::<JsonValue>::empty();
            assert(parts == empty.push(parts[0]));
            lemma_fold_push(Fold::Or, empty, parts[0], 0, Formula::Const(false), t0);
            assert(fold_items(Fold::Or, empty, 0, Formula::Const(false), t0) == Ok::<
                (Formula, Seq<Seq<char>>),
                (Seq<char>, Seq<Seq<char>>),
            >((Formula::Const(false), t0)));
            assert(expression_json(ts, names) == parts[0]);
            let (g, t2) = match dnf_spec(parts[0], t0) {
                Ok((g, t2)) => (g, t2),
                Err(_) => (Formula::Const(false), t0),
            };
            assert(dnf_spec(parts[0], t0) is Ok);
            assert(f == Formula::Or(Box::new(Formula::Const(false)), Box::new(g)) && t1 == t2);
            assert(!Formula::Const(false).holds(by_name(env, t2)));
            assert(f.holds(by_name(env, t1)) == g.holds(by_name(env, t2)));
            crate::formula::law_dnf_meaning(g, by_name(env, t2));
        } else {
            assert(fold_start(Fold::Or) == Formula::Const(false));
            let ps = seq![("or"@, JsonValue::Array(parts))];
            assert(expression_json(ts, names) == JsonValue::Object(ps));
            assert(ps.len() == 1 && ps[0].0 == "or"@);
            assert(("or"@).len() == 2 && ("var"@).len() == 3 && ("!"@).len() == 1 && ("and"@).len() == 3);
            assert(crate::converter::fold_spec(Fold::Or, JsonValue::Array(parts), t0) == fold_items(
                Fold::Or,
                parts,
                0,
                Formula::Const(false),
                t0,
            ));
            crate::formula::law_dnf_meaning(f, by_name(env, t1));
        }
    }
}

} // verus!
