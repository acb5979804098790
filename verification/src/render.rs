//! Rendering expressions in the algebraic syntax and as JsonLogic.
//!
//! [`term_text`] and [`expression_text`] say what [`ProductTerm::to_algebraic`] and
//! [`Expression::to_algebraic_styled`] produce: literals in index order, joined by the style's AND; product terms in
//! order, joined by its OR; the constants as `1` and `0`. [`term_json`] and [`expression_json`] say what
//! [`Expression::to_json`] builds: the same literals and product terms as JsonLogic `and` / `or` / `!` / `var` nodes,
//! a single literal or product term bare, and the constants as JSON `true` / `false`.

use vstd::prelude::*;

use crate::algebraic::{is_letter, OVERBAR};
use crate::json::{items_view, json_view, pairs_view, Json, JsonValue};
use crate::model::{all_false, all_wf, any_true, Conjunction};
use crate::text::{decimal_text, push_decimal};
use crate::variable_table::VariableTable;
use crate::{AlgebraicStyle, Expression, ProductTerm};

verus! {

/// The name of variable `i`: its registered name, or `x` followed by the index when the table has no entry for it.
pub open spec fn variable_name(names: Seq<Seq<char>>, i: nat) -> Seq<char> {
    if i < names.len() {
        names[i as int]
    } else {
        seq!['x'] + decimal_text(i)
    }
}

/// A name of one ASCII letter, written bare; every other name is written as `$name`.
pub open spec fn is_single(name: Seq<char>) -> bool {
    name.len() == 1 && is_letter(name[0])
}

/// The variable as written: bare for a single letter, `$`-prefixed otherwise.
pub open spec fn var_text(name: Seq<char>) -> Seq<char> {
    if is_single(name) {
        name
    } else {
        seq!['$'] + name
    }
}

/// The text of the literals of `c` at positions below `k`, and whether the last one written was a `$`-name.
pub open spec fn term_text(c: Conjunction, names: Seq<Seq<char>>, style: AlgebraicStyle, k: nat) -> (Seq<char>, bool)
    decreases k,
{
    if k == 0 {
        (Seq::empty(), false)
    } else {
        let (a, prev) = term_text(c, names, style, (k - 1) as nat);
        let i = k - 1;
        if !c.mask[i] {
            (a, prev)
        } else {
            let name = variable_name(names, i as nat);
            let single = is_single(name);
            let var = var_text(name);
            let positive = c.terms[i];
            let text = match style {
                AlgebraicStyle::Common => {
                    let spaced = if prev && single {
                        a.push(' ')
                    } else {
                        a
                    };
                    if positive {
                        spaced + var
                    } else if single {
                        (spaced + var).push(OVERBAR)
                    } else {
                        spaced.push('~') + var
                    }
                },
                AlgebraicStyle::Code => {
                    let joined = if a.len() > 0 {
                        a + " & "@
                    } else {
                        a
                    };
                    if positive {
                        joined + var
                    } else {
                        joined.push('!') + var
                    }
                },
                AlgebraicStyle::Logic => {
                    let joined = if a.len() > 0 {
                        a + " \u{2227} "@
                    } else {
                        a
                    };
                    if positive {
                        joined + var
                    } else {
                        joined.push('\u{00AC}') + var
                    }
                },
            };
            (text, !single)
        }
    }
}

/// The OR operator of a style, with its spacing.
pub open spec fn or_text(style: AlgebraicStyle) -> Seq<char> {
    match style {
        AlgebraicStyle::Common => " + "@,
        AlgebraicStyle::Code => " | "@,
        AlgebraicStyle::Logic => " \u{2228} "@,
    }
}

/// The text of the product terms of `ts` below `k` that are not the `false` sentinel, joined by the OR operator.
pub open spec fn terms_text(ts: Seq<Conjunction>, names: Seq<Seq<char>>, style: AlgebraicStyle, k: nat) -> Seq<char>
    decreases k,
{
    if k == 0 {
        Seq::empty()
    } else {
        let a = terms_text(ts, names, style, (k - 1) as nat);
        let c = ts[k - 1];
        if c.is_false() {
            a
        } else {
            let joined = if a.len() > 0 {
                a + or_text(style)
            } else {
                a
            };
            joined + term_text(c, names, style, c.terms.len()).0
        }
    }
}

/// The algebraic text of an expression: `1` for the constant `true`, `0` for `false`, otherwise its product terms.
pub open spec fn expression_text(ts: Seq<Conjunction>, names: Seq<Seq<char>>, style: AlgebraicStyle) -> Seq<char> {
    if any_true(ts) {
        "1"@
    } else if all_false(ts) {
        "0"@
    } else {
        terms_text(ts, names, style, ts.len())
    }
}

/// The product terms of `ts` that are not the `false` sentinel, in order.
pub open spec fn live_terms(ts: Seq<Conjunction>) -> Seq<Conjunction>
    decreases ts.len(),
{
    if ts.len() == 0 {
        Seq::empty()
    } else {
        let r = live_terms(ts.drop_last());
        if ts.last().is_false() {
            r
        } else {
            r.push(ts.last())
        }
    }
}

/// The text of the first `k` product terms depends on those terms alone.
proof fn lemma_terms_text_prefix(
    ts: Seq<Conjunction>,
    us: Seq<Conjunction>,
    names: Seq<Seq<char>>,
    style: AlgebraicStyle,
    k: nat,
)
    requires
        k <= ts.len(),
        k <= us.len(),
        forall|i: int| 0 <= i < k ==> ts[i] == us[i],
    ensures
        terms_text(ts, names, style, k) == terms_text(us, names, style, k),
    decreases k,
{
    if k > 0 {
        lemma_terms_text_prefix(ts, us, names, style, (k - 1) as nat);
    }
}

/// An expression has the text of its product terms other than the `false` sentinel.
proof fn lemma_live_text(ts: Seq<Conjunction>, names: Seq<Seq<char>>, style: AlgebraicStyle)
    ensures
        any_true(live_terms(ts)) == any_true(ts),
        all_false(ts) == (live_terms(ts).len() == 0),
        forall|k: int| 0 <= k < live_terms(ts).len() ==> !(#[trigger] live_terms(ts)[k]).is_false(),
        terms_text(live_terms(ts), names, style, live_terms(ts).len()) == terms_text(ts, names, style, ts.len()),
    decreases ts.len(),
{
    if ts.len() > 0 {
        let d = ts.drop_last();
        let c = ts.last();
        let r = live_terms(d);
        lemma_live_text(d, names, style);
        lemma_terms_text_prefix(ts, d, names, style, d.len());
        assert(c == ts[ts.len() - 1]);
        if c.is_false() {
            assert forall|k: int| 0 <= k < ts.len() && (#[trigger] ts[k]).is_true() implies any_true(d) by {
                assert(d[k] == ts[k]);
            }
            assert(any_true(d) ==> any_true(ts)) by {
                if any_true(d) {
                    let k = choose|k: int| 0 <= k < d.len() && (#[trigger] d[k]).is_true();
                    assert(ts[k] == d[k]);
                }
            }
            assert(all_false(ts) == all_false(d)) by {
                if all_false(d) {
                    assert forall|k: int| 0 <= k < ts.len() implies (#[trigger] ts[k]).is_false() by {
                        if k < d.len() {
                            assert(d[k] == ts[k]);
                        }
                    }
                }
                if all_false(ts) {
                    assert forall|k: int| 0 <= k < d.len() implies (#[trigger] d[k]).is_false() by {
                        assert(d[k] == ts[k]);
                    }
                }
            }
        } else {
            let l = r.push(c);
            lemma_terms_text_prefix(l, r, names, style, r.len());
            assert(l[r.len() as int] == c);
            assert(any_true(l) == any_true(ts)) by {
                if any_true(l) {
                    let k = choose|k: int| 0 <= k < l.len() && (#[trigger] l[k]).is_true();
                    if k < r.len() {
                        assert(l[k] == r[k]);
                        let j = choose|j: int| 0 <= j < d.len() && (#[trigger] d[j]).is_true();
                        assert(ts[j] == d[j]);
                    } else {
                        assert(ts[ts.len() - 1].is_true());
                    }
                }
                if any_true(ts) {
                    let k = choose|k: int| 0 <= k < ts.len() && (#[trigger] ts[k]).is_true();
                    if k < d.len() {
                        assert(d[k] == ts[k]);
                        let j = choose|j: int| 0 <= j < r.len() && (#[trigger] r[j]).is_true();
                        assert(l[j] == r[j]);
                    } else {
                        assert(l[r.len() as int].is_true());
                    }
                }
            }
            assert(!all_false(ts)) by {
                assert(!ts[ts.len() - 1].is_false());
            }
            assert forall|k: int| 0 <= k < l.len() implies !(#[trigger] l[k]).is_false() by {
                if k < r.len() {
                    assert(l[k] == r[k]);
                }
            }
        }
    }
}

/// The `false` sentinels of an expression do not show in its algebraic text: two expressions whose other product terms
/// are the same, in the same order, have the same text in every style. The constant `true` reads `1` and an expression
/// with no product term but `false` sentinels reads `0`.
pub proof fn law_false_terms_unseen(ts: Seq<Conjunction>, us: Seq<Conjunction>, names: Seq<Seq<char>>, style: AlgebraicStyle)
    requires
        live_terms(ts) == live_terms(us),
    ensures
        expression_text(ts, names, style) == expression_text(us, names, style),
        any_true(ts) ==> expression_text(ts, names, style) == "1"@,
        !any_true(ts) && live_terms(ts).len() == 0 ==> expression_text(ts, names, style) == "0"@,
{
    lemma_live_text(ts, names, style);
    lemma_live_text(us, names, style);
}

/// Resolves a bit index to its variable name, falling back to a synthesized `x{index}` when the table has no entry
/// (e.g. for table-less expressions built directly in tests).
pub fn variable_name_of(table: &VariableTable, index: usize) -> (r: String)
    ensures
        r@ == variable_name(table@, index as nat),
{
    if index < table.len() {
        table.name_of(index).to_owned()
    } else {
        let mut s = String::from_str("x");
        proof {
            reveal_strlit("x");
        }
        push_decimal(&mut s, index);
        s
    }
}

fn append_str(a: &mut String, s: &str)
    ensures
        final(a)@ == old(a)@ + s@,
{
    a.append(s);
}

impl ProductTerm {
    /// Returns a string representing this product term in the given algebraic `style`.
    ///
    /// Multi-character names are emitted as `$name` in every style so the output re-parses to the same variable; a
    /// single ASCII letter is left bare.
    pub fn to_algebraic(&self, table: &VariableTable, style: AlgebraicStyle) -> (r: String)
        requires
            self.wf(),
        ensures
            r@ == term_text(self@, table@, style, self@.terms.len()).0,
    {
        let mut a = String::new();
        let mut written = false;
        let mut prev_multichar = false;
        let mut i: usize = 0;
        while i < self.terms.len()
            invariant
                self.wf(),
                i <= self.terms.len(),
                (a@, prev_multichar) == term_text(self@, table@, style, i as nat),
                written == (a@.len() > 0),
            decreases self.terms.len() - i,
        {
            if !self.mask[i] {
                i += 1;
                continue;
            }
            let name = variable_name_of(table, i);
            let positive = self.terms[i];
            let single = name.as_str().unicode_len() == 1 && crate::algebraic::letter(name.as_str().get_char(0));
            proof {
                reveal_strlit("$");
            }
            let var = if single {
                name
            } else {
                let mut v = String::from_str("$");
                v.append(name.as_str());
                v
            };
            match style {
                AlgebraicStyle::Common => {
                    if prev_multichar && single {
                        a.push(' ');
                    }
                    if positive {
                        append_str(&mut a, var.as_str());
                    } else if single {
                        append_str(&mut a, var.as_str());
                        a.push(OVERBAR);
                    } else {
                        a.push('~');
                        append_str(&mut a, var.as_str());
                    }
                },
                AlgebraicStyle::Code => {
                    if written {
                        append_str(&mut a, " & ");
                        proof {
                            reveal_strlit(" & ");
                        }
                    }
                    if !positive {
                        a.push('!');
                    }
                    append_str(&mut a, var.as_str());
                },
                AlgebraicStyle::Logic => {
                    if written {
                        append_str(&mut a, " \u{2227} ");
                        proof {
                            reveal_strlit(" \u{2227} ");
                        }
                    }
                    if !positive {
                        a.push('\u{00AC}');
                    }
                    append_str(&mut a, var.as_str());
                },
            }
            prev_multichar = !single;
            written = true;
            i += 1;
        }
        a
    }
}

impl Expression {
    /// Returns a string representing the expression in the default ([`Common`](AlgebraicStyle::Common)) algebraic
    /// style.
    ///
    /// The dual of [`parse_algebraic`](crate::algebraic::parse_algebraic). See
    /// [`to_algebraic_styled`](Expression::to_algebraic_styled) to pick the operator/whitespace style.
    pub fn to_algebraic(&self) -> (r: String)
        requires
            self.wf(),
        ensures
            r@ == expression_text(self@, self.names(), AlgebraicStyle::Common),
    {
        self.to_algebraic_styled(AlgebraicStyle::Common)
    }

    /// Returns a string representing the expression in the given algebraic `style` (see [`AlgebraicStyle`]).
    ///
    /// Product terms are joined by the style's OR operator, literals within a product term by its AND operator,
    /// negation by its NOT operator, and the constants render as `1` / `0` in every style. The `false` sentinel
    /// product terms are dropped.
    pub fn to_algebraic_styled(&self, style: AlgebraicStyle) -> (r: String)
        requires
            self.wf(),
        ensures
            r@ == expression_text(self@, self.names(), style),
    {
        if self.is_true() {
            proof {
                reveal_strlit("1");
            }
            return String::from_str("1");
        }
        if self.is_false() {
            proof {
                reveal_strlit("0");
            }
            return String::from_str("0");
        }
        let or_op = match style {
            AlgebraicStyle::Common => " + ",
            AlgebraicStyle::Code => " | ",
            AlgebraicStyle::Logic => " \u{2228} ",
        };
        proof {
            reveal_strlit(" + ");
            reveal_strlit(" | ");
            reveal_strlit(" \u{2228} ");
        }
        let mut a = String::new();
        let mut written = false;
        let mut k: usize = 0;
        while k < self.product_terms.len()
            invariant
                k <= self.product_terms.len(),
                written == (a@.len() > 0),
                all_wf(self@),
                or_op@ == or_text(style),
                a@ == terms_text(self@, self.names(), style, k as nat),
            decreases self.product_terms.len() - k,
        {
            let c = &self.product_terms[k];
            proof {
                assert(c@ == self@[k as int]);
            }
            if c.is_false() {
                k += 1;
                continue;
            }
            if written {
                append_str(&mut a, or_op);
            }
            let t = c.to_algebraic(&self.table, style);
            append_str(&mut a, t.as_str());
            written = written || t.as_str().unicode_len() > 0;
            k += 1;
        }
        a
    }
}

// ----------------------------------------------------------------------------------------------------------------------
// JsonLogic.

/// `{"var": name}`.
pub open spec fn var_json(name: Seq<char>) -> JsonValue {
    JsonValue::Object(seq![("var"@, JsonValue::Str(name))])
}

/// The JsonLogic of a single literal: `{"var": name}` if positive, or `{"!": [{"var": name}]}` if negated.
pub open spec fn literal_json(names: Seq<Seq<char>>, i: nat, positive: bool) -> JsonValue {
    let var = var_json(variable_name(names, i));
    if positive {
        var
    } else {
        JsonValue::Object(seq![("!"@, JsonValue::Array(seq![var]))])
    }
}

/// The JsonLogic of the literals of `c` at positions below `k`, in index order.
pub open spec fn term_literals(c: Conjunction, names: Seq<Seq<char>>, k: nat) -> Seq<JsonValue>
    decreases k,
{
    if k == 0 {
        Seq::empty()
    } else {
        let before = term_literals(c, names, (k - 1) as nat);
        if c.mask[k - 1] {
            before.push(literal_json(names, (k - 1) as nat, c.terms[k - 1]))
        } else {
            before
        }
    }
}

/// The JsonLogic of a product term: a single literal bare, several wrapped in `{"and": [...]}`.
pub open spec fn term_json(c: Conjunction, names: Seq<Seq<char>>) -> JsonValue {
    let lits = term_literals(c, names, c.terms.len());
    if lits.len() == 1 {
        lits[0]
    } else {
        JsonValue::Object(seq![("and"@, JsonValue::Array(lits))])
    }
}

/// The JsonLogic of the product terms of `ts` below `k` that are not the `false` sentinel, in order.
pub open spec fn terms_json(ts: Seq<Conjunction>, names: Seq<Seq<char>>, k: nat) -> Seq<JsonValue>
    decreases k,
{
    if k == 0 {
        Seq::empty()
    } else {
        let before = terms_json(ts, names, (k - 1) as nat);
        if ts[k - 1].is_false() {
            before
        } else {
            before.push(term_json(ts[k - 1], names))
        }
    }
}

/// The JsonLogic of an expression: `true` / `false` for the constants, a single product term bare, several wrapped in
/// `{"or": [...]}`.
pub open spec fn expression_json(ts: Seq<Conjunction>, names: Seq<Seq<char>>) -> JsonValue {
    if any_true(ts) {
        JsonValue::Bool(true)
    } else if all_false(ts) {
        JsonValue::Bool(false)
    } else {
        let parts = terms_json(ts, names, ts.len());
        if parts.len() == 1 {
            parts[0]
        } else {
            JsonValue::Object(seq![("or"@, JsonValue::Array(parts))])
        }
    }
}

proof fn lemma_items_view_push(s: Seq<Json>, x: Json)
    ensures
        items_view(s.push(x), (s.len() + 1) as int) == items_view(s, s.len() as int).push(json_view(x)),
{
    lemma_items_view_prefix(s, x, s.len() as int);
}

proof fn lemma_items_view_prefix(s: Seq<Json>, x: Json, k: int)
    requires
        0 <= k <= s.len(),
    ensures
        items_view(s.push(x), k) == items_view(s, k),
    decreases k,
{
    if k > 0 {
        lemma_items_view_prefix(s, x, k - 1);
        assert(s.push(x)[k - 1] == s[k - 1]);
    }
}

proof fn lemma_items_view_len(s: Seq<Json>, k: int)
    requires
        0 <= k <= s.len(),
    ensures
        items_view(s, k).len() == k,
    decreases k,
{
    if k > 0 {
        lemma_items_view_len(s, k - 1);
    }
}

proof fn lemma_items_view_at(s: Seq<Json>, k: int, i: int)
    requires
        0 <= i < k <= s.len(),
    ensures
        items_view(s, k)[i] == json_view(s[i]),
    decreases k,
{
    lemma_items_view_len(s, k - 1);
    if i < k - 1 {
        lemma_items_view_at(s, k - 1, i);
    }
}

/// An object of one member.
fn single_member(key: &str, value: Json) -> (r: Json)
    ensures
        r@ == JsonValue::Object(seq![(key@, value@)]),
{
    let mut v: Vec<(String, Json)> = Vec::new();
    v.push((key.to_owned(), value));
    let r = Json::Object(v);
    proof {
        assert(pairs_view(v@, 0) == Seq::<(Seq<char>, JsonValue)>::empty());
        assert(pairs_view(v@, 1) =~= seq![(key@, value@)]);
    }
    r
}

/// An array of one element.
fn single_item(value: Json) -> (r: Json)
    ensures
        r@ == JsonValue::Array(seq![value@]),
{
    let mut v: Vec<Json> = Vec::new();
    v.push(value);
    let r = Json::Array(v);
    proof {
        assert(items_view(v@, 0) == Seq::<JsonValue>::empty());
        assert(items_view(v@, 1) =~= seq![json_view(v@[0])]);
    }
    r
}

/// Returns the JsonLogic for a single literal: `{"var": name}` if positive, or `{"!": [{"var": name}]}` if negated.
fn literal_to_json(table: &VariableTable, index: usize, positive: bool) -> (r: Json)
    ensures
        r@ == literal_json(table@, index as nat, positive),
{
    let name = variable_name_of(table, index);
    proof {
        reveal_strlit("var");
        reveal_strlit("!");
    }
    let var = single_member("var", Json::String(name));
    if positive {
        var
    } else {
        single_member("!", single_item(var))
    }
}

/// The single element of a one-element vector, or its contents wrapped in `{op: [...]}`.
fn bare_or_wrapped(op: &str, mut parts: Vec<Json>) -> (r: Json)
    ensures
        r@ == (if parts@.len() == 1 {
            items_view(parts@, 1)[0]
        } else {
            JsonValue::Object(seq![(op@, JsonValue::Array(items_view(parts@, parts@.len() as int)))])
        }),
{
    if parts.len() == 1 {
        let ghost whole = parts@;
        let j = parts.pop().unwrap();
        proof {
            lemma_items_view_at(whole, 1, 0);
        }
        j
    } else {
        let ghost whole = parts@;
        let arr = Json::Array(parts);
        proof {
            assert(arr@ == JsonValue::Array(items_view(whole, whole.len() as int)));
        }
        single_member(op, arr)
    }
}

impl ProductTerm {
    /// Returns the JsonLogic representation of this product term's literals.
    ///
    /// A single-literal product term is emitted as the bare literal; a multi-literal product term is wrapped in
    /// `{"and": [...]}`. Callers handle the empty conjunction (constant `true`) themselves.
    pub fn to_json(&self, table: &VariableTable) -> (r: Json)
        requires
            self.wf(),
        ensures
            r@ == term_json(self@, table@),
    {
        let mut literals: Vec<Json> = Vec::new();
        let mut i: usize = 0;
        while i < self.terms.len()
            invariant
                self.wf(),
                i <= self.terms.len(),
                items_view(literals@, literals@.len() as int) == term_literals(self@, table@, i as nat),
            decreases self.terms.len() - i,
        {
            if self.mask[i] {
                let lit = literal_to_json(table, i, self.terms[i]);
                let ghost before = literals@;
                literals.push(lit);
                proof {
                    lemma_items_view_push(before, lit);
                }
            }
            i += 1;
        }
        proof {
            lemma_items_view_len(literals@, literals@.len() as int);
            reveal_strlit("and");
        }
        bare_or_wrapped("and", literals)
    }
}

impl Expression {
    /// Returns the JsonLogic representation of the expression.
    ///
    /// Constants serialize to the JSON booleans `true` / `false`. Otherwise the `false` sentinel product terms are
    /// dropped; a single remaining product term is emitted directly and multiple product terms are wrapped in
    /// `{"or": [...]}`.
    pub fn to_json(&self) -> (r: Json)
        requires
            self.wf(),
        ensures
            r@ == expression_json(self@, self.names()),
    {
        if self.is_true() {
            return Json::Bool(true);
        }
        if self.is_false() {
            return Json::Bool(false);
        }
        let mut parts: Vec<Json> = Vec::new();
        let mut k: usize = 0;
        while k < self.product_terms.len()
            invariant
                k <= self.product_terms.len(),
                all_wf(self@),
                items_view(parts@, parts@.len() as int) == terms_json(self@, self.names(), k as nat),
            decreases self.product_terms.len() - k,
        {
            let c = &self.product_terms[k];
            proof {
                assert(c@ == self@[k as int]);
            }
            if !c.is_false() {
                let j = c.to_json(&self.table);
                let ghost before = parts@;
                parts.push(j);
                proof {
                    lemma_items_view_push(before, j);
                }
            }
            k += 1;
        }
        proof {
            lemma_items_view_len(parts@, parts@.len() as int);
            reveal_strlit("or");
        }
        bare_or_wrapped("or", parts)
    }
}

} // verus!
