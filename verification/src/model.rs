//! The mathematical model of expressions in disjunctive normal form.
//!
//! A product term is modelled as a [`Conjunction`]: two parallel sequences, `terms` (the sign of each literal) and
//! `mask` (whether variable `i` occurs). An expression is a sequence of conjunctions read as their disjunction. This
//! module defines what such a value means under an assignment of truth values to variable indices, and the algebra
//! (conjunction, disjunction, complement) exactly as the executable operations compute it, together with the laws that
//! relate the two.

use vstd::prelude::*;

use crate::bits::bit;

verus! {

/// An assignment of truth values to variable indices.
pub type Assignment = spec_fn(nat) -> bool;

/// The contents of a product term: `terms[i]` is the sign of variable `i` and `mask[i]` says whether it occurs.
pub struct Conjunction {
    pub terms: Seq<bool>,
    pub mask: Seq<bool>,
}

impl Conjunction {
    /// The two sequences are parallel.
    pub open spec fn wf(self) -> bool {
        self.terms.len() == self.mask.len()
    }

    /// The `false` sentinel (empty `terms`).
    pub open spec fn is_false(self) -> bool {
        self.terms.len() == 0
    }

    /// The empty conjunction (`true`): non-empty `terms` and no variable present.
    pub open spec fn is_true(self) -> bool {
        self.terms.len() > 0 && forall|i: int| 0 <= i < self.mask.len() ==> !self.mask[i]
    }

    /// Every literal of the conjunction is satisfied by `a` (and it is not the `false` sentinel).
    pub open spec fn holds(self, a: Assignment) -> bool {
        &&& self.terms.len() > 0
        &&& forall|i: int|
            0 <= i < self.mask.len() && #[trigger] self.mask[i] ==> i < self.terms.len() && self.terms[i] == a(
                i as nat,
            )
    }

    /// As [`holds`](Conjunction::holds), reading only the literals of the variables below `n`.
    pub open spec fn holds_upto(self, a: Assignment, n: nat) -> bool {
        &&& self.terms.len() > 0
        &&& forall|i: int|
            0 <= i < n && i < self.mask.len() && #[trigger] self.mask[i] ==> i < self.terms.len()
                && self.terms[i] == a(i as nat)
    }

    /// Every variable that occurs in the conjunction is below `n`.
    pub open spec fn within(self, n: nat) -> bool {
        forall|i: int| 0 <= i < self.mask.len() && #[trigger] self.mask[i] ==> i < n
    }
}

/// The truth values that the term `m` assigns: variable `i` is bit `i` of `m` (and variables from 32 on are false).
pub open spec fn assignment_of(m: u32) -> Assignment {
    |i: nat| i < 32 && bit(m, i as u32)
}

/// The disjunction of `ts` is satisfied by `a`.
pub open spec fn eval(ts: Seq<Conjunction>, a: Assignment) -> bool {
    exists|k: int| 0 <= k < ts.len() && #[trigger] ts[k].holds(a)
}

/// The disjunction of `ts` is satisfied by `a`, reading only the variables below `n`.
pub open spec fn eval_upto(ts: Seq<Conjunction>, a: Assignment, n: nat) -> bool {
    exists|k: int| 0 <= k < ts.len() && #[trigger] ts[k].holds_upto(a, n)
}

/// Every conjunction of `ts` is well formed.
pub open spec fn all_wf(ts: Seq<Conjunction>) -> bool {
    forall|k: int| 0 <= k < ts.len() ==> (#[trigger] ts[k]).wf()
}

/// No conjunction of `ts` is the `false` sentinel.
pub open spec fn no_false(ts: Seq<Conjunction>) -> bool {
    forall|k: int| 0 <= k < ts.len() ==> !(#[trigger] ts[k]).is_false()
}

/// Every variable that occurs in `ts` is below `n`.
pub open spec fn all_within(ts: Seq<Conjunction>, n: nat) -> bool {
    forall|k: int| 0 <= k < ts.len() ==> (#[trigger] ts[k]).within(n)
}

/// Some conjunction of `ts` is the empty conjunction, so the disjunction is the constant `true`.
pub open spec fn any_true(ts: Seq<Conjunction>) -> bool {
    exists|k: int| 0 <= k < ts.len() && (#[trigger] ts[k]).is_true()
}

/// Every conjunction of `ts` is the `false` sentinel, so the disjunction is the constant `false`.
pub open spec fn all_false(ts: Seq<Conjunction>) -> bool {
    forall|k: int| 0 <= k < ts.len() ==> (#[trigger] ts[k]).is_false()
}

/// The constant `true`: a single empty conjunction of width one.
pub open spec fn true_conjunction() -> Conjunction {
    Conjunction { terms: seq![false], mask: seq![false] }
}

/// The single literal of variable `i` with the given sign, in a conjunction of width `width`.
pub open spec fn literal(width: nat, i: int, sign: bool) -> Conjunction {
    Conjunction {
        terms: Seq::new(width, |j: int| j == i && sign),
        mask: Seq::new(width, |j: int| j == i),
    }
}

/// One past the highest variable of `c` below `k`, or one when there is none: the width that `c` needs.
pub open spec fn needed_width(c: Conjunction, k: nat) -> nat
    decreases k,
{
    if k == 0 {
        1
    } else if c.mask[k - 1] {
        k
    } else {
        needed_width(c, (k - 1) as nat)
    }
}

/// The canonical form of a conjunction: as wide as its highest variable needs (at least one), with no sign recorded for
/// an absent variable. The `false` sentinel stays as it is.
pub open spec fn tidy(c: Conjunction) -> Conjunction {
    if c.is_false() {
        c
    } else {
        let w = needed_width(c, c.mask.len());
        Conjunction { terms: Seq::new(w, |j: int| c.mask[j] && c.terms[j]), mask: Seq::new(w, |j: int| c.mask[j]) }
    }
}

/// The canonical forms of the conjunctions of `ts`, in order.
pub open spec fn tidy_all(ts: Seq<Conjunction>) -> Seq<Conjunction> {
    ts.map_values(|c: Conjunction| tidy(c))
}

pub(crate) proof fn lemma_needed_width(c: Conjunction, k: nat)
    requires
        k <= c.mask.len(),
    ensures
        1 <= needed_width(c, k),
        k >= 1 ==> needed_width(c, k) <= k,
        forall|j: int| needed_width(c, k) <= j < k ==> !#[trigger] c.mask[j],
        needed_width(c, k) > 1 ==> c.mask[needed_width(c, k) - 1],
    decreases k,
{
    if k > 0 && !c.mask[k - 1] {
        lemma_needed_width(c, (k - 1) as nat);
    }
}

/// The canonical form of a well-formed conjunction means the same, reads the same variables, and is the `false`
/// sentinel or the constant `true` exactly when the conjunction is.
pub proof fn lemma_tidy(c: Conjunction, a: Assignment, n: nat)
    requires
        c.wf(),
    ensures
        tidy(c).wf(),
        tidy(c).is_false() == c.is_false(),
        tidy(c).is_true() == c.is_true(),
        tidy(c).holds(a) == c.holds(a),
        tidy(c).holds_upto(a, n) == c.holds_upto(a, n),
        c.within(n) ==> tidy(c).within(n),
{
    if !c.is_false() {
        let t = tidy(c);
        let w = needed_width(c, c.mask.len());
        lemma_needed_width(c, c.mask.len());
        if c.is_true() {
            assert forall|i: int| 0 <= i < t.mask.len() implies !t.mask[i] by {
                assert(t.mask[i] == c.mask[i]);
            }
        }
        if t.is_true() {
            assert forall|i: int| 0 <= i < c.mask.len() implies !c.mask[i] by {
                if i < w {
                    assert(t.mask[i] == c.mask[i]);
                }
            }
        }
        if c.holds(a) {
            assert forall|i: int| 0 <= i < t.mask.len() && #[trigger] t.mask[i] implies i < t.terms.len() && t.terms[i]
                == a(i as nat) by {
                assert(c.mask[i]);
            }
        }
        if t.holds(a) {
            assert forall|i: int| 0 <= i < c.mask.len() && #[trigger] c.mask[i] implies i < c.terms.len() && c.terms[i]
                == a(i as nat) by {
                assert(i < w);
                assert(t.mask[i]);
            }
        }
        if c.holds_upto(a, n) {
            assert forall|i: int| 0 <= i < n && i < t.mask.len() && #[trigger] t.mask[i] implies i < t.terms.len()
                && t.terms[i] == a(i as nat) by {
                assert(c.mask[i]);
            }
        }
        if t.holds_upto(a, n) {
            assert forall|i: int| 0 <= i < n && i < c.mask.len() && #[trigger] c.mask[i] implies i < c.terms.len()
                && c.terms[i] == a(i as nat) by {
                assert(i < w);
                assert(t.mask[i]);
            }
        }
        if c.within(n) {
            assert forall|i: int| 0 <= i < t.mask.len() && #[trigger] t.mask[i] implies i < n by {
                assert(c.mask[i]);
            }
        }
    }
}

/// Putting a canonical form in canonical form changes nothing.
pub proof fn lemma_tidy_tidy(c: Conjunction)
    requires
        c.wf(),
    ensures
        tidy(tidy(c)) == tidy(c),
{
    if !c.is_false() {
        let t = tidy(c);
        let w = needed_width(c, c.mask.len());
        lemma_needed_width(c, c.mask.len());
        if w > 1 {
            lemma_needed_width_exact(t, w);
        } else {
            assert(needed_width(t, 0) == 1);
            assert(needed_width(t, 1) == 1);
        }
        assert(tidy(t).terms =~= t.terms);
        assert(tidy(t).mask =~= t.mask);
    }
}

proof fn lemma_needed_width_exact(c: Conjunction, k: nat)
    requires
        1 <= k <= c.mask.len(),
        c.mask[k - 1],
    ensures
        needed_width(c, k) == k,
{
}

/// The canonical forms of a well-formed DNF are in canonical form.
pub proof fn lemma_tidy_all_tidy(ts: Seq<Conjunction>)
    requires
        all_wf(ts),
    ensures
        tidy_all(tidy_all(ts)) == tidy_all(ts),
{
    assert forall|k: int| 0 <= k < ts.len() implies tidy_all(tidy_all(ts))[k] == tidy_all(ts)[k] by {
        lemma_tidy_tidy(ts[k]);
    }
    assert(tidy_all(tidy_all(ts)) =~= tidy_all(ts));
}

/// The canonical forms of a well-formed DNF mean the same and keep its shape: well formed, free of `false` sentinels
/// when it is, over the same variables, `true` or `false` as a constant exactly when it is.
pub proof fn lemma_tidy_all(ts: Seq<Conjunction>, n: nat)
    requires
        all_wf(ts),
    ensures
        all_wf(tidy_all(ts)),
        no_false(ts) ==> no_false(tidy_all(ts)),
        all_within(ts, n) ==> all_within(tidy_all(ts), n),
        any_true(tidy_all(ts)) == any_true(ts),
        all_false(tidy_all(ts)) == all_false(ts),
        forall|a: Assignment| #[trigger] eval(tidy_all(ts), a) == eval(ts, a),
        forall|a: Assignment| #[trigger] eval_upto(tidy_all(ts), a, n) == eval_upto(ts, a, n),
{
    let u = tidy_all(ts);
    assert forall|k: int| 0 <= k < ts.len() implies #[trigger] u[k] == tidy(ts[k]) by {}
    assert forall|k: int| 0 <= k < ts.len() implies (#[trigger] u[k]).wf() && u[k].is_false() == ts[k].is_false()
        && u[k].is_true() == ts[k].is_true() && (ts[k].within(n) ==> u[k].within(n)) by {
        lemma_tidy(ts[k], |i: nat| true, n);
    }
    assert forall|a: Assignment| #[trigger] eval(u, a) == eval(ts, a) by {
        if eval(u, a) {
            let k = choose|k: int| 0 <= k < u.len() && #[trigger] u[k].holds(a);
            lemma_tidy(ts[k], a, n);
            assert(ts[k].holds(a));
        }
        if eval(ts, a) {
            let k = choose|k: int| 0 <= k < ts.len() && #[trigger] ts[k].holds(a);
            lemma_tidy(ts[k], a, n);
            assert(u[k].holds(a));
        }
    }
    assert forall|a: Assignment| #[trigger] eval_upto(u, a, n) == eval_upto(ts, a, n) by {
        if eval_upto(u, a, n) {
            let k = choose|k: int| 0 <= k < u.len() && #[trigger] u[k].holds_upto(a, n);
            lemma_tidy(ts[k], a, n);
            assert(ts[k].holds_upto(a, n));
        }
        if eval_upto(ts, a, n) {
            let k = choose|k: int| 0 <= k < ts.len() && #[trigger] ts[k].holds_upto(a, n);
            lemma_tidy(ts[k], a, n);
            assert(u[k].holds_upto(a, n));
        }
    }
    if any_true(ts) {
        let k = choose|k: int| 0 <= k < ts.len() && (#[trigger] ts[k]).is_true();
        assert(u[k].is_true());
    }
    if any_true(u) {
        let k = choose|k: int| 0 <= k < u.len() && (#[trigger] u[k]).is_true();
        assert(ts[k].is_true());
    }
    assert(all_false(u) == all_false(ts)) by {
        if all_false(ts) {
            assert forall|k: int| 0 <= k < u.len() implies (#[trigger] u[k]).is_false() by {
                assert(ts[k].is_false());
            }
        }
        if all_false(u) {
            assert forall|k: int| 0 <= k < ts.len() implies (#[trigger] ts[k]).is_false() by {
                assert(u[k].is_false());
            }
        }
    }
}

/// The long conjunction `l` and the short one `s` (`s` no longer than `l`) fix some variable to opposite signs.
pub open spec fn conflict(l: Conjunction, s: Conjunction) -> bool {
    exists|i: int| 0 <= i < s.terms.len() && #[trigger] s.mask[i] && l.mask[i] && s.terms[i] != l.terms[i]
}

/// The literals of `s` (the shorter) added to those of `l`, or the `false` sentinel when either is `false` (then `s` is,
/// being no longer) or when they conflict.
pub open spec fn merge(l: Conjunction, s: Conjunction) -> Conjunction {
    if s.is_false() || conflict(l, s) {
        Conjunction { terms: Seq::empty(), mask: Seq::empty() }
    } else {
        Conjunction {
            terms: Seq::new(
                l.terms.len(),
                |j: int|
                    if j < s.terms.len() && s.mask[j] {
                        s.terms[j]
                    } else {
                        l.terms[j]
                    },
            ),
            mask: Seq::new(l.terms.len(), |j: int| l.mask[j] || (j < s.terms.len() && s.mask[j])),
        }
    }
}

/// The conjunction of two product terms, as computed by `ProductTerm::and_assign`: the literals of the shorter are added
/// to the longer (`x` counts as the longer when the two are equally long).
pub open spec fn conjoin(x: Conjunction, y: Conjunction) -> Conjunction {
    if y.terms.len() > x.terms.len() {
        merge(y, x)
    } else {
        merge(x, y)
    }
}

/// The non-`false` conjunctions of `x` with each of `ys`, in order.
pub open spec fn conjoin_row(x: Conjunction, ys: Seq<Conjunction>) -> Seq<Conjunction>
    decreases ys.len(),
{
    if ys.len() == 0 {
        Seq::empty()
    } else {
        let r = conjoin_row(x, ys.drop_last());
        let c = conjoin(x, ys.last());
        if c.is_false() {
            r
        } else {
            r.push(c)
        }
    }
}

/// The AND of two DNFs distributed back into DNF: every conjunction of `xs` with every conjunction of `ys` (row by row),
/// dropping the ones that are `false`.
pub open spec fn conjoin_all(xs: Seq<Conjunction>, ys: Seq<Conjunction>) -> Seq<Conjunction>
    decreases xs.len(),
{
    if xs.len() == 0 {
        Seq::empty()
    } else {
        conjoin_all(xs.drop_last(), ys) + conjoin_row(xs.last(), ys)
    }
}

/// The negations of the literals of `t` at positions below `k`, each as a single-literal conjunction as wide as `t`.
pub open spec fn negated_literals(t: Conjunction, k: nat) -> Seq<Conjunction>
    decreases k,
{
    if k == 0 {
        Seq::empty()
    } else {
        let i = (k - 1) as int;
        let r = negated_literals(t, (k - 1) as nat);
        if t.mask[i] {
            r.push(literal(t.terms.len(), i, !t.terms[i]))
        } else {
            r
        }
    }
}

/// The complement of a DNF (De Morgan), distributed back into DNF: starting from `true`, AND in the disjunction of the
/// negated literals of each non-`false` conjunction in turn.
pub open spec fn complement(ts: Seq<Conjunction>) -> Seq<Conjunction>
    decreases ts.len(),
{
    if ts.len() == 0 {
        seq![true_conjunction()]
    } else {
        let acc = complement(ts.drop_last());
        if ts.last().is_false() {
            acc
        } else {
            conjoin_all(acc, negated_literals(ts.last(), ts.last().terms.len()))
        }
    }
}

// ----------------------------------------------------------------------------------------------------------------------
// Evaluation of sequences.

pub proof fn lemma_eval_push(ts: Seq<Conjunction>, c: Conjunction, a: Assignment)
    ensures
        eval(ts.push(c), a) == (eval(ts, a) || c.holds(a)),
{
    if eval(ts.push(c), a) {
        let k = choose|k: int| 0 <= k < ts.push(c).len() && ts.push(c)[k].holds(a);
        if k < ts.len() {
            assert(ts[k].holds(a));
        }
    }
    if eval(ts, a) {
        let k = choose|k: int| 0 <= k < ts.len() && ts[k].holds(a);
        assert(ts.push(c)[k].holds(a));
    }
    if c.holds(a) {
        assert(ts.push(c)[ts.len() as int].holds(a));
    }
}

pub proof fn lemma_eval_concat(xs: Seq<Conjunction>, ys: Seq<Conjunction>, a: Assignment)
    ensures
        eval(xs + ys, a) == (eval(xs, a) || eval(ys, a)),
{
    if eval(xs + ys, a) {
        let k = choose|k: int| 0 <= k < (xs + ys).len() && (xs + ys)[k].holds(a);
        if k < xs.len() {
            assert(xs[k].holds(a));
        } else {
            assert(ys[k - xs.len()].holds(a));
        }
    }
    if eval(xs, a) {
        let k = choose|k: int| 0 <= k < xs.len() && xs[k].holds(a);
        assert((xs + ys)[k].holds(a));
    }
    if eval(ys, a) {
        let k = choose|k: int| 0 <= k < ys.len() && ys[k].holds(a);
        assert((xs + ys)[xs.len() + k].holds(a));
    }
}

// ----------------------------------------------------------------------------------------------------------------------
// Conjunction of two product terms.

/// The conjunction of two well-formed product terms is satisfied exactly when both are, and it is well formed; with
/// the `false` sentinel on either side it is that sentinel.
pub proof fn lemma_conjoin(x: Conjunction, y: Conjunction, a: Assignment)
    requires
        x.wf(),
        y.wf(),
    ensures
        conjoin(x, y).wf(),
        conjoin(x, y).holds(a) == (x.holds(a) && y.holds(a)),
        x.is_false() || y.is_false() ==> conjoin(x, y).is_false(),
{
    if y.terms.len() > x.terms.len() {
        lemma_merge(y, x, a);
    } else {
        lemma_merge(x, y, a);
    }
}

proof fn lemma_merge(l: Conjunction, s: Conjunction, a: Assignment)
    requires
        l.wf(),
        s.wf(),
        s.terms.len() <= l.terms.len(),
    ensures
        merge(l, s).wf(),
        merge(l, s).holds(a) == (l.holds(a) && s.holds(a)),
{
    let m = merge(l, s);
    if s.is_false() {
    } else if conflict(l, s) {
        let i = choose|i: int|
            0 <= i < s.terms.len() && #[trigger] s.mask[i] && l.mask[i] && s.terms[i] != l.terms[i];
        if l.holds(a) && s.holds(a) {
            assert(s.terms[i] == a(i as nat));
            assert(l.terms[i] == a(i as nat));
        }
    } else {
        if m.holds(a) {
            assert forall|i: int| 0 <= i < l.mask.len() && #[trigger] l.mask[i] implies i < l.terms.len()
                && l.terms[i] == a(i as nat) by {
                assert(m.mask[i]);
                if i < s.terms.len() && s.mask[i] {
                    assert(s.terms[i] == l.terms[i]);
                }
            }
            assert forall|i: int| 0 <= i < s.mask.len() && #[trigger] s.mask[i] implies i < s.terms.len()
                && s.terms[i] == a(i as nat) by {
                assert(m.mask[i]);
            }
        }
        if l.holds(a) && s.holds(a) {
            assert forall|i: int| 0 <= i < m.mask.len() && #[trigger] m.mask[i] implies i < m.terms.len()
                && m.terms[i] == a(i as nat) by {
                if i < s.terms.len() && s.mask[i] {
                } else {
                    assert(l.mask[i]);
                }
            }
        }
    }
}

// ----------------------------------------------------------------------------------------------------------------------
// AND of two DNFs.

pub proof fn lemma_conjoin_row(x: Conjunction, ys: Seq<Conjunction>, a: Assignment)
    requires
        x.wf(),
        all_wf(ys),
    ensures
        all_wf(conjoin_row(x, ys)),
        no_false(conjoin_row(x, ys)),
        eval(conjoin_row(x, ys), a) == (x.holds(a) && eval(ys, a)),
    decreases ys.len(),
{
    if ys.len() > 0 {
        let r = conjoin_row(x, ys.drop_last());
        let c = conjoin(x, ys.last());
        lemma_conjoin_row(x, ys.drop_last(), a);
        lemma_conjoin(x, ys.last(), a);
        assert(ys.last() == ys[ys.len() - 1]);
        lemma_eval_push(ys.drop_last(), ys.last(), a);
        assert(ys.drop_last().push(ys.last()) == ys);
        if !c.is_false() {
            lemma_eval_push(r, c, a);
            assert forall|k: int| 0 <= k < r.push(c).len() implies (#[trigger] r.push(c)[k]).wf() && !r.push(
                c,
            )[k].is_false() by {
                if k < r.len() {
                    assert(r.push(c)[k] == r[k]);
                }
            }
        }
    }
}

/// The AND of two DNFs is satisfied exactly when both are (for well-formed DNFs without `false` sentinels); the result is
/// again well formed and free of sentinels.
pub proof fn lemma_conjoin_all(xs: Seq<Conjunction>, ys: Seq<Conjunction>, a: Assignment)
    requires
        all_wf(xs),
        all_wf(ys),
    ensures
        all_wf(conjoin_all(xs, ys)),
        no_false(conjoin_all(xs, ys)),
        eval(conjoin_all(xs, ys), a) == (eval(xs, a) && eval(ys, a)),
    decreases xs.len(),
{
    if xs.len() > 0 {
        let r = conjoin_all(xs.drop_last(), ys);
        let row = conjoin_row(xs.last(), ys);
        lemma_conjoin_all(xs.drop_last(), ys, a);
        assert(xs.last() == xs[xs.len() - 1]);
        lemma_conjoin_row(xs.last(), ys, a);
        lemma_eval_concat(r, row, a);
        lemma_eval_push(xs.drop_last(), xs.last(), a);
        assert(xs.drop_last().push(xs.last()) == xs);
        assert forall|k: int| 0 <= k < (r + row).len() implies (#[trigger] (r + row)[k]).wf() && !(r
            + row)[k].is_false() by {
            if k < r.len() {
                assert((r + row)[k] == r[k]);
            } else {
                assert((r + row)[k] == row[k - r.len()]);
            }
        }
    }
}

// ----------------------------------------------------------------------------------------------------------------------
// Complement.

pub proof fn lemma_negated_literals(t: Conjunction, k: nat, a: Assignment)
    requires
        t.wf(),
        k <= t.terms.len(),
    ensures
        all_wf(negated_literals(t, k)),
        no_false(negated_literals(t, k)),
        eval(negated_literals(t, k), a) == exists|i: int|
            0 <= i < k && #[trigger] t.mask[i] && t.terms[i] != a(i as nat),
    decreases k,
{
    if k > 0 {
        let i = (k - 1) as int;
        let r = negated_literals(t, (k - 1) as nat);
        lemma_negated_literals(t, (k - 1) as nat, a);
        if t.mask[i] {
            let c = literal(t.terms.len(), i, !t.terms[i]);
            lemma_eval_push(r, c, a);
            assert(c.mask[i]);
            assert(c.holds(a) == (t.terms[i] != a(i as nat)));
            assert forall|m: int| 0 <= m < r.push(c).len() implies (#[trigger] r.push(c)[m]).wf() && !r.push(
                c,
            )[m].is_false() by {
                if m < r.len() {
                    assert(r.push(c)[m] == r[m]);
                }
            }
        }
        if exists|j: int| 0 <= j < k && #[trigger] t.mask[j] && t.terms[j] != a(j as nat) {
            let j = choose|j: int| 0 <= j < k && #[trigger] t.mask[j] && t.terms[j] != a(j as nat);
            if j < k - 1 {
                assert(exists|j2: int| 0 <= j2 < k - 1 && #[trigger] t.mask[j2] && t.terms[j2] != a(j2 as nat));
            }
        }
    }
}

/// The complement of a DNF is satisfied exactly when the DNF is not (for well-formed DNFs); the result is well formed
/// and free of `false` sentinels.
pub proof fn lemma_complement(ts: Seq<Conjunction>, a: Assignment)
    requires
        all_wf(ts),
    ensures
        all_wf(complement(ts)),
        no_false(complement(ts)),
        eval(complement(ts), a) == !eval(ts, a),
    decreases ts.len(),
{
    if ts.len() == 0 {
        let t = true_conjunction();
        assert(t.holds(a));
        assert(seq![t][0] == t);
    } else {
        let acc = complement(ts.drop_last());
        let last = ts.last();
        assert(last == ts[ts.len() - 1]);
        lemma_complement(ts.drop_last(), a);
        lemma_eval_push(ts.drop_last(), last, a);
        assert(ts.drop_last().push(last) == ts);
        if !last.is_false() {
            let neg = negated_literals(last, last.terms.len());
            lemma_negated_literals(last, last.terms.len(), a);
            lemma_conjoin_all(acc, neg, a);
            if last.holds(a) {
                if eval(neg, a) {
                    let i = choose|i: int|
                        0 <= i < last.terms.len() && #[trigger] last.mask[i] && last.terms[i] != a(i as nat);
                }
            } else {
                let i = choose|i: int|
                    !(0 <= i < last.mask.len() && #[trigger] last.mask[i] ==> i < last.terms.len()
                        && last.terms[i] == a(i as nat));
                assert(0 <= i < last.terms.len() && last.mask[i] && last.terms[i] != a(i as nat));
            }
        }
    }
}

// ----------------------------------------------------------------------------------------------------------------------
// Laws of the algebra, stated over the spec functions that the executable operations' contracts use.

/// OR is concatenation of product terms: the disjunction of `xs` followed by `ys` is satisfied exactly when one of them
/// is.
pub proof fn law_or(xs: Seq<Conjunction>, ys: Seq<Conjunction>, a: Assignment)
    ensures
        eval(xs + ys, a) == (eval(xs, a) || eval(ys, a)),
{
    lemma_eval_concat(xs, ys, a);
}

/// AND distributes into DNF: the AND of two well-formed DNFs is satisfied exactly when both are.
pub proof fn law_and(xs: Seq<Conjunction>, ys: Seq<Conjunction>, a: Assignment)
    requires
        all_wf(xs),
        all_wf(ys),
    ensures
        eval(conjoin_all(xs, ys), a) == (eval(xs, a) && eval(ys, a)),
{
    lemma_conjoin_all(xs, ys, a);
}

/// De Morgan: the complement of a well-formed DNF is satisfied exactly when the DNF is not.
pub proof fn law_inverse(ts: Seq<Conjunction>, a: Assignment)
    requires
        all_wf(ts),
    ensures
        eval(complement(ts), a) == !eval(ts, a),
{
    lemma_complement(ts, a);
}

/// Inverting twice gives back an expression with the same truth table.
pub proof fn law_double_inverse(ts: Seq<Conjunction>, a: Assignment)
    requires
        all_wf(ts),
    ensures
        eval(complement(complement(ts)), a) == eval(ts, a),
{
    lemma_complement(ts, a);
    lemma_complement(complement(ts), a);
}

/// The constants invert into each other: the complement of `false` (no product term) is `true` (one empty
/// conjunction), and the complement of `true` is `false`.
pub proof fn law_inverse_constants()
    ensures
        complement(Seq::empty()) == seq![true_conjunction()],
        complement(seq![true_conjunction()]) == Seq::<Conjunction>::empty(),
{
    let t = seq![true_conjunction()];
    assert(t.drop_last() =~= Seq::<Conjunction>::empty());
    assert(t.last() == true_conjunction());
    assert(negated_literals(true_conjunction(), 0) == Seq::<Conjunction>::empty());
    assert(negated_literals(true_conjunction(), 1) == Seq::<Conjunction>::empty());
    let e = Seq::<Conjunction>::empty();
    assert(conjoin_row(true_conjunction(), e) == e);
    assert(t.drop_last() == e);
    assert(conjoin_all(e, e) == e);
    assert(conjoin_all(t, e) =~= conjoin_all(e, e) + conjoin_row(true_conjunction(), e));
}

/// `true | anything == true`: a disjunction with an empty conjunction in either operand holds one.
pub proof fn law_true_absorbs_or(xs: Seq<Conjunction>, ys: Seq<Conjunction>)
    requires
        any_true(xs) || any_true(ys),
    ensures
        any_true(xs + ys),
{
    if any_true(xs) {
        let k = choose|k: int| 0 <= k < xs.len() && (#[trigger] xs[k]).is_true();
        assert((xs + ys)[k] == xs[k]);
    } else {
        let k = choose|k: int| 0 <= k < ys.len() && (#[trigger] ys[k]).is_true();
        assert((xs + ys)[xs.len() + k] == ys[k]);
    }
}

} // verus!
