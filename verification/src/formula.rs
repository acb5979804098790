//! Boolean formulas as the parsers read them, and their translation into disjunctive normal form.
//!
//! Both front ends (the algebraic syntax and JsonLogic) build their result by applying the DNF algebra of
//! [`Expression`](crate::Expression) to the operands as they are read. A [`Formula`] records which operations were
//! applied, in which order; [`Formula::dnf`] is the DNF that the algebra computes for it, and [`Formula::holds`] is what
//! the formula means. [`law_dnf_meaning`] ties the two together: the DNF that a parser returns is true under exactly the
//! assignments that satisfy the formula it read.

use vstd::prelude::*;

use crate::model::{
    all_wf, complement, conjoin_all, eval, lemma_complement, lemma_conjoin_all, lemma_eval_concat, literal,
    no_false, true_conjunction, Assignment, Conjunction,
};

verus! {

/// A boolean formula over variable indices.
pub enum Formula {
    /// The variable with this index.
    Var(nat),
    /// A constant.
    Const(bool),
    /// Negation.
    Not(Box<Formula>),
    /// Conjunction.
    And(Box<Formula>, Box<Formula>),
    /// Disjunction.
    Or(Box<Formula>, Box<Formula>),
    /// Exclusive or.
    Xor(Box<Formula>, Box<Formula>),
}

/// The DNF of a single positive literal of variable `i`: one product term as wide as `i + 1`.
pub open spec fn var_dnf(i: nat) -> Seq<Conjunction> {
    seq![literal(i + 1, i as int, true)]
}

/// The DNF of a constant: the empty conjunction for `true`, no product term for `false`.
pub open spec fn const_dnf(b: bool) -> Seq<Conjunction> {
    if b {
        seq![true_conjunction()]
    } else {
        Seq::empty()
    }
}

/// `xor(a, b) = (a & !b) | (!a & b)`, kept in DNF.
pub open spec fn xor_dnf(a: Seq<Conjunction>, b: Seq<Conjunction>) -> Seq<Conjunction> {
    conjoin_all(a, complement(b)) + conjoin_all(complement(a), b)
}

impl Formula {
    /// The truth value of the formula under `a`.
    pub open spec fn holds(self, a: Assignment) -> bool
        decreases self,
    {
        match self {
            Formula::Var(i) => a(i),
            Formula::Const(b) => b,
            Formula::Not(f) => !f.holds(a),
            Formula::And(f, g) => f.holds(a) && g.holds(a),
            Formula::Or(f, g) => f.holds(a) || g.holds(a),
            Formula::Xor(f, g) => f.holds(a) != g.holds(a),
        }
    }

    /// The DNF that the expression algebra builds for the formula: OR concatenates product terms, AND distributes,
    /// NOT is the De Morgan complement, and XOR is `(a & !b) | (!a & b)`.
    pub open spec fn dnf(self) -> Seq<Conjunction>
        decreases self,
    {
        match self {
            Formula::Var(i) => var_dnf(i),
            Formula::Const(b) => const_dnf(b),
            Formula::Not(f) => complement(f.dnf()),
            Formula::And(f, g) => conjoin_all(f.dnf(), g.dnf()),
            Formula::Or(f, g) => f.dnf() + g.dnf(),
            Formula::Xor(f, g) => xor_dnf(f.dnf(), g.dnf()),
        }
    }

    /// Every variable of the formula is below `n`.
    pub open spec fn within(self, n: nat) -> bool
        decreases self,
    {
        match self {
            Formula::Var(i) => i < n,
            Formula::Const(_) => true,
            Formula::Not(f) => f.within(n),
            Formula::And(f, g) => f.within(n) && g.within(n),
            Formula::Or(f, g) => f.within(n) && g.within(n),
            Formula::Xor(f, g) => f.within(n) && g.within(n),
        }
    }
}

proof fn lemma_no_false_concat(xs: Seq<Conjunction>, ys: Seq<Conjunction>)
    requires
        all_wf(xs),
        all_wf(ys),
        no_false(xs),
        no_false(ys),
    ensures
        all_wf(xs + ys),
        no_false(xs + ys),
{
    assert forall|k: int| 0 <= k < (xs + ys).len() implies (#[trigger] (xs + ys)[k]).wf() && !(xs + ys)[k].is_false() by {
        if k < xs.len() {
            assert((xs + ys)[k] == xs[k]);
        } else {
            assert((xs + ys)[k] == ys[k - xs.len()]);
        }
    }
}

/// The DNF of a formula is well formed, holds no `false` sentinel, and is true under exactly the assignments that
/// satisfy the formula.
pub proof fn law_dnf_meaning(f: Formula, a: Assignment)
    ensures
        all_wf(f.dnf()),
        no_false(f.dnf()),
        eval(f.dnf(), a) == f.holds(a),
    decreases f,
{
    match f {
        Formula::Var(i) => {
            let c = literal(i + 1, i as int, true);
            assert(var_dnf(i)[0] == c);
            if c.holds(a) {
                assert(c.mask[i as int]);
            }
            if a(i) {
                assert(c.holds(a));
            }
        },
        Formula::Const(b) => {
            if b {
                assert(const_dnf(b)[0] == true_conjunction());
                assert(true_conjunction().holds(a));
            }
        },
        Formula::Not(g) => {
            law_dnf_meaning(*g, a);
            lemma_complement(g.dnf(), a);
        },
        Formula::And(g, h) => {
            law_dnf_meaning(*g, a);
            law_dnf_meaning(*h, a);
            lemma_conjoin_all(g.dnf(), h.dnf(), a);
        },
        Formula::Or(g, h) => {
            law_dnf_meaning(*g, a);
            law_dnf_meaning(*h, a);
            lemma_eval_concat(g.dnf(), h.dnf(), a);
            lemma_no_false_concat(g.dnf(), h.dnf());
        },
        Formula::Xor(g, h) => {
            law_dnf_meaning(*g, a);
            law_dnf_meaning(*h, a);
            let x = g.dnf();
            let y = h.dnf();
            lemma_complement(x, a);
            lemma_complement(y, a);
            lemma_conjoin_all(x, complement(y), a);
            lemma_conjoin_all(complement(x), y, a);
            lemma_eval_concat(conjoin_all(x, complement(y)), conjoin_all(complement(x), y), a);
            lemma_no_false_concat(conjoin_all(x, complement(y)), conjoin_all(complement(x), y));
        },
    }
}

} // verus!
