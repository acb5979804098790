//! Beast: a boolean expression simplifier.
//!
//! This uses the Quine-McCluskey algorithm to simplify a boolean expression in disjunctive normal form (DNF). The
//! architecture is two libraries:
//!
//! - a **converter** ([`converter`] for JsonLogic, [`algebraic`] for the algebraic syntax) that turns an arbitrary boolean
//!   expression into an [`Expression`] in DNF, and
//! - a **simplifier** (the [`quine_mccluskey`] module) that minimizes a DNF expression.
//!
//! # Constant representation
//!
//! - **FALSE** is an [`Expression`] with no product terms (the empty disjunction), or equivalently a [`ProductTerm`]
//!   with empty `terms` (the conflict sentinel).
//! - **TRUE** is an [`Expression`] containing an *empty conjunction*: a [`ProductTerm`] with non-empty `terms` but no
//!   literal present (all `mask` bits false). An AND of zero literals is `true`, and `true | anything == true`.
//!
//! The meaning of every value is given in [`model`]: a [`ProductTerm`] views as a [`model::Conjunction`] and an
//! [`Expression`] as a sequence of them, read as their disjunction.

pub mod algebraic;
pub mod bits;
pub mod conversion_laws;
pub mod converter;
pub mod formula;
pub mod grammar_laws;
pub mod json;
pub mod json_laws;
pub mod model;
pub mod quine_mccluskey;
pub mod read_back;
pub mod render;
pub mod text;
pub mod text_read_back;
pub mod variable_table;

use core::ops::{BitAndAssign, BitOrAssign};
use std::rc::Rc;

use vstd::prelude::*;

use vstd::arithmetic::power2::pow2;
use vstd::bits::lemma_u32_shl_is_mul;

use crate::bits::{
    bit, lemma_below_from_bits, lemma_bit_and_not, lemma_bit_below, lemma_bit_or, lemma_bit_shl,
    lemma_bit_zero, lemma_bits_ext, lemma_low_mask, lemma_ubit_set, ubit,
};
use crate::model::{
    all_false, all_within, all_wf, any_true, assignment_of, eval, eval_upto, complement, conjoin, conjoin_all, conjoin_row, lemma_complement, lemma_conjoin,
    lemma_conjoin_all, lemma_negated_literals, literal, needed_width, negated_literals, no_false, tidy, tidy_all,
    true_conjunction, Conjunction,
};
use crate::quine_mccluskey::{
    covered_by, covers_some, greedy_beyond_limit, is_prime, lemma_prime_transfer, literal_count_spec, minimize,
    petrick_fits, prime_cover, total_literals, Implicant, Term,
};
use crate::variable_table::VariableTable;

verus! {

/// Selects the operators and whitespace used by [`Expression::to_algebraic_styled`].
///
/// The style affects *only* which operator glyphs are emitted and how they are spaced; the structure of the output
/// (product term order, literal order, constants `1`/`0`) is identical across styles.
#[derive(Clone, Copy, Debug, PartialEq, Eq, Structural)]
pub enum AlgebraicStyle {
    /// Textbook notation: `+` (spaced) for OR, juxtaposition for AND, and a combining overbar for NOT on a
    /// single-letter variable (`~` prefix for a multi-character one). Adjacent factors are separated by a space only
    /// when a multi-character name would otherwise merge into its neighbour. The default.
    Common,
    /// Programming notation: `|` for OR, `&` for AND (both spaced), `!` prefix for NOT. Re-parses as algebraic input.
    Code,
    /// Logic notation: `\u{2228}` for OR, `\u{2227}` for AND (both spaced), `\u{00AC}` prefix for NOT.
    Logic,
}

impl Default for AlgebraicStyle {
    /// The default style is [`Common`](AlgebraicStyle::Common).
    fn default() -> (s: Self)
        ensures
            s == AlgebraicStyle::Common,
    {
        AlgebraicStyle::Common
    }
}

/// A product term: an AND of literals.
///
/// Literals are stored in two parallel vectors indexed by variable bit index: `terms[i]` is the literal's sign (true =
/// unnegated, false = negated) and `mask[i]` is whether variable `i` is present in the product term.
///
/// Conventions:
/// - **A product term with empty `terms` represents the value `false`** (the sentinel produced when a product term
///   contains contradictory literals such as `x & !x`).
/// - **A product term with non-empty `terms` but no `mask` bit set represents `true`** (an empty conjunction).
#[derive(Clone, Debug, Default, PartialEq)]
pub struct ProductTerm {
    /// Unnegated (true) or negated (false).
    pub terms: Vec<bool>,
    /// Present (true) or not (false).
    pub mask: Vec<bool>,
}

impl View for ProductTerm {
    type V = Conjunction;

    open spec fn view(&self) -> Conjunction {
        Conjunction { terms: self.terms@, mask: self.mask@ }
    }
}

/// A copy of `v`.
fn copy_bools(v: &Vec<bool>) -> (r: Vec<bool>)
    ensures
        r@ == v@,
{
    let mut r: Vec<bool> = Vec::new();
    let mut i: usize = 0;
    while i < v.len()
        invariant
            i <= v.len(),
            r@ == v@.subrange(0, i as int),
        decreases v.len() - i,
    {
        r.push(v[i]);
        i += 1;
    }
    assert(v@.subrange(0, v.len() as int) == v@);
    r
}

impl ProductTerm {
    /// The two vectors are parallel.
    pub open spec fn wf(&self) -> bool {
        self@.wf()
    }

    /// A copy of this product term.
    pub fn copy(&self) -> (r: ProductTerm)
        ensures
            r@ == self@,
    {
        ProductTerm { terms: copy_bools(&self.terms), mask: copy_bools(&self.mask) }
    }

    /// This product term in canonical form: only as wide as its highest variable needs (at least one), with no sign
    /// recorded for an absent variable. The `false` sentinel stays as it is.
    pub(crate) fn tidied(&self) -> (r: ProductTerm)
        requires
            self.wf(),
        ensures
            r@ == tidy(self@),
    {
        let ghost c = self@;
        if self.terms.len() == 0 {
            let r = ProductTerm { terms: Vec::new(), mask: Vec::new() };
            proof {
                assert(r@.terms =~= c.terms);
                assert(r@.mask =~= c.mask);
            }
            return r;
        }
        let mut w: usize = self.mask.len();
        while w > 1 && !self.mask[w - 1]
            invariant
                c == self@,
                self.terms.len() == self.mask.len(),
                1 <= w <= self.mask.len(),
                needed_width(c, c.mask.len()) == needed_width(c, w as nat),
            decreases w,
        {
            w -= 1;
        }
        proof {
            if !self.mask@[w - 1] {
                assert(w == 1);
                assert(needed_width(c, 0) == 1);
            }
        }
        let mut terms: Vec<bool> = Vec::new();
        let mut mask: Vec<bool> = Vec::new();
        let mut j: usize = 0;
        while j < w
            invariant
                c == self@,
                j <= w <= self.mask.len(),
                self.terms.len() == self.mask.len(),
                terms@ == Seq::new(j as nat, |i: int| c.mask[i] && c.terms[i]),
                mask@ == Seq::new(j as nat, |i: int| c.mask[i]),
            decreases w - j,
        {
            terms.push(self.mask[j] && self.terms[j]);
            mask.push(self.mask[j]);
            proof {
                assert(terms@ =~= Seq::new((j + 1) as nat, |i: int| c.mask[i] && c.terms[i]));
                assert(mask@ =~= Seq::new((j + 1) as nat, |i: int| c.mask[i]));
            }
            j += 1;
        }
        ProductTerm { terms, mask }
    }

    /// Returns `true` if this product term is the constant `false` sentinel.
    pub fn is_false(&self) -> (r: bool)
        ensures
            r == self@.is_false(),
    {
        self.terms.len() == 0
    }

    /// Returns `true` if this product term is the empty conjunction (constant `true`).
    pub fn is_true(&self) -> (r: bool)
        ensures
            r == self@.is_true(),
    {
        if self.terms.len() == 0 {
            return false;
        }
        let mut i: usize = 0;
        while i < self.mask.len()
            invariant
                i <= self.mask.len(),
                forall|j: int| 0 <= j < i ==> !self.mask@[j],
            decreases self.mask.len() - i,
        {
            if self.mask[i] {
                proof {
                    assert(self@.mask[i as int]);
                }
                return false;
            }
            i += 1;
        }
        true
    }

    /// Ands this product term with another product term, in place.
    ///
    /// Combining literals with conflicting signs (`x & !x`) collapses the product term to the `false` sentinel (empty
    /// `terms`/`mask`).
    pub fn and_assign(&mut self, rhs: &ProductTerm)
        requires
            old(self).wf(),
            rhs.wf(),
        ensures
            final(self)@ == conjoin(old(self)@, rhs@),
            final(self).wf(),
            old(self)@.is_false() || rhs@.is_false() ==> final(self)@.is_false(),
    {
        // Work against the shorter of the two so we only iterate its terms.
        let mut shorter = rhs.copy();
        if shorter.terms.len() > self.terms.len() {
            std::mem::swap(&mut self.terms, &mut shorter.terms);
            std::mem::swap(&mut self.mask, &mut shorter.mask);
        }
        let ghost l = self@;
        let ghost s = shorter@;
        assert(s.terms.len() <= l.terms.len());
        // `false` on either side (then the shorter is `false`) absorbs the other.
        if shorter.terms.len() == 0 {
            self.terms.clear();
            self.mask.clear();
            proof {
                assert(self@ =~= model::merge(l, s));
            }
            return;
        }
        let mut i: usize = 0;
        while i < shorter.terms.len()
            invariant_except_break
                i <= s.terms.len(),
                shorter@ == s,
                !s.is_false(),
                s.wf(),
                l.wf(),
                s.terms.len() <= l.terms.len(),
                self.terms@ == Seq::new(
                    l.terms.len(),
                    |j: int|
                        if j < i && s.mask[j] {
                            s.terms[j]
                        } else {
                            l.terms[j]
                        },
                ),
                self.mask@ == Seq::new(l.terms.len(), |j: int| l.mask[j] || (j < i && s.mask[j])),
                forall|j: int| 0 <= j < i && #[trigger] s.mask[j] && l.mask[j] ==> s.terms[j] == l.terms[j],
            ensures
                self@ == model::merge(l, s),
            decreases s.terms.len() - i,
        {
            // If the rhs product term doesn't have this term, then ignore it.
            if !shorter.mask[i] {
                i += 1;
                continue;
            }
            // If this product term does not have this term, then add it. Otherwise, if both product terms have it, the
            // signs must agree.
            if !self.mask[i] {
                self.terms[i] = shorter.terms[i];
                self.mask[i] = true;
            } else if shorter.terms[i] != self.terms[i] {
                // Conflicting signs make the product term false.
                proof {
                    assert(s.mask[i as int] && l.mask[i as int] && s.terms[i as int] != l.terms[i as int]);
                    assert(model::conflict(l, s));
                }
                self.terms.clear();
                self.mask.clear();
                proof {
                    assert(self@ == model::merge(l, s));
                }
                break;
            }
            proof {
                assert(self.terms@ =~= Seq::new(
                    l.terms.len(),
                    |j: int|
                        if j < i + 1 && s.mask[j] {
                            s.terms[j]
                        } else {
                            l.terms[j]
                        },
                ));
                assert(self.mask@ =~= Seq::new(
                    l.terms.len(),
                    |j: int| l.mask[j] || (j < i + 1 && s.mask[j]),
                ));
                if i + 1 == s.terms.len() {
                    assert(!model::conflict(l, s));
                    assert(self@ =~= model::merge(l, s));
                }
            }
            i += 1;
        }
    }
}

/// `Rc::clone`: another handle to the same table.
#[verifier::external_body]
fn share_table(table: &Rc<VariableTable>) -> (r: Rc<VariableTable>)
    ensures
        r@ == table@,
{
    Rc::clone(table)
}

/// Returns one product term anded with another product term.
///
/// Note: a product term with no terms represents the value false.
impl core::ops::BitAnd for ProductTerm {
    type Output = ProductTerm;

    fn bitand(self, rhs: ProductTerm) -> (r: ProductTerm)
        ensures
            r@ == conjoin(self@, rhs@),
            r.wf(),
    {
        let mut s = self;
        s.and_assign(&rhs);
        s
    }
}

/// The operator's precondition: both operands are well formed. Its result is stated by the `ensures` of
/// [`bitand`](ProductTerm::bitand) itself, not through the generic specification.
impl vstd::std_specs::ops::BitAndSpecImpl for ProductTerm {
    open spec fn obeys_bitand_spec() -> bool {
        false
    }

    open spec fn bitand_req(self, rhs: ProductTerm) -> bool {
        self.wf() && rhs.wf()
    }

    open spec fn bitand_spec(self, rhs: ProductTerm) -> ProductTerm {
        vstd::pervasive::arbitrary()
    }
}

/// A boolean expression in disjunctive normal form: an OR of [`ProductTerm`]s.
///
/// An expression with no product terms represents the value `false`. An expression containing an empty-conjunction
/// product term represents `true` (see the crate-level docs).
///
/// The expression carries a shared [`VariableTable`] so the serializers can restore the original variable names
/// without taking extra arguments.
#[derive(Clone, Debug)]
pub struct Expression {
    product_terms: Vec<ProductTerm>,
    table: Rc<VariableTable>,
}

impl View for Expression {
    type V = Seq<Conjunction>;

    /// The product terms, in order.
    closed spec fn view(&self) -> Seq<Conjunction> {
        self.product_terms@.map_values(|p: ProductTerm| p@)
    }
}

impl Expression {
    /// The names of the attached variable table, in index order.
    pub closed spec fn names(&self) -> Seq<Seq<char>> {
        self.table@
    }

    /// Every product term is well formed.
    pub open spec fn wf(&self) -> bool {
        all_wf(self@)
    }

    /// Constructs an expression from its product terms (with an empty variable table).
    pub fn new(product_terms: Vec<ProductTerm>) -> (r: Self)
        ensures
            r@ == product_terms@.map_values(|p: ProductTerm| p@),
            r.names() == Seq::<Seq<char>>::empty(),
    {
        Expression { product_terms, table: Rc::new(VariableTable::new()) }
    }

    /// Adds one more product term at the end.
    fn push(&mut self, p: ProductTerm)
        ensures
            final(self)@ == old(self)@.push(p@),
            final(self).names() == old(self).names(),
    {
        self.product_terms.push(p);
        proof {
            assert(self@ =~= old(self)@.push(p@));
        }
    }
}

/// The two sequences of booleans are equal.
fn same_bools(a: &Vec<bool>, b: &Vec<bool>) -> (r: bool)
    ensures
        r == (a@ == b@),
{
    if a.len() != b.len() {
        return false;
    }
    let mut i: usize = 0;
    while i < a.len()
        invariant
            a.len() == b.len(),
            i <= a.len(),
            forall|j: int| 0 <= j < i ==> a@[j] == b@[j],
        decreases a.len() - i,
    {
        if a[i] != b[i] {
            return false;
        }
        i += 1;
    }
    assert(a@ =~= b@);
    true
}

/// Two expressions are equal when their product terms are equal; the variable table is metadata for serialization
/// and does not affect logical identity.
impl PartialEq for Expression {
    fn eq(&self, other: &Self) -> (r: bool) {
        if self.product_terms.len() != other.product_terms.len() {
            assert(self@.len() != other@.len());
            return false;
        }
        let mut k: usize = 0;
        while k < self.product_terms.len()
            invariant
                self.product_terms.len() == other.product_terms.len(),
                k <= self.product_terms.len(),
                forall|j: int| 0 <= j < k ==> self@[j] == other@[j],
            decreases self.product_terms.len() - k,
        {
            let x = &self.product_terms[k];
            let y = &other.product_terms[k];
            proof {
                assert(x@ == self@[k as int]);
                assert(y@ == other@[k as int]);
            }
            if !same_bools(&x.terms, &y.terms) || !same_bools(&x.mask, &y.mask) {
                assert(self@[k as int] != other@[k as int]);
                return false;
            }
            k += 1;
        }
        assert(self@ =~= other@);
        true
    }
}

impl vstd::std_specs::cmp::PartialEqSpecImpl for Expression {
    open spec fn obeys_eq_spec() -> bool {
        true
    }

    open spec fn eq_spec(&self, other: &Self) -> bool {
        self@ == other@
    }
}

impl Default for Expression {
    /// The constant `false` (no product terms), with an empty table.
    fn default() -> (r: Self)
        ensures
            r@ == Seq::<Conjunction>::empty(),
            r.names() == Seq::<Seq<char>>::empty(),
    {
        Expression::constant_false()
    }
}

impl Expression {
    /// The constant `false` (empty disjunction).
    pub fn constant_false() -> (r: Self)
        ensures
            r@ == Seq::<Conjunction>::empty(),
            r.names() == Seq::<Seq<char>>::empty(),
    {
        let r = Expression::new(Vec::new());
        assert(r@ =~= Seq::<Conjunction>::empty());
        r
    }

    /// The constant `true` (a single empty-conjunction product term).
    pub fn constant_true() -> (r: Self)
        ensures
            r@ == seq![true_conjunction()],
            r.names() == Seq::<Seq<char>>::empty(),
    {
        let mut v: Vec<ProductTerm> = Vec::new();
        let p = ProductTerm { terms: vec![false], mask: vec![false] };
        assert(p@.terms =~= seq![false]);
        assert(p@.mask =~= seq![false]);
        v.push(p);
        let r = Expression::new(v);
        assert(r@ =~= seq![true_conjunction()]);
        r
    }

    /// This expression with every product term in canonical form (see [`ProductTerm`]); the table stays.
    pub(crate) fn tidied(&self) -> (r: Self)
        requires
            self.wf(),
        ensures
            r@ == tidy_all(self@),
            r.names() == self.names(),
    {
        let mut product_terms: Vec<ProductTerm> = Vec::new();
        let mut k: usize = 0;
        while k < self.product_terms.len()
            invariant
                k <= self.product_terms.len(),
                all_wf(self@),
                product_terms.len() == k,
                forall|j: int| 0 <= j < k ==> (#[trigger] product_terms@[j])@ == tidy(self@[j]),
            decreases self.product_terms.len() - k,
        {
            proof {
                assert(self.product_terms@[k as int]@ == self@[k as int]);
            }
            product_terms.push(self.product_terms[k].tidied());
            k += 1;
        }
        let r = Expression { product_terms, table: share_table(&self.table) };
        proof {
            assert(r@ =~= tidy_all(self@)) by {
                assert forall|j: int| 0 <= j < r@.len() implies r@[j] == tidy_all(self@)[j] by {
                    assert(r@[j] == product_terms@[j]@);
                }
            }
        }
        r
    }

    /// Returns this expression with `table` attached for serialization.
    pub fn with_table(self, table: Rc<VariableTable>) -> (r: Self)
        ensures
            r@ == self@,
            r.names() == table@,
    {
        let mut e = self;
        e.table = table;
        e
    }

    /// Returns the shared variable table.
    pub fn table(&self) -> (r: &Rc<VariableTable>)
        ensures
            r@ == self.names(),
    {
        &self.table
    }

    /// Returns the product terms that make up this expression.
    pub fn product_terms(&self) -> (r: &[ProductTerm])
        ensures
            r@.map_values(|p: ProductTerm| p@) == self@,
    {
        self.product_terms.as_slice()
    }

    /// Returns `true` if this expression is the constant `true` (it contains an empty-conjunction product term).
    pub fn is_true(&self) -> (r: bool)
        ensures
            r == any_true(self@),
    {
        let mut k: usize = 0;
        while k < self.product_terms.len()
            invariant
                k <= self.product_terms.len(),
                forall|j: int| 0 <= j < k ==> !(#[trigger] self@[j]).is_true(),
            decreases self.product_terms.len() - k,
        {
            if self.product_terms[k].is_true() {
                proof {
                    assert(self@[k as int].is_true());
                }
                return true;
            }
            k += 1;
        }
        false
    }

    /// Returns `true` if this expression is the constant `false` (every product term, if any, is the `false` sentinel).
    pub fn is_false(&self) -> (r: bool)
        ensures
            r == all_false(self@),
    {
        let mut k: usize = 0;
        while k < self.product_terms.len()
            invariant
                k <= self.product_terms.len(),
                forall|j: int| 0 <= j < k ==> (#[trigger] self@[j]).is_false(),
            decreases self.product_terms.len() - k,
        {
            if !self.product_terms[k].is_false() {
                proof {
                    assert(!self@[k as int].is_false());
                }
                return false;
            }
            k += 1;
        }
        true
    }

    /// Returns the inverse of this expression (De Morgan's laws), distributed back into DNF.
    ///
    /// `!(c1 | c2 | ...) = !c1 & !c2 & ...`, where the inverse of a product term is the OR of its negated literals. The
    /// fold starts from the TRUE identity, so `!false == true` and `!true == false`.
    pub fn inverse(&self) -> (r: Expression)
        requires
            self.wf(),
        ensures
            r@ == complement(self@),
            r.names() == self.names(),
            r.wf(),
    {
        let mut acc = Expression::constant_true();
        let mut k: usize = 0;
        while k < self.product_terms.len()
            invariant
                k <= self.product_terms.len(),
                all_wf(self@),
                acc@ == complement(self@.subrange(0, k as int)),
                all_wf(acc@),
                no_false(acc@),
            decreases self.product_terms.len() - k,
        {
            let term = &self.product_terms[k];
            proof {
                assert(self@.subrange(0, k + 1).drop_last() =~= self@.subrange(0, k as int));
                assert(self@.subrange(0, k + 1).last() == term@);
                assert(self@[k as int] == term@);
                lemma_complement(self@.subrange(0, k + 1), |i: nat| true);
            }
            // A `false` sentinel product term contributes nothing to the disjunction, so it contributes nothing to the
            // inverse either.
            if term.is_false() {
                k += 1;
                continue;
            }
            // The inverse of a product term is an OR (expression) of its negated literals. An empty conjunction (`true`)
            // inverts to `false`.
            let mut not_term = Expression::constant_false();
            let width = term.terms.len();
            let mut i: usize = 0;
            while i < width
                invariant
                    width == term.terms.len(),
                    term.wf(),
                    i <= width,
                    not_term@ == negated_literals(term@, i as nat),
                decreases width - i,
            {
                if term.mask[i] {
                    let mut terms = vec![false; width];
                    let mut mask = vec![false; width];
                    terms[i] = !term.terms[i];
                    mask[i] = true;
                    let lit = ProductTerm { terms, mask };
                    proof {
                        let expected = literal(width as nat, i as int, !term@.terms[i as int]);
                        assert(lit@.terms =~= expected.terms);
                        assert(lit@.mask =~= expected.mask);
                    }
                    not_term.push(lit);
                }
                i += 1;
            }
            proof {
                lemma_negated_literals(term@, term@.terms.len(), |i: nat| true);
            }
            acc.bitand_assign(&not_term);
            k += 1;
        }
        proof {
            assert(self@.subrange(0, self@.len() as int) =~= self@);
        }
        acc.with_table(share_table(&self.table))
    }
}

/// Returns an expression oring one product term with another product term.
///
/// Note: a product term with no terms represents the value false.
impl core::ops::BitOr for ProductTerm {
    type Output = Expression;

    fn bitor(self, rhs: ProductTerm) -> (r: Expression)
        ensures
            r@ == seq![self@, rhs@],
            r.names() == Seq::<Seq<char>>::empty(),
    {
        let mut v: Vec<ProductTerm> = Vec::new();
        v.push(self);
        v.push(rhs);
        let r = Expression::new(v);
        assert(r@ =~= seq![self@, rhs@]);
        r
    }
}

/// The operator makes no claim through the generic specification; its result is stated by the `ensures` of
/// [`bitor`](ProductTerm::bitor) itself.
impl vstd::std_specs::ops::BitOrSpecImpl for ProductTerm {
    open spec fn obeys_bitor_spec() -> bool {
        false
    }

    open spec fn bitor_req(self, rhs: ProductTerm) -> bool {
        true
    }

    open spec fn bitor_spec(self, rhs: ProductTerm) -> Expression {
        vstd::pervasive::arbitrary()
    }
}

impl core::ops::BitOrAssign<&Expression> for Expression {
    /// Ors this expression with another (concatenates product terms).
    fn bitor_assign(&mut self, rhs: &Expression)
        ensures
            final(self)@ == old(self)@ + rhs@,
            final(self).names() == old(self).names(),
    {
        let mut i: usize = 0;
        while i < rhs.product_terms.len()
            invariant
                i <= rhs.product_terms.len(),
                self@ == old(self)@ + rhs@.subrange(0, i as int),
                self.names() == old(self).names(),
            decreases rhs.product_terms.len() - i,
        {
            let ghost before = self@;
            self.push(rhs.product_terms[i].copy());
            proof {
                assert(rhs@[i as int] == rhs.product_terms@[i as int]@);
                assert(self@ =~= old(self)@ + rhs@.subrange(0, i + 1));
            }
            i += 1;
        }
        proof {
            assert(rhs@.subrange(0, rhs@.len() as int) =~= rhs@);
        }
    }
}

impl core::ops::BitOr<&Expression> for Expression {
    type Output = Expression;

    fn bitor(self, rhs: &Expression) -> (r: Expression)
        ensures
            r@ == self@ + rhs@,
            r.names() == self.names(),
    {
        let mut e = self;
        e.bitor_assign(rhs);
        e
    }
}

/// The operator makes no claim through the generic specification; its result is stated by the `ensures` of
/// [`bitor`](Expression::bitor) itself.
impl vstd::std_specs::ops::BitOrSpecImpl<&Expression> for Expression {
    open spec fn obeys_bitor_spec() -> bool {
        false
    }

    open spec fn bitor_req(self, rhs: &Expression) -> bool {
        true
    }

    open spec fn bitor_spec(self, rhs: &Expression) -> Expression {
        vstd::pervasive::arbitrary()
    }
}

/// Ands this expression with another (distributes: product of sums -> sum of products), dropping any product term that
/// reduces to false.
impl core::ops::BitAndAssign<&Expression> for Expression {
    fn bitand_assign(&mut self, rhs: &Expression)
        requires
            old(self).wf(),
            rhs.wf(),
        ensures
            final(self)@ == conjoin_all(old(self)@, rhs@),
            final(self).wf(),
            final(self).names() == old(self).names(),
    {
        let mut product: Vec<ProductTerm> = Vec::new();
        let ghost xs = self@;
        let ghost ys = rhs@;
        let mut a: usize = 0;
        while a < self.product_terms.len()
            invariant
                a <= self.product_terms.len(),
                self@ == xs,
                rhs@ == ys,
                all_wf(xs),
                all_wf(ys),
                product@.map_values(|p: ProductTerm| p@) == conjoin_all(
                    xs.subrange(0, a as int),
                    ys,
                ),
                all_wf(product@.map_values(|p: ProductTerm| p@)),
            decreases self.product_terms.len() - a,
        {
            let ghost row_start = product@.map_values(|p: ProductTerm| p@);
            let x = &self.product_terms[a];
            let mut b: usize = 0;
            while b < rhs.product_terms.len()
                invariant
                    a < self.product_terms.len(),
                    b <= rhs.product_terms.len(),
                    self@ == xs,
                    rhs@ == ys,
                    all_wf(xs),
                    all_wf(ys),
                    x@ == xs[a as int],
                    product@.map_values(|p: ProductTerm| p@) == row_start
                        + conjoin_row(x@, ys.subrange(0, b as int)),
                    all_wf(product@.map_values(|p: ProductTerm| p@)),
                decreases rhs.product_terms.len() - b,
            {
                let y = &rhs.product_terms[b];
                proof {
                    assert(y@ == ys[b as int]);
                    assert(ys.subrange(0, b + 1).drop_last() =~= ys.subrange(0, b as int));
                    assert(ys.subrange(0, b + 1).last() == y@);
                }
                proof {
                    assert(xs[a as int].wf());
                    assert(ys[b as int].wf());
                }
                let c = x.copy() & y.copy();
                if !c.is_false() {
                    let ghost before = product@.map_values(|p: ProductTerm| p@);
                    product.push(c);
                    proof {
                        assert(product@.map_values(|p: ProductTerm| p@) =~= before.push(c@));
                    }
                }
                b += 1;
            }
            proof {
                assert(ys.subrange(0, ys.len() as int) =~= ys);
                assert(xs.subrange(0, a + 1).drop_last() =~= xs.subrange(0, a as int));
                assert(xs.subrange(0, a + 1).last() == xs[a as int]);
            }
            a += 1;
        }
        proof {
            assert(xs.subrange(0, xs.len() as int) =~= xs);
        }
        self.product_terms = product;
    }
}

impl core::ops::BitAnd<&Expression> for Expression {
    type Output = Expression;

    fn bitand(self, rhs: &Expression) -> (r: Expression)
        ensures
            r@ == conjoin_all(self@, rhs@),
            r.wf(),
            r.names() == self.names(),
    {
        let mut e = self;
        e.bitand_assign(rhs);
        e
    }
}

/// The operator's precondition: both operands are well formed. Its result is stated by the `ensures` of
/// [`bitand`](Expression::bitand) itself, not through the generic specification.
impl vstd::std_specs::ops::BitAndSpecImpl<&Expression> for Expression {
    open spec fn obeys_bitand_spec() -> bool {
        false
    }

    open spec fn bitand_req(self, rhs: &Expression) -> bool {
        self.wf() && rhs.wf()
    }

    open spec fn bitand_spec(self, rhs: &Expression) -> Expression {
        vstd::pervasive::arbitrary()
    }
}

// ----------------------------------------------------------------------------------------------------------------------
// The bridge between product terms and the bit-packed terms of the simplifier.

/// Variable `p` is present in `t`.
spec fn fixed(t: Conjunction, p: int) -> bool {
    0 <= p < t.mask.len() && t.mask[p]
}

/// The free positions of a product term over `n` variables, in ascending order.
spec fn free_ok(free: Seq<usize>, n: nat) -> bool {
    &&& forall|a: int, b: int| 0 <= a < b < free.len() ==> free[a] < free[b]
    &&& forall|a: int| 0 <= a < free.len() ==> free[a] < n
}

/// `base` with bit `free[q]` set for every `q < j` whose bit is set in `c`.
spec fn scatter(base: u32, free: Seq<usize>, c: usize, j: nat) -> u32
    decreases j,
{
    if j == 0 {
        base
    } else {
        let prev = scatter(base, free, c, (j - 1) as nat);
        if ubit(c, (j - 1) as usize) {
            prev | (1u32 << (free[j - 1] as u32))
        } else {
            prev
        }
    }
}

/// The word whose bit `q` is bit `free[q]` of `m`, for `q < k`.
spec fn gather(m: u32, free: Seq<usize>, k: nat) -> usize
    decreases k,
{
    if k == 0 {
        0
    } else {
        let prev = gather(m, free, (k - 1) as nat);
        if bit(m, free[k - 1] as u32) {
            prev | (1usize << ((k - 1) as usize))
        } else {
            prev
        }
    }
}

proof fn lemma_free_len(free: Seq<usize>, n: nat)
    requires
        free_ok(free, n),
    ensures
        free.len() <= n,
        forall|a: int| 0 <= a < free.len() ==> a <= #[trigger] free[a],
    decreases free.len(),
{
    if free.len() > 0 {
        let d = free.drop_last();
        assert forall|a: int, b: int| 0 <= a < b < d.len() implies d[a] < d[b] by {
            assert(d[a] == free[a] && d[b] == free[b]);
        }
        assert forall|a: int| 0 <= a < d.len() implies d[a] < n by {
            assert(d[a] == free[a]);
        }
        lemma_free_len(d, n);
        assert forall|a: int| 0 <= a < free.len() implies a <= #[trigger] free[a] by {
            if a < d.len() {
                assert(d[a] == free[a]);
            } else if a > 0 {
                assert(d[a - 1] == free[a - 1]);
                assert(free[a - 1] < free[a]);
            }
        }
        assert(free[free.len() - 1] >= free.len() - 1);
        assert(free[free.len() - 1] < n);
    }
}

proof fn lemma_scatter_bits(base: u32, free: Seq<usize>, c: usize, j: nat, n: nat)
    requires
        n < 32,
        free_ok(free, n),
        j <= free.len(),
        forall|q: int| 0 <= q < free.len() ==> !bit(base, #[trigger] free[q] as u32),
    ensures
        forall|q: int|
            0 <= q < free.len() ==> bit(scatter(base, free, c, j), #[trigger] free[q] as u32) == (q < j
                && ubit(c, q as usize)),
        forall|p: u32| p < 32 && !free.contains(p as usize) ==> bit(scatter(base, free, c, j), p) == bit(base, p),
    decreases j,
{
    if j > 0 {
        lemma_scatter_bits(base, free, c, (j - 1) as nat, n);
        let prev = scatter(base, free, c, (j - 1) as nat);
        let pos = free[j - 1] as u32;
        if ubit(c, (j - 1) as usize) {
            assert forall|q: int| 0 <= q < free.len() implies bit(scatter(base, free, c, j), #[trigger] free[q] as u32)
                == (q < j && ubit(c, q as usize)) by {
                lemma_bit_or(prev, 1u32 << pos, free[q] as u32);
                lemma_bit_shl(0, free[q] as u32, pos);
                if q != j - 1 {
                    assert(free[q] != free[j - 1]);
                }
            }
            assert forall|p: u32| p < 32 && !free.contains(p as usize) implies bit(scatter(base, free, c, j), p) == bit(
                base,
                p,
            ) by {
                lemma_bit_or(prev, 1u32 << pos, p);
                lemma_bit_shl(0, p, pos);
                if p == pos {
                    assert(free[j - 1] == p as usize);
                }
            }
        }
    }
}

proof fn lemma_gather_bits(m: u32, free: Seq<usize>, k: nat)
    requires
        k <= free.len(),
        free.len() < 32,
    ensures
        forall|q: usize| q < 32 ==> ubit(gather(m, free, k), q) == (q < k && bit(m, free[q as int] as u32)),
        gather(m, free, k) < (1usize << (k as usize)),
    decreases k,
{
    if k == 0 {
        assert forall|q: usize| q < 32 implies ubit(gather(m, free, k), q) == (q < k && bit(
            m,
            free[q as int] as u32,
        )) by {
            lemma_ubit_set(0, 0, q);
        }
        assert(0usize < (1usize << 0usize)) by (bit_vector);
    } else {
        lemma_gather_bits(m, free, (k - 1) as nat);
        let prev = gather(m, free, (k - 1) as nat);
        let j = (k - 1) as usize;
        lemma_ubit_set(prev, j, 0);
        assert forall|q: usize| q < 32 implies ubit(gather(m, free, k), q) == (q < k && bit(
            m,
            free[q as int] as u32,
        )) by {
            lemma_ubit_set(prev, j, q);
        }
    }
}

/// Some word `c < combo` scatters to `x`.
spec fn generated(base: u32, free: Seq<usize>, combo: usize, x: u32) -> bool {
    exists|c: usize| c < combo && #[trigger] scatter(base, free, c, free.len()) == x
}

/// Marking the word that `combo` scatters to extends the generated set by that word.
proof fn lemma_seen_step(
    seen_before: Seq<bool>,
    seen_mid: Seq<bool>,
    seen_after: Seq<bool>,
    base: u32,
    free: Seq<usize>,
    combo: usize,
    m: u32,
    limit: u32,
)
    requires
        m < limit,
        combo < usize::MAX,
        seen_mid.len() == limit,
        seen_after == seen_mid.update(m as int, true),
        scatter(base, free, combo, free.len()) == m,
        forall|x: u32| x < limit ==> (seen_mid[x as int] <==> (seen_before[x as int] || generated(base, free, combo, x))),
    ensures
        forall|x: u32|
            x < limit ==> (seen_after[x as int] <==> (seen_before[x as int] || generated(
                base,
                free,
                (combo + 1) as usize,
                x,
            ))),
{
    let next = (combo + 1) as usize;
    assert forall|x: u32| x < limit implies (seen_after[x as int] <==> (seen_before[x as int] || generated(base, free, next, x))) by {
        assert(seen_after[x as int] == (x == m || seen_mid[x as int]));
        if x == m {
            assert(scatter(base, free, combo, free.len()) == x);
            assert(combo < next);
            assert(generated(base, free, next, x));
        } else {
            if generated(base, free, next, x) {
                let c = choose|c: usize| c < next && #[trigger] scatter(base, free, c, free.len()) == x;
                assert(c != combo);
                assert(generated(base, free, combo, x));
            }
            if generated(base, free, combo, x) {
                let c = choose|c: usize| c < combo && #[trigger] scatter(base, free, c, free.len()) == x;
                assert(c < next);
                assert(generated(base, free, next, x));
            }
        }
    }
}

/// A word matches a product term over `n` variables: it is below `2^n` and agrees with every literal below `n`.
spec fn matches_term(t: Conjunction, x: u32, n: nat) -> bool {
    &&& x < (1u32 << (n as u32))
    &&& forall|p: int| 0 <= p < n && fixed(t, p) ==> t.terms[p] == bit(x, p as u32)
}

/// The words generated from a product term's fixed bits (`base`) and free positions are exactly the words that match it.
proof fn lemma_generated(t: Conjunction, base: u32, free: Seq<usize>, n: nat)
    requires
        n < 32,
        t.wf(),
        free_ok(free, n),
        forall|p: u32| p < 32 ==> bit(base, p) == (p < n && fixed(t, p as int) && t.terms[p as int]),
        forall|p: int| 0 <= p < n ==> (free.contains(p as usize) <==> !fixed(t, p)),
    ensures
        forall|c: usize| matches_term(t, #[trigger] scatter(base, free, c, free.len()), n),
        forall|x: u32|
            matches_term(t, x, n) ==> gather(x, free, free.len()) < (1usize << free.len())
                && scatter(base, free, gather(x, free, free.len()), free.len()) == x,
{
    lemma_free_len(free, n);
    assert forall|q: int| 0 <= q < free.len() implies !bit(base, #[trigger] free[q] as u32) by {
        assert(free.contains(free[q]));
    }
    assert forall|c: usize| matches_term(t, #[trigger] scatter(base, free, c, free.len()), n) by {
        let y = scatter(base, free, c, free.len());
        lemma_scatter_bits(base, free, c, free.len(), n);
        assert forall|i: u32| n <= i < 32 implies !bit(y, i) by {
            if free.contains(i as usize) {
                let q = choose|q: int| 0 <= q < free.len() && free[q] == i as usize;
                assert(free[q] < n);
            }
            assert(!free.contains(i as usize));
            assert(bit(base, i) == (i < n && fixed(t, i as int) && t.terms[i as int]));
        }
        lemma_below_from_bits(y, n as u32);
        assert forall|p: int| 0 <= p < n && fixed(t, p) implies t.terms[p] == bit(y, p as u32) by {
            if free.contains(p as usize) {
            }
        }
    }
    assert forall|x: u32| matches_term(t, x, n) implies gather(x, free, free.len()) < (1usize << free.len())
        && scatter(base, free, gather(x, free, free.len()), free.len()) == x by {
        let c = gather(x, free, free.len());
        lemma_gather_bits(x, free, free.len());
        lemma_scatter_bits(base, free, c, free.len(), n);
        let y = scatter(base, free, c, free.len());
        assert forall|i: u32| i < 32 implies bit(y, i) == bit(x, i) by {
            if free.contains(i as usize) {
                let q = choose|q: int| 0 <= q < free.len() && free[q] == i as usize;
                assert(free[q] as u32 == i);
                assert(bit(y, free[q] as u32) == (q < free.len() && ubit(c, q as usize)));
                assert(ubit(c, q as usize) == bit(x, free[q as usize as int] as u32));
            } else {
                assert(bit(y, i) == bit(base, i));
                if i < n {
                    assert(free.contains((i as int) as usize) <==> !fixed(t, i as int));
                    assert(fixed(t, i as int));
                    assert(t.terms[i as int] == bit(x, i));
                } else {
                    lemma_bit_below(x, n as u32, i);
                }
            }
        }
        lemma_bits_ext(y, x);
    }
}

/// A non-`false` product term holds under the assignment of a word below `2^n` exactly when the word matches it.
proof fn lemma_matches_holds(t: Conjunction, x: u32, n: nat)
    requires
        n < 32,
        t.wf(),
        !t.is_false(),
        x < (1u32 << (n as u32)),
    ensures
        matches_term(t, x, n) == t.holds_upto(assignment_of(x), n),
{
    if matches_term(t, x, n) {
        assert forall|i: int| 0 <= i < n && i < t.mask.len() && #[trigger] t.mask[i] implies i < t.terms.len()
            && t.terms[i] == assignment_of(x)(i as nat) by {
            assert(fixed(t, i));
        }
    }
    if t.holds_upto(assignment_of(x), n) {
        assert forall|p: int| 0 <= p < n && fixed(t, p) implies t.terms[p] == bit(x, p as u32) by {
            assert(t.mask[p]);
        }
    }
}

/// Returns the ON-set minterms of a DNF `Expression` over `num_vars` variables, in ascending order.
///
/// Each product term is expanded over the variables it leaves free (every position in `0..num_vars` it does not
/// constrain), and the resulting minterms are unioned.
#[verifier::spinoff_prover]
#[verifier::rlimit(40)]
pub fn expression_to_minterms(expr: &Expression, num_vars: usize) -> (r: Vec<Term>)
    requires
        expr.wf(),
        num_vars < 32,
    ensures
        forall|i: int, j: int| 0 <= i < j < r.len() ==> r[i] < r[j],
        forall|m: Term|
            r@.contains(m) <==> (m < (1u32 << (num_vars as u32)) && eval_upto(
                expr@,
                assignment_of(m),
                num_vars as nat,
            )),
{
    let ghost n = num_vars as nat;
    let size: usize = 1usize << num_vars;
    let limit: u32 = 1u32 << (num_vars as u32);
    proof {
        lemma_low_mask(0, num_vars as u32, 0);
    }
    let mut seen: Vec<bool> = vec![false; size];
    let mut t: usize = 0;
    while t < expr.product_terms.len()
        invariant
            num_vars < 32,
            n == num_vars,
            limit == 1u32 << (num_vars as u32),
            size == limit as usize,
            seen.len() == size,
            all_wf(expr@),
            t <= expr.product_terms.len(),
            forall|x: u32|
                x < limit ==> (seen@[x as int] <==> exists|k: int|
                    0 <= k < t && (#[trigger] expr@[k]).holds_upto(assignment_of(x), n)),
        decreases expr.product_terms.len() - t,
    {
        let term = &expr.product_terms[t];
        proof {
            assert(term@ == expr@[t as int]);
            assert(term@.wf());
        }
        if term.is_false() {
            proof {
                assert forall|x: u32| x < limit implies (seen@[x as int] <==> exists|k: int|
                    0 <= k < t + 1 && (#[trigger] expr@[k]).holds_upto(assignment_of(x), n)) by {
                    if exists|k: int| 0 <= k < t + 1 && (#[trigger] expr@[k]).holds_upto(assignment_of(x), n) {
                        let k = choose|k: int| 0 <= k < t + 1 && (#[trigger] expr@[k]).holds_upto(assignment_of(x), n);
                        assert(k != t);
                    }
                }
            }
            t += 1;
            continue;
        }
        // Fixed bits from the product term's present literals; everything else is free.
        let mut base: Term = 0;
        let mut free: Vec<usize> = Vec::new();
        let mut i: usize = 0;
        proof {
            assert forall|p: u32| p < 32 implies !bit(base, p) by {
                lemma_bit_zero(p);
            }
        }
        while i < num_vars
            invariant
                num_vars < 32,
                n == num_vars,
                i <= num_vars,
                term@.wf(),
                forall|p: u32| p < 32 ==> bit(base, p) == (p < i && fixed(term@, p as int) && term@.terms[p as int]),
                free_ok(free@, i as nat),
                forall|p: int| 0 <= p < i ==> (free@.contains(p as usize) <==> !fixed(term@, p)),
            decreases num_vars - i,
        {
            let ghost free_before = free@;
            let ghost base_before = base;
            if i < term.mask.len() && term.mask[i] {
                if term.terms[i] {
                    base = base | (1u32 << (i as u32));
                }
            } else {
                free.push(i);
            }
            proof {
                assert forall|p: u32| p < 32 implies bit(base, p) == (p < i + 1 && fixed(term@, p as int)
                    && term@.terms[p as int]) by {
                    lemma_bit_or(base_before, 1u32 << (i as u32), p);
                    lemma_bit_shl(0, p, i as u32);
                }
                assert forall|p: int| 0 <= p < i + 1 implies (free@.contains(p as usize) <==> !fixed(term@, p)) by {
                    if p < i {
                        if free_before.contains(p as usize) {
                            let q = choose|q: int| 0 <= q < free_before.len() && free_before[q] == p as usize;
                            assert(free@[q] == p as usize);
                        }
                        if free@.contains(p as usize) {
                            let q = choose|q: int| 0 <= q < free@.len() && free@[q] == p as usize;
                            if q < free_before.len() {
                                assert(free_before[q] == p as usize);
                            }
                        }
                    } else {
                        if !fixed(term@, p) {
                            assert(free@[free@.len() - 1] == p as usize);
                        }
                        if free@.contains(p as usize) {
                            let q = choose|q: int| 0 <= q < free@.len() && free@[q] == p as usize;
                            if q < free_before.len() {
                                assert(free_before[q] < i);
                            }
                        }
                    }
                }
            }
            i += 1;
        }
        proof {
            lemma_generated(term@, base, free@, n);
            lemma_free_len(free@, n);
        }
        // Enumerate every assignment of the free variables.
        let count: usize = 1usize << free.len();
        let ghost seen_before = seen@;
        let mut combo: usize = 0;
        while combo < count
            invariant
                num_vars < 32,
                n == num_vars,
                limit == 1u32 << (num_vars as u32),
                size == limit as usize,
                seen.len() == size,
                count == 1usize << free.len(),
                free_ok(free@, n),
                free.len() <= n,
                term@ == expr@[t as int],
                forall|c: usize| matches_term(term@, #[trigger] scatter(base, free@, c, free@.len()), n),
                forall|x: u32|
                    matches_term(term@, x, n) ==> gather(x, free@, free@.len()) < (1usize << free@.len())
                        && scatter(base, free@, gather(x, free@, free@.len()), free@.len()) == x,
                forall|x: u32|
                    x < limit ==> (seen@[x as int] <==> (seen_before[x as int] || generated(base, free@, combo, x))),
            decreases count - combo,
        {
            let mut m: Term = base;
            let mut j: usize = 0;
            while j < free.len()
                invariant
                    j <= free.len(),
                    free_ok(free@, n),
                    free.len() <= n,
                    n < 32,
                    m == scatter(base, free@, combo, j as nat),
                decreases free.len() - j,
            {
                if combo & (1usize << j) != 0 {
                    m = m | (1u32 << (free[j] as u32));
                }
                j += 1;
            }
            proof {
                assert(m == scatter(base, free@, combo, free@.len()));
                assert(matches_term(term@, scatter(base, free@, combo, free@.len()), n));
                assert(m < limit);
            }
            let ghost seen_mid = seen@;
            seen[m as usize] = true;
            proof {
                lemma_seen_step(seen_before, seen_mid, seen@, base, free@, combo, m, limit);
            }
            combo += 1;
        }
        proof {
            assert forall|x: u32| x < limit implies (seen@[x as int] <==> exists|k: int|
                0 <= k < t + 1 && (#[trigger] expr@[k]).holds_upto(assignment_of(x), n)) by {
                lemma_matches_holds(term@, x, n);
                assert(seen@[x as int] == (seen_before[x as int] || generated(base, free@, combo, x)));
                assert(seen_before[x as int] == exists|k: int|
                    0 <= k < t && (#[trigger] expr@[k]).holds_upto(assignment_of(x), n));
                if seen_before[x as int] {
                    let k = choose|k: int| 0 <= k < t && (#[trigger] expr@[k]).holds_upto(assignment_of(x), n);
                    assert(0 <= k < t + 1 && expr@[k].holds_upto(assignment_of(x), n));
                }
                if matches_term(term@, x, n) {
                    let c = gather(x, free@, free@.len());
                    assert(scatter(base, free@, c, free@.len()) == x);
                    assert(c < combo);
                    assert(generated(base, free@, combo, x));
                    assert(expr@[t as int].holds_upto(assignment_of(x), n));
                }
                if generated(base, free@, combo, x) {
                    let c = choose|c: usize| c < combo && #[trigger] scatter(base, free@, c, free@.len()) == x;
                    assert(matches_term(term@, scatter(base, free@, c, free@.len()), n));
                    assert(expr@[t as int].holds_upto(assignment_of(x), n));
                }
                if exists|k: int| 0 <= k < t + 1 && (#[trigger] expr@[k]).holds_upto(assignment_of(x), n) {
                    let k = choose|k: int| 0 <= k < t + 1 && (#[trigger] expr@[k]).holds_upto(assignment_of(x), n);
                    if k == t {
                        let c = gather(x, free@, free@.len());
                        assert(scatter(base, free@, c, free@.len()) == x);
                        assert(c < combo);
                        assert(generated(base, free@, combo, x));
                    } else {
                        assert(seen_before[x as int]);
                    }
                }
            }
        }
        t += 1;
    }
    let mut out: Vec<Term> = Vec::new();
    let mut m: u32 = 0;
    while m < limit
        invariant
            m <= limit,
            size == limit as usize,
            seen.len() == size,
            forall|i: int, j: int| 0 <= i < j < out.len() ==> out[i] < out[j],
            forall|i: int| 0 <= i < out.len() ==> out[i] < m,
            forall|y: u32| out@.contains(y) <==> (y < m && seen@[y as int]),
        decreases limit - m,
    {
        let ghost out_before = out@;
        if seen[m as usize] {
            out.push(m);
        }
        proof {
            assert forall|y: u32| out@.contains(y) <==> (y < m + 1 && seen@[y as int]) by {
                if out@.contains(y) {
                    let q = choose|q: int| 0 <= q < out@.len() && out@[q] == y;
                    if q < out_before.len() {
                        assert(out_before[q] == y);
                    }
                }
                if y < m + 1 && seen@[y as int] {
                    if y < m {
                        let q = choose|q: int| 0 <= q < out_before.len() && out_before[q] == y;
                        assert(out@[q] == y);
                    } else {
                        assert(out@[out@.len() - 1] == y);
                    }
                }
            }
        }
        m += 1;
    }
    proof {
        assert forall|y: Term| out@.contains(y) <==> (y < limit && eval_upto(expr@, assignment_of(y), n)) by {
            if y < limit {
                if eval_upto(expr@, assignment_of(y), n) {
                    let k = choose|k: int| 0 <= k < expr@.len() && (#[trigger] expr@[k]).holds_upto(assignment_of(y), n);
                    assert(seen@[y as int]);
                }
            }
            if out@.contains(y) {
                let k = choose|k: int| 0 <= k < expr@.len() && (#[trigger] expr@[k]).holds_upto(assignment_of(y), n);
            }
        }
    }
    out
}

/// The product term of a selected implicant over `n` variables: variable `i` is a literal exactly when it is a care bit
/// (`d` bit clear), with its sign from `v`.
pub open spec fn implicant_conjunction(imp: Implicant, n: nat) -> Conjunction {
    Conjunction {
        terms: Seq::new(n, |i: int| !bit(imp.d, i as u32) && bit(imp.v, i as u32)),
        mask: Seq::new(n, |i: int| !bit(imp.d, i as u32)),
    }
}

/// The number of variables that the mask `mask` holds: a conjunction's literals.
pub open spec fn mask_count(mask: Seq<bool>) -> nat
    decreases mask.len(),
{
    if mask.len() == 0 {
        0
    } else {
        mask_count(mask.drop_last()) + if mask.last() {
            1nat
        } else {
            0nat
        }
    }
}

/// The number of literals of the conjunctions of `r`, in total.
pub open spec fn literal_total(r: Seq<Conjunction>) -> nat
    decreases r.len(),
{
    if r.len() == 0 {
        0
    } else {
        literal_total(r.drop_last()) + mask_count(r.last().mask)
    }
}

/// The constant `true` has no literals.
proof fn lemma_true_literals()
    ensures
        literal_total(seq![true_conjunction()]) == 0,
{
    let s = seq![true_conjunction()];
    assert(s.drop_last() =~= Seq::<Conjunction>::empty());
    assert(literal_total(s.drop_last()) == 0);
    let m = true_conjunction().mask;
    assert(m.drop_last() =~= Seq::<bool>::empty());
    assert(mask_count(m.drop_last()) == 0);
    assert(!m.last());
    assert(mask_count(m) == 0);
    assert(s.last() == true_conjunction());
}

/// The product term of an implicant over `n` variables has as many literals as the implicant has over `n` variables.
proof fn lemma_implicant_literals(imp: Implicant, n: nat)
    requires
        n <= 32,
    ensures
        mask_count(implicant_conjunction(imp, n).mask) == literal_count_spec(imp.d, n),
    decreases n,
{
    if n > 0 {
        lemma_implicant_literals(imp, (n - 1) as nat);
        assert(implicant_conjunction(imp, n).mask.drop_last() =~= implicant_conjunction(imp, (n - 1) as nat).mask);
    }
}

/// The product terms of implicants over `n` variables have, in total, as many literals as the implicants.
proof fn lemma_conjunction_literals(r: Seq<Conjunction>, imps: Seq<Implicant>, n: nat)
    requires
        n <= 32,
        r.len() == imps.len(),
        forall|j: int| 0 <= j < r.len() ==> r[j] == implicant_conjunction(imps[j], n),
    ensures
        literal_total(r) == total_literals(imps, n),
    decreases r.len(),
{
    if r.len() > 0 {
        lemma_conjunction_literals(r.drop_last(), imps.drop_last(), n);
        assert(r[r.len() - 1] == implicant_conjunction(imps[imps.len() - 1], n));
        lemma_implicant_literals(imps.last(), n);
    }
}

/// Converts a selected `Implicant` to a [`ProductTerm`] over `num_vars` variables.
///
/// Bit `i` becomes a literal iff it is a care bit (`d` bit clear); its sign comes from `v`. Don't-care bits are left
/// absent from the product term.
pub fn implicant_to_product_term(imp: &Implicant, num_vars: usize) -> (r: ProductTerm)
    requires
        num_vars <= 32,
    ensures
        r@ == implicant_conjunction(*imp, num_vars as nat),
{
    let mut terms = vec![false; num_vars];
    let mut mask = vec![false; num_vars];
    let mut i: usize = 0;
    while i < num_vars
        invariant
            num_vars <= 32,
            i <= num_vars,
            terms.len() == num_vars,
            mask.len() == num_vars,
            forall|j: int| 0 <= j < i ==> terms@[j] == (!bit(imp.d, j as u32) && bit(imp.v, j as u32)),
            forall|j: int| 0 <= j < i ==> mask@[j] == !bit(imp.d, j as u32),
            forall|j: int| i <= j < num_vars ==> !terms@[j] && !mask@[j],
        decreases num_vars - i,
    {
        proof {
            lemma_bit_shl(imp.d, 0, i as u32);
            lemma_bit_shl(imp.v, 0, i as u32);
        }
        if imp.d & (1u32 << (i as u32)) == 0 {
            mask[i] = true;
            terms[i] = imp.v & (1u32 << (i as u32)) != 0;
        }
        i += 1;
    }
    let r = ProductTerm { terms, mask };
    proof {
        let e = implicant_conjunction(*imp, num_vars as nat);
        assert(r@.terms =~= e.terms);
        assert(r@.mask =~= e.mask);
    }
    r
}

/// The product term of a normalized implicant whose fixed value lies below `2^n` holds under the assignment of a word
/// below `2^n` exactly when the implicant covers the word.
proof fn lemma_implicant_holds(imp: Implicant, x: u32, n: nat)
    requires
        0 < n < 32,
        imp.is_normalized(),
        forall|i: u32| n <= i < 32 ==> !bit(imp.v, i),
        x < (1u32 << (n as u32)),
    ensures
        implicant_conjunction(imp, n).holds(assignment_of(x)) == imp.covers_spec(x),
        implicant_conjunction(imp, n).wf(),
        implicant_conjunction(imp, n).within(n),
{
    let c = implicant_conjunction(imp, n);
    assert forall|i: u32| i < 32 implies bit(imp.v & imp.d, i) == (bit(imp.v, i) && bit(imp.d, i)) by {
        lemma_bit_and_not(imp.v, imp.d, i);
    }
    assert forall|i: u32| i < 32 implies !(bit(imp.v, i) && bit(imp.d, i)) by {
        lemma_bit_zero(i);
        assert(bit(imp.v & imp.d, i) == bit(0, i));
    }
    if c.holds(assignment_of(x)) {
        assert forall|i: u32| i < 32 implies bit(imp.v, i) == bit(x & !imp.d, i) by {
            lemma_bit_and_not(x, imp.d, i);
            if i < n {
                if !bit(imp.d, i) {
                    assert(c.mask[i as int]);
                }
            } else {
                lemma_bit_below(x, n as u32, i);
            }
        }
        lemma_bits_ext(imp.v, x & !imp.d);
    }
    if imp.covers_spec(x) {
        assert forall|i: int| 0 <= i < c.mask.len() && #[trigger] c.mask[i] implies i < c.terms.len() && c.terms[i]
            == assignment_of(x)(i as nat) by {
            lemma_bit_and_not(x, imp.d, i as u32);
        }
    }
}

/// A strictly increasing sequence of words below `N` holds every word below `N` exactly when it has `N` elements.
proof fn lemma_sorted_full(m: Seq<u32>, big: nat)
    requires
        big <= 0x1_0000_0000,
        forall|i: int, j: int| 0 <= i < j < m.len() ==> m[i] < m[j],
        forall|i: int| 0 <= i < m.len() ==> m[i] < big,
    ensures
        (m.len() == big) == (forall|y: u32| y < big ==> m.contains(y)),
{
    lemma_sorted_lower(m, m.len() as int);
    if m.len() > 0 {
        assert(m.len() - 1 <= m[m.len() - 1]);
        assert(m.len() <= big);
    }
    if m.len() == big {
        lemma_sorted_upper(m, big, 0);
        assert forall|y: u32| y < big implies m.contains(y) by {
            assert(m[y as int] == y);
        }
    }
    if forall|y: u32| y < big ==> m.contains(y) {
        if big > 0 {
            let last = (big - 1) as int;
            lemma_sorted_prefix(m, big, last);
            assert(last < m.len() && m[last] == last);
        }
    }
}

proof fn lemma_sorted_lower(m: Seq<u32>, k: int)
    requires
        0 <= k <= m.len(),
        forall|i: int, j: int| 0 <= i < j < m.len() ==> m[i] < m[j],
    ensures
        forall|i: int| 0 <= i < k ==> i <= #[trigger] m[i],
    decreases k,
{
    if k > 0 {
        lemma_sorted_lower(m, k - 1);
        if k > 1 {
            assert(m[k - 2] < m[k - 1]);
        }
    }
}

proof fn lemma_sorted_upper(m: Seq<u32>, big: nat, k: int)
    requires
        0 <= k <= m.len(),
        m.len() == big,
        forall|i: int, j: int| 0 <= i < j < m.len() ==> m[i] < m[j],
        forall|i: int| 0 <= i < m.len() ==> m[i] < big,
    ensures
        forall|i: int| k <= i < m.len() ==> #[trigger] m[i] <= i,
    decreases m.len() - k,
{
    if k < m.len() {
        lemma_sorted_upper(m, big, k + 1);
        if k + 1 < m.len() {
            assert(m[k] < m[k + 1]);
        }
    }
    lemma_sorted_lower(m, m.len() as int);
}

proof fn lemma_sorted_prefix(m: Seq<u32>, big: nat, k: int)
    requires
        0 <= k < big,
        big <= 0x1_0000_0000,
        forall|i: int, j: int| 0 <= i < j < m.len() ==> m[i] < m[j],
        forall|y: u32| y < big ==> m.contains(y),
        forall|i: int| 0 <= i < m.len() ==> i <= #[trigger] m[i],
    ensures
        k < m.len(),
        forall|i: int| 0 <= i <= k ==> i < m.len() && #[trigger] m[i] == i,
    decreases k,
{
    if k > 0 {
        lemma_sorted_prefix(m, big, k - 1);
    }
    let y = k as u32;
    assert(y == k);
    assert(m.contains(y));
    let j = choose|j: int| 0 <= j < m.len() && m[j] == y;
    assert(j <= m[j]);
    if j < k {
        assert(m[j] == j);
        assert(false);
    }
    assert(j == k);
    assert forall|i: int| 0 <= i <= k implies i < m.len() && #[trigger] m[i] == i by {
        if i < k {
        } else {
            assert(i == j);
        }
    }
}

/// The expressions that [`simplify`] takes: constants, and the others over between one and 31 variables (the truth
/// table of 32 variables does not fit the simplifier's terms).
pub open spec fn simplify_admits(ts: Seq<Conjunction>, n: nat) -> bool {
    any_true(ts) || all_false(ts) || 0 < n < 32
}

/// Returns a simplified expression from a JsonLogic expression.
///
/// Converts the input to DNF (building a [`VariableTable`]), then minimizes it.
///
/// # Errors
///
/// Returns `Err` with a human-readable message when the input is not a valid boolean expression: a node with anything
/// other than exactly one operator key, an unsupported operator, an operator with the wrong arity, a non-string `var`
/// name, or more than [`MAX_VARIABLES`](quine_mccluskey::MAX_VARIABLES) distinct variables.
pub fn simplify_json(json: &json::Json) -> (r: Result<Expression, String>)
    requires
        converter::dnf_spec(json@, Seq::empty()) matches Ok((f, names)) ==> simplify_admits(f.dnf(), names.len()),
    ensures
        match converter::dnf_spec(json@, Seq::empty()) {
            Ok((f, names)) => r matches Ok(e) && e.names() == names && simplified(e@, f.dnf(), names.len()),
            Err((m, _)) => r matches Err(e) && e@ == m,
        },
{
    let mut table = VariableTable::new();
    let converted = converter::to_dnf(json, &mut table);
    let dnf = match converted {
        Err(e) => {
            return Err(e);
        },
        Ok(d) => d,
    };
    proof {
        let f = converter::dnf_spec(json@, Seq::empty())->Ok_0.0;
        formula::law_dnf_meaning(f, |i: nat| true);
    }
    let dnf = dnf.with_table(Rc::new(table));
    Ok(simplify(&dnf))
}

/// Parses an algebraic boolean expression and returns its minimal DNF form.
///
/// The algebraic counterpart to `simplify_json`: it runs the [`algebraic`] parser, then the same Quine-McCluskey
/// [`simplify`]. The result carries the variable table, so it can be serialized back with either
/// [`Expression::to_algebraic`] or `Expression::to_json`.
///
/// # Errors
///
/// Returns `Err` with a human-readable message on a lexing or syntax error, an empty expression, or more than
/// [`MAX_VARIABLES`](quine_mccluskey::MAX_VARIABLES) variables (see [`algebraic::parse_algebraic`]).
pub fn simplify_algebraic(input: &str) -> (r: Result<Expression, String>)
    requires
        algebraic::algebraic_outcome(input@, Seq::empty()) matches Ok((f, names)) ==> simplify_admits(
            f.dnf(),
            names.len(),
        ),
    ensures
        match algebraic::algebraic_outcome(input@, Seq::empty()) {
            Ok((f, names)) => r matches Ok(e) && e.names() == names && simplified(e@, f.dnf(), names.len()),
            Err((m, _)) => r matches Err(e) && e@ == m,
        },
{
    let mut table = VariableTable::new();
    let parsed = algebraic::parse_algebraic(input, &mut table);
    let dnf = match parsed {
        Err(e) => {
            return Err(e);
        },
        Ok(d) => d,
    };
    let ghost n = table@.len();
    proof {
        let f = algebraic::algebraic_outcome(input@, Seq::empty())->Ok_0.0;
        formula::law_dnf_meaning(f, |i: nat| true);
        crate::model::lemma_tidy_all(f.dnf(), n);
    }
    let dnf = dnf.with_table(Rc::new(table));
    let r = simplify(&dnf);
    proof {
        let f = algebraic::algebraic_outcome(input@, Seq::empty())->Ok_0.0;
        lemma_simplified_tidy(r@, f.dnf(), n);
    }
    Ok(r)
}

/// Simplifying the canonical form of a DNF is simplifying the DNF: the two have the same truth table.
proof fn lemma_simplified_tidy(r: Seq<Conjunction>, d: Seq<Conjunction>, n: nat)
    requires
        all_wf(d),
        simplified(r, tidy_all(d), n),
    ensures
        simplified(r, d, n),
{
    crate::model::lemma_tidy_all(d, n);
    let p1 = |m: u32| eval_upto(tidy_all(d), assignment_of(m), n);
    let p2 = |m: u32| eval_upto(d, assignment_of(m), n);
    assert(p1 =~= p2);
    assert(on_set(tidy_all(d), n) == on_set(d, n));
}

/// The words below `2^n` whose assignments satisfy `ts` (reading the variables below `n`): its truth table's on-set.
pub open spec fn on_set(ts: Seq<Conjunction>, n: nat) -> Seq<Term> {
    Seq::new(pow2(n), |i: int| i as u32).filter(|m: u32| eval_upto(ts, assignment_of(m), n))
}

proof fn lemma_on_set(ts: Seq<Conjunction>, n: nat, t: u32)
    requires
        n < 32,
    ensures
        on_set(ts, n).contains(t) <==> ((t as nat) < pow2(n) && eval_upto(ts, assignment_of(t), n)),
{
    let base = Seq::new(pow2(n), |i: int| i as u32);
    let pred = |m: u32| eval_upto(ts, assignment_of(m), n);
    vstd::arithmetic::power2::lemma_pow2_strictly_increases(n, 32);
    vstd::arithmetic::power2::lemma2_to64();
    if (t as nat) < pow2(n) && eval_upto(ts, assignment_of(t), n) {
        assert(base[t as int] == t);
        base.lemma_filter_contains(pred, t as int);
    }
    if on_set(ts, n).contains(t) {
        base.lemma_filter_contains_rev(pred, t);
        let i = choose|i: int| 0 <= i < base.len() && base[i] == t;
        assert(i as u32 == i);
        let j = choose|j: int| 0 <= j < base.filter(pred).len() && base.filter(pred)[j] == t;
        base.lemma_filter_pred(pred, j);
    }
}

/// Filtering a strictly increasing sequence keeps it strictly increasing, and keeps only its elements.
proof fn lemma_filter_increasing(s: Seq<u32>, pred: spec_fn(u32) -> bool)
    requires
        forall|i: int, j: int| 0 <= i < j < s.len() ==> s[i] < s[j],
    ensures
        forall|i: int, j: int| 0 <= i < j < s.filter(pred).len() ==> s.filter(pred)[i] < s.filter(pred)[j],
        forall|i: int| 0 <= i < s.filter(pred).len() ==> s.contains(#[trigger] s.filter(pred)[i]),
    decreases s.len(),
{
    reveal(Seq::filter);
    if s.len() > 0 {
        let d = s.drop_last();
        lemma_filter_increasing(d, pred);
        let f = d.filter(pred);
        assert forall|i: int| 0 <= i < f.len() implies f[i] < s.last() && s.contains(f[i]) by {
            assert(d.contains(f[i]));
            let k = choose|k: int| 0 <= k < d.len() && d[k] == f[i];
            assert(s[k] == f[i]);
        }
        assert(s.contains(s.last())) by {
            assert(s[s.len() - 1] == s.last());
        }
    }
}

/// Two strictly increasing sequences with the same elements are equal.
proof fn lemma_increasing_equal(a: Seq<u32>, b: Seq<u32>)
    requires
        forall|i: int, j: int| 0 <= i < j < a.len() ==> a[i] < a[j],
        forall|i: int, j: int| 0 <= i < j < b.len() ==> b[i] < b[j],
        forall|x: u32| a.contains(x) <==> b.contains(x),
    ensures
        a == b,
    decreases a.len(),
{
    if a.len() == 0 {
        if b.len() > 0 {
            assert(b.contains(b[0]));
        }
        assert(a =~= b);
    } else {
        assert(a.contains(a[0]));
        assert(b.len() > 0);
        assert(b.contains(b[0]));
        let i = choose|i: int| 0 <= i < b.len() && b[i] == a[0];
        let j = choose|j: int| 0 <= j < a.len() && a[j] == b[0];
        assert(a[0] == b[0]) by {
            if a[0] != b[0] {
                assert(i > 0 && j > 0);
                assert(b[0] < b[i]);
                assert(a[0] < a[j]);
            }
        }
        let a1 = a.drop_first();
        let b1 = b.drop_first();
        assert forall|x: u32| a1.contains(x) <==> b1.contains(x) by {
            if a1.contains(x) {
                let k = choose|k: int| 0 <= k < a1.len() && a1[k] == x;
                assert(a[k + 1] == x && a[0] < x);
                assert(b.contains(x));
                let l = choose|l: int| 0 <= l < b.len() && b[l] == x;
                assert(l != 0);
                assert(b1[l - 1] == x);
            }
            if b1.contains(x) {
                let k = choose|k: int| 0 <= k < b1.len() && b1[k] == x;
                assert(b[k + 1] == x && b[0] < x);
                assert(a.contains(x));
                let l = choose|l: int| 0 <= l < a.len() && a[l] == x;
                assert(l != 0);
                assert(a1[l - 1] == x);
            }
        }
        lemma_increasing_equal(a1, b1);
        assert(a =~= b) by {
            assert forall|k: int| 0 <= k < a.len() implies a[k] == b[k] by {
                if k > 0 {
                    assert(a1[k - 1] == b1[k - 1]);
                }
            }
        }
    }
}

/// Below 32 variables the on-set is the increasing list of the satisfying assignments.
proof fn lemma_on_set_increasing(ts: Seq<Conjunction>, n: nat)
    requires
        n < 32,
    ensures
        forall|i: int, j: int| 0 <= i < j < on_set(ts, n).len() ==> on_set(ts, n)[i] < on_set(ts, n)[j],
{
    let base = Seq::new(pow2(n), |i: int| i as u32);
    let pred = |m: u32| eval_upto(ts, assignment_of(m), n);
    vstd::arithmetic::power2::lemma_pow2_strictly_increases(n, 32);
    vstd::arithmetic::power2::lemma2_to64();
    assert forall|i: int, j: int| 0 <= i < j < base.len() implies base[i] < base[j] by {
        assert(i as u32 == i && j as u32 == j);
    }
    lemma_filter_increasing(base, pred);
}

/// The on-set holds the assignment of all zeros when it satisfies the expression.
proof fn lemma_on_set_zero(ts: Seq<Conjunction>, n: nat)
    ensures
        eval_upto(ts, assignment_of(0), n) ==> on_set(ts, n).contains(0),
{
    let base = Seq::new(pow2(n), |i: int| i as u32);
    let pred = |m: u32| eval_upto(ts, assignment_of(m), n);
    vstd::arithmetic::power2::lemma_pow2_pos(n);
    if eval_upto(ts, assignment_of(0), n) {
        assert(base[0] == 0u32);
        base.lemma_filter_contains(pred, 0);
    }
}

/// A cover of a non-empty on-set has at least one implicant.
proof fn lemma_cover_nonempty(c: Seq<Implicant>, x: Seq<Conjunction>, n: nat)
    requires
        eval_upto(x, assignment_of(0), n),
        prime_cover(c, on_set(x, n), on_set(x, n)),
    ensures
        c.len() >= 1,
{
    lemma_on_set_zero(x, n);
    assert(covered_by(c, 0));
}

/// The minimality of the implicants that [`minimize`] returns for the on-set carries over to the expression.
proof fn lemma_simplify_minimal(
    x: Seq<Conjunction>,
    n: nat,
    minterms: Seq<Term>,
    dont_cares: Seq<Term>,
    r_len: nat,
    r_lits: nat,
)
    requires
        n < 32,
        dont_cares == Seq::<Term>::empty(),
        forall|i: int, j: int| 0 <= i < j < minterms.len() ==> minterms[i] < minterms[j],
        forall|t: Term| minterms.contains(t) <==> on_set(x, n).contains(t),
        petrick_fits(minterms, dont_cares) ==> forall|c: Seq<Implicant>|
            #[trigger] prime_cover(c, minterms, minterms + dont_cares) ==> r_len <= c.len(),
        petrick_fits(minterms, dont_cares) ==> forall|c: Seq<Implicant>|
            #[trigger] prime_cover(c, minterms, minterms + dont_cares) && c.len() <= r_len ==> r_lits
                <= total_literals(c, n),
    ensures
        petrick_fits(on_set(x, n), Seq::empty()) ==> forall|c: Seq<Implicant>|
            #[trigger] prime_cover(c, on_set(x, n), on_set(x, n)) ==> r_len <= c.len(),
        petrick_fits(on_set(x, n), Seq::empty()) ==> forall|c: Seq<Implicant>|
            #[trigger] prime_cover(c, on_set(x, n), on_set(x, n)) && c.len() <= r_len ==> r_lits <= total_literals(c, n),
{
    lemma_on_set_increasing(x, n);
    lemma_increasing_equal(minterms, on_set(x, n));
    assert(minterms + dont_cares =~= minterms);
}

/// An implicant covering some minterm and only minterms below `2^n` has no bit, fixed or eliminated, at or above `n`.
proof fn lemma_high_bits(imp: Implicant, minterms: Seq<Term>, n: nat)
    requires
        0 < n < 32,
        forall|m: Term| minterms.contains(m) ==> m < (1u32 << (n as u32)),
        covers_some(imp, minterms),
        forall|t: Term| #[trigger] imp.covers_spec(t) ==> minterms.contains(t),
    ensures
        forall|i: u32| n <= i < 32 ==> !bit(imp.v, i) && !bit(imp.d, i),
{
    let m = choose|m: Term| minterms.contains(m) && imp.covers_spec(m);
    assert forall|i: u32| n <= i < 32 implies !bit(imp.v, i) && !bit(imp.d, i) by {
        lemma_bit_and_not(m, imp.d, i);
        lemma_bit_below(m, n as u32, i);
        if bit(imp.d, i) {
            let d = imp.d;
            let m2 = m | (1u32 << i);
            let nn = n as u32;
            assert((m2 & !d) == (m & !d)) by (bit_vector)
                requires
                    i < 32,
                    (d >> i) & 1u32 == 1u32,
                    m2 == m | (1u32 << i),
            ;
            assert(m2 >= (1u32 << nn)) by (bit_vector)
                requires
                    nn <= i < 32,
                    m2 == m | (1u32 << i),
            ;
            assert(imp.covers_spec(m2));
        }
    }
}

/// Two implicants without bits at or above `n` that give the same product term over `n` variables are the same.
proof fn lemma_conjunction_injective(a: Implicant, b: Implicant, n: nat)
    requires
        n < 32,
        a.is_normalized(),
        b.is_normalized(),
        forall|i: u32| n <= i < 32 ==> !bit(a.v, i) && !bit(a.d, i),
        forall|i: u32| n <= i < 32 ==> !bit(b.v, i) && !bit(b.d, i),
        implicant_conjunction(a, n) == implicant_conjunction(b, n),
    ensures
        a == b,
{
    let ca = implicant_conjunction(a, n);
    let cb = implicant_conjunction(b, n);
    assert forall|i: u32| i < 32 implies bit(a.d, i) == bit(b.d, i) && bit(a.v, i) == bit(b.v, i) by {
        if i < n {
            assert(ca.mask[i as int] == cb.mask[i as int]);
            assert(ca.terms[i as int] == cb.terms[i as int]);
            lemma_bit_and_not(a.v, a.d, i);
            lemma_bit_and_not(b.v, b.d, i);
            lemma_bit_zero(i);
        }
    }
    lemma_bits_ext(a.d, b.d);
    lemma_bits_ext(a.v, b.v);
}

/// The product terms of distinct implicants that [`minimize`] returns for the minterms are distinct.
proof fn lemma_main_distinct(n: nat, minterms: Seq<Term>, imps: Seq<Implicant>, r: Seq<Conjunction>)
    requires
        0 < n < 32,
        forall|m: Term| minterms.contains(m) ==> m < (1u32 << (n as u32)),
        imps.no_duplicates(),
        forall|k: int| 0 <= k < imps.len() ==> (#[trigger] imps[k]).is_normalized(),
        forall|k: int| 0 <= k < imps.len() ==> covers_some(#[trigger] imps[k], minterms),
        forall|k: int, t: Term| 0 <= k < imps.len() && #[trigger] imps[k].covers_spec(t) ==> minterms.contains(t),
        r.len() == imps.len(),
        forall|j: int| 0 <= j < r.len() ==> r[j] == implicant_conjunction(imps[j], n),
    ensures
        r.no_duplicates(),
{
    assert forall|j: int, k: int| 0 <= j < r.len() && 0 <= k < r.len() && j != k implies r[j] != r[k] by {
        lemma_high_bits(imps[j], minterms, n);
        lemma_high_bits(imps[k], minterms, n);
        if r[j] == r[k] {
            lemma_conjunction_injective(imps[j], imps[k], n);
        }
    }
}

/// The implicants that [`minimize`] returns for the minterms fix no variable at or above `n`, so their conjunctions are
/// well formed, not `false`, and over the variables below `n`.
proof fn lemma_main_wf(n: nat, minterms: Seq<Term>, imps: Seq<Implicant>, r: Seq<Conjunction>)
    requires
        0 < n < 32,
        forall|m: Term| minterms.contains(m) ==> m < (1u32 << (n as u32)),
        r.len() == imps.len(),
        forall|j: int| 0 <= j < r.len() ==> r[j] == implicant_conjunction(imps[j], n),
        forall|k: int| 0 <= k < imps.len() ==> (#[trigger] imps[k]).is_normalized(),
        forall|k: int| 0 <= k < imps.len() ==> covers_some(#[trigger] imps[k], minterms),
    ensures
        forall|j: int| 0 <= j < r.len() ==> (#[trigger] r[j]).wf() && !r[j].is_false() && r[j].within(n),
        forall|k: int| 0 <= k < imps.len() ==> forall|i: u32| n <= i < 32 ==> !bit((#[trigger] imps[k]).v, i),
{
    assert forall|k: int| 0 <= k < imps.len() implies forall|i: u32| n <= i < 32 ==> !bit((#[trigger] imps[k]).v, i) by {
        let m = choose|m: Term| minterms.contains(m) && imps[k].covers_spec(m);
        assert forall|i: u32| n <= i < 32 implies !bit(imps[k].v, i) by {
            lemma_bit_and_not(m, imps[k].d, i);
            lemma_bit_below(m, n as u32, i);
        }
    }
    assert forall|j: int| 0 <= j < r.len() implies (#[trigger] r[j]).wf() && !r[j].is_false() && r[j].within(n) by {
        let m = choose|m: Term| minterms.contains(m) && imps[j].covers_spec(m);
        assert(r[j] == implicant_conjunction(imps[j], n));
        lemma_implicant_holds(imps[j], 0, n);
    }
}

/// Prime implicants of the minterms are prime implicants of the on-set.
proof fn lemma_main_prime(x: Seq<Conjunction>, n: nat, minterms: Seq<Term>, imps: Seq<Implicant>)
    requires
        0 < n < 32,
        forall|m: Term| minterms.contains(m) <==> ((m as nat) < pow2(n) && eval_upto(x, assignment_of(m), n)),
        forall|k: int| 0 <= k < imps.len() ==> is_prime(#[trigger] imps[k], minterms),
    ensures
        forall|k: int| 0 <= k < imps.len() ==> is_prime(#[trigger] imps[k], on_set(x, n)),
{
    assert forall|t: Term| minterms.contains(t) <==> on_set(x, n).contains(t) by {
        lemma_on_set(x, n, t);
    }
    assert forall|k: int| 0 <= k < imps.len() implies is_prime(#[trigger] imps[k], on_set(x, n)) by {
        lemma_prime_transfer(imps[k], minterms, on_set(x, n));
    }
}

/// The disjunction of the implicants' conjunctions has the truth table of the minterms.
proof fn lemma_main_table(x: Seq<Conjunction>, n: nat, minterms: Seq<Term>, imps: Seq<Implicant>, r: Seq<Conjunction>)
    requires
        0 < n < 32,
        (1u32 << (n as u32)) as nat == pow2(n),
        forall|k: int| 0 <= k < imps.len() ==> forall|i: u32| n <= i < 32 ==> !bit((#[trigger] imps[k]).v, i),
        forall|m: Term| minterms.contains(m) <==> ((m as nat) < pow2(n) && eval_upto(x, assignment_of(m), n)),
        r.len() == imps.len(),
        forall|j: int| 0 <= j < r.len() ==> r[j] == implicant_conjunction(imps[j], n),
        forall|m: Term| minterms.contains(m) ==> covered_by(imps, m),
        forall|k: int| 0 <= k < imps.len() ==> (#[trigger] imps[k]).is_normalized(),
        forall|k: int, t: Term| 0 <= k < imps.len() && #[trigger] imps[k].covers_spec(t) ==> minterms.contains(t),
    ensures
        forall|m: u32| (m as nat) < pow2(n) ==> eval(r, assignment_of(m)) == eval_upto(x, assignment_of(m), n),
{
    assert forall|m: u32| (m as nat) < pow2(n) implies eval(r, assignment_of(m)) == eval_upto(x, assignment_of(m), n) by {
        assert forall|j: int| 0 <= j < r.len() implies (#[trigger] r[j]).holds(assignment_of(m)) == imps[j].covers_spec(
            m,
        ) by {
            assert(r[j] == implicant_conjunction(imps[j], n));
            lemma_implicant_holds(imps[j], m, n);
        }
        if eval(r, assignment_of(m)) {
            let j = choose|j: int| 0 <= j < r.len() && (#[trigger] r[j]).holds(assignment_of(m));
            assert(imps[j].covers_spec(m));
        }
        if eval_upto(x, assignment_of(m), n) {
            assert(minterms.contains(m));
            assert(covered_by(imps, m));
            let j = choose|j: int| 0 <= j < imps.len() && (#[trigger] imps[j]).covers_spec(m);
            assert(r[j].holds(assignment_of(m)));
        }
    }
}

/// The product terms over `n` variables of the implicants `imps`, in order.
pub open spec fn conjunctions_of(imps: Seq<Implicant>, n: nat) -> Seq<Conjunction> {
    imps.map_values(|imp: Implicant| implicant_conjunction(imp, n))
}

/// `r` is what [`simplify`] makes of the expression `x` over `n` variables: well formed, free of `false` sentinels and of
/// repeated product terms, over the variables below `n`, with the same truth table on them, the constants for a
/// tautology and for an unsatisfiable expression, and otherwise made of prime implicants of the truth table: the
/// product terms of implicants that are the greedy selection whenever Petrick's method goes beyond its limit.
pub open spec fn simplified(r: Seq<Conjunction>, x: Seq<Conjunction>, n: nat) -> bool {
    &&& ((exists|m: u32| (m as nat) < pow2(n) && eval_upto(x, assignment_of(m), n)) && (exists|m: u32|
        (m as nat) < pow2(n) && !eval_upto(x, assignment_of(m), n))) ==> exists|imps: Seq<Implicant>|
        #[trigger] greedy_beyond_limit(imps, on_set(x, n), Seq::empty()) && r == conjunctions_of(imps, n)
    &&& all_wf(r)
    &&& no_false(r)
    &&& r.no_duplicates()
    &&& all_within(r, n)
    &&& forall|m: u32| (m as nat) < pow2(n) ==> eval(r, assignment_of(m)) == eval_upto(x, assignment_of(m), n)
    &&& (forall|m: u32| (m as nat) < pow2(n) ==> eval_upto(x, assignment_of(m), n)) ==> r == seq![true_conjunction()]
    &&& (forall|m: u32| (m as nat) < pow2(n) ==> !eval_upto(x, assignment_of(m), n)) ==> r == Seq::<Conjunction>::empty()
    &&& (r == seq![true_conjunction()] || forall|k: int|
        #![trigger r[k]]
        0 <= k < r.len() ==> exists|imp: Implicant|
            is_prime(imp, on_set(x, n)) && r[k] == #[trigger] implicant_conjunction(imp, n))
}

/// Returns the minimal-DNF form of `x` via Quine-McCluskey.
///
/// The number of variables is taken from the attached [`VariableTable`]. Constants are handled directly: a tautology
/// returns the constant `true` and an unsatisfiable expression returns the constant `false`. Otherwise the product
/// terms are prime implicants of the truth table; when Petrick's method stays within its product limit, no cover of
/// the truth table by prime implicants has fewer, and none of the same size has fewer literals.
pub fn simplify(x: &Expression) -> (r: Expression)
    requires
        x.wf(),
        simplify_admits(x@, x.names().len()),
    ensures
        r.names() == x.names(),
        simplified(r@, x@, x.names().len()),
        petrick_fits(on_set(x@, x.names().len()), Seq::empty()) ==> forall|c: Seq<Implicant>|
            #[trigger] prime_cover(c, on_set(x@, x.names().len()), on_set(x@, x.names().len())) ==> r@.len() <= c.len(),
        petrick_fits(on_set(x@, x.names().len()), Seq::empty()) ==> forall|c: Seq<Implicant>|
            #[trigger] prime_cover(c, on_set(x@, x.names().len()), on_set(x@, x.names().len())) && c.len() <= r@.len()
                ==> literal_total(r@) <= total_literals(c, x.names().len()),
{
    let ghost n = x.names().len();
    let table = share_table(&x.table);
    proof {
        vstd::arithmetic::power2::lemma_pow2_pos(n);
    }
    if x.is_true() {
        proof {
            let k = choose|k: int| 0 <= k < x@.len() && (#[trigger] x@[k]).is_true();
            assert forall|m: u32| (m as nat) < pow2(n) implies eval_upto(x@, assignment_of(m), n) by {
                assert(x@[k].holds_upto(assignment_of(m), n));
            }
            assert(eval_upto(x@, assignment_of(0), n));
        }
        let r = Expression::constant_true().with_table(table);
        proof {
            assert forall|m: u32| #[trigger] eval(r@, assignment_of(m)) by {
                assert(r@[0].holds(assignment_of(m)));
            }
            assert forall|c: Seq<Implicant>| #[trigger] prime_cover(c, on_set(x@, n), on_set(x@, n)) implies r@.len()
                <= c.len() by {
                lemma_cover_nonempty(c, x@, n);
            }
            lemma_true_literals();
        }
        return r;
    }
    if x.is_false() {
        proof {
            assert forall|m: u32| (m as nat) < pow2(n) implies !eval_upto(x@, assignment_of(m), n) by {
                if eval_upto(x@, assignment_of(m), n) {
                    let k = choose|k: int| 0 <= k < x@.len() && (#[trigger] x@[k]).holds_upto(assignment_of(m), n);
                    assert(x@[k].is_false());
                }
            }
            assert(!eval_upto(x@, assignment_of(0), n));
        }
        return Expression::constant_false().with_table(table);
    }
    let num_vars = table.len();
    proof {
        assert(num_vars == n);
        assert(0 < n < 32);
        vstd::bits::lemma_u32_pow2_no_overflow(num_vars as nat);
        vstd::arithmetic::power2::lemma_pow2_strictly_increases(num_vars as nat, 32);
        vstd::arithmetic::power2::lemma2_to64();
        lemma_u32_shl_is_mul(1, num_vars as u32);
        assert((1u32 << (num_vars as u32)) as nat == pow2(n));
    }
    let minterms = expression_to_minterms(x, num_vars);
    proof {
        assert forall|i: int| 0 <= i < minterms.len() implies minterms@[i] < pow2(n) by {
            assert(minterms@.contains(minterms@[i]));
        }
        lemma_sorted_full(minterms@, pow2(n));
        lemma_low_mask(0, num_vars as u32, 0);
        // The two constant outcomes are told apart by the minterms.
        assert((forall|m: u32| (m as nat) < pow2(n) ==> eval_upto(x@, assignment_of(m), n)) ==> minterms.len()
            == pow2(n)) by {
            if forall|m: u32| (m as nat) < pow2(n) ==> eval_upto(x@, assignment_of(m), n) {
                assert forall|y: u32| y < pow2(n) implies minterms@.contains(y) by {
                    assert(eval_upto(x@, assignment_of(y), n));
                }
            }
        }
        assert((forall|m: u32| (m as nat) < pow2(n) ==> !eval_upto(x@, assignment_of(m), n)) ==> minterms.len()
            == 0) by {
            if minterms.len() > 0 {
                let y = minterms@[0];
                assert(minterms@.contains(y));
                assert(eval_upto(x@, assignment_of(y), n));
            }
        }
    }
    if minterms.len() == 0 {
        proof {
            assert forall|m: u32| (m as nat) < pow2(n) implies !eval_upto(x@, assignment_of(m), n) by {
                if eval_upto(x@, assignment_of(m), n) {
                    assert(minterms@.contains(m));
                }
            }
            assert(!eval_upto(x@, assignment_of(0), n));
        }
        return Expression::constant_false().with_table(table);
    }
    if minterms.len() == (1usize << num_vars) {
        proof {
            assert forall|m: u32| (m as nat) < pow2(n) implies eval_upto(x@, assignment_of(m), n) by {
                assert(minterms@.contains(m));
            }
            assert(eval_upto(x@, assignment_of(0), n));
        }
        let r = Expression::constant_true().with_table(table);
        proof {
            assert forall|m: u32| #[trigger] eval(r@, assignment_of(m)) by {
                assert(r@[0].holds(assignment_of(m)));
            }
            assert forall|c: Seq<Implicant>| #[trigger] prime_cover(c, on_set(x@, n), on_set(x@, n)) implies r@.len()
                <= c.len() by {
                lemma_cover_nonempty(c, x@, n);
            }
            lemma_true_literals();
        }
        return r;
    }
    proof {
        assert(!forall|m: u32| (m as nat) < pow2(n) ==> eval_upto(x@, assignment_of(m), n));
        assert(!forall|m: u32| (m as nat) < pow2(n) ==> !eval_upto(x@, assignment_of(m), n));
    }
    simplify_table(x, table, minterms, num_vars)
}

/// The product terms of the implicants that [`minimize`] returns for the non-constant truth table `minterms` of `x`
/// make an expression [`simplified`] from `x`.
proof fn lemma_main_simplified(
    x: Seq<Conjunction>,
    n: nat,
    minterms: Seq<Term>,
    imps: Seq<Implicant>,
    r: Seq<Conjunction>,
)
    requires
        0 < n < 32,
        (1u32 << (n as u32)) as nat == pow2(n),
        forall|m: Term| minterms.contains(m) <==> (m < (1u32 << (n as u32)) && eval_upto(x, assignment_of(m), n)),
        !forall|m: u32| (m as nat) < pow2(n) ==> eval_upto(x, assignment_of(m), n),
        !forall|m: u32| (m as nat) < pow2(n) ==> !eval_upto(x, assignment_of(m), n),
        forall|m: Term| minterms.contains(m) ==> covered_by(imps, m),
        forall|k: int, t: Term| 0 <= k < imps.len() && #[trigger] imps[k].covers_spec(t) ==> minterms.contains(t),
        forall|k: int| 0 <= k < imps.len() ==> (#[trigger] imps[k]).is_normalized(),
        forall|k: int| 0 <= k < imps.len() ==> is_prime(#[trigger] imps[k], minterms),
        forall|k: int| 0 <= k < imps.len() ==> forall|i: u32| n <= i < 32 ==> !bit((#[trigger] imps[k]).v, i),
        r.len() == imps.len(),
        forall|j: int| 0 <= j < r.len() ==> r[j] == implicant_conjunction(imps[j], n),
        forall|j: int| 0 <= j < r.len() ==> (#[trigger] r[j]).wf() && !r[j].is_false() && r[j].within(n),
        r.no_duplicates(),
        greedy_beyond_limit(imps, on_set(x, n), Seq::empty()),
    ensures
        simplified(r, x, n),
{
    assert(r =~= conjunctions_of(imps, n));
    assert(forall|m: u32| (m as nat) < pow2(n) ==> eval(r, assignment_of(m)) == eval_upto(x, assignment_of(m), n)) by {
        assert forall|m: Term| minterms.contains(m) <==> ((m as nat) < pow2(n) && eval_upto(x, assignment_of(m), n)) by {}
        lemma_main_table(x, n, minterms, imps, r);
    }
    assert(forall|k: int|
        #![trigger r[k]]
        0 <= k < r.len() ==> exists|imp: Implicant|
            is_prime(imp, on_set(x, n)) && r[k] == #[trigger] implicant_conjunction(imp, n)) by {
        assert forall|m: Term| minterms.contains(m) <==> ((m as nat) < pow2(n) && eval_upto(x, assignment_of(m), n)) by {}
        lemma_main_prime(x, n, minterms, imps);
        assert forall|j: int| #![trigger r[j]] 0 <= j < r.len() implies exists|imp: Implicant|
            is_prime(imp, on_set(x, n)) && r[j] == #[trigger] implicant_conjunction(imp, n) by {
            assert(is_prime(imps[j], on_set(x, n)));
        }
    }
}

/// Minimizes the truth table `minterms` of `x` over its `num_vars` variables, when it is neither empty nor full.
#[verifier::spinoff_prover]
fn simplify_table(x: &Expression, table: Rc<VariableTable>, minterms: Vec<Term>, num_vars: usize) -> (r: Expression)
    requires
        x.wf(),
        0 < num_vars < 32,
        num_vars == x.names().len(),
        table@ == x.table@,
        (1u32 << (num_vars as u32)) as nat == pow2(num_vars as nat),
        forall|i: int, j: int| 0 <= i < j < minterms.len() ==> minterms[i] < minterms[j],
        forall|m: Term|
            minterms@.contains(m) <==> (m < (1u32 << (num_vars as u32)) && eval_upto(
                x@,
                assignment_of(m),
                num_vars as nat,
            )),
        !forall|m: u32| (m as nat) < pow2(num_vars as nat) ==> eval_upto(x@, assignment_of(m), num_vars as nat),
        !forall|m: u32| (m as nat) < pow2(num_vars as nat) ==> !eval_upto(x@, assignment_of(m), num_vars as nat),
    ensures
        r.names() == x.names(),
        simplified(r@, x@, x.names().len()),
        petrick_fits(on_set(x@, x.names().len()), Seq::empty()) ==> forall|c: Seq<Implicant>|
            #[trigger] prime_cover(c, on_set(x@, x.names().len()), on_set(x@, x.names().len())) ==> r@.len() <= c.len(),
        petrick_fits(on_set(x@, x.names().len()), Seq::empty()) ==> forall|c: Seq<Implicant>|
            #[trigger] prime_cover(c, on_set(x@, x.names().len()), on_set(x@, x.names().len())) && c.len() <= r@.len()
                ==> literal_total(r@) <= total_literals(c, x.names().len()),
{
    let ghost n = num_vars as nat;
    let no_dont_cares: Vec<Term> = Vec::new();
    let implicants = minimize(minterms.as_slice(), no_dont_cares.as_slice(), num_vars);
    let mut product_terms: Vec<ProductTerm> = Vec::new();
    let mut k: usize = 0;
    while k < implicants.len()
        invariant
            0 < num_vars < 32,
            n == num_vars,
            k <= implicants.len(),
            product_terms.len() == k,
            forall|j: int| 0 <= j < k ==> (#[trigger] product_terms@[j])@ == implicant_conjunction(implicants@[j], n),
        decreases implicants.len() - k,
    {
        product_terms.push(implicant_to_product_term(&implicants[k], num_vars));
        k += 1;
    }
    let r = Expression { product_terms, table };
    proof {
        assert forall|j: int| 0 <= j < r@.len() implies r@[j] == implicant_conjunction(implicants@[j], n) by {
            assert(r@[j] == product_terms@[j]@);
        }
        assert forall|m: Term| minterms@.contains(m) <==> ((m as nat) < pow2(n) && eval_upto(x@, assignment_of(m), n)) by {
        }
        assert(minterms@ + no_dont_cares@ =~= minterms@);
        assert forall|k: int| 0 <= k < implicants@.len() implies covers_some(#[trigger] implicants@[k], minterms@) by {
            assert(implicants[k] == implicants@[k]);
            let m = choose|m: Term| minterms@.contains(m) && implicants@[k].covers_spec(m);
            assert(minterms@.contains(m) && implicants@[k].covers_spec(m));
        }
        assert forall|k: int, t: Term| 0 <= k < implicants@.len() && #[trigger] implicants@[k].covers_spec(t) implies minterms@.contains(t) by {
            assert(implicants[k] == implicants@[k]);
            assert(!no_dont_cares@.contains(t));
        }
        assert forall|k: int| 0 <= k < implicants@.len() implies is_prime(#[trigger] implicants@[k], minterms@) by {
            assert(implicants[k] == implicants@[k]);
        }
        lemma_main_wf(n, minterms@, implicants@, r@);
        lemma_main_distinct(n, minterms@, implicants@, r@);
        assert forall|t: Term| minterms@.contains(t) <==> on_set(x@, n).contains(t) by {
            lemma_on_set(x@, n, t);
        }
        lemma_on_set_increasing(x@, n);
        lemma_increasing_equal(minterms@, on_set(x@, n));
        assert(no_dont_cares@ == Seq::<Term>::empty());
        lemma_main_simplified(x@, n, minterms@, implicants@, r@);
        assert forall|t: Term| minterms@.contains(t) <==> on_set(x@, n).contains(t) by {
            lemma_on_set(x@, n, t);
        }
        lemma_conjunction_literals(r@, implicants@, n);
        lemma_simplify_minimal(x@, n, minterms@, no_dont_cares@, implicants@.len() as nat, literal_total(r@));
    }
    r
}

} // verus!
