//! Quine-McCluskey simplifier.
//!
//! [`minimize`] takes a boolean function's on-set (`min_terms`) and don't-care set and returns a set of prime
//! [`Implicant`]s covering the on-set. The algorithm has two stages:
//!
//! 1. **Prime-implicant generation** — repeatedly combine implicants that differ in a single bit until none can be
//!    combined; the uncombined ones are prime.
//! 2. **Selection** — pick all essential prime implicants, then cover any remaining minterms with Petrick's method
//!    (exact: no cover by prime implicants is smaller, and none as small has fewer literals) or a greedy fallback for
//!    large charts.
//!
//! `Term` is a `u32`, which caps the design at `MAX_VARIABLES = 32` distinct variables.

use vstd::prelude::*;

use crate::bits::{
    bit, lemma_bit_shl, lemma_bit_zero, lemma_bits_ext, lemma_combine_words, lemma_extra_bit, lemma_neighbor,
    lemma_ones_set, lemma_ones_zero, lemma_single_bit, lemma_split_bit, lemma_split_covers, lemma_subsumes, ones,
    single_bit,
};

verus! {

/// Maximum number of distinct variables (bounded by the width of `Term`).
pub const MAX_VARIABLES: usize = 32;

/// Above this many product terms during Petrick's method, fall back to a greedy cover.
pub const PETRICK_PRODUCT_LIMIT: usize = 65_536;

/// A bit-packed term: bit `i` corresponds to variable `i`.
pub type Term = u32;

/// A product term in the simplification: `v` holds the fixed bit values and `d` is the don't-care mask (a set bit means
/// "this variable is eliminated").
#[derive(Clone, Copy, Debug, PartialEq, Eq, Structural)]
pub struct Implicant {
    pub v: Term,
    pub d: Term,
}

impl Implicant {
    /// The implicant covers the term `t`: `t` agrees with `v` on every bit outside the don't-care mask.
    pub open spec fn covers_spec(self, t: Term) -> bool {
        self.v == (t & !self.d)
    }

    /// No fixed value is recorded under a don't-care bit.
    pub open spec fn is_normalized(self) -> bool {
        self.v & self.d == 0
    }

    /// Every term that `self` covers is covered by `other`.
    pub open spec fn within(self, other: Implicant) -> bool {
        forall|t: Term| #[trigger] self.covers_spec(t) ==> other.covers_spec(t)
    }
}

/// Some implicant of `s` covers `t`.
pub open spec fn covered_by(s: Seq<Implicant>, t: Term) -> bool {
    exists|k: int| 0 <= k < s.len() && #[trigger] s[k].covers_spec(t)
}

/// Every term covered by an implicant of `s` lies in `terms`.
pub open spec fn covers_only(s: Seq<Implicant>, terms: Seq<Term>) -> bool {
    forall|k: int, t: Term| 0 <= k < s.len() && #[trigger] s[k].covers_spec(t) ==> terms.contains(t)
}

/// Every implicant of `s` is normalized.
pub open spec fn all_normalized(s: Seq<Implicant>) -> bool {
    forall|k: int| 0 <= k < s.len() ==> (#[trigger] s[k]).is_normalized()
}

/// The first occurrence of each element of `s`, in order.
pub open spec fn dedup(s: Seq<Term>) -> Seq<Term>
    decreases s.len(),
{
    if s.len() == 0 {
        Seq::empty()
    } else {
        let r = dedup(s.drop_last());
        if r.contains(s.last()) {
            r
        } else {
            r.push(s.last())
        }
    }
}

/// The number of literals an implicant with don't-care mask `d` has over `n` variables: the variables below `n` that are
/// not eliminated (a variable at position 32 or above has no don't-care bit and is always a literal).
pub open spec fn literal_count_spec(d: Term, n: nat) -> nat
    decreases n,
{
    if n == 0 {
        0
    } else {
        let i = (n - 1) as nat;
        literal_count_spec(d, i) + (if i < 32 && bit(d, i as u32) {
            0nat
        } else {
            1nat
        })
    }
}

proof fn lemma_and_all_ones(t: Term)
    ensures
        (t & !0u32) == t,
        (0u32 | t) == t,
        (t | 0u32) == t,
        (t & 0u32) == 0,
{
    assert((t & 0u32) == 0) by (bit_vector);
    assert((t & !0u32) == t) by (bit_vector);
    assert((0u32 | t) == t) by (bit_vector);
    assert((t | 0u32) == t) by (bit_vector);
}

proof fn lemma_dedup(s: Seq<Term>)
    ensures
        dedup(s).no_duplicates(),
        forall|t: Term| dedup(s).contains(t) <==> s.contains(t),
    decreases s.len(),
{
    if s.len() > 0 {
        lemma_dedup(s.drop_last());
        let r = dedup(s.drop_last());
        assert forall|t: Term| s.contains(t) <==> (s.drop_last().contains(t) || t == s.last()) by {
            if s.contains(t) {
                let k = choose|k: int| 0 <= k < s.len() && s[k] == t;
                if k < s.len() - 1 {
                    assert(s.drop_last()[k] == t);
                }
            }
            if s.drop_last().contains(t) {
                let k = choose|k: int| 0 <= k < s.drop_last().len() && s.drop_last()[k] == t;
                assert(s[k] == t);
            }
            if t == s.last() {
                assert(s[s.len() - 1] == t);
            }
        }
        if !r.contains(s.last()) {
            assert forall|t: Term| r.push(s.last()).contains(t) <==> (r.contains(t) || t == s.last())
                by {
                if r.push(s.last()).contains(t) {
                    let k = choose|k: int| 0 <= k < r.push(s.last()).len() && r.push(s.last())[k] == t;
                    if k < r.len() {
                        assert(r[k] == t);
                    }
                }
                if r.contains(t) {
                    let k = choose|k: int| 0 <= k < r.len() && r[k] == t;
                    assert(r.push(s.last())[k] == t);
                }
                if t == s.last() {
                    assert(r.push(s.last())[r.len() as int] == t);
                }
            }
        }
    }
}

proof fn lemma_literal_count_tail(d: Term, n: nat)
    requires
        n >= 32,
    ensures
        literal_count_spec(d, n) == literal_count_spec(d, 32) + (n - 32),
    decreases n,
{
    if n > 32 {
        lemma_literal_count_tail(d, (n - 1) as nat);
    }
}

proof fn lemma_literal_count_bound(d: Term, n: nat)
    ensures
        literal_count_spec(d, n) <= n,
    decreases n,
{
    if n > 0 {
        lemma_literal_count_bound(d, (n - 1) as nat);
    }
}

/// `x` is an implicant of the terms of `s`: normalized, and every term it covers is in `s`.
pub open spec fn implicant_of(x: Implicant, s: Seq<Term>) -> bool {
    &&& x.is_normalized()
    &&& forall|t: Term| #[trigger] x.covers_spec(t) ==> s.contains(t)
}

/// `x` is a prime implicant of `s`: an implicant of `s` that no other implicant of `s` contains.
pub open spec fn is_prime(x: Implicant, s: Seq<Term>) -> bool {
    &&& implicant_of(x, s)
    &&& forall|y: Implicant| implicant_of(y, s) && x.within(y) ==> y == x
}

/// The two implicants can be combined: the same don't-care mask, fixed values one bit apart.
pub open spec fn differs(x: Implicant, y: Implicant) -> bool {
    x.d == y.d && single_bit(x.v ^ y.v)
}

/// What [`combine`] returns for `x` and `y`.
pub open spec fn combine_spec(x: Implicant, y: Implicant) -> Implicant {
    Implicant { v: x.v & !(x.d | (x.v ^ y.v)), d: x.d | (x.v ^ y.v) }
}

/// Every implicant of `s` with `level` don't-care bits is in `cur`.
pub open spec fn complete(cur: Seq<Implicant>, s: Seq<Term>, level: nat) -> bool {
    forall|x: Implicant| implicant_of(x, s) && ones(x.d, 32) == level ==> cur.contains(x)
}

/// Two implicants from `cur` at positions `a < b` that can be combined were both marked `used`, and their combination
/// is in `next`.
pub open spec fn pairs_done(cur: Seq<Implicant>, used: Seq<bool>, next: Seq<Implicant>, a: int, b: int) -> bool {
    differs(cur[a], cur[b]) ==> used[a] && used[b] && next.contains(combine_spec(cur[a], cur[b]))
}

proof fn lemma_ones_of_zero(n: nat)
    requires
        n <= 32,
    ensures
        ones(0, n) == 0,
    decreases n,
{
    if n > 0 {
        lemma_ones_of_zero((n - 1) as nat);
        lemma_bit_zero((n - 1) as u32);
    }
}

proof fn lemma_differs_sym(x: Implicant, y: Implicant)
    ensures
        differs(x, y) == differs(y, x),
        !differs(x, x),
{
    let a = x.v;
    let b = y.v;
    assert((a ^ b) == (b ^ a) && (a ^ a) == 0) by (bit_vector);
    if single_bit(0u32) {
        let j = choose|j: u32| j < 32 && 0u32 == (1u32 << j);
        lemma_bit_shl(0, j, j);
        lemma_bit_zero(j);
    }
}

/// Combining two implicants one bit apart adds exactly one don't-care bit.
proof fn lemma_combine_level(x: Implicant, y: Implicant)
    requires
        x.is_normalized(),
        y.is_normalized(),
        differs(x, y),
    ensures
        ones(combine_spec(x, y).d, 32) == ones(x.d, 32) + 1,
{
    let b = choose|j: u32| j < 32 && (x.v ^ y.v) == (1u32 << j);
    let xv = x.v;
    let yv = y.v;
    let d = x.d;
    assert(!(((d >> b) & 1u32) == 1u32)) by (bit_vector)
        requires
            b < 32,
            xv & d == 0,
            yv & d == 0,
            (xv ^ yv) == (1u32 << b),
    ;
    lemma_ones_set(d, b, 32);
}

/// An implicant of `s` with at least one don't-care bit is the combination of two implicants of `s` one level lower.
proof fn lemma_halves(x: Implicant, s: Seq<Term>, level: nat) -> (h: (Implicant, Implicant))
    requires
        implicant_of(x, s),
        ones(x.d, 32) == level + 1,
    ensures
        implicant_of(h.0, s),
        implicant_of(h.1, s),
        ones(h.0.d, 32) == level,
        ones(h.1.d, 32) == level,
        differs(h.0, h.1),
        combine_spec(h.0, h.1) == x,
        combine_spec(h.1, h.0) == x,
{
    if !(exists|b: u32| b < 32 && bit(x.d, b)) {
        assert forall|i: u32| i < 32 implies bit(x.d, i) == bit(0, i) by {
            lemma_bit_zero(i);
        }
        lemma_bits_ext(x.d, 0);
        lemma_ones_of_zero(32);
    }
    let b = choose|b: u32| b < 32 && bit(x.d, b);
    lemma_split_bit(x.v, x.d, b);
    let dp = x.d & !(1u32 << b);
    let x0 = Implicant { v: x.v, d: dp };
    let x1 = Implicant { v: x.v | (1u32 << b), d: dp };
    lemma_ones_set(dp, b, 32);
    assert forall|t: Term| #[trigger] x0.covers_spec(t) implies s.contains(t) by {
        lemma_split_covers(x.v, x.d, b, t);
        assert(x.covers_spec(t));
    }
    assert forall|t: Term| #[trigger] x1.covers_spec(t) implies s.contains(t) by {
        lemma_split_covers(x.v, x.d, b, t);
        assert(x.covers_spec(t));
    }
    assert(single_bit(x0.v ^ x1.v));
    (x0, x1)
}

/// An implicant of `s` with at least `level` don't-care bits implies one with exactly `level`.
proof fn lemma_descend(x: Implicant, s: Seq<Term>, level: nat)
    requires
        implicant_of(x, s),
        ones(x.d, 32) >= level,
    ensures
        exists|y: Implicant| implicant_of(y, s) && ones(y.d, 32) == level,
    decreases ones(x.d, 32) - level,
{
    if ones(x.d, 32) > level {
        let h = lemma_halves(x, s, (ones(x.d, 32) - 1) as nat);
        lemma_descend(h.0, s, level);
    }
}

/// An implicant of `s` at a complete level that can be combined with nothing of that level is prime.
proof fn lemma_unused_prime(cur: Seq<Implicant>, s: Seq<Term>, level: nat, x: Implicant)
    requires
        implicant_of(x, s),
        ones(x.d, 32) == level,
        complete(cur, s, level),
        forall|y: Implicant| cur.contains(y) ==> !differs(x, y),
    ensures
        is_prime(x, s),
{
    assert forall|y: Implicant| implicant_of(y, s) && x.within(y) implies y == x by {
        lemma_subsumes(y.v, y.d, x.v, x.d, 0);
        assert(x.covers_spec(x.v | x.d));
        assert(x.covers_spec(x.v));
        assert(y.covers_spec(x.v | x.d));
        assert(y.covers_spec(x.v));
        if y != x {
            if y.d == x.d {
                assert(y.v == x.v);
            }
            lemma_extra_bit(x.d, y.d);
            let b = choose|b: u32| b < 32 && bit(y.d, b) && !bit(x.d, b);
            lemma_neighbor(x.v, x.d, y.v, y.d, b, 0);
            let n = Implicant { v: x.v ^ (1u32 << b), d: x.d };
            assert forall|t: Term| #[trigger] n.covers_spec(t) implies s.contains(t) by {
                lemma_neighbor(x.v, x.d, y.v, y.d, b, t);
                assert(y.covers_spec(t));
            }
            assert(implicant_of(n, s));
            assert(cur.contains(n));
            assert(single_bit(x.v ^ n.v));
            assert(differs(x, n));
        }
    }
}

/// The implicants of the terms themselves (no don't-care bit) are all there at level zero.
proof fn lemma_base_complete(all: Seq<Term>, cur: Seq<Implicant>)
    requires
        cur.len() == all.len(),
        forall|k: int| 0 <= k < cur.len() ==> cur[k] == (Implicant { v: all[k], d: 0 }),
    ensures
        complete(cur, all, 0),
{
    assert forall|x: Implicant| implicant_of(x, all) && ones(x.d, 32) == 0 implies cur.contains(x) by {
        lemma_ones_zero(x.d, 32);
        assert forall|i: u32| i < 32 implies bit(x.d, i) == bit(0, i) by {
            lemma_bit_zero(i);
        }
        lemma_bits_ext(x.d, 0);
        lemma_and_all_ones(x.v);
        assert(x.covers_spec(x.v));
        let k = choose|k: int| 0 <= k < all.len() && all[k] == x.v;
        assert(cur[k] == x);
    }
}

/// Primality depends only on which terms `s` holds.
pub proof fn lemma_prime_transfer(x: Implicant, s1: Seq<Term>, s2: Seq<Term>)
    requires
        forall|t: Term| s1.contains(t) <==> s2.contains(t),
        is_prime(x, s1),
    ensures
        is_prime(x, s2),
{
    assert forall|y: Implicant| implicant_of(y, s2) implies implicant_of(y, s1) by {
        assert forall|t: Term| #[trigger] y.covers_spec(t) implies s1.contains(t) by {
            assert(s2.contains(t));
        }
    }
    assert forall|t: Term| #[trigger] x.covers_spec(t) implies s2.contains(t) by {
        assert(s1.contains(t));
    }
}

/// Merging two implicants that differ in one fixed bit (and share the don't-care mask) covers exactly what the two
/// cover, stays normalized and has a strictly larger don't-care mask.
proof fn lemma_combine(i0: Implicant, i1: Implicant, c: Implicant)
    requires
        i0.is_normalized(),
        i1.is_normalized(),
        i0.d == i1.d,
        single_bit(i0.v ^ i1.v),
        c.d == i0.d | (i0.v ^ i1.v),
        c.v == i0.v & !c.d,
    ensures
        c.is_normalized(),
        c.d > i0.d,
        forall|t: Term| c.covers_spec(t) == (i0.covers_spec(t) || i1.covers_spec(t)),
        i0.within(c),
        i1.within(c),
{
    lemma_single_bit(i0.v ^ i1.v);
    lemma_combine_words(i0.v, i1.v, i0.d, 0);
    assert forall|t: Term| c.covers_spec(t) == (i0.covers_spec(t) || i1.covers_spec(t)) by {
        lemma_combine_words(i0.v, i1.v, i0.d, t);
    }
}

/// Returns true if `x` has exactly one bit set.
pub fn is_power_of_2(x: Term) -> (r: bool)
    ensures
        r == single_bit(x),
{
    proof {
        lemma_single_bit(x);
    }
    x != 0 && ((x - 1) & x) == 0
}

/// Returns true if two implicants have the same don't-care mask and their fixed values differ in exactly one bit (so
/// they can be combined).
fn differ_by_one_bit(i0: &Implicant, i1: &Implicant) -> (r: bool)
    ensures
        r == (i0.d == i1.d && single_bit(i0.v ^ i1.v)),
{
    i0.d == i1.d && is_power_of_2(i0.v ^ i1.v)
}

/// Combines two one-bit-apart implicants into one with the differing bit turned into a don't-care.
pub fn combine(i0: &Implicant, i1: &Implicant) -> (r: Implicant)
    requires
        i0.d == i1.d,
        single_bit(i0.v ^ i1.v),
    ensures
        r.d == i0.d | (i0.v ^ i1.v),
        r.v == i0.v & !r.d,
{
    let d = i0.d | (i0.v ^ i1.v);
    let v = i0.v & !d;
    Implicant { v, d }
}

/// Returns true if `i0` covers `i1`: every term the normalized implicant `i1` covers is covered by `i0`.
fn covers(i0: &Implicant, i1: &Implicant) -> (r: bool)
    requires
        i1.is_normalized(),
    ensures
        r == i1.within(*i0),
{
    let r = (i0.d | i1.d) == i0.d && i0.v == (i1.v & !i0.d);
    proof {
        if r {
            assert forall|t: Term| #[trigger] i1.covers_spec(t) implies i0.covers_spec(t) by {
                lemma_subsumes(i0.v, i0.d, i1.v, i1.d, t);
            }
        } else {
            lemma_subsumes(i0.v, i0.d, i1.v, i1.d, 0);
            if i1.within(*i0) {
                assert(i1.covers_spec(i1.v | i1.d));
                assert(i1.covers_spec(i1.v));
            }
        }
    }
    r
}

/// Returns true if implicant `i` covers minterm `t`.
pub fn covers_term(i: &Implicant, t: Term) -> (r: bool)
    ensures
        r == i.covers_spec(t),
{
    let m = Implicant { v: t, d: 0 };
    proof {
        lemma_and_all_ones(t);
        assert(m.is_normalized());
        assert(m.covers_spec(t));
        assert forall|u: Term| m.covers_spec(u) implies u == t by {
            lemma_and_all_ones(u);
        }
    }
    covers(i, &m)
}

/// The position of `x` in `v`, if any.
fn position_of(v: &Vec<Implicant>, x: Implicant) -> (r: Option<usize>)
    ensures
        r matches Some(k) ==> k < v.len() && v[k as int] == x,
        r is None ==> !v@.contains(x),
{
    let mut k: usize = 0;
    while k < v.len()
        invariant
            k <= v.len(),
            forall|j: int| 0 <= j < k ==> v[j] != x,
        decreases v.len() - k,
    {
        if v[k] == x {
            return Some(k);
        }
        k += 1;
    }
    None
}

/// Generates the prime implicants of the function whose terms (on-set plus don't-cares) are `all`.
fn prime_implicants(all: &[Term]) -> (primes: Vec<Implicant>)
    ensures
        all_normalized(primes@),
        covers_only(primes@, all@),
        forall|t: Term| all@.contains(t) ==> covered_by(primes@, t),
        primes@.no_duplicates(),
        forall|k: int| 0 <= k < primes.len() ==> is_prime(#[trigger] primes[k], all@),
        forall|x: Implicant| is_prime(x, all@) ==> primes@.contains(x),
{
    let mut current: Vec<Implicant> = Vec::new();
    let mut idx: usize = 0;
    while idx < all.len()
        invariant
            idx <= all.len(),
            current.len() == idx,
            forall|k: int| 0 <= k < idx ==> current[k] == (Implicant { v: all@[k], d: 0 }),
        decreases all.len() - idx,
    {
        current.push(Implicant { v: all[idx], d: 0 });
        idx += 1;
    }
    let ghost mut level: nat = 0;
    proof {
        assert forall|k: int| 0 <= k < current.len() implies (#[trigger] current[k]).is_normalized() by {
            lemma_and_all_ones(current[k].v);
        }
        assert forall|k: int, t: Term| 0 <= k < current.len() && #[trigger] current[k].covers_spec(t)
            implies all@.contains(t) by {
            lemma_and_all_ones(t);
            assert(all@[k] == t);
        }
        assert forall|t: Term| all@.contains(t) implies covered_by(current@, t) by {
            let k = choose|k: int| 0 <= k < all@.len() && all@[k] == t;
            lemma_and_all_ones(t);
            assert(current[k].covers_spec(t));
        }
        lemma_ones_of_zero(32);
        lemma_base_complete(all@, current@);
    }

    let mut primes: Vec<Implicant> = Vec::new();
    let ghost mut lb: int = 0;
    while !current.is_empty()
        invariant
            all_normalized(current@),
            all_normalized(primes@),
            forall|k: int| 0 <= k < current.len() ==> (#[trigger] current[k]).d >= lb,
            covers_only(current@, all@),
            covers_only(primes@, all@),
            forall|t: Term| all@.contains(t) ==> covered_by(current@, t) || covered_by(primes@, t),
            primes@.no_duplicates(),
            0 <= lb,
            current.len() > 0 ==> lb <= u32::MAX,
            forall|k: int| 0 <= k < current.len() ==> ones((#[trigger] current[k]).d, 32) == level,
            complete(current@, all@, level),
            forall|k: int| 0 <= k < primes.len() ==> is_prime(#[trigger] primes[k], all@),
            forall|x: Implicant| is_prime(x, all@) && ones(x.d, 32) < level ==> primes@.contains(x),
        decreases u32::MAX + 1 - lb,
    {
        let n = current.len();
        let mut used: Vec<bool> = vec![false; n];
        let mut next: Vec<Implicant> = Vec::new();
        let ghost mut w: Seq<int> = Seq::new(n as nat, |k: int| 0int);
        let mut i: usize = 0;
        while i < n
            invariant
                n == current.len(),
                used.len() == n,
                w.len() == n,
                i <= n,
                all_normalized(current@),
                covers_only(current@, all@),
                all_normalized(next@),
                covers_only(next@, all@),
                forall|k: int| 0 <= k < current.len() ==> (#[trigger] current[k]).d >= lb,
                forall|k: int| 0 <= k < next.len() ==> (#[trigger] next[k]).d >= lb + 1,
                forall|k: int|
                    0 <= k < n && #[trigger] used[k] ==> 0 <= w[k] < next.len() && current[k].within(
                        next[w[k]],
                    ),
                forall|k: int| 0 <= k < current.len() ==> ones((#[trigger] current[k]).d, 32) == level,
                forall|k: int| 0 <= k < next.len() ==> ones((#[trigger] next[k]).d, 32) == level + 1,
                forall|a: int, b: int|
                    0 <= a < i && a < b < n ==> #[trigger] pairs_done(current@, used@, next@, a, b),
            decreases n - i,
        {
            let mut j: usize = i + 1;
            while j < n
                invariant
                    n == current.len(),
                    used.len() == n,
                    w.len() == n,
                    i < n,
                    i + 1 <= j <= n,
                    all_normalized(current@),
                    covers_only(current@, all@),
                    all_normalized(next@),
                    covers_only(next@, all@),
                    forall|k: int| 0 <= k < current.len() ==> (#[trigger] current[k]).d >= lb,
                    forall|k: int| 0 <= k < next.len() ==> (#[trigger] next[k]).d >= lb + 1,
                    forall|k: int|
                        0 <= k < n && #[trigger] used[k] ==> 0 <= w[k] < next.len()
                            && current[k].within(next[w[k]]),
                    forall|k: int| 0 <= k < current.len() ==> ones((#[trigger] current[k]).d, 32) == level,
                    forall|k: int| 0 <= k < next.len() ==> ones((#[trigger] next[k]).d, 32) == level + 1,
                    forall|a: int, b: int|
                        0 <= a < n && a < b < n && (a < i || (a == i && b < j)) ==> #[trigger] pairs_done(
                            current@,
                            used@,
                            next@,
                            a,
                            b,
                        ),
                decreases n - j,
            {
                if differ_by_one_bit(&current[i], &current[j]) {
                    let c = combine(&current[i], &current[j]);
                    proof {
                        lemma_combine(current[i as int], current[j as int], c);
                        lemma_combine_level(current[i as int], current[j as int]);
                        assert(c == combine_spec(current[i as int], current[j as int]));
                        assert(c.d >= lb + 1);
                        assert forall|t: Term| #[trigger] c.covers_spec(t) implies all@.contains(t) by {
                            if current[i as int].covers_spec(t) {
                            } else {
                                assert(current[j as int].covers_spec(t));
                            }
                        }
                    }
                    let ghost used_before = used@;
                    used[i] = true;
                    used[j] = true;
                    let ghost next_before = next@;
                    let pos = match position_of(&next, c) {
                        Some(k) => k,
                        None => {
                            next.push(c);
                            next.len() - 1
                        },
                    };
                    proof {
                        w = w.update(i as int, pos as int).update(j as int, pos as int);
                        assert forall|k: int, t: Term|
                            0 <= k < next.len() && #[trigger] next[k].covers_spec(t) implies all@.contains(
                            t,
                        ) by {
                            if k == next.len() - 1 && next[k] == c {
                            } else {
                                assert(next_before.len() == next.len() || k < next.len() - 1);
                                assert(next[k] == next_before[k]);
                            }
                        }
                        assert forall|k: int| 0 <= k < next.len() implies ones((#[trigger] next[k]).d, 32)
                            == level + 1 by {
                            if k < next_before.len() {
                                assert(next[k] == next_before[k]);
                            }
                        }
                        assert forall|z: Implicant| next_before.contains(z) implies next@.contains(z) by {
                            let k = choose|k: int| 0 <= k < next_before.len() && next_before[k] == z;
                            assert(next@[k] == z);
                        }
                        assert(next@[pos as int] == c);
                        assert forall|a: int, b: int|
                            0 <= a < n && a < b < n && (a < i || (a == i && b < j + 1)) implies #[trigger] pairs_done(
                            current@,
                            used@,
                            next@,
                            a,
                            b,
                        ) by {
                            if a == i && b == j {
                            } else {
                                assert(pairs_done(current@, used_before, next_before, a, b));
                                if differs(current@[a], current@[b]) {
                                    assert(next_before.contains(combine_spec(current@[a], current@[b])));
                                }
                            }
                        }
                    }
                } else {
                    proof {
                        assert forall|a: int, b: int|
                            0 <= a < n && a < b < n && (a < i || (a == i && b < j + 1)) implies #[trigger] pairs_done(
                            current@,
                            used@,
                            next@,
                            a,
                            b,
                        ) by {
                            if a == i && b == j {
                                assert(!differs(current@[a], current@[b]));
                            }
                        }
                    }
                }
                j += 1;
            }
            i += 1;
        }

        proof {
            assert forall|x: Implicant| implicant_of(x, all@) && ones(x.d, 32) == level + 1 implies next@.contains(x) by {
                let h = lemma_halves(x, all@, level);
                assert(current@.contains(h.0));
                assert(current@.contains(h.1));
                let p0 = choose|p: int| 0 <= p < current@.len() && current@[p] == h.0;
                let p1 = choose|p: int| 0 <= p < current@.len() && current@[p] == h.1;
                lemma_differs_sym(h.0, h.1);
                if p0 < p1 {
                    assert(pairs_done(current@, used@, next@, p0, p1));
                } else {
                    assert(p0 != p1);
                    assert(pairs_done(current@, used@, next@, p1, p0));
                }
            }
        }

        proof {
            assert forall|k: int| 0 <= k < n && #[trigger] used@[k] implies !is_prime(current@[k], all@) by {
                let y = next@[w[k]];
                assert(implicant_of(y, all@)) by {
                    assert forall|t: Term| #[trigger] y.covers_spec(t) implies all@.contains(t) by {
                        assert(next[w[k]].covers_spec(t));
                    }
                }
                assert(ones(y.d, 32) == level + 1);
            }
        }
        let ghost old_primes = primes@;
        let mut i: usize = 0;
        while i < n
            invariant
                n == current.len(),
                used.len() == n,
                forall|k: int| 0 <= k < n && #[trigger] used@[k] ==> !is_prime(current@[k], all@),
                i <= n,
                all_normalized(current@),
                covers_only(current@, all@),
                all_normalized(primes@),
                covers_only(primes@, all@),
                primes@.no_duplicates(),
                old_primes.len() <= primes.len(),
                forall|k: int| 0 <= k < old_primes.len() ==> primes[k] == old_primes[k],
                forall|k: int| 0 <= k < i && !used[k] ==> primes@.contains(#[trigger] current[k]),
                forall|k: int| 0 <= k < current.len() ==> ones((#[trigger] current[k]).d, 32) == level,
                complete(current@, all@, level),
                forall|a: int, b: int| 0 <= a < n && a < b < n ==> #[trigger] pairs_done(current@, used@, next@, a, b),
                forall|k: int| 0 <= k < primes.len() ==> is_prime(#[trigger] primes[k], all@),
            decreases n - i,
        {
            let imp = current[i];
            let ghost primes_before = primes@;
            if !used[i] {
                proof {
                    assert forall|y: Implicant| current@.contains(y) implies !differs(imp, y) by {
                        let q = choose|q: int| 0 <= q < current@.len() && current@[q] == y;
                        lemma_differs_sym(imp, y);
                        if i < q {
                            assert(pairs_done(current@, used@, next@, i as int, q));
                        } else if q < i {
                            assert(pairs_done(current@, used@, next@, q, i as int));
                        }
                    }
                    assert(implicant_of(imp, all@)) by {
                        assert forall|t: Term| #[trigger] imp.covers_spec(t) implies all@.contains(t) by {
                            assert(current[i as int].covers_spec(t));
                        }
                    }
                    lemma_unused_prime(current@, all@, level, imp);
                }
                match position_of(&primes, imp) {
                    None => {
                        primes.push(imp);
                        proof {
                            assert(primes[primes.len() - 1] == imp);
                        }
                    },
                    Some(p) => {
                        proof {
                            assert(primes@[p as int] == imp);
                        }
                    },
                }
            }
            proof {
                assert forall|k: int| 0 <= k < i + 1 && !used[k] implies primes@.contains(#[trigger] current[k]) by {
                    if k < i {
                        let p = choose|p: int| 0 <= p < primes_before.len() && primes_before[p] == current[k];
                        assert(primes@[p] == current[k]);
                    }
                }
                assert forall|k: int| 0 <= k < primes.len() implies is_prime(#[trigger] primes[k], all@) by {
                    if k < primes_before.len() {
                        assert(primes[k] == primes_before[k]);
                    }
                }
            }
            i += 1;
        }
        proof {
            assert forall|x: Implicant| is_prime(x, all@) && ones(x.d, 32) < level + 1 implies primes@.contains(x) by {
                if ones(x.d, 32) < level {
                    let k = choose|k: int| 0 <= k < old_primes.len() && old_primes[k] == x;
                    assert(primes@[k] == x);
                } else {
                    assert(current@.contains(x));
                    let k = choose|k: int| 0 <= k < current.len() && current@[k] == x;
                    assert(!used@[k]);
                }
            }
            assert forall|t: Term| all@.contains(t) implies covered_by(next@, t) || covered_by(
                primes@,
                t,
            ) by {
                if covered_by(old_primes, t) {
                    let k = choose|k: int| 0 <= k < old_primes.len() && old_primes[k].covers_spec(t);
                    assert(primes[k].covers_spec(t));
                } else {
                    let k = choose|k: int| 0 <= k < current.len() && current[k].covers_spec(t);
                    if used[k] {
                        assert(next[w[k]].covers_spec(t));
                    } else {
                        let p = choose|p: int| 0 <= p < primes.len() && primes[p] == current[k];
                        assert(primes[p].covers_spec(t));
                    }
                }
            }
            lb = lb + 1;
            if next.len() > 0 {
                assert(next[0].d >= lb);
            }
            level = level + 1;
        }
        current = next;
    }
    proof {
        assert forall|x: Implicant| is_prime(x, all@) implies primes@.contains(x) by {
            if ones(x.d, 32) >= level {
                lemma_descend(x, all@, level);
                let y = choose|y: Implicant| implicant_of(y, all@) && ones(y.d, 32) == level;
                assert(current@.contains(y));
            }
        }
    }
    primes
}

/// Deduplicates `terms` preserving order.
fn unique(terms: &[Term]) -> (out: Vec<Term>)
    ensures
        out@ == dedup(terms@),
{
    let mut out: Vec<Term> = Vec::new();
    let mut i: usize = 0;
    while i < terms.len()
        invariant
            i <= terms.len(),
            out@ == dedup(terms@.subrange(0, i as int)),
        decreases terms.len() - i,
    {
        let t = terms[i];
        let ghost prefix = terms@.subrange(0, i as int);
        let ghost next_prefix = terms@.subrange(0, i + 1);
        assert(next_prefix.drop_last() == prefix);
        let mut k: usize = 0;
        let mut found = false;
        while k < out.len()
            invariant
                k <= out.len(),
                found == exists|j: int| 0 <= j < k && out[j] == t,
            decreases out.len() - k,
        {
            if out[k] == t {
                found = true;
            }
            k += 1;
        }
        if !found {
            out.push(t);
        }
        i += 1;
    }
    assert(terms@.subrange(0, terms.len() as int) == terms@);
    out
}

/// Counts the literals (fixed bits) in an implicant over `num_variables`.
fn literal_count(imp: &Implicant, num_variables: usize) -> (r: u32)
    requires
        num_variables <= u32::MAX,
    ensures
        r == literal_count_spec(imp.d, num_variables as nat),
{
    let limit: usize = if num_variables < 32 {
        num_variables
    } else {
        32
    };
    let mut count: u32 = 0;
    let mut i: usize = 0;
    while i < limit
        invariant
            limit <= 32,
            limit <= num_variables,
            i <= limit,
            count == literal_count_spec(imp.d, i as nat),
        decreases limit - i,
    {
        proof {
            lemma_literal_count_bound(imp.d, i as nat);
            lemma_bit_shl(imp.d, i as u32, i as u32);
        }
        if imp.d & (1u32 << (i as u32)) == 0 {
            count += 1;
        }
        i += 1;
    }
    if num_variables > 32 {
        proof {
            lemma_literal_count_tail(imp.d, num_variables as nat);
            lemma_literal_count_bound(imp.d, 32);
        }
        count + ((num_variables - 32) as u32)
    } else {
        count
    }
}

/// `v` contains `x`.
fn contains_index(v: &Vec<usize>, x: usize) -> (r: bool)
    ensures
        r == v@.contains(x),
{
    let mut k: usize = 0;
    while k < v.len()
        invariant
            k <= v.len(),
            forall|j: int| 0 <= j < k ==> v[j] != x,
        decreases v.len() - k,
    {
        if v[k] == x {
            return true;
        }
        k += 1;
    }
    false
}

/// The implicant covers at least one of `terms`.
pub open spec fn covers_some(p: Implicant, terms: Seq<Term>) -> bool {
    exists|m: Term| terms.contains(m) && p.covers_spec(m)
}

/// Some implicant among the first `n` of `s` equals `x`.
pub open spec fn from_prefix(s: Seq<Implicant>, n: int, x: Implicant) -> bool {
    exists|p: int| 0 <= p < n && #[trigger] s[p] == x
}

/// The chart row `c` for some minterm has a selected prime.
pub open spec fn row_hit(c: Seq<usize>, selected: Seq<bool>) -> bool {
    exists|j: int| 0 <= j < c.len() && 0 <= c[j] < selected.len() && #[trigger] selected[c[j] as int]
}

/// The chart is well formed: it has a row per minterm, every entry indexes a prime, and every listed prime covers the
/// row's minterm.
pub open spec fn chart_ok(chart: Seq<Vec<usize>>, primes: Seq<Implicant>, min_terms: Seq<Term>) -> bool {
    &&& chart.len() == min_terms.len()
    &&& forall|k: int, j: int|
        0 <= k < chart.len() && 0 <= j < chart[k].len() ==> #[trigger] chart[k]@[j] < primes.len()
            && primes[chart[k]@[j] as int].covers_spec(min_terms[k])
}

/// The rows named by `rows` are rows of the chart, each with at least one candidate prime.
pub open spec fn rows_listed(chart: Seq<Vec<usize>>, rows: Seq<usize>) -> bool {
    forall|q: int| 0 <= q < rows.len() ==> #[trigger] rows[q] < chart.len() && chart[rows[q] as int].len() >= 1
}

/// The still-uncovered rows are valid rows with at least two candidate primes, none of them selected.
pub open spec fn uncovered_ok(chart: Seq<Vec<usize>>, uncovered: Seq<usize>, selected: Seq<bool>) -> bool {
    forall|q: int|
        0 <= q < uncovered.len() ==> {
            let k = #[trigger] uncovered[q];
            &&& k < chart.len()
            &&& chart[k as int].len() >= 2
            &&& forall|j: int|
                0 <= j < chart[k as int].len() ==> !selected[#[trigger] chart[k as int]@[j] as int]
        }
}

/// How many implicants of `p` cover `m`.
pub open spec fn cover_count(p: Seq<Implicant>, m: Term) -> nat
    decreases p.len(),
{
    if p.len() == 0 {
        0
    } else {
        cover_count(p.drop_last(), m) + if p.last().covers_spec(m) {
            1nat
        } else {
            0nat
        }
    }
}

/// `x` is essential among the implicants `p` for the terms `ms`: some term of `ms` is covered by `x` and by no other
/// implicant of `p`.
pub open spec fn essential(p: Seq<Implicant>, ms: Seq<Term>, x: Implicant) -> bool {
    exists|j: int| 0 <= j < ms.len() && cover_count(p, #[trigger] ms[j]) == 1 && x.covers_spec(ms[j])
}

/// Some essential implicant of `p` covers `m`.
pub open spec fn essentially_covered(p: Seq<Implicant>, ms: Seq<Term>, m: Term) -> bool {
    exists|i: int| 0 <= i < p.len() && essential(p, ms, #[trigger] p[i]) && p[i].covers_spec(m)
}

/// The number of products Petrick's method expands over the first `n` terms of `ms`: the product, over those terms that
/// no essential implicant of `p` covers, of the number of implicants of `p` covering each.
pub open spec fn petrick_size(p: Seq<Implicant>, ms: Seq<Term>, n: nat) -> nat
    decreases n,
{
    if n == 0 {
        1
    } else {
        let m = ms[n - 1];
        petrick_size(p, ms, (n - 1) as nat) * if essentially_covered(p, ms, m) {
            1nat
        } else {
            cover_count(p, m)
        }
    }
}

/// Some implicant of `p` at an index in `s` covers `m`.
pub open spec fn picks(s: Set<usize>, p: Seq<Implicant>, m: Term) -> bool {
    exists|i: usize| s.contains(i) && i < p.len() && #[trigger] p[i as int].covers_spec(m)
}

/// The implicants of `p` at the indices in `s` cover every term of `ms`.
pub open spec fn picks_cover(s: Set<usize>, p: Seq<Implicant>, ms: Seq<Term>) -> bool {
    forall|k: int| 0 <= k < ms.len() ==> #[trigger] picks(s, p, ms[k])
}

/// The indices below `n` of the implicants of `p` that cover `m`, in order: a chart row.
pub open spec fn covering(p: Seq<Implicant>, m: Term, n: nat) -> Seq<usize>
    decreases n,
{
    if n == 0 {
        Seq::empty()
    } else {
        let r = covering(p, m, (n - 1) as nat);
        if p[n - 1].covers_spec(m) {
            r.push((n - 1) as usize)
        } else {
            r
        }
    }
}

/// The chart of the primes `p` for the terms `ms`: for each term, the indices of the primes covering it, in order.
pub open spec fn chart_of(p: Seq<Implicant>, ms: Seq<Term>) -> Seq<Seq<usize>> {
    Seq::new(ms.len(), |a: int| covering(p, ms[a], p.len()))
}

/// The essential primes of a chart, as flags over `n` primes: those that are the only prime of some row.
pub open spec fn essentials_of(chart: Seq<Seq<usize>>, n: nat) -> Seq<bool> {
    Seq::new(n, |q: int| exists|a: int| 0 <= a < chart.len() && chart[a].len() == 1 && #[trigger] chart[a][0] == q)
}

/// The rows below `k` of the chart with no flagged prime, in order.
pub open spec fn open_rows(chart: Seq<Seq<usize>>, sel: Seq<bool>, k: nat) -> Seq<usize>
    decreases k,
{
    if k == 0 {
        Seq::empty()
    } else {
        let r = open_rows(chart, sel, (k - 1) as nat);
        if row_hit(chart[k - 1], sel) {
            r
        } else {
            r.push((k - 1) as usize)
        }
    }
}

/// The implicants of `p` below `k` whose flags in `sel` are set, in order.
pub open spec fn picked(p: Seq<Implicant>, sel: Seq<bool>, k: nat) -> Seq<Implicant>
    decreases k,
{
    if k == 0 {
        Seq::empty()
    } else {
        let r = picked(p, sel, (k - 1) as nat);
        if sel[k - 1] {
            r.push(p[k - 1])
        } else {
            r
        }
    }
}

/// The greedy selection from the primes `p` for the terms `ms`: the essential primes, then the greedy cover of the rows
/// they leave open, listed in the order of `p`.
#[verifier::opaque]
pub open spec fn greedy_selection(p: Seq<Implicant>, ms: Seq<Term>) -> Seq<Implicant> {
    let chart = chart_of(p, ms);
    let ess = essentials_of(chart, p.len());
    picked(p, greedy_cover(ess, open_rows(chart, ess, chart.len()), chart), p.len())
}

/// The chart: for each minterm, the indices of the primes covering it, in order.
fn build_chart(primes: &[Implicant], min_terms: &[Term]) -> (chart: Vec<Vec<usize>>)
    requires
        all_normalized(primes@),
    ensures
        chart_ok(chart@, primes@, min_terms@),
        forall|a: int, i: int|
            0 <= a < chart.len() && 0 <= i < primes.len() && #[trigger] primes@[i].covers_spec(min_terms@[a])
                ==> chart[a]@.contains(i as usize),
        forall|a: int| 0 <= a < chart.len() ==> #[trigger] chart[a]@.len() == cover_count(primes@, min_terms@[a]),
        rows_view(chart@) == chart_of(primes@, min_terms@),
{
    let mut chart: Vec<Vec<usize>> = Vec::new();
    let mut k: usize = 0;
    while k < min_terms.len()
        invariant
            k <= min_terms.len(),
            chart.len() == k,
            all_normalized(primes@),
            forall|a: int, j: int|
                0 <= a < k && 0 <= j < chart[a].len() ==> #[trigger] chart[a]@[j] < primes.len()
                    && primes@[chart[a]@[j] as int].covers_spec(min_terms@[a]),
            forall|a: int, i: int|
                0 <= a < k && 0 <= i < primes.len() && #[trigger] primes@[i].covers_spec(min_terms@[a])
                    ==> chart[a]@.contains(i as usize),
            forall|a: int| 0 <= a < k ==> #[trigger] chart[a]@.len() == cover_count(primes@, min_terms@[a]),
            forall|a: int| 0 <= a < k ==> #[trigger] chart[a]@ == covering(primes@, min_terms@[a], primes.len() as nat),
        decreases min_terms.len() - k,
    {
        let m = min_terms[k];
        let mut row: Vec<usize> = Vec::new();
        let mut i: usize = 0;
        while i < primes.len()
            invariant
                i <= primes.len(),
                all_normalized(primes@),
                forall|j: int|
                    0 <= j < row.len() ==> #[trigger] row@[j] < primes.len() && primes@[row@[j] as int].covers_spec(m),
                forall|p: int| 0 <= p < i && #[trigger] primes@[p].covers_spec(m) ==> row@.contains(p as usize),
                row@.len() == cover_count(primes@.subrange(0, i as int), m),
                row@ == covering(primes@, m, i as nat),
            decreases primes.len() - i,
        {
            let ghost row_before = row@;
            proof {
                assert(primes@.subrange(0, i + 1).drop_last() == primes@.subrange(0, i as int));
                assert(primes@.subrange(0, i + 1).last() == primes@[i as int]);
            }
            if covers_term(&primes[i], m) {
                row.push(i);
                proof {
                    assert(row@[row.len() - 1] == i);
                }
            }
            proof {
                assert forall|p: int| 0 <= p < i + 1 && #[trigger] primes@[p].covers_spec(m) implies row@.contains(p as usize) by {
                    if p < i {
                        let j = choose|j: int| 0 <= j < row_before.len() && row_before[j] == p as usize;
                        assert(row@[j] == p as usize);
                    } else {
                        assert(row@[row.len() - 1] == p as usize);
                    }
                }
                assert forall|j: int| 0 <= j < row.len() implies #[trigger] row@[j] < primes.len() && primes@[row@[j] as int].covers_spec(m) by {
                    if j < row_before.len() {
                        assert(row_before[j] == row@[j]);
                    }
                }
            }
            i += 1;
        }
        proof {
            assert(primes@.subrange(0, primes.len() as int) == primes@);
        }
        let ghost chart_before = chart@;
        chart.push(row);
        proof {
            assert forall|a: int| 0 <= a < k + 1 implies #[trigger] chart[a]@.len() == cover_count(primes@, min_terms@[a]) by {
                if a < k {
                    assert(chart[a] == chart_before[a]);
                }
            }
            assert forall|a: int| 0 <= a < k + 1 implies #[trigger] chart[a]@ == covering(
                primes@,
                min_terms@[a],
                primes.len() as nat,
            ) by {
                if a < k {
                    assert(chart[a] == chart_before[a]);
                }
            }
        }
        k += 1;
    }
    proof {
        assert(rows_view(chart@) =~= chart_of(primes@, min_terms@));
    }
    chart
}

/// Marks the essential primes: the only prime of some chart row.
fn mark_essentials(chart: &Vec<Vec<usize>>, n: usize) -> (selected: Vec<bool>)
    requires
        forall|a: int, j: int| 0 <= a < chart.len() && 0 <= j < chart[a].len() ==> #[trigger] chart[a]@[j] < n,
    ensures
        selected.len() == n,
        forall|a: int| 0 <= a < chart.len() && chart[a].len() == 1 ==> selected@[#[trigger] chart[a]@[0] as int],
        forall|p: int|
            0 <= p < selected.len() && #[trigger] selected@[p] ==> exists|a: int|
                0 <= a < chart.len() && chart[a].len() == 1 && #[trigger] chart[a]@[0] == p,
{
    let mut selected: Vec<bool> = vec![false; n];
    let mut k: usize = 0;
    while k < chart.len()
        invariant
            k <= chart.len(),
            selected.len() == n,
            forall|a: int, j: int| 0 <= a < chart.len() && 0 <= j < chart[a].len() ==> #[trigger] chart[a]@[j] < n,
            forall|a: int| 0 <= a < k && chart[a].len() == 1 ==> selected@[#[trigger] chart[a]@[0] as int],
            forall|p: int|
                0 <= p < selected.len() && #[trigger] selected@[p] ==> exists|a: int|
                    0 <= a < k && chart[a].len() == 1 && #[trigger] chart[a]@[0] == p,
        decreases chart.len() - k,
    {
        if chart[k].len() == 1 {
            let p = chart[k][0];
            let ghost selected_before = selected@;
            selected[p] = true;
            proof {
                assert forall|a: int| 0 <= a <= k && chart[a].len() == 1 implies selected@[#[trigger] chart[a]@[0] as int] by {
                    if a < k {
                        assert(selected_before[chart[a]@[0] as int]);
                    }
                }
                assert forall|p2: int| 0 <= p2 < selected.len() && #[trigger] selected@[p2] implies exists|a: int|
                    0 <= a < k + 1 && chart[a].len() == 1 && #[trigger] chart[a]@[0] == p2 by {
                    if p2 == p {
                        assert(chart[k as int]@[0] == p2);
                    } else {
                        assert(selected_before[p2]);
                    }
                }
            }
        }
        k += 1;
    }
    selected
}

/// Over the first `n` rows of the chart, the product of the lengths of the rows without a marked prime.
pub open spec fn unmarked_product(chart: Seq<Vec<usize>>, sel: Seq<bool>, n: nat) -> nat
    decreases n,
{
    if n == 0 {
        1
    } else {
        unmarked_product(chart, sel, (n - 1) as nat) * if row_hit(chart[n - 1]@, sel) {
            1nat
        } else {
            chart[n - 1]@.len()
        }
    }
}

/// The rows of the chart without a marked prime, in order.
fn unmarked_rows(chart: &Vec<Vec<usize>>, selected: &Vec<bool>) -> (uncovered: Vec<usize>)
    requires
        forall|a: int, j: int|
            0 <= a < chart.len() && 0 <= j < chart[a].len() ==> #[trigger] chart[a]@[j] < selected.len(),
        forall|a: int| 0 <= a < chart.len() ==> chart[a].len() >= 1,
        forall|a: int| 0 <= a < chart.len() && chart[a].len() == 1 ==> selected@[#[trigger] chart[a]@[0] as int],
    ensures
        uncovered_ok(chart@, uncovered@, selected@),
        forall|a: int| 0 <= a < chart.len() ==> row_hit(chart[a]@, selected@) || uncovered@.contains(a as usize),
        rows_product(chart@, uncovered@) == unmarked_product(chart@, selected@, chart.len() as nat),
        uncovered@ == open_rows(rows_view(chart@), selected@, chart.len() as nat),
{
    let mut uncovered: Vec<usize> = Vec::new();
    let mut k: usize = 0;
    while k < chart.len()
        invariant
            k <= chart.len(),
            forall|a: int, j: int|
                0 <= a < chart.len() && 0 <= j < chart[a].len() ==> #[trigger] chart[a]@[j] < selected.len(),
            forall|a: int| 0 <= a < chart.len() ==> chart[a].len() >= 1,
            forall|a: int| 0 <= a < chart.len() && chart[a].len() == 1 ==> selected@[#[trigger] chart[a]@[0] as int],
            uncovered_ok(chart@, uncovered@, selected@),
            forall|a: int| 0 <= a < k ==> row_hit(chart[a]@, selected@) || uncovered@.contains(a as usize),
            forall|q: int| 0 <= q < uncovered.len() ==> #[trigger] uncovered@[q] < k,
            rows_product(chart@, uncovered@) == unmarked_product(chart@, selected@, k as nat),
            uncovered@ == open_rows(rows_view(chart@), selected@, k as nat),
        decreases chart.len() - k,
    {
        let mut any = false;
        let mut j: usize = 0;
        while j < chart[k].len()
            invariant
                k < chart.len(),
                j <= chart[k as int].len(),
                forall|a: int, j2: int|
                    0 <= a < chart.len() && 0 <= j2 < chart[a].len() ==> #[trigger] chart[a]@[j2] < selected.len(),
                any == exists|b: int| 0 <= b < j && #[trigger] selected@[chart[k as int]@[b] as int],
            decreases chart[k as int].len() - j,
        {
            if selected[chart[k][j]] {
                any = true;
            }
            j += 1;
        }
        let ghost uncovered_before = uncovered@;
        proof {
            assert(rows_view(chart@)[k as int] == chart[k as int]@);
            assert(any == row_hit(chart[k as int]@, selected@)) by {
                if any {
                    let b = choose|b: int| 0 <= b < chart[k as int].len() && #[trigger] selected@[chart[k as int]@[b] as int];
                    assert(0 <= chart[k as int]@[b] < selected@.len());
                }
                if row_hit(chart[k as int]@, selected@) {
                    let b = choose|b: int|
                        0 <= b < chart[k as int]@.len() && 0 <= chart[k as int]@[b] < selected@.len()
                            && selected@[chart[k as int]@[b] as int];
                    assert(selected@[chart[k as int]@[b] as int]);
                }
            }
        }
        if !any {
            proof {
                if chart[k as int].len() == 1 {
                    assert(selected@[chart[k as int]@[0] as int]);
                }
            }
            uncovered.push(k);
            proof {
                assert(uncovered@[uncovered.len() - 1] == k);
                assert(uncovered@.drop_last() == uncovered_before);
            }
        }
        proof {
            assert forall|a: int| 0 <= a < k + 1 implies row_hit(chart[a]@, selected@) || uncovered@.contains(a as usize) by {
                if a < k && !row_hit(chart[a]@, selected@) {
                    let q = choose|q: int| 0 <= q < uncovered_before.len() && uncovered_before[q] == a as usize;
                    assert(uncovered@[q] == a as usize);
                } else if a == k && !row_hit(chart[a]@, selected@) {
                    assert(uncovered@[uncovered.len() - 1] == a as usize);
                }
            }
            assert forall|q: int| 0 <= q < uncovered.len() implies #[trigger] uncovered@[q] < k + 1 by {
                if q < uncovered_before.len() {
                    assert(uncovered_before[q] == uncovered@[q]);
                }
            }
        }
        k += 1;
    }
    uncovered
}

/// The primes whose flags are set, in order.
fn collect_selected(primes: &[Implicant], selected: &Vec<bool>) -> (out: Vec<Implicant>)
    requires
        selected.len() == primes.len(),
        primes@.no_duplicates(),
    ensures
        out@.no_duplicates(),
        forall|a: int| 0 <= a < out.len() ==> primes@.contains(#[trigger] out[a]),
        forall|p: int| 0 <= p < primes.len() && #[trigger] selected@[p] ==> out@.contains(primes@[p]),
        out.len() == chosen(selected@).len(),
        forall|n: nat| #[trigger] total_literals(out@, n) == literals_at(chosen(selected@), primes@, n, primes.len() as nat),
        out@ == picked(primes@, selected@, primes.len() as nat),
{
    let mut out: Vec<Implicant> = Vec::new();
    let mut i: usize = 0;
    proof {
        assert(chosen(selected@.subrange(0, 0)) =~= Set::<usize>::empty());
    }
    while i < primes.len()
        invariant
            i <= primes.len(),
            selected.len() == primes.len(),
            primes@.no_duplicates(),
            out@.no_duplicates(),
            forall|a: int| 0 <= a < out.len() ==> from_prefix(primes@, i as int, #[trigger] out[a]),
            forall|p: int| 0 <= p < i && #[trigger] selected@[p] ==> out@.contains(primes@[p]),
            out.len() == chosen(selected@.subrange(0, i as int)).len(),
            forall|n: nat| #[trigger] total_literals(out@, n) == literals_at(chosen(selected@), primes@, n, i as nat),
            out@ == picked(primes@, selected@, i as nat),
        decreases primes.len() - i,
    {
        let ghost before_set = chosen(selected@.subrange(0, i as int));
        let ghost out_start = out@;
        proof {
            lemma_chosen_finite(selected@.subrange(0, i as int));
            if selected@[i as int] {
                assert(chosen(selected@.subrange(0, i + 1)) =~= before_set.insert(i));
                assert(!before_set.contains(i));
            } else {
                assert(chosen(selected@.subrange(0, i + 1)) =~= before_set);
            }
        }
        if selected[i] {
            proof {
                assert forall|a: int| 0 <= a < out.len() implies out[a] != primes@[i as int] by {
                    let p = choose|p: int| 0 <= p < i && primes@[p] == out[a];
                }
            }
            let ghost out_before = out@;
            out.push(primes[i]);
            proof {
                assert(out[out.len() - 1] == primes@[i as int]);
                assert forall|p: int| 0 <= p < i + 1 && #[trigger] selected@[p] implies out@.contains(primes@[p]) by {
                    if p < i {
                        let o = choose|o: int| 0 <= o < out_before.len() && out_before[o] == primes@[p];
                        assert(out@[o] == primes@[p]);
                    } else {
                        assert(out@[out.len() - 1] == primes@[p]);
                    }
                }
                assert forall|a: int| 0 <= a < out.len() implies from_prefix(primes@, i + 1, #[trigger] out[a]) by {
                    if a == out.len() - 1 {
                        assert(primes@[i as int] == out[a]);
                    } else {
                        let p = choose|p: int| 0 <= p < i && primes@[p] == out[a];
                        assert(primes@[p] == out[a]);
                    }
                }
            }
        }
        proof {
            assert forall|n: nat| #[trigger] total_literals(out@, n) == literals_at(chosen(selected@), primes@, n, (i + 1) as nat) by {
                assert(total_literals(out_start, n) == literals_at(chosen(selected@), primes@, n, i as nat));
                if selected@[i as int] {
                    assert(out@.drop_last() == out_start);
                }
            }
        }
        i += 1;
    }
    proof {
        assert(selected@.subrange(0, primes.len() as int) == selected@);
        assert forall|a: int| 0 <= a < out.len() implies primes@.contains(#[trigger] out[a]) by {
            let p = choose|p: int| 0 <= p < primes.len() && primes@[p] == out[a];
        }
    }
    out
}

/// A row is marked exactly when an essential implicant covers its minterm.
#[verifier::spinoff_prover]
#[verifier::rlimit(60)]
proof fn lemma_row_essential(
    chart: Seq<Vec<usize>>,
    primes: Seq<Implicant>,
    ms: Seq<Term>,
    sel: Seq<bool>,
    a: int,
)
    requires
        0 <= a < chart.len(),
        primes.len() <= usize::MAX,
        chart_ok(chart, primes, ms),
        forall|a2: int, i: int|
            0 <= a2 < chart.len() && 0 <= i < primes.len() && #[trigger] primes[i].covers_spec(ms[a2])
                ==> chart[a2]@.contains(i as usize),
        forall|a2: int| 0 <= a2 < chart.len() ==> #[trigger] chart[a2]@.len() == cover_count(primes, ms[a2]),
        sel.len() == primes.len(),
        forall|a2: int| 0 <= a2 < chart.len() && chart[a2].len() == 1 ==> sel[#[trigger] chart[a2]@[0] as int],
        forall|p: int|
            0 <= p < sel.len() && #[trigger] sel[p] ==> exists|a2: int|
                0 <= a2 < chart.len() && chart[a2].len() == 1 && #[trigger] chart[a2]@[0] == p,
    ensures
        row_hit(chart[a]@, sel) == essentially_covered(primes, ms, ms[a]),
{
    if row_hit(chart[a]@, sel) {
        let j = choose|j: int| 0 <= j < chart[a]@.len() && 0 <= chart[a]@[j] < sel.len() && sel[chart[a]@[j] as int];
        let i = chart[a]@[j] as int;
        let b = choose|b: int| 0 <= b < chart.len() && chart[b].len() == 1 && #[trigger] chart[b]@[0] == i;
        assert(chart[b]@.len() == cover_count(primes, ms[b]));
        assert(primes[i].covers_spec(ms[b]));
        assert(essential(primes, ms, primes[i]));
        assert(primes[i].covers_spec(ms[a]));
    }
    if essentially_covered(primes, ms, ms[a]) {
        let i = choose|i: int| 0 <= i < primes.len() && essential(primes, ms, #[trigger] primes[i]) && primes[i].covers_spec(ms[a]);
        let b = choose|b: int| 0 <= b < ms.len() && cover_count(primes, #[trigger] ms[b]) == 1 && primes[i].covers_spec(ms[b]);
        assert(chart[b]@.len() == 1);
        assert(chart[b]@.contains(i as usize));
        assert(chart[b]@[0] == i as usize);
        assert(sel[chart[b]@[0] as int]);
        assert(chart[b]@[0] as int == i);
        assert(sel[i]);
        assert(chart[a]@.contains(i as usize));
        let j = choose|j: int| 0 <= j < chart[a]@.len() && chart[a]@[j] == i as usize;
        assert(sel[chart[a]@[j] as int]);
    }
}

/// Marked rows are the rows of minterms that an essential implicant covers, so the product over the unmarked rows is
/// the size of Petrick's expansion.
proof fn lemma_essential_rows(
    chart: Seq<Vec<usize>>,
    primes: Seq<Implicant>,
    ms: Seq<Term>,
    sel: Seq<bool>,
)
    requires
        primes.len() <= usize::MAX,
        chart_ok(chart, primes, ms),
        forall|a: int, i: int|
            0 <= a < chart.len() && 0 <= i < primes.len() && #[trigger] primes[i].covers_spec(ms[a])
                ==> chart[a]@.contains(i as usize),
        forall|a: int| 0 <= a < chart.len() ==> #[trigger] chart[a]@.len() == cover_count(primes, ms[a]),
        sel.len() == primes.len(),
        forall|a: int| 0 <= a < chart.len() && chart[a].len() == 1 ==> sel[#[trigger] chart[a]@[0] as int],
        forall|p: int|
            0 <= p < sel.len() && #[trigger] sel[p] ==> exists|a: int|
                0 <= a < chart.len() && chart[a].len() == 1 && #[trigger] chart[a]@[0] == p,
    ensures
        forall|a: int|
            0 <= a < chart.len() ==> row_hit(chart[a]@, sel) == essentially_covered(primes, ms, #[trigger] ms[a]),
        unmarked_product(chart, sel, chart.len()) == petrick_size(primes, ms, chart.len()),
{
    assert forall|a: int| 0 <= a < chart.len() implies row_hit(chart[a]@, sel) == essentially_covered(
        primes,
        ms,
        #[trigger] ms[a],
    ) by {
        lemma_row_essential(chart, primes, ms, sel, a);
    }
    lemma_unmarked_product(chart, primes, ms, sel, chart.len());
}

proof fn lemma_unmarked_product(chart: Seq<Vec<usize>>, primes: Seq<Implicant>, ms: Seq<Term>, sel: Seq<bool>, n: nat)
    requires
        n <= chart.len(),
        chart.len() == ms.len(),
        forall|a: int| 0 <= a < chart.len() ==> #[trigger] chart[a]@.len() == cover_count(primes, ms[a]),
        forall|a: int|
            0 <= a < chart.len() ==> row_hit(chart[a]@, sel) == essentially_covered(primes, ms, #[trigger] ms[a]),
    ensures
        unmarked_product(chart, sel, n) == petrick_size(primes, ms, n),
    decreases n,
{
    if n > 0 {
        lemma_unmarked_product(chart, primes, ms, sel, (n - 1) as nat);
        let a = n - 1;
        assert(chart[a]@.len() == cover_count(primes, ms[a]));
        assert(row_hit(chart[a]@, sel) == essentially_covered(primes, ms, ms[a]));
    }
}

/// Selects a minimal-size set of prime implicants covering every minterm.
///
/// Essential prime implicants are taken first; remaining minterms are covered by Petrick's method, or a greedy cover when
/// the chart is large. When Petrick's method runs, no set of the primes that covers every minterm is smaller than the
/// selection, nor as small with fewer literals; otherwise the selection is [`greedy_selection`], in the order of
/// `primes`.
#[verifier::spinoff_prover]
#[verifier::rlimit(60)]
fn select(primes: &[Implicant], min_terms: &[Term], num_variables: usize) -> (r: Vec<Implicant>)
    requires
        num_variables <= u32::MAX,
        all_normalized(primes@),
        primes@.no_duplicates(),
        forall|k: int| 0 <= k < min_terms.len() ==> covered_by(primes@, #[trigger] min_terms@[k]),
    ensures
        forall|k: int| 0 <= k < r.len() ==> primes@.contains(#[trigger] r[k]),
        r@.no_duplicates(),
        forall|k: int| 0 <= k < min_terms.len() ==> covered_by(r@, #[trigger] min_terms@[k]),
        petrick_size(primes@, min_terms@, min_terms.len() as nat) <= PETRICK_PRODUCT_LIMIT ==> forall|s: Set<usize>|
            s.finite() && #[trigger] picks_cover(s, primes@, min_terms@) ==> r.len() <= s.len(),
        petrick_size(primes@, min_terms@, min_terms.len() as nat) <= PETRICK_PRODUCT_LIMIT ==> forall|s: Set<usize>|
            s.finite() && #[trigger] picks_cover(s, primes@, min_terms@) && s.len() <= r.len() ==> total_literals(
                r@,
                num_variables as nat,
            ) <= literals_at(s, primes@, num_variables as nat, primes.len() as nat),
        greedy_when_over(r@, primes@, min_terms@),
{
    // chart[k] = indices of primes covering min_terms[k].
    let chart = build_chart(primes, min_terms);
    // Essential prime implicants: a minterm covered by exactly one prime.
    let mut selected = mark_essentials(&chart, primes.len());
    // Every row has at least one prime.
    assert forall|a: int| 0 <= a < chart.len() implies chart[a].len() >= 1 by {
        let p = choose|p: int| 0 <= p < primes@.len() && primes@[p].covers_spec(min_terms@[a]);
        assert(chart[a]@.contains(p as usize));
    }
    let uncovered = unmarked_rows(&chart, &selected);
    let ghost essentials = selected@;
    proof {
        lemma_essential_rows(chart@, primes@, min_terms@, essentials);
        lemma_essentials_of(chart@, essentials);
    }
    if !uncovered.is_empty() {
        cover_remaining(&mut selected, &chart, &uncovered, primes, num_variables);
    }
    let out = collect_selected(primes, &selected);
    proof {
        lemma_select_greedy(chart@, primes@, min_terms@, essentials, selected@, uncovered@, out@);
    }
    proof {
        assert forall|a: int| 0 <= a < min_terms.len() implies covered_by(out@, #[trigger] min_terms@[a]) by {
            if !row_hit(chart[a]@, essentials) {
                assert(uncovered@.contains(a as usize));
                let q = choose|q: int| 0 <= q < uncovered.len() && uncovered@[q] == a as usize;
                if uncovered.len() == 0 {
                    assert(false);
                }
            }
            let j = choose|j: int|
                0 <= j < chart[a]@.len() && 0 <= chart[a]@[j] < selected@.len() && selected@[chart[a]@[j] as int];
            let p = chart[a]@[j] as int;
            assert(out@.contains(primes@[p]));
            let o = choose|o: int| 0 <= o < out.len() && out@[o] == primes@[p];
            assert(out@[o].covers_spec(min_terms@[a]));
        }
        if petrick_size(primes@, min_terms@, min_terms.len() as nat) <= PETRICK_PRODUCT_LIMIT {
            lemma_select_minimal(chart@, primes@, min_terms@, essentials, selected@, uncovered@);
            lemma_select_fewest_literals(
                chart@,
                primes@,
                min_terms@,
                essentials,
                selected@,
                uncovered@,
                num_variables as nat,
            );
            assert(total_literals(out@, num_variables as nat) == literals_at(
                chosen(selected@),
                primes@,
                num_variables as nat,
                primes.len() as nat,
            ));
        }
    }
    out
}

/// A set of primes covering every minterm holds every essential prime, and the rest of it meets every row that the
/// essential primes leave uncovered.
proof fn lemma_cover_parts(
    chart: Seq<Vec<usize>>,
    primes: Seq<Implicant>,
    ms: Seq<Term>,
    essentials: Seq<bool>,
    uncovered: Seq<usize>,
    st: Set<usize>,
)
    requires
        chart_ok(chart, primes, ms),
        forall|a: int, i: int|
            0 <= a < chart.len() && 0 <= i < primes.len() && #[trigger] primes[i].covers_spec(ms[a])
                ==> chart[a]@.contains(i as usize),
        essentials.len() == primes.len(),
        forall|p: int|
            0 <= p < essentials.len() && #[trigger] essentials[p] ==> exists|a: int|
                0 <= a < chart.len() && chart[a].len() == 1 && #[trigger] chart[a]@[0] == p,
        uncovered_ok(chart, uncovered, essentials),
        picks_cover(st, primes, ms),
    ensures
        chosen(essentials).subset_of(st),
        hits_rows(st.difference(chosen(essentials)), chart, uncovered),
{
    let e_set = chosen(essentials);
    assert forall|p: usize| e_set.contains(p) implies st.contains(p) by {
        assert(essentials[p as int]);
        let a = choose|a: int| 0 <= a < chart.len() && chart[a].len() == 1 && #[trigger] chart[a]@[0] == p as int;
        let m = ms[a];
        assert(picks(st, primes, m));
        let i = choose|i: usize| st.contains(i) && i < primes.len() && #[trigger] primes[i as int].covers_spec(m);
        assert(chart[a]@.contains(i));
        let j = choose|j: int| 0 <= j < chart[a]@.len() && chart[a]@[j] == i;
        assert(j == 0);
    }
    let rest = st.difference(e_set);
    assert forall|q: int| 0 <= q < uncovered.len() implies meets(rest, chart[#[trigger] uncovered[q] as int]@) by {
        let a = uncovered[q] as int;
        let m = ms[a];
        assert(picks(st, primes, m));
        let i = choose|i: usize| st.contains(i) && i < primes.len() && #[trigger] primes[i as int].covers_spec(m);
        assert(chart[a]@.contains(i));
        let j = choose|j: int| 0 <= j < chart[a]@.len() && chart[a]@[j] == i;
        assert(!essentials[chart[a]@[j] as int]);
        assert(!e_set.contains(i));
        assert(rest.contains(chart[a]@[j]));
    }
}

/// Beyond Petrick's limit for the primes `p` and the terms `ms`, `r` is the greedy selection from `p`.
#[verifier::opaque]
pub open spec fn greedy_when_over(r: Seq<Implicant>, p: Seq<Implicant>, ms: Seq<Term>) -> bool {
    petrick_size(p, ms, ms.len()) > PETRICK_PRODUCT_LIMIT ==> r == greedy_selection(p, ms)
}

/// The flags that mark the only prime of some row are the chart's essential primes.
proof fn lemma_essentials_of(chart: Seq<Vec<usize>>, sel: Seq<bool>)
    requires
        forall|a: int| 0 <= a < chart.len() && chart[a].len() == 1 ==> sel[#[trigger] chart[a]@[0] as int],
        forall|a: int, j: int| 0 <= a < chart.len() && 0 <= j < chart[a].len() ==> #[trigger] chart[a]@[j] < sel.len(),
        forall|p: int|
            0 <= p < sel.len() && #[trigger] sel[p] ==> exists|a: int|
                0 <= a < chart.len() && chart[a].len() == 1 && #[trigger] chart[a]@[0] == p,
    ensures
        sel == essentials_of(rows_view(chart), sel.len()),
{
    let e = essentials_of(rows_view(chart), sel.len());
    assert forall|p: int| 0 <= p < sel.len() implies sel[p] == e[p] by {
        if sel[p] {
            let a = choose|a: int| 0 <= a < chart.len() && chart[a].len() == 1 && #[trigger] chart[a]@[0] == p;
            assert(rows_view(chart)[a] == chart[a]@);
        }
        if e[p] {
            let a = choose|a: int|
                0 <= a < rows_view(chart).len() && rows_view(chart)[a].len() == 1 && #[trigger] rows_view(chart)[a][0]
                    == p;
            assert(rows_view(chart)[a] == chart[a]@);
            assert(chart[a]@[0] < sel.len());
        }
    }
    assert(sel =~= e);
}

/// Beyond Petrick's limit, the selection is the greedy selection.
proof fn lemma_select_greedy(
    chart: Seq<Vec<usize>>,
    primes: Seq<Implicant>,
    ms: Seq<Term>,
    ess: Seq<bool>,
    fin: Seq<bool>,
    uncovered: Seq<usize>,
    out: Seq<Implicant>,
)
    requires
        rows_view(chart) == chart_of(primes, ms),
        ess == essentials_of(rows_view(chart), primes.len()),
        uncovered == open_rows(rows_view(chart), ess, chart.len()),
        unmarked_product(chart, ess, chart.len()) == petrick_size(primes, ms, chart.len()),
        rows_product(chart, uncovered) == unmarked_product(chart, ess, chart.len()),
        uncovered.len() > 0 && rows_product(chart, uncovered) > PETRICK_PRODUCT_LIMIT ==> fin == greedy_cover(
            ess,
            uncovered,
            rows_view(chart),
        ),
        uncovered.len() == 0 ==> fin == ess,
        out == picked(primes, fin, primes.len()),
    ensures
        greedy_when_over(out, primes, ms),
{
    reveal(greedy_selection);
    reveal(greedy_when_over);
    assert(chart.len() == ms.len()) by {
        assert(rows_view(chart).len() == chart_of(primes, ms).len());
    }
    if uncovered.len() == 0 {
        assert(rows_product(chart, uncovered) == 1);
    }
}

/// Any set of primes covering every minterm holds every essential prime, and the rest of it meets every row that the
/// essential primes leave uncovered; so it is no smaller than the essentials together with Petrick's choice.
proof fn lemma_select_minimal(
    chart: Seq<Vec<usize>>,
    primes: Seq<Implicant>,
    ms: Seq<Term>,
    essentials: Seq<bool>,
    fin: Seq<bool>,
    uncovered: Seq<usize>,
)
    requires
        chart_ok(chart, primes, ms),
        forall|a: int, i: int|
            0 <= a < chart.len() && 0 <= i < primes.len() && #[trigger] primes[i].covers_spec(ms[a])
                ==> chart[a]@.contains(i as usize),
        essentials.len() == primes.len(),
        essentials.len() <= usize::MAX,
        fin.len() == primes.len(),
        forall|p: int|
            0 <= p < essentials.len() && #[trigger] essentials[p] ==> exists|a: int|
                0 <= a < chart.len() && chart[a].len() == 1 && #[trigger] chart[a]@[0] == p,
        uncovered_ok(chart, uncovered, essentials),
        uncovered.len() == 0 ==> fin == essentials,
        forall|s: Set<usize>|
            s.finite() && #[trigger] hits_rows(s, chart, uncovered) ==> chosen(fin).len() <= chosen(essentials).len()
                + s.len(),
    ensures
        forall|s: Set<usize>| s.finite() && #[trigger] picks_cover(s, primes, ms) ==> chosen(fin).len() <= s.len(),
{
    let e_set = chosen(essentials);
    lemma_chosen_finite(essentials);
    assert forall|st: Set<usize>| st.finite() && #[trigger] picks_cover(st, primes, ms) implies chosen(fin).len()
        <= st.len() by {
        lemma_cover_parts(chart, primes, ms, essentials, uncovered, st);
        let rest = st.difference(e_set);
        vstd::set_lib::lemma_set_difference_len(st, e_set);
        assert(st.intersect(e_set) =~= e_set);
        vstd::set_lib::lemma_len_subset(rest, st);
        vstd::set_lib::lemma_len_subset(e_set, st);
    }
}

/// A set of primes covering every minterm and no larger than the selection counts no fewer literals: it is the
/// essential primes together with a set meeting the remaining rows that is no larger than Petrick's choice.
proof fn lemma_select_fewest_literals(
    chart: Seq<Vec<usize>>,
    primes: Seq<Implicant>,
    ms: Seq<Term>,
    essentials: Seq<bool>,
    fin: Seq<bool>,
    uncovered: Seq<usize>,
    nv: nat,
)
    requires
        chart_ok(chart, primes, ms),
        forall|a: int, i: int|
            0 <= a < chart.len() && 0 <= i < primes.len() && #[trigger] primes[i].covers_spec(ms[a])
                ==> chart[a]@.contains(i as usize),
        essentials.len() == primes.len(),
        essentials.len() <= usize::MAX,
        forall|p: int|
            0 <= p < essentials.len() && #[trigger] essentials[p] ==> exists|a: int|
                0 <= a < chart.len() && chart[a].len() == 1 && #[trigger] chart[a]@[0] == p,
        uncovered_ok(chart, uncovered, essentials),
        forall|s: Set<usize>|
            s.finite() && #[trigger] hits_rows(s, chart, uncovered) && chosen(essentials).len() + s.len() <= chosen(
                fin,
            ).len() ==> literals_at(chosen(fin), primes, nv, primes.len()) <= literals_at(
                chosen(essentials),
                primes,
                nv,
                primes.len(),
            ) + literals_at(s, primes, nv, primes.len()),
    ensures
        forall|s: Set<usize>|
            s.finite() && #[trigger] picks_cover(s, primes, ms) && s.len() <= chosen(fin).len() ==> literals_at(
                chosen(fin),
                primes,
                nv,
                primes.len(),
            ) <= literals_at(s, primes, nv, primes.len()),
{
    let e_set = chosen(essentials);
    lemma_chosen_finite(essentials);
    assert forall|st: Set<usize>|
        st.finite() && #[trigger] picks_cover(st, primes, ms) && st.len() <= chosen(fin).len() implies literals_at(
        chosen(fin),
        primes,
        nv,
        primes.len(),
    ) <= literals_at(st, primes, nv, primes.len()) by {
        lemma_cover_parts(chart, primes, ms, essentials, uncovered, st);
        let rest = st.difference(e_set);
        vstd::set_lib::lemma_set_difference_len(st, e_set);
        assert(st.intersect(e_set) =~= e_set);
        assert(e_set.union(rest) =~= st);
        assert(e_set.disjoint(rest));
        lemma_literals_union(e_set, rest, primes, nv, primes.len());
    }
}

/// Covers the still-uncovered minterms, mutating `selected`.
///
/// When Petrick's expansion of the uncovered rows stays within `PETRICK_PRODUCT_LIMIT` products, no set of primes that
/// covers those rows is smaller than the set this adds, nor as small with fewer literals; beyond that the greedy cover
/// is taken.
fn cover_remaining(
    selected: &mut Vec<bool>,
    chart: &Vec<Vec<usize>>,
    uncovered: &Vec<usize>,
    primes: &[Implicant],
    num_variables: usize,
)
    requires
        num_variables <= u32::MAX,
        old(selected).len() == primes.len(),
        forall|a: int, j: int|
            0 <= a < chart.len() && 0 <= j < chart[a].len() ==> #[trigger] chart[a]@[j] < primes.len(),
        uncovered_ok(chart@, uncovered@, old(selected)@),
    ensures
        final(selected).len() == primes.len(),
        forall|p: int| 0 <= p < old(selected).len() && old(selected)@[p] ==> final(selected)@[p],
        forall|q: int|
            0 <= q < uncovered.len() ==> row_hit(chart[#[trigger] uncovered@[q] as int]@, final(selected)@),
        rows_product(chart@, uncovered@) <= PETRICK_PRODUCT_LIMIT ==> forall|s: Set<usize>|
            s.finite() && #[trigger] hits_rows(s, chart@, uncovered@) ==> chosen(final(selected)@).len() <= chosen(
                old(selected)@,
            ).len() + s.len(),
        rows_product(chart@, uncovered@) <= PETRICK_PRODUCT_LIMIT ==> forall|s: Set<usize>|
            s.finite() && #[trigger] hits_rows(s, chart@, uncovered@) && chosen(old(selected)@).len() + s.len()
                <= chosen(final(selected)@).len() ==> literals_at(
                chosen(final(selected)@),
                primes@,
                num_variables as nat,
                primes.len() as nat,
            ) <= literals_at(chosen(old(selected)@), primes@, num_variables as nat, primes.len() as nat)
                + literals_at(s, primes@, num_variables as nat, primes.len() as nat),
        rows_product(chart@, uncovered@) > PETRICK_PRODUCT_LIMIT ==> final(selected)@ == greedy_cover(
            old(selected)@,
            uncovered@,
            rows_view(chart@),
        ),
{
    // Estimate Petrick's product size; fall back to greedy if it would explode.
    let mut estimate: usize = 1;
    let mut q: usize = 0;
    proof {
        assert(uncovered@.subrange(0, 0).len() == 0);
        assert forall|b: int| 0 <= b < uncovered.len() implies chart[#[trigger] uncovered@[b] as int]@.len() >= 1 by {
            assert(chart[uncovered@[b] as int].len() >= 2);
        }
    }
    while q < uncovered.len() && estimate <= PETRICK_PRODUCT_LIMIT
        invariant
            q <= uncovered.len(),
            uncovered_ok(chart@, uncovered@, selected@),
            estimate >= 1,
            estimate <= PETRICK_PRODUCT_LIMIT ==> estimate == rows_product(chart@, uncovered@.subrange(0, q as int)),
            estimate > PETRICK_PRODUCT_LIMIT ==> rows_product(chart@, uncovered@.subrange(0, q as int))
                > PETRICK_PRODUCT_LIMIT,
        decreases uncovered.len() - q,
    {
        let k = uncovered[q];
        let len = chart[k].len();
        let factor = if len > 1 {
            len
        } else {
            1
        };
        let ghost old_estimate = estimate;
        estimate = match estimate.checked_mul(factor) {
            Some(e) => e,
            None => usize::MAX,
        };
        proof {
            lemma_rows_product_step(chart@, uncovered@, q as int);
            assert(factor == chart[k as int]@.len());
            assert(old_estimate * factor >= 1) by (nonlinear_arith)
                requires
                    factor >= 1,
                    old_estimate >= 1,
            ;
            assert(old_estimate * factor >= old_estimate) by (nonlinear_arith)
                requires
                    factor >= 1,
                    old_estimate >= 1,
            ;
        }
        q += 1;
    }
    if estimate <= PETRICK_PRODUCT_LIMIT {
        proof {
            assert(uncovered@.subrange(0, q as int) == uncovered@);
        }
        petrick(selected, chart, uncovered, primes, num_variables);
    } else {
        proof {
            lemma_rows_product_prefix(chart@, uncovered@, q as int);
        }
        greedy(selected, chart, uncovered);
    }
}

/// Some index of the chart row `c` is in `s`.
pub open spec fn meets(s: Set<usize>, c: Seq<usize>) -> bool {
    exists|j: int| 0 <= j < c.len() && s.contains(#[trigger] c[j])
}

/// `s` meets every chart row named by `rows`: choosing the primes of `s` covers those rows.
pub open spec fn hits_rows(s: Set<usize>, chart: Seq<Vec<usize>>, rows: Seq<usize>) -> bool {
    forall|q: int| 0 <= q < rows.len() ==> meets(s, chart[#[trigger] rows[q] as int]@)
}

/// Every index of `p` is in `s`.
pub open spec fn within_set(p: Seq<usize>, s: Set<usize>) -> bool {
    forall|e: usize| p.contains(e) ==> s.contains(e)
}

/// Every index of `p` is an index of `q`.
pub open spec fn within_seq(p: Seq<usize>, q: Seq<usize>) -> bool {
    forall|e: usize| p.contains(e) ==> q.contains(e)
}

/// `n` holds the indices of `p` and `x`, and no other.
pub open spec fn extends(n: Seq<usize>, p: Seq<usize>, x: usize) -> bool {
    forall|e: usize| n.contains(e) <==> (p.contains(e) || e == x)
}

/// The product of the lengths of the chart rows named by `rows`: the number of products Petrick's method expands
/// over those rows before absorption.
pub open spec fn rows_product(chart: Seq<Vec<usize>>, rows: Seq<usize>) -> nat
    decreases rows.len(),
{
    if rows.len() == 0 {
        1
    } else {
        rows_product(chart, rows.drop_last()) * chart[rows.last() as int]@.len()
    }
}

/// The indices marked in `sel`.
pub open spec fn chosen(sel: Seq<bool>) -> Set<usize> {
    Set::new(|i: usize| i < sel.len() && sel[i as int])
}

proof fn lemma_rows_product_step(chart: Seq<Vec<usize>>, rows: Seq<usize>, q: int)
    requires
        0 <= q < rows.len(),
    ensures
        rows_product(chart, rows.subrange(0, q + 1)) == rows_product(chart, rows.subrange(0, q)) * chart[rows[q]
            as int]@.len(),
{
    assert(rows.subrange(0, q + 1).drop_last() == rows.subrange(0, q));
}

/// A prefix of the rows expands no more products than all of them, when no row is empty.
proof fn lemma_rows_product_prefix(chart: Seq<Vec<usize>>, rows: Seq<usize>, q: int)
    requires
        0 <= q <= rows.len(),
        forall|b: int| 0 <= b < rows.len() ==> chart[#[trigger] rows[b] as int].len() >= 1,
    ensures
        rows_product(chart, rows.subrange(0, q)) <= rows_product(chart, rows),
    decreases rows.len(),
{
    if q == rows.len() {
        assert(rows.subrange(0, q) == rows);
    } else {
        let d = rows.drop_last();
        assert(d.subrange(0, q) == rows.subrange(0, q));
        assert forall|b: int| 0 <= b < d.len() implies chart[#[trigger] d[b] as int].len() >= 1 by {
            assert(d[b] == rows[b]);
        }
        lemma_rows_product_prefix(chart, d, q);
        let f = chart[rows.last() as int]@.len();
        assert(rows.last() == rows[rows.len() - 1]);
        let pd = rows_product(chart, d);
        assert(pd * f >= pd) by (nonlinear_arith)
            requires
                f >= 1,
        ;
    }
}

/// The marked indices of a vector's worth of flags form a finite set.
proof fn lemma_chosen_finite(sel: Seq<bool>)
    requires
        sel.len() <= usize::MAX,
    ensures
        chosen(sel).finite(),
{
    let n = sel.len() as usize;
    vstd::set_lib::range_set_properties::<usize>(0, n);
    let full = Set::<usize>::range(0, n);
    assert(chosen(sel).subset_of(full));
    vstd::set_lib::lemma_len_subset(chosen(sel), full);
}

/// The total number of literals, over `n` variables, of the implicants of `s`.
pub open spec fn total_literals(s: Seq<Implicant>, n: nat) -> nat
    decreases s.len(),
{
    if s.len() == 0 {
        0
    } else {
        total_literals(s.drop_last(), n) + literal_count_spec(s.last().d, n)
    }
}

/// The total number of literals, over `n` variables, of the implicants of `p` at the indices below `k` that `s` holds.
pub open spec fn literals_at(s: Set<usize>, p: Seq<Implicant>, n: nat, k: nat) -> nat
    decreases k,
{
    if k == 0 {
        0
    } else {
        literals_at(s, p, n, (k - 1) as nat) + if s.contains((k - 1) as usize) {
            literal_count_spec(p[k - 1].d, n)
        } else {
            0nat
        }
    }
}

/// The total number of literals, over `n` variables, of the implicants of `p` named by the indices `q`.
pub open spec fn index_literals(q: Seq<usize>, p: Seq<Implicant>, n: nat) -> nat
    decreases q.len(),
{
    if q.len() == 0 {
        0
    } else {
        index_literals(q.drop_last(), p, n) + literal_count_spec(p[q.last() as int].d, n)
    }
}

/// Counting over a union counts each index at most once; over a disjoint union, exactly once.
proof fn lemma_literals_union(a: Set<usize>, b: Set<usize>, p: Seq<Implicant>, n: nat, k: nat)
    ensures
        literals_at(a.union(b), p, n, k) <= literals_at(a, p, n, k) + literals_at(b, p, n, k),
        a.disjoint(b) ==> literals_at(a.union(b), p, n, k) == literals_at(a, p, n, k) + literals_at(b, p, n, k),
    decreases k,
{
    if k > 0 {
        lemma_literals_union(a, b, p, n, (k - 1) as nat);
        let i = (k - 1) as usize;
        if a.disjoint(b) && a.contains(i) {
            assert(!b.contains(i));
        }
    }
}

/// Counting over a subset counts no more.
proof fn lemma_literals_subset(a: Set<usize>, b: Set<usize>, p: Seq<Implicant>, n: nat, k: nat)
    requires
        a.subset_of(b),
    ensures
        literals_at(a, p, n, k) <= literals_at(b, p, n, k),
    decreases k,
{
    if k > 0 {
        lemma_literals_subset(a, b, p, n, (k - 1) as nat);
    }
}

/// A single index below `k` counts its own literals; none counts nothing.
proof fn lemma_literals_single(x: usize, p: Seq<Implicant>, n: nat, k: nat)
    requires
        k <= usize::MAX + 1,
    ensures
        literals_at(Set::empty(), p, n, k) == 0,
        literals_at(set![x], p, n, k) == if x < k {
            literal_count_spec(p[x as int].d, n)
        } else {
            0
        },
    decreases k,
{
    if k > 0 {
        lemma_literals_single(x, p, n, (k - 1) as nat);
    }
}

/// Distinct indices count, in total, as their set does.
proof fn lemma_index_literals(q: Seq<usize>, p: Seq<Implicant>, n: nat)
    requires
        q.no_duplicates(),
        p.len() <= usize::MAX,
        forall|e: int| 0 <= e < q.len() ==> #[trigger] q[e] < p.len(),
    ensures
        index_literals(q, p, n) == literals_at(q.to_set(), p, n, p.len()),
    decreases q.len(),
{
    if q.len() == 0 {
        assert(q.to_set() =~= Set::<usize>::empty());
        lemma_literals_single(0, p, n, p.len());
    } else {
        let d = q.drop_last();
        let x = q.last();
        assert forall|e: int| 0 <= e < d.len() implies #[trigger] d[e] < p.len() by {
            assert(d[e] == q[e]);
        }
        lemma_index_literals(d, p, n);
        assert(q.to_set() =~= d.to_set().union(set![x])) by {
            assert forall|y: usize| q.to_set().contains(y) implies d.to_set().union(set![x]).contains(y) by {
                let e = choose|e: int| 0 <= e < q.len() && q[e] == y;
                if e < d.len() {
                    assert(d[e] == y);
                }
            }
            assert forall|y: usize| d.to_set().union(set![x]).contains(y) implies q.to_set().contains(y) by {
                if d.to_set().contains(y) {
                    let e = choose|e: int| 0 <= e < d.len() && d[e] == y;
                    assert(q[e] == y);
                } else {
                    assert(q[q.len() - 1] == y);
                }
            }
        }
        assert(d.to_set().disjoint(set![x])) by {
            assert forall|y: usize| d.to_set().contains(y) implies !set![x].contains(y) by {
                let e = choose|e: int| 0 <= e < d.len() && d[e] == y;
                assert(q[e] == d[e]);
                assert(q[q.len() - 1] == x);
            }
        }
        lemma_literals_union(d.to_set(), set![x], p, n, p.len());
        assert(q[q.len() - 1] < p.len());
        lemma_literals_single(x, p, n, p.len());
    }
}

/// The positions in a listing `p` without repeats of the implicants of `c` count no more literals than `c` does.
proof fn lemma_positions_literals(p: Seq<Implicant>, c: Seq<Implicant>, n: nat)
    requires
        p.no_duplicates(),
        p.len() <= usize::MAX,
    ensures
        literals_at(positions_in(p, c), p, n, p.len()) <= total_literals(c, n),
    decreases c.len(),
{
    lemma_literals_single(0, p, n, p.len());
    if c.len() == 0 {
        assert(positions_in(p, c) =~= Set::<usize>::empty());
    } else {
        let d = c.drop_last();
        let x = c.last();
        lemma_positions_literals(p, d, n);
        let last = positions_in(p, seq![x]);
        assert(positions_in(p, c).subset_of(positions_in(p, d).union(last))) by {
            assert forall|i: usize| positions_in(p, c).contains(i) implies positions_in(p, d).union(last).contains(i) by {
                let e = choose|e: int| 0 <= e < c.len() && c[e] == p[i as int];
                if e < d.len() {
                    assert(d[e] == p[i as int]);
                } else {
                    assert(seq![x][0] == p[i as int]);
                }
            }
        }
        lemma_literals_subset(positions_in(p, c), positions_in(p, d).union(last), p, n, p.len());
        lemma_literals_union(positions_in(p, d), last, p, n, p.len());
        if p.contains(x) {
            let j = choose|j: int| 0 <= j < p.len() && p[j] == x;
            assert(last =~= set![j as usize]) by {
                assert forall|i: usize| last.contains(i) implies i == j as usize by {
                    assert(seq![x].contains(p[i as int]));
                    assert(p[i as int] == x);
                }
                assert(seq![x][0] == p[j]);
            }
            lemma_literals_single(j as usize, p, n, p.len());
        } else {
            assert(last =~= Set::<usize>::empty()) by {
                assert forall|i: usize| last.contains(i) implies false by {
                    assert(seq![x].contains(p[i as int]));
                    assert(p[i as int] == x);
                }
            }
        }
    }
}

/// Some element of the product `p` is one of the primes `c` of a chart row.
pub open spec fn hits(p: Seq<usize>, c: Seq<usize>) -> bool {
    exists|e: int| 0 <= e < p.len() && c.contains(#[trigger] p[e])
}

/// Some element of `v` has the contents `x`.
pub open spec fn has_copy(v: Seq<Vec<usize>>, x: Seq<usize>) -> bool {
    exists|b: int| 0 <= b < v.len() && #[trigger] v[b]@ == x
}

/// A copy of `v`.
fn copy_indices(v: &Vec<usize>) -> (r: Vec<usize>)
    ensures
        r@ == v@,
{
    let mut r: Vec<usize> = Vec::new();
    let mut i: usize = 0;
    while i < v.len()
        invariant
            i <= v.len(),
            r@ == v@.subrange(0, i as int),
        decreases v.len() - i,
    {
        r.push(v[i]);
        i += 1;
    }
    assert(v@.subrange(0, v.len() as int) == v@);
    r
}

// A product of Petrick's method, a set of prime indices, is held as a strictly ascending `Vec<usize>` rather than a
// `BTreeSet<usize>`. vstd specifies `BTreeSet`'s `new`, `insert`, `contains`, `len`, `clone` and `iter`, but not
// `is_subset`, which absorption needs, nor `sort_by_key` on a `Vec` of sets, which orders the products by size. With
// an ascending `Vec` both are written here and verified, over the same view (the set of its elements).

/// The indices of `s` are strictly ascending (so none repeats).
pub open spec fn ascending(s: Seq<usize>) -> bool {
    forall|i: int, j: int| 0 <= i < j < s.len() ==> s[i] < s[j]
}

/// Inserts `x` into the ascending set `v`, keeping it ascending and free of repeats.
#[verifier::spinoff_prover]
fn insert_sorted(v: &mut Vec<usize>, x: usize)
    ensures
        forall|e: usize| final(v)@.contains(e) <==> (old(v)@.contains(e) || e == x),
        final(v).len() <= old(v).len() + 1,
        ascending(old(v)@) ==> ascending(final(v)@),
{
    let mut pos: usize = 0;
    while pos < v.len() && v[pos] < x
        invariant
            pos <= v.len(),
            forall|j: int| 0 <= j < pos ==> v@[j] < x,
        decreases v.len() - pos,
    {
        pos += 1;
    }
    if pos < v.len() && v[pos] == x {
        return;
    }
    let ghost before = v@;
    v.insert(pos, x);
    proof {
        assert forall|e: usize| v@.contains(e) <==> (before.contains(e) || e == x) by {
            if v@.contains(e) {
                let k = choose|k: int| 0 <= k < v@.len() && v@[k] == e;
                if k < pos {
                    assert(before[k] == e);
                } else if k > pos {
                    assert(before[k - 1] == e);
                }
            }
            if before.contains(e) {
                let k = choose|k: int| 0 <= k < before.len() && before[k] == e;
                if k < pos {
                    assert(v@[k] == e);
                } else {
                    assert(v@[k + 1] == e);
                }
            }
            if e == x {
                assert(v@[pos as int] == e);
            }
        }
        if ascending(before) {
            assert forall|i: int, j: int| 0 <= i < j < v@.len() implies v@[i] < v@[j] by {
                if pos < before.len() {
                    assert(before[pos as int] > x);
                }
                if j < pos {
                    assert(v@[i] == before[i] && v@[j] == before[j]);
                } else if j == pos {
                    assert(v@[i] == before[i]);
                } else if i < pos {
                    assert(v@[i] == before[i] && v@[j] == before[j - 1]);
                } else if i == pos {
                    assert(v@[j] == before[j - 1]);
                    assert(before[pos as int] <= before[j - 1]);
                } else {
                    assert(v@[i] == before[i - 1] && v@[j] == before[j - 1]);
                }
            }
        }
    }
}

/// Every element of `r` is an element of `s`.
fn is_subset(r: &Vec<usize>, s: &Vec<usize>) -> (b: bool)
    ensures
        b == (forall|e: usize| r@.contains(e) ==> s@.contains(e)),
{
    let mut i: usize = 0;
    while i < r.len()
        invariant
            i <= r.len(),
            forall|k: int| 0 <= k < i ==> s@.contains(#[trigger] r@[k]),
        decreases r.len() - i,
    {
        if !contains_index(s, r[i]) {
            return false;
        }
        i += 1;
    }
    proof {
        assert forall|e: usize| r@.contains(e) implies s@.contains(e) by {
            let k = choose|k: int| 0 <= k < r@.len() && r@[k] == e;
        }
    }
    true
}

/// The number of the first `i` vectors of `v` whose length is `l`.
spec fn count_len(v: Seq<Vec<usize>>, l: nat, i: nat) -> nat
    decreases i,
{
    if i == 0 {
        0
    } else {
        count_len(v, l, (i - 1) as nat) + if v[i - 1].len() == l {
            1nat
        } else {
            0nat
        }
    }
}

/// The number of the first `i` vectors of `v` whose length is below `l`.
spec fn count_below(v: Seq<Vec<usize>>, l: nat, i: nat) -> nat
    decreases l,
{
    if l == 0 {
        0
    } else {
        count_below(v, (l - 1) as nat, i) + count_len(v, (l - 1) as nat, i)
    }
}

proof fn lemma_count_below_zero(v: Seq<Vec<usize>>, l: nat)
    ensures
        count_below(v, l, 0) == 0,
    decreases l,
{
    if l > 0 {
        lemma_count_below_zero(v, (l - 1) as nat);
    }
}

proof fn lemma_count_below_step(v: Seq<Vec<usize>>, l: nat, i: nat)
    requires
        i < v.len(),
    ensures
        count_below(v, l, i + 1) == count_below(v, l, i) + if v[i as int].len() < l {
            1nat
        } else {
            0nat
        },
    decreases l,
{
    if l > 0 {
        lemma_count_below_step(v, (l - 1) as nat, i);
    }
}

/// When every one of the first `i` vectors is shorter than `l`, all of them are counted.
proof fn lemma_count_below_all(v: Seq<Vec<usize>>, l: nat, i: nat)
    requires
        i <= v.len(),
        forall|b: int| 0 <= b < i ==> #[trigger] v[b].len() < l,
    ensures
        count_below(v, l, i) == i,
    decreases i,
{
    if i == 0 {
        lemma_count_below_zero(v, l);
    } else {
        lemma_count_below_all(v, l, (i - 1) as nat);
        lemma_count_below_step(v, l, (i - 1) as nat);
    }
}

/// A stable sort of `v` by length (bucketed by length, in order of first appearance within a bucket).
fn sort_by_len(v: &Vec<Vec<usize>>) -> (r: Vec<Vec<usize>>)
    ensures
        forall|a: int| 0 <= a < r.len() ==> has_copy(v@, #[trigger] r[a]@),
        forall|b: int| 0 <= b < v.len() ==> has_copy(r@, #[trigger] v[b]@),
        r.len() == v.len(),
{
    let mut max_len: usize = 0;
    let mut i: usize = 0;
    while i < v.len()
        invariant
            i <= v.len(),
            forall|b: int| 0 <= b < i ==> #[trigger] v[b].len() <= max_len,
        decreases v.len() - i,
    {
        if v[i].len() > max_len {
            max_len = v[i].len();
        }
        i += 1;
    }
    let mut r: Vec<Vec<usize>> = Vec::new();
    let mut len: usize = 0;
    proof {
        lemma_count_below_zero(v@, 0);
        assert(count_below(v@, 0, v.len() as nat) == 0);
    }
    loop
        invariant_except_break
            r.len() == count_below(v@, len as nat, v.len() as nat),
        invariant
            len <= max_len,
            forall|b: int| 0 <= b < v.len() ==> #[trigger] v[b].len() <= max_len,
            forall|a: int| 0 <= a < r.len() ==> has_copy(v@, #[trigger] r[a]@),
            forall|b: int| 0 <= b < v.len() && v[b].len() < len ==> has_copy(r@, #[trigger] v[b]@),
        ensures
            forall|a: int| 0 <= a < r.len() ==> has_copy(v@, #[trigger] r[a]@),
            forall|b: int| 0 <= b < v.len() ==> has_copy(r@, #[trigger] v[b]@),
            r.len() == v.len(),
        decreases max_len - len,
    {
        let mut i: usize = 0;
        while i < v.len()
            invariant
                i <= v.len(),
                len <= max_len,
                forall|b: int| 0 <= b < v.len() ==> #[trigger] v[b].len() <= max_len,
                forall|a: int| 0 <= a < r.len() ==> has_copy(v@, #[trigger] r[a]@),
                forall|b: int|
                    0 <= b < v.len() && (v[b].len() < len || (b < i && v[b].len() == len)) ==> has_copy(
                        r@,
                        #[trigger] v[b]@,
                    ),
                r.len() == count_below(v@, len as nat, v.len() as nat) + count_len(v@, len as nat, i as nat),
            decreases v.len() - i,
        {
            let ghost r_before = r@;
            if v[i].len() == len {
                let c = copy_indices(&v[i]);
                r.push(c);
                proof {
                    assert(v[i as int]@ == r[r.len() - 1]@);
                }
            }
            proof {
                assert forall|b: int|
                    0 <= b < v.len() && (v[b].len() < len || (b < i + 1 && v[b].len() == len)) implies has_copy(
                    r@,
                    #[trigger] v[b]@,
                ) by {
                    if b == i && v[b].len() == len {
                        assert(r@[r.len() - 1]@ == v[b]@);
                    } else {
                        let a = choose|a: int| 0 <= a < r_before.len() && #[trigger] r_before[a]@ == v[b]@;
                        assert(r@[a]@ == v[b]@);
                    }
                }
            }
            i += 1;
        }
        proof {
            assert(count_below(v@, (len + 1) as nat, v.len() as nat) == count_below(v@, len as nat, v.len() as nat)
                + count_len(v@, len as nat, v.len() as nat));
        }
        if len == max_len {
            proof {
                lemma_count_below_all(v@, (max_len + 1) as nat, v.len() as nat);
            }
            break;
        }
        len += 1;
    }
    r
}

/// The total number of literals of the primes named by `p`.
fn product_literals(p: &Vec<usize>, primes: &[Implicant], num_variables: usize) -> (r: u128)
    requires
        num_variables <= u32::MAX,
        forall|e: int| 0 <= e < p.len() ==> #[trigger] p@[e] < primes.len(),
    ensures
        r == index_literals(p@, primes@, num_variables as nat),
{
    let mut total: u128 = 0;
    let mut i: usize = 0;
    while i < p.len()
        invariant
            i <= p.len(),
            num_variables <= u32::MAX,
            forall|e: int| 0 <= e < p.len() ==> #[trigger] p@[e] < primes.len(),
            total <= i * 0x1_0000_0000,
            total == index_literals(p@.subrange(0, i as int), primes@, num_variables as nat),
        decreases p.len() - i,
    {
        let c = literal_count(&primes[p[i]], num_variables);
        proof {
            assert(p@.subrange(0, i + 1).drop_last() == p@.subrange(0, i as int));
            assert(p@.subrange(0, i + 1).last() == p@[i as int]);
        }
        proof {
            assert(total + c <= (i + 1) * 0x1_0000_0000) by (nonlinear_arith)
                requires
                    total <= i * 0x1_0000_0000,
                    c <= u32::MAX,
            ;
            assert((i + 1) * 0x1_0000_0000 <= 0x1_0000_0000_0000_0000 * 0x1_0000_0000) by (nonlinear_arith)
                requires
                    i < usize::MAX,
            ;
        }
        total = total + c as u128;
        i += 1;
    }
    proof {
        assert(p@.subrange(0, p.len() as int) == p@);
    }
    total
}

/// Strictly ascending indices repeat none.
proof fn lemma_ascending_no_dup(p: Seq<usize>)
    requires
        ascending(p),
    ensures
        p.no_duplicates(),
{
    assert forall|i: int, j: int| 0 <= i < p.len() && 0 <= j < p.len() && i != j implies p[i] != p[j] by {
        if i < j {
            assert(p[i] < p[j]);
        } else {
            assert(p[j] < p[i]);
        }
    }
}

/// `n` is the product `p` with the index `x` added.
pub open spec fn grown(n: Seq<usize>, p: Seq<usize>, x: usize) -> bool {
    extends(n, p, x) && n.len() <= p.len() + 1
}

/// `o` names the product of `products` and the index of `row` that `n` was grown from.
pub open spec fn grown_from(n: Seq<usize>, o: (int, int), products: Seq<Vec<usize>>, row: Seq<usize>) -> bool {
    &&& 0 <= o.0 < products.len()
    &&& 0 <= o.1 < row.len()
    &&& grown(n, products[o.0]@, row[o.1])
}

/// Multiplies the sum of products `products` by the sum of the indices of `row`: each product gains each index in turn.
/// The ghost results name, for each new product, the product and index it was grown from, and, for each product and
/// index, where the grown product stands.
fn expand(products: &Vec<Vec<usize>>, row: &Vec<usize>) -> (res: (
    Vec<Vec<usize>>,
    Ghost<Seq<(int, int)>>,
    Ghost<Seq<Seq<int>>>,
))
    requires
        forall|a: int| 0 <= a < products.len() ==> ascending(#[trigger] products[a]@),
    ensures
        res.0.len() == products.len() * row.len(),
        res.1@.len() == res.0.len(),
        forall|n: int| 0 <= n < res.0.len() ==> ascending(#[trigger] res.0[n]@),
        forall|n: int| 0 <= n < res.0.len() ==> grown_from(#[trigger] res.0[n]@, res.1@[n], products@, row@),
        forall|a: int, j: int|
            0 <= a < products.len() && 0 <= j < row.len() ==> 0 <= #[trigger] res.2@[a][j] < res.0.len()
                && res.1@[res.2@[a][j]] == (a, j),
{
    let mut next: Vec<Vec<usize>> = Vec::new();
    let ghost mut orig: Seq<(int, int)> = Seq::empty();
    let ghost mut place: Seq<Seq<int>> = Seq::empty();
    let mut a: usize = 0;
    while a < products.len()
        invariant
            a <= products.len(),
            forall|a2: int| 0 <= a2 < products.len() ==> ascending(#[trigger] products[a2]@),
            next.len() == a * row.len(),
            orig.len() == next.len(),
            place.len() == a,
            forall|n: int| 0 <= n < next.len() ==> ascending(#[trigger] next[n]@),
            forall|n: int| 0 <= n < next.len() ==> grown_from(#[trigger] next[n]@, orig[n], products@, row@),
            forall|a2: int, j: int|
                0 <= a2 < a && 0 <= j < row.len() ==> 0 <= #[trigger] place[a2][j] < next.len() && orig[place[a2][j]]
                    == (a2, j),
        decreases products.len() - a,
    {
        let ghost mut cur: Seq<int> = Seq::empty();
        let mut c: usize = 0;
        while c < row.len()
            invariant
                a < products.len(),
                c <= row.len(),
                forall|a2: int| 0 <= a2 < products.len() ==> ascending(#[trigger] products[a2]@),
                next.len() == a * row.len() + c,
                orig.len() == next.len(),
                place.len() == a,
                cur.len() == c,
                forall|n: int| 0 <= n < next.len() ==> ascending(#[trigger] next[n]@),
                forall|n: int| 0 <= n < next.len() ==> grown_from(#[trigger] next[n]@, orig[n], products@, row@),
                forall|a2: int, j: int|
                    0 <= a2 < a && 0 <= j < row.len() ==> 0 <= #[trigger] place[a2][j] < next.len()
                        && orig[place[a2][j]] == (a2, j),
                forall|j: int| 0 <= j < c ==> 0 <= #[trigger] cur[j] < next.len() && orig[cur[j]] == (a as int, j),
            decreases row.len() - c,
        {
            let pi = row[c];
            let mut np = copy_indices(&products[a]);
            insert_sorted(&mut np, pi);
            let ghost next_before = next@;
            let ghost orig_before = orig;
            let ghost cur_before = cur;
            next.push(np);
            proof {
                let last = next.len() - 1;
                orig = orig.push((a as int, c as int));
                cur = cur.push(last);
                assert(next[last]@ == np@);
                assert(grown_from(next[last]@, orig[last], products@, row@));
                assert forall|n: int| 0 <= n < next.len() implies ascending(#[trigger] next[n]@) by {
                    if n < last {
                        assert(next[n] == next_before[n]);
                    }
                }
                assert forall|n: int| 0 <= n < next.len() implies grown_from(#[trigger] next[n]@, orig[n], products@, row@) by {
                    if n < last {
                        assert(next[n] == next_before[n]);
                        assert(orig[n] == orig_before[n]);
                    }
                }
                assert forall|a2: int, j: int| 0 <= a2 < a && 0 <= j < row.len() implies 0 <= #[trigger] place[a2][j]
                    < next.len() && orig[place[a2][j]] == (a2, j) by {
                    assert(orig[place[a2][j]] == orig_before[place[a2][j]]);
                }
                assert forall|j: int| 0 <= j < c + 1 implies 0 <= #[trigger] cur[j] < next.len() && orig[cur[j]] == (
                    a as int,
                    j,
                ) by {
                    if j < c {
                        assert(cur[j] == cur_before[j]);
                        assert(orig[cur[j]] == orig_before[cur_before[j]]);
                    }
                }
            }
            c += 1;
        }
        let ghost place_before = place;
        proof {
            place = place.push(cur);
            assert forall|a2: int, j: int| 0 <= a2 < a + 1 && 0 <= j < row.len() implies 0 <= #[trigger] place[a2][j]
                < next.len() && orig[place[a2][j]] == (a2, j) by {
                if a2 < a {
                    assert(place[a2] == place_before[a2]);
                } else {
                    assert(place[a2] == cur);
                    assert(cur[j] == place[a2][j]);
                }
            }
            assert((a + 1) * row.len() == a * row.len() + row.len()) by (nonlinear_arith);
        }
        a += 1;
    }
    (next, Ghost(orig), Ghost(place))
}

/// Absorption: keeps, in order, each product of `sorted` that no product kept before it lies within. The ghost results
/// name, for each kept product, where it came from in `sorted`, and, for each product of `sorted`, a kept product lying
/// within it.
fn absorb(sorted: &Vec<Vec<usize>>) -> (res: (Vec<Vec<usize>>, Ghost<Seq<int>>, Ghost<Seq<int>>))
    ensures
        res.0.len() <= sorted.len(),
        sorted.len() > 0 ==> res.0.len() > 0,
        res.1@.len() == res.0.len(),
        forall|r: int|
            0 <= r < res.0.len() ==> 0 <= #[trigger] res.1@[r] < sorted.len() && res.0[r]@ == sorted[res.1@[r]]@,
        res.2@.len() == sorted.len(),
        forall|s2: int|
            0 <= s2 < sorted.len() ==> 0 <= #[trigger] res.2@[s2] < res.0.len() && within_seq(
                res.0[res.2@[s2]]@,
                sorted[s2]@,
            ),
{
    let mut reduced: Vec<Vec<usize>> = Vec::new();
    let ghost mut src: Seq<int> = Seq::empty();
    let ghost mut back: Seq<int> = Seq::empty();
    let mut s: usize = 0;
    while s < sorted.len()
        invariant
            s <= sorted.len(),
            s > 0 ==> reduced.len() > 0,
            reduced.len() <= s,
            src.len() == reduced.len(),
            forall|r: int|
                0 <= r < reduced.len() ==> 0 <= #[trigger] src[r] < sorted.len() && reduced[r]@ == sorted[src[r]]@,
            back.len() == s,
            forall|s2: int|
                0 <= s2 < s ==> 0 <= #[trigger] back[s2] < reduced.len() && within_seq(
                    reduced[back[s2]]@,
                    sorted[s2]@,
                ),
        decreases sorted.len() - s,
    {
        let mut absorbed = false;
        let ghost mut hit: int = 0;
        let mut r: usize = 0;
        while r < reduced.len()
            invariant
                r <= reduced.len(),
                s < sorted.len(),
                s > 0 ==> reduced.len() > 0,
                reduced.len() <= s,
                src.len() == reduced.len(),
                forall|r2: int|
                    0 <= r2 < reduced.len() ==> 0 <= #[trigger] src[r2] < sorted.len() && reduced[r2]@ == sorted[src[r2]]@,
                back.len() == s,
                forall|s2: int|
                    0 <= s2 < s ==> 0 <= #[trigger] back[s2] < reduced.len() && within_seq(
                        reduced[back[s2]]@,
                        sorted[s2]@,
                    ),
                absorbed ==> 0 <= hit < reduced.len() && within_seq(reduced[hit]@, sorted[s as int]@),
            decreases reduced.len() - r,
        {
            if is_subset(&reduced[r], &sorted[s]) {
                absorbed = true;
                proof {
                    hit = r as int;
                }
            }
            r += 1;
        }
        let ghost reduced_before = reduced@;
        let ghost src_before = src;
        let ghost back_before = back;
        if !absorbed {
            let c = copy_indices(&sorted[s]);
            reduced.push(c);
            proof {
                src = src.push(s as int);
                hit = reduced.len() - 1;
                assert(reduced[hit]@ == sorted[s as int]@);
            }
        }
        proof {
            back = back.push(hit);
            assert forall|r2: int| 0 <= r2 < reduced.len() implies 0 <= #[trigger] src[r2] < sorted.len() && reduced[r2]@
                == sorted[src[r2]]@ by {
                if r2 < reduced_before.len() {
                    assert(reduced[r2] == reduced_before[r2]);
                    assert(src[r2] == src_before[r2]);
                }
            }
            assert forall|s2: int| 0 <= s2 < s + 1 implies 0 <= #[trigger] back[s2] < reduced.len() && within_seq(
                reduced[back[s2]]@,
                sorted[s2]@,
            ) by {
                if s2 < s {
                    assert(back[s2] == back_before[s2]);
                    assert(reduced[back[s2]] == reduced_before[back[s2]]);
                } else {
                    assert(back[s2] == hit);
                    if absorbed {
                        assert(reduced[hit] == reduced_before[hit]);
                    }
                }
            }
        }
        s += 1;
    }
    (reduced, Ghost(src), Ghost(back))
}

/// A product kept by absorption is one of the old products with one index of the row added.
proof fn lemma_origin(
    reduced: Seq<Vec<usize>>,
    src: Seq<int>,
    sorted: Seq<Vec<usize>>,
    next: Seq<Vec<usize>>,
    orig: Seq<(int, int)>,
    products: Seq<Vec<usize>>,
    row: Seq<usize>,
    r: int,
) -> (ac: (int, int))
    requires
        0 <= r < reduced.len(),
        forall|r2: int|
            0 <= r2 < reduced.len() ==> 0 <= #[trigger] src[r2] < sorted.len() && reduced[r2]@ == sorted[src[r2]]@,
        forall|n: int| 0 <= n < sorted.len() ==> has_copy(next, #[trigger] sorted[n]@),
        forall|n: int| 0 <= n < next.len() ==> ascending(#[trigger] next[n]@),
        forall|n: int| 0 <= n < next.len() ==> grown_from(#[trigger] next[n]@, orig[n], products, row),
    ensures
        grown_from(reduced[r]@, ac, products, row),
        ascending(reduced[r]@),
{
    let s = src[r];
    assert(reduced[r]@ == sorted[s]@);
    assert(has_copy(next, sorted[s]@));
    let n = choose|n: int| 0 <= n < next.len() && #[trigger] next[n]@ == sorted[s]@;
    assert(ascending(next[n]@));
    assert(grown_from(next[n]@, orig[n], products, row));
    orig[n]
}

/// `b` is a smallest set of primes (indices into `primes`) meeting every row named by `rows`, and among the sets of its
/// size it has the fewest literals over `nv` variables.
pub open spec fn fewest_hitting(
    b: Set<usize>,
    chart: Seq<Vec<usize>>,
    rows: Seq<usize>,
    primes: Seq<Implicant>,
    nv: nat,
) -> bool {
    &&& b.finite()
    &&& hits_rows(b, chart, rows)
    &&& forall|i: usize| b.contains(i) ==> i < primes.len()
    &&& forall|h: Set<usize>|
        h.finite() && #[trigger] hits_rows(h, chart, rows) ==> b.len() <= h.len() && (b.len() == h.len()
            ==> literals_at(b, primes, nv, primes.len()) <= literals_at(h, primes, nv, primes.len()))
}

/// Petrick's method: build the product-of-sums "(prime choices for each minterm)", multiply out to sum-of-products with
/// absorption, and pick the product with the fewest primes (ties broken by fewest literals).
///
/// Every set of primes that covers the rows contains one of the products, so the chosen product is no larger than any
/// such set; and one that is no larger is itself a product, so it has no fewer literals.
fn petrick(
    selected: &mut Vec<bool>,
    chart: &Vec<Vec<usize>>,
    uncovered: &Vec<usize>,
    primes: &[Implicant],
    num_variables: usize,
)
    requires
        num_variables <= u32::MAX,
        old(selected).len() == primes.len(),
        forall|a: int, j: int|
            0 <= a < chart.len() && 0 <= j < chart[a].len() ==> #[trigger] chart[a]@[j] < primes.len(),
        rows_listed(chart@, uncovered@),
        rows_product(chart@, uncovered@) <= PETRICK_PRODUCT_LIMIT,
    ensures
        final(selected).len() == primes.len(),
        forall|p: int| 0 <= p < old(selected).len() && old(selected)@[p] ==> final(selected)@[p],
        forall|q: int|
            0 <= q < uncovered.len() ==> row_hit(chart[#[trigger] uncovered@[q] as int]@, final(selected)@),
        forall|s: Set<usize>|
            s.finite() && #[trigger] hits_rows(s, chart@, uncovered@) ==> chosen(final(selected)@).len() <= chosen(
                old(selected)@,
            ).len() + s.len(),
        forall|s: Set<usize>|
            s.finite() && #[trigger] hits_rows(s, chart@, uncovered@) && chosen(old(selected)@).len() + s.len()
                <= chosen(final(selected)@).len() ==> literals_at(
                chosen(final(selected)@),
                primes@,
                num_variables as nat,
                primes.len() as nat,
            ) <= literals_at(chosen(old(selected)@), primes@, num_variables as nat, primes.len() as nat)
                + literals_at(s, primes@, num_variables as nat, primes.len() as nat),
        exists|b: Set<usize>|
            #[trigger] fewest_hitting(b, chart@, uncovered@, primes@, num_variables as nat) && forall|p: int|
                0 <= p < final(selected).len() ==> final(selected)@[p] == (old(selected)@[p] || b.contains(
                    p as usize,
                )),
{
    let mut products: Vec<Vec<usize>> = Vec::new();
    products.push(Vec::new());
    let mut q: usize = 0;
    proof {
        assert forall|s: Set<usize>| #[trigger] hits_rows(s, chart@, uncovered@.subrange(0, 0)) implies exists|a: int|
            0 <= a < products.len() && within_set(#[trigger] products[a]@, s) by {
            assert(within_set(products[0]@, s));
        }
        assert(ascending(products[0]@));
        assert(uncovered@.subrange(0, 0).len() == 0);
    }
    while q < uncovered.len()
        invariant
            q <= uncovered.len(),
            selected@ == old(selected)@,
            selected.len() == primes.len(),
            forall|a: int, j: int|
                0 <= a < chart.len() && 0 <= j < chart[a].len() ==> #[trigger] chart[a]@[j] < primes.len(),
            rows_listed(chart@, uncovered@),
            rows_product(chart@, uncovered@) <= PETRICK_PRODUCT_LIMIT,
            products.len() >= 1,
            products.len() <= rows_product(chart@, uncovered@.subrange(0, q as int)),
            forall|a: int| 0 <= a < products.len() ==> #[trigger] products[a].len() <= q,
            forall|a: int| 0 <= a < products.len() ==> ascending(#[trigger] products[a]@),
            forall|a: int, e: int|
                0 <= a < products.len() && 0 <= e < products[a].len() ==> #[trigger] products[a]@[e]
                    < primes.len(),
            forall|a: int, b: int|
                0 <= a < products.len() && 0 <= b < q ==> hits(
                    #[trigger] products[a]@,
                    chart[#[trigger] uncovered@[b] as int]@,
                ),
            forall|s: Set<usize>| #[trigger]
                hits_rows(s, chart@, uncovered@.subrange(0, q as int)) ==> exists|a: int|
                    0 <= a < products.len() && within_set(#[trigger] products[a]@, s),
        decreases uncovered.len() - q,
    {
        let k = uncovered[q];
        let (next, Ghost(orig), Ghost(pos)) = expand(&products, &chart[k]);
        // Absorption: drop any product that is a superset of another.
        let sorted = sort_by_len(&next);
        let (reduced, Ghost(src), Ghost(back)) = absorb(&sorted);
        let ghost old_products = products@;
        let ghost row = chart[k as int]@;
        proof {
            let len_k = row.len();
            assert(chart[k as int].len() >= 1);
            assert(old_products.len() * len_k >= 1) by (nonlinear_arith)
                requires
                    old_products.len() >= 1,
                    len_k >= 1,
            ;
            assert forall|a2: int| 0 <= a2 < reduced.len() implies #[trigger] reduced[a2].len() <= q + 1 && ascending(
                reduced[a2]@,
            ) && forall|e: int| 0 <= e < reduced[a2].len() ==> #[trigger] reduced[a2]@[e] < primes.len() by {
                let ac = lemma_origin(reduced@, src, sorted@, next@, orig, old_products, row, a2);
                let p = old_products[ac.0]@;
                assert(p.len() <= q);
                assert forall|e: int| 0 <= e < reduced[a2].len() implies #[trigger] reduced[a2]@[e] < primes.len() by {
                    assert(reduced[a2]@.contains(reduced[a2]@[e]));
                    if reduced[a2]@[e] != row[ac.1] {
                        let f = choose|f: int| 0 <= f < p.len() && p[f] == reduced[a2]@[e];
                        assert(old_products[ac.0]@[f] < primes.len());
                    }
                }
            }
            assert forall|a2: int, b2: int| 0 <= a2 < reduced.len() && 0 <= b2 < q + 1 implies hits(
                #[trigger] reduced[a2]@,
                chart[#[trigger] uncovered@[b2] as int]@,
            ) by {
                let ac = lemma_origin(reduced@, src, sorted@, next@, orig, old_products, row, a2);
                let p = old_products[ac.0]@;
                let rr = reduced[a2]@;
                let crow = chart[uncovered@[b2] as int]@;
                if b2 < q {
                    assert(hits(p, crow));
                    let e = choose|e: int| 0 <= e < p.len() && crow.contains(#[trigger] p[e]);
                    assert(p.contains(p[e]));
                    assert(rr.contains(p[e]));
                    let f = choose|f: int| 0 <= f < rr.len() && rr[f] == p[e];
                    assert(crow.contains(rr[f]));
                } else {
                    assert(rr.contains(row[ac.1]));
                    let f = choose|f: int| 0 <= f < rr.len() && rr[f] == row[ac.1];
                    assert(row.contains(row[ac.1]));
                    assert(crow.contains(rr[f]));
                }
            }
            // The product count stays within the expansion of the rows so far.
            let pq = rows_product(chart@, uncovered@.subrange(0, q as int));
            lemma_rows_product_step(chart@, uncovered@, q as int);
            assert(old_products.len() * len_k <= pq * len_k) by (nonlinear_arith)
                requires
                    old_products.len() <= pq,
            ;
            assert forall|b: int| 0 <= b < uncovered.len() implies chart[#[trigger] uncovered@[b] as int]@.len() >= 1 by {
                assert(chart[uncovered@[b] as int].len() >= 1);
            }
            lemma_rows_product_prefix(chart@, uncovered@, q + 1);
            assert(reduced.len() <= rows_product(chart@, uncovered@.subrange(0, q + 1)));
            // Every set of primes meeting the rows so far contains one of the new products.
            assert forall|st: Set<usize>| #[trigger]
                hits_rows(st, chart@, uncovered@.subrange(0, q + 1)) implies exists|a2: int|
                0 <= a2 < reduced.len() && within_set(#[trigger] reduced[a2]@, st) by {
                let pre = uncovered@.subrange(0, q as int);
                let pre1 = uncovered@.subrange(0, q + 1);
                assert forall|q2: int| 0 <= q2 < pre.len() implies meets(st, chart[#[trigger] pre[q2] as int]@) by {
                    assert(pre[q2] == pre1[q2]);
                }
                assert(hits_rows(st, chart@, pre));
                let a2 = choose|a2: int| 0 <= a2 < old_products.len() && within_set(#[trigger] old_products[a2]@, st);
                assert(pre1[q as int] == k);
                assert(meets(st, chart[pre1[q as int] as int]@));
                let j = choose|j: int| 0 <= j < row.len() && st.contains(#[trigger] row[j]);
                let n = pos[a2][j];
                assert(orig[n] == (a2, j));
                assert(grown_from(next[n]@, orig[n], old_products, row));
                assert(has_copy(sorted@, next[n]@));
                let s2 = choose|s2: int| 0 <= s2 < sorted.len() && #[trigger] sorted[s2]@ == next[n]@;
                let r2 = back[s2];
                assert(within_seq(reduced[r2]@, sorted[s2]@));
                assert(within_set(reduced[r2]@, st));
            }
        }
        products = reduced;
        proof {
            assert(products.len() <= PETRICK_PRODUCT_LIMIT);
        }
        if products.len() > PETRICK_PRODUCT_LIMIT {
            // Pathological growth despite absorption: bail out to greedy.
            greedy(selected, chart, uncovered);
            return;
        }
        q += 1;
    }
    proof {
        assert(uncovered@.subrange(0, q as int) == uncovered@);
    }

    let mut best: usize = 0;
    let mut best_len: usize = products[0].len();
    let mut best_lits: u128 = product_literals(&products[0], primes, num_variables);
    let mut a: usize = 1;
    while a < products.len()
        invariant
            1 <= a <= products.len(),
            best < products.len(),
            best_len == products[best as int].len(),
            num_variables <= u32::MAX,
            forall|a2: int| 0 <= a2 < products.len() ==> #[trigger] products[a2].len() <= uncovered.len(),
            forall|a2: int, e: int|
                0 <= a2 < products.len() && 0 <= e < products[a2].len() ==> #[trigger] products[a2]@[e]
                    < primes.len(),
            forall|a2: int| 0 <= a2 < a ==> best_len <= #[trigger] products[a2].len(),
            best_lits == index_literals(products[best as int]@, primes@, num_variables as nat),
            forall|a2: int|
                0 <= a2 < a && #[trigger] products[a2].len() == best_len ==> best_lits <= index_literals(
                    products[a2]@,
                    primes@,
                    num_variables as nat,
                ),
        decreases products.len() - a,
    {
        let len = products[a].len();
        if len < best_len {
            best = a;
            best_len = len;
            best_lits = product_literals(&products[a], primes, num_variables);
        } else if len == best_len {
            let lits = product_literals(&products[a], primes, num_variables);
            if lits < best_lits {
                best = a;
                best_lits = lits;
            }
        }
        a += 1;
    }

    let mut e: usize = 0;
    while e < products[best].len()
        invariant
            best < products.len(),
            e <= products[best as int].len(),
            selected.len() == primes.len(),
            old(selected).len() == primes.len(),
            forall|p: int| 0 <= p < old(selected).len() && old(selected)@[p] ==> selected@[p],
            forall|e2: int| 0 <= e2 < products[best as int].len() ==> #[trigger] products[best as int]@[e2] < primes.len(),
            forall|e2: int| 0 <= e2 < e ==> selected@[#[trigger] products[best as int]@[e2] as int],
            forall|i: usize|
                i < selected.len() && #[trigger] selected@[i as int] ==> old(selected)@[i as int]
                    || products[best as int]@.contains(i),
        decreases products[best as int].len() - e,
    {
        let pi = products[best][e];
        let ghost selected_before = selected@;
        selected[pi] = true;
        proof {
            assert forall|p: int| 0 <= p < old(selected).len() && old(selected)@[p] implies selected@[p] by {
                assert(selected_before[p]);
            }
            assert forall|e2: int| 0 <= e2 < e + 1 implies selected@[#[trigger] products[best as int]@[e2] as int] by {
                if e2 < e {
                    assert(selected_before[products[best as int]@[e2] as int]);
                }
            }
            assert forall|i: usize| i < selected.len() && #[trigger] selected@[i as int] implies old(selected)@[i as int]
                || products[best as int]@.contains(i) by {
                if i == pi {
                    assert(products[best as int]@[e as int] == i);
                } else {
                    assert(selected_before[i as int]);
                }
            }
        }
        e += 1;
    }
    proof {
        assert forall|b: int| 0 <= b < uncovered.len() implies row_hit(
            chart[#[trigger] uncovered@[b] as int]@,
            selected@,
        ) by {
            let row = chart[uncovered@[b] as int]@;
            assert(hits(products[best as int]@, row));
            let f = choose|f: int| 0 <= f < products[best as int]@.len() && row.contains(#[trigger] products[best as int]@[f]);
            let pi = products[best as int]@[f];
            let j = choose|j: int| 0 <= j < row.len() && row[j] == pi;
            assert(selected@[row[j] as int]);
        }
        let fin = selected@;
        let old_sel = old(selected)@;
        let bp = products[best as int]@;
        lemma_chosen_finite(old_sel);
        lemma_chosen_finite(fin);
        vstd::seq_lib::seq_to_set_is_finite(bp);
        assert(chosen(fin).subset_of(chosen(old_sel).union(bp.to_set()))) by {
            assert forall|i: usize| chosen(fin).contains(i) implies chosen(old_sel).union(bp.to_set()).contains(i) by {
                assert(fin[i as int]);
            }
        }
        vstd::set_lib::lemma_len_union(chosen(old_sel), bp.to_set());
        vstd::set_lib::lemma_len_subset(chosen(fin), chosen(old_sel).union(bp.to_set()));
        bp.lemma_cardinality_of_set();
        assert forall|st: Set<usize>| st.finite() && #[trigger] hits_rows(st, chart@, uncovered@) implies chosen(fin).len()
            <= chosen(old_sel).len() + st.len() by {
            let a2 = choose|a2: int| 0 <= a2 < products.len() && within_set(#[trigger] products[a2]@, st);
            let pa = products[a2]@;
            lemma_ascending_no_dup(pa);
            pa.unique_seq_to_set();
            assert(pa.to_set().subset_of(st));
            vstd::set_lib::lemma_len_subset(pa.to_set(), st);
            assert(products[a2].len() == pa.len());
            assert(bp.len() <= pa.len());
        }
        // Among the smallest choices, the one taken has the fewest literals.
        let nv = num_variables as nat;
        let np = primes.len() as nat;
        lemma_ascending_no_dup(bp);
        bp.unique_seq_to_set();
        lemma_index_literals(bp, primes@, nv);
        lemma_literals_subset(chosen(fin), chosen(old_sel).union(bp.to_set()), primes@, nv, np);
        lemma_literals_union(chosen(old_sel), bp.to_set(), primes@, nv, np);
        assert forall|st: Set<usize>|
            st.finite() && #[trigger] hits_rows(st, chart@, uncovered@) && chosen(old_sel).len() + st.len() <= chosen(
                fin,
            ).len() implies literals_at(chosen(fin), primes@, nv, np) <= literals_at(chosen(old_sel), primes@, nv, np)
            + literals_at(st, primes@, nv, np) by {
            let a2 = choose|a2: int| 0 <= a2 < products.len() && within_set(#[trigger] products[a2]@, st);
            let pa = products[a2]@;
            lemma_ascending_no_dup(pa);
            pa.unique_seq_to_set();
            assert(pa.to_set().subset_of(st));
            vstd::set_lib::lemma_len_subset(pa.to_set(), st);
            assert(products[a2].len() == pa.len());
            assert(bp.len() <= pa.len());
            assert(pa.len() == bp.len());
            vstd::set_lib::lemma_subset_equality(pa.to_set(), st);
            lemma_index_literals(pa, primes@, nv);
        }
        // The new picks alone are a smallest set meeting the rows, with the fewest literals among those.
        let bs = bp.to_set();
        assert forall|q: int| 0 <= q < uncovered.len() implies meets(bs, chart[#[trigger] uncovered@[q] as int]@) by {
            let row = chart[uncovered@[q] as int]@;
            assert(hits(bp, row));
            let f = choose|f: int| 0 <= f < bp.len() && row.contains(#[trigger] bp[f]);
            let j = choose|j: int| 0 <= j < row.len() && row[j] == bp[f];
            assert(bs.contains(bp[f]));
        }
        assert forall|i: usize| bs.contains(i) implies i < primes.len() by {
            let e = choose|e: int| 0 <= e < bp.len() && bp[e] == i;
        }
        assert forall|h: Set<usize>| h.finite() && #[trigger] hits_rows(h, chart@, uncovered@) implies bs.len() <= h.len()
            && (bs.len() == h.len() ==> literals_at(bs, primes@, nv, np) <= literals_at(h, primes@, nv, np)) by {
            let a2 = choose|a2: int| 0 <= a2 < products.len() && within_set(#[trigger] products[a2]@, h);
            let pa = products[a2]@;
            lemma_ascending_no_dup(pa);
            pa.unique_seq_to_set();
            assert(pa.to_set().subset_of(h));
            vstd::set_lib::lemma_len_subset(pa.to_set(), h);
            assert(products[a2].len() == pa.len());
            assert(bp.len() <= pa.len());
            if bs.len() == h.len() {
                assert(pa.len() == bp.len());
                vstd::set_lib::lemma_subset_equality(pa.to_set(), h);
                lemma_index_literals(pa, primes@, nv);
            }
        }
        assert forall|p: int| 0 <= p < fin.len() implies fin[p] == (old_sel[p] || bs.contains(p as usize)) by {
            if bs.contains(p as usize) {
                let e = choose|e: int| 0 <= e < bp.len() && bp[e] == p as usize;
                assert(fin[bp[e] as int]);
            }
            if fin[p] {
                assert(old_sel[(p as usize) as int] || bp.contains(p as usize));
            }
        }
        assert(fewest_hitting(bs, chart@, uncovered@, primes@, nv));
    }
}

/// The number of rows `remaining` whose chart row lists prime `pi`.
fn count_rows(remaining: &Vec<usize>, chart: &Vec<Vec<usize>>, pi: usize) -> (r: usize)
    requires
        forall|q: int| 0 <= q < remaining.len() ==> #[trigger] remaining@[q] < chart.len(),
    ensures
        r <= remaining.len(),
        r == rows_listing(remaining@, rows_view(chart@), pi),
        (r > 0) == exists|q: int| 0 <= q < remaining.len() && chart[#[trigger] remaining@[q] as int]@.contains(pi),
{
    let mut count: usize = 0;
    let mut q: usize = 0;
    while q < remaining.len()
        invariant
            q <= remaining.len(),
            count <= q,
            count == rows_listing(remaining@.subrange(0, q as int), rows_view(chart@), pi),
            forall|q2: int| 0 <= q2 < remaining.len() ==> #[trigger] remaining@[q2] < chart.len(),
            (count > 0) == exists|q2: int| 0 <= q2 < q && chart[#[trigger] remaining@[q2] as int]@.contains(pi),
        decreases remaining.len() - q,
    {
        proof {
            assert(remaining@.subrange(0, q + 1).drop_last() == remaining@.subrange(0, q as int));
            assert(remaining@.subrange(0, q + 1).last() == remaining@[q as int]);
        }
        if contains_index(&chart[remaining[q]], pi) {
            count += 1;
        }
        q += 1;
    }
    proof {
        assert(remaining@.subrange(0, remaining.len() as int) == remaining@);
    }
    count
}

/// The chart rows, each as the sequence of its prime indices.
pub open spec fn rows_view(chart: Seq<Vec<usize>>) -> Seq<Seq<usize>> {
    chart.map_values(|v: Vec<usize>| v@)
}

/// How many of the chart rows named by `rem` list the prime `p`.
pub open spec fn rows_listing(rem: Seq<usize>, chart: Seq<Seq<usize>>, p: usize) -> nat
    decreases rem.len(),
{
    if rem.len() == 0 {
        0
    } else {
        rows_listing(rem.drop_last(), chart, p) + if chart[rem.last() as int].contains(p) {
            1nat
        } else {
            0nat
        }
    }
}

/// The rows of `rem` whose chart row does not list the prime `p`, in order.
pub open spec fn rows_without(rem: Seq<usize>, chart: Seq<Seq<usize>>, p: usize) -> Seq<usize>
    decreases rem.len(),
{
    if rem.len() == 0 {
        Seq::empty()
    } else {
        let r = rows_without(rem.drop_last(), chart, p);
        if chart[rem.last() as int].contains(p) {
            r
        } else {
            r.push(rem.last())
        }
    }
}

/// `p` is the greedy choice: an unselected prime listed by some of the rows `rem`, by as many as any unselected prime,
/// and by more than every unselected prime of a lower index.
pub open spec fn greedy_best(sel: Seq<bool>, rem: Seq<usize>, chart: Seq<Seq<usize>>, p: usize) -> bool {
    &&& p < sel.len()
    &&& !sel[p as int]
    &&& rows_listing(rem, chart, p) > 0
    &&& forall|p2: usize|
        p2 < sel.len() && !sel[p2 as int] ==> #[trigger] rows_listing(rem, chart, p2) <= rows_listing(rem, chart, p)
    &&& forall|p2: usize|
        p2 < p && !sel[p2 as int] ==> #[trigger] rows_listing(rem, chart, p2) < rows_listing(rem, chart, p)
}

/// The greedy choice among the primes not selected in `sel` for the rows `rem`: the one listed by the most rows, the
/// lowest index among equals; none when no unselected prime is listed by any row.
pub open spec fn greedy_choice(sel: Seq<bool>, rem: Seq<usize>, chart: Seq<Seq<usize>>) -> Option<usize> {
    if exists|p: usize| greedy_best(sel, rem, chart, p) {
        Some(choose|p: usize| greedy_best(sel, rem, chart, p))
    } else {
        None
    }
}

/// The greedy cover: from the selection `sel`, select the greedy choice for the rows `rem` and drop the rows it lists,
/// until no choice is left.
pub open spec fn greedy_cover(sel: Seq<bool>, rem: Seq<usize>, chart: Seq<Seq<usize>>) -> Seq<bool>
    decreases rem.len(),
{
    match greedy_choice(sel, rem, chart) {
        Some(p) => {
            let kept = rows_without(rem, chart, p);
            if kept.len() < rem.len() {
                greedy_cover(sel.update(p as int, true), kept, chart)
            } else {
                sel
            }
        },
        None => sel,
    }
}

/// The rows kept and the rows listing `p` make up all the rows.
proof fn lemma_rows_without_len(rem: Seq<usize>, chart: Seq<Seq<usize>>, p: usize)
    ensures
        rows_without(rem, chart, p).len() + rows_listing(rem, chart, p) == rem.len(),
    decreases rem.len(),
{
    if rem.len() > 0 {
        lemma_rows_without_len(rem.drop_last(), chart, p);
    }
}

/// The greedy choice is the one prime that meets its description.
proof fn lemma_greedy_choice(sel: Seq<bool>, rem: Seq<usize>, chart: Seq<Seq<usize>>, p: usize)
    requires
        greedy_best(sel, rem, chart, p),
    ensures
        greedy_choice(sel, rem, chart) == Some(p),
{
    let c = choose|q: usize| greedy_best(sel, rem, chart, q);
    assert(greedy_best(sel, rem, chart, c));
    if c < p {
        assert(rows_listing(rem, chart, c) < rows_listing(rem, chart, p));
        assert(rows_listing(rem, chart, p) <= rows_listing(rem, chart, c));
    } else if p < c {
        assert(rows_listing(rem, chart, p) < rows_listing(rem, chart, c));
        assert(rows_listing(rem, chart, c) <= rows_listing(rem, chart, p));
    }
}

/// Greedy fallback: repeatedly pick the unselected prime covering the most still-uncovered minterms (the lowest index
/// among equals) and drop the minterms it covers, until none is left.
fn greedy(selected: &mut Vec<bool>, chart: &Vec<Vec<usize>>, uncovered: &Vec<usize>)
    requires
        forall|a: int, j: int|
            0 <= a < chart.len() && 0 <= j < chart[a].len() ==> #[trigger] chart[a]@[j] < old(selected).len(),
        uncovered_ok(chart@, uncovered@, old(selected)@),
    ensures
        final(selected).len() == old(selected).len(),
        forall|p: int| 0 <= p < old(selected).len() && old(selected)@[p] ==> final(selected)@[p],
        forall|q: int|
            0 <= q < uncovered.len() ==> row_hit(chart[#[trigger] uncovered@[q] as int]@, final(selected)@),
        final(selected)@ == greedy_cover(old(selected)@, uncovered@, rows_view(chart@)),
{
    // The rows still to cover, in a `Vec` (not a `BTreeSet`): each step counts, for a prime, the rows it covers, and
    // keeps the rest, which reads the rows one by one.
    let mut remaining = copy_indices(uncovered);
    while !remaining.is_empty()
        invariant
            selected.len() == old(selected).len(),
            forall|p: int| 0 <= p < old(selected).len() && old(selected)@[p] ==> selected@[p],
            forall|a: int, j: int|
                0 <= a < chart.len() && 0 <= j < chart[a].len() ==> #[trigger] chart[a]@[j] < selected.len(),
            forall|q: int|
                0 <= q < remaining.len() ==> {
                    let k = #[trigger] remaining@[q];
                    &&& k < chart.len()
                    &&& chart[k as int].len() >= 1
                    &&& forall|j: int|
                        0 <= j < chart[k as int].len() ==> !selected@[#[trigger] chart[k as int]@[j] as int]
                },
            forall|q: int|
                0 <= q < uncovered.len() ==> remaining@.contains(#[trigger] uncovered@[q]) || row_hit(
                    chart[uncovered@[q] as int]@,
                    selected@,
                ),
            greedy_cover(selected@, remaining@, rows_view(chart@)) == greedy_cover(old(selected)@, uncovered@, rows_view(chart@)),
        ensures
            selected.len() == old(selected).len(),
            forall|p: int| 0 <= p < old(selected).len() && old(selected)@[p] ==> selected@[p],
            forall|q: int|
                0 <= q < uncovered.len() ==> row_hit(chart[#[trigger] uncovered@[q] as int]@, selected@),
            selected@ == greedy_cover(old(selected)@, uncovered@, rows_view(chart@)),
        decreases remaining.len(),
    {
        let mut best_pi: Option<usize> = None;
        let mut best_count: usize = 0;
        let ghost target = chart[remaining@[0] as int]@[0];
        proof {
            assert(target < selected.len());
            assert(!selected@[target as int]);
            assert(chart[remaining@[0] as int]@.contains(target));
        }
        let mut pi: usize = 0;
        while pi < selected.len()
            invariant
                pi <= selected.len(),
                target < selected.len(),
                !selected@[target as int],
                remaining.len() > 0,
                chart[remaining@[0] as int]@.contains(target),
                forall|q: int| 0 <= q < remaining.len() ==> #[trigger] remaining@[q] < chart.len(),
                best_pi is None ==> best_count == 0,
                best_pi matches Some(b) ==> b < selected.len() && !selected@[b as int] && best_count > 0
                    && exists|q: int| 0 <= q < remaining.len() && chart[#[trigger] remaining@[q] as int]@.contains(b),
                pi > target ==> best_pi is Some,
                best_pi matches Some(b) ==> best_count == rows_listing(remaining@, rows_view(chart@), b) && b < pi && forall|
                    p2: usize,
                | p2 < b && !selected@[p2 as int] ==> #[trigger] rows_listing(remaining@, rows_view(chart@), p2) < best_count,
                forall|p2: usize|
                    p2 < pi && !selected@[p2 as int] ==> #[trigger] rows_listing(remaining@, rows_view(chart@), p2) <= best_count,
            decreases selected.len() - pi,
        {
            if !selected[pi] {
                let count = count_rows(&remaining, chart, pi);
                if count > best_count {
                    best_count = count;
                    best_pi = Some(pi);
                }
            }
            pi += 1;
        }
        match best_pi {
            Some(pi) => {
                proof {
                    lemma_greedy_choice(selected@, remaining@, rows_view(chart@), pi);
                    lemma_rows_without_len(remaining@, rows_view(chart@), pi);
                }
                let ghost selected_before = selected@;
                selected[pi] = true;
                let ghost old_remaining = remaining@;
                let mut kept: Vec<usize> = Vec::new();
                let mut q: usize = 0;
                while q < remaining.len()
                    invariant
                        q <= remaining.len(),
                        remaining@ == old_remaining,
                        kept.len() <= q,
                        (exists|q2: int| 0 <= q2 < q && chart[#[trigger] remaining@[q2] as int]@.contains(pi))
                            ==> kept.len() < q,
                        forall|q2: int| 0 <= q2 < remaining.len() ==> #[trigger] remaining@[q2] < chart.len(),
                        forall|r: int| 0 <= r < kept.len() ==> old_remaining.contains(#[trigger] kept@[r]) && !chart[kept@[r] as int]@.contains(pi),
                        forall|q2: int| 0 <= q2 < q && !chart[#[trigger] remaining@[q2] as int]@.contains(pi) ==> kept@.contains(remaining@[q2]),
                        kept@ == rows_without(remaining@.subrange(0, q as int), rows_view(chart@), pi),
                    decreases remaining.len() - q,
                {
                    let k = remaining[q];
                    let ghost kept_before = kept@;
                    proof {
                        assert(remaining@.subrange(0, q + 1).drop_last() == remaining@.subrange(0, q as int));
                        assert(remaining@.subrange(0, q + 1).last() == remaining@[q as int]);
                    }
                    if !contains_index(&chart[k], pi) {
                        kept.push(k);
                        proof {
                            assert(kept@[kept.len() - 1] == k);
                            assert(old_remaining[q as int] == k);
                        }
                    }
                    proof {
                        assert forall|q2: int| 0 <= q2 < q + 1 && !chart[#[trigger] remaining@[q2] as int]@.contains(pi) implies kept@.contains(remaining@[q2]) by {
                            if q2 < q {
                                let r = choose|r: int| 0 <= r < kept_before.len() && kept_before[r] == remaining@[q2];
                                assert(kept@[r] == remaining@[q2]);
                            } else {
                                assert(kept@[kept.len() - 1] == remaining@[q2]);
                            }
                        }
                        assert forall|r: int| 0 <= r < kept.len() implies old_remaining.contains(#[trigger] kept@[r]) && !chart[kept@[r] as int]@.contains(pi) by {
                            if r < kept_before.len() {
                                assert(kept_before[r] == kept@[r]);
                            } else {
                                assert(old_remaining[q as int] == kept@[r]);
                            }
                        }
                    }
                    q += 1;
                }
                proof {
                    assert forall|r: int| 0 <= r < kept.len() implies {
                        let k = #[trigger] kept@[r];
                        &&& k < chart.len()
                        &&& chart[k as int].len() >= 1
                        &&& forall|j: int|
                            0 <= j < chart[k as int].len() ==> !selected@[#[trigger] chart[k as int]@[j] as int]
                    } by {
                        let k = kept@[r];
                        let q2 = choose|q2: int| 0 <= q2 < old_remaining.len() && old_remaining[q2] == k;
                        assert(remaining@[q2] == k);
                        assert forall|j: int| 0 <= j < chart[k as int].len() implies !selected@[#[trigger] chart[k as int]@[j] as int] by {
                            if chart[k as int]@[j] == pi {
                                assert(chart[k as int]@.contains(pi));
                            }
                        }
                    }
                    assert forall|q3: int| 0 <= q3 < uncovered.len() implies kept@.contains(#[trigger] uncovered@[q3]) || row_hit(
                        chart[uncovered@[q3] as int]@,
                        selected@,
                    ) by {
                        let k = uncovered@[q3];
                        if old_remaining.contains(k) {
                            let q2 = choose|q2: int| 0 <= q2 < old_remaining.len() && old_remaining[q2] == k;
                            assert(remaining@[q2] == k);
                            if chart[k as int]@.contains(pi) {
                                let j = choose|j: int| 0 <= j < chart[k as int]@.len() && chart[k as int]@[j] == pi;
                                assert(selected@[chart[k as int]@[j] as int]);
                            }
                        } else {
                            assert(row_hit(chart[k as int]@, selected_before));
                            let j = choose|j: int| 0 <= j < chart[k as int]@.len() && 0 <= chart[k as int]@[j] < selected_before.len() && selected_before[chart[k as int]@[j] as int];
                            assert(selected@[chart[k as int]@[j] as int]);
                        }
                    }
                }
                proof {
                    assert(remaining@.subrange(0, remaining.len() as int) == remaining@);
                    assert(selected@ == selected_before.update(pi as int, true));
                }
                remaining = kept;
            },
            None => {
                proof {
                    assert forall|p: usize| !greedy_best(selected@, remaining@, rows_view(chart@), p) by {
                        if p < selected.len() && !selected@[p as int] {
                            assert(rows_listing(remaining@, rows_view(chart@), p) <= best_count);
                        }
                    }
                }
                break;
            },
        }
    }
}

/// `p` lists, with no repeats, exactly the prime implicants of `s` that cover some term of `ms`.
pub open spec fn lists_primes(p: Seq<Implicant>, s: Seq<Term>, ms: Seq<Term>) -> bool {
    &&& p.no_duplicates()
    &&& forall|x: Implicant| p.contains(x) <==> is_prime(x, s) && covers_some(x, ms)
}

/// Petrick's method stays within `PETRICK_PRODUCT_LIMIT` products for the on-set `ms` and the don't-cares `dcs`: its
/// expansion over the distinct minterms, for any listing of the relevant prime implicants, has at most that many
/// products. (The size does not depend on the order of the listing.)
pub open spec fn petrick_fits(ms: Seq<Term>, dcs: Seq<Term>) -> bool {
    forall|p: Seq<Implicant>|
        #[trigger] lists_primes(p, ms + dcs, ms) ==> petrick_size(p, dedup(ms), dedup(ms).len())
            <= PETRICK_PRODUCT_LIMIT
}

/// `c` covers every term of `ms` with prime implicants of `s`.
pub open spec fn prime_cover(c: Seq<Implicant>, ms: Seq<Term>, s: Seq<Term>) -> bool {
    &&& forall|k: int| 0 <= k < c.len() ==> is_prime(#[trigger] c[k], s)
    &&& forall|m: Term| ms.contains(m) ==> covered_by(c, m)
}

/// The positions in `p` of the implicants of `c`.
pub open spec fn positions_in(p: Seq<Implicant>, c: Seq<Implicant>) -> Set<usize> {
    Set::new(|i: usize| i < p.len() && c.contains(p[i as int]))
}

/// A cover `c` by primes of `s` names, through its positions in a listing `p` of those primes, a set of positions that
/// covers the terms and is no larger than `c`.
proof fn lemma_cover_positions(p: Seq<Implicant>, c: Seq<Implicant>, ms: Seq<Term>, s: Seq<Term>)
    requires
        p.no_duplicates(),
        p.len() <= usize::MAX,
        forall|x: Implicant| is_prime(x, s) && covers_some(x, ms) ==> p.contains(x),
        prime_cover(c, ms, s),
    ensures
        positions_in(p, c).finite(),
        picks_cover(positions_in(p, c), p, ms),
        positions_in(p, c).len() <= c.len(),
{
    let st = positions_in(p, c);
    let n = p.len() as usize;
    vstd::set_lib::range_set_properties::<usize>(0, n);
    vstd::set_lib::lemma_len_subset(st, Set::<usize>::range(0, n));
    assert forall|k: int| 0 <= k < ms.len() implies #[trigger] picks(st, p, ms[k]) by {
        let m = ms[k];
        assert(ms.contains(m));
        let j = choose|j: int| 0 <= j < c.len() && #[trigger] c[j].covers_spec(m);
        assert(is_prime(c[j], s));
        assert(covers_some(c[j], ms));
        assert(p.contains(c[j]));
        let i = choose|i: int| 0 <= i < p.len() && p[i] == c[j];
        assert(c.contains(p[i]));
        assert(st.contains(i as usize));
        assert(p[(i as usize) as int].covers_spec(m));
    }
    assert(picks_cover(st, p, ms));
    let f = |i: usize| p[i as int];
    assert(vstd::relations::injective_on(f, st)) by {
        assert forall|x: usize, y: usize| st.contains(x) && st.contains(y) && #[trigger] f(x) == #[trigger] f(y) implies x == y by {
            assert(p[x as int] == p[y as int]);
        }
    }
    vstd::set_lib::lemma_map_size(st, st.map(f), f);
    assert(st.map(f).subset_of(c.to_set())) by {
        assert forall|x: Implicant| st.map(f).contains(x) implies c.to_set().contains(x) by {
            let i = choose|i: usize| st.contains(i) && f(i) == x;
        }
    }
    vstd::seq_lib::seq_to_set_is_finite(c);
    vstd::set_lib::lemma_len_subset(st.map(f), c.to_set());
    c.lemma_cardinality_of_set();
}

/// The primes kept are exactly the prime implicants that cover a minterm.
proof fn lemma_kept_lists(primes: Seq<Implicant>, kept: Seq<Implicant>, all: Seq<Term>, ms: Seq<Term>)
    requires
        forall|k: int| 0 <= k < primes.len() ==> is_prime(#[trigger] primes[k], all),
        forall|x: Implicant| is_prime(x, all) ==> primes.contains(x),
        forall|a: int| 0 <= a < kept.len() ==> primes.contains(#[trigger] kept[a]),
        forall|a: int| 0 <= a < kept.len() ==> covers_some(#[trigger] kept[a], ms),
        forall|b: int, m: Term|
            0 <= b < primes.len() && ms.contains(m) && #[trigger] primes[b].covers_spec(m) ==> kept.contains(primes[b]),
    ensures
        forall|x: Implicant| kept.contains(x) ==> is_prime(x, all) && covers_some(x, ms),
        forall|x: Implicant| is_prime(x, all) && covers_some(x, ms) ==> kept.contains(x),
{
    assert forall|x: Implicant| is_prime(x, all) && covers_some(x, ms) implies kept.contains(x) by {
        assert(primes.contains(x));
        let b = choose|b: int| 0 <= b < primes.len() && primes[b] == x;
        let m = choose|m: Term| ms.contains(m) && x.covers_spec(m);
        assert(primes[b].covers_spec(m));
    }
    assert forall|x: Implicant| kept.contains(x) implies is_prime(x, all) && covers_some(x, ms) by {
        let a = choose|a: int| 0 <= a < kept.len() && kept[a] == x;
        assert(primes.contains(kept[a]));
        let b = choose|b: int| 0 <= b < primes.len() && primes[b] == kept[a];
        assert(is_prime(primes[b], all));
        assert(covers_some(kept[a], ms));
    }
}

/// The kept primes list the prime implicants that cover a minterm, so Petrick's method fits for them whenever it fits
/// for the function; and a cover of the on-set by prime implicants covers the distinct minterms by primes of `all`.
proof fn lemma_kept_fits(kept: Seq<Implicant>, all: Seq<Term>, ms_in: Seq<Term>, dcs: Seq<Term>, ms: Seq<Term>)
    requires
        kept.no_duplicates(),
        ms == dedup(ms_in),
        forall|t: Term| all.contains(t) <==> (ms_in + dcs).contains(t),
        forall|x: Implicant| kept.contains(x) ==> is_prime(x, all) && covers_some(x, ms),
        forall|x: Implicant| is_prime(x, all) && covers_some(x, ms) ==> kept.contains(x),
    ensures
        petrick_fits(ms_in, dcs) ==> petrick_size(kept, ms, ms.len()) <= PETRICK_PRODUCT_LIMIT,
        forall|c: Seq<Implicant>| #[trigger] prime_cover(c, ms_in, ms_in + dcs) ==> prime_cover(c, ms, all),
        lists_primes(kept, ms_in + dcs, ms_in),
{
    let both = ms_in + dcs;
    lemma_dedup(ms_in);
    assert forall|x: Implicant| kept.contains(x) <==> is_prime(x, both) && covers_some(x, ms_in) by {
        if kept.contains(x) {
            lemma_prime_transfer(x, all, both);
            let m = choose|m: Term| ms.contains(m) && x.covers_spec(m);
            assert(ms_in.contains(m));
        }
        if is_prime(x, both) && covers_some(x, ms_in) {
            lemma_prime_transfer(x, both, all);
            let m = choose|m: Term| ms_in.contains(m) && x.covers_spec(m);
            assert(ms.contains(m));
        }
    }
    assert(lists_primes(kept, both, ms_in));
    assert forall|c: Seq<Implicant>| #[trigger] prime_cover(c, ms_in, both) implies prime_cover(c, ms, all) by {
        assert forall|k: int| 0 <= k < c.len() implies is_prime(#[trigger] c[k], all) by {
            lemma_prime_transfer(c[k], both, all);
        }
        assert forall|m: Term| ms.contains(m) implies covered_by(c, m) by {
            assert(ms_in.contains(m));
        }
    }
}

/// The selection from the kept primes is no larger than any cover of the minterms by prime implicants, when Petrick's
/// method runs.
proof fn lemma_kept_minimal(
    kept: Seq<Implicant>,
    all: Seq<Term>,
    ms_in: Seq<Term>,
    dcs: Seq<Term>,
    ms: Seq<Term>,
    r_len: nat,
)
    requires
        kept.no_duplicates(),
        kept.len() <= usize::MAX,
        ms == dedup(ms_in),
        forall|t: Term| all.contains(t) <==> (ms_in + dcs).contains(t),
        forall|x: Implicant| kept.contains(x) ==> is_prime(x, all) && covers_some(x, ms),
        forall|x: Implicant| is_prime(x, all) && covers_some(x, ms) ==> kept.contains(x),
        petrick_size(kept, ms, ms.len()) <= PETRICK_PRODUCT_LIMIT ==> forall|s: Set<usize>|
            s.finite() && #[trigger] picks_cover(s, kept, ms) ==> r_len <= s.len(),
    ensures
        petrick_fits(ms_in, dcs) ==> forall|c: Seq<Implicant>| #[trigger] prime_cover(c, ms_in, ms_in + dcs) ==> r_len <= c.len(),
{
    lemma_kept_fits(kept, all, ms_in, dcs, ms);
    if petrick_fits(ms_in, dcs) {
        assert forall|c: Seq<Implicant>| #[trigger] prime_cover(c, ms_in, ms_in + dcs) implies r_len <= c.len() by {
            lemma_cover_positions(kept, c, ms, all);
        }
    }
}

/// The selection from the kept primes counts no more literals than any cover of the minterms by prime implicants that
/// is no larger, when Petrick's method runs.
proof fn lemma_kept_fewest_literals(
    kept: Seq<Implicant>,
    all: Seq<Term>,
    ms_in: Seq<Term>,
    dcs: Seq<Term>,
    ms: Seq<Term>,
    r: Seq<Implicant>,
    nv: nat,
)
    requires
        kept.no_duplicates(),
        kept.len() <= usize::MAX,
        ms == dedup(ms_in),
        forall|t: Term| all.contains(t) <==> (ms_in + dcs).contains(t),
        forall|x: Implicant| kept.contains(x) ==> is_prime(x, all) && covers_some(x, ms),
        forall|x: Implicant| is_prime(x, all) && covers_some(x, ms) ==> kept.contains(x),
        petrick_size(kept, ms, ms.len()) <= PETRICK_PRODUCT_LIMIT ==> forall|s: Set<usize>|
            s.finite() && #[trigger] picks_cover(s, kept, ms) && s.len() <= r.len() ==> total_literals(r, nv)
                <= literals_at(s, kept, nv, kept.len()),
    ensures
        petrick_fits(ms_in, dcs) ==> forall|c: Seq<Implicant>|
            #[trigger] prime_cover(c, ms_in, ms_in + dcs) && c.len() <= r.len() ==> total_literals(r, nv)
                <= total_literals(c, nv),
{
    lemma_kept_fits(kept, all, ms_in, dcs, ms);
    if petrick_fits(ms_in, dcs) {
        assert forall|c: Seq<Implicant>| #[trigger] prime_cover(c, ms_in, ms_in + dcs) && c.len() <= r.len() implies total_literals(
            r,
            nv,
        ) <= total_literals(c, nv) by {
            lemma_cover_positions(kept, c, ms, all);
            lemma_positions_literals(kept, c, nv);
        }
    }
}

/// `r` is the greedy selection for the on-set `ms` and the don't-cares `dcs` whenever Petrick's method goes beyond its
/// limit: for some listing `p` of the prime implicants of `ms + dcs` that cover a term of `ms`, if Petrick's expansion
/// over the distinct terms of `ms` with the primes `p` has more than `PETRICK_PRODUCT_LIMIT` products, then `r` is the
/// greedy selection from `p`.
#[verifier::opaque]
pub open spec fn greedy_beyond_limit(r: Seq<Implicant>, ms: Seq<Term>, dcs: Seq<Term>) -> bool {
    exists|p: Seq<Implicant>|
        #[trigger] lists_primes(p, ms + dcs, ms) && (petrick_size(p, dedup(ms), dedup(ms).len())
            > PETRICK_PRODUCT_LIMIT ==> r == greedy_selection(p, dedup(ms)))
}

/// With no minterm, the empty listing lists the relevant primes, and Petrick's method stays within its limit.
proof fn lemma_empty_greedy(ms_in: Seq<Term>, dcs: Seq<Term>)
    requires
        ms_in.len() == 0,
    ensures
        greedy_beyond_limit(Seq::empty(), ms_in, dcs),
{
    reveal(greedy_beyond_limit);
    let p = Seq::<Implicant>::empty();
    assert(dedup(ms_in).len() == 0);
    assert(petrick_size(p, dedup(ms_in), 0) == 1);
    assert(lists_primes(p, ms_in + dcs, ms_in));
}

/// Beyond Petrick's limit, the selection from the kept primes is the greedy selection for a listing of the relevant
/// prime implicants.
proof fn lemma_kept_greedy(
    kept: Seq<Implicant>,
    all: Seq<Term>,
    ms_in: Seq<Term>,
    dcs: Seq<Term>,
    ms: Seq<Term>,
    r: Seq<Implicant>,
)
    requires
        kept.no_duplicates(),
        ms == dedup(ms_in),
        forall|t: Term| all.contains(t) <==> (ms_in + dcs).contains(t),
        forall|x: Implicant| kept.contains(x) ==> is_prime(x, all) && covers_some(x, ms),
        forall|x: Implicant| is_prime(x, all) && covers_some(x, ms) ==> kept.contains(x),
        greedy_when_over(r, kept, ms),
    ensures
        greedy_beyond_limit(r, ms_in, dcs),
{
    reveal(greedy_beyond_limit);
    reveal(greedy_when_over);
    lemma_kept_fits(kept, all, ms_in, dcs, ms);
    assert(lists_primes(kept, ms_in + dcs, ms_in));
}

/// The on-set followed by the don't-cares it lacks.
fn with_dont_cares(min_terms: &Vec<Term>, dont_cares: &[Term]) -> (all: Vec<Term>)
    ensures
        forall|t: Term| all@.contains(t) <==> (min_terms@.contains(t) || dont_cares@.contains(t)),
{
    // Initial implicants come from the on-set and don't-cares alike.
    let mut all: Vec<Term> = Vec::new();
    let mut i: usize = 0;
    while i < min_terms.len()
        invariant
            i <= min_terms.len(),
            all@ == min_terms@.subrange(0, i as int),
        decreases min_terms.len() - i,
    {
        all.push(min_terms[i]);
        i += 1;
    }
    assert(all@ == min_terms@);
    let mut i: usize = 0;
    while i < dont_cares.len()
        invariant
            i <= dont_cares.len(),
            forall|t: Term| min_terms@.contains(t) ==> all@.contains(t),
            forall|t: Term| all@.contains(t) ==> min_terms@.contains(t) || dont_cares@.contains(t),
            forall|k: int| 0 <= k < i ==> all@.contains(#[trigger] dont_cares@[k]),
        decreases dont_cares.len() - i,
    {
        let t = dont_cares[i];
        let mut found = false;
        let mut k: usize = 0;
        while k < all.len()
            invariant
                k <= all.len(),
                found == exists|j: int| 0 <= j < k && all@[j] == t,
            decreases all.len() - k,
        {
            if all[k] == t {
                found = true;
            }
            k += 1;
        }
        if found {
            proof {
                let j = choose|j: int| 0 <= j < all.len() && all@[j] == t;
                assert(all@.contains(dont_cares@[i as int]));
            }
        }
        if !found {
            let ghost before = all@;
            all.push(t);
            proof {
                assert(all@[all.len() - 1] == t);
                assert forall|k: int| 0 <= k < i implies all@.contains(#[trigger] dont_cares@[k]) by {
                    let j = choose|j: int| 0 <= j < before.len() && before[j] == dont_cares@[k];
                    assert(all@[j] == dont_cares@[k]);
                }
                assert forall|u: Term| before.contains(u) implies all@.contains(u) by {
                    let j = choose|j: int| 0 <= j < before.len() && before[j] == u;
                    assert(all@[j] == u);
                }
                assert forall|u: Term| all@.contains(u) implies min_terms@.contains(u) || dont_cares@.contains(u) by {
                    let j = choose|j: int| 0 <= j < all@.len() && all@[j] == u;
                    if j < before.len() {
                        assert(before[j] == u);
                    } else {
                        assert(dont_cares@[i as int] == u);
                    }
                }
            }
        }
        i += 1;
    }

    proof {
        assert forall|t: Term| dont_cares@.contains(t) implies all@.contains(t) by {
            let k = choose|k: int| 0 <= k < dont_cares.len() && dont_cares@[k] == t;
        }
    }
    all
}

/// The primes that cover some minterm, in order.
fn keep_relevant(primes: &Vec<Implicant>, min_terms: &Vec<Term>) -> (kept: Vec<Implicant>)
    requires
        all_normalized(primes@),
        primes@.no_duplicates(),
    ensures
        kept@.no_duplicates(),
        all_normalized(kept@),
        forall|a: int| 0 <= a < kept.len() ==> primes@.contains(#[trigger] kept[a]),
        forall|a: int| 0 <= a < kept.len() ==> covers_some(#[trigger] kept[a], min_terms@),
        forall|b: int, m: Term|
            0 <= b < primes.len() && min_terms@.contains(m) && #[trigger] primes@[b].covers_spec(m) ==> kept@.contains(
                primes@[b],
            ),
{
    // Drop prime implicants that cover none of the required minterms (these can arise from don't-cares only).
    let mut kept: Vec<Implicant> = Vec::new();
    let mut p: usize = 0;
    while p < primes.len()
        invariant
            p <= primes.len(),
            all_normalized(primes@),
            primes@.no_duplicates(),
            kept@.no_duplicates(),
            forall|a: int| 0 <= a < kept.len() ==> from_prefix(primes@, p as int, #[trigger] kept[a]),
            forall|a: int| 0 <= a < kept.len() ==> covers_some(#[trigger] kept[a], min_terms@),
            forall|b: int, m: Term| 0 <= b < p && min_terms@.contains(m) && #[trigger] primes@[b].covers_spec(m) ==> kept@.contains(primes@[b]),
        decreases primes.len() - p,
    {
        let mut any = false;
        let mut j: usize = 0;
        while j < min_terms.len()
            invariant
                j <= min_terms.len(),
                p < primes.len(),
                all_normalized(primes@),
                any == exists|j2: int| 0 <= j2 < j && primes@[p as int].covers_spec(#[trigger] min_terms@[j2]),
            decreases min_terms.len() - j,
        {
            if covers_term(&primes[p], min_terms[j]) {
                any = true;
            }
            j += 1;
        }
        if any {
            proof {
                assert forall|a: int| 0 <= a < kept.len() implies kept[a] != primes@[p as int] by {
                    let b = choose|b: int| 0 <= b < p && primes@[b] == kept[a];
                }
            }
            let ghost kept_before = kept@;
            kept.push(primes[p]);
            proof {
                assert(kept[kept.len() - 1] == primes@[p as int]);
                let j2 = choose|j2: int| 0 <= j2 < min_terms.len() && primes@[p as int].covers_spec(#[trigger] min_terms@[j2]);
                assert(min_terms@.contains(min_terms@[j2]));
                assert forall|a: int| 0 <= a < kept.len() implies covers_some(#[trigger] kept[a], min_terms@) by {
                    if a < kept.len() - 1 {
                        assert(kept_before[a] == kept[a]);
                        let m = choose|m: Term| min_terms@.contains(m) && kept_before[a].covers_spec(m);
                        assert(kept[a].covers_spec(m));
                    } else {
                        assert(kept[a].covers_spec(min_terms@[j2]));
                    }
                }
                assert forall|b: int, m: Term| 0 <= b < p + 1 && min_terms@.contains(m) && #[trigger] primes@[b].covers_spec(m) implies kept@.contains(primes@[b]) by {
                    if b < p {
                        let c = choose|c: int| 0 <= c < kept_before.len() && kept_before[c] == primes@[b];
                        assert(kept@[c] == primes@[b]);
                    } else {
                        assert(kept@[kept.len() - 1] == primes@[b]);
                    }
                }
                assert forall|a: int| 0 <= a < kept.len() implies from_prefix(primes@, p + 1, #[trigger] kept[a]) by {
                    if a == kept.len() - 1 {
                        assert(primes@[p as int] == kept[a]);
                    } else {
                        let b = choose|b: int| 0 <= b < p && primes@[b] == kept[a];
                        assert(primes@[b] == kept[a]);
                    }
                }
            }
        } else {
            proof {
                assert forall|m: Term| min_terms@.contains(m) implies !primes@[p as int].covers_spec(m) by {
                    let j2 = choose|j2: int| 0 <= j2 < min_terms.len() && min_terms@[j2] == m;
                    assert(!primes@[p as int].covers_spec(min_terms@[j2]));
                }
            }
        }
        p += 1;
    }
    proof {
        assert forall|a: int| 0 <= a < kept.len() implies primes@.contains(#[trigger] kept[a]) && kept[a].is_normalized() by {
            let b = choose|b: int| 0 <= b < primes.len() && primes@[b] == kept[a];
        }
    }
    kept
}

/// The terms of the on-set and don't-cares together are those of `ms_in + dcs`.
proof fn lemma_both_terms(ms_in: Seq<Term>, dcs: Seq<Term>, ms: Seq<Term>, all: Seq<Term>)
    requires
        ms == dedup(ms_in),
        forall|t: Term| all.contains(t) <==> (ms.contains(t) || dcs.contains(t)),
    ensures
        forall|t: Term| all.contains(t) <==> (ms_in + dcs).contains(t),
{
    lemma_dedup(ms_in);
    let both = ms_in + dcs;
    assert forall|t: Term| all.contains(t) <==> both.contains(t) by {
        if all.contains(t) {
            if ms.contains(t) {
                assert(ms_in.contains(t));
                let k = choose|k: int| 0 <= k < ms_in.len() && ms_in[k] == t;
                assert(both[k] == t);
            } else {
                assert(dcs.contains(t));
                let k = choose|k: int| 0 <= k < dcs.len() && dcs[k] == t;
                assert(both[ms_in.len() + k] == t);
            }
        }
        if both.contains(t) {
            let k = choose|k: int| 0 <= k < both.len() && both[k] == t;
            if k < ms_in.len() {
                assert(ms_in[k] == t);
                assert(ms_in.contains(t));
            } else {
                assert(dcs[k - ms_in.len()] == t);
            }
        }
    }
}

/// A prime implicant of `all` covering a term of `ms` is a prime implicant of `both`, which holds the same terms,
/// covering a term of `ms_in`, which holds those of `ms`.
proof fn lemma_one_selected(x: Implicant, all: Seq<Term>, both: Seq<Term>, ms: Seq<Term>, ms_in: Seq<Term>)
    requires
        is_prime(x, all),
        forall|t: Term| all.contains(t) <==> both.contains(t),
        covers_some(x, ms),
        forall|t: Term| ms.contains(t) ==> ms_in.contains(t),
    ensures
        is_prime(x, both),
        covers_some(x, ms_in),
{
    lemma_prime_transfer(x, all, both);
    let m = choose|m: Term| ms.contains(m) && x.covers_spec(m);
    assert(ms_in.contains(m));
}

/// The kept primes are prime implicants of the terms.
proof fn lemma_kept_prime(primes: Seq<Implicant>, kept: Seq<Implicant>, all: Seq<Term>)
    requires
        forall|k: int| 0 <= k < primes.len() ==> is_prime(#[trigger] primes[k], all),
        forall|a: int| 0 <= a < kept.len() ==> primes.contains(#[trigger] kept[a]),
    ensures
        forall|a: int| 0 <= a < kept.len() ==> is_prime(#[trigger] kept[a], all),
{
    assert forall|a: int| 0 <= a < kept.len() implies is_prime(#[trigger] kept[a], all) by {
        assert(primes.contains(kept[a]));
        let b = choose|b: int| 0 <= b < primes.len() && primes[b] == kept[a];
        assert(is_prime(primes[b], all));
    }
}

/// The selected implicants are prime implicants of the terms, each covering a minterm.
proof fn lemma_selection_primes(
    ms_in: Seq<Term>,
    dcs: Seq<Term>,
    ms: Seq<Term>,
    all: Seq<Term>,
    kept: Seq<Implicant>,
    r: Seq<Implicant>,
)
    requires
        forall|t: Term| ms.contains(t) ==> ms_in.contains(t),
        forall|t: Term| all.contains(t) <==> (ms_in + dcs).contains(t),
        forall|a: int| 0 <= a < kept.len() ==> is_prime(#[trigger] kept[a], all),
        forall|a: int| 0 <= a < kept.len() ==> covers_some(#[trigger] kept[a], ms),
        forall|k: int| 0 <= k < r.len() ==> kept.contains(#[trigger] r[k]),
    ensures
        forall|k: int| 0 <= k < r.len() ==> is_prime(#[trigger] r[k], ms_in + dcs),
        forall|k: int| 0 <= k < r.len() ==> covers_some(#[trigger] r[k], ms_in),
{
    assert forall|k: int| 0 <= k < r.len() implies is_prime(#[trigger] r[k], ms_in + dcs) && covers_some(r[k], ms_in) by {
        assert(kept.contains(r[k]));
        let a = choose|a: int| 0 <= a < kept.len() && kept[a] == r[k];
        assert(is_prime(kept[a], all));
        assert(covers_some(kept[a], ms));
        lemma_one_selected(r[k], all, ms_in + dcs, ms, ms_in);
    }
}

/// The selection covers every minterm and is not empty.
proof fn lemma_selection_covers(ms_in: Seq<Term>, ms: Seq<Term>, r: Seq<Implicant>)
    requires
        ms.len() > 0,
        forall|t: Term| ms_in.contains(t) ==> ms.contains(t),
        forall|k: int| 0 <= k < ms.len() ==> covered_by(r, #[trigger] ms[k]),
    ensures
        r.len() > 0,
        forall|m: Term| ms_in.contains(m) ==> covered_by(r, m),
{
    assert forall|m: Term| ms_in.contains(m) implies covered_by(r, m) by {
        assert(ms.contains(m));
        let a = choose|a: int| 0 <= a < ms.len() && ms[a] == m;
        assert(covered_by(r, ms[a]));
    }
    assert(covered_by(r, ms[0]));
}

/// A prime implicant of the terms is normalized and covers only terms of the on-set or the don't-cares.
proof fn lemma_prime_terms(r: Seq<Implicant>, ms_in: Seq<Term>, dcs: Seq<Term>)
    requires
        forall|k: int| 0 <= k < r.len() ==> is_prime(#[trigger] r[k], ms_in + dcs),
    ensures
        forall|k: int| 0 <= k < r.len() ==> (#[trigger] r[k]).is_normalized(),
        forall|k: int, t: Term| 0 <= k < r.len() && #[trigger] r[k].covers_spec(t) ==> ms_in.contains(t) || dcs.contains(t),
{
    assert forall|k: int, t: Term| 0 <= k < r.len() && #[trigger] r[k].covers_spec(t) implies ms_in.contains(t)
        || dcs.contains(t) by {
        assert(is_prime(r[k], ms_in + dcs));
        assert((ms_in + dcs).contains(t));
        let i = choose|i: int| 0 <= i < (ms_in + dcs).len() && (ms_in + dcs)[i] == t;
        if i < ms_in.len() {
            assert(ms_in[i] == t);
        } else {
            assert(dcs[i - ms_in.len()] == t);
        }
    }
}

/// Minimizes a boolean function given its on-set (`min_terms`) and don't-care set over `num_variables` variables,
/// returning a set of prime implicants covering the on-set.
///
/// The set is minimal (no cover of the on-set by prime implicants has fewer), and has the fewest literals among the
/// covers of its size, whenever Petrick's method stays within `PETRICK_PRODUCT_LIMIT` products. Beyond that the result
/// is the greedy selection (see [`greedy_beyond_limit`]): the essential primes, then, one at a time, the prime covering
/// the most minterms still uncovered (the first among equals), listed in the order of the primes; neither minimality
/// nor the literal count is then guaranteed.
///
/// An empty on-set yields an empty result (the constant `false`).
#[verifier::spinoff_prover]
#[verifier::rlimit(100)]
pub fn minimize(min_terms: &[Term], dont_cares: &[Term], num_variables: usize) -> (r: Vec<Implicant>)
    requires
        num_variables <= u32::MAX,
    ensures
        r.len() == 0 <==> min_terms.len() == 0,
        forall|m: Term| min_terms@.contains(m) ==> covered_by(r@, m),
        forall|k: int, t: Term|
            0 <= k < r.len() && #[trigger] r[k].covers_spec(t) ==> min_terms@.contains(t) || dont_cares@.contains(t),
        forall|k: int| 0 <= k < r.len() ==> (#[trigger] r[k]).is_normalized(),
        forall|k: int| 0 <= k < r.len() ==> exists|m: Term| min_terms@.contains(m) && (#[trigger] r[k]).covers_spec(m),
        r@.no_duplicates(),
        forall|k: int| 0 <= k < r.len() ==> is_prime(#[trigger] r[k], min_terms@ + dont_cares@),
        petrick_fits(min_terms@, dont_cares@) ==> forall|c: Seq<Implicant>|
            #[trigger] prime_cover(c, min_terms@, min_terms@ + dont_cares@) ==> r.len() <= c.len(),
        petrick_fits(min_terms@, dont_cares@) ==> forall|c: Seq<Implicant>|
            #[trigger] prime_cover(c, min_terms@, min_terms@ + dont_cares@) && c.len() <= r.len() ==> total_literals(
                r@,
                num_variables as nat,
            ) <= total_literals(c, num_variables as nat),
        greedy_beyond_limit(r@, min_terms@, dont_cares@),
{
    let min_terms_in = min_terms;
    let min_terms = unique(min_terms_in);
    proof {
        lemma_dedup(min_terms_in@);
    }
    if min_terms.is_empty() {
        proof {
            if min_terms_in.len() > 0 {
                assert(min_terms_in@.contains(min_terms_in@[0]));
                assert(min_terms@.contains(min_terms_in@[0]));
            }
        }
        let none: Vec<Implicant> = Vec::new();
        proof {
            assert(min_terms_in@.len() == 0) by {
                if min_terms_in.len() > 0 {
                    assert(min_terms_in@.contains(min_terms_in@[0]));
                    assert(min_terms@.contains(min_terms_in@[0]));
                }
            }
            lemma_empty_greedy(min_terms_in@, dont_cares@);
            assert(greedy_beyond_limit(none@, min_terms_in@, dont_cares@));
        }
        return none;
    }

    // Initial implicants come from the on-set and don't-cares alike.
    let all = with_dont_cares(&min_terms, dont_cares);
    let primes = prime_implicants(all.as_slice());
    // Drop prime implicants that cover none of the required minterms (these can arise from don't-cares only).
    let kept = keep_relevant(&primes, &min_terms);
    proof {
        assert forall|a: int| 0 <= a < min_terms.len() implies covered_by(kept@, #[trigger] min_terms@[a]) by {
            let m = min_terms@[a];
            assert(min_terms@.contains(m));
            assert(all@.contains(m));
            let b = choose|b: int| 0 <= b < primes.len() && primes@[b].covers_spec(m);
            assert(kept@.contains(primes@[b]));
            let c = choose|c: int| 0 <= c < kept.len() && kept@[c] == primes@[b];
            assert(kept@[c].covers_spec(m));
        }
    }
    let r = select(kept.as_slice(), min_terms.as_slice(), num_variables);
    proof {
        assert(kept@.len() == kept.len());
        lemma_both_terms(min_terms_in@, dont_cares@, min_terms@, all@);
        lemma_dedup(min_terms_in@);
        lemma_kept_prime(primes@, kept@, all@);
        lemma_selection_primes(min_terms_in@, dont_cares@, min_terms@, all@, kept@, r@);
        lemma_selection_covers(min_terms_in@, min_terms@, r@);
        lemma_prime_terms(r@, min_terms_in@, dont_cares@);
        lemma_kept_lists(primes@, kept@, all@, min_terms@);
        lemma_kept_minimal(kept@, all@, min_terms_in@, dont_cares@, min_terms@, r.len() as nat);
        lemma_kept_fewest_literals(kept@, all@, min_terms_in@, dont_cares@, min_terms@, r@, num_variables as nat);
        lemma_kept_greedy(kept@, all@, min_terms_in@, dont_cares@, min_terms@, r@);
        assert(greedy_beyond_limit(r@, min_terms_in@, dont_cares@));
    }
    r
}

} // verus!
