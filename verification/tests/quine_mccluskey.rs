use std::collections::BTreeSet;

use beast::quine_mccluskey::{combine, covers_term, is_power_of_2, minimize, Implicant, Term};

fn as_set(implicants: &[Implicant]) -> BTreeSet<(Term, Term)> {
    implicants.iter().map(|i| (i.v, i.d)).collect()
}

// Evaluates a cover at a given input.
fn cover_value(implicants: &[Implicant], t: Term) -> bool {
    implicants.iter().any(|i| covers_term(i, t))
}

#[test]
fn power_of_two() {
    assert!(is_power_of_2(1));
    assert!(is_power_of_2(8));
    assert!(!is_power_of_2(0));
    assert!(!is_power_of_2(3));
}

#[test]
fn combine_eliminates_differing_bit() {
    let a = Implicant { v: 0b00, d: 0 };
    let b = Implicant { v: 0b01, d: 0 };
    let c = combine(&a, &b);
    assert_eq!(c.d, 0b01);
    assert_eq!(c.v, 0b00);
}

#[test]
fn minterm_zero_does_not_panic() {
    // Regression for the old minterm-0 index underflow.
    let result = minimize(&[0], &[], 1);
    assert!(!result.is_empty());
    assert!(cover_value(&result, 0));
    assert!(!cover_value(&result, 1));
}

#[test]
fn single_variable() {
    // f = x0 -> minterm {1} over 1 var.
    let result = minimize(&[1], &[], 1);
    assert_eq!(as_set(&result), [(1, 0)].into_iter().collect());
}

#[test]
fn merges_into_one_literal() {
    // minterms {2, 3} over 2 vars -> x1 (v=2, d=1).
    let result = minimize(&[2, 3], &[], 2);
    assert_eq!(as_set(&result), [(2, 1)].into_iter().collect());
}

#[test]
fn all_ones_is_tautology() {
    // Every minterm over 2 vars -> single implicant covering all (v=0, d=11).
    let result = minimize(&[0, 1, 2, 3], &[], 2);
    assert_eq!(result.len(), 1);
    assert_eq!(result[0].d, 0b11);
    for t in 0..4 {
        assert!(cover_value(&result, t));
    }
}

#[test]
fn textbook_cyclic_chart() {
    // Classic cyclic prime-implicant chart: {0,1,2,5,6,7} over 3 vars has no
    // essential PIs and a minimal cover of three implicants.
    let min_terms = [0, 1, 2, 5, 6, 7];
    let result = minimize(&min_terms, &[], 3);
    assert_eq!(result.len(), 3, "minimal cover should be 3 implicants");
    // The cover must reproduce the on-set exactly.
    for t in 0..8 {
        assert_eq!(cover_value(&result, t), min_terms.contains(&t));
    }
}

#[test]
fn dont_cares_are_used_but_not_required() {
    // f with minterm {1}, don't-care {3} over 2 vars -> x0 (v=1, d=2).
    let result = minimize(&[1], &[3], 2);
    assert!(cover_value(&result, 1));
    // The result need not cover the don't-care's complement region beyond
    // what helps; but it must cover minterm 1 and not minterm 0.
    assert!(!cover_value(&result, 0));
}

#[test]
fn empty_on_set_is_empty() {
    assert!(minimize(&[], &[], 3).is_empty());
    assert!(minimize(&[], &[1, 2], 3).is_empty());
}

// ---------------------------------------------------------------------------------------------------------------------
// Further cases.

#[test]
fn minimize_covers_exactly_the_on_set_and_drops_duplicates() {
    // Duplicated minterms are read once; every implicant is distinct and covers only on-set terms.
    let min_terms = [3, 3, 7, 5, 7];
    let result = minimize(&min_terms, &[], 3);
    for t in 0..8 {
        assert_eq!(cover_value(&result, t), min_terms.contains(&t));
    }
    let set = as_set(&result);
    assert_eq!(set.len(), result.len());
    // x0 & x2 and x0 & x1 cover {3, 5, 7}.
    assert_eq!(set, [(3, 4), (5, 2)].into_iter().collect());
}

#[test]
fn covers_term_reads_only_the_care_bits() {
    let i = Implicant { v: 0b100, d: 0b011 };
    for t in 0..8u32 {
        assert_eq!(covers_term(&i, t), t >= 4);
    }
    // Bits above the don't-care mask must match too.
    assert!(!covers_term(&i, 0b1100));
}

#[test]
fn combine_of_wider_implicants_keeps_the_old_dont_cares() {
    let a = Implicant { v: 0b000, d: 0b100 };
    let b = Implicant { v: 0b010, d: 0b100 };
    let c = combine(&a, &b);
    assert_eq!(c, Implicant { v: 0, d: 0b110 });
}

#[test]
fn large_chart_falls_back_and_still_covers() {
    // Every odd-parity term over five variables: no two are adjacent, so every minterm is its own prime implicant.
    let min_terms: Vec<u32> = (0..32u32).filter(|t| t.count_ones() % 2 == 1).collect();
    let result = minimize(&min_terms, &[], 5);
    assert_eq!(result.len(), min_terms.len());
    for t in 0..32 {
        assert_eq!(cover_value(&result, t), min_terms.contains(&t));
    }
}

#[test]
fn every_selected_implicant_is_prime() {
    // For every function of four variables given by a mask of on-set and don't-care terms, no returned implicant can
    // drop one more literal and still cover only on-set and don't-care terms.
    for seed in 0u32..200 {
        let on: Vec<u32> = (0..16u32).filter(|t| (seed.wrapping_mul(2654435761) >> t) & 1 == 1).collect();
        let dc: Vec<u32> = (0..16u32).filter(|t| !on.contains(t) && (seed.wrapping_mul(40503) >> t) & 3 == 0).collect();
        let result = minimize(&on, &dc, 4);
        let allowed = |t: u32| on.contains(&t) || dc.contains(&t);
        for imp in &result {
            for t in 0..16u32 {
                if covers_term(imp, t) {
                    assert!(allowed(t));
                }
            }
            for b in 0..4u32 {
                let bit = 1u32 << b;
                if imp.d & bit == 0 {
                    let wider = Implicant { v: imp.v & !bit, d: imp.d | bit };
                    let stays = (0..16u32).filter(|&t| covers_term(&wider, t)).all(allowed);
                    assert!(!stays, "{:?} is not prime for on {:?} dc {:?}", imp, on, dc);
                }
            }
        }
        for &t in &on {
            assert!(cover_value(&result, t));
        }
    }
}

// The smallest number of prime implicants of `on` that covers every term of `on`, found by trying every subset of the
// prime implicants in order of size.
fn smallest_prime_cover(on: &[Term], bits: u32) -> usize {
    let full: Term = (1 << bits) - 1;
    let mut primes: Vec<Implicant> = Vec::new();
    for d in 0..=full {
        for v in 0..=full {
            if v & d != 0 {
                continue;
            }
            let imp = Implicant { v, d };
            let implicant = (0..=full).all(|t| !covers_term(&imp, t) || on.contains(&t));
            if !implicant {
                continue;
            }
            // Prime: widening any fixed bit leaves the on-set.
            let prime = (0..bits).filter(|b| d & (1 << b) == 0).all(|b| {
                let wider = Implicant { v: v & !(1 << b), d: d | (1 << b) };
                !(0..=full).all(|t| !covers_term(&wider, t) || on.contains(&t))
            });
            if prime {
                primes.push(imp);
            }
        }
    }
    for size in 0..=primes.len() {
        let mut found = false;
        for mask in 0u32..(1u32 << primes.len()) {
            if mask.count_ones() as usize != size {
                continue;
            }
            let chosen: Vec<Implicant> =
                (0..primes.len()).filter(|i| mask & (1 << i) != 0).map(|i| primes[i]).collect();
            if on.iter().all(|&t| cover_value(&chosen, t)) {
                found = true;
                break;
            }
        }
        if found {
            return size;
        }
    }
    primes.len()
}

#[test]
fn minimize_is_minimal_for_every_three_variable_function() {
    for f in 0u32..256 {
        let on: Vec<Term> = (0..8).filter(|t| f & (1 << t) != 0).collect();
        let result = minimize(&on, &[], 3);
        assert_eq!(result.len(), smallest_prime_cover(&on, 3), "function {:#010b}", f);
        for t in 0..8 {
            assert_eq!(cover_value(&result, t), on.contains(&t), "function {:#010b} at {}", f, t);
        }
    }
}

#[test]
fn minimize_is_minimal_on_a_four_variable_cyclic_function() {
    // Every minterm here is covered by exactly two prime implicants, so no prime is essential and Petrick's method
    // decides the whole cover.
    let on: Vec<Term> = vec![0, 1, 2, 5, 6, 7, 8, 9, 10, 13, 14, 15];
    let result = minimize(&on, &[], 4);
    assert_eq!(result.len(), smallest_prime_cover(&on, 4));
    for t in 0..16 {
        assert_eq!(cover_value(&result, t), on.contains(&t));
    }
}

fn literals(imp: &Implicant, bits: u32) -> usize {
    (0..bits).filter(|b| imp.d & (1 << b) == 0).count()
}

// Among the covers of `on` by prime implicants of `on` and `dc` together, the smallest size and, at that size, the
// fewest literals, found by trying every subset of the prime implicants.
fn best_prime_cover(on: &[Term], dc: &[Term], bits: u32) -> (usize, usize) {
    let full: Term = (1 << bits) - 1;
    let allowed = |t: Term| on.contains(&t) || dc.contains(&t);
    let mut primes: Vec<Implicant> = Vec::new();
    for d in 0..=full {
        for v in 0..=full {
            if v & d != 0 {
                continue;
            }
            let imp = Implicant { v, d };
            if !(0..=full).all(|t| !covers_term(&imp, t) || allowed(t)) {
                continue;
            }
            let prime = (0..bits).filter(|b| d & (1 << b) == 0).all(|b| {
                let wider = Implicant { v: v & !(1 << b), d: d | (1 << b) };
                !(0..=full).all(|t| !covers_term(&wider, t) || allowed(t))
            });
            if prime {
                primes.push(imp);
            }
        }
    }
    let mut best: Option<(usize, usize)> = None;
    for mask in 0u32..(1u32 << primes.len()) {
        let chosen: Vec<Implicant> = (0..primes.len()).filter(|i| mask & (1 << i) != 0).map(|i| primes[i]).collect();
        if !on.iter().all(|&t| cover_value(&chosen, t)) {
            continue;
        }
        let key = (chosen.len(), chosen.iter().map(|imp| literals(imp, bits)).sum::<usize>());
        if best.map_or(true, |b| key < b) {
            best = Some(key);
        }
    }
    best.unwrap()
}

#[test]
fn minimize_takes_the_fewest_literals_among_the_smallest_covers() {
    for f in 0u32..256 {
        let on: Vec<Term> = (0..8).filter(|t| f & (1 << t) != 0).collect();
        let dc_bits = f.wrapping_mul(37).wrapping_add(11) & !f & 0xff;
        let dc: Vec<Term> = (0..8).filter(|t| dc_bits & (1 << t) != 0).collect();
        let result = minimize(&on, &dc, 3);
        let lits: usize = result.iter().map(|imp| literals(imp, 3)).sum();
        assert_eq!((result.len(), lits), best_prime_cover(&on, &dc, 3), "on {:?} dc {:?}", on, dc);
    }
}

#[test]
fn minimize_prefers_the_cover_with_fewer_literals() {
    // The minterm 0 with the don't-cares 1, 2, 3 and 4 is covered by either of two prime implicants, 0-1-2-3 (one
    // literal) and 0-4 (two literals); neither is essential, and the choice takes the one with fewer literals.
    let result = minimize(&[0], &[1, 2, 3, 4], 3);
    assert_eq!(result, vec![Implicant { v: 0, d: 0b011 }]);
}
