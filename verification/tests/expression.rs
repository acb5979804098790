use std::rc::Rc;

use beast::algebraic::parse_algebraic;
use beast::quine_mccluskey::Implicant;
use beast::variable_table::VariableTable;
use beast::{expression_to_minterms, implicant_to_product_term, simplify, simplify_algebraic};
use beast::{AlgebraicStyle, Expression, ProductTerm};

// Helper: a single-literal product term over `width` variables.
fn literal(index: usize, width: usize, positive: bool) -> ProductTerm {
    let mut terms = vec![false; width];
    let mut mask = vec![false; width];
    terms[index] = positive;
    mask[index] = true;
    ProductTerm { terms, mask }
}

#[test]
fn product_term_and_combines_literals() {
    let mut a = literal(0, 2, true);
    a.and_assign(&literal(1, 2, true));
    assert_eq!(a.to_algebraic(&VariableTable::new(), AlgebraicStyle::Code), "$x0 & $x1");
}

#[test]
fn product_term_and_conflict_is_false() {
    let mut a = literal(0, 2, true);
    a.and_assign(&literal(0, 2, false)); // x0 & !x0
    assert!(a.is_false());
}

#[test]
fn expression_or_concatenates() {
    let e = Expression::new(vec![literal(0, 1, true)]);
    let f = Expression::new(vec![literal(0, 1, false)]);
    let g = e | &f;
    assert_eq!(g.product_terms().len(), 2);
}

#[test]
fn expression_and_distributes() {
    // (x0) & (x1) -> x0 & x1
    let e = Expression::new(vec![literal(0, 2, true)]);
    let f = Expression::new(vec![literal(1, 2, true)]);
    let g = e & &f;
    assert_eq!(g.to_algebraic_styled(AlgebraicStyle::Code), "$x0 & $x1");
}

#[test]
fn inverse_obeys_de_morgan() {
    // !(x0) == !x0
    let e = Expression::new(vec![literal(0, 1, true)]);
    assert_eq!(e.inverse().to_algebraic_styled(AlgebraicStyle::Code), "!$x0");
    // !true == false, !false == true
    assert!(Expression::constant_true().inverse().is_false());
    assert!(Expression::constant_false().inverse().is_true());
}

#[test]
fn minterm_round_trip_preserves_truth_table() {
    // (x0 & x1) | (x0 & !x1) over 2 vars -> x0 true -> minterms {1, 3}.
    let mut c0 = literal(0, 2, true);
    c0.and_assign(&literal(1, 2, true));
    let mut c1 = literal(0, 2, true);
    c1.and_assign(&literal(1, 2, false));
    let e = Expression::new(vec![c0, c1]);
    let minterms = expression_to_minterms(&e, 2);
    assert_eq!(minterms, vec![1, 3]);
}

#[test]
fn and_assign_swaps_to_widen_shorter_product_term() {
    // The lhs is narrower than the rhs: the wider operand must survive.
    let mut narrow = literal(0, 1, true); // width 1
    narrow.and_assign(&literal(2, 3, true)); // width 3
    assert_eq!(narrow.to_algebraic(&VariableTable::new(), AlgebraicStyle::Code), "$x0 & $x2");
}

#[test]
fn default_expression_is_false() {
    let e = Expression::default();
    assert!(e.is_false());
    assert!(!e.is_true());
    assert_eq!(e.product_terms().len(), 0);
}

#[test]
fn implicant_to_product_term_maps_care_bits_only() {
    // Implicant "x1" over 2 vars: bit 1 fixed to 1, bit 0 don't-care.
    let imp = Implicant { v: 0b10, d: 0b01 };
    let c = implicant_to_product_term(&imp, 2);
    assert_eq!(c.mask, vec![false, true]);
    assert!(c.terms[1]);
}

#[test]
fn expression_equality_ignores_table() {
    // Logical identity is product term equality; the table is serialization metadata only.
    let a = Expression::new(vec![literal(0, 1, true)]);
    let mut table = VariableTable::new();
    table.index_of("a").unwrap();
    let b = Expression::new(vec![literal(0, 1, true)]).with_table(Rc::new(table));
    assert_eq!(a, b);
}

#[test]
fn simplify_collapses_redundant_product_terms() {
    // x0 | x0 -> x0 (table with one variable so num_vars == 1).
    let mut table = VariableTable::new();
    table.index_of("a").unwrap();
    let e = Expression::new(vec![literal(0, 1, true), literal(0, 1, true)]).with_table(Rc::new(table));
    let s = simplify(&e);
    assert_eq!(s.to_algebraic(), "a");
}

#[test]
fn algebraic_styles_pick_operators_and_whitespace() {
    // (a & !b) | c over single-letter vars a, b, c.
    let mut table = VariableTable::new();
    for n in ["a", "b", "c"] {
        table.index_of(n).unwrap();
    }
    let mut term = literal(0, 3, true);
    term.and_assign(&literal(1, 3, false)); // a & !b
    let e = Expression::new(vec![term, literal(2, 3, true)]).with_table(Rc::new(table));

    assert_eq!(e.to_algebraic_styled(AlgebraicStyle::Common), "ab\u{0305} + c");
    assert_eq!(e.to_algebraic_styled(AlgebraicStyle::Code), "a & !b | c");
    assert_eq!(e.to_algebraic_styled(AlgebraicStyle::Logic), "a \u{2227} \u{00AC}b \u{2228} c");
    // The default style is `Common`.
    assert_eq!(e.to_algebraic(), "ab\u{0305} + c");
}

#[test]
fn common_style_prefixes_and_spaces_multichar_names() {
    let mut table = VariableTable::new();
    table.index_of("velocity").unwrap(); // 0
    table.index_of("a").unwrap(); // 1
    table.index_of("pressure").unwrap(); // 2

    // velocity & pressure: the leading `$` of `$pressure` delimits, so the two `$`-names need no separating space.
    let mut both = literal(0, 3, true);
    both.and_assign(&literal(2, 3, true));
    let e = Expression::new(vec![both]).with_table(Rc::new(table.clone()));
    assert_eq!(e.to_algebraic_styled(AlgebraicStyle::Common), "$velocity$pressure");

    // velocity & a: a `$`-name before a single letter needs a space, else `$velocity` would swallow the `a`.
    let mut mixed = literal(0, 3, true);
    mixed.and_assign(&literal(1, 3, true));
    let e = Expression::new(vec![mixed]).with_table(Rc::new(table));
    assert_eq!(e.to_algebraic_styled(AlgebraicStyle::Common), "$velocity a");
}

#[test]
fn every_style_round_trips_to_the_same_expression() {
    // Cover single + multi-character names, negation, both adjacency directions (multi→single and single→multi), and
    // the constants.
    for src in ["a + b", "ab!c + d", "$velocity & !$pressure + a", "$x1 $x2 + !$x1 c", "a$bc", "!a", "1", "0"] {
        let mut table = VariableTable::new();
        let expr = parse_algebraic(src, &mut table).unwrap().with_table(Rc::new(table));
        for style in [AlgebraicStyle::Common, AlgebraicStyle::Code, AlgebraicStyle::Logic] {
            let rendered = expr.to_algebraic_styled(style);
            let mut t2 = VariableTable::new();
            let reparsed = parse_algebraic(&rendered, &mut t2)
                .unwrap_or_else(|e| panic!("{style:?} output {rendered:?} of {src:?} failed to parse: {e}"));
            // Expression equality is product term equality (the table is ignored).
            assert_eq!(expr, reparsed, "style {style:?} of {src:?} via {rendered:?}");
        }
    }
}

// ---------------------------------------------------------------------------------------------------------------------
// Further cases.

#[test]
fn constants_render_as_one_and_zero() {
    assert_eq!(Expression::constant_true().to_algebraic(), "1");
    assert_eq!(Expression::constant_false().to_algebraic(), "0");
    assert!(Expression::constant_true().is_true());
    assert!(Expression::constant_false().is_false());
}

#[test]
fn table_less_names_are_synthesized_in_decimal() {
    let e = Expression::new(vec![literal(12, 13, false)]);
    assert_eq!(e.to_algebraic(), "~$x12");
    assert_eq!(e.to_algebraic_styled(AlgebraicStyle::Logic), "\u{00AC}$x12");
}

#[test]
fn a_false_sentinel_is_skipped_when_rendering() {
    let e = Expression::new(vec![
        literal(0, 1, true),
        ProductTerm { terms: vec![], mask: vec![] },
        literal(1, 2, false),
    ]);
    assert_eq!(e.to_algebraic_styled(AlgebraicStyle::Code), "$x0 | !$x1");
}

#[test]
fn an_empty_conjunction_makes_the_expression_true() {
    let e = Expression::new(vec![literal(0, 1, true), ProductTerm { terms: vec![false], mask: vec![false] }]);
    assert!(e.is_true());
    assert_eq!(e.to_algebraic(), "1");
}

#[test]
fn and_of_disjunctions_drops_conflicts() {
    // (x0 | !x0) & x0 -> x0 (x0 & x0) and nothing for !x0 & x0.
    let e = Expression::new(vec![literal(0, 1, true), literal(0, 1, false)]);
    let f = Expression::new(vec![literal(0, 1, true)]);
    let g = e & &f;
    assert_eq!(g.product_terms().len(), 1);
    assert_eq!(g.to_algebraic_styled(AlgebraicStyle::Code), "$x0");
}

#[test]
fn double_inverse_keeps_the_truth_table() {
    let mut table = VariableTable::new();
    let e = parse_algebraic("a!b + c", &mut table).unwrap();
    let back = e.inverse().inverse();
    for m in 0u32..8 {
        assert_eq!(expression_to_minterms(&e, 3).contains(&m), expression_to_minterms(&back, 3).contains(&m));
    }
}

#[test]
fn simplify_of_a_tautology_and_a_contradiction() {
    let t = simplify_algebraic("a + !a").unwrap();
    assert!(t.is_true());
    assert_eq!(t.to_algebraic(), "1");
    let f = simplify_algebraic("a !a").unwrap();
    assert!(f.is_false());
    assert_eq!(f.to_algebraic(), "0");
}

#[test]
fn simplify_algebraic_reduces_and_keeps_names() {
    assert_eq!(simplify_algebraic("ab + a!b").unwrap().to_algebraic(), "a");
    assert_eq!(simplify_algebraic("$rain $cold + $rain !$cold").unwrap().to_algebraic(), "$rain");
    assert_eq!(simplify_algebraic("a2").unwrap_err(), "unexpected character '2' in algebraic expression");
}

#[test]
fn simplify_keeps_the_truth_table() {
    let mut table = VariableTable::new();
    let e = parse_algebraic("(a ^ b) + (b c) + !(a + c)", &mut table).unwrap().with_table(Rc::new(table));
    let s = simplify(&e);
    assert_eq!(expression_to_minterms(&e, 3), expression_to_minterms(&s, 3));
}

#[test]
fn serializers_describe_same_product_term() {
    let e = Expression::new(vec![{
        let mut a = literal(0, 2, true);
        a.and_assign(&literal(1, 2, false));
        a
    }]);
    assert_eq!(e.to_algebraic_styled(AlgebraicStyle::Code), "$x0 & !$x1");
    assert_eq!(e.to_json().to_string(), r#"{"and":[{"var":"x0"},{"!":[{"var":"x1"}]}]}"#);
}

#[test]
fn single_literal_product_term_emits_bare_literal() {
    let e = Expression::new(vec![literal(0, 1, true)]);
    assert_eq!(e.to_json().to_string(), r#"{"var":"x0"}"#);
}

#[test]
fn constants_serialize_to_format_specific_literals() {
    assert_eq!(Expression::constant_true().to_json().to_string(), "true");
    assert_eq!(Expression::constant_false().to_json().to_string(), "false");
    // Algebraic uses `1` / `0` (matching the algebraic input parser).
    assert_eq!(Expression::constant_true().to_algebraic(), "1");
    assert_eq!(Expression::constant_false().to_algebraic(), "0");
}

#[test]
fn empty_conjunction_product_term_is_true_at_expression_level() {
    // A TRUE product term anywhere makes the whole disjunction TRUE.
    let e = Expression::new(vec![literal(0, 1, true), ProductTerm { terms: vec![false], mask: vec![false] }]);
    assert!(e.is_true());
    assert_eq!(e.to_json().to_string(), "true");
}

#[test]
fn with_table_round_trips_names() {
    let mut table = VariableTable::new();
    table.index_of("rain").unwrap();
    let e = Expression::new(vec![literal(0, 1, true)]).with_table(Rc::new(table));
    // A multi-character name is prefixed with `$` so the output re-parses.
    assert_eq!(e.to_algebraic(), "$rain");
    assert_eq!(e.to_json().to_string(), r#"{"var":"rain"}"#);
}

#[test]
fn to_json_drops_false_sentinel_product_terms() {
    // A real literal ORed with a FALSE sentinel keeps only the literal.
    let e = Expression::new(vec![literal(0, 1, true), ProductTerm { terms: vec![], mask: vec![] }]);
    assert_eq!(e.to_json().to_string(), r#"{"var":"x0"}"#);
}

#[test]
fn multi_product_term_expression_wraps_in_or() {
    let e = Expression::new(vec![literal(0, 2, true), literal(1, 2, false)]);
    assert_eq!(e.to_json().to_string(), r#"{"or":[{"var":"x0"},{"!":[{"var":"x1"}]}]}"#);
}

#[test]
fn false_absorbs_and_on_either_side() {
    let mut f = ProductTerm::default();
    f.and_assign(&literal(0, 1, true));
    assert!(f.is_false());
    let mut x = literal(0, 1, true);
    x.and_assign(&ProductTerm::default());
    assert!(x.is_false());
}

#[test]
fn false_terms_do_not_show_in_the_text() {
    let plain = Expression::new(vec![literal(0, 2, true), literal(1, 2, false)]);
    let padded = Expression::new(vec![
        ProductTerm::default(),
        literal(0, 2, true),
        ProductTerm::default(),
        literal(1, 2, false),
        ProductTerm::default(),
    ]);
    for style in [AlgebraicStyle::Common, AlgebraicStyle::Code, AlgebraicStyle::Logic] {
        assert_eq!(padded.to_algebraic_styled(style), plain.to_algebraic_styled(style));
    }
    assert_eq!(Expression::new(vec![ProductTerm::default(), ProductTerm::default()]).to_algebraic(), "0");
}
