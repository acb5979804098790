use std::rc::Rc;

use beast::algebraic::{parse_algebraic, tokenize, Token};
use beast::variable_table::VariableTable;
use beast::{AlgebraicStyle, Expression};

/// Parses `input` and renders the (unsimplified) DNF back to algebraic, with the registered names restored, so
/// encounter order is deterministic.
fn alg(input: &str) -> String {
    let mut table = VariableTable::new();
    let expr = parse_algebraic(input, &mut table).unwrap().with_table(Rc::new(table));
    expr.to_algebraic()
}

fn err(input: &str) -> String {
    let mut table = VariableTable::new();
    parse_algebraic(input, &mut table).unwrap_err()
}

#[test]
fn juxtaposition_is_and() {
    assert_eq!(alg("ab"), "ab");
}

#[test]
fn whitespace_is_a_delimiter_only() {
    assert_eq!(alg("a b"), "ab");
    assert_eq!(alg("  a   b "), "ab");
}

#[test]
fn dollar_introduces_multichar_names() {
    assert_eq!(alg("$velocity * $pressure"), "$velocity$pressure");
    // The two names are distinct variables, not 16 single letters.
    let mut table = VariableTable::new();
    parse_algebraic("$velocity * $pressure", &mut table).unwrap();
    assert_eq!(table.len(), 2);
}

#[test]
fn spec_example_mixed_operators() {
    // ab!c|d -> (a & b & !c) | d, rendered in the default (common) style.
    assert_eq!(alg("ab!c|d"), "abc\u{0305} + d");
}

#[test]
fn spec_example_unicode_operators() {
    // a$bc ∨ ¬d -> (a & bc) | !d, common style: `bc` is emitted as the `$`-prefixed `$bc`, and `!d` renders as an
    // overbar on the single letter.
    assert_eq!(alg("a$bc \u{2228} \u{00AC}d"), "a$bc + d\u{0305}");
}

#[test]
fn all_and_spellings_agree() {
    for op in ["a&b", "a*b", "a.b", "a\u{2227}b", "a\u{22C5}b", "a\u{00B7}b", "a\u{00D7}b"] {
        assert_eq!(alg(op), "ab", "for {:?}", op);
    }
}

#[test]
fn all_or_spellings_agree() {
    for op in ["a|b", "a+b", "a\u{2228}b"] {
        assert_eq!(alg(op), "a + b", "for {:?}", op);
    }
}

#[test]
fn all_not_spellings_agree() {
    for op in ["~a", "-a", "\u{00AC}a", "!a"] {
        assert_eq!(alg(op), "a\u{0305}", "for {:?}", op);
    }
}

#[test]
fn overbar_is_postfix_not_on_a_single_letter() {
    assert_eq!(alg("a\u{0305}"), "a\u{0305}");
    // Binds to the one letter only: the rest juxtaposes/ORs normally.
    assert_eq!(alg("a\u{0305}b"), "a\u{0305}b");
    assert_eq!(alg("ab\u{0305}"), "ab\u{0305}");
    assert_eq!(alg("a\u{0305} + b"), "a\u{0305} + b");
    // Composes with a prefix not -> double negation cancels.
    assert_eq!(alg("!a\u{0305}"), "a");
}

#[test]
fn overbar_only_on_single_letter_variables() {
    // Not a single-letter variable in each of these positions:
    assert!(err("$abc\u{0305}").contains("overbar")); // multi-char name
    assert!(err("1\u{0305}").contains("overbar")); // constant
    assert!(err("(a+b)\u{0305}").contains("overbar")); // parenthesised group
    assert!(err("\u{0305}a").contains("overbar")); // leading, no operand
    assert!(err("a\u{0305}\u{0305}").contains("overbar")); // double overbar
    assert!(err("a \u{0305}").contains("overbar")); // must be adjacent
}

#[test]
fn algebraic_double_negation_cancels() {
    assert_eq!(alg("~~a"), "a");
    assert_eq!(alg("!-a"), "a");
}

#[test]
fn constants_parse_to_true_and_false() {
    assert_eq!(alg("1"), "1");
    assert_eq!(alg("0"), "0");
    // AND/OR with constants reduce by the algebra.
    assert_eq!(alg("1a"), "a");
    assert_eq!(alg("0a"), "0");
    assert_eq!(alg("1+a"), "1");
}

#[test]
fn not_binds_tighter_than_and_tighter_than_or() {
    // ~a b + c parses as ((!a) & b) | c.
    assert_eq!(alg("~a b + c"), "a\u{0305}b + c");
}

#[test]
fn parentheses_override_precedence() {
    // ~(a + b) = !a & !b by De Morgan, in DNF.
    assert_eq!(alg("~(a+b)"), "a\u{0305}b\u{0305}");
}

#[test]
fn or_and_xor_share_a_left_associative_tier() {
    // a + b ^ c parses as (a + b) ^ c, not a + (b ^ c).
    let mut left = VariableTable::new();
    let a = parse_algebraic("a + b ^ c", &mut left).unwrap();
    let mut right = VariableTable::new();
    let b = parse_algebraic("(a + b) ^ c", &mut right).unwrap();
    assert_eq!(a, b);
}

#[test]
fn rejects_empty_expression() {
    assert!(err("").contains("empty"));
    assert!(err("   ").contains("empty"));
}

#[test]
fn rejects_bad_characters_and_digits() {
    assert!(err("a2").contains("unexpected character"));
    assert!(err("$").contains("identifier"));
}

#[test]
fn rejects_syntax_errors() {
    assert!(!err("(a").is_empty()); // unbalanced
    assert!(!err("a)").is_empty()); // trailing
    assert!(!err("&a").is_empty()); // leading binary operator
    assert!(!err("a+").is_empty()); // dangling operator
}

// ---------------------------------------------------------------------------------------------------------------------
// Further cases.

#[test]
fn algebraic_error_messages_are_exact() {
    assert_eq!(err("a2"), "unexpected character '2' in algebraic expression");
    assert_eq!(err("a\u{0305}\u{0305}"), "overbar '\\u{305}' may only follow a single-letter variable");
    assert_eq!(err("$"), "'$' must be followed by an identifier character [0-9a-zA-Z_]");
    assert_eq!(err(""), "empty expression");
    assert_eq!(err("(a"), "expected ')'");
    assert_eq!(err("a)"), "unexpected trailing token RParen");
    assert_eq!(err("&a"), "unexpected token And");
    assert_eq!(err("a+"), "unexpected end of expression");
    assert_eq!(err("(a)(b))$cd"), "unexpected trailing token RParen");
    assert_eq!(err("a b c ) $name"), "unexpected trailing token RParen");
}

#[test]
fn trailing_token_names_a_variable_like_debug() {
    // `a b )` leaves `)`; `(a) b $xy` is complete. A stray token after a closed group quotes the token.
    assert_eq!(err("(a))"), "unexpected trailing token RParen");
    assert_eq!(err("a | |"), "unexpected token Or");
    assert_eq!(err("a ^ ^ b"), "unexpected token Xor");
}

#[test]
fn tokenizer_reads_every_spelling() {
    let ts = tokenize("(a\u{0305} & $bc_1) | 0 ^ 1").unwrap();
    assert_eq!(
        ts,
        vec![
            Token::LParen,
            Token::Not,
            Token::Var("a".to_string()),
            Token::And,
            Token::Var("bc_1".to_string()),
            Token::RParen,
            Token::Or,
            Token::Const(false),
            Token::Xor,
            Token::Const(true),
        ]
    );
    assert_eq!(tokenize(" \t\n").unwrap(), Vec::<Token>::new());
}

#[test]
fn white_space_is_what_std_calls_white_space() {
    // A single character gives no token exactly when std's `char::is_whitespace` accepts it.
    for u in 0u32..0x11_0000 {
        if let Some(c) = char::from_u32(u) {
            let tokens = tokenize(&c.to_string());
            assert_eq!(tokens == Ok(Vec::new()), c.is_whitespace(), "at U+{:04X}", u);
        }
    }
}

#[test]
fn variables_are_registered_in_order_of_first_use() {
    let mut table = VariableTable::new();
    parse_algebraic("$zeta b $alpha + b", &mut table).unwrap();
    assert_eq!(table.len(), 3);
    assert_eq!(table.name_of(0), "zeta");
    assert_eq!(table.name_of(1), "b");
    assert_eq!(table.name_of(2), "alpha");
}

#[test]
fn a_table_already_holding_names_keeps_their_indices() {
    let mut table = VariableTable::new();
    table.index_of("c").unwrap();
    let e = parse_algebraic("a c", &mut table).unwrap();
    assert_eq!(table.name_of(0), "c");
    assert_eq!(table.name_of(1), "a");
    assert_eq!(e.with_table(Rc::new(table)).to_algebraic_styled(AlgebraicStyle::Code), "c & a");
}

#[test]
fn too_many_variables_stops_the_parse() {
    let text: Vec<String> = (0..33).map(|i| format!("$v{}", i)).collect();
    let mut table = VariableTable::new();
    let e = parse_algebraic(&text.join(" "), &mut table).unwrap_err();
    assert_eq!(e, "too many distinct variables: at most 32 are supported");
    // The names read before the error stay registered.
    assert_eq!(table.len(), 32);
}

#[test]
fn parsed_expression_means_what_the_text_says() {
    // (a ^ b) + !c, checked on all eight assignments through the rendered DNF.
    let mut table = VariableTable::new();
    let e = parse_algebraic("(a ^ b) + !c", &mut table).unwrap();
    for m in 0u32..8 {
        let (a, b, c) = (m & 1 != 0, m & 2 != 0, m & 4 != 0);
        let expected = (a != b) || !c;
        let holds = e.product_terms().iter().any(|p| {
            !p.is_false()
                && (0..p.terms.len()).all(|i| !p.mask[i] || p.terms[i] == (m & (1 << i) != 0))
        });
        assert_eq!(holds, expected, "at {:03b}", m);
    }
}

fn holds_by_name(expr: &Expression, table: &VariableTable, value: &dyn Fn(&str) -> bool) -> bool {
    expr.product_terms().iter().filter(|p| !p.is_false()).any(|p| {
        (0..p.terms.len()).all(|i| !p.mask[i] || value(table.name_of(i)) == p.terms[i])
    })
}

#[test]
fn rendered_text_reads_back_to_the_same_function_in_every_style() {
    let mut table = VariableTable::new();
    let e = parse_algebraic("$delta b + ab~c + ~a$delta + c", &mut table).unwrap();
    let e = e.with_table(Rc::new(table.clone()));
    let names = ["a", "b", "c", "delta"];
    for style in [AlgebraicStyle::Common, AlgebraicStyle::Code, AlgebraicStyle::Logic] {
        let text = e.to_algebraic_styled(style);
        let mut read_table = VariableTable::new();
        let back = parse_algebraic(&text, &mut read_table).unwrap();
        for bits in 0u32..16 {
            let value = |name: &str| {
                let k = names.iter().position(|n| *n == name).unwrap();
                bits & (1 << k) != 0
            };
            assert_eq!(
                holds_by_name(&back, &read_table, &value),
                holds_by_name(&e, &table, &value),
                "{:?} text {:?} at {:04b}",
                style,
                text,
                bits
            );
        }
    }
}

#[test]
fn dollar_names_start_with_a_letter() {
    assert_eq!(err("$0"), "a '$' name must start with a letter [a-zA-Z]");
    assert_eq!(err("$_"), "a '$' name must start with a letter [a-zA-Z]");
    assert_eq!(err("a + $9lives"), "a '$' name must start with a letter [a-zA-Z]");
    assert_eq!(alg("$a0_ b"), "$a0_ b");
}

#[test]
fn rendered_text_reparses_to_the_same_expression() {
    for input in ["!(ab)", "(a + b)c", "$delta b + ab~c + ~a$delta + c", "a ^ b ^ c", "1", "0", "a!a + b", "!(a + $long b)"] {
        let mut table = VariableTable::new();
        let e = parse_algebraic(input, &mut table).unwrap();
        let e = e.with_table(Rc::new(table.clone()));
        for style in [AlgebraicStyle::Common, AlgebraicStyle::Code, AlgebraicStyle::Logic] {
            let text = e.to_algebraic_styled(style);
            let mut same = table.clone();
            let back = parse_algebraic(&text, &mut same).unwrap();
            assert!(back == e, "{:?} rendered {:?} as {:?}", input, style, text);
            assert_eq!(same, table);
        }
    }
}

#[test]
fn not_of_a_product_reparses_from_a_fresh_table() {
    let mut table = VariableTable::new();
    let e = parse_algebraic("!(ab)", &mut table).unwrap().with_table(Rc::new(table));
    for style in [AlgebraicStyle::Common, AlgebraicStyle::Code, AlgebraicStyle::Logic] {
        let back = parse_algebraic(&e.to_algebraic_styled(style), &mut VariableTable::new()).unwrap();
        assert!(back == e);
    }
}
