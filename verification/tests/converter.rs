use beast::converter::to_dnf;
use beast::json::Json;
use beast::variable_table::VariableTable;
use beast::Expression;

fn dnf(text: &str) -> Result<Expression, String> {
    let json = Json::parse(text).unwrap();
    let mut table = VariableTable::new();
    to_dnf(&json, &mut table)
}

// Evaluates a DNF expression under an assignment (bit i = variable i).
fn eval(expr: &Expression, assignment: u32) -> bool {
    if expr.is_true() {
        return true;
    }
    expr.product_terms().iter().filter(|c| !c.is_false()).any(|c| {
        (0..c.terms.len()).all(|i| {
            if c.mask[i] {
                let bit = assignment & (1 << i) != 0;
                bit == c.terms[i]
            } else {
                true
            }
        })
    })
}

// Asserts two single-variable... generic truth-table equivalence over `vars`.
fn assert_equiv(expr: &Expression, vars: usize, f: impl Fn(u32) -> bool) {
    for a in 0..(1u32 << vars) {
        assert_eq!(eval(expr, a), f(a), "mismatch at assignment {:0b}", a);
    }
}

fn dnf_shape_ok(expr: &Expression) -> bool {
    // Every product term is a flat AND of literals; nothing nested. Structurally this is always true for our
    // representation, so we assert the model invariant: parallel vectors of equal length.
    expr.product_terms().iter().all(|c| c.terms.len() == c.mask.len())
}

#[test]
fn var_is_single_literal() {
    let e = dnf(r#"{"var":"a"}"#).unwrap();
    assert_eq!(e.to_algebraic(), "$x0"); // table-less render of synthesized `x0`
    assert!(dnf_shape_ok(&e));
}

#[test]
fn and_or_distribute_to_dnf() {
    // a & (b | c) -> (a&b) | (a&c)
    let e = dnf(r#"{"and":[{"var":"a"},{"or":[{"var":"b"},{"var":"c"}]}]}"#).unwrap();
    assert!(dnf_shape_ok(&e));
    assert_equiv(&e, 3, |x| {
        let a = x & 1 != 0;
        let b = x & 2 != 0;
        let c = x & 4 != 0;
        a && (b || c)
    });
}

#[test]
fn not_uses_de_morgan() {
    // !(a & b) -> !a | !b
    let e = dnf(r#"{"!":[{"and":[{"var":"a"},{"var":"b"}]}]}"#).unwrap();
    assert_equiv(&e, 2, |x| !((x & 1 != 0) && (x & 2 != 0)));
}

#[test]
fn not_accepts_bare_form() {
    let e = dnf(r#"{"!":{"var":"a"}}"#).unwrap();
    assert_equiv(&e, 1, |x| x & 1 == 0);
}

#[test]
fn xor_is_odd_parity() {
    let e = dnf(r#"{"xor":[{"var":"a"},{"var":"b"}]}"#).unwrap();
    assert_equiv(&e, 2, |x| (x & 1 != 0) ^ (x & 2 != 0));
}

#[test]
fn nary_xor_is_odd_parity() {
    let e = dnf(r#"{"xor":[{"var":"a"},{"var":"b"},{"var":"c"}]}"#).unwrap();
    assert_equiv(&e, 3, |x| ((x & 1 != 0) as u32 + (x & 2 != 0) as u32 + (x & 4 != 0) as u32) % 2 == 1);
}

#[test]
fn nand_and_nor_desugar() {
    let nand = dnf(r#"{"nand":[{"var":"a"},{"var":"b"}]}"#).unwrap();
    assert_equiv(&nand, 2, |x| !((x & 1 != 0) && (x & 2 != 0)));
    let nor = dnf(r#"{"nor":[{"var":"a"},{"var":"b"}]}"#).unwrap();
    assert_equiv(&nor, 2, |x| !((x & 1 != 0) || (x & 2 != 0)));
}

#[test]
fn literals_become_constants() {
    assert!(dnf("true").unwrap().is_true());
    assert!(dnf("false").unwrap().is_false());
}

#[test]
fn rejects_unknown_operator() {
    assert!(dnf(r#"{">":[1,2]}"#).is_err());
}

#[test]
fn rejects_multi_key_node() {
    assert!(dnf(r#"{"var":"a","or":[]}"#).is_err());
}

#[test]
fn rejects_bad_arity() {
    assert!(dnf(r#"{"!":[{"var":"a"},{"var":"b"}]}"#).is_err());
    assert!(dnf(r#"{"and":[]}"#).is_err());
}

#[test]
fn rejects_non_string_var() {
    assert!(dnf(r#"{"var":1}"#).is_err());
}

#[test]
fn rejects_empty_object_node() {
    // Zero operator keys is not a valid node.
    assert!(dnf(r#"{}"#).is_err());
}

#[test]
fn rejects_bare_non_boolean_values() {
    assert!(dnf("1").is_err());
    assert!(dnf(r#""a""#).is_err());
    assert!(dnf("null").is_err());
    assert!(dnf("[1,2]").is_err());
}

#[test]
fn converter_double_negation_cancels() {
    // !!a == a
    let e = dnf(r#"{"!":[{"!":[{"var":"a"}]}]}"#).unwrap();
    assert_equiv(&e, 1, |x| x & 1 != 0);
}

#[test]
fn single_operand_or_and_are_identity() {
    let or = dnf(r#"{"or":[{"var":"a"}]}"#).unwrap();
    assert_equiv(&or, 1, |x| x & 1 != 0);
    let and = dnf(r#"{"and":[{"var":"a"}]}"#).unwrap();
    assert_equiv(&and, 1, |x| x & 1 != 0);
}

#[test]
fn and_accepts_bare_single_operand() {
    // `args` treats a non-array value as a single operand.
    let e = dnf(r#"{"and":{"var":"a"}}"#).unwrap();
    assert_equiv(&e, 1, |x| x & 1 != 0);
}

#[test]
fn nor_of_three_is_all_false() {
    // nor(a,b,c) is true only when a, b, c are all false.
    let e = dnf(r#"{"nor":[{"var":"a"},{"var":"b"},{"var":"c"}]}"#).unwrap();
    assert_equiv(&e, 3, |x| x == 0);
}

#[test]
fn xor_single_operand_is_identity() {
    let e = dnf(r#"{"xor":[{"var":"a"}]}"#).unwrap();
    assert_equiv(&e, 1, |x| x & 1 != 0);
}

// ---------------------------------------------------------------------------------------------------------------------
// Further cases.

#[test]
fn converter_error_messages_are_exact() {
    assert_eq!(dnf(r#"{">":[1,2]}"#).unwrap_err(), "unsupported operator \">\"");
    assert_eq!(dnf(r#"{"var":"a","or":[]}"#).unwrap_err(), "each node must have exactly one operator key, found 2");
    assert_eq!(dnf(r#"{}"#).unwrap_err(), "each node must have exactly one operator key, found 0");
    assert_eq!(dnf(r#"{"!":[{"var":"a"},{"var":"b"}]}"#).unwrap_err(), "\"!\" takes exactly one operand, found 2");
    assert_eq!(dnf(r#"{"and":[]}"#).unwrap_err(), "\"and\" requires at least one operand");
    assert_eq!(dnf(r#"{"or":[]}"#).unwrap_err(), "\"or\" requires at least one operand");
    assert_eq!(dnf(r#"{"xor":[]}"#).unwrap_err(), "\"xor\" requires at least one operand");
    assert_eq!(dnf(r#"{"var":1}"#).unwrap_err(), "\"var\" requires a string variable name");
    assert_eq!(
        dnf("null").unwrap_err(),
        "expected a boolean expression: an operator object or a boolean literal"
    );
}

#[test]
fn variables_are_registered_as_they_are_met() {
    let json = Json::parse(r#"{"or":[{"var":"rain"},{"and":[{"var":"cold"},{"var":"rain"}]}]}"#).unwrap();
    let mut table = VariableTable::new();
    let e = to_dnf(&json, &mut table).unwrap();
    assert_eq!(table.len(), 2);
    assert_eq!(table.name_of(0), "rain");
    assert_eq!(table.name_of(1), "cold");
    assert_equiv(&e, 2, |x| x & 1 != 0);
}

#[test]
fn xor_accepts_a_bare_operand_and_nand_of_one_is_not() {
    let e = dnf(r#"{"xor":{"var":"a"}}"#).unwrap();
    assert_equiv(&e, 1, |x| x & 1 != 0);
    let e = dnf(r#"{"nand":{"var":"a"}}"#).unwrap();
    assert_equiv(&e, 1, |x| x & 1 == 0);
}

// Evaluates an expression with the variables valued by name through its own table.
fn eval_by_name(expr: &Expression, table: &VariableTable, value: &dyn Fn(&str) -> bool) -> bool {
    expr.product_terms().iter().filter(|c| !c.is_false()).any(|c| {
        (0..c.terms.len()).all(|i| !c.mask[i] || value(table.name_of(i)) == c.terms[i])
    })
}

#[test]
fn json_of_an_expression_reads_back_to_the_same_function() {
    let mut table = VariableTable::new();
    let e = beast::algebraic::parse_algebraic("$delta b + ab~c + ~a$delta + c", &mut table).unwrap();
    let e = e.with_table(std::rc::Rc::new(table.clone()));
    let json = e.to_json();
    let mut read_table = VariableTable::new();
    let back = to_dnf(&json, &mut read_table).unwrap();
    // The converter meets the names in another order than the parser did.
    assert_eq!(read_table.name_of(0), "delta");
    assert_eq!(table.name_of(0), "delta");
    let names = ["a", "b", "c", "delta"];
    for bits in 0u32..16 {
        let value = |name: &str| {
            let k = names.iter().position(|n| *n == name).unwrap();
            bits & (1 << k) != 0
        };
        assert_eq!(eval_by_name(&back, &read_table, &value), eval_by_name(&e, &table, &value), "bits {:04b}", bits);
    }
}
