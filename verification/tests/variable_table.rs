use beast::quine_mccluskey::MAX_VARIABLES;
use beast::variable_table::VariableTable;

#[test]
fn duplicate_names_get_same_index() {
    let mut t = VariableTable::new();
    let a = t.index_of("raining").unwrap();
    let b = t.index_of("raining").unwrap();
    assert_eq!(a, b);
    assert_eq!(t.len(), 1);
}

#[test]
fn distinct_names_get_increasing_indices() {
    let mut t = VariableTable::new();
    assert_eq!(t.index_of("a").unwrap(), 0);
    assert_eq!(t.index_of("b").unwrap(), 1);
    assert_eq!(t.index_of("c").unwrap(), 2);
    assert_eq!(t.name_of(0), "a");
    assert_eq!(t.name_of(1), "b");
    assert_eq!(t.name_of(2), "c");
}

#[test]
fn new_table_is_empty() {
    let t = VariableTable::new();
    assert!(t.is_empty());
    assert_eq!(t.len(), 0);
}

#[test]
fn registering_a_name_makes_it_non_empty() {
    let mut t = VariableTable::new();
    t.index_of("a").unwrap();
    assert!(!t.is_empty());
}

#[test]
#[should_panic]
fn name_of_unregistered_index_panics() {
    let t = VariableTable::new();
    // No names registered, so index 0 is out of bounds.
    let _ = t.name_of(0);
}

#[test]
fn full_table_still_resolves_known_names() {
    let mut t = VariableTable::new();
    for i in 0..MAX_VARIABLES {
        t.index_of(&format!("v{}", i)).unwrap();
    }
    // Known names keep resolving to their original index when full.
    assert_eq!(t.index_of("v5").unwrap(), 5);
}

#[test]
fn rejects_too_many_variables() {
    let mut t = VariableTable::new();
    for i in 0..MAX_VARIABLES {
        assert!(t.index_of(&format!("v{}", i)).is_ok());
    }
    assert_eq!(t.len(), MAX_VARIABLES);
    // The 33rd distinct name is rejected...
    assert!(t.index_of("one_too_many").is_err());
    // ...but an already-known name still resolves.
    assert!(t.index_of("v0").is_ok());
}

#[test]
fn full_table_error_message_names_the_limit() {
    let mut t = VariableTable::new();
    for i in 0..MAX_VARIABLES {
        t.index_of(&format!("v{}", i)).unwrap();
    }
    assert_eq!(
        t.index_of("one_too_many").unwrap_err(),
        "too many distinct variables: at most 32 are supported"
    );
    // A refused name leaves the table unchanged.
    assert_eq!(t.len(), MAX_VARIABLES);
}

#[test]
fn default_table_is_empty() {
    let t = VariableTable::default();
    assert!(t.is_empty());
}
