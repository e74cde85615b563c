//! The query error and its description.

use query_lang::QueryError;

#[test]
fn test_cycle_display_is_descriptive() {
    assert_eq!(
        QueryError::Cycle.to_string(),
        "query cycle detected: a query depends on itself"
    );
}

#[test]
fn test_equality() {
    assert_eq!(QueryError::Cycle, QueryError::Cycle);
}
