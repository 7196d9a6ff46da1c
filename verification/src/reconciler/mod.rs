pub mod reconciler;
pub mod negated_assertion_reconciler;
