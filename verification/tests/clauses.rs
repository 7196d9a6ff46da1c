use hakana_analyzer::clause::{Clause, ClauseKey};
use hakana_analyzer::scope::{remove_reconciled_clause_refs, remove_reconciled_clauses};
use hakana_analyzer::scope_context;

fn clause(keys: &[&str], wedge: bool) -> Clause {
    Clause {
        keys: keys
            .iter()
            .map(|k| if k.is_empty() { ClauseKey::Other } else { ClauseKey::Name(k.to_string()) })
            .collect(),
        wedge,
    }
}

fn names(clauses: &[Clause]) -> Vec<Vec<String>> {
    clauses
        .iter()
        .map(|c| {
            c.keys
                .iter()
                .map(|k| match k {
                    ClauseKey::Name(n) => n.clone(),
                    ClauseKey::Other => String::new(),
                })
                .collect()
        })
        .collect()
}

fn changed(ids: &[&str]) -> Vec<String> {
    ids.iter().map(|s| s.to_string()).collect()
}

#[test]
fn clauses_about_changed_vars_are_removed() {
    let clauses = vec![clause(&["$a"], false), clause(&["$b", "$c"], false), clause(&["$a[0]"], false)];
    let (kept, removed) = remove_reconciled_clauses(&clauses, &changed(&["$c"]));
    assert_eq!(names(&kept), vec![vec!["$a".to_string()], vec!["$a[0]".to_string()]]);
    assert_eq!(names(&removed), vec![vec!["$b".to_string(), "$c".to_string()]]);
}

#[test]
fn wedges_and_other_keys_are_kept() {
    let clauses = vec![clause(&["$a"], true), clause(&[""], false)];
    let (kept, removed) = remove_reconciled_clauses(&clauses, &changed(&["$a"]));
    assert_eq!(kept.len(), 2);
    assert!(kept[0].wedge);
    assert!(removed.is_empty());
}

#[test]
fn paths_below_changed_vars_are_removed_by_refs() {
    let clauses = vec![clause(&["$a[0]"], false), clause(&["$a"], false), clause(&["$b->c"], false)];
    let (kept, removed) = remove_reconciled_clause_refs(&clauses, &changed(&["$a"]));
    assert_eq!(names(&kept), vec![vec!["$b->c".to_string()]]);
    assert_eq!(names(&removed), vec![vec!["$a[0]".to_string()], vec!["$a".to_string()]]);
    let (kept, removed) = remove_reconciled_clauses(&clauses, &changed(&["$a"]));
    assert_eq!(kept.len(), 2);
    assert_eq!(removed.len(), 1);
}

#[test]
fn scope_context_removal_matches_names_only() {
    let clauses = vec![clause(&["$a[0]"], false), clause(&["$a"], false)];
    let (kept, removed) = scope_context::remove_reconciled_clause_refs(&clauses, &changed(&["$a"]));
    assert_eq!(names(&kept), vec![vec!["$a[0]".to_string()]]);
    assert_eq!(names(&removed), vec![vec!["$a".to_string()]]);
    let (kept, removed) = scope_context::remove_reconciled_clauses(&clauses, &changed(&["$a[0]"]));
    assert_eq!(names(&kept), vec![vec!["$a".to_string()]]);
    assert_eq!(removed.len(), 1);
}
