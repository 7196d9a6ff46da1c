use hakana_analyzer::scope::var_map::VarMap;
use hakana_analyzer::scope::{get_new_or_updated_locals, get_redefined_locals};
use hakana_analyzer::scope_context::{get_new_or_updated_var_ids, get_redefined_vars};

fn vars(entries: &[(&str, u64)]) -> VarMap {
    let mut m = VarMap::new();
    for (name, value) in entries {
        m.insert(name.to_string(), *value);
    }
    m
}

fn sorted(mut names: Vec<String>) -> Vec<String> {
    names.sort();
    names
}

#[test]
fn insert_replaces_and_get_reads_back() {
    let mut m = vars(&[("$a", 1), ("$b", 2)]);
    m.insert("$a".to_string(), 7);
    assert_eq!(m.get(&"$a".to_string()), Some(7));
    assert_eq!(m.get(&"$b".to_string()), Some(2));
    assert_eq!(m.get(&"$c".to_string()), None);
    assert!(m.contains_key(&"$b".to_string()));
    assert!(!m.contains_key(&"$c".to_string()));
}

#[test]
fn redefined_locals_keep_their_old_types() {
    let locals = vars(&[("$a", 1), ("$b", 2), ("$c", 3)]);
    let new_locals = vars(&[("$a", 1), ("$b", 5), ("$d", 4)]);
    let mut removed = vec!["$z".to_string()];
    let redefined = get_redefined_locals(&locals, &new_locals, false, &mut removed);
    assert_eq!(redefined.get(&"$b".to_string()), Some(2));
    assert_eq!(redefined.get(&"$a".to_string()), None);
    assert_eq!(redefined.get(&"$c".to_string()), None);
    assert_eq!(redefined.get(&"$d".to_string()), None);
    assert_eq!(sorted(removed), vec!["$d".to_string(), "$z".to_string()]);

    let mut removed = vec!["$d".to_string()];
    let redefined = get_redefined_locals(&locals, &new_locals, true, &mut removed);
    assert_eq!(redefined.get(&"$b".to_string()), Some(2));
    assert_eq!(redefined.get(&"$c".to_string()), Some(3));
    assert_eq!(redefined.get(&"$a".to_string()), None);
    assert_eq!(removed, vec!["$d".to_string()]);
}

#[test]
fn new_or_updated_locals_are_listed_once() {
    let original = vars(&[("$a", 1), ("$b", 2), ("$c", 3)]);
    let original_assigned = vars(&[("$a", 1), ("$c", 1)]);
    let new_locals = vars(&[("$a", 1), ("$b", 9), ("$c", 3), ("$d", 4)]);
    let new_assigned = vars(&[("$a", 1), ("$c", 2)]);
    let changed = get_new_or_updated_locals(&original, &original_assigned, &new_locals, &new_assigned);
    assert_eq!(sorted(changed), vec!["$b".to_string(), "$c".to_string(), "$d".to_string()]);
}

#[test]
fn unchanged_context_reports_nothing() {
    let locals = vars(&[("$a", 1), ("$b", 2)]);
    let assigned = vars(&[("$a", 3)]);
    let mut removed = Vec::new();
    let redefined = get_redefined_locals(&locals, &locals, false, &mut removed);
    assert_eq!(redefined.get(&"$a".to_string()), None);
    assert_eq!(redefined.get(&"$b".to_string()), None);
    assert!(removed.is_empty());
    assert!(get_new_or_updated_locals(&locals, &assigned, &locals, &assigned).is_empty());
}

#[test]
fn scope_context_versions_agree() {
    let vars_in_scope = vars(&[("$a", 1), ("$b", 2)]);
    let new_vars = vars(&[("$a", 3)]);
    let redefined = get_redefined_vars(&vars_in_scope, &new_vars, true);
    assert_eq!(redefined.get(&"$a".to_string()), Some(1));
    assert_eq!(redefined.get(&"$b".to_string()), Some(2));
    let empty = VarMap::new();
    let changed = get_new_or_updated_var_ids(&vars_in_scope, &empty, &new_vars, &empty);
    assert_eq!(changed, vec!["$a".to_string()]);
}
