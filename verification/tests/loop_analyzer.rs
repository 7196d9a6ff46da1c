use hakana_analyzer::stmt::loop_analyzer::{get_assignment_map_depth, AssignmentMap};

fn map(entries: &[(&str, &[&str])]) -> AssignmentMap {
    let mut m = AssignmentMap::new();
    for (key, ids) in entries {
        m.insert(key.to_string(), ids.iter().map(|s| s.to_string()).collect());
    }
    m
}

#[test]
fn chain_of_assignments_counts_each_step() {
    let mut m = map(&[("$a", &["$b"]), ("$b", &["$c"]), ("$c", &["$d"])]);
    assert_eq!(get_assignment_map_depth(&"$a".to_string(), &mut m), 3);
    assert!(!m.contains_key(&"$a".to_string()));
    assert!(!m.contains_key(&"$c".to_string()));
}

#[test]
fn deepest_branch_wins() {
    let mut m = map(&[("$a", &["$x", "$b"]), ("$b", &["$c"]), ("$c", &["$y"])]);
    assert_eq!(get_assignment_map_depth(&"$a".to_string(), &mut m), 3);
}

#[test]
fn cycles_stop_at_walked_variables() {
    let mut m = map(&[("$a", &["$b"]), ("$b", &["$a"])]);
    assert_eq!(get_assignment_map_depth(&"$a".to_string(), &mut m), 2);
}

#[test]
fn variable_without_sources_has_no_depth() {
    let mut m = map(&[("$a", &[]), ("$b", &["$a"])]);
    assert_eq!(get_assignment_map_depth(&"$a".to_string(), &mut m), 0);
    assert!(m.contains_key(&"$b".to_string()));
}

#[test]
fn insert_replaces_an_entry() {
    let mut m = map(&[("$a", &["$b"]), ("$b", &["$c"]), ("$a", &["$z"])]);
    assert_eq!(get_assignment_map_depth(&"$a".to_string(), &mut m), 1);
    let removed = m.remove(&"$b".to_string());
    assert_eq!(removed, Some(vec!["$c".to_string()]));
    assert_eq!(m.remove(&"$b".to_string()), None);
}

#[test]
fn visiting_order_decides_the_depth_of_shared_sources() {
    let mut b_first = map(&[("$a", &["$b", "$c"]), ("$b", &["$c"]), ("$c", &["$d"]), ("$d", &["$e"])]);
    assert_eq!(get_assignment_map_depth(&"$a".to_string(), &mut b_first), 4);
    let mut c_first = map(&[("$a", &["$c", "$b"]), ("$b", &["$c"]), ("$c", &["$d"]), ("$d", &["$e"])]);
    assert_eq!(get_assignment_map_depth(&"$a".to_string(), &mut c_first), 3);
}
