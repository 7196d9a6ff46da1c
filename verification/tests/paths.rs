use hakana_analyzer::reconciler::reconciler::break_up_path_into_parts;
use hakana_analyzer::scope::var_has_root;
use hakana_analyzer::scope_context::var_has_root as string_var_has_root;

fn parts(path: &str) -> Vec<String> {
    break_up_path_into_parts(&path.to_string())
}

#[test]
fn array_and_property_paths_are_below_their_root() {
    assert!(var_has_root("$a[0]", "$a"));
    assert!(var_has_root("$a->b", "$a"));
    assert!(var_has_root("$a['x']['y']", "$a['x']"));
    assert!(var_has_root("$b[$a]", "$a"));
}

#[test]
fn other_paths_are_not_below_the_root() {
    assert!(!var_has_root("$a", "$a"));
    assert!(!var_has_root("$ab[0]", "$a"));
    assert!(!var_has_root("Foo::$a[0]", "$a"));
    assert!(!var_has_root("$b", "$a"));
    assert!(!var_has_root("", "$a"));
}

#[test]
fn string_paths_behave_alike() {
    assert!(string_var_has_root(&"$a->b".to_string(), &"$a".to_string()));
    assert!(!string_var_has_root(&"$a".to_string(), &"$a".to_string()));
}

#[test]
fn property_and_array_parts() {
    assert_eq!(parts("$a->b['c']"), vec!["$a", "->", "b", "[", "'c'", "]"]);
}

#[test]
fn static_property_parts() {
    assert_eq!(parts("A::$b->c"), vec!["A", "::$", "b", "->", "c"]);
}

#[test]
fn delimiters_inside_brackets_stay_in_the_key() {
    assert_eq!(parts("$a[$b->c]"), vec!["$a", "[", "$b->c", "]"]);
    assert_eq!(parts("$a['x->y']"), vec!["$a", "[", "'x->y'", "]"]);
}

#[test]
fn leading_bracket_leaves_an_empty_base() {
    assert_eq!(parts("[x]"), vec!["", "[", "x", "]"]);
    assert_eq!(parts(""), vec![""]);
}

#[test]
fn escaped_quote_does_not_close_the_key() {
    assert_eq!(parts("$a['x\\']y']"), vec!["$a", "[", "'x\\']y']"]);
}

#[test]
fn joined_parts_give_back_the_path() {
    for path in ["$a->b['c']", "A::$b->c[0][1]", "$x['\"]']->y", "[]"] {
        assert_eq!(parts(path).concat(), path);
    }
}

#[test]
fn parts_after_the_first_are_never_empty() {
    for path in ["$a[]", "[[x]]", "$a->b::$c", "$a['[']"] {
        let p = parts(path);
        assert!(p.iter().skip(1).all(|part| !part.is_empty()));
    }
    assert_eq!(parts("$a['[']"), vec!["$a", "[", "'['", "]"]);
}
