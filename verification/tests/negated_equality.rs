use hakana_analyzer::reconciler::negated_assertion_reconciler::{
    handle_literal_negated_equality, Atom, ComparisonIssue, EnumInfo, EnumMember, LiteralValue,
};

fn s(v: &str) -> String {
    v.to_string()
}

fn suit() -> EnumInfo {
    EnumInfo {
        name: s("Suit"),
        members: vec![
            EnumMember {
                name: s("HEART"),
                value: Some(LiteralValue::Str(s("h"))),
                constant_type: Some(Atom::EnumLiteralCase { enum_name: s("Suit"), member_name: s("HEART") }),
            },
            EnumMember {
                name: s("SPADE"),
                value: Some(LiteralValue::Str(s("s"))),
                constant_type: Some(Atom::EnumLiteralCase { enum_name: s("Suit"), member_name: s("SPADE") }),
            },
        ],
    }
}

fn describe(atoms: &[Atom]) -> Vec<String> {
    atoms.iter().map(|a| format!("{:?}", a)).collect()
}

#[test]
fn equal_literal_is_removed_and_others_kept() {
    let existing = vec![Atom::LiteralInt(1), Atom::LiteralInt(2), Atom::Int];
    let (types, removed, _) = handle_literal_negated_equality(&existing, &Atom::LiteralInt(1), &vec![], false, false, false);
    assert_eq!(describe(&types), vec!["LiteralInt(2)", "Int"]);
    assert!(removed);
}

#[test]
fn literal_ints_are_dropped_under_a_string_assertion() {
    let existing = vec![Atom::LiteralInt(1), Atom::String];
    let (types, removed, _) = handle_literal_negated_equality(&existing, &Atom::LiteralString(s("x")), &vec![], false, false, false);
    assert_eq!(describe(&types), vec!["String"]);
    assert!(removed);
}

#[test]
fn string_not_equal_to_empty_becomes_non_empty() {
    let (types, removed, _) = handle_literal_negated_equality(&vec![Atom::String], &Atom::LiteralString(s("")), &vec![], false, false, false);
    assert_eq!(
        describe(&types),
        vec!["StringWithFlags { is_truthy: false, is_non_empty: true, is_nonspecific_literal: false }"]
    );
    assert!(removed);
}

#[test]
fn unrelated_assertion_removes_nothing() {
    let existing = vec![Atom::LiteralString(s("a")), Atom::Awaitable];
    let (types, removed, _) = handle_literal_negated_equality(&existing, &Atom::LiteralString(s("b")), &vec![], false, false, false);
    assert_eq!(describe(&types), vec!["LiteralString(\"a\")", "Awaitable"]);
    assert!(!removed);
}

#[test]
fn enum_minus_one_case_leaves_the_other_cases() {
    let asserted = Atom::EnumLiteralCase { enum_name: s("Suit"), member_name: s("HEART") };
    let (types, removed, _) = handle_literal_negated_equality(&vec![Atom::Enum(s("Suit"))], &asserted, &vec![suit()], false, false, false);
    assert_eq!(describe(&types), vec!["EnumLiteralCase { enum_name: \"Suit\", member_name: \"SPADE\" }"]);
    assert!(removed);
}

#[test]
fn enum_minus_a_member_value_leaves_the_other_members() {
    let (types, removed, _) =
        handle_literal_negated_equality(&vec![Atom::Enum(s("Suit"))], &Atom::LiteralString(s("s")), &vec![suit()], false, false, false);
    assert_eq!(describe(&types), vec!["EnumLiteralCase { enum_name: \"Suit\", member_name: \"HEART\" }"]);
    assert!(removed);
    let (types, removed, _) =
        handle_literal_negated_equality(&vec![Atom::Enum(s("Suit"))], &Atom::LiteralString(s("x")), &vec![suit()], false, false, false);
    assert_eq!(describe(&types), vec!["Enum(\"Suit\")"]);
    assert!(!removed);
}

#[test]
fn unknown_enum_under_a_string_gives_nothing() {
    let existing = vec![Atom::Int, Atom::Enum(s("Missing")), Atom::String];
    let (types, removed, _) = handle_literal_negated_equality(&existing, &Atom::LiteralString(s("x")), &vec![], false, false, false);
    assert_eq!(describe(&types), vec!["Nothing"]);
    assert!(removed);
}

#[test]
fn enum_case_with_the_asserted_value_is_removed() {
    let case = Atom::EnumLiteralCase { enum_name: s("Suit"), member_name: s("HEART") };
    let (types, removed, _) = handle_literal_negated_equality(&vec![case], &Atom::LiteralString(s("h")), &vec![suit()], false, false, false);
    assert!(types.is_empty());
    assert!(removed);
}

#[test]
fn type_aliases_variables_and_xhp_children_count_as_removed() {
    let existing = vec![Atom::TypeAlias, Atom::TypeVariable, Atom::NamedObject { is_xhp_child: true }];
    let (types, removed, _) = handle_literal_negated_equality(&existing, &Atom::LiteralInt(3), &vec![], false, false, false);
    assert_eq!(types.len(), 3);
    assert!(removed);
    let (_, removed, _) =
        handle_literal_negated_equality(&vec![Atom::NamedObject { is_xhp_child: false }], &Atom::LiteralInt(3), &vec![], false, false, false);
    assert!(!removed);
}

#[test]
fn comparisons_the_types_decide_are_reported() {
    let existing = vec![Atom::LiteralString(s("a"))];
    let (_, removed, issue) =
        handle_literal_negated_equality(&existing, &Atom::LiteralString(s("b")), &vec![], true, true, false);
    assert!(!removed);
    assert_eq!(issue, Some(ComparisonIssue::Redundant));
    let (_, _, issue) =
        handle_literal_negated_equality(&existing, &Atom::LiteralString(s("b")), &vec![], true, true, true);
    assert_eq!(issue, Some(ComparisonIssue::Impossible));
    let (types, removed, issue) =
        handle_literal_negated_equality(&existing, &Atom::LiteralString(s("a")), &vec![], true, true, false);
    assert!(types.is_empty() && removed);
    assert_eq!(issue, Some(ComparisonIssue::Impossible));
    let (_, _, issue) =
        handle_literal_negated_equality(&existing, &Atom::LiteralString(s("b")), &vec![], false, true, false);
    assert_eq!(issue, None);
    let (_, _, issue) =
        handle_literal_negated_equality(&existing, &Atom::LiteralString(s("b")), &vec![], true, false, false);
    assert_eq!(issue, None);
}

#[test]
fn narrowing_that_keeps_some_types_raises_no_issue() {
    let existing = vec![Atom::LiteralString(s("a")), Atom::String];
    let (_, removed, issue) =
        handle_literal_negated_equality(&existing, &Atom::LiteralString(s("a")), &vec![], true, true, false);
    assert!(removed);
    assert_eq!(issue, None);
}

#[test]
fn unknown_enum_result_raises_no_issue() {
    let existing = vec![Atom::Enum(s("Missing"))];
    let (types, _, issue) =
        handle_literal_negated_equality(&existing, &Atom::LiteralString(s("x")), &vec![], true, true, false);
    assert_eq!(describe(&types), vec!["Nothing"]);
    assert_eq!(issue, None);
}
