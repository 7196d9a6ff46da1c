use hakana_analyzer::scope::control_action::ControlAction;
use hakana_analyzer::stmt::control_analyzer::{get_control_actions, BreakContext, Callee, Stmt};

fn plain() -> Stmt {
    Stmt::Expr { call: None, type_is_nothing: false }
}

fn call_function(name: &str, returns_nothing: bool) -> Stmt {
    Stmt::Expr {
        call: Some(Callee::Function { name: name.to_string(), returns_nothing }),
        type_is_nothing: false,
    }
}

fn call_static(class_name: &str, returns_nothing: bool) -> Stmt {
    Stmt::Expr {
        call: Some(Callee::StaticMethod { class_name: class_name.to_string(), returns_nothing }),
        type_is_nothing: false,
    }
}

fn actions(stmts: Vec<Stmt>, context: Vec<BreakContext>, return_is_exit: bool) -> Vec<ControlAction> {
    get_control_actions(&stmts, context, return_is_exit).to_vec()
}

#[test]
fn empty_block_proceeds() {
    assert_eq!(actions(vec![], vec![], true), vec![ControlAction::Proceed]);
}

#[test]
fn plain_expressions_proceed() {
    assert_eq!(
        actions(vec![plain(), Stmt::Noop], vec![], true),
        vec![ControlAction::Proceed]
    );
}

#[test]
fn exit_call_ends() {
    assert_eq!(
        actions(vec![call_function("exit", false), Stmt::Return], vec![], false),
        vec![ControlAction::End]
    );
}

#[test]
fn return_ends_or_returns() {
    assert_eq!(actions(vec![Stmt::Return], vec![], true), vec![ControlAction::End]);
    assert_eq!(actions(vec![Stmt::Return], vec![], false), vec![ControlAction::Return]);
    assert_eq!(actions(vec![Stmt::Throw], vec![], false), vec![ControlAction::End]);
}

#[test]
fn break_depends_on_innermost_context() {
    assert_eq!(actions(vec![Stmt::Break], vec![], true), vec![ControlAction::Break]);
    assert_eq!(
        actions(vec![Stmt::Break], vec![BreakContext::Switch, BreakContext::Loop], true),
        vec![ControlAction::BreakImmediateLoop]
    );
    assert_eq!(
        actions(vec![Stmt::Break], vec![BreakContext::Loop, BreakContext::Switch], true),
        vec![ControlAction::LeaveSwitch]
    );
    assert_eq!(actions(vec![Stmt::Continue], vec![], true), vec![ControlAction::Continue]);
}

#[test]
fn if_with_both_branches_leaving_leaves() {
    let stmt = Stmt::If { then_block: vec![Stmt::Return], else_block: vec![Stmt::Throw] };
    assert_eq!(actions(vec![stmt, Stmt::Continue], vec![], true), vec![ControlAction::End]);
}

#[test]
fn if_with_one_branch_leaving_may_proceed() {
    let stmt = Stmt::If { then_block: vec![Stmt::Return], else_block: vec![] };
    assert_eq!(
        actions(vec![stmt], vec![], true),
        vec![ControlAction::End, ControlAction::Proceed]
    );
    let stmt = Stmt::If { then_block: vec![Stmt::Return], else_block: vec![] };
    assert_eq!(
        actions(vec![stmt, Stmt::Continue], vec![], true),
        vec![ControlAction::End, ControlAction::Continue]
    );
}

#[test]
fn break_inside_loop_stays_in_loop() {
    let stmt = Stmt::Foreach { body: vec![Stmt::Break] };
    assert_eq!(actions(vec![stmt], vec![], true), vec![ControlAction::Proceed]);
    let stmt = Stmt::While { body: vec![Stmt::Break], cond_always_truthy: true };
    assert_eq!(actions(vec![stmt], vec![], true), vec![ControlAction::Proceed]);
}

#[test]
fn infinite_loop_that_only_returns_leaves() {
    let stmt = Stmt::While { body: vec![Stmt::Return], cond_always_truthy: true };
    assert_eq!(actions(vec![stmt], vec![], false), vec![ControlAction::Return]);
    let stmt = Stmt::For { body: vec![Stmt::Return], infinite: false };
    assert_eq!(actions(vec![stmt], vec![], false), vec![ControlAction::Proceed, ControlAction::Return]);
    let stmt = Stmt::Do { body: vec![Stmt::Return] };
    assert_eq!(actions(vec![stmt], vec![], false), vec![ControlAction::Proceed, ControlAction::Return]);
}

#[test]
fn empty_infinite_loop_never_leaves() {
    let stmt = Stmt::For { body: vec![], infinite: true };
    assert_eq!(actions(vec![stmt, Stmt::Return], vec![], true), vec![]);
}

#[test]
fn switch_whose_cases_all_end() {
    let switch = || Stmt::Switch {
        cases: vec![vec![Stmt::Return], vec![Stmt::Throw]],
        default_case: None,
        fully_matched: false,
    };
    assert_eq!(
        actions(vec![switch()], vec![], true),
        vec![ControlAction::End, ControlAction::Proceed]
    );
    let matched = Stmt::Switch {
        cases: vec![vec![Stmt::Return], vec![Stmt::Throw]],
        default_case: None,
        fully_matched: true,
    };
    assert_eq!(actions(vec![matched], vec![], true), vec![ControlAction::End]);
    let with_default = Stmt::Switch {
        cases: vec![vec![Stmt::Return]],
        default_case: Some(vec![Stmt::Throw]),
        fully_matched: false,
    };
    assert_eq!(actions(vec![with_default], vec![], false), vec![ControlAction::End, ControlAction::Return]);
}

#[test]
fn switch_with_a_breaking_case_is_skipped() {
    let stmt = Stmt::Switch {
        cases: vec![vec![Stmt::Return], vec![Stmt::Break]],
        default_case: Some(vec![Stmt::Throw]),
        fully_matched: true,
    };
    assert_eq!(actions(vec![stmt], vec![], true), vec![ControlAction::Proceed]);
}

#[test]
fn switch_with_a_falling_through_last_case_is_skipped() {
    let stmt = Stmt::Switch {
        cases: vec![vec![Stmt::Return], vec![plain()]],
        default_case: None,
        fully_matched: true,
    };
    assert_eq!(actions(vec![stmt], vec![], true), vec![ControlAction::Proceed]);
}

#[test]
fn try_that_leaves_without_catches() {
    let stmt = Stmt::Try { body: vec![Stmt::Return], catches: vec![], finally_block: vec![] };
    assert_eq!(actions(vec![stmt], vec![], true), vec![ControlAction::End]);
}

#[test]
fn try_with_leaving_catch_may_proceed() {
    let stmt = Stmt::Try {
        body: vec![plain()],
        catches: vec![vec![Stmt::Throw]],
        finally_block: vec![],
    };
    assert_eq!(
        actions(vec![stmt], vec![], true),
        vec![ControlAction::End, ControlAction::Proceed]
    );
}

#[test]
fn try_and_catches_that_all_leave() {
    let stmt = Stmt::Try {
        body: vec![Stmt::Return],
        catches: vec![vec![Stmt::Throw], vec![Stmt::Continue]],
        finally_block: vec![],
    };
    assert_eq!(
        actions(vec![stmt], vec![], false),
        vec![ControlAction::End, ControlAction::Continue, ControlAction::Return]
    );
}

#[test]
fn leaving_finally_leaves() {
    let stmt = Stmt::Try {
        body: vec![plain()],
        catches: vec![vec![plain()]],
        finally_block: vec![Stmt::Throw],
    };
    assert_eq!(actions(vec![stmt], vec![], true), vec![ControlAction::End]);
}

#[test]
fn blocks_pass_their_actions_on() {
    assert_eq!(
        actions(vec![Stmt::Block(vec![Stmt::Continue]), Stmt::Return], vec![], true),
        vec![ControlAction::Continue]
    );
    assert_eq!(
        actions(vec![Stmt::Concurrent(vec![Stmt::Noop]), Stmt::Return], vec![], false),
        vec![ControlAction::Return]
    );
    assert_eq!(
        actions(vec![Stmt::Awaitall(vec![call_function("exit", false)])], vec![], true),
        vec![ControlAction::End]
    );
    assert_eq!(
        actions(vec![Stmt::Awaitall(vec![]), Stmt::Markup], vec![], true),
        vec![ControlAction::Proceed]
    );
}

#[test]
fn loop_break_does_not_escape_nested_statements() {
    let body = vec![Stmt::If {
        then_block: vec![Stmt::Block(vec![Stmt::Break])],
        else_block: vec![Stmt::Continue],
    }];
    let stmt = Stmt::While { body, cond_always_truthy: false };
    let result = get_control_actions(&vec![stmt], vec![], true);
    assert!(!result.contains(ControlAction::BreakImmediateLoop));
    assert!(result.contains(ControlAction::Continue));
}

#[test]
fn calls_that_never_return_end() {
    assert_eq!(actions(vec![call_function("die", false)], vec![], true), vec![ControlAction::End]);
    assert_eq!(actions(vec![call_function("fail", true)], vec![], true), vec![ControlAction::End]);
    assert_eq!(actions(vec![call_function("exits", false)], vec![], true), vec![ControlAction::Proceed]);
    assert_eq!(actions(vec![call_static("Fail", true)], vec![], true), vec![ControlAction::End]);
    assert_eq!(actions(vec![call_static("Fail", false)], vec![], true), vec![ControlAction::Proceed]);
}

#[test]
fn static_calls_through_self_parent_or_static_do_not_end() {
    for class_name in ["self", "parent", "static"] {
        assert_eq!(
            actions(vec![call_static(class_name, true)], vec![], true),
            vec![ControlAction::Proceed]
        );
    }
}

#[test]
fn expressions_of_type_nothing_end() {
    let stmt = Stmt::Expr { call: Some(Callee::Other), type_is_nothing: true };
    assert_eq!(actions(vec![stmt], vec![], true), vec![ControlAction::End]);
    let stmt = Stmt::Expr { call: Some(Callee::Other), type_is_nothing: false };
    assert_eq!(actions(vec![stmt], vec![], true), vec![ControlAction::Proceed]);
}

#[test]
fn statements_after_a_throw_are_ignored() {
    let with_tail = actions(
        vec![plain(), Stmt::Throw, Stmt::Break, call_function("exit", false)],
        vec![],
        false,
    );
    let without_tail = actions(vec![plain(), Stmt::Throw], vec![], false);
    assert_eq!(with_tail, without_tail);
    assert_eq!(with_tail, vec![ControlAction::End]);
}

#[test]
fn bare_break_is_reported_only_outside_loops_and_switches() {
    let body = || {
        vec![Stmt::If { then_block: vec![Stmt::Break], else_block: vec![Stmt::Continue] }]
    };
    assert!(actions(body(), vec![], true).contains(&ControlAction::Break));
    assert!(!actions(body(), vec![BreakContext::Loop], true).contains(&ControlAction::Break));
    assert!(!actions(vec![Stmt::Foreach { body: body() }], vec![], true).contains(&ControlAction::Break));
}
