//! Which ways control can leave a list of statements: falling through to what
//! follows, breaking, continuing, leaving a `switch`, returning, or ending the
//! function (throw, exit, or a call that never returns).

use vstd::prelude::*;

use crate::scope::chars_of;
use crate::scope::control_action::{only_ends, ControlAction, ControlActionSet};

verus! {

/// What `break` leaves in the innermost enclosing construct.
#[derive(Clone, Copy, PartialEq, Eq, Debug, Structural)]
pub enum BreakContext {
    Switch,
    Loop,
}

/// The callee of a call expression, with what the codebase declares of it.
#[derive(Debug)]
pub enum Callee {
    /// A function called by the name written at the call; `returns_nothing`
    /// holds when the name resolves to a function declared to return
    /// `nothing`.
    Function { name: String, returns_nothing: bool },
    /// A static method called on the class written at the call;
    /// `returns_nothing` holds when the class and method resolve to a method
    /// declared to return `nothing`.
    StaticMethod { class_name: String, returns_nothing: bool },
    /// Any other callee.
    Other,
}

/// Whether a call never returns: `exit` or `die`, or a callee declared to
/// return `nothing` (for static methods, not through `self`, `parent` or
/// `static`).
pub open spec fn call_never_returns(callee: Callee) -> bool {
    match callee {
        Callee::Function { name, returns_nothing } => name@ == "exit"@ || name@ == "die"@
            || returns_nothing,
        Callee::StaticMethod { class_name, returns_nothing } => !(class_name@ == "self"@
            || class_name@ == "parent"@ || class_name@ == "static"@) && returns_nothing,
        Callee::Other => false,
    }
}

/// A statement as far as its control flow is concerned. Facts that come from
/// type inference are carried as flags.
#[derive(Debug)]
pub enum Stmt {
    /// An expression statement: the call it makes, if it is a call, and
    /// whether its inferred type is `nothing` (false when no inferred types
    /// are available).
    Expr { call: Option<Callee>, type_is_nothing: bool },
    Break,
    Continue,
    Throw,
    Return,
    If { then_block: Vec<Stmt>, else_block: Vec<Stmt> },
    Do { body: Vec<Stmt> },
    /// `cond_always_truthy` holds when types were inferred for the function and
    /// the condition's inferred type is always truthy; it is false when no
    /// inferred types are available or the condition has none.
    While { body: Vec<Stmt>, cond_always_truthy: bool },
    /// `infinite` holds when types were inferred for the function and the loop
    /// has no condition or its condition's inferred type is always truthy; it
    /// is false when no inferred types are available, or when the condition
    /// has no inferred type.
    For { body: Vec<Stmt>, infinite: bool },
    Foreach { body: Vec<Stmt> },
    /// `fully_matched` holds when types were inferred for the function and
    /// the cases are known to cover every value of the subject; it is false
    /// when no inferred types are available.
    Switch { cases: Vec<Vec<Stmt>>, default_case: Option<Vec<Stmt>>, fully_matched: bool },
    Try { body: Vec<Stmt>, catches: Vec<Vec<Stmt>>, finally_block: Vec<Stmt> },
    Block(Vec<Stmt>),
    Concurrent(Vec<Stmt>),
    Awaitall(Vec<Stmt>),
    Fallthrough,
    YieldBreak,
    Using,
    Noop,
    Markup,
    DeclareLocal,
    Match,
}

/// Whether control may fall through past statements with these actions.
pub open spec fn may_proceed(actions: Set<ControlAction>) -> bool {
    actions.contains(ControlAction::Proceed)
}

/// Whether actions of a `switch` case send control out of the case other than
/// by ending the function.
pub open spec fn leaves_case(actions: Set<ControlAction>) -> bool {
    actions.contains(ControlAction::LeaveSwitch) || actions.contains(ControlAction::Break)
        || actions.contains(ControlAction::Continue)
}

/// The control actions of a list of statements, in the given nesting of
/// loops and switches; with `return_is_exit`, a `return` counts as ending.
pub open spec fn control_actions_of(
    stmts: Seq<Stmt>,
    break_context: Seq<BreakContext>,
    return_is_exit: bool,
) -> Set<ControlAction>
    decreases stmts, stmts.len() + 1,
{
    if stmts.len() == 0 {
        set![ControlAction::Proceed]
    } else {
        actions_from(stmts, 0, Set::empty(), break_context, return_is_exit)
    }
}

/// The actions collected when statements from index `i` on are examined with
/// `acc` gathered so far.
pub open spec fn actions_from(
    stmts: Seq<Stmt>,
    i: int,
    acc: Set<ControlAction>,
    break_context: Seq<BreakContext>,
    return_is_exit: bool,
) -> Set<ControlAction>
    decreases stmts, stmts.len() - i,
{
    if i < 0 || i >= stmts.len() {
        acc.insert(ControlAction::Proceed)
    } else {
        let (next, done) = stmt_actions(stmts[i], acc, break_context, return_is_exit);
        if done {
            next
        } else {
            actions_from(stmts, i + 1, next, break_context, return_is_exit)
        }
    }
}

/// The effect of a loop body's actions on those collected so far; `checked_infinite`
/// holds for a loop known never to stop on its own.
pub open spec fn loop_actions(
    acc: Set<ControlAction>,
    body_actions: Set<ControlAction>,
    checked_infinite: bool,
) -> (Set<ControlAction>, bool) {
    let merged = acc.union(body_actions).remove(ControlAction::Proceed);
    if checked_infinite && only_ends(merged) {
        (merged, true)
    } else {
        (merged.remove(ControlAction::BreakImmediateLoop), false)
    }
}

/// The effect of a nested block's actions on those collected so far.
pub open spec fn block_actions(acc: Set<ControlAction>, inner: Set<ControlAction>) -> (
    Set<ControlAction>,
    bool,
) {
    if !may_proceed(inner) {
        (acc.union(inner).remove(ControlAction::Proceed), true)
    } else {
        (acc.union(inner.remove(ControlAction::Proceed)), false)
    }
}

/// The state of a walk over `switch` cases: whether a case seen so far ends,
/// and all their actions; `None` once the switch is known to be left by a
/// case, or to let control fall out of it.
pub open spec fn switch_case_step(
    state: Option<(bool, Set<ControlAction>)>,
    case_actions: Set<ControlAction>,
) -> Option<(bool, Set<ControlAction>)> {
    match state {
        Option::None => Option::None,
        Option::Some((has_ended, all)) => if leaves_case(case_actions) {
            Option::None
        } else {
            let does_end = only_ends(case_actions);
            if !does_end && !has_ended {
                Option::None
            } else {
                Option::Some((has_ended || does_end, all.union(case_actions)))
            }
        },
    }
}

/// The walk over the first `k` cases, taken from the last to the first.
pub open spec fn switch_cases_from(
    cases: Seq<Vec<Stmt>>,
    k: int,
    break_context: Seq<BreakContext>,
    return_is_exit: bool,
) -> Option<(bool, Set<ControlAction>)>
    decreases cases, k,
{
    if k <= 0 || k > cases.len() {
        Option::Some((false, Set::empty()))
    } else {
        switch_case_step(
            switch_cases_from(cases, k - 1, break_context, return_is_exit),
            control_actions_of(
                cases[cases.len() - k]@,
                break_context.push(BreakContext::Switch),
                return_is_exit,
            ),
        )
    }
}

/// The state of a walk over `catch` blocks: whether all leave so far, the
/// actions collected, and the actions of the leaving catches.
pub open spec fn catches_from(
    catches: Seq<Vec<Stmt>>,
    k: int,
    all_leave: bool,
    acc: Set<ControlAction>,
    leaving: Set<ControlAction>,
    break_context: Seq<BreakContext>,
    return_is_exit: bool,
) -> (bool, Set<ControlAction>, Set<ControlAction>)
    decreases catches, catches.len() - k,
{
    if k < 0 || k >= catches.len() {
        (all_leave, acc, leaving)
    } else {
        let catch_actions = control_actions_of(catches[k]@, break_context, return_is_exit);
        let now_all_leave = all_leave && !may_proceed(catch_actions);
        if !now_all_leave {
            catches_from(
                catches,
                k + 1,
                now_all_leave,
                acc.union(catch_actions),
                leaving,
                break_context,
                return_is_exit,
            )
        } else {
            catches_from(
                catches,
                k + 1,
                now_all_leave,
                acc,
                leaving.union(catch_actions),
                break_context,
                return_is_exit,
            )
        }
    }
}

/// The effect of one statement on the actions collected so far, and whether
/// the statements after it are no longer examined.
pub open spec fn stmt_actions(
    stmt: Stmt,
    acc: Set<ControlAction>,
    break_context: Seq<BreakContext>,
    return_is_exit: bool,
) -> (Set<ControlAction>, bool)
    decreases stmt, 0int,
{
    match stmt {
        Stmt::Expr { call, type_is_nothing } => if (call matches Option::Some(c)
            && call_never_returns(c)) || type_is_nothing {
            (acc.insert(ControlAction::End), true)
        } else {
            (acc, false)
        },
        Stmt::Break => if break_context.len() > 0 {
            match break_context.last() {
                BreakContext::Switch => (acc.insert(ControlAction::LeaveSwitch), true),
                BreakContext::Loop => (acc.insert(ControlAction::BreakImmediateLoop), true),
            }
        } else {
            (acc.insert(ControlAction::Break), true)
        },
        Stmt::Continue => (acc.insert(ControlAction::Continue), true),
        Stmt::Throw => (acc.insert(ControlAction::End), true),
        Stmt::Return => if !return_is_exit {
            (acc.insert(ControlAction::Return), true)
        } else {
            (acc.insert(ControlAction::End), true)
        },
        Stmt::If { then_block, else_block } => {
            let then_actions = control_actions_of(then_block@, break_context, return_is_exit);
            let else_actions = control_actions_of(else_block@, break_context, return_is_exit);
            let merged = acc.union(then_actions).union(else_actions);
            if !may_proceed(then_actions) && !may_proceed(else_actions) {
                (merged, true)
            } else {
                (merged.remove(ControlAction::Proceed), false)
            }
        },
        Stmt::Do { body } => loop_actions(
            acc,
            control_actions_of(body@, break_context.push(BreakContext::Loop), return_is_exit),
            false,
        ),
        Stmt::While { body, cond_always_truthy } => loop_actions(
            acc,
            control_actions_of(body@, break_context.push(BreakContext::Loop), return_is_exit),
            cond_always_truthy,
        ),
        Stmt::For { body, infinite } => loop_actions(
            acc,
            control_actions_of(body@, break_context.push(BreakContext::Loop), return_is_exit),
            infinite,
        ),
        Stmt::Foreach { body } => loop_actions(
            acc,
            control_actions_of(body@, break_context.push(BreakContext::Loop), return_is_exit),
            false,
        ),
        Stmt::Switch { cases, default_case, fully_matched } => {
            let after_cases = switch_cases_from(
                cases@,
                cases@.len() as int,
                break_context,
                return_is_exit,
            );
            let after_default = match default_case {
                Option::Some(d) => switch_case_step(
                    after_cases,
                    control_actions_of(
                        d@,
                        break_context.push(BreakContext::Switch),
                        return_is_exit,
                    ),
                ),
                Option::None => after_cases,
            };
            match after_default {
                Option::None => (acc, false),
                Option::Some((_, all)) => (
                    acc.union(all),
                    default_case is Some || fully_matched,
                ),
            }
        },
        Stmt::Try { body, catches, finally_block } => {
            let try_actions = control_actions_of(body@, break_context, return_is_exit);
            let try_leaves = !may_proceed(try_actions);
            let (all_leave, after_catches, leaving) = catches_from(
                catches@,
                0,
                try_leaves,
                acc,
                Set::empty(),
                break_context,
                return_is_exit,
            );
            if catches@.len() > 0 && all_leave && try_actions != set![ControlAction::Proceed] {
                (after_catches.union(try_actions).union(leaving), true)
            } else if catches@.len() == 0 && try_leaves {
                (acc.union(try_actions), true)
            } else {
                let finally_actions = control_actions_of(
                    finally_block@,
                    break_context,
                    return_is_exit,
                );
                if finally_block@.len() > 0 && !may_proceed(finally_actions) {
                    (after_catches.remove(ControlAction::Proceed).union(finally_actions), true)
                } else {
                    (after_catches.union(try_actions).remove(ControlAction::Proceed), false)
                }
            }
        },
        Stmt::Block(inner) => block_actions(
            acc,
            control_actions_of(inner@, break_context, return_is_exit),
        ),
        Stmt::Concurrent(inner) => block_actions(
            acc,
            control_actions_of(inner@, break_context, return_is_exit),
        ),
        Stmt::Awaitall(inner) => {
            let inner_actions = control_actions_of(inner@, break_context, return_is_exit);
            if !may_proceed(inner_actions) {
                (acc.remove(ControlAction::Proceed).union(inner_actions), true)
            } else {
                (acc.union(inner_actions.remove(ControlAction::Proceed)), false)
            }
        },
        _ => (acc, false),
    }
}

/// Whether an action cannot leave statements examined in this break context:
/// `Return` when returns count as ending, breaking the immediate loop outside
/// a loop body, leaving a switch outside a switch case, and a `Break` that
/// leaves no construct inside any loop or switch.
pub open spec fn cannot_escape(
    action: ControlAction,
    break_context: Seq<BreakContext>,
    return_is_exit: bool,
) -> bool {
    ||| action == ControlAction::Return && return_is_exit
    ||| action == ControlAction::Break && break_context.len() > 0
    ||| action == ControlAction::BreakImmediateLoop && !(break_context.len() > 0
        && break_context.last() == BreakContext::Loop)
    ||| action == ControlAction::LeaveSwitch && !(break_context.len() > 0 && break_context.last()
        == BreakContext::Switch)
}

/// A `return` counts as ending when `return_is_exit` holds; a `break` that
/// leaves the innermost loop is only reported inside that loop's body; a
/// `break` that leaves a switch is only reported inside that switch's cases;
/// a `break` that leaves no construct is only reported outside every loop and
/// switch.
pub proof fn lemma_actions_do_not_escape(
    stmts: Seq<Stmt>,
    break_context: Seq<BreakContext>,
    return_is_exit: bool,
    action: ControlAction,
)
    requires
        cannot_escape(action, break_context, return_is_exit),
    ensures
        !control_actions_of(stmts, break_context, return_is_exit).contains(action),
    decreases stmts, stmts.len() + 1,
{
    if stmts.len() > 0 {
        lemma_actions_from_do_not_escape(
            stmts,
            0,
            Set::empty(),
            break_context,
            return_is_exit,
            action,
        );
    }
}

proof fn lemma_actions_from_do_not_escape(
    stmts: Seq<Stmt>,
    i: int,
    acc: Set<ControlAction>,
    break_context: Seq<BreakContext>,
    return_is_exit: bool,
    action: ControlAction,
)
    requires
        cannot_escape(action, break_context, return_is_exit),
        !acc.contains(action),
    ensures
        !actions_from(stmts, i, acc, break_context, return_is_exit).contains(action),
    decreases stmts, stmts.len() - i,
{
    if 0 <= i < stmts.len() {
        lemma_stmt_actions_do_not_escape(stmts[i], acc, break_context, return_is_exit, action);
        let (next, done) = stmt_actions(stmts[i], acc, break_context, return_is_exit);
        if !done {
            lemma_actions_from_do_not_escape(
                stmts,
                i + 1,
                next,
                break_context,
                return_is_exit,
                action,
            );
        }
    }
}

proof fn lemma_switch_cases_do_not_escape(
    cases: Seq<Vec<Stmt>>,
    k: int,
    break_context: Seq<BreakContext>,
    return_is_exit: bool,
    action: ControlAction,
)
    requires
        cannot_escape(action, break_context, return_is_exit),
    ensures
        switch_cases_from(cases, k, break_context, return_is_exit) matches Option::Some((_, all))
            ==> !all.contains(action),
    decreases cases, k,
{
    if 0 < k <= cases.len() {
        lemma_switch_cases_do_not_escape(cases, k - 1, break_context, return_is_exit, action);
        if action != ControlAction::LeaveSwitch {
            lemma_actions_do_not_escape(
                cases[cases.len() - k]@,
                break_context.push(BreakContext::Switch),
                return_is_exit,
                action,
            );
        }
    }
}

proof fn lemma_catches_do_not_escape(
    catches: Seq<Vec<Stmt>>,
    k: int,
    all_leave: bool,
    acc: Set<ControlAction>,
    leaving: Set<ControlAction>,
    break_context: Seq<BreakContext>,
    return_is_exit: bool,
    action: ControlAction,
)
    requires
        cannot_escape(action, break_context, return_is_exit),
        !acc.contains(action),
        !leaving.contains(action),
    ensures
        !catches_from(catches, k, all_leave, acc, leaving, break_context, return_is_exit).1.contains(
            action,
        ),
        !catches_from(catches, k, all_leave, acc, leaving, break_context, return_is_exit).2.contains(
            action,
        ),
    decreases catches, catches.len() - k,
{
    if 0 <= k < catches.len() {
        let catch_actions = control_actions_of(catches[k]@, break_context, return_is_exit);
        lemma_actions_do_not_escape(catches[k]@, break_context, return_is_exit, action);
        let now_all_leave = all_leave && !may_proceed(catch_actions);
        if !now_all_leave {
            lemma_catches_do_not_escape(
                catches,
                k + 1,
                now_all_leave,
                acc.union(catch_actions),
                leaving,
                break_context,
                return_is_exit,
                action,
            );
        } else {
            lemma_catches_do_not_escape(
                catches,
                k + 1,
                now_all_leave,
                acc,
                leaving.union(catch_actions),
                break_context,
                return_is_exit,
                action,
            );
        }
    }
}

proof fn lemma_stmt_actions_do_not_escape(
    stmt: Stmt,
    acc: Set<ControlAction>,
    break_context: Seq<BreakContext>,
    return_is_exit: bool,
    action: ControlAction,
)
    requires
        cannot_escape(action, break_context, return_is_exit),
        !acc.contains(action),
    ensures
        !stmt_actions(stmt, acc, break_context, return_is_exit).0.contains(action),
    decreases stmt, 0int,
{
    let loop_context = break_context.push(BreakContext::Loop);
    match stmt {
        Stmt::If { then_block, else_block } => {
            lemma_actions_do_not_escape(then_block@, break_context, return_is_exit, action);
            lemma_actions_do_not_escape(else_block@, break_context, return_is_exit, action);
        },
        Stmt::Do { body } => {
            if action != ControlAction::BreakImmediateLoop {
                lemma_actions_do_not_escape(body@, loop_context, return_is_exit, action);
            }
        },
        Stmt::While { body, .. } => {
            if action != ControlAction::BreakImmediateLoop {
                lemma_actions_do_not_escape(body@, loop_context, return_is_exit, action);
            }
        },
        Stmt::For { body, .. } => {
            if action != ControlAction::BreakImmediateLoop {
                lemma_actions_do_not_escape(body@, loop_context, return_is_exit, action);
            }
        },
        Stmt::Foreach { body } => {
            if action != ControlAction::BreakImmediateLoop {
                lemma_actions_do_not_escape(body@, loop_context, return_is_exit, action);
            }
        },
        Stmt::Switch { cases, default_case, .. } => {
            lemma_switch_cases_do_not_escape(
                cases@,
                cases@.len() as int,
                break_context,
                return_is_exit,
                action,
            );
            match default_case {
                Option::Some(d) => {
                    if action != ControlAction::LeaveSwitch {
                        lemma_actions_do_not_escape(
                            d@,
                            break_context.push(BreakContext::Switch),
                            return_is_exit,
                            action,
                        );
                    }
                },
                Option::None => {},
            }
        },
        Stmt::Try { body, catches, finally_block } => {
            lemma_actions_do_not_escape(body@, break_context, return_is_exit, action);
            lemma_actions_do_not_escape(finally_block@, break_context, return_is_exit, action);
            lemma_catches_do_not_escape(
                catches@,
                0,
                !may_proceed(control_actions_of(body@, break_context, return_is_exit)),
                acc,
                Set::empty(),
                break_context,
                return_is_exit,
                action,
            );
        },
        Stmt::Block(inner) => {
            lemma_actions_do_not_escape(inner@, break_context, return_is_exit, action);
        },
        Stmt::Concurrent(inner) => {
            lemma_actions_do_not_escape(inner@, break_context, return_is_exit, action);
        },
        Stmt::Awaitall(inner) => {
            lemma_actions_do_not_escape(inner@, break_context, return_is_exit, action);
        },
        _ => {},
    }
}

/// Whether a statement always ends the examination of the statements after
/// it, whatever was collected before it.
pub open spec fn always_stops(stmt: Stmt) -> bool {
    stmt is Break || stmt is Continue || stmt is Throw || stmt is Return
}

proof fn lemma_actions_from_prefix(
    stmts: Seq<Stmt>,
    k: int,
    i: int,
    acc: Set<ControlAction>,
    break_context: Seq<BreakContext>,
    return_is_exit: bool,
)
    requires
        0 <= i <= k < stmts.len(),
        always_stops(stmts[k]),
    ensures
        actions_from(stmts, i, acc, break_context, return_is_exit) == actions_from(
            stmts.take(k + 1),
            i,
            acc,
            break_context,
            return_is_exit,
        ),
    decreases k - i,
{
    let prefix = stmts.take(k + 1);
    assert(prefix.len() == k + 1);
    assert(prefix[i] == stmts[i]);
    if i == k {
        assert(stmt_actions(stmts[k], acc, break_context, return_is_exit).1);
    } else {
        let (next, done) = stmt_actions(stmts[i], acc, break_context, return_is_exit);
        if !done {
            lemma_actions_from_prefix(stmts, k, i + 1, next, break_context, return_is_exit);
        }
    }
}

/// The statements after a `break`, `continue`, `throw` or `return` never
/// change the control actions of a list of statements.
pub proof fn lemma_statements_after_exit_do_not_matter(
    stmts: Seq<Stmt>,
    k: int,
    break_context: Seq<BreakContext>,
    return_is_exit: bool,
)
    requires
        0 <= k < stmts.len(),
        always_stops(stmts[k]),
    ensures
        control_actions_of(stmts, break_context, return_is_exit) == control_actions_of(
            stmts.take(k + 1),
            break_context,
            return_is_exit,
        ),
{
    lemma_actions_from_prefix(stmts, k, 0, Set::empty(), break_context, return_is_exit);
}

/// A `try` whose body may fall through, with no `finally` block or one that
/// may fall through, keeps every way its body leaves: each action of the body
/// other than falling through is an action of the `try`, which may itself
/// fall through.
pub proof fn lemma_try_keeps_body_actions(
    body: Vec<Stmt>,
    catches: Vec<Vec<Stmt>>,
    finally_block: Vec<Stmt>,
    break_context: Seq<BreakContext>,
    return_is_exit: bool,
)
    requires
        may_proceed(control_actions_of(body@, break_context, return_is_exit)),
        finally_block@.len() == 0 || may_proceed(
            control_actions_of(finally_block@, break_context, return_is_exit),
        ),
    ensures
        ({
            let result = control_actions_of(
                seq![Stmt::Try { body, catches, finally_block }],
                break_context,
                return_is_exit,
            );
            &&& control_actions_of(body@, break_context, return_is_exit).remove(
                ControlAction::Proceed,
            ).subset_of(result)
            &&& result.contains(ControlAction::Proceed)
        }),
{
    let stmts = seq![Stmt::Try { body, catches, finally_block }];
    let try_actions = control_actions_of(body@, break_context, return_is_exit);
    lemma_catches_never_all_leave(catches@, 0, Set::empty(), Set::empty(), break_context, return_is_exit);
    let (next, done) = stmt_actions(stmts[0], Set::empty(), break_context, return_is_exit);
    assert(!done);
    assert(try_actions.remove(ControlAction::Proceed).subset_of(next));
    assert(control_actions_of(stmts, break_context, return_is_exit) == next.insert(
        ControlAction::Proceed,
    ));
}

proof fn lemma_catches_never_all_leave(
    catches: Seq<Vec<Stmt>>,
    k: int,
    acc: Set<ControlAction>,
    leaving: Set<ControlAction>,
    break_context: Seq<BreakContext>,
    return_is_exit: bool,
)
    ensures
        !catches_from(catches, k, false, acc, leaving, break_context, return_is_exit).0,
    decreases catches.len() - k,
{
    if 0 <= k < catches.len() {
        let catch_actions = control_actions_of(catches[k]@, break_context, return_is_exit);
        lemma_catches_never_all_leave(
            catches,
            k + 1,
            acc.union(catch_actions),
            leaving,
            break_context,
            return_is_exit,
        );
    }
}

/// A `try` without `catch` blocks whose body cannot fall through has exactly
/// the actions of its body.
pub proof fn lemma_try_without_catches_that_leaves(
    body: Vec<Stmt>,
    catches: Vec<Vec<Stmt>>,
    finally_block: Vec<Stmt>,
    break_context: Seq<BreakContext>,
    return_is_exit: bool,
)
    requires
        catches@.len() == 0,
        !may_proceed(control_actions_of(body@, break_context, return_is_exit)),
    ensures
        control_actions_of(seq![Stmt::Try { body, catches, finally_block }], break_context, return_is_exit)
            == control_actions_of(body@, break_context, return_is_exit),
{
    let stmts = seq![Stmt::Try { body, catches, finally_block }];
    let try_actions = control_actions_of(body@, break_context, return_is_exit);
    let (next, done) = stmt_actions(stmts[0], Set::empty(), break_context, return_is_exit);
    assert(done);
    assert(next =~= try_actions);
}

proof fn lemma_catches_all_leave(
    catches: Seq<Vec<Stmt>>,
    k: int,
    all_leave: bool,
    acc: Set<ControlAction>,
    leaving: Set<ControlAction>,
    break_context: Seq<BreakContext>,
    return_is_exit: bool,
)
    requires
        !leaving.contains(ControlAction::Proceed),
    ensures
        ({
            let r = catches_from(catches, k, all_leave, acc, leaving, break_context, return_is_exit);
            r.0 ==> (all_leave && r.1 == acc && !r.2.contains(ControlAction::Proceed))
        }),
    decreases catches.len() - k,
{
    if 0 <= k < catches.len() {
        let catch_actions = control_actions_of(catches[k]@, break_context, return_is_exit);
        let now_all_leave = all_leave && !may_proceed(catch_actions);
        if !now_all_leave {
            lemma_catches_never_all_leave(
                catches,
                k + 1,
                acc.union(catch_actions),
                leaving,
                break_context,
                return_is_exit,
            );
        } else {
            lemma_catches_all_leave(
                catches,
                k + 1,
                now_all_leave,
                acc,
                leaving.union(catch_actions),
                break_context,
                return_is_exit,
            );
        }
    }
}

/// A `try` whose `finally` block cannot fall through cannot fall through
/// either.
pub proof fn lemma_finally_that_leaves(
    body: Vec<Stmt>,
    catches: Vec<Vec<Stmt>>,
    finally_block: Vec<Stmt>,
    break_context: Seq<BreakContext>,
    return_is_exit: bool,
)
    requires
        finally_block@.len() > 0,
        !may_proceed(control_actions_of(finally_block@, break_context, return_is_exit)),
    ensures
        !may_proceed(
            control_actions_of(
                seq![Stmt::Try { body, catches, finally_block }],
                break_context,
                return_is_exit,
            ),
        ),
{
    let stmts = seq![Stmt::Try { body, catches, finally_block }];
    let try_actions = control_actions_of(body@, break_context, return_is_exit);
    lemma_catches_all_leave(
        catches@,
        0,
        !may_proceed(try_actions),
        Set::empty(),
        Set::empty(),
        break_context,
        return_is_exit,
    );
    let (next, done) = stmt_actions(stmts[0], Set::empty(), break_context, return_is_exit);
    assert(done);
    assert(!next.contains(ControlAction::Proceed));
}

/// An `if` alone has the actions of both its branches together: it falls
/// through exactly when one branch does.
pub proof fn lemma_if_unites_branches(
    then_block: Vec<Stmt>,
    else_block: Vec<Stmt>,
    break_context: Seq<BreakContext>,
    return_is_exit: bool,
)
    ensures
        control_actions_of(seq![Stmt::If { then_block, else_block }], break_context, return_is_exit)
            == control_actions_of(then_block@, break_context, return_is_exit).union(
            control_actions_of(else_block@, break_context, return_is_exit),
        ),
{
    let stmts = seq![Stmt::If { then_block, else_block }];
    let t = control_actions_of(then_block@, break_context, return_is_exit);
    let e = control_actions_of(else_block@, break_context, return_is_exit);
    let (next, done) = stmt_actions(stmts[0], Set::empty(), break_context, return_is_exit);
    if done {
        assert(next =~= t.union(e));
    } else {
        assert(next.insert(ControlAction::Proceed) =~= t.union(e));
    }
}

/// A block alone has the actions of its statements.
pub proof fn lemma_block_keeps_actions(
    inner: Vec<Stmt>,
    break_context: Seq<BreakContext>,
    return_is_exit: bool,
)
    ensures
        control_actions_of(seq![Stmt::Block(inner)], break_context, return_is_exit)
            == control_actions_of(inner@, break_context, return_is_exit),
{
    let stmts = seq![Stmt::Block(inner)];
    let i = control_actions_of(inner@, break_context, return_is_exit);
    let (next, done) = stmt_actions(stmts[0], Set::empty(), break_context, return_is_exit);
    if done {
        assert(next =~= i);
    } else {
        assert(next.insert(ControlAction::Proceed) =~= i);
    }
}

/// A loop not known to run forever may be left by falling through, and
/// otherwise has the actions of its body, except a `break` out of the loop
/// itself.
pub proof fn lemma_finite_loop_actions(
    body: Vec<Stmt>,
    break_context: Seq<BreakContext>,
    return_is_exit: bool,
)
    ensures
        ({
            let b = control_actions_of(body@, break_context.push(BreakContext::Loop), return_is_exit);
            let expected = b.remove(ControlAction::Proceed).remove(ControlAction::BreakImmediateLoop).insert(
                ControlAction::Proceed,
            );
            &&& control_actions_of(seq![Stmt::Foreach { body }], break_context, return_is_exit) == expected
            &&& control_actions_of(seq![Stmt::Do { body }], break_context, return_is_exit) == expected
            &&& control_actions_of(
                seq![Stmt::While { body, cond_always_truthy: false }],
                break_context,
                return_is_exit,
            ) == expected
            &&& control_actions_of(seq![Stmt::For { body, infinite: false }], break_context, return_is_exit)
                == expected
        }),
{
    let b = control_actions_of(body@, break_context.push(BreakContext::Loop), return_is_exit);
    let expected = b.remove(ControlAction::Proceed).remove(ControlAction::BreakImmediateLoop).insert(
        ControlAction::Proceed,
    );
    let merged = Set::<ControlAction>::empty().union(b).remove(ControlAction::Proceed);
    assert(merged.remove(ControlAction::BreakImmediateLoop).insert(ControlAction::Proceed) =~= expected);
    let s1 = seq![Stmt::Foreach { body }];
    let s2 = seq![Stmt::Do { body }];
    let s3 = seq![Stmt::While { body, cond_always_truthy: false }];
    let s4 = seq![Stmt::For { body, infinite: false }];
    assert(stmt_actions(s1[0], Set::empty(), break_context, return_is_exit) == (merged.remove(ControlAction::BreakImmediateLoop), false));
    assert(stmt_actions(s2[0], Set::empty(), break_context, return_is_exit) == (merged.remove(ControlAction::BreakImmediateLoop), false));
    assert(stmt_actions(s3[0], Set::empty(), break_context, return_is_exit) == (merged.remove(ControlAction::BreakImmediateLoop), false));
    assert(stmt_actions(s4[0], Set::empty(), break_context, return_is_exit) == (merged.remove(ControlAction::BreakImmediateLoop), false));
}

/// A loop known to run forever whose body only ends the function or
/// returns never falls through: it has exactly the body's actions other than
/// falling through. If its body may do anything else, it behaves like a loop
/// that may stop.
pub proof fn lemma_infinite_loop_actions(
    body: Vec<Stmt>,
    break_context: Seq<BreakContext>,
    return_is_exit: bool,
)
    ensures
        ({
            let b = control_actions_of(body@, break_context.push(BreakContext::Loop), return_is_exit);
            let m = b.remove(ControlAction::Proceed);
            let expected = if only_ends(m) {
                m
            } else {
                m.remove(ControlAction::BreakImmediateLoop).insert(ControlAction::Proceed)
            };
            &&& control_actions_of(
                seq![Stmt::While { body, cond_always_truthy: true }],
                break_context,
                return_is_exit,
            ) == expected
            &&& control_actions_of(seq![Stmt::For { body, infinite: true }], break_context, return_is_exit)
                == expected
        }),
{
    let b = control_actions_of(body@, break_context.push(BreakContext::Loop), return_is_exit);
    let m = b.remove(ControlAction::Proceed);
    let merged = Set::<ControlAction>::empty().union(b).remove(ControlAction::Proceed);
    assert(merged =~= m);
}

/// What a simple statement alone does: `throw` ends; `return` returns, or
/// ends when returns count as ending; `continue` continues; `break` leaves
/// the innermost switch or loop, or is a bare break outside both; a call that
/// never returns ends, and any other expression of a type other than
/// `nothing` falls through.
pub proof fn lemma_simple_statement_actions(
    call: Option<Callee>,
    break_context: Seq<BreakContext>,
    return_is_exit: bool,
)
    ensures
        control_actions_of(seq![Stmt::Throw], break_context, return_is_exit) == set![ControlAction::End],
        control_actions_of(seq![Stmt::Return], break_context, return_is_exit) == set![
            if return_is_exit {
                ControlAction::End
            } else {
                ControlAction::Return
            },
        ],
        control_actions_of(seq![Stmt::Continue], break_context, return_is_exit) == set![
            ControlAction::Continue,
        ],
        control_actions_of(seq![Stmt::Break], break_context, return_is_exit) == set![
            if break_context.len() == 0 {
                ControlAction::Break
            } else if break_context.last() == BreakContext::Loop {
                ControlAction::BreakImmediateLoop
            } else {
                ControlAction::LeaveSwitch
            },
        ],
        control_actions_of(
            seq![Stmt::Expr { call, type_is_nothing: false }],
            break_context,
            return_is_exit,
        ) == if call matches Option::Some(c) && call_never_returns(c) {
            set![ControlAction::End]
        } else {
            set![ControlAction::Proceed]
        },
        control_actions_of(
            seq![Stmt::Expr { call, type_is_nothing: true }],
            break_context,
            return_is_exit,
        ) == set![ControlAction::End],
{
    let e = Set::<ControlAction>::empty();
    assert(e.insert(ControlAction::End) =~= set![ControlAction::End]);
    assert(e.insert(ControlAction::Return) =~= set![ControlAction::Return]);
    assert(e.insert(ControlAction::Continue) =~= set![ControlAction::Continue]);
    assert(e.insert(ControlAction::Break) =~= set![ControlAction::Break]);
    assert(e.insert(ControlAction::BreakImmediateLoop) =~= set![ControlAction::BreakImmediateLoop]);
    assert(e.insert(ControlAction::LeaveSwitch) =~= set![ControlAction::LeaveSwitch]);
    assert(e.insert(ControlAction::Proceed) =~= set![ControlAction::Proceed]);
    let s1 = seq![Stmt::Throw];
    let s2 = seq![Stmt::Return];
    let s3 = seq![Stmt::Continue];
    let s4 = seq![Stmt::Break];
    let s5 = seq![Stmt::Expr { call, type_is_nothing: false }];
    let s6 = seq![Stmt::Expr { call, type_is_nothing: true }];
    assert(stmt_actions(s1[0], e, break_context, return_is_exit).1);
    assert(stmt_actions(s2[0], e, break_context, return_is_exit).1);
    assert(stmt_actions(s3[0], e, break_context, return_is_exit).1);
    assert(stmt_actions(s4[0], e, break_context, return_is_exit).1);
    assert(stmt_actions(s6[0], e, break_context, return_is_exit).1);
    let (n5, d5) = stmt_actions(s5[0], e, break_context, return_is_exit);
    if !d5 {
        assert(n5 == e);
    }
}

/// A `switch` without a default case whose cases are not known to cover
/// every value may fall through.
pub proof fn lemma_open_switch_may_proceed(
    cases: Vec<Vec<Stmt>>,
    break_context: Seq<BreakContext>,
    return_is_exit: bool,
)
    ensures
        may_proceed(
            control_actions_of(
                seq![Stmt::Switch { cases, default_case: Option::None, fully_matched: false }],
                break_context,
                return_is_exit,
            ),
        ),
{
    let stmts = seq![Stmt::Switch { cases, default_case: Option::None, fully_matched: false }];
    let (next, done) = stmt_actions(stmts[0], Set::empty(), break_context, return_is_exit);
    assert(!done);
}

proof fn lemma_actions_from_shift(
    pre: Seq<Stmt>,
    rest: Seq<Stmt>,
    i: int,
    acc: Set<ControlAction>,
    break_context: Seq<BreakContext>,
    return_is_exit: bool,
)
    requires
        0 <= i <= rest.len(),
    ensures
        actions_from(pre + rest, pre.len() + i, acc, break_context, return_is_exit) == actions_from(
            rest,
            i,
            acc,
            break_context,
            return_is_exit,
        ),
    decreases rest.len() - i,
{
    if i < rest.len() {
        assert((pre + rest)[pre.len() + i] == rest[i]);
        let (next, done) = stmt_actions(rest[i], acc, break_context, return_is_exit);
        if !done {
            lemma_actions_from_shift(pre, rest, i + 1, next, break_context, return_is_exit);
        }
    }
}

/// Statements without control flow of their own, such as a local
/// declaration or an empty statement, change nothing: dropping one from the
/// front of a list keeps the list's actions.
pub proof fn lemma_plain_statement_changes_nothing(
    rest: Seq<Stmt>,
    break_context: Seq<BreakContext>,
    return_is_exit: bool,
)
    ensures
        control_actions_of(seq![Stmt::Noop] + rest, break_context, return_is_exit) == control_actions_of(
            rest,
            break_context,
            return_is_exit,
        ),
        control_actions_of(seq![Stmt::DeclareLocal] + rest, break_context, return_is_exit)
            == control_actions_of(rest, break_context, return_is_exit),
{
    let e = Set::<ControlAction>::empty();
    lemma_actions_from_shift(seq![Stmt::Noop], rest, 0, e, break_context, return_is_exit);
    lemma_actions_from_shift(seq![Stmt::DeclareLocal], rest, 0, e, break_context, return_is_exit);
    assert((seq![Stmt::Noop] + rest)[0] == Stmt::Noop);
    assert((seq![Stmt::DeclareLocal] + rest)[0] == Stmt::DeclareLocal);
    if rest.len() == 0 {
        assert(e.insert(ControlAction::Proceed) =~= set![ControlAction::Proceed]);
    }
}

/// Whether two break contexts agree on the innermost construct.
pub open spec fn same_innermost(a: Seq<BreakContext>, b: Seq<BreakContext>) -> bool {
    (a.len() == 0 && b.len() == 0) || (a.len() > 0 && b.len() > 0 && a.last() == b.last())
}

/// Only the innermost enclosing loop or switch matters: two break contexts
/// that agree on it give the same control actions.
pub proof fn lemma_only_innermost_context_matters(
    stmts: Seq<Stmt>,
    a: Seq<BreakContext>,
    b: Seq<BreakContext>,
    return_is_exit: bool,
)
    requires
        same_innermost(a, b),
    ensures
        control_actions_of(stmts, a, return_is_exit) == control_actions_of(stmts, b, return_is_exit),
    decreases stmts, stmts.len() + 1,
{
    if stmts.len() > 0 {
        lemma_actions_from_innermost(stmts, 0, Set::empty(), a, b, return_is_exit);
    }
}

proof fn lemma_actions_from_innermost(
    stmts: Seq<Stmt>,
    i: int,
    acc: Set<ControlAction>,
    a: Seq<BreakContext>,
    b: Seq<BreakContext>,
    return_is_exit: bool,
)
    requires
        same_innermost(a, b),
    ensures
        actions_from(stmts, i, acc, a, return_is_exit) == actions_from(
            stmts,
            i,
            acc,
            b,
            return_is_exit,
        ),
    decreases stmts, stmts.len() - i,
{
    if 0 <= i < stmts.len() {
        lemma_stmt_actions_innermost(stmts[i], acc, a, b, return_is_exit);
        let (next, done) = stmt_actions(stmts[i], acc, a, return_is_exit);
        if !done {
            lemma_actions_from_innermost(stmts, i + 1, next, a, b, return_is_exit);
        }
    }
}

proof fn lemma_switch_cases_innermost(
    cases: Seq<Vec<Stmt>>,
    k: int,
    a: Seq<BreakContext>,
    b: Seq<BreakContext>,
    return_is_exit: bool,
)
    requires
        same_innermost(a, b),
    ensures
        switch_cases_from(cases, k, a, return_is_exit) == switch_cases_from(
            cases,
            k,
            b,
            return_is_exit,
        ),
    decreases cases, k,
{
    if 0 < k <= cases.len() {
        lemma_switch_cases_innermost(cases, k - 1, a, b, return_is_exit);
        lemma_only_innermost_context_matters(
            cases[cases.len() - k]@,
            a.push(BreakContext::Switch),
            b.push(BreakContext::Switch),
            return_is_exit,
        );
    }
}

proof fn lemma_catches_innermost(
    catches: Seq<Vec<Stmt>>,
    k: int,
    all_leave: bool,
    acc: Set<ControlAction>,
    leaving: Set<ControlAction>,
    a: Seq<BreakContext>,
    b: Seq<BreakContext>,
    return_is_exit: bool,
)
    requires
        same_innermost(a, b),
    ensures
        catches_from(catches, k, all_leave, acc, leaving, a, return_is_exit) == catches_from(
            catches,
            k,
            all_leave,
            acc,
            leaving,
            b,
            return_is_exit,
        ),
    decreases catches, catches.len() - k,
{
    if 0 <= k < catches.len() {
        lemma_only_innermost_context_matters(catches[k]@, a, b, return_is_exit);
        let catch_actions = control_actions_of(catches[k]@, a, return_is_exit);
        let now_all_leave = all_leave && !may_proceed(catch_actions);
        if !now_all_leave {
            lemma_catches_innermost(
                catches,
                k + 1,
                now_all_leave,
                acc.union(catch_actions),
                leaving,
                a,
                b,
                return_is_exit,
            );
        } else {
            lemma_catches_innermost(
                catches,
                k + 1,
                now_all_leave,
                acc,
                leaving.union(catch_actions),
                a,
                b,
                return_is_exit,
            );
        }
    }
}

proof fn lemma_stmt_actions_innermost(
    stmt: Stmt,
    acc: Set<ControlAction>,
    a: Seq<BreakContext>,
    b: Seq<BreakContext>,
    return_is_exit: bool,
)
    requires
        same_innermost(a, b),
    ensures
        stmt_actions(stmt, acc, a, return_is_exit) == stmt_actions(stmt, acc, b, return_is_exit),
    decreases stmt, 0int,
{
    let la = a.push(BreakContext::Loop);
    let lb = b.push(BreakContext::Loop);
    match stmt {
        Stmt::If { then_block, else_block } => {
            lemma_only_innermost_context_matters(then_block@, a, b, return_is_exit);
            lemma_only_innermost_context_matters(else_block@, a, b, return_is_exit);
        },
        Stmt::Do { body } => {
            lemma_only_innermost_context_matters(body@, la, lb, return_is_exit);
        },
        Stmt::While { body, .. } => {
            lemma_only_innermost_context_matters(body@, la, lb, return_is_exit);
        },
        Stmt::For { body, .. } => {
            lemma_only_innermost_context_matters(body@, la, lb, return_is_exit);
        },
        Stmt::Foreach { body } => {
            lemma_only_innermost_context_matters(body@, la, lb, return_is_exit);
        },
        Stmt::Switch { cases, default_case, .. } => {
            lemma_switch_cases_innermost(cases@, cases@.len() as int, a, b, return_is_exit);
            match default_case {
                Option::Some(d) => {
                    lemma_only_innermost_context_matters(
                        d@,
                        a.push(BreakContext::Switch),
                        b.push(BreakContext::Switch),
                        return_is_exit,
                    );
                },
                Option::None => {},
            }
        },
        Stmt::Try { body, catches, finally_block } => {
            lemma_only_innermost_context_matters(body@, a, b, return_is_exit);
            lemma_only_innermost_context_matters(finally_block@, a, b, return_is_exit);
            lemma_catches_innermost(
                catches@,
                0,
                !may_proceed(control_actions_of(body@, a, return_is_exit)),
                acc,
                Set::empty(),
                a,
                b,
                return_is_exit,
            );
        },
        Stmt::Block(inner) => {
            lemma_only_innermost_context_matters(inner@, a, b, return_is_exit);
        },
        Stmt::Concurrent(inner) => {
            lemma_only_innermost_context_matters(inner@, a, b, return_is_exit);
        },
        Stmt::Awaitall(inner) => {
            lemma_only_innermost_context_matters(inner@, a, b, return_is_exit);
        },
        _ => {},
    }
}

/// Once a walk over `switch` cases has stopped, later cases do not restart it.
proof fn lemma_switch_walk_stays_stopped(
    cases: Seq<Vec<Stmt>>,
    k1: int,
    k2: int,
    break_context: Seq<BreakContext>,
    return_is_exit: bool,
)
    requires
        0 <= k1 <= k2 <= cases.len(),
        switch_cases_from(cases, k1, break_context, return_is_exit) is None,
    ensures
        switch_cases_from(cases, k2, break_context, return_is_exit) is None,
    decreases k2 - k1,
{
    if k1 < k2 {
        lemma_switch_walk_stays_stopped(cases, k1, k2 - 1, break_context, return_is_exit);
    }
}

fn copy_context(break_context: &Vec<BreakContext>) -> (r: Vec<BreakContext>)
    ensures
        r@ == break_context@,
{
    let mut r: Vec<BreakContext> = Vec::new();
    let mut i: usize = 0;
    while i < break_context.len()
        invariant
            i <= break_context.len(),
            r@ == break_context@.subrange(0, i as int),
        decreases break_context.len() - i,
    {
        r.push(break_context[i]);
        i += 1;
        assert(r@ =~= break_context@.subrange(0, i as int));
    }
    assert(r@ =~= break_context@);
    r
}

fn pushed_context(break_context: &Vec<BreakContext>, inner: BreakContext) -> (r: Vec<BreakContext>)
    ensures
        r@ == break_context@.push(inner),
{
    let mut r = copy_context(break_context);
    r.push(inner);
    r
}

/// The control actions of `stmts`: the ways control can leave them.
pub fn get_control_actions(
    stmts: &Vec<Stmt>,
    break_context: Vec<BreakContext>,
    return_is_exit: bool,
) -> (r: ControlActionSet)
    ensures
        r@ == control_actions_of(stmts@, break_context@, return_is_exit),
    decreases *stmts, 1int,
{
    let mut control_actions = ControlActionSet::new();

    if stmts.len() == 0 {
        control_actions.insert(ControlAction::Proceed);
        assert(control_actions@ =~= set![ControlAction::Proceed]);
        return control_actions;
    }
    let mut i: usize = 0;
    while i < stmts.len()
        invariant
            i <= stmts.len(),
            stmts.len() > 0,
            control_actions_of(stmts@, break_context@, return_is_exit) == actions_from(
                stmts@,
                i as int,
                control_actions@,
                break_context@,
                return_is_exit,
            ),
        decreases stmts.len() - i,
    {
        let (next, done) = stmt_control_actions(
            &stmts[i],
            control_actions,
            &break_context,
            return_is_exit,
        );
        if done {
            return next;
        }
        control_actions = next;
        i += 1;
    }

    control_actions.insert(ControlAction::Proceed);
    control_actions
}

/// The effect of one statement on the actions collected so far, and whether
/// the statements after it need not be examined.
fn stmt_control_actions(
    stmt: &Stmt,
    control_actions: ControlActionSet,
    break_context: &Vec<BreakContext>,
    return_is_exit: bool,
) -> (r: (ControlActionSet, bool))
    ensures
        r.0@ == stmt_actions(*stmt, control_actions@, break_context@, return_is_exit).0,
        r.1 == stmt_actions(*stmt, control_actions@, break_context@, return_is_exit).1,
    decreases *stmt, 3int,
{
    let mut control_actions = control_actions;
    match stmt {
        Stmt::Expr { call, type_is_nothing } => {
            if let Option::Some(call_expr) = call {
                if let Option::Some(value) = handle_call(call_expr, &control_actions) {
                    return (value, true);
                }
            }
            if *type_is_nothing {
                control_actions.insert(ControlAction::End);
                return (control_actions, true);
            }
            (control_actions, false)
        },
        Stmt::Break => {
            if break_context.len() > 0 {
                match break_context[break_context.len() - 1] {
                    BreakContext::Switch => {
                        if !control_actions.contains(ControlAction::LeaveSwitch) {
                            control_actions.insert(ControlAction::LeaveSwitch);
                        }
                    },
                    BreakContext::Loop => {
                        control_actions.insert(ControlAction::BreakImmediateLoop);
                    },
                }
                return (control_actions, true);
            }
            if !control_actions.contains(ControlAction::Break) {
                control_actions.insert(ControlAction::Break);
            }
            (control_actions, true)
        },
        Stmt::Continue => {
            if !control_actions.contains(ControlAction::Continue) {
                control_actions.insert(ControlAction::Continue);
            }
            (control_actions, true)
        },
        Stmt::Throw => (control_end(control_actions), true),
        Stmt::Return => {
            if !return_is_exit {
                return (control_return(control_actions), true);
            }
            (control_end(control_actions), true)
        },
        Stmt::If { then_block, else_block } => {
            let if_statement_actions = get_control_actions(
                then_block,
                copy_context(break_context),
                return_is_exit,
            );
            let mut all_leave = !if_statement_actions.contains(ControlAction::Proceed);
            let else_statement_actions = get_control_actions(
                else_block,
                copy_context(break_context),
                return_is_exit,
            );
            all_leave = all_leave && !else_statement_actions.contains(ControlAction::Proceed);
            control_actions.extend(&if_statement_actions);
            control_actions.extend(&else_statement_actions);
            if all_leave {
                return (control_actions, true);
            }
            control_actions.remove(ControlAction::Proceed);
            (control_actions, false)
        },
        Stmt::Do { body } => loop_control_actions(
            body,
            false,
            control_actions,
            break_context,
            return_is_exit,
        ),
        Stmt::While { body, cond_always_truthy } => loop_control_actions(
            body,
            *cond_always_truthy,
            control_actions,
            break_context,
            return_is_exit,
        ),
        Stmt::For { body, infinite } => loop_control_actions(
            body,
            *infinite,
            control_actions,
            break_context,
            return_is_exit,
        ),
        Stmt::Foreach { body } => loop_control_actions(
            body,
            false,
            control_actions,
            break_context,
            return_is_exit,
        ),
        Stmt::Switch { .. } => switch_control_actions(
            stmt,
            control_actions,
            break_context,
            return_is_exit,
        ),
        Stmt::Try { .. } => try_control_actions(stmt, control_actions, break_context, return_is_exit),
        Stmt::Block(block_stmts) => {
            let done = handle_block(
                block_stmts,
                break_context,
                return_is_exit,
                &mut control_actions,
            );
            (control_actions, done)
        },
        Stmt::Concurrent(block_stmts) => {
            let done = handle_block(
                block_stmts,
                break_context,
                return_is_exit,
                &mut control_actions,
            );
            (control_actions, done)
        },
        Stmt::Awaitall(block_stmts) => {
            let mut block_actions = get_control_actions(
                block_stmts,
                copy_context(break_context),
                return_is_exit,
            );
            if !block_actions.contains(ControlAction::Proceed) {
                control_actions.remove(ControlAction::Proceed);
                control_actions.extend(&block_actions);
                return (control_actions, true);
            }
            block_actions.remove(ControlAction::Proceed);
            control_actions.extend(&block_actions);
            (control_actions, false)
        },
        _ => (control_actions, false),
    }
}

/// The effect of a loop with the given body.
fn loop_control_actions(
    body: &Vec<Stmt>,
    checked_infinite: bool,
    control_actions: ControlActionSet,
    break_context: &Vec<BreakContext>,
    return_is_exit: bool,
) -> (r: (ControlActionSet, bool))
    ensures
        r.0@ == loop_actions(
            control_actions@,
            control_actions_of(body@, break_context@.push(BreakContext::Loop), return_is_exit),
            checked_infinite,
        ).0,
        r.1 == loop_actions(
            control_actions@,
            control_actions_of(body@, break_context@.push(BreakContext::Loop), return_is_exit),
            checked_infinite,
        ).1,
    decreases *body, 2int,
{
    let mut control_actions = control_actions;
    let loop_break_context = pushed_context(break_context, BreakContext::Loop);
    let loop_actions = get_control_actions(body, loop_break_context, return_is_exit);
    control_actions.extend(&loop_actions);
    control_actions.remove(ControlAction::Proceed);
    if checked_infinite {
        if control_actions.only_ends() {
            return (control_actions, true);
        }
    }
    control_actions.remove(ControlAction::BreakImmediateLoop);
    (control_actions, false)
}

/// Folds the actions of one `switch` case into the walk over the cases.
fn switch_case_control_actions(
    case_stmts: &Vec<Stmt>,
    has_ended: &mut bool,
    all_case_actions: &mut ControlActionSet,
    switch_break_context: &Vec<BreakContext>,
    return_is_exit: bool,
) -> (stopped: bool)
    ensures
        switch_case_step(
            Option::Some((*old(has_ended), old(all_case_actions)@)),
            control_actions_of(case_stmts@, switch_break_context@, return_is_exit),
        ) == if stopped {
            Option::None
        } else {
            Option::Some((*final(has_ended), final(all_case_actions)@))
        },
    decreases *case_stmts, 2int,
{
    let case_actions = get_control_actions(
        case_stmts,
        copy_context(switch_break_context),
        return_is_exit,
    );
    if case_actions.contains(ControlAction::LeaveSwitch) || case_actions.contains(
        ControlAction::Break,
    ) || case_actions.contains(ControlAction::Continue) {
        return true;
    }
    let case_does_end = case_actions.only_ends();
    if case_does_end {
        *has_ended = true;
    }
    all_case_actions.extend(&case_actions);
    if !case_does_end && !*has_ended {
        return true;
    }
    false
}

/// The effect of a `switch` statement.
#[verifier::loop_isolation(false)]
fn switch_control_actions(
    stmt: &Stmt,
    control_actions: ControlActionSet,
    break_context: &Vec<BreakContext>,
    return_is_exit: bool,
) -> (r: (ControlActionSet, bool))
    requires
        stmt is Switch,
    ensures
        r.0@ == stmt_actions(*stmt, control_actions@, break_context@, return_is_exit).0,
        r.1 == stmt_actions(*stmt, control_actions@, break_context@, return_is_exit).1,
    decreases *stmt, 2int,
{
    let mut control_actions = control_actions;
    match stmt {
        Stmt::Switch { cases, default_case, fully_matched } => {
            let mut has_ended = false;
            let mut has_default_terminator = false;
            let switch_break_context = pushed_context(break_context, BreakContext::Switch);
            let mut all_case_actions = ControlActionSet::new();
            let n: usize = cases.len();
            let mut k: usize = 0;
            while k < n
                invariant
                    n == cases@.len(),
                    k <= n,
                    switch_break_context@ == break_context@.push(BreakContext::Switch),
                    switch_cases_from(cases@, k as int, break_context@, return_is_exit)
                        == Option::Some((has_ended, all_case_actions@)),
                decreases n - k,
            {
                proof {
                    assert(decreases_to!(*stmt => *cases));
                    assert(decreases_to!(*cases => cases@[(n - 1 - k) as int]));
                }
                let ghost before = (has_ended, all_case_actions@);
                let stopped = switch_case_control_actions(
                    &cases[n - 1 - k],
                    &mut has_ended,
                    &mut all_case_actions,
                    &switch_break_context,
                    return_is_exit,
                );
                assert(switch_cases_from(cases@, (k + 1) as int, break_context@, return_is_exit)
                    == switch_case_step(
                    Option::Some(before),
                    control_actions_of(
                        cases@[(n - 1 - k) as int]@,
                        break_context@.push(BreakContext::Switch),
                        return_is_exit,
                    ),
                ));
                if stopped {
                    proof {
                        lemma_switch_walk_stays_stopped(
                            cases@,
                            k + 1,
                            n as int,
                            break_context@,
                            return_is_exit,
                        );
                    }
                    return (control_actions, false);
                }
                k += 1;
            }
            match default_case {
                Option::Some(default_stmts) => {
                    let stopped = switch_case_control_actions(
                        default_stmts,
                        &mut has_ended,
                        &mut all_case_actions,
                        &switch_break_context,
                        return_is_exit,
                    );
                    if stopped {
                        return (control_actions, false);
                    }
                    has_default_terminator = true;
                },
                Option::None => {},
            }
            control_actions.extend(&all_case_actions);
            if has_default_terminator || *fully_matched {
                return (control_actions, true);
            }
            (control_actions, false)
        },
        _ => (control_actions, false),
    }
}

/// The effect of a `try` statement.
#[verifier::loop_isolation(false)]
fn try_control_actions(
    stmt: &Stmt,
    control_actions: ControlActionSet,
    break_context: &Vec<BreakContext>,
    return_is_exit: bool,
) -> (r: (ControlActionSet, bool))
    requires
        stmt is Try,
    ensures
        r.0@ == stmt_actions(*stmt, control_actions@, break_context@, return_is_exit).0,
        r.1 == stmt_actions(*stmt, control_actions@, break_context@, return_is_exit).1,
    decreases *stmt, 2int,
{
    let mut control_actions = control_actions;
    match stmt {
        Stmt::Try { body, catches, finally_block } => {
            let try_stmt_actions = get_control_actions(
                body,
                copy_context(break_context),
                return_is_exit,
            );
            let try_leaves = !try_stmt_actions.contains(ControlAction::Proceed);
            let mut all_catch_actions = ControlActionSet::new();
            let ghost acc0 = control_actions@;
            if catches.len() > 0 {
                let mut all_catches_leave = try_leaves;
                let mut k: usize = 0;
                while k < catches.len()
                    invariant
                        k <= catches@.len(),
                        catches_from(
                            catches@,
                            0,
                            try_leaves,
                            acc0,
                            Set::empty(),
                            break_context@,
                            return_is_exit,
                        ) == catches_from(
                            catches@,
                            k as int,
                            all_catches_leave,
                            control_actions@,
                            all_catch_actions@,
                            break_context@,
                            return_is_exit,
                        ),
                    decreases catches.len() - k,
                {
                    proof {
                        assert(decreases_to!(*stmt => *catches));
                        assert(decreases_to!(*catches => catches@[k as int]));
                    }
                    let catch_actions = get_control_actions(
                        &catches[k],
                        copy_context(break_context),
                        return_is_exit,
                    );
                    if all_catches_leave {
                        all_catches_leave = !catch_actions.contains(ControlAction::Proceed);
                    }
                    if !all_catches_leave {
                        control_actions.extend(&catch_actions);
                    } else {
                        all_catch_actions.extend(&catch_actions);
                    }
                    k += 1;
                }
                if all_catches_leave && !try_stmt_actions.is_only(ControlAction::Proceed) {
                    control_actions.extend(&try_stmt_actions);
                    control_actions.extend(&all_catch_actions);
                    return (control_actions, true);
                }
            } else if try_leaves {
                control_actions.extend(&try_stmt_actions);
                return (control_actions, true);
            }
            if finally_block.len() > 0 {
                let finally_actions = get_control_actions(
                    finally_block,
                    copy_context(break_context),
                    return_is_exit,
                );
                if !finally_actions.contains(ControlAction::Proceed) {
                    control_actions.remove(ControlAction::Proceed);
                    control_actions.extend(&finally_actions);
                    return (control_actions, true);
                }
            }
            control_actions.extend(&try_stmt_actions);
            control_actions.remove(ControlAction::Proceed);
            (control_actions, false)
        },
        _ => (control_actions, false),
    }
}

/// Folds the actions of a nested block into `control_actions`; reports
/// whether the block never lets control fall through.
fn handle_block(
    block_stmts: &Vec<Stmt>,
    break_context: &Vec<BreakContext>,
    return_is_exit: bool,
    control_actions: &mut ControlActionSet,
) -> (r: bool)
    ensures
        final(control_actions)@ == block_actions(
            old(control_actions)@,
            control_actions_of(block_stmts@, break_context@, return_is_exit),
        ).0,
        r == block_actions(
            old(control_actions)@,
            control_actions_of(block_stmts@, break_context@, return_is_exit),
        ).1,
    decreases *block_stmts, 2int,
{
    let mut block_actions = get_control_actions(
        block_stmts,
        copy_context(break_context),
        return_is_exit,
    );
    if !block_actions.contains(ControlAction::Proceed) {
        control_actions.extend(&block_actions);
        control_actions.remove(ControlAction::Proceed);
        return true;
    }
    block_actions.remove(ControlAction::Proceed);
    control_actions.extend(&block_actions);
    false
}

/// Whether `name` is spelled `expected`.
fn is_spelled(name: &String, expected: &str) -> (r: bool)
    ensures
        r == (name@ == expected@),
{
    let a = chars_of(name.as_str());
    let b = chars_of(expected);
    if a.len() != b.len() {
        return false;
    }
    let mut i: usize = 0;
    while i < a.len()
        invariant
            a@ == name@,
            b@ == expected@,
            a@.len() == b@.len(),
            i <= a@.len(),
            forall|j: int| 0 <= j < i ==> a@[j] == b@[j],
        decreases a.len() - i,
    {
        if a[i] != b[i] {
            assert(a@[i as int] != b@[i as int]);
            return false;
        }
        i += 1;
    }
    assert(a@ =~= b@);
    true
}

/// The actions with `End` added when the call never returns.
fn handle_call(callee: &Callee, control_actions: &ControlActionSet) -> (r: Option<
    ControlActionSet,
>)
    ensures
        r is Some <==> call_never_returns(*callee),
        r matches Option::Some(actions) ==> actions@ == control_actions@.insert(ControlAction::End),
{
    match callee {
        Callee::Function { name, returns_nothing } => {
            if is_spelled(name, "exit") || is_spelled(name, "die") {
                return Option::Some(control_end(*control_actions));
            }
            if *returns_nothing {
                return Option::Some(control_end(*control_actions));
            }
        },
        Callee::StaticMethod { class_name, returns_nothing } => {
            if is_spelled(class_name, "self") || is_spelled(class_name, "parent") || is_spelled(
                class_name,
                "static",
            ) {
                // do nothing
            } else if *returns_nothing {
                return Option::Some(control_end(*control_actions));
            }
        },
        Callee::Other => {},
    }
    Option::None
}

/// Adds `End` to the actions.
fn control_end(control_actions: ControlActionSet) -> (r: ControlActionSet)
    ensures
        r@ == control_actions@.insert(ControlAction::End),
{
    let mut control_actions = control_actions;
    control_actions.insert(ControlAction::End);
    control_actions
}

/// Adds `Return` to the actions.
fn control_return(control_actions: ControlActionSet) -> (r: ControlActionSet)
    ensures
        r@ == control_actions@.insert(ControlAction::Return),
{
    let mut control_actions = control_actions;
    control_actions.insert(ControlAction::Return);
    control_actions
}

} // verus!
