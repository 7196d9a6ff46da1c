pub mod control_action;

use vstd::prelude::*;

use crate::clause::{clause_views, Clause, ClauseKey};
use crate::scope::var_map::{name_set, names_distinct, VarMap};
use crate::scope::{has_root, is_reconciled_clause, new_or_updated_locals, redefined_locals, root_occurs_last};

verus! {

/// Whether `var_id` is a path below the variable `root_var_id`, such as
/// `$a['b']` or `$a->b` below `$a`.
pub fn var_has_root(var_id: &String, root_var_id: &String) -> (r: bool)
    requires
        !root_occurs_last(var_id@, root_var_id@),
    ensures
        r == has_root(var_id@, root_var_id@),
{
    crate::scope::var_has_root(var_id.as_str(), root_var_id.as_str())
}


/// Splits clauses into those kept and those that are no longer reliable
/// because a possibility is about a variable in `changed_var_ids`; wedges
/// are always kept.
pub fn remove_reconciled_clauses(clauses: &Vec<Clause>, changed_var_ids: &Vec<String>) -> (r: (
    Vec<Clause>,
    Vec<Clause>,
))
    ensures
        clause_views(r.0@) == clause_views(clauses@).filter(
            |c: (Seq<ClauseKey>, bool)| !is_reconciled_clause(c, changed_var_ids@),
        ),
        clause_views(r.1@) == clause_views(clauses@).filter(
            |c: (Seq<ClauseKey>, bool)| is_reconciled_clause(c, changed_var_ids@),
        ),
{
    crate::scope::remove_reconciled_clauses(clauses, changed_var_ids)
}

/// The same split as `remove_reconciled_clauses`: in this context a clause
/// is removed only for a possibility about a changed variable itself.
pub fn remove_reconciled_clause_refs(clauses: &Vec<Clause>, changed_var_ids: &Vec<String>) -> (r: (
    Vec<Clause>,
    Vec<Clause>,
))
    ensures
        clause_views(r.0@) == clause_views(clauses@).filter(
            |c: (Seq<ClauseKey>, bool)| !is_reconciled_clause(c, changed_var_ids@),
        ),
        clause_views(r.1@) == clause_views(clauses@).filter(
            |c: (Seq<ClauseKey>, bool)| is_reconciled_clause(c, changed_var_ids@),
        ),
{
    crate::scope::remove_reconciled_clauses(clauses, changed_var_ids)
}

/// The variables that `new_vars_in_scope` redefines, each with its type in
/// `vars_in_scope`; see `redefined_locals`.
pub fn get_redefined_vars(
    vars_in_scope: &VarMap,
    new_vars_in_scope: &VarMap,
    include_new_vars: bool,
) -> (r: VarMap)
    ensures
        r@ == redefined_locals(vars_in_scope@, new_vars_in_scope@, include_new_vars),
{
    let mut removed_vars: Vec<String> = Vec::new();
    crate::scope::get_redefined_locals(vars_in_scope, new_vars_in_scope, include_new_vars, &mut removed_vars)
}

/// The variables of `new_vars_in_scope` that are new or updated since the
/// original context, each listed once; see `new_or_updated_locals`.
pub fn get_new_or_updated_var_ids(
    original_vars_in_scope: &VarMap,
    original_assigned_var_ids: &VarMap,
    new_vars_in_scope: &VarMap,
    new_assigned_var_ids: &VarMap,
) -> (r: Vec<String>)
    ensures
        name_set(r@) == new_or_updated_locals(
            original_vars_in_scope@,
            original_assigned_var_ids@,
            new_vars_in_scope@,
            new_assigned_var_ids@,
        ),
        names_distinct(r@),
{
    crate::scope::get_new_or_updated_locals(
        original_vars_in_scope,
        original_assigned_var_ids,
        new_vars_in_scope,
        new_assigned_var_ids,
    )
}

} // verus!
