pub mod control_action;
pub mod response_context;
pub mod var_map;

use vstd::prelude::*;

use crate::clause::{clause_views, contains_name, names_var, split_clauses, Clause, ClauseKey};
use crate::scope::var_map::{
    entry_pairs, lemma_value_map_take, name_set, names_distinct, names_unique,
    value_map, VarMap,
};

verus! {

/// The characters of `s`, in order.
pub(crate) fn chars_of(s: &str) -> (r: Vec<char>)
    ensures
        r@ == s@,
{
    let mut r: Vec<char> = Vec::new();
    for c in it: s.chars()
        invariant
            r@ == it.seq().take(it.index() as int),
    {
        r.push(c);
    }
    r
}


/// Whether `t` occurs in `s` starting at index `i`.
pub open spec fn occurs_at(s: Seq<char>, t: Seq<char>, i: int) -> bool {
    0 <= i && i + t.len() <= s.len() && s.subrange(i, i + t.len()) == t
}

/// Whether the first occurrence of `t` in `s` starts at index `i`.
pub open spec fn occurs_first_at(s: Seq<char>, t: Seq<char>, i: int) -> bool {
    occurs_at(s, t, i) && forall|j: int| 0 <= j < i ==> !occurs_at(s, t, j)
}

/// Whether `c` can follow a variable inside a longer path: `[` or `]` of an
/// array access, or `-` of a property access.
pub open spec fn is_path_continuation(c: char) -> bool {
    c == '[' || c == '-' || c == ']'
}

/// Whether the first occurrence of `root` in `var_id` is neither `var_id`
/// itself nor a static property (after `::`) and runs to the end of
/// `var_id`, so that no character follows it to examine.
pub open spec fn root_occurs_last(var_id: Seq<char>, root: Seq<char>) -> bool {
    exists|p: int|
        occurs_first_at(var_id, root, p) && var_id != root && !(p > 0 && var_id[p - 1] == ':') && p
            + root.len() == var_id.len()
}

/// Whether `var_id` is a path below the variable `root`: the first
/// occurrence of `root` in `var_id` is not `var_id` itself, does not follow
/// `:`, and is followed by `[`, `]` or `-`.
pub open spec fn has_root(var_id: Seq<char>, root: Seq<char>) -> bool {
    exists|p: int|
        occurs_first_at(var_id, root, p) && var_id != root && !(p > 0 && var_id[p - 1] == ':') && p
            + root.len() < var_id.len() && is_path_continuation(var_id[p + root.len()])
}

/// A variable is never a path below itself.
pub proof fn lemma_var_not_below_itself(var_id: Seq<char>)
    ensures
        !has_root(var_id, var_id),
{
}

/// Following a variable with an array access or a property access gives a
/// path below it.
pub proof fn lemma_access_is_below_root(root: Seq<char>, access: Seq<char>)
    requires
        access.len() > 0,
        is_path_continuation(access[0]),
    ensures
        has_root(root + access, root),
{
    let v = root + access;
    assert(v.subrange(0, root.len() as int) =~= root);
    assert(occurs_first_at(v, root, 0));
    assert(v.len() != root.len());
    assert(v[root.len() as int] == access[0]);
}

/// Whether `t` occurs in `s` at `i`, checked character by character.
fn chars_match_at(s: &Vec<char>, t: &Vec<char>, i: usize) -> (r: bool)
    requires
        i + t@.len() <= s@.len(),
    ensures
        r == occurs_at(s@, t@, i as int),
{
    let mut k: usize = 0;
    while k < t.len()
        invariant
            i + t@.len() <= s@.len(),
            k <= t@.len(),
            forall|j: int| 0 <= j < k ==> s@[i + j] == t@[j],
        decreases t.len() - k,
    {
        assert(i + k < s.len());
        if s[i + k] != t[k] {
            assert(s@.subrange(i as int, i + t@.len())[k as int] != t@[k as int]);
            return false;
        }
        k += 1;
    }
    assert(s@.subrange(i as int, i + t@.len()) =~= t@);
    true
}

/// The index where `t` first occurs in `s`, if it does.
fn find_chars(s: &Vec<char>, t: &Vec<char>) -> (r: Option<usize>)
    ensures
        match r {
            Option::Some(p) => occurs_first_at(s@, t@, p as int),
            Option::None => forall|j: int| !occurs_at(s@, t@, j),
        },
{
    if t.len() > s.len() {
        return Option::None;
    }
    let last: usize = s.len() - t.len();
    let mut p: usize = 0;
    loop
        invariant
            last == s@.len() - t@.len(),
            p <= last,
            forall|j: int| 0 <= j < p ==> !occurs_at(s@, t@, j),
        decreases last - p,
    {
        if chars_match_at(s, t, p) {
            return Option::Some(p);
        }
        if p == last {
            return Option::None;
        }
        p += 1;
    }
}

/// Whether `var_id` is a path below the variable `root_var_id`, such as
/// `$a['b']` or `$a->b` below `$a`.
pub fn var_has_root(var_id: &str, root_var_id: &str) -> (r: bool)
    requires
        !root_occurs_last(var_id@, root_var_id@),
    ensures
        r == has_root(var_id@, root_var_id@),
{
    let var_chars = chars_of(var_id);
    let root_chars = chars_of(root_var_id);
    match find_chars(&var_chars, &root_chars) {
        Option::Some(pos) => {
            if var_chars.len() == root_chars.len() {
                assert(var_id@ =~= var_id@.subrange(0, root_var_id@.len() as int));
                return false;
            }
            if pos > 0 && var_chars[pos - 1] == ':' {
                return false;
            }
            let i: usize = root_chars.len() + pos;
            if i >= var_chars.len() {
                assert(var_id@ != root_var_id@);
                assert(false);
            }
            let next = var_chars[i];
            next == '[' || next == '-' || next == ']'
        },
        Option::None => false,
    }
}


/// Whether a clause that is not a wedge has a possibility about a variable
/// named in `changed`.
pub open spec fn is_reconciled_clause(clause: (Seq<ClauseKey>, bool), changed: Seq<String>) -> bool {
    !clause.1 && exists|k: int|
        0 <= k < clause.0.len() && (#[trigger] clause.0[k] matches ClauseKey::Name(v) && names_var(
            changed,
            v,
        ))
}

/// Whether `var_name` is the variable `changed` or a path below it.
pub open spec fn refers_to(var_name: Seq<char>, changed: Seq<char>) -> bool {
    changed == var_name || has_root(var_name, changed)
}

/// Whether the pair of key `k` and changed variable `j` refers to a changed
/// variable.
pub open spec fn pair_refers(clause: (Seq<ClauseKey>, bool), changed: Seq<String>, k: int, j: int) -> bool {
    0 <= k < clause.0.len() && 0 <= j < changed.len() && (clause.0[k] matches ClauseKey::Name(v)
        && refers_to(v@, changed[j]@))
}

/// Whether a clause that is not a wedge has a possibility about a changed
/// variable or a path below one.
pub open spec fn is_referring_clause(clause: (Seq<ClauseKey>, bool), changed: Seq<String>) -> bool {
    !clause.1 && exists|k: int, j: int| #[trigger] pair_refers(clause, changed, k, j)
}

/// Whether, checking the keys of a clause in order against the changed
/// variables in order, a root check would be reached for a key in which
/// the changed variable occurs first at its very end, before any pair refers
/// to a changed variable.
pub open spec fn root_check_reaches_end(clause: (Seq<ClauseKey>, bool), changed: Seq<String>) -> bool {
    !clause.1 && exists|k: int, j: int|
        0 <= k < clause.0.len() && 0 <= j < changed.len() && (#[trigger] clause.0[k] matches ClauseKey::Name(
            v,
        ) && #[trigger] changed[j]@ != v@ && root_occurs_last(v@, changed[j]@)) && (forall|
            k2: int,
            j2: int,
        |
            (0 <= k2 < k && 0 <= j2 < changed.len()) || (k2 == k && 0 <= j2 < j) ==> !pair_refers(
                clause,
                changed,
                k2,
                j2,
            ))
}

/// Wedges are never removed as reconciled, whichever variables changed.
pub proof fn lemma_wedges_are_kept(keys: Seq<ClauseKey>, changed: Seq<String>)
    ensures
        !is_reconciled_clause((keys, true), changed),
        !is_referring_clause((keys, true), changed),
{
}

/// Every clause that names a changed variable also refers to it, so the
/// removal that follows paths below changed variables removes at least the
/// clauses that the plain removal does.
pub proof fn lemma_reconciled_clauses_refer(clause: (Seq<ClauseKey>, bool), changed: Seq<String>)
    requires
        is_reconciled_clause(clause, changed),
    ensures
        is_referring_clause(clause, changed),
{
    let k: int = choose|k: int|
        0 <= k < clause.0.len() && (#[trigger] clause.0[k] matches ClauseKey::Name(v) && names_var(
            changed,
            v,
        ));
    match clause.0[k] {
        ClauseKey::Name(v) => {
            let j: int = choose|j: int| 0 <= j < changed.len() && changed[j]@ == v@;
            assert(pair_refers(clause, changed, k, j));
        },
        ClauseKey::Other => {},
    }
}

fn mentions_changed_var(clause: &Clause, changed_var_ids: &Vec<String>) -> (r: bool)
    ensures
        r == is_reconciled_clause(clause@, changed_var_ids@),
{
    if clause.wedge {
        return false;
    }
    let mut k: usize = 0;
    while k < clause.keys.len()
        invariant
            k <= clause.keys@.len(),
            !clause.wedge,
            forall|k2: int|
                0 <= k2 < k ==> !(#[trigger] clause.keys@[k2] matches ClauseKey::Name(v) && names_var(
                    changed_var_ids@,
                    v,
                )),
        decreases clause.keys.len() - k,
    {
        match &clause.keys[k] {
            ClauseKey::Name(var_name) => {
                if contains_name(changed_var_ids, var_name) {
                    assert(clause@.0[k as int] matches ClauseKey::Name(v) && names_var(
                        changed_var_ids@,
                        v,
                    ));
                    return true;
                }
            },
            ClauseKey::Other => {},
        }
        k += 1;
    }
    false
}

/// Splits clauses into those kept and those that are no longer reliable
/// because a possibility is about a variable in `changed_var_ids`; wedges
/// are always kept.
pub fn remove_reconciled_clauses(clauses: &Vec<Clause>, changed_var_ids: &Vec<String>) -> (r: (
    Vec<Clause>,
    Vec<Clause>,
))
    ensures
        clause_views(r.0@) == clause_views(clauses@).filter(
            |c: (Seq<ClauseKey>, bool)| !is_reconciled_clause(c, changed_var_ids@),
        ),
        clause_views(r.1@) == clause_views(clauses@).filter(
            |c: (Seq<ClauseKey>, bool)| is_reconciled_clause(c, changed_var_ids@),
        ),
{
    let mut rejected: Vec<bool> = Vec::new();
    let mut i: usize = 0;
    while i < clauses.len()
        invariant
            i <= clauses@.len(),
            rejected@.len() == i,
            forall|k: int|
                0 <= k < i ==> rejected@[k] == is_reconciled_clause(clauses@[k]@, changed_var_ids@),
        decreases clauses.len() - i,
    {
        rejected.push(mentions_changed_var(&clauses[i], changed_var_ids));
        i += 1;
    }
    let ghost is_rejected = |c: (Seq<ClauseKey>, bool)| is_reconciled_clause(c, changed_var_ids@);
    let r = split_clauses(clauses, &rejected, Ghost(is_rejected));
    assert((|c: (Seq<ClauseKey>, bool)| !is_rejected(c)) =~= (|c: (Seq<ClauseKey>, bool)|
        !is_reconciled_clause(c, changed_var_ids@)));
    r
}

fn refers_to_changed_var(clause: &Clause, changed_var_ids: &Vec<String>) -> (r: bool)
    requires
        !root_check_reaches_end(clause@, changed_var_ids@),
    ensures
        r == is_referring_clause(clause@, changed_var_ids@),
{
    if clause.wedge {
        return false;
    }
    let mut k: usize = 0;
    while k < clause.keys.len()
        invariant
            k <= clause.keys@.len(),
            !clause.wedge,
            !root_check_reaches_end(clause@, changed_var_ids@),
            forall|k2: int, j2: int|
                0 <= k2 < k && 0 <= j2 < changed_var_ids@.len() ==> !pair_refers(
                    clause@,
                    changed_var_ids@,
                    k2,
                    j2,
                ),
        decreases clause.keys.len() - k,
    {
        let mut j: usize = 0;
        while j < changed_var_ids.len()
            invariant
                k < clause.keys@.len(),
                j <= changed_var_ids@.len(),
                !clause.wedge,
                !root_check_reaches_end(clause@, changed_var_ids@),
                forall|k2: int, j2: int|
                    (0 <= k2 < k && 0 <= j2 < changed_var_ids@.len()) || (k2 == k && 0 <= j2 < j)
                        ==> !pair_refers(clause@, changed_var_ids@, k2, j2),
            decreases changed_var_ids.len() - j,
        {
            match &clause.keys[k] {
                ClauseKey::Name(var_name) => {
                    let changed_var_id = &changed_var_ids[j];
                    if *changed_var_id == *var_name {
                        assert(pair_refers(clause@, changed_var_ids@, k as int, j as int));
                        return true;
                    }
                    proof {
                        assert(clause@.0[k as int] matches ClauseKey::Name(v) && v@ == var_name@);
                        assert(changed_var_ids@[j as int]@ != var_name@);
                        if root_occurs_last(var_name@, changed_var_id@) {
                            assert(root_check_reaches_end(clause@, changed_var_ids@));
                        }
                    }
                    if var_has_root(var_name.as_str(), changed_var_id.as_str()) {
                        assert(pair_refers(clause@, changed_var_ids@, k as int, j as int));
                        return true;
                    }
                },
                ClauseKey::Other => {},
            }
            j += 1;
        }
        k += 1;
    }
    false
}

/// Splits clauses into those kept and those that are no longer reliable
/// because a possibility is about a variable in `changed_var_ids` or a path
/// below one; wedges are always kept. Keys are checked in order, each
/// against the changed variables in order.
pub fn remove_reconciled_clause_refs(clauses: &Vec<Clause>, changed_var_ids: &Vec<String>) -> (r: (
    Vec<Clause>,
    Vec<Clause>,
))
    requires
        forall|i: int|
            0 <= i < clauses@.len() ==> !root_check_reaches_end(
                #[trigger] clauses@[i]@,
                changed_var_ids@,
            ),
    ensures
        clause_views(r.0@) == clause_views(clauses@).filter(
            |c: (Seq<ClauseKey>, bool)| !is_referring_clause(c, changed_var_ids@),
        ),
        clause_views(r.1@) == clause_views(clauses@).filter(
            |c: (Seq<ClauseKey>, bool)| is_referring_clause(c, changed_var_ids@),
        ),
{
    let mut rejected: Vec<bool> = Vec::new();
    let mut i: usize = 0;
    while i < clauses.len()
        invariant
            i <= clauses@.len(),
            forall|i: int|
                0 <= i < clauses@.len() ==> !root_check_reaches_end(
                    #[trigger] clauses@[i]@,
                    changed_var_ids@,
                ),
            rejected@.len() == i,
            forall|k: int|
                0 <= k < i ==> rejected@[k] == is_referring_clause(clauses@[k]@, changed_var_ids@),
        decreases clauses.len() - i,
    {
        rejected.push(refers_to_changed_var(&clauses[i], changed_var_ids));
        i += 1;
    }
    let ghost is_rejected = |c: (Seq<ClauseKey>, bool)| is_referring_clause(c, changed_var_ids@);
    let r = split_clauses(clauses, &rejected, Ghost(is_rejected));
    assert((|c: (Seq<ClauseKey>, bool)| !is_rejected(c)) =~= (|c: (Seq<ClauseKey>, bool)|
        !is_referring_clause(c, changed_var_ids@)));
    r
}

/// The locals that `new_locals` redefines, with their types in `locals`:
/// each local of `locals` whose type in `new_locals` differs, and, with
/// `include_new_vars`, each local of `locals` that `new_locals` lacks.
pub open spec fn redefined_locals(
    locals: Map<Seq<char>, u64>,
    new_locals: Map<Seq<char>, u64>,
    include_new_vars: bool,
) -> Map<Seq<char>, u64> {
    Map::new(
        |name: Seq<char>|
            locals.dom().contains(name) && if new_locals.dom().contains(name) {
                new_locals[name] != locals[name]
            } else {
                include_new_vars
            },
        |name: Seq<char>| locals[name],
    )
}

/// How often `name` was assigned: its count, or 0 when it has none.
pub open spec fn assigned_count(assigned: Map<Seq<char>, u64>, name: Seq<char>) -> u64 {
    if assigned.dom().contains(name) {
        assigned[name]
    } else {
        0
    }
}

/// The locals of `new_locals` that are new or updated since the original
/// context: absent there, assigned a different number of times, or of
/// another type.
pub open spec fn new_or_updated_locals(
    original_locals: Map<Seq<char>, u64>,
    original_assigned: Map<Seq<char>, u64>,
    new_locals: Map<Seq<char>, u64>,
    new_assigned: Map<Seq<char>, u64>,
) -> Set<Seq<char>> {
    Set::new(
        |name: Seq<char>|
            new_locals.dom().contains(name) && (!original_locals.dom().contains(name)
                || assigned_count(original_assigned, name) != assigned_count(new_assigned, name)
                || original_locals[name] != new_locals[name]),
    )
}

/// The locals that `new_locals` redefines (see `redefined_locals`), each with
/// its type in `locals`. The locals of `new_locals` that `locals` lacks are
/// added to `removed_vars`, which stays free of repeated names.
pub fn get_redefined_locals(
    locals: &VarMap,
    new_locals: &VarMap,
    include_new_vars: bool,
    removed_vars: &mut Vec<String>,
) -> (r: VarMap)
    ensures
        r@ == redefined_locals(locals@, new_locals@, include_new_vars),
        name_set(final(removed_vars)@) == name_set(old(removed_vars)@).union(
            new_locals@.dom().difference(locals@.dom()),
        ),
        names_distinct(old(removed_vars)@) ==> names_distinct(final(removed_vars)@),
{
    proof {
        use_type_invariant(locals);
        use_type_invariant(new_locals);
        VarMap::lemma_unique_names(*locals);
        VarMap::lemma_unique_names(*new_locals);
        VarMap::lemma_view_is_entries(*locals);
        VarMap::lemma_view_is_entries(*new_locals);
    }
    let ghost lp = entry_pairs(locals.entries@);
    let ghost np = entry_pairs(new_locals.entries@);
    let mut redefined = VarMap::new();
    let mut i: usize = 0;
    assert(value_map(lp.take(0)) =~= Map::<Seq<char>, u64>::empty());
    assert(redefined@ =~= redefined_locals(value_map(lp.take(0)), new_locals@, include_new_vars));
    while i < locals.entries.len()
        invariant
            i <= locals.entries@.len(),
            lp == entry_pairs(locals.entries@),
            names_unique(lp),
            locals@ == value_map(lp),
            redefined@ == redefined_locals(value_map(lp.take(i as int)), new_locals@, include_new_vars),
        decreases locals.entries.len() - i,
    {
        let name = &locals.entries[i].0;
        let this_type = locals.entries[i].1;
        let ghost before = redefined@;
        proof {
            assert(lp[i as int] == (name@, this_type));
            lemma_value_map_take(lp, i as int);
        }
        match new_locals.get(name) {
            Option::Some(new_type) => {
                if new_type != this_type {
                    redefined.insert(name.clone(), this_type);
                }
            },
            Option::None => {
                if include_new_vars {
                    redefined.insert(name.clone(), this_type);
                }
            },
        }
        proof {
            let m = value_map(lp.take(i as int));
            assert(value_map(lp.take(i + 1)) == m.insert(name@, this_type));
            assert(redefined@ =~= redefined_locals(m.insert(name@, this_type), new_locals@, include_new_vars));
        }
        i += 1;
    }
    assert(lp.take(locals.entries@.len() as int) =~= lp);
    let ghost old_removed = removed_vars@;
    let mut j: usize = 0;
    assert(value_map(np.take(0)) =~= Map::<Seq<char>, u64>::empty());
    assert(name_set(removed_vars@) =~= name_set(old_removed).union(
        value_map(np.take(0)).dom().difference(locals@.dom()),
    ));
    while j < new_locals.entries.len()
        invariant
            j <= new_locals.entries@.len(),
            np == entry_pairs(new_locals.entries@),
            new_locals@ == value_map(np),
            old_removed == old(removed_vars)@,
            name_set(removed_vars@) == name_set(old_removed).union(
                value_map(np.take(j as int)).dom().difference(locals@.dom()),
            ),
            names_distinct(old_removed) ==> names_distinct(removed_vars@),
        decreases new_locals.entries.len() - j,
    {
        let name = &new_locals.entries[j].0;
        let ghost before = removed_vars@;
        proof {
            assert(np[j as int].0 == name@);
            lemma_value_map_take(np, j as int);
        }
        if !locals.contains_key(name) && !contains_name(removed_vars, name) {
            removed_vars.push(name.clone());
            proof {
                assert(removed_vars@ == before.push(*name));
                assert forall|a: int, b: int| 0 <= a < b < removed_vars@.len() && names_distinct(before)
                    implies removed_vars@[a]@ != removed_vars@[b]@ by {
                    if b == before.len() {
                        assert(removed_vars@[a] == before[a]);
                    }
                }
                assert(name_set(removed_vars@) =~= name_set(before).insert(name@)) by {
                    assert(removed_vars@[before.len() as int] == *name);
                    assert forall|x: Seq<char>| name_set(before).contains(x) implies name_set(
                        removed_vars@,
                    ).contains(x) by {
                        let a = choose|a: int| 0 <= a < before.len() && (#[trigger] before[a])@ == x;
                        assert(removed_vars@[a] == before[a]);
                    }
                    assert forall|x: Seq<char>| name_set(removed_vars@).contains(x) implies name_set(
                        before,
                    ).insert(name@).contains(x) by {
                        let a = choose|a: int|
                            0 <= a < removed_vars@.len() && (#[trigger] removed_vars@[a])@ == x;
                        if a < before.len() {
                            assert(removed_vars@[a] == before[a]);
                        }
                    }
                }
            }
        } else {
            proof {
                if !locals@.dom().contains(name@) {
                    let a = choose|a: int| 0 <= a < before.len() && before[a]@ == name@;
                    assert(name_set(before).contains(name@));
                }
            }
        }
        proof {
            assert(name_set(removed_vars@) =~= name_set(old_removed).union(
                value_map(np.take(j + 1)).dom().difference(locals@.dom()),
            ));
        }
        j += 1;
    }
    assert(np.take(new_locals.entries@.len() as int) =~= np);
    redefined
}

/// The locals of `new_locals` that are new or updated since the original
/// context (see `new_or_updated_locals`), each listed once.
pub fn get_new_or_updated_locals(
    original_locals: &VarMap,
    original_assigned_var_ids: &VarMap,
    new_locals: &VarMap,
    new_assigned_var_ids: &VarMap,
) -> (r: Vec<String>)
    ensures
        name_set(r@) == new_or_updated_locals(
            original_locals@,
            original_assigned_var_ids@,
            new_locals@,
            new_assigned_var_ids@,
        ),
        names_distinct(r@),
{
    proof {
        use_type_invariant(new_locals);
        VarMap::lemma_unique_names(*new_locals);
        VarMap::lemma_view_is_entries(*new_locals);
    }
    let ghost np = entry_pairs(new_locals.entries@);
    let mut redefined_var_ids: Vec<String> = Vec::new();
    let mut j: usize = 0;
    assert(value_map(np.take(0)) =~= Map::<Seq<char>, u64>::empty());
    assert(name_set(redefined_var_ids@) =~= new_or_updated_locals(
        original_locals@,
        original_assigned_var_ids@,
        value_map(np.take(0)),
        new_assigned_var_ids@,
    ));
    while j < new_locals.entries.len()
        invariant
            j <= new_locals.entries@.len(),
            np == entry_pairs(new_locals.entries@),
            names_unique(np),
            new_locals@ == value_map(np),
            name_set(redefined_var_ids@) == new_or_updated_locals(
                original_locals@,
                original_assigned_var_ids@,
                value_map(np.take(j as int)),
                new_assigned_var_ids@,
            ),
            names_distinct(redefined_var_ids@),
        decreases new_locals.entries.len() - j,
    {
        let var_id = &new_locals.entries[j].0;
        let new_type = new_locals.entries[j].1;
        let ghost before = redefined_var_ids@;
        let ghost m = value_map(np.take(j as int));
        proof {
            assert(np[j as int] == (var_id@, new_type));
            lemma_value_map_take(np, j as int);
        }
        let changed = match original_locals.get(var_id) {
            Option::Some(original_type) => {
                let original_count = match original_assigned_var_ids.get(var_id) {
                    Option::Some(c) => c,
                    Option::None => 0,
                };
                let new_count = match new_assigned_var_ids.get(var_id) {
                    Option::Some(c) => c,
                    Option::None => 0,
                };
                original_count != new_count || original_type != new_type
            },
            Option::None => true,
        };
        if changed {
            redefined_var_ids.push(var_id.clone());
            proof {
                assert(redefined_var_ids@ == before.push(*var_id));
                assert(!name_set(before).contains(var_id@));
                assert forall|a: int, b: int| 0 <= a < b < redefined_var_ids@.len() implies redefined_var_ids@[a]@
                    != redefined_var_ids@[b]@ by {
                    assert(redefined_var_ids@[a] == before[a] || b < before.len());
                    if b == before.len() {
                        assert(redefined_var_ids@[a] == before[a]);
                        assert(name_set(before).contains(before[a]@));
                    } else {
                        assert(redefined_var_ids@[a] == before[a]);
                        assert(redefined_var_ids@[b] == before[b]);
                    }
                }
                assert forall|x: Seq<char>| name_set(before).contains(x) implies name_set(
                    redefined_var_ids@,
                ).contains(x) by {
                    let a = choose|a: int| 0 <= a < before.len() && (#[trigger] before[a])@ == x;
                    assert(redefined_var_ids@[a] == before[a]);
                }
                assert forall|x: Seq<char>| name_set(redefined_var_ids@).contains(x) implies name_set(
                    before,
                ).insert(var_id@).contains(x) by {
                    let a = choose|a: int|
                        0 <= a < redefined_var_ids@.len() && (#[trigger] redefined_var_ids@[a])@ == x;
                    if a < before.len() {
                        assert(redefined_var_ids@[a] == before[a]);
                    }
                }
                assert(redefined_var_ids@[before.len() as int] == *var_id);
                assert(name_set(redefined_var_ids@) =~= name_set(before).insert(var_id@));
            }
        }
        proof {
            assert(name_set(redefined_var_ids@) =~= new_or_updated_locals(
                original_locals@,
                original_assigned_var_ids@,
                m.insert(var_id@, new_type),
                new_assigned_var_ids@,
            ));
        }
        j += 1;
    }
    assert(np.take(new_locals.entries@.len() as int) =~= np);
    redefined_var_ids
}

/// A context compared with itself redefines no local and has no new or
/// updated local.
pub proof fn lemma_unchanged_locals_report_nothing(
    locals: Map<Seq<char>, u64>,
    assigned: Map<Seq<char>, u64>,
)
    ensures
        redefined_locals(locals, locals, false) == Map::<Seq<char>, u64>::empty(),
        new_or_updated_locals(locals, assigned, locals, assigned) == Set::<Seq<char>>::empty(),
{
    assert(redefined_locals(locals, locals, false) =~= Map::<Seq<char>, u64>::empty());
    assert(new_or_updated_locals(locals, assigned, locals, assigned) =~= Set::<Seq<char>>::empty());
}

/// Which locals count as new or updated: a local of the new context is
/// reported exactly when the original context lacks it, gives it another
/// type, or assigned it a different number of times, a variable without a
/// count having been assigned 0 times; a local the new context lacks is never
/// reported.
pub proof fn lemma_new_or_updated_locals_cases(
    original_locals: Map<Seq<char>, u64>,
    original_assigned: Map<Seq<char>, u64>,
    new_locals: Map<Seq<char>, u64>,
    new_assigned: Map<Seq<char>, u64>,
    name: Seq<char>,
)
    ensures
        !new_locals.dom().contains(name) ==> !new_or_updated_locals(
            original_locals,
            original_assigned,
            new_locals,
            new_assigned,
        ).contains(name),
        new_locals.dom().contains(name) && !original_locals.dom().contains(name)
            ==> new_or_updated_locals(original_locals, original_assigned, new_locals, new_assigned).contains(
            name,
        ),
        new_locals.dom().contains(name) && original_locals.dom().contains(name)
            && original_locals[name] != new_locals[name] ==> new_or_updated_locals(
            original_locals,
            original_assigned,
            new_locals,
            new_assigned,
        ).contains(name),
        new_locals.dom().contains(name) && original_locals.dom().contains(name)
            && original_locals[name] == new_locals[name] ==> (new_or_updated_locals(
            original_locals,
            original_assigned,
            new_locals,
            new_assigned,
        ).contains(name) <==> (if original_assigned.dom().contains(name) {
            original_assigned[name] as int
        } else {
            0
        }) != (if new_assigned.dom().contains(name) {
            new_assigned[name] as int
        } else {
            0
        })),
{
}

/// Which locals count as redefined: a local of the original context whose
/// type in the new context differs, or, when new variables are included, a
/// local the new context lacks; each keeps its original type. A local the
/// original context lacks, or one whose type is unchanged, never counts.
pub proof fn lemma_redefined_locals_cases(
    locals: Map<Seq<char>, u64>,
    new_locals: Map<Seq<char>, u64>,
    include_new_vars: bool,
    name: Seq<char>,
)
    ensures
        !locals.dom().contains(name) ==> !redefined_locals(locals, new_locals, include_new_vars).dom().contains(
            name,
        ),
        locals.dom().contains(name) && new_locals.dom().contains(name) ==> (redefined_locals(
            locals,
            new_locals,
            include_new_vars,
        ).dom().contains(name) <==> new_locals[name] != locals[name]),
        locals.dom().contains(name) && !new_locals.dom().contains(name) ==> (redefined_locals(
            locals,
            new_locals,
            include_new_vars,
        ).dom().contains(name) <==> include_new_vars),
        redefined_locals(locals, new_locals, include_new_vars).dom().contains(name) ==> redefined_locals(
            locals,
            new_locals,
            include_new_vars,
        )[name] == locals[name],
{
}

} // verus!
