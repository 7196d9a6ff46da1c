//! Clauses of a formula in conjunctive normal form, as far as the scope
//! bookkeeping reads them: the keys their possibilities are about, and
//! whether the clause is a wedge.

use vstd::prelude::*;

verus! {

/// What the possibilities of a clause are about.
#[derive(Debug)]
pub enum ClauseKey {
    /// A variable or a path below one, such as `$a` or `$a->b`.
    Name(String),
    /// Anything that is not named by a variable path.
    Other,
}

/// A disjunction of possibilities.
#[derive(Debug)]
pub struct Clause {
    /// The keys of the clause's possibilities, in order.
    pub keys: Vec<ClauseKey>,
    /// Whether the clause stands for a wedge (a clause kept as it is).
    pub wedge: bool,
}

/// A clause as a value: its keys and whether it is a wedge.
impl View for Clause {
    type V = (Seq<ClauseKey>, bool);

    open spec fn view(&self) -> (Seq<ClauseKey>, bool) {
        (self.keys@, self.wedge)
    }
}

/// The values of a sequence of clauses.
pub open spec fn clause_views(clauses: Seq<Clause>) -> Seq<(Seq<ClauseKey>, bool)> {
    clauses.map_values(|c: Clause| c@)
}

/// Whether `changed` names the variable `var_name`.
pub open spec fn names_var(changed: Seq<String>, var_name: String) -> bool {
    exists|j: int| 0 <= j < changed.len() && changed[j]@ == var_name@
}

pub(crate) fn copy_key(key: &ClauseKey) -> (r: ClauseKey)
    ensures
        r == *key,
{
    match key {
        ClauseKey::Name(name) => ClauseKey::Name(name.clone()),
        ClauseKey::Other => ClauseKey::Other,
    }
}

/// A copy of `clause`.
pub(crate) fn copy_clause(clause: &Clause) -> (r: Clause)
    ensures
        r@ == clause@,
{
    let mut keys: Vec<ClauseKey> = Vec::new();
    let mut i: usize = 0;
    while i < clause.keys.len()
        invariant
            i <= clause.keys@.len(),
            keys@ == clause.keys@.subrange(0, i as int),
        decreases clause.keys.len() - i,
    {
        keys.push(copy_key(&clause.keys[i]));
        i += 1;
        assert(keys@ =~= clause.keys@.subrange(0, i as int));
    }
    assert(keys@ =~= clause.keys@);
    Clause { keys, wedge: clause.wedge }
}

/// Whether `changed` holds a string equal to `name`.
pub(crate) fn contains_name(changed: &Vec<String>, name: &String) -> (r: bool)
    ensures
        r == names_var(changed@, *name),
{
    let mut j: usize = 0;
    while j < changed.len()
        invariant
            j <= changed@.len(),
            forall|k: int| 0 <= k < j ==> changed@[k]@ != name@,
        decreases changed.len() - j,
    {
        if changed[j] == *name {
            return true;
        }
        j += 1;
    }
    false
}


/// Splits `clauses` into those that are kept and those that are rejected,
/// given the decision for each.
pub(crate) fn split_clauses(
    clauses: &Vec<Clause>,
    rejected: &Vec<bool>,
    Ghost(is_rejected): Ghost<spec_fn((Seq<ClauseKey>, bool)) -> bool>,
) -> (r: (Vec<Clause>, Vec<Clause>))
    requires
        rejected@.len() == clauses@.len(),
        forall|i: int| 0 <= i < clauses@.len() ==> rejected@[i] == is_rejected(clauses@[i]@),
    ensures
        clause_views(r.0@) == clause_views(clauses@).filter(
            |c: (Seq<ClauseKey>, bool)| !is_rejected(c),
        ),
        clause_views(r.1@) == clause_views(clauses@).filter(is_rejected),
{
    let ghost keep = |c: (Seq<ClauseKey>, bool)| !is_rejected(c);
    let ghost all = clause_views(clauses@);
    let mut included_clauses: Vec<Clause> = Vec::new();
    let mut rejected_clauses: Vec<Clause> = Vec::new();
    let mut i: usize = 0;
    assert(clause_views(included_clauses@) =~= all.take(0).filter(keep));
    assert(clause_views(rejected_clauses@) =~= all.take(0).filter(is_rejected));
    while i < clauses.len()
        invariant
            i <= clauses@.len(),
            rejected@.len() == clauses@.len(),
            forall|k: int| 0 <= k < clauses@.len() ==> rejected@[k] == is_rejected(clauses@[k]@),
            all == clause_views(clauses@),
            keep == (|c: (Seq<ClauseKey>, bool)| !is_rejected(c)),
            clause_views(included_clauses@) == all.take(i as int).filter(keep),
            clause_views(rejected_clauses@) == all.take(i as int).filter(is_rejected),
        decreases clauses.len() - i,
    {
        reveal_with_fuel(Seq::<_>::filter, 1);
        assert(all.take(i + 1).drop_last() =~= all.take(i as int));
        assert(all.take(i + 1).last() == clauses@[i as int]@);
        let copy = copy_clause(&clauses[i]);
        if rejected[i] {
            let ghost before = rejected_clauses@;
            rejected_clauses.push(copy);
            assert(clause_views(rejected_clauses@) =~= clause_views(before).push(copy@));
        } else {
            let ghost before = included_clauses@;
            included_clauses.push(copy);
            assert(clause_views(included_clauses@) =~= clause_views(before).push(copy@));
        }
        i += 1;
    }
    assert(all.take(clauses@.len() as int) =~= all);
    (included_clauses, rejected_clauses)
}

} // verus!
