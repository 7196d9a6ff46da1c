//! Narrowing a type by a negated equality with a literal: what is left of each
//! atomic type after `$x !== 'a'`, `$x !== 3` or `$x !== E::A`.

use vstd::prelude::*;

verus! {

/// An atomic type, as far as negated literal equality reads it.
#[derive(Debug)]
pub enum Atom {
    Int,
    Num,
    LiteralInt(i64),
    Arraykey,
    String,
    /// A string with flags: truthy, non-empty, and non-specific literal.
    StringWithFlags { is_truthy: bool, is_non_empty: bool, is_nonspecific_literal: bool },
    LiteralString(String),
    /// A value of the enum with this name.
    Enum(String),
    /// One case of an enum.
    EnumLiteralCase { enum_name: String, member_name: String },
    TypeAlias,
    /// An object of a named class; `is_xhp_child` holds for the XHP child
    /// interface.
    NamedObject { is_xhp_child: bool },
    Awaitable,
    TypeVariable,
    Nothing,
    /// Any other atomic type.
    Other,
}

/// The literal value of an enum constant.
#[derive(Debug)]
pub enum LiteralValue {
    Int(i64),
    Str(String),
}

/// A constant of an enum: its name, its inferred literal value if it has
/// one, and the single type the codebase gives for it, if any.
#[derive(Debug)]
pub struct EnumMember {
    pub name: String,
    pub value: Option<LiteralValue>,
    pub constant_type: Option<Atom>,
}

/// An enum known to the codebase, with its constants in declaration order.
#[derive(Debug)]
pub struct EnumInfo {
    pub name: String,
    pub members: Vec<EnumMember>,
}

/// The first enum named `name`.
pub open spec fn find_enum(enums: Seq<EnumInfo>, name: Seq<char>) -> Option<EnumInfo>
    decreases enums.len(),
{
    if enums.len() == 0 {
        Option::None
    } else if enums[0].name@ == name {
        Option::Some(enums[0])
    } else {
        find_enum(enums.drop_first(), name)
    }
}

/// The first constant named `name`.
pub open spec fn find_member(members: Seq<EnumMember>, name: Seq<char>) -> Option<EnumMember>
    decreases members.len(),
{
    if members.len() == 0 {
        Option::None
    } else if members[0].name@ == name {
        Option::Some(members[0])
    } else {
        find_member(members.drop_first(), name)
    }
}

/// The cases of `enum_name` for all constants not named `member_name`.
pub open spec fn other_cases(members: Seq<EnumMember>, enum_name: String, member_name: String) -> Seq<
    Atom,
>
    decreases members.len(),
{
    if members.len() == 0 {
        Seq::empty()
    } else {
        let rest = other_cases(members.drop_last(), enum_name, member_name);
        if members.last().name@ != member_name@ {
            rest.push(Atom::EnumLiteralCase { enum_name, member_name: members.last().name })
        } else {
            rest
        }
    }
}

/// Whether a constant's value is a literal of the same kind as `value` but
/// differs from it (`Some(true)`), equals it (`Some(false)`), or is of
/// another kind or absent (`None`).
pub open spec fn differs_from(member_value: Option<LiteralValue>, value: LiteralValue) -> Option<bool> {
    match (member_value, value) {
        (Option::Some(LiteralValue::Int(a)), LiteralValue::Int(b)) => Option::Some(a != b),
        (Option::Some(LiteralValue::Str(a)), LiteralValue::Str(b)) => Option::Some(a@ != b@),
        _ => Option::None,
    }
}

/// For the constants of an enum: the types of those whose literal value
/// differs from `value`, and whether one equals it. `None` when a differing
/// constant has no type in the codebase.
pub open spec fn cases_other_than(members: Seq<EnumMember>, value: LiteralValue) -> Option<
    (Seq<Atom>, bool),
>
    decreases members.len(),
{
    if members.len() == 0 {
        Option::Some((Seq::empty(), false))
    } else {
        match cases_other_than(members.drop_last(), value) {
            Option::None => Option::None,
            Option::Some((others, matched)) => match differs_from(members.last().value, value) {
                Option::Some(true) => match members.last().constant_type {
                    Option::Some(t) => Option::Some((others.push(t), matched)),
                    Option::None => Option::None,
                },
                Option::Some(false) => Option::Some((others, true)),
                Option::None => Option::Some((others, matched)),
            },
        }
    }
}

/// What is left of an enum value after excluding the literal `value`: the
/// other cases when a constant has that value, else the enum itself.
pub open spec fn enum_without_value(atom: Atom, members: Seq<EnumMember>, value: LiteralValue) -> Option<
    (Seq<Atom>, bool, bool),
> {
    match cases_other_than(members, value) {
        Option::None => Option::None,
        Option::Some((others, matched)) => if !matched {
            Option::Some((seq![atom], false, false))
        } else {
            Option::Some((others, true, false))
        },
    }
}

/// What is left of one atomic type `atom` under the negated equality with
/// `asserted`: the types kept, whether a type was removed, and whether the
/// whole result is `nothing` at once (the enum of a string comparison is
/// unknown). `None` when the codebase lacks what the narrowing looks up.
pub open spec fn negate_atom(atom: Atom, asserted: Atom, enums: Seq<EnumInfo>) -> Option<
    (Seq<Atom>, bool, bool),
> {
    match atom {
        Atom::Int | Atom::Num => Option::Some(
            (seq![atom], asserted is LiteralInt || asserted is EnumLiteralCase, false),
        ),
        Atom::LiteralInt(existing) => match asserted {
            Atom::LiteralInt(value) => if value == existing {
                Option::Some((Seq::empty(), true, false))
            } else {
                Option::Some((seq![atom], false, false))
            },
            _ => Option::Some((Seq::empty(), false, false)),
        },
        Atom::Arraykey => Option::Some(
            (
                seq![atom],
                asserted is LiteralString || asserted is LiteralInt || asserted is EnumLiteralCase,
                false,
            ),
        ),
        Atom::String => match asserted {
            Atom::LiteralString(value) => if value@.len() == 0 {
                Option::Some(
                    (
                        seq![
                            Atom::StringWithFlags {
                                is_truthy: false,
                                is_non_empty: true,
                                is_nonspecific_literal: false,
                            },
                        ],
                        true,
                        false,
                    ),
                )
            } else {
                Option::Some((seq![atom], true, false))
            },
            Atom::EnumLiteralCase { .. } => Option::Some((seq![atom], true, false)),
            _ => Option::Some((seq![atom], false, false)),
        },
        Atom::StringWithFlags { is_nonspecific_literal, .. } => match asserted {
            Atom::LiteralString(value) => if value@.len() == 0 {
                Option::Some(
                    (
                        seq![
                            Atom::StringWithFlags {
                                is_truthy: false,
                                is_non_empty: true,
                                is_nonspecific_literal,
                            },
                        ],
                        true,
                        false,
                    ),
                )
            } else {
                Option::Some((seq![atom], true, false))
            },
            Atom::EnumLiteralCase { .. } => Option::Some((seq![atom], true, false)),
            _ => Option::Some((seq![atom], false, false)),
        },
        Atom::LiteralString(existing) => match asserted {
            Atom::LiteralString(value) => if value@ == existing@ {
                Option::Some((Seq::empty(), true, false))
            } else {
                Option::Some((seq![atom], false, false))
            },
            Atom::EnumLiteralCase { .. } => Option::Some((seq![atom], true, false)),
            _ => Option::Some((seq![atom], false, false)),
        },
        Atom::Enum(existing_name) => match asserted {
            Atom::EnumLiteralCase { enum_name, member_name } => if enum_name@ == existing_name@ {
                match find_enum(enums, enum_name@) {
                    Option::Some(info) => Option::Some(
                        (other_cases(info.members@, enum_name, member_name), true, false),
                    ),
                    Option::None => Option::None,
                }
            } else {
                Option::Some((seq![atom], true, false))
            },
            Atom::LiteralString(value) => match find_enum(enums, existing_name@) {
                Option::Some(info) => enum_without_value(
                    atom,
                    info.members@,
                    LiteralValue::Str(value),
                ),
                Option::None => Option::Some((Seq::empty(), false, true)),
            },
            Atom::LiteralInt(value) => match find_enum(enums, existing_name@) {
                Option::Some(info) => enum_without_value(
                    atom,
                    info.members@,
                    LiteralValue::Int(value),
                ),
                Option::None => Option::None,
            },
            _ => Option::Some((seq![atom], false, false)),
        },
        Atom::EnumLiteralCase { enum_name: existing_name, member_name: existing_member } =>
            match asserted {
            Atom::EnumLiteralCase { enum_name, member_name } => if enum_name@ == existing_name@
                && member_name@ == existing_member@ {
                Option::Some((Seq::empty(), true, false))
            } else {
                Option::Some((seq![atom], false, false))
            },
            Atom::LiteralString(value) => match find_enum(enums, existing_name@) {
                Option::Some(info) => {
                    let matched = match find_member(info.members@, existing_member@) {
                        Option::Some(m) => differs_from(m.value, LiteralValue::Str(value))
                            == Option::Some(false),
                        Option::None => false,
                    };
                    if !matched {
                        Option::Some((seq![atom], false, false))
                    } else {
                        Option::Some((Seq::empty(), true, false))
                    }
                },
                Option::None => Option::None,
            },
            _ => Option::Some((seq![atom], false, false)),
        },
        Atom::TypeAlias | Atom::TypeVariable => Option::Some((seq![atom], true, false)),
        Atom::NamedObject { is_xhp_child } => Option::Some((seq![atom], is_xhp_child, false)),
        _ => Option::Some((seq![atom], false, false)),
    }
}

/// What negated literal equality keeps of a type that is not a literal:
/// `int`, `num`, `arraykey` and strings are always kept, as one type and
/// never as `nothing`. Only a string compared with `''` changes: it becomes a
/// non-empty, non-truthy-known string that keeps whether it is a
/// non-specific literal.
pub proof fn lemma_general_atoms_are_kept(atom: Atom, asserted: Atom, enums: Seq<EnumInfo>)
    requires
        atom is Int || atom is Num || atom is Arraykey || atom is String
            || atom is StringWithFlags,
    ensures
        negate_atom(atom, asserted, enums) is Some,
        ({
            let (kept_types, _, nothing) = negate_atom(atom, asserted, enums)->0;
            !nothing && kept_types.len() == 1
        }),
        ({
            let (kept_types, _, _) = negate_atom(atom, asserted, enums)->0;
            let kept = kept_types[0];
            let empty_string_compared = asserted matches Atom::LiteralString(v) && v@.len() == 0;
            &&& (atom is Int || atom is Num || atom is Arraykey || !empty_string_compared) ==> kept
                == atom
            &&& (atom is String && empty_string_compared) ==> kept == Atom::StringWithFlags {
                is_truthy: false,
                is_non_empty: true,
                is_nonspecific_literal: false,
            }
            &&& atom matches Atom::StringWithFlags { is_nonspecific_literal, .. }
                ==> (empty_string_compared ==> kept == Atom::StringWithFlags {
                is_truthy: false,
                is_non_empty: true,
                is_nonspecific_literal,
            })
        }),
{
}

/// A literal is removed exactly when it equals the asserted literal of the
/// same kind: an int literal compared with an int literal, or a string
/// literal compared with a string literal, is kept when they differ and
/// dropped, counting as removed, when they are equal.
pub proof fn lemma_equal_literal_is_removed(atom: Atom, asserted: Atom, enums: Seq<EnumInfo>)
    requires
        (atom is LiteralInt && asserted is LiteralInt) || (atom is LiteralString
            && asserted is LiteralString),
    ensures
        ({
            let same = match (atom, asserted) {
                (Atom::LiteralInt(x), Atom::LiteralInt(y)) => x == y,
                (Atom::LiteralString(x), Atom::LiteralString(y)) => x@ == y@,
                _ => false,
            };
            &&& negate_atom(atom, asserted, enums) is Some
            &&& negate_atom(atom, asserted, enums)->0 == if same {
                (Seq::<Atom>::empty(), true, false)
            } else {
                (seq![atom], false, false)
            }
        }),
{
}

/// Whether some atom of `existing` makes the whole result `nothing`.
pub open spec fn some_atom_gives_nothing(existing: Seq<Atom>, asserted: Atom, enums: Seq<EnumInfo>) -> bool {
    exists|i: int|
        0 <= i < existing.len() && (#[trigger] negate_atom(existing[i], asserted, enums)) matches Option::Some(
            (_, _, true),
        )
}

proof fn lemma_nothing_from(
    existing: Seq<Atom>,
    i: int,
    asserted: Atom,
    enums: Seq<EnumInfo>,
    acc: Seq<Atom>,
    removed: bool,
)
    requires
        0 <= i,
        negated_literal_types_from(existing, i, asserted, enums, acc, removed) is Some,
        exists|j: int|
            i <= j < existing.len() && (#[trigger] negate_atom(existing[j], asserted, enums)) matches Option::Some(
                (_, _, true),
            ),
    ensures
        negated_literal_types_from(existing, i, asserted, enums, acc, removed) == Option::Some(
            (seq![Atom::Nothing], true),
        ),
    decreases existing.len() - i,
{
    let j = choose|j: int|
        i <= j < existing.len() && (#[trigger] negate_atom(existing[j], asserted, enums)) matches Option::Some(
            (_, _, true),
        );
    if j > i {
        match negate_atom(existing[i], asserted, enums) {
            Option::Some((kept, removed_here, nothing)) => {
                if !nothing {
                    assert(negate_atom(existing[j], asserted, enums) matches Option::Some((_, _, true)));
                    lemma_nothing_from(existing, i + 1, asserted, enums, acc + kept, removed || removed_here);
                }
            },
            Option::None => {},
        }
    }
}

/// When an atom makes the result `nothing` (an enum unknown to the codebase
/// under a string comparison) and no lookup fails first, the whole result is
/// `nothing`, counting as removed.
pub proof fn lemma_unknown_enum_gives_nothing(existing: Seq<Atom>, asserted: Atom, enums: Seq<EnumInfo>)
    requires
        negated_literal_types(existing, asserted, enums) is Some,
        some_atom_gives_nothing(existing, asserted, enums),
    ensures
        negated_literal_types(existing, asserted, enums) == Option::Some((seq![Atom::Nothing], true)),
{
    lemma_nothing_from(existing, 0, asserted, enums, Seq::empty(), false);
}

/// The types kept of one atom, as far as they are known.
pub open spec fn kept_of(atom: Atom, asserted: Atom, enums: Seq<EnumInfo>) -> Seq<Atom> {
    match negate_atom(atom, asserted, enums) {
        Option::Some((kept, _, _)) => kept,
        Option::None => Seq::empty(),
    }
}

/// Whether narrowing the atom counts as removing a type.
pub open spec fn removes_from(atom: Atom, asserted: Atom, enums: Seq<EnumInfo>) -> bool {
    negate_atom(atom, asserted, enums) matches Option::Some((_, true, _))
}

/// The types kept of each atom, one sequence per atom.
pub open spec fn kept_per_atom(existing: Seq<Atom>, asserted: Atom, enums: Seq<EnumInfo>) -> Seq<
    Seq<Atom>,
> {
    existing.map_values(|a: Atom| kept_of(a, asserted, enums))
}

/// Whether every atom can be narrowed without a missing lookup and none
/// makes the whole result `nothing`.
pub open spec fn each_atom_narrows(existing: Seq<Atom>, asserted: Atom, enums: Seq<EnumInfo>) -> bool {
    forall|i: int|
        0 <= i < existing.len() ==> (#[trigger] negate_atom(existing[i], asserted, enums)) matches Option::Some(
            (_, _, false),
        )
}

proof fn lemma_narrowing_from_composes(
    existing: Seq<Atom>,
    i: int,
    asserted: Atom,
    enums: Seq<EnumInfo>,
    acc: Seq<Atom>,
    removed: bool,
)
    requires
        0 <= i <= existing.len(),
        each_atom_narrows(existing, asserted, enums),
    ensures
        negated_literal_types_from(existing, i, asserted, enums, acc, removed) == Option::Some(
            (
                acc + kept_per_atom(existing, asserted, enums).subrange(i, existing.len() as int).flatten(),
                removed || exists|j: int|
                    i <= j < existing.len() && removes_from(#[trigger] existing[j], asserted, enums),
            ),
        ),
    decreases existing.len() - i,
{
    let all = kept_per_atom(existing, asserted, enums);
    let n = existing.len() as int;
    if i == n {
        assert(all.subrange(i, n) =~= Seq::<Seq<Atom>>::empty());
        assert(acc + Seq::<Seq<Atom>>::empty().flatten() =~= acc);
    } else {
        assert(negate_atom(existing[i], asserted, enums) matches Option::Some((_, _, false)));
        let (kept, removed_here, _) = negate_atom(existing[i], asserted, enums)->0;
        lemma_narrowing_from_composes(existing, i + 1, asserted, enums, acc + kept, removed || removed_here);
        assert(all[i] == kept);
        assert(all.subrange(i, n).first() == kept);
        assert(all.subrange(i, n).drop_first() =~= all.subrange(i + 1, n));
        assert(all.subrange(i, n).flatten() == kept + all.subrange(i + 1, n).flatten());
        assert(acc + kept + all.subrange(i + 1, n).flatten() =~= acc + all.subrange(i, n).flatten());
        if removed_here {
            assert(removes_from(existing[i], asserted, enums));
        }
        if exists|j: int| i <= j < n && removes_from(#[trigger] existing[j], asserted, enums) {
            let j = choose|j: int| i <= j < n && removes_from(#[trigger] existing[j], asserted, enums);
            if j == i {
                assert(removed_here);
            }
        }
    }
}

/// Narrowing a union narrows each of its atoms: when no lookup is missing
/// and no atom makes the result `nothing`, the types left are those kept of
/// each atom, in order, and a type counts as removed exactly when one atom
/// removes one.
pub proof fn lemma_narrowing_composes(existing: Seq<Atom>, asserted: Atom, enums: Seq<EnumInfo>)
    requires
        each_atom_narrows(existing, asserted, enums),
    ensures
        negated_literal_types(existing, asserted, enums) == Option::Some(
            (
                kept_per_atom(existing, asserted, enums).flatten(),
                exists|j: int| 0 <= j < existing.len() && removes_from(#[trigger] existing[j], asserted, enums),
            ),
        ),
{
    lemma_narrowing_from_composes(existing, 0, asserted, enums, Seq::empty(), false);
    let all = kept_per_atom(existing, asserted, enums);
    assert(all.subrange(0, existing.len() as int) =~= all);
    assert(Seq::<Atom>::empty() + all.flatten() =~= all.flatten());
}

/// The types left of `existing` from index `i` on, with `acc` kept and
/// `removed` found so far; `None` when the codebase lacks what is looked up.
pub open spec fn negated_literal_types_from(
    existing: Seq<Atom>,
    i: int,
    asserted: Atom,
    enums: Seq<EnumInfo>,
    acc: Seq<Atom>,
    removed: bool,
) -> Option<(Seq<Atom>, bool)>
    decreases existing.len() - i,
{
    if i < 0 || i >= existing.len() {
        Option::Some((acc, removed))
    } else {
        match negate_atom(existing[i], asserted, enums) {
            Option::None => Option::None,
            Option::Some((kept, removed_here, nothing)) => if nothing {
                Option::Some((seq![Atom::Nothing], true))
            } else {
                negated_literal_types_from(
                    existing,
                    i + 1,
                    asserted,
                    enums,
                    acc + kept,
                    removed || removed_here,
                )
            },
        }
    }
}

/// The atomic types left of `existing` under the negated equality with the
/// literal `asserted`, in order, and whether a type was removed. `None` when
/// the codebase lacks an enum or a constant type that is looked up.
pub open spec fn negated_literal_types(
    existing: Seq<Atom>,
    asserted: Atom,
    enums: Seq<EnumInfo>,
) -> Option<(Seq<Atom>, bool)> {
    negated_literal_types_from(existing, 0, asserted, enums, Seq::empty(), false)
}

/// The issue raised for a comparison whose outcome the types already decide.
#[derive(Clone, Copy, Debug, PartialEq, Eq, Structural)]
pub enum ComparisonIssue {
    /// The comparison always has the same outcome.
    Redundant,
    /// The outcome the comparison asserts can never happen.
    Impossible,
}

/// The issue raised after narrowing by a negated literal equality: only when
/// the compared expression has a key and a position, and only when no type
/// was removed or no type is left. The comparison is redundant when nothing
/// was removed, and impossible otherwise; a `negated` assertion swaps the
/// two.
pub open spec fn comparison_issue(
    did_remove_type: bool,
    nothing_left: bool,
    has_key: bool,
    has_pos: bool,
    negated: bool,
) -> Option<ComparisonIssue> {
    if has_key && has_pos && (!did_remove_type || nothing_left) {
        if !did_remove_type != negated {
            Option::Some(ComparisonIssue::Redundant)
        } else {
            Option::Some(ComparisonIssue::Impossible)
        }
    } else {
        Option::None
    }
}

/// When the comparison is reported: never without a key or a position, never
/// when a type was removed and some type is left. Otherwise a comparison
/// that removes nothing always has the same outcome (redundant), and one that
/// leaves nothing can never hold (impossible); for a negated assertion the
/// two swap.
pub proof fn lemma_comparison_issue_cases(
    did_remove_type: bool,
    nothing_left: bool,
    has_key: bool,
    has_pos: bool,
    negated: bool,
)
    ensures
        !(has_key && has_pos) ==> comparison_issue(did_remove_type, nothing_left, has_key, has_pos, negated)
            is None,
        did_remove_type && !nothing_left ==> comparison_issue(
            did_remove_type,
            nothing_left,
            has_key,
            has_pos,
            negated,
        ) is None,
        has_key && has_pos && !did_remove_type ==> comparison_issue(
            did_remove_type,
            nothing_left,
            has_key,
            has_pos,
            negated,
        ) == Option::Some(
            if negated {
                ComparisonIssue::Impossible
            } else {
                ComparisonIssue::Redundant
            },
        ),
        has_key && has_pos && did_remove_type && nothing_left ==> comparison_issue(
            did_remove_type,
            nothing_left,
            has_key,
            has_pos,
            negated,
        ) == Option::Some(
            if negated {
                ComparisonIssue::Redundant
            } else {
                ComparisonIssue::Impossible
            },
        ),
{
}

fn copy_string(s: &String) -> (r: String)
    ensures
        r == *s,
{
    s.clone()
}

fn copy_atom(atom: &Atom) -> (r: Atom)
    ensures
        r == *atom,
{
    match atom {
        Atom::Int => Atom::Int,
        Atom::Num => Atom::Num,
        Atom::LiteralInt(v) => Atom::LiteralInt(*v),
        Atom::Arraykey => Atom::Arraykey,
        Atom::String => Atom::String,
        Atom::StringWithFlags { is_truthy, is_non_empty, is_nonspecific_literal } =>
            Atom::StringWithFlags {
            is_truthy: *is_truthy,
            is_non_empty: *is_non_empty,
            is_nonspecific_literal: *is_nonspecific_literal,
        },
        Atom::LiteralString(v) => Atom::LiteralString(copy_string(v)),
        Atom::Enum(name) => Atom::Enum(copy_string(name)),
        Atom::EnumLiteralCase { enum_name, member_name } => Atom::EnumLiteralCase {
            enum_name: copy_string(enum_name),
            member_name: copy_string(member_name),
        },
        Atom::TypeAlias => Atom::TypeAlias,
        Atom::NamedObject { is_xhp_child } => Atom::NamedObject { is_xhp_child: *is_xhp_child },
        Atom::Awaitable => Atom::Awaitable,
        Atom::TypeVariable => Atom::TypeVariable,
        Atom::Nothing => Atom::Nothing,
        Atom::Other => Atom::Other,
    }
}

fn lookup_enum<'a>(enums: &'a Vec<EnumInfo>, name: &String) -> (r: Option<&'a EnumInfo>)
    ensures
        match r {
            Option::Some(info) => find_enum(enums@, name@) == Option::Some(*info),
            Option::None => find_enum(enums@, name@) is None,
        },
{
    let mut i: usize = 0;
    assert(enums@.subrange(0, enums@.len() as int) =~= enums@);
    while i < enums.len()
        invariant
            i <= enums@.len(),
            find_enum(enums@, name@) == find_enum(enums@.subrange(i as int, enums@.len() as int), name@),
        decreases enums.len() - i,
    {
        let ghost rest = enums@.subrange(i as int, enums@.len() as int);
        assert(rest.drop_first() =~= enums@.subrange(i + 1, enums@.len() as int));
        if enums[i].name == *name {
            return Option::Some(&enums[i]);
        }
        i += 1;
    }
    assert(enums@.subrange(i as int, enums@.len() as int).len() == 0);
    Option::None
}

fn lookup_member<'a>(members: &'a Vec<EnumMember>, name: &String) -> (r: Option<&'a EnumMember>)
    ensures
        match r {
            Option::Some(m) => find_member(members@, name@) == Option::Some(*m),
            Option::None => find_member(members@, name@) is None,
        },
{
    let mut i: usize = 0;
    assert(members@.subrange(0, members@.len() as int) =~= members@);
    while i < members.len()
        invariant
            i <= members@.len(),
            find_member(members@, name@) == find_member(
                members@.subrange(i as int, members@.len() as int),
                name@,
            ),
        decreases members.len() - i,
    {
        let ghost rest = members@.subrange(i as int, members@.len() as int);
        assert(rest.drop_first() =~= members@.subrange(i + 1, members@.len() as int));
        if members[i].name == *name {
            return Option::Some(&members[i]);
        }
        i += 1;
    }
    assert(members@.subrange(i as int, members@.len() as int).len() == 0);
    Option::None
}

fn member_differs(member_value: &Option<LiteralValue>, value: &LiteralValue) -> (r: Option<bool>)
    ensures
        r == differs_from(*member_value, *value),
{
    match (member_value, value) {
        (Option::Some(LiteralValue::Int(a)), LiteralValue::Int(b)) => Option::Some(*a != *b),
        (Option::Some(LiteralValue::Str(a)), LiteralValue::Str(b)) => Option::Some(!(*a == *b)),
        _ => Option::None,
    }
}

fn collect_other_cases(members: &Vec<EnumMember>, enum_name: &String, member_name: &String) -> (r:
    Vec<Atom>)
    ensures
        r@ == other_cases(members@, *enum_name, *member_name),
{
    let mut r: Vec<Atom> = Vec::new();
    let mut i: usize = 0;
    while i < members.len()
        invariant
            i <= members@.len(),
            r@ == other_cases(members@.take(i as int), *enum_name, *member_name),
        decreases members.len() - i,
    {
        assert(members@.take(i + 1).drop_last() =~= members@.take(i as int));
        if !(members[i].name == *member_name) {
            r.push(
                Atom::EnumLiteralCase {
                    enum_name: copy_string(enum_name),
                    member_name: copy_string(&members[i].name),
                },
            );
        }
        i += 1;
    }
    assert(members@.take(members@.len() as int) =~= members@);
    r
}

fn collect_cases_other_than(members: &Vec<EnumMember>, value: &LiteralValue) -> (r: (
    Vec<Atom>,
    bool,
))
    requires
        cases_other_than(members@, *value) is Some,
    ensures
        cases_other_than(members@, *value) == Option::Some((r.0@, r.1)),
{
    let mut others: Vec<Atom> = Vec::new();
    let mut matched = false;
    let mut i: usize = 0;
    while i < members.len()
        invariant
            i <= members@.len(),
            cases_other_than(members@, *value) is Some,
            cases_other_than(members@.take(i as int), *value) == Option::Some((others@, matched)),
        decreases members.len() - i,
    {
        assert(members@.take(i + 1).drop_last() =~= members@.take(i as int));
        proof {
            lemma_cases_prefix_some(members@, (i + 1) as int, *value);
        }
        match member_differs(&members[i].value, value) {
            Option::Some(true) => {
                match &members[i].constant_type {
                    Option::Some(t) => {
                        others.push(copy_atom(t));
                    },
                    Option::None => {
                        assert(false);
                    },
                }
            },
            Option::Some(false) => {
                matched = true;
            },
            Option::None => {},
        }
        i += 1;
    }
    assert(members@.take(members@.len() as int) =~= members@);
    (others, matched)
}

proof fn lemma_cases_prefix_some(members: Seq<EnumMember>, j: int, value: LiteralValue)
    requires
        0 <= j <= members.len(),
        cases_other_than(members, value) is Some,
    ensures
        cases_other_than(members.take(j), value) is Some,
    decreases members.len(),
{
    if j < members.len() {
        assert(members.drop_last().take(j) =~= members.take(j));
        lemma_cases_prefix_some(members.drop_last(), j, value);
    } else {
        assert(members.take(j) =~= members);
    }
}

fn enum_without(atom: &Atom, members: &Vec<EnumMember>, value: &LiteralValue) -> (r: (
    Vec<Atom>,
    bool,
    bool,
))
    requires
        enum_without_value(*atom, members@, *value) is Some,
    ensures
        enum_without_value(*atom, members@, *value) == Option::Some((r.0@, r.1, r.2)),
{
    let (others, matched) = collect_cases_other_than(members, value);
    if !matched {
        let mut kept: Vec<Atom> = Vec::new();
        kept.push(copy_atom(atom));
        assert(kept@ =~= seq![*atom]);
        (kept, false, false)
    } else {
        (others, true, false)
    }
}

fn single(atom: Atom) -> (r: Vec<Atom>)
    ensures
        r@ == seq![atom],
{
    let mut r: Vec<Atom> = Vec::new();
    r.push(atom);
    assert(r@ =~= seq![atom]);
    r
}

/// What is left of one atomic type: the types kept, whether a type was
/// removed, and whether the whole result is `nothing`.
fn negate_one(atom: &Atom, asserted: &Atom, enums: &Vec<EnumInfo>) -> (r: (Vec<Atom>, bool, bool))
    requires
        negate_atom(*atom, *asserted, enums@) is Some,
    ensures
        negate_atom(*atom, *asserted, enums@) == Option::Some((r.0@, r.1, r.2)),
{
    match atom {
        Atom::Int | Atom::Num => {
            let removed = matches!(asserted, Atom::LiteralInt(_) | Atom::EnumLiteralCase { .. });
            (single(copy_atom(atom)), removed, false)
        },
        Atom::LiteralInt(existing) => match asserted {
            Atom::LiteralInt(value) => {
                if *value == *existing {
                    (Vec::new(), true, false)
                } else {
                    (single(copy_atom(atom)), false, false)
                }
            },
            _ => (Vec::new(), false, false),
        },
        Atom::Arraykey => {
            let removed = matches!(
                asserted,
                Atom::LiteralString(_) | Atom::LiteralInt(_) | Atom::EnumLiteralCase { .. }
            );
            (single(copy_atom(atom)), removed, false)
        },
        Atom::String => match asserted {
            Atom::LiteralString(value) => {
                if value.as_str().unicode_len() == 0 {
                    (
                        single(
                            Atom::StringWithFlags {
                                is_truthy: false,
                                is_non_empty: true,
                                is_nonspecific_literal: false,
                            },
                        ),
                        true,
                        false,
                    )
                } else {
                    (single(copy_atom(atom)), true, false)
                }
            },
            Atom::EnumLiteralCase { .. } => (single(copy_atom(atom)), true, false),
            _ => (single(copy_atom(atom)), false, false),
        },
        Atom::StringWithFlags { is_nonspecific_literal, .. } => match asserted {
            Atom::LiteralString(value) => {
                if value.as_str().unicode_len() == 0 {
                    (
                        single(
                            Atom::StringWithFlags {
                                is_truthy: false,
                                is_non_empty: true,
                                is_nonspecific_literal: *is_nonspecific_literal,
                            },
                        ),
                        true,
                        false,
                    )
                } else {
                    (single(copy_atom(atom)), true, false)
                }
            },
            Atom::EnumLiteralCase { .. } => (single(copy_atom(atom)), true, false),
            _ => (single(copy_atom(atom)), false, false),
        },
        Atom::LiteralString(existing) => match asserted {
            Atom::LiteralString(value) => {
                if *value == *existing {
                    (Vec::new(), true, false)
                } else {
                    (single(copy_atom(atom)), false, false)
                }
            },
            Atom::EnumLiteralCase { .. } => (single(copy_atom(atom)), true, false),
            _ => (single(copy_atom(atom)), false, false),
        },
        Atom::Enum(existing_name) => match asserted {
            Atom::EnumLiteralCase { enum_name, member_name } => {
                if *enum_name == *existing_name {
                    match lookup_enum(enums, enum_name) {
                        Option::Some(info) => (
                            collect_other_cases(&info.members, enum_name, member_name),
                            true,
                            false,
                        ),
                        Option::None => {
                            assert(false);
                            (Vec::new(), false, false)
                        },
                    }
                } else {
                    (single(copy_atom(atom)), true, false)
                }
            },
            Atom::LiteralString(value) => match lookup_enum(enums, existing_name) {
                Option::Some(info) => enum_without(
                    atom,
                    &info.members,
                    &LiteralValue::Str(copy_string(value)),
                ),
                Option::None => (Vec::new(), false, true),
            },
            Atom::LiteralInt(value) => match lookup_enum(enums, existing_name) {
                Option::Some(info) => enum_without(atom, &info.members, &LiteralValue::Int(*value)),
                Option::None => {
                    assert(false);
                    (Vec::new(), false, false)
                },
            },
            _ => (single(copy_atom(atom)), false, false),
        },
        Atom::EnumLiteralCase { enum_name: existing_name, member_name: existing_member } =>
            match asserted {
            Atom::EnumLiteralCase { enum_name, member_name } => {
                if *enum_name == *existing_name && *member_name == *existing_member {
                    (Vec::new(), true, false)
                } else {
                    (single(copy_atom(atom)), false, false)
                }
            },
            Atom::LiteralString(value) => match lookup_enum(enums, existing_name) {
                Option::Some(info) => {
                    let matched = match lookup_member(&info.members, existing_member) {
                        Option::Some(m) => {
                            let d = member_differs(&m.value, &LiteralValue::Str(copy_string(value)));
                            match d {
                                Option::Some(false) => true,
                                _ => false,
                            }
                        },
                        Option::None => false,
                    };
                    if !matched {
                        (single(copy_atom(atom)), false, false)
                    } else {
                        (Vec::new(), true, false)
                    }
                },
                Option::None => {
                    assert(false);
                    (Vec::new(), false, false)
                },
            },
            _ => (single(copy_atom(atom)), false, false),
        },
        Atom::TypeAlias | Atom::TypeVariable => (single(copy_atom(atom)), true, false),
        Atom::NamedObject { is_xhp_child } => (single(copy_atom(atom)), *is_xhp_child, false),
        _ => (single(copy_atom(atom)), false, false),
    }
}

/// The atomic types left of `existing` when a variable is asserted not to
/// equal the literal `asserted`, whether a type was removed (see
/// `negated_literal_types`), and the issue to raise for the comparison (see
/// `comparison_issue`). When an enum in the type is unknown to the codebase
/// under a string comparison, the result is `nothing` and no issue is raised.
pub fn handle_literal_negated_equality(
    existing: &Vec<Atom>,
    asserted: &Atom,
    enums: &Vec<EnumInfo>,
    has_key: bool,
    has_pos: bool,
    negated: bool,
) -> (r: (Vec<Atom>, bool, Option<ComparisonIssue>))
    requires
        negated_literal_types(existing@, *asserted, enums@) is Some,
    ensures
        negated_literal_types(existing@, *asserted, enums@) == Option::Some((r.0@, r.1)),
        r.2 == comparison_issue(r.1, r.0@.len() == 0, has_key, has_pos, negated),
{
    let mut did_remove_type = false;
    let mut acceptable_types: Vec<Atom> = Vec::new();
    let mut i: usize = 0;
    while i < existing.len()
        invariant
            i <= existing@.len(),
            negated_literal_types(existing@, *asserted, enums@) is Some,
            negated_literal_types(existing@, *asserted, enums@) == negated_literal_types_from(
                existing@,
                i as int,
                *asserted,
                enums@,
                acceptable_types@,
                did_remove_type,
            ),
        decreases existing.len() - i,
    {
        let (mut kept, removed, nothing) = negate_one(&existing[i], asserted, enums);
        if nothing {
            return (single(Atom::Nothing), true, Option::None);
        }
        let ghost before = acceptable_types@;
        let ghost kept_view = kept@;
        acceptable_types.append(&mut kept);
        assert(acceptable_types@ =~= before + kept_view);
        did_remove_type = did_remove_type || removed;
        i += 1;
    }
    let issue = if has_key && has_pos && (!did_remove_type || acceptable_types.len() == 0) {
        if !did_remove_type != negated {
            Option::Some(ComparisonIssue::Redundant)
        } else {
            Option::Some(ComparisonIssue::Impossible)
        }
    } else {
        Option::None
    };
    (acceptable_types, did_remove_type, issue)
}

} // verus!
