//! Values by variable name: the type of each local, by an identifier that
//! equal types share, or how often each variable was assigned.

use vstd::prelude::*;

verus! {

/// Name and value pairs, in the order they are held.
pub type NamedValues = Seq<(Seq<char>, u64)>;

/// The map the pairs describe; a later pair for a name replaces an earlier
/// one.
pub open spec fn value_map(pairs: NamedValues) -> Map<Seq<char>, u64>
    decreases pairs.len(),
{
    if pairs.len() == 0 {
        Map::empty()
    } else {
        value_map(pairs.drop_last()).insert(pairs.last().0, pairs.last().1)
    }
}

/// Whether no name has two pairs.
pub open spec fn names_unique(pairs: NamedValues) -> bool {
    forall|i: int, j: int| 0 <= i < j < pairs.len() ==> pairs[i].0 != pairs[j].0
}

/// Whether some pair has the name `name`.
pub open spec fn has_name(pairs: NamedValues, name: Seq<char>) -> bool {
    exists|j: int| 0 <= j < pairs.len() && (#[trigger] pairs[j]).0 == name
}

/// The names of the map are those of the pairs.
pub proof fn lemma_value_map_names(pairs: NamedValues, name: Seq<char>)
    ensures
        value_map(pairs).dom().contains(name) == has_name(pairs, name),
    decreases pairs.len(),
{
    if pairs.len() > 0 {
        let init = pairs.drop_last();
        lemma_value_map_names(init, name);
        if has_name(init, name) {
            let j = choose|j: int| 0 <= j < init.len() && (#[trigger] init[j]).0 == name;
            assert(pairs[j] == init[j]);
        }
        if has_name(pairs, name) && pairs.last().0 != name {
            let j = choose|j: int| 0 <= j < pairs.len() && (#[trigger] pairs[j]).0 == name;
            assert(init[j] == pairs[j]);
        }
        if pairs.last().0 == name {
            assert(pairs[pairs.len() - 1] == pairs.last());
        }
    }
}

/// With unique names, each pair gives the map's value for its name.
pub proof fn lemma_value_map_pair(pairs: NamedValues, i: int)
    requires
        names_unique(pairs),
        0 <= i < pairs.len(),
    ensures
        value_map(pairs).dom().contains(pairs[i].0),
        value_map(pairs)[pairs[i].0] == pairs[i].1,
    decreases pairs.len(),
{
    let init = pairs.drop_last();
    if i < pairs.len() - 1 {
        assert(init[i] == pairs[i]);
        lemma_value_map_pair(init, i);
    }
}

/// The map of the first `i + 1` pairs adds pair `i` to that of the first
/// `i`, whose names do not include it when names are unique.
pub proof fn lemma_value_map_take(pairs: NamedValues, i: int)
    requires
        0 <= i < pairs.len(),
    ensures
        value_map(pairs.take(i + 1)) == value_map(pairs.take(i)).insert(pairs[i].0, pairs[i].1),
        names_unique(pairs) ==> !value_map(pairs.take(i)).dom().contains(pairs[i].0),
{
    assert(pairs.take(i + 1).drop_last() =~= pairs.take(i));
    assert(pairs.take(i + 1).last() == pairs[i]);
    lemma_value_map_names(pairs.take(i), pairs[i].0);
    if names_unique(pairs) && has_name(pairs.take(i), pairs[i].0) {
        let j = choose|j: int| 0 <= j < i && (#[trigger] pairs.take(i)[j]).0 == pairs[i].0;
        assert(pairs.take(i)[j] == pairs[j]);
    }
}

/// The pairs with the value for `name` set to `value`.
pub open spec fn with_value(pairs: NamedValues, name: Seq<char>, value: u64) -> NamedValues {
    pairs.map_values(
        |p: (Seq<char>, u64)|
            if p.0 == name {
                (name, value)
            } else {
                p
            },
    )
}

proof fn lemma_with_value(pairs: NamedValues, name: Seq<char>, value: u64)
    requires
        names_unique(pairs),
    ensures
        names_unique(with_value(pairs, name, value)),
        value_map(with_value(pairs, name, value)) == if value_map(pairs).dom().contains(name) {
            value_map(pairs).insert(name, value)
        } else {
            value_map(pairs)
        },
    decreases pairs.len(),
{
    let replaced = with_value(pairs, name, value);
    assert forall|i: int, j: int| 0 <= i < j < replaced.len() implies replaced[i].0
        != replaced[j].0 by {
        assert(replaced[i].0 == pairs[i].0);
        assert(replaced[j].0 == pairs[j].0);
    }
    if pairs.len() > 0 {
        let init = pairs.drop_last();
        assert(names_unique(init));
        lemma_with_value(init, name, value);
        assert(replaced.drop_last() =~= with_value(init, name, value));
        assert(replaced.last() == replaced[pairs.len() - 1]);
        lemma_value_map_names(init, name);
        if pairs.last().0 == name {
            if has_name(init, name) {
                let j = choose|j: int| 0 <= j < init.len() && (#[trigger] init[j]).0 == name;
                assert(init[j] == pairs[j]);
                assert(pairs[pairs.len() - 1] == pairs.last());
            }
            assert(value_map(replaced) =~= value_map(pairs).insert(name, value));
        } else {
            assert(value_map(pairs).dom().contains(name) == value_map(init).dom().contains(name));
            if value_map(init).dom().contains(name) {
                assert(value_map(replaced) =~= value_map(pairs).insert(name, value));
            } else {
                assert(value_map(replaced) =~= value_map(pairs));
            }
        }
    }
}

/// The names held by a list of strings.
pub open spec fn name_set(names: Seq<String>) -> Set<Seq<char>> {
    Set::new(|name: Seq<char>| exists|j: int| 0 <= j < names.len() && (#[trigger] names[j])@ == name)
}

/// Whether no name is listed twice.
pub open spec fn names_distinct(names: Seq<String>) -> bool {
    forall|i: int, j: int| 0 <= i < j < names.len() ==> names[i]@ != names[j]@
}

/// Values by variable name. No name has two entries.
pub struct VarMap {
    pub(crate) entries: Vec<(String, u64)>,
}

/// The names and values of the entries.
pub open spec fn entry_pairs(entries: Seq<(String, u64)>) -> NamedValues {
    entries.map_values(|e: (String, u64)| (e.0@, e.1))
}

impl View for VarMap {
    type V = Map<Seq<char>, u64>;

    closed spec fn view(&self) -> Map<Seq<char>, u64> {
        value_map(entry_pairs(self.entries@))
    }
}

impl VarMap {
    #[verifier::type_invariant]
    pub(crate) closed spec fn has_unique_names(self) -> bool {
        names_unique(entry_pairs(self.entries@))
    }

    /// What the invariant says of the entries.
    pub(crate) proof fn lemma_unique_names(m: VarMap)
        requires
            m.has_unique_names(),
        ensures
            names_unique(entry_pairs(m.entries@)),
    {
    }

    /// The view is the map of the entries.
    pub(crate) proof fn lemma_view_is_entries(m: VarMap)
        ensures
            m@ == value_map(entry_pairs(m.entries@)),
    {
    }

    pub fn new() -> (r: Self)
        ensures
            r@ == Map::<Seq<char>, u64>::empty(),
    {
        let r = VarMap { entries: Vec::new() };
        assert(entry_pairs(r.entries@) =~= Seq::<(Seq<char>, u64)>::empty());
        r
    }

    /// The value for `name`, if it has one.
    pub fn get(&self, name: &String) -> (r: Option<u64>)
        ensures
            r == if self@.dom().contains(name@) {
                Option::Some(self@[name@])
            } else {
                Option::None
            },
    {
        proof {
            use_type_invariant(self);
        }
        let ghost pairs = entry_pairs(self.entries@);
        let mut i: usize = 0;
        while i < self.entries.len()
            invariant
                i <= self.entries@.len(),
                pairs == entry_pairs(self.entries@),
                names_unique(pairs),
                forall|j: int| 0 <= j < i ==> (#[trigger] pairs[j]).0 != name@,
            decreases self.entries.len() - i,
        {
            if self.entries[i].0 == *name {
                proof {
                    assert(pairs[i as int] == (self.entries@[i as int].0@, self.entries@[i as int].1));
                    lemma_value_map_pair(pairs, i as int);
                }
                return Option::Some(self.entries[i].1);
            }
            i += 1;
        }
        proof {
            lemma_value_map_names(pairs, name@);
        }
        Option::None
    }

    /// Whether `name` has a value.
    pub fn contains_key(&self, name: &String) -> (r: bool)
        ensures
            r == self@.dom().contains(name@),
    {
        self.get(name).is_some()
    }

    /// Sets the value for `name`, replacing any it had.
    pub fn insert(&mut self, name: String, value: u64)
        ensures
            final(self)@ == old(self)@.insert(name@, value),
    {
        proof {
            use_type_invariant(&*self);
        }
        let ghost pairs = entry_pairs(self.entries@);
        let ghost replaced = with_value(pairs, name@, value);
        let mut found = false;
        let mut entries: Vec<(String, u64)> = Vec::new();
        let mut i: usize = 0;
        while i < self.entries.len()
            invariant
                i <= self.entries@.len(),
                pairs == entry_pairs(self.entries@),
                replaced == with_value(pairs, name@, value),
                entry_pairs(entries@) == replaced.take(i as int),
                found == has_name(pairs.take(i as int), name@),
            decreases self.entries.len() - i,
        {
            let ghost before = entries@;
            let same = self.entries[i].0 == name;
            if same {
                entries.push((name.clone(), value));
            } else {
                entries.push((self.entries[i].0.clone(), self.entries[i].1));
            }
            proof {
                assert(pairs[i as int] == (self.entries@[i as int].0@, self.entries@[i as int].1));
                assert(entry_pairs(entries@) =~= entry_pairs(before).push(replaced[i as int]));
                assert(replaced.take(i + 1) =~= replaced.take(i as int).push(replaced[i as int]));
                if has_name(pairs.take(i + 1), name@) && !same {
                    let j = choose|j: int|
                        0 <= j < i + 1 && (#[trigger] pairs.take(i + 1)[j]).0 == name@;
                    assert(pairs.take(i as int)[j] == pairs.take(i + 1)[j]);
                }
                if has_name(pairs.take(i as int), name@) {
                    let j = choose|j: int| 0 <= j < i && (#[trigger] pairs.take(i as int)[j]).0 == name@;
                    assert(pairs.take(i + 1)[j] == pairs.take(i as int)[j]);
                }
                if same {
                    assert(pairs.take(i + 1)[i as int] == pairs[i as int]);
                }
            }
            found = found || same;
            i += 1;
        }
        proof {
            assert(replaced.take(pairs.len() as int) =~= replaced);
            assert(pairs.take(pairs.len() as int) =~= pairs);
            lemma_with_value(pairs, name@, value);
            lemma_value_map_names(pairs, name@);
        }
        if !found {
            let ghost before = entries@;
            entries.push((name, value));
            proof {
                assert(entry_pairs(entries@) =~= entry_pairs(before).push((name@, value)));
                assert(replaced =~= pairs);
                assert forall|j: int| 0 <= j < pairs.len() implies (#[trigger] pairs[j]).0
                    != name@ by {
                    if pairs[j].0 == name@ {
                        assert(has_name(pairs, name@));
                    }
                }
                assert(names_unique(entry_pairs(entries@)));
                assert(entry_pairs(entries@).drop_last() =~= pairs);
            }
        }
        self.entries = entries;
    }
}

} // verus!
