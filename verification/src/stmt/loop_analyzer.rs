//! How deeply assignments inside a loop depend on each other, which bounds
//! how often the loop body has to be re-analysed.

use vstd::prelude::*;

verus! {

/// The model of an assignment map: for each assigned variable, the
/// variables whose values flow into it, in the order they are visited.
pub type AssignmentEntries = Seq<(Seq<char>, Seq<Seq<char>>)>;

/// The variables flowing into `key`, from the first entry for it.
pub open spec fn entry_ids(entries: AssignmentEntries, key: Seq<char>) -> Option<Seq<Seq<char>>>
    decreases entries.len(),
{
    if entries.len() == 0 {
        Option::None
    } else {
        match entry_ids(entries.drop_last(), key) {
            Option::Some(ids) => Option::Some(ids),
            Option::None => if entries.last().0 == key {
                Option::Some(entries.last().1)
            } else {
                Option::None
            },
        }
    }
}

/// The entries without any for `key`.
pub open spec fn without_key(entries: AssignmentEntries, key: Seq<char>) -> AssignmentEntries
    decreases entries.len(),
{
    if entries.len() == 0 {
        entries
    } else {
        let rest = without_key(entries.drop_last(), key);
        if entries.last().0 == key {
            rest
        } else {
            rest.push(entries.last())
        }
    }
}

proof fn lemma_without_key_len(entries: AssignmentEntries, key: Seq<char>)
    ensures
        without_key(entries, key).len() <= entries.len(),
        entry_ids(entries, key) is Some ==> without_key(entries, key).len() < entries.len(),
    decreases entries.len(),
{
    if entries.len() > 0 {
        lemma_without_key_len(entries.drop_last(), key);
    }
}

proof fn lemma_entry_ids_prefix(entries: AssignmentEntries, j: int, key: Seq<char>)
    requires
        0 <= j <= entries.len(),
        entry_ids(entries.take(j), key) is Some,
    ensures
        entry_ids(entries, key) == entry_ids(entries.take(j), key),
    decreases entries.len(),
{
    if j == entries.len() {
        assert(entries.take(j) =~= entries);
    } else {
        assert(entries.drop_last().take(j) =~= entries.take(j));
        lemma_entry_ids_prefix(entries.drop_last(), j, key);
    }
}

/// The depth of the assignments into `key` and the entries left after they
/// have all been walked: each entry is removed as it is walked, so a
/// variable reached again later counts as a leaf.
pub open spec fn assignment_depth(entries: AssignmentEntries, key: Seq<char>) -> (
    nat,
    AssignmentEntries,
)
    decreases entries.len(), 1int, 0int,
    via assignment_depth_decreases
{
    match entry_ids(entries, key) {
        Option::None => (0, entries),
        Option::Some(ids) => assignment_depth_over(ids, 0, without_key(entries, key), 0),
    }
}

/// The walk over the variables `ids` from index `i` on, with the deepest
/// depth found so far.
pub open spec fn assignment_depth_over(
    ids: Seq<Seq<char>>,
    i: int,
    entries: AssignmentEntries,
    max_depth: nat,
) -> (nat, AssignmentEntries)
    decreases entries.len(), 2int, ids.len() - i,
{
    if i < 0 || i >= ids.len() {
        (max_depth, entries)
    } else if entry_ids(entries, ids[i]) is Some {
        let (inner, rest) = assignment_depth(entries, ids[i]);
        let depth = inner + 1;
        if rest.len() <= entries.len() {
            assignment_depth_over(
                ids,
                i + 1,
                rest,
                if depth > max_depth {
                    depth
                } else {
                    max_depth
                },
            )
        } else {
            (max_depth, entries)
        }
    } else {
        assignment_depth_over(
            ids,
            i + 1,
            entries,
            if 1 > max_depth {
                1
            } else {
                max_depth
            },
        )
    }
}

#[via_fn]
proof fn assignment_depth_decreases(entries: AssignmentEntries, key: Seq<char>) {
    lemma_without_key_len(entries, key);
}

/// Walking the assignments into a variable removes its entry, never adds
/// entries, and finds a depth of at most the number of entries.
pub proof fn lemma_assignment_depth_bounds(entries: AssignmentEntries, key: Seq<char>)
    ensures
        entry_ids(entries, key) is Some ==> assignment_depth(entries, key).1.len() < entries.len(),
        assignment_depth(entries, key).1.len() <= entries.len(),
        assignment_depth(entries, key).0 <= entries.len(),
    decreases entries.len(), 1int, 0int,
{
    match entry_ids(entries, key) {
        Option::None => {},
        Option::Some(ids) => {
            lemma_without_key_len(entries, key);
            lemma_assignment_depth_over_bounds(ids, 0, without_key(entries, key), 0);
        },
    }
}

proof fn lemma_assignment_depth_over_bounds(
    ids: Seq<Seq<char>>,
    i: int,
    entries: AssignmentEntries,
    max_depth: nat,
)
    ensures
        assignment_depth_over(ids, i, entries, max_depth).1.len() <= entries.len(),
        assignment_depth_over(ids, i, entries, max_depth).0 <= if max_depth > entries.len() + 1 {
            max_depth as int
        } else {
            entries.len() + 1int
        },
    decreases entries.len(), 2int, ids.len() - i,
{
    if 0 <= i < ids.len() {
        if entry_ids(entries, ids[i]) is Some {
            lemma_assignment_depth_bounds(entries, ids[i]);
            let (inner, rest) = assignment_depth(entries, ids[i]);
            let depth = inner + 1;
            lemma_assignment_depth_over_bounds(
                ids,
                i + 1,
                rest,
                if depth > max_depth {
                    depth
                } else {
                    max_depth
                },
            );
        } else {
            lemma_assignment_depth_over_bounds(
                ids,
                i + 1,
                entries,
                if 1 > max_depth {
                    1
                } else {
                    max_depth
                },
            );
        }
    }
}

/// The entries left when the walk over `ids` reaches index `i`, starting
/// from `entries`: each earlier variable that still had an entry has had its
/// assignments walked.
pub open spec fn entries_before(ids: Seq<Seq<char>>, i: int, entries: AssignmentEntries) -> AssignmentEntries
    decreases i,
{
    if i <= 0 {
        entries
    } else {
        let prev = entries_before(ids, i - 1, entries);
        if entry_ids(prev, ids[i - 1]) is Some {
            assignment_depth(prev, ids[i - 1]).1
        } else {
            prev
        }
    }
}

proof fn lemma_depth_over_at_least(ids: Seq<Seq<char>>, i: int, entries: AssignmentEntries, max_depth: nat)
    ensures
        assignment_depth_over(ids, i, entries, max_depth).0 >= max_depth,
    decreases entries.len(), ids.len() - i,
{
    if 0 <= i < ids.len() {
        if entry_ids(entries, ids[i]) is Some {
            lemma_assignment_depth_bounds(entries, ids[i]);
            let (inner, rest) = assignment_depth(entries, ids[i]);
            let depth = inner + 1;
            lemma_depth_over_at_least(
                ids,
                i + 1,
                rest,
                if depth > max_depth {
                    depth
                } else {
                    max_depth
                },
            );
        } else {
            lemma_depth_over_at_least(
                ids,
                i + 1,
                entries,
                if 1 > max_depth {
                    1
                } else {
                    max_depth
                },
            );
        }
    }
}

proof fn lemma_depth_over_covers(
    ids: Seq<Seq<char>>,
    j: int,
    i: int,
    start: AssignmentEntries,
    max_depth: nat,
)
    requires
        0 <= j <= i < ids.len(),
    ensures
        ({
            let before = entries_before(ids, i, start);
            assignment_depth_over(ids, j, entries_before(ids, j, start), max_depth).0 >= 1 + if entry_ids(
                before,
                ids[i],
            ) is Some {
                assignment_depth(before, ids[i]).0
            } else {
                0
            }
        }),
    decreases i - j,
{
    let here = entries_before(ids, j, start);
    assert(entries_before(ids, j + 1, start) == if entry_ids(here, ids[j]) is Some {
        assignment_depth(here, ids[j]).1
    } else {
        here
    });
    if entry_ids(here, ids[j]) is Some {
        lemma_assignment_depth_bounds(here, ids[j]);
        let (inner, rest) = assignment_depth(here, ids[j]);
        let depth = inner + 1;
        let next_max = if depth > max_depth {
            depth
        } else {
            max_depth
        };
        if j == i {
            lemma_depth_over_at_least(ids, j + 1, rest, next_max);
        } else {
            lemma_depth_over_covers(ids, j + 1, i, start, next_max);
        }
    } else {
        let next_max = if 1 > max_depth {
            1
        } else {
            max_depth
        };
        if j == i {
            lemma_depth_over_at_least(ids, j + 1, here, next_max);
        } else {
            lemma_depth_over_covers(ids, j + 1, i, start, next_max);
        }
    }
}

/// Every variable flowing into `key` is walked, in order: the depth of `key`
/// is at least one more than the depth of each of them, taken over the
/// entries left when the walk reaches it (0 for a variable without an entry
/// by then).
pub proof fn lemma_depth_covers_every_source(entries: AssignmentEntries, key: Seq<char>, i: int)
    requires
        entry_ids(entries, key) is Some,
        0 <= i < entry_ids(entries, key)->0.len(),
    ensures
        ({
            let ids = entry_ids(entries, key)->0;
            let before = entries_before(ids, i, without_key(entries, key));
            assignment_depth(entries, key).0 >= 1 + if entry_ids(before, ids[i]) is Some {
                assignment_depth(before, ids[i]).0
            } else {
                0
            }
        }),
{
    let ids = entry_ids(entries, key)->0;
    lemma_depth_over_covers(ids, 0, i, without_key(entries, key), 0);
}

/// One more than the depth of the variable at index `i`, over the entries
/// left when the walk reaches it.
pub open spec fn source_depth(ids: Seq<Seq<char>>, i: int, start: AssignmentEntries) -> nat {
    let before = entries_before(ids, i, start);
    1 + if entry_ids(before, ids[i]) is Some {
        assignment_depth(before, ids[i]).0
    } else {
        0
    }
}

proof fn lemma_depth_over_attained(
    ids: Seq<Seq<char>>,
    j: int,
    start: AssignmentEntries,
    max_depth: nat,
)
    requires
        0 <= j <= ids.len(),
    ensures
        ({
            let r = assignment_depth_over(ids, j, entries_before(ids, j, start), max_depth).0;
            r == max_depth || exists|i: int| j <= i < ids.len() && r == source_depth(ids, i, start)
        }),
    decreases ids.len() - j,
{
    if j < ids.len() {
        let here = entries_before(ids, j, start);
        assert(entries_before(ids, j + 1, start) == if entry_ids(here, ids[j]) is Some {
            assignment_depth(here, ids[j]).1
        } else {
            here
        });
        let d = source_depth(ids, j, start);
        let next_max = if d > max_depth {
            d
        } else {
            max_depth
        };
        if entry_ids(here, ids[j]) is Some {
            lemma_assignment_depth_bounds(here, ids[j]);
        }
        lemma_depth_over_attained(ids, j + 1, start, next_max);
        let r = assignment_depth_over(ids, j, here, max_depth).0;
        assert(r == assignment_depth_over(ids, j + 1, entries_before(ids, j + 1, start), next_max).0);
        if exists|i: int| j + 1 <= i < ids.len() && r == source_depth(ids, i, start) {
            let i = choose|i: int| j + 1 <= i < ids.len() && r == source_depth(ids, i, start);
            assert(j <= i < ids.len() && r == source_depth(ids, i, start));
        } else if r != max_depth {
            assert(r == d);
        }
    }
}

/// The depth of `key` is exactly the deepest of its variables: 0 when it has
/// no entry or no variables, and otherwise one more than the depth of one of
/// them (taken when the walk reaches it), which no other exceeds.
pub proof fn lemma_depth_is_deepest_source(entries: AssignmentEntries, key: Seq<char>)
    ensures
        entry_ids(entries, key) is None ==> assignment_depth(entries, key).0 == 0,
        entry_ids(entries, key) matches Option::Some(ids) ==> {
            let start = without_key(entries, key);
            let d = assignment_depth(entries, key).0;
            &&& ids.len() == 0 ==> d == 0
            &&& ids.len() > 0 ==> exists|i: int| 0 <= i < ids.len() && d == source_depth(ids, i, start)
            &&& forall|i: int| 0 <= i < ids.len() ==> d >= #[trigger] source_depth(ids, i, start)
        },
{
    if entry_ids(entries, key) is Some {
        let ids = entry_ids(entries, key)->0;
        let start = without_key(entries, key);
        lemma_depth_over_attained(ids, 0, start, 0);
        assert forall|i: int| 0 <= i < ids.len() implies assignment_depth(entries, key).0
            >= #[trigger] source_depth(ids, i, start) by {
            lemma_depth_covers_every_source(entries, key, i);
        }
        if ids.len() > 0 {
            lemma_depth_covers_every_source(entries, key, 0);
        }
    }
}

/// Whether no key has two entries.
pub open spec fn keys_unique(entries: AssignmentEntries) -> bool {
    forall|i: int, j: int| 0 <= i < j < entries.len() ==> entries[i].0 != entries[j].0
}

/// Whether no entry lists a variable twice.
pub open spec fn ids_unique(entries: AssignmentEntries) -> bool {
    forall|i: int| 0 <= i < entries.len() ==> (#[trigger] entries[i]).1.no_duplicates()
}

/// Whether every entry of `part` is an entry of `whole`.
pub open spec fn entries_within(part: AssignmentEntries, whole: AssignmentEntries) -> bool {
    forall|i: int| 0 <= i < part.len() ==> #[trigger] whole.contains(part[i])
}

/// Removing the entries for a key leaves none for it, keeps only entries
/// that were there, and keeps keys unique.
pub proof fn lemma_without_key_entries(entries: AssignmentEntries, key: Seq<char>)
    ensures
        forall|i: int| 0 <= i < without_key(entries, key).len() ==> without_key(entries, key)[i].0 != key,
        entries_within(without_key(entries, key), entries),
        keys_unique(entries) ==> keys_unique(without_key(entries, key)),
    decreases entries.len(),
{
    if entries.len() > 0 {
        let init = entries.drop_last();
        lemma_without_key_entries(init, key);
        let rest = without_key(init, key);
        assert forall|i: int| 0 <= i < rest.len() implies #[trigger] entries.contains(rest[i]) by {
            assert(init.contains(rest[i]));
            let j = choose|j: int| 0 <= j < init.len() && init[j] == rest[i];
            assert(entries[j] == init[j]);
        }
        assert(entries.contains(entries.last())) by {
            assert(entries[entries.len() - 1] == entries.last());
        }
        if keys_unique(entries) {
            assert forall|i: int| 0 <= i < rest.len() implies rest[i].0 != entries.last().0 by {
                assert(init.contains(rest[i]));
                let j = choose|j: int| 0 <= j < init.len() && init[j] == rest[i];
                assert(entries[j] == init[j]);
            }
        }
    }
}

/// The variables assigned in a loop, each with the variables whose values
/// flow into it, listed in the order in which they are visited. No variable
/// has two entries. A hash set walks its items in an order fixed by their
/// hashes; the depth found can depend on that order (with `a` from `b` and
/// `c`, `b` from `c`, and `c` from `d`, visiting `b` first gives 3 and
/// visiting `c` first gives 2), so the order is part of the map here. No
/// entry lists a variable twice.
pub struct AssignmentMap {
    entries: Vec<(String, Vec<String>)>,
}

/// The characters of each string.
pub open spec fn string_views(strings: Seq<String>) -> Seq<Seq<char>> {
    strings.map_values(|s: String| s@)
}

pub open spec fn entry_view(entry: (String, Vec<String>)) -> (Seq<char>, Seq<Seq<char>>) {
    (entry.0@, string_views(entry.1@))
}

impl View for AssignmentMap {
    type V = AssignmentEntries;

    closed spec fn view(&self) -> AssignmentEntries {
        self.entries@.map_values(|e: (String, Vec<String>)| entry_view(e))
    }
}

fn copy_strings(strings: &Vec<String>) -> (r: Vec<String>)
    ensures
        string_views(r@) == string_views(strings@),
{
    let mut r: Vec<String> = Vec::new();
    let mut i: usize = 0;
    while i < strings.len()
        invariant
            i <= strings@.len(),
            r@ == strings@.take(i as int),
        decreases strings.len() - i,
    {
        r.push(strings[i].clone());
        i += 1;
        assert(r@ =~= strings@.take(i as int));
    }
    assert(strings@.take(strings@.len() as int) =~= strings@);
    r
}

impl AssignmentMap {
    #[verifier::type_invariant]
    spec fn has_unique_keys(self) -> bool {
        keys_unique(self@) && ids_unique(self@)
    }

    pub fn new() -> (r: Self)
        ensures
            r@ == Seq::<(Seq<char>, Seq<Seq<char>>)>::empty(),
            keys_unique(r@),
            ids_unique(r@),
    {
        let r = AssignmentMap { entries: Vec::new() };
        assert(r@ =~= Seq::<(Seq<char>, Seq<Seq<char>>)>::empty());
        r
    }

    pub fn contains_key(&self, key: &String) -> (r: bool)
        ensures
            r == entry_ids(self@, key@) is Some,
    {
        let mut i: usize = 0;
        while i < self.entries.len()
            invariant
                i <= self.entries@.len(),
                entry_ids(self@.take(i as int), key@) is None,
            decreases self.entries.len() - i,
        {
            assert(self@.take(i + 1).drop_last() =~= self@.take(i as int));
            if self.entries[i].0 == *key {
                proof {
                    lemma_entry_ids_prefix(self@, i + 1, key@);
                }
                return true;
            }
            i += 1;
        }
        assert(self@.take(self.entries@.len() as int) =~= self@);
        false
    }

    /// Removes the entries for `key`, handing back the variables flowing into
    /// it.
    pub fn remove(&mut self, key: &String) -> (r: Option<Vec<String>>)
        ensures
            final(self)@ == without_key(old(self)@, key@),
            keys_unique(final(self)@),
            ids_unique(final(self)@),
            match r {
                Option::Some(ids) => entry_ids(old(self)@, key@) == Option::Some(string_views(ids@)),
                Option::None => entry_ids(old(self)@, key@) is None,
            },
    {
        proof {
            use_type_invariant(&*self);
            lemma_without_key_entries(self@, key@);
        }
        let (kept, found) = entries_without(&self.entries, key);
        proof {
            let old_entries = self@;
            let rest = without_key(old_entries, key@);
            assert forall|i: int| 0 <= i < rest.len() implies (#[trigger] rest[i]).1.no_duplicates() by {
                assert(old_entries.contains(rest[i]));
                let j = choose|j: int| 0 <= j < old_entries.len() && old_entries[j] == rest[i];
                assert(old_entries[j].1.no_duplicates());
            }
        }
        self.entries = kept;
        found
    }

    /// Sets the variables flowing into `key`, replacing any entry for it.
    /// The variables form a set: none is listed twice.
    pub fn insert(&mut self, key: String, ids: Vec<String>)
        requires
            string_views(ids@).no_duplicates(),
        ensures
            final(self)@ == without_key(old(self)@, key@).push((key@, string_views(ids@))),
            keys_unique(final(self)@),
            ids_unique(final(self)@),
    {
        proof {
            use_type_invariant(&*self);
            lemma_without_key_entries(self@, key@);
        }
        let (mut kept, _) = entries_without(&self.entries, &key);
        let ghost before = kept@;
        let entry = (key, ids);
        kept.push(entry);
        let ghost rest = without_key(old(self)@, entry.0@);
        assert(kept@.map_values(|e: (String, Vec<String>)| entry_view(e)) =~= before.map_values(
            |e: (String, Vec<String>)| entry_view(e),
        ).push(entry_view(entry)));
        assert(keys_unique(rest.push(entry_view(entry)))) by {
            assert forall|i: int, j: int|
                0 <= i < j < rest.push(entry_view(entry)).len() implies rest.push(
                entry_view(entry),
            )[i].0 != rest.push(entry_view(entry))[j].0 by {
                if j == rest.len() {
                    assert(rest[i].0 != entry.0@);
                }
            }
        }
        assert(ids_unique(rest.push(entry_view(entry)))) by {
            let old_entries = old(self)@;
            assert forall|i: int| 0 <= i < rest.push(entry_view(entry)).len() implies (
            #[trigger] rest.push(entry_view(entry))[i]).1.no_duplicates() by {
                if i < rest.len() {
                    assert(old_entries.contains(rest[i]));
                    let j = choose|j: int| 0 <= j < old_entries.len() && old_entries[j] == rest[i];
                    assert(old_entries[j].1.no_duplicates());
                }
            }
        }
        self.entries = kept;
    }
}

/// The entries without those for `key`, and the variables of the first entry
/// for it.
fn entries_without(entries: &Vec<(String, Vec<String>)>, key: &String) -> (r: (
    Vec<(String, Vec<String>)>,
    Option<Vec<String>>,
))
    ensures
        r.0@.map_values(|e: (String, Vec<String>)| entry_view(e)) == without_key(
            entries@.map_values(|e: (String, Vec<String>)| entry_view(e)),
            key@,
        ),
        match r.1 {
            Option::Some(ids) => entry_ids(
                entries@.map_values(|e: (String, Vec<String>)| entry_view(e)),
                key@,
            ) == Option::Some(string_views(ids@)),
            Option::None => entry_ids(
                entries@.map_values(|e: (String, Vec<String>)| entry_view(e)),
                key@,
            ) is None,
        },
{
    let ghost all = entries@.map_values(|e: (String, Vec<String>)| entry_view(e));
    let mut kept: Vec<(String, Vec<String>)> = Vec::new();
    let mut found: Option<Vec<String>> = Option::None;
    let mut i: usize = 0;
    while i < entries.len()
        invariant
            i <= entries@.len(),
            all == entries@.map_values(|e: (String, Vec<String>)| entry_view(e)),
            kept@.map_values(|e: (String, Vec<String>)| entry_view(e)) == without_key(
                all.take(i as int),
                key@,
            ),
            match found {
                Option::Some(ids) => entry_ids(all.take(i as int), key@) == Option::Some(
                    string_views(ids@),
                ),
                Option::None => entry_ids(all.take(i as int), key@) is None,
            },
        decreases entries.len() - i,
    {
        assert(all.take(i + 1).drop_last() =~= all.take(i as int));
        assert(all.take(i + 1).last() == all[i as int]);
        let ghost before = kept@;
        if entries[i].0 == *key {
            if found.is_none() {
                found = Option::Some(copy_strings(&entries[i].1));
            }
        } else {
            let entry = (entries[i].0.clone(), copy_strings(&entries[i].1));
            kept.push(entry);
            assert(kept@.map_values(|e: (String, Vec<String>)| entry_view(e)) =~= before.map_values(
                |e: (String, Vec<String>)| entry_view(e),
            ).push(entry_view(entry)));
        }
        i += 1;
    }
    assert(all.take(entries@.len() as int) =~= all);
    (kept, found)
}

/// How many assignments deep the values flowing into `first_var_id` go; the
/// entries walked are removed from `assignment_map`.
pub fn get_assignment_map_depth(first_var_id: &String, assignment_map: &mut AssignmentMap) -> (r:
    usize)
    requires
        entry_ids(old(assignment_map)@, first_var_id@) is Some,
    ensures
        r as nat == assignment_depth(old(assignment_map)@, first_var_id@).0,
        final(assignment_map)@ == assignment_depth(old(assignment_map)@, first_var_id@).1,
    decreases old(assignment_map)@.len(),
{
    let ghost entries0 = assignment_map@;
    assert(entries0.len() == assignment_map.entries@.len());
    assert(assignment_map.entries@.len() == assignment_map.entries.len());
    let mut max_depth: usize = 0;

    let assignment_var_ids = assignment_map.remove(first_var_id).unwrap();
    let ghost ids = string_views(assignment_var_ids@);
    proof {
        lemma_without_key_len(entries0, first_var_id@);
        lemma_assignment_depth_over_bounds(ids, 0, assignment_map@, 0);
    }

    let mut i: usize = 0;
    while i < assignment_var_ids.len()
        invariant
            i <= assignment_var_ids@.len(),
            entries0 == old(assignment_map)@,
            entries0.len() <= usize::MAX,
            ids == string_views(assignment_var_ids@),
            assignment_map@.len() < entries0.len(),
            max_depth <= entries0.len(),
            assignment_depth(entries0, first_var_id@) == assignment_depth_over(
                ids,
                i as int,
                assignment_map@,
                max_depth as nat,
            ),
        decreases assignment_var_ids.len() - i,
    {
        let assignment_var_id = &assignment_var_ids[i];
        let mut depth: usize = 1;

        if assignment_map.contains_key(assignment_var_id) {
            let ghost before = assignment_map@;
            proof {
                lemma_assignment_depth_bounds(before, assignment_var_id@);
            }
            let inner: usize = get_assignment_map_depth(assignment_var_id, assignment_map);
            depth = inner + 1;
        }

        if depth > max_depth {
            max_depth = depth;
        }
        i += 1;
    }

    max_depth
}

proof fn lemma_within_trans(a: AssignmentEntries, b: AssignmentEntries, c: AssignmentEntries)
    requires
        entries_within(a, b),
        entries_within(b, c),
    ensures
        entries_within(a, c),
{
    assert forall|i: int| 0 <= i < a.len() implies #[trigger] c.contains(a[i]) by {
        assert(b.contains(a[i]));
        let j = choose|j: int| 0 <= j < b.len() && b[j] == a[i];
        assert(c.contains(b[j]));
    }
}

proof fn lemma_within_self(a: AssignmentEntries)
    ensures
        entries_within(a, a),
{
    assert forall|i: int| 0 <= i < a.len() implies #[trigger] a.contains(a[i]) by {
        assert(a[i] == a[i]);
    }
}

/// Walking the assignments into a variable only removes entries: every entry
/// left was an entry before, and the variable walked has none left.
pub proof fn lemma_walk_only_removes(entries: AssignmentEntries, key: Seq<char>)
    ensures
        entries_within(assignment_depth(entries, key).1, entries),
        entry_ids(entries, key) is Some ==> forall|i: int|
            0 <= i < assignment_depth(entries, key).1.len() ==> (#[trigger] assignment_depth(
                entries,
                key,
            ).1[i]).0 != key,
    decreases entries.len(), 1int, 0int,
{
    match entry_ids(entries, key) {
        Option::None => {
            lemma_within_self(entries);
        },
        Option::Some(ids) => {
            let start = without_key(entries, key);
            lemma_without_key_len(entries, key);
            lemma_without_key_entries(entries, key);
            lemma_walk_over_only_removes(ids, 0, start, 0);
            let left = assignment_depth(entries, key).1;
            lemma_within_trans(left, start, entries);
            assert forall|i: int| 0 <= i < left.len() implies (#[trigger] left[i]).0 != key by {
                assert(start.contains(left[i]));
                let j = choose|j: int| 0 <= j < start.len() && start[j] == left[i];
                assert(start[j].0 != key);
            }
        },
    }
}

proof fn lemma_walk_over_only_removes(
    ids: Seq<Seq<char>>,
    i: int,
    entries: AssignmentEntries,
    max_depth: nat,
)
    ensures
        entries_within(assignment_depth_over(ids, i, entries, max_depth).1, entries),
    decreases entries.len(), 2int, ids.len() - i,
{
    if 0 <= i < ids.len() {
        if entry_ids(entries, ids[i]) is Some {
            lemma_assignment_depth_bounds(entries, ids[i]);
            lemma_walk_only_removes(entries, ids[i]);
            let (inner, rest) = assignment_depth(entries, ids[i]);
            let depth = inner + 1;
            let next_max = if depth > max_depth {
                depth
            } else {
                max_depth
            };
            lemma_walk_over_only_removes(ids, i + 1, rest, next_max);
            lemma_within_trans(assignment_depth_over(ids, i + 1, rest, next_max).1, rest, entries);
        } else {
            let next_max = if 1 > max_depth {
                1
            } else {
                max_depth
            };
            lemma_walk_over_only_removes(ids, i + 1, entries, next_max);
        }
    } else {
        lemma_within_self(entries);
    }
}

} // verus!
