//! A map from names to values that lists its names in order.

use vstd::prelude::*;
use vstd::string::*;

use crate::text;
use crate::text::{lemma_sorts_before_total, lemma_sorts_before_transitive, sorts_before};

verus! {

/// The names of a list of entries.
pub open spec fn entry_names<V>(entries: Seq<(String, V)>) -> Seq<Seq<char>> {
    Seq::new(entries.len(), |i: int| entries[i].0@)
}

/// Whether each name sorts before all that follow it.
pub open spec fn in_order(names: Seq<Seq<char>>) -> bool {
    forall|i: int, j: int|
        0 <= i < j < names.len() ==> sorts_before(#[trigger] names[i], #[trigger] names[j])
}

/// What a list of entries says about each name.
pub open spec fn entry_map<V>(entries: Seq<(String, V)>) -> Map<Seq<char>, V> {
    Map::new(
        |name: Seq<char>| entry_names(entries).contains(name),
        |name: Seq<char>| entries[entry_names(entries).index_of(name)].1,
    )
}

proof fn lemma_in_order_distinct(names: Seq<Seq<char>>, i: int, j: int)
    requires
        in_order(names),
        0 <= i < names.len(),
        0 <= j < names.len(),
        names[i] == names[j],
    ensures
        i == j,
{
    lemma_sorts_before_total(names[i], names[j]);
}

proof fn lemma_entry<V>(entries: Seq<(String, V)>, i: int)
    requires
        in_order(entry_names(entries)),
        0 <= i < entries.len(),
    ensures
        entry_map(entries).contains_key(entries[i].0@),
        entry_map(entries)[entries[i].0@] == entries[i].1,
{
    let names = entry_names(entries);
    assert(names[i] == entries[i].0@);
    assert(names.contains(names[i]));
    lemma_in_order_distinct(names, i, names.index_of(names[i]));
}

proof fn lemma_entry_len<V>(entries: Seq<(String, V)>)
    requires
        in_order(entry_names(entries)),
    ensures
        entry_map(entries).dom().finite(),
        entry_map(entries).len() == entries.len(),
{
    let names = entry_names(entries);
    assert(names.no_duplicates()) by {
        assert forall|i: int, j: int| 0 <= i < names.len() && 0 <= j < names.len() && i != j implies names[i]
            != names[j] by {
            if names[i] == names[j] {
                lemma_in_order_distinct(names, i, j);
            }
        }
    }
    names.unique_seq_to_set();
    assert(entry_map(entries).dom() =~= names.to_set());
}

/// A map from names to values. A name is held at most once, and listing gives
/// the names in order.
#[derive(Debug, PartialEq, Eq)]
pub struct NameMap<V> {
    entries: Vec<(String, V)>,
}

impl<V> View for NameMap<V> {
    type V = Map<Seq<char>, V>;

    closed spec fn view(&self) -> Map<Seq<char>, V> {
        entry_map(self.entries@)
    }
}

impl<V> Default for NameMap<V> {
    /// No names at all.
    fn default() -> (map: Self)
        ensures
            map@ == Map::<Seq<char>, V>::empty(),
            map.names() == Seq::<Seq<char>>::empty(),
    {
        NameMap::new()
    }
}

impl<V: Clone> Clone for NameMap<V> {
    /// The same names, each with a clone of its value.
    fn clone(&self) -> (map: Self)
        ensures
            map.names() == self.names(),
            map@.dom() == self@.dom(),
            forall|name: Seq<char>| #[trigger]
                map@.contains_key(name) ==> vstd::pervasive::cloned(self@[name], map@[name]),
    {
        proof {
            use_type_invariant(self);
        }
        let mut entries: Vec<(String, V)> = Vec::new();
        let mut i: usize = 0;
        while i < self.entries.len()
            invariant
                i == entries@.len(),
                i <= self.entries@.len(),
                forall|j: int| 0 <= j < i ==> (#[trigger] entries@[j]).0@ == self.entries@[j].0@,
                forall|j: int|
                    0 <= j < i ==> vstd::pervasive::cloned(
                        self.entries@[j].1,
                        (#[trigger] entries@[j]).1,
                    ),
            decreases self.entries@.len() - i,
        {
            entries.push((self.entries[i].0.clone(), self.entries[i].1.clone()));
            i = i + 1;
        }
        let ghost copied = entries@;
        proof {
            assert(entry_names(copied) =~= entry_names(self.entries@));
            assert(entry_map(copied).dom() =~= entry_map(self.entries@).dom());
            assert forall|name: Seq<char>| #[trigger]
                entry_map(copied).contains_key(name) implies vstd::pervasive::cloned(
                entry_map(self.entries@)[name],
                entry_map(copied)[name],
            ) by {
                let at = entry_names(copied).index_of(name);
                assert(copied[at].0@ == self.entries@[at].0@);
            }
        }
        NameMap { entries }
    }
}

impl<V> NameMap<V> {
    #[verifier::type_invariant]
    spec fn wf(&self) -> bool {
        in_order(entry_names(self.entries@))
    }

    /// The names, in order.
    pub closed spec fn names(&self) -> Seq<Seq<char>> {
        entry_names(self.entries@)
    }

    /// No names at all.
    pub fn new() -> (map: Self)
        ensures
            map@ == Map::<Seq<char>, V>::empty(),
            map.names() == Seq::<Seq<char>>::empty(),
    {
        let map = NameMap { entries: Vec::new() };
        assert(map@ =~= Map::<Seq<char>, V>::empty());
        assert(map.names() =~= Seq::<Seq<char>>::empty());
        map
    }

    /// How many names are held.
    #[must_use]
    pub fn len(&self) -> (count: usize)
        ensures
            count == self@.len(),
            count == self.names().len(),
            self@.dom().finite(),
            in_order(self.names()),
            self@.dom() == self.names().to_set(),
    {
        proof {
            use_type_invariant(self);
            lemma_entry_len(self.entries@);
            assert(self@.dom() =~= self.names().to_set());
        }
        self.entries.len()
    }

    /// Whether no name is held.
    #[must_use]
    pub fn is_empty(&self) -> (answer: bool)
        ensures
            answer == (self@ == Map::<Seq<char>, V>::empty()),
    {
        if self.entries.len() == 0 {
            assert(self@ =~= Map::<Seq<char>, V>::empty());
            true
        } else {
            proof {
                use_type_invariant(self);
                lemma_entry(self.entries@, 0);
            }
            false
        }
    }

    /// One name, by its place in the order.
    #[must_use]
    pub fn name_at(&self, index: usize) -> (name: &str)
        requires
            index < self.names().len(),
        ensures
            name@ == self.names()[index as int],
            self@.contains_key(name@),
    {
        proof {
            use_type_invariant(self);
            lemma_entry(self.entries@, index as int);
        }
        self.entries[index].0.as_str()
    }

    /// One value, by the place of its name in the order.
    #[must_use]
    pub fn value_at(&self, index: usize) -> (value: &V)
        requires
            index < self.names().len(),
        ensures
            self@.contains_key(self.names()[index as int]),
            *value == self@[self.names()[index as int]],
    {
        proof {
            use_type_invariant(self);
            lemma_entry(self.entries@, index as int);
        }
        &self.entries[index].1
    }

    /// The first place whose name does not sort before this one.
    fn place_of(&self, name: &str) -> (place: usize)
        ensures
            place <= self.entries@.len(),
            forall|i: int|
                0 <= i < place ==> sorts_before(#[trigger] entry_names(self.entries@)[i], name@),
            forall|i: int|
                place <= i < self.entries@.len() ==> !sorts_before(
                    #[trigger] entry_names(self.entries@)[i],
                    name@,
                ),
    {
        let mut place: usize = 0;
        let ghost names = entry_names(self.entries@);
        proof {
            use_type_invariant(self);
        }
        while place < self.entries.len() && text::precedes(self.entries[place].0.as_str(), name)
            invariant
                place <= self.entries@.len(),
                names == entry_names(self.entries@),
                forall|i: int| 0 <= i < place ==> sorts_before(#[trigger] names[i], name@),
            decreases self.entries@.len() - place,
        {
            assert(names[place as int] == self.entries@[place as int].0@);
            place = place + 1;
        }
        assert forall|i: int| place <= i < names.len() implies !sorts_before(
            #[trigger] names[i],
            name@,
        ) by {
            assert(names[place as int] == self.entries@[place as int].0@);
            if i > place && sorts_before(names[i], name@) {
                lemma_sorts_before_transitive(names[place as int], names[i], name@);
            }
        }
        place
    }

    /// What is held under a name.
    #[must_use]
    pub fn get(&self, name: &str) -> (value: Option<&V>)
        ensures
            match value {
                Some(value) => self@.contains_key(name@) && *value == self@[name@],
                None => !self@.contains_key(name@),
            },
    {
        let place = self.place_of(name);
        let ghost names = entry_names(self.entries@);
        proof {
            use_type_invariant(self);
            lemma_sorts_before_total(name@, name@);
        }
        if place < self.entries.len() && text::same(self.entries[place].0.as_str(), name) {
            proof {
                lemma_entry(self.entries@, place as int);
            }
            return Some(&self.entries[place].1);
        }
        proof {
            if names.contains(name@) {
                let i = names.index_of(name@);
                assert(names[i] == name@);
                assert(names[place as int] == self.entries@[place as int].0@);
                lemma_sorts_before_total(names[place as int], name@);
                lemma_sorts_before_total(name@, names[place as int]);
            }
        }
        None
    }

    /// Hold a value under a name, in place of what was held there.
    pub fn insert(&mut self, name: String, value: V)
        ensures
            final(self)@ == old(self)@.insert(name@, value),
    {
        proof {
            use_type_invariant(&*self);
        }
        let place = self.place_of(name.as_str());
        let ghost before = self.entries@;
        let ghost names = entry_names(before);
        let mut entries: Vec<(String, V)> = Vec::new();
        core::mem::swap(&mut entries, &mut self.entries);
        if place < entries.len() && text::same(entries[place].0.as_str(), name.as_str()) {
            let ghost key = name@;
            entries.set(place, (name, value));
            let ghost after = entries@;
            proof {
                assert(names[place as int] == before[place as int].0@);
                assert(entry_names(after) =~= names);
                assert(entry_map(after) =~= entry_map(before).insert(key, value)) by {
                    assert forall|k: Seq<char>| entry_map(after).contains_key(k) implies
                        #[trigger] entry_map(after)[k] == entry_map(before).insert(key, value)[k] by {
                        let i = names.index_of(k);
                        lemma_entry(after, i);
                        lemma_entry(before, i);
                        if k == key {
                            lemma_in_order_distinct(names, i, place as int);
                        }
                    }
                }
            }
        } else {
            let ghost key = name@;
            entries.insert(place, (name, value));
            let ghost after = entries@;
            proof {
                lemma_insert(before, place as int, key, value, after);
            }
        }
        self.entries = entries;
    }

    /// Take out what is held under a name.
    pub fn remove(&mut self, name: &str) -> (value: Option<V>)
        ensures
            final(self)@ == old(self)@.remove(name@),
            match value {
                Some(value) => old(self)@.contains_key(name@) && value == old(self)@[name@],
                None => !old(self)@.contains_key(name@),
            },
    {
        proof {
            use_type_invariant(&*self);
        }
        let place = self.place_of(name);
        let ghost before = self.entries@;
        let ghost names = entry_names(before);
        let mut entries: Vec<(String, V)> = Vec::new();
        core::mem::swap(&mut entries, &mut self.entries);
        let mut taken: Option<V> = None;
        if place < entries.len() && text::same(entries[place].0.as_str(), name) {
            let entry = entries.remove(place);
            taken = Some(entry.1);
            let ghost after = entries@;
            proof {
                lemma_entry(before, place as int);
                lemma_remove(before, place as int, after);
            }
        } else {
            proof {
                if names.contains(name@) {
                    let i = names.index_of(name@);
                    assert(names[i] == name@);
                    lemma_sorts_before_total(name@, name@);
                    assert(names[place as int] == before[place as int].0@);
                    lemma_sorts_before_total(names[place as int], name@);
                    lemma_sorts_before_total(name@, names[place as int]);
                }
                assert(entry_map(before).remove(name@) =~= entry_map(before));
            }
        }
        self.entries = entries;
        taken
    }
}

proof fn lemma_insert<V>(
    before: Seq<(String, V)>,
    place: int,
    name: Seq<char>,
    value: V,
    after: Seq<(String, V)>,
)
    requires
        in_order(entry_names(before)),
        0 <= place <= before.len(),
        after.len() == before.len() + 1,
        after[place].0@ == name,
        after[place].1 == value,
        forall|i: int| 0 <= i < place ==> after[i] == before[i],
        forall|i: int| place <= i < before.len() ==> after[i + 1] == before[i],
        forall|i: int| 0 <= i < place ==> sorts_before(#[trigger] entry_names(before)[i], name),
        forall|i: int|
            place <= i < before.len() ==> !sorts_before(#[trigger] entry_names(before)[i], name),
        place < before.len() ==> before[place].0@ != name,
    ensures
        in_order(entry_names(after)),
        entry_map(after) == entry_map(before).insert(name, value),
{
    let old_names = entry_names(before);
    let names = entry_names(after);
    assert forall|i: int| place <= i < before.len() implies sorts_before(
        name,
        #[trigger] old_names[i],
    ) by {
        lemma_sorts_before_total(old_names[place], name);
        if i > place {
            lemma_sorts_before_transitive(name, old_names[place], old_names[i]);
        }
    }
    assert forall|i: int, j: int| 0 <= i < j < names.len() implies sorts_before(
        #[trigger] names[i],
        #[trigger] names[j],
    ) by {
        if i < place {
            assert(names[i] == old_names[i]);
        } else if i > place {
            assert(names[i] == old_names[i - 1]);
        }
        if j < place {
            assert(names[j] == old_names[j]);
        } else if j > place {
            assert(names[j] == old_names[j - 1]);
        }
    }
    let wanted = entry_map(before).insert(name, value);
    assert forall|k: Seq<char>| #[trigger] wanted.contains_key(k) implies entry_map(
        after,
    ).contains_key(k) && entry_map(after)[k] == wanted[k] by {
        if k == name {
            lemma_entry(after, place);
        } else {
            let i = old_names.index_of(k);
            lemma_entry(before, i);
            if i < place {
                lemma_entry(after, i);
            } else {
                lemma_entry(after, i + 1);
            }
        }
    }
    assert forall|k: Seq<char>| #[trigger]
        entry_map(after).contains_key(k) implies wanted.contains_key(k) by {
        let i = names.index_of(k);
        if i < place {
            lemma_entry(before, i);
        } else if i > place {
            lemma_entry(before, i - 1);
        }
    }
    assert(entry_map(after) =~= wanted);
}

proof fn lemma_remove<V>(before: Seq<(String, V)>, place: int, after: Seq<(String, V)>)
    requires
        in_order(entry_names(before)),
        0 <= place < before.len(),
        after == before.remove(place),
    ensures
        in_order(entry_names(after)),
        entry_map(after) == entry_map(before).remove(before[place].0@),
{
    let old_names = entry_names(before);
    let names = entry_names(after);
    let name = before[place].0@;
    assert forall|i: int, j: int| 0 <= i < j < names.len() implies sorts_before(
        #[trigger] names[i],
        #[trigger] names[j],
    ) by {
        assert(names[i] == old_names[if i < place { i } else { i + 1 }]);
        assert(names[j] == old_names[if j < place { j } else { j + 1 }]);
    }
    let wanted = entry_map(before).remove(name);
    assert forall|k: Seq<char>| #[trigger] wanted.contains_key(k) implies entry_map(
        after,
    ).contains_key(k) && entry_map(after)[k] == wanted[k] by {
        let i = old_names.index_of(k);
        assert(old_names[i] == k);
        lemma_entry(before, i);
        assert(i != place);
        if i < place {
            assert(after[i] == before[i]);
            lemma_entry(after, i);
        } else {
            assert(after[i - 1] == before[i]);
            lemma_entry(after, i - 1);
        }
    }
    assert forall|k: Seq<char>| #[trigger]
        entry_map(after).contains_key(k) implies wanted.contains_key(k) by {
        let i = names.index_of(k);
        assert(names[i] == k);
        let j = if i < place {
            i
        } else {
            i + 1
        };
        assert(after[i] == before[j]);
        lemma_entry(before, j);
        assert(old_names[j] == k);
        if k == name {
            assert(old_names[place] == name);
            lemma_in_order_distinct(old_names, j, place);
        }
    }
    assert(entry_map(after) =~= wanted);
}

} // verus!
