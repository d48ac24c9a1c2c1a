//! Maps whose keys are names.
use crate::order::same_text;
use vstd::prelude::*;

verus! {

/// A map from names to values, in the order in which the names came.
#[derive(Debug)]
pub struct NameMap<V> {
    entries: Vec<(String, V)>,
}

/// Whether there is an entry for a name.
pub open spec fn has_name<V>(entries: Seq<(String, V)>, name: Seq<char>) -> bool {
    exists|i: int| 0 <= i < entries.len() && (#[trigger] entries[i]).0@ == name
}

/// The position of the entry for a name.
pub open spec fn place_of<V>(entries: Seq<(String, V)>, name: Seq<char>) -> int {
    choose|i: int| 0 <= i < entries.len() && (#[trigger] entries[i]).0@ == name
}

/// No name has two entries.
pub open spec fn names_differ<V>(entries: Seq<(String, V)>) -> bool {
    forall|i: int, j: int|
        0 <= i < j < entries.len() ==> (#[trigger] entries[i]).0@ != (#[trigger] entries[j]).0@
}

/// The map that entries stand for.
pub open spec fn entry_map<V>(entries: Seq<(String, V)>) -> Map<Seq<char>, V> {
    Map::new(
        |name: Seq<char>| has_name(entries, name),
        |name: Seq<char>| entries[place_of(entries, name)].1,
    )
}

/// The entry at a position is the one for its name.
pub proof fn lemma_entry<V>(entries: Seq<(String, V)>, i: int)
    requires
        names_differ(entries),
        0 <= i < entries.len(),
    ensures
        entry_map(entries).contains_key(entries[i].0@),
        entry_map(entries)[entries[i].0@] == entries[i].1,
{
    let name = entries[i].0@;
    let k = place_of(entries, name);
    assert(0 <= k < entries.len() && entries[k].0@ == name);
    if k < i {
        assert(entries[k].0@ != entries[i].0@);
    } else if i < k {
        assert(entries[i].0@ != entries[k].0@);
    }
}

/// Entries that agree with a map at each name stand for it.
proof fn lemma_entries_are<V>(entries: Seq<(String, V)>, map: Map<Seq<char>, V>)
    requires
        names_differ(entries),
        forall|i: int|
            0 <= i < entries.len() ==> map.contains_key((#[trigger] entries[i]).0@),
        forall|i: int|
            0 <= i < entries.len() ==> map[(#[trigger] entries[i]).0@] == entries[i].1,
        forall|name: Seq<char>| #[trigger] map.contains_key(name) ==> has_name(entries, name),
    ensures
        entry_map(entries) == map,
{
    let found = entry_map(entries);
    assert forall|name: Seq<char>| #[trigger] found.dom().contains(name) == map.dom().contains(
        name,
    ) by {
        if has_name(entries, name) {
            assert(map.contains_key(entries[place_of(entries, name)].0@));
        }
        if map.dom().contains(name) {
            assert(map.contains_key(name));
        }
    }
    assert(found.dom() =~= map.dom());
    assert forall|name: Seq<char>| #[trigger] map.dom().contains(name) implies found[name]
        == map[name] by {
        assert(map.contains_key(name));
        assert(map[entries[place_of(entries, name)].0@] == entries[place_of(entries, name)].1);
    }
    assert(found =~= map);
}

impl<V> NameMap<V> {
    /// No name has two entries.
    pub closed spec fn wf(&self) -> bool {
        names_differ(self.entries@)
    }
}

impl<V> View for NameMap<V> {
    type V = Map<Seq<char>, V>;

    closed spec fn view(&self) -> Map<Seq<char>, V> {
        entry_map(self.entries@)
    }
}

impl<V> NameMap<V> {
    /// The empty map.
    pub fn new() -> (map: Self)
        ensures
            map.wf(),
            map@ == Map::<Seq<char>, V>::empty(),
    {
        let map = NameMap { entries: Vec::new() };
        assert(map@ =~= Map::<Seq<char>, V>::empty());
        map
    }

    /// Finds the entry for a name.
    fn find(&self, name: &str) -> (found: Option<usize>)
        requires
            self.wf(),
        ensures
            match found {
                Some(i) => i < self.entries@.len() && self.entries@[i as int].0@ == name@,
                None => !has_name(self.entries@, name@),
            },
    {
        for i in 0..self.entries.len()
            invariant
                forall|j: int| 0 <= j < i ==> (#[trigger] self.entries@[j]).0@ != name@,
        {
            if same_text(self.entries[i].0.as_str(), name) {
                return Some(i);
            }
        }
        None
    }

    /// The value of a name.
    pub fn get(&self, name: &str) -> (value: Option<&V>)
        requires
            self.wf(),
        ensures
            match value {
                Some(v) => self@.contains_key(name@) && *v == self@[name@],
                None => !self@.contains_key(name@),
            },
    {
        match self.find(name) {
            Some(i) => {
                proof {
                    lemma_entry(self.entries@, i as int);
                }
                Some(&self.entries[i].1)
            },
            None => None,
        }
    }

    /// Takes the value of a name out.
    pub fn remove(&mut self, name: &str) -> (value: Option<V>)
        requires
            old(self).wf(),
        ensures
            final(self).wf(),
            final(self)@ == old(self)@.remove(name@),
            match value {
                Some(v) => old(self)@.contains_key(name@) && v == old(self)@[name@],
                None => !old(self)@.contains_key(name@),
            },
    {
        let ghost before = self.entries@;
        match self.find(name) {
            Some(at) => {
                let (_, value) = self.entries.remove(at);
                proof {
                    let after = self.entries@;
                    let map = entry_map(before).remove(name@);
                    lemma_entry(before, at as int);
                    assert forall|i: int, j: int| 0 <= i < j < after.len() implies (
                    #[trigger] after[i]).0@ != (#[trigger] after[j]).0@ by {
                        let i0 = if i < at {
                            i
                        } else {
                            i + 1
                        };
                        let j0 = if j < at {
                            j
                        } else {
                            j + 1
                        };
                        assert(before[i0].0@ != before[j0].0@);
                    }
                    assert forall|i: int| 0 <= i < after.len() implies map.contains_key(
                        (#[trigger] after[i]).0@,
                    ) by {
                        let i0 = if i < at {
                            i
                        } else {
                            i + 1
                        };
                        lemma_entry(before, i0);
                        if i0 < at {
                            assert(before[i0].0@ != before[at as int].0@);
                        } else {
                            assert(before[at as int].0@ != before[i0].0@);
                        }
                    }
                    assert forall|i: int| 0 <= i < after.len() implies map[(
                    #[trigger] after[i]).0@] == after[i].1 by {
                        let i0 = if i < at {
                            i
                        } else {
                            i + 1
                        };
                        lemma_entry(before, i0);
                        if i0 < at {
                            assert(before[i0].0@ != before[at as int].0@);
                        } else {
                            assert(before[at as int].0@ != before[i0].0@);
                        }
                    }
                    assert forall|n: Seq<char>| #[trigger] map.contains_key(n) implies has_name(
                        after,
                        n,
                    ) by {
                        assert(has_name(before, n));
                        let i = place_of(before, n);
                        assert(i != at);
                        if i < at {
                            assert(after[i].0@ == n);
                        } else {
                            assert(after[i - 1].0@ == n);
                        }
                    }
                    lemma_entries_are(after, map);
                }
                Some(value)
            },
            None => {
                assert(self@.remove(name@) =~= self@);
                None
            },
        }
    }

    /// Sets the value of a name.
    pub fn insert(&mut self, name: &str, value: V)
        requires
            old(self).wf(),
        ensures
            final(self).wf(),
            final(self)@ == old(self)@.insert(name@, value),
    {
        let ghost before = self.entries@;
        let ghost map = entry_map(before).insert(name@, value);
        match self.find(name) {
            Some(at) => {
                self.entries[at].1 = value;
                proof {
                    let after = self.entries@;
                    assert forall|i: int, j: int| 0 <= i < j < after.len() implies (
                    #[trigger] after[i]).0@ != (#[trigger] after[j]).0@ by {
                        assert(before[i].0@ != before[j].0@);
                    }
                    assert forall|i: int| 0 <= i < after.len() implies map.contains_key(
                        (#[trigger] after[i]).0@,
                    ) by {
                        lemma_entry(before, i);
                    }
                    assert forall|i: int| 0 <= i < after.len() implies map[(
                    #[trigger] after[i]).0@] == after[i].1 by {
                        lemma_entry(before, i);
                        if i < at {
                            assert(before[i].0@ != before[at as int].0@);
                        } else if at < i {
                            assert(before[at as int].0@ != before[i].0@);
                        }
                    }
                    assert forall|n: Seq<char>| #[trigger] map.contains_key(n) implies has_name(
                        after,
                        n,
                    ) by {
                        if n == name@ {
                            assert(after[at as int].0@ == n);
                        } else {
                            assert(has_name(before, n));
                            assert(after[place_of(before, n)].0@ == n);
                        }
                    }
                    lemma_entries_are(after, map);
                }
            },
            None => {
                self.entries.push((name.to_owned(), value));
                proof {
                    let after = self.entries@;
                    let last = before.len() as int;
                    assert forall|i: int, j: int| 0 <= i < j < after.len() implies (
                    #[trigger] after[i]).0@ != (#[trigger] after[j]).0@ by {
                        assert(before[i] == after[i]);
                        if j < last {
                            assert(before[i].0@ != before[j].0@);
                        }
                    }
                    assert forall|i: int| 0 <= i < after.len() implies map.contains_key(
                        (#[trigger] after[i]).0@,
                    ) by {
                        if i < last {
                            lemma_entry(before, i);
                            assert(before[i] == after[i]);
                        }
                    }
                    assert forall|i: int| 0 <= i < after.len() implies map[(
                    #[trigger] after[i]).0@] == after[i].1 by {
                        if i < last {
                            lemma_entry(before, i);
                            assert(before[i] == after[i]);
                        }
                    }
                    assert forall|n: Seq<char>| #[trigger] map.contains_key(n) implies has_name(
                        after,
                        n,
                    ) by {
                        if n == name@ {
                            assert(after[last].0@ == n);
                        } else {
                            assert(has_name(before, n));
                            assert(after[place_of(before, n)].0@ == n);
                        }
                    }
                    lemma_entries_are(after, map);
                }
            },
        }
    }

    /// All names with their values.
    pub fn entries(&self) -> (entries: &Vec<(String, V)>)
        requires
            self.wf(),
        ensures
            names_differ(entries@),
            entry_map(entries@) == self@,
    {
        &self.entries
    }
}

} // verus!
