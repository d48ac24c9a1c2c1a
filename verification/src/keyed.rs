//! Sets and maps whose members are identified by an integer key.
use vstd::prelude::*;
use std::collections::{HashMap, HashSet};

verus! {

/// A value that is identified by an integer.
pub trait NodeKey: Copy + Sized {
    /// The integer that identifies this value.
    spec fn spec_key(self) -> u128;

    /// Two values with the same key are the same value.
    proof fn lemma_key_injective(a: Self, b: Self)
        requires
            a.spec_key() == b.spec_key(),
        ensures
            a == b,
    ;

    /// Computes the integer that identifies this value.
    fn key(&self) -> (key: u128)
        ensures
            key == self.spec_key(),
    ;

    /// Recovers a value from its key.
    fn from_key(key: u128) -> (value: Option<Self>)
        ensures
            match value {
                Some(v) => v.spec_key() == key,
                None => forall|v: Self| v.spec_key() != key,
            },
    ;
}

impl NodeKey for usize {
    open spec fn spec_key(self) -> u128 {
        self as u128
    }

    proof fn lemma_key_injective(a: Self, b: Self) {
    }

    fn key(&self) -> (key: u128) {
        *self as u128
    }

    fn from_key(key: u128) -> (value: Option<Self>) {
        if key <= usize::MAX as u128 {
            Some(key as usize)
        } else {
            None
        }
    }
}

/// A set of values, held by their keys.
#[derive(Debug)]
pub struct KeySet<N> {
    keys: HashSet<u128>,
    marker: std::marker::PhantomData<N>,
}

impl<N: NodeKey> View for KeySet<N> {
    type V = Set<N>;

    closed spec fn view(&self) -> Set<N> {
        Set::new(|n: N| self.keys@.contains(n.spec_key()))
    }
}

impl<N: NodeKey> KeySet<N> {
    /// The empty set.
    pub fn new() -> (set: Self)
        ensures
            set@ == Set::<N>::empty(),
    {
        let set = KeySet { keys: HashSet::new(), marker: std::marker::PhantomData };
        assert(set@ =~= Set::<N>::empty());
        set
    }

    /// Whether `n` is a member.
    pub fn contains(&self, n: &N) -> (found: bool)
        ensures
            found == self@.contains(*n),
    {
        self.keys.contains(&n.key())
    }

    /// Adds `n`.
    pub fn insert(&mut self, n: N)
        ensures
            final(self)@ == old(self)@.insert(n),
    {
        self.keys.insert(n.key());
        proof {
            assert forall|m: N| self@.contains(m) == old(self)@.insert(n).contains(m) by {
                if m.spec_key() == n.spec_key() {
                    N::lemma_key_injective(m, n);
                }
            }
            assert(self@ =~= old(self)@.insert(n));
        }
    }

    /// Takes `n` out.
    pub fn remove(&mut self, n: &N)
        ensures
            final(self)@ == old(self)@.remove(*n),
    {
        self.keys.remove(&n.key());
        proof {
            assert forall|m: N| self@.contains(m) == old(self)@.remove(*n).contains(m) by {
                if m.spec_key() == n.spec_key() {
                    N::lemma_key_injective(m, *n);
                }
            }
            assert(self@ =~= old(self)@.remove(*n));
        }
    }

    /// The members, each once, in no particular order.
    pub fn to_vec(&self) -> (items: Vec<N>)
        ensures
            items@.no_duplicates(),
            items@.to_set() == self@,
    {
        let list = members(&self.keys);
        let items = values_of(&list);
        proof {
            assert forall|n: N| items@.to_set().contains(n) <==> self@.contains(n) by {
                assert(list@.to_set().contains(n.spec_key()) <==> list@.contains(n.spec_key()));
                assert(items@.contains(n) <==> list@.contains(n.spec_key()));
            }
            assert(items@.to_set() =~= self@);
        }
        items
    }

    /// Adds every member of `other`.
    pub fn extend(&mut self, other: &KeySet<N>)
        ensures
            final(self)@ == old(self)@.union(other@),
    {
        let items = other.to_vec();
        for i in 0..items.len()
            invariant
                items@.to_set() == other@,
                self@ =~= old(self)@.union(items@.take(i as int).to_set()),
        {
            self.insert(items[i]);
            proof {
                lemma_take_to_set(items@, i as int);
            }
        }
        assert(items@.take(items@.len() as int) =~= items@);
    }

    /// Whether no value is in both sets.
    pub fn is_disjoint(&self, other: &KeySet<N>) -> (disjoint: bool)
        ensures
            disjoint == self@.disjoint(other@),
    {
        let items = self.to_vec();
        for i in 0..items.len()
            invariant
                items@.to_set() == self@,
                forall|j: int| 0 <= j < i ==> !other@.contains(#[trigger] items@[j]),
        {
            if other.contains(&items[i]) {
                assert(items@.to_set().contains(items@[i as int]));
                return false;
            }
        }
        assert forall|n: N| self@.contains(n) implies !other@.contains(n) by {
            assert(items@.to_set().contains(n));
        }
        true
    }

    /// The same set once more.
    pub fn duplicate(&self) -> (set: Self)
        ensures
            set@ == self@,
    {
        let mut set = KeySet::new();
        set.extend(self);
        assert(set@ =~= self@);
        set
    }
}

/// Taking one item more of a sequence adds that item to the set of those taken.
pub proof fn lemma_take_to_set<T>(s: Seq<T>, i: int)
    requires
        0 <= i < s.len(),
    ensures
        s.take(i + 1).to_set() == s.take(i).to_set().insert(s[i]),
{
    let shorter = s.take(i);
    let longer = s.take(i + 1);
    assert forall|x: T| longer.to_set().contains(x) implies shorter.to_set().insert(s[i]).contains(
        x,
    ) by {
        let j = choose|j: int| 0 <= j < longer.len() && longer[j] == x;
        if j < i {
            assert(shorter[j] == x);
        }
    }
    assert forall|x: T| shorter.to_set().insert(s[i]).contains(x) implies longer.to_set().contains(
        x,
    ) by {
        if x == s[i] {
            assert(longer[i] == x);
        } else {
            let j = choose|j: int| 0 <= j < shorter.len() && shorter[j] == x;
            assert(longer[j] == x);
        }
    }
    assert(longer.to_set() =~= shorter.to_set().insert(s[i]));
}

/// The members of a hash set, each once.
pub fn members(set: &HashSet<u128>) -> (items: Vec<u128>)
    ensures
        items@.no_duplicates(),
        items@.to_set() == set@,
{
    let mut items: Vec<u128> = Vec::new();
    for item in iter: set.iter()
        invariant
            items@.len() == iter.index(),
            forall|i: int| 0 <= i < items@.len() ==> items@[i] == *iter.seq()[i],
            iter.seq().no_duplicates(),
            iter.seq().unref().to_set() == set@,
            iter.index() == iter.seq().len() ==> items@ == iter.seq().unref(),
    {
        items.push(*item);
        assert(iter.index() + 1 == iter.seq().len() ==> items@ =~= iter.seq().unref());
    }
    items
}

/// The values whose keys are in `list`.
fn values_of<N: NodeKey>(list: &Vec<u128>) -> (items: Vec<N>)
    requires
        list@.no_duplicates(),
    ensures
        items@.no_duplicates(),
        forall|n: N| #[trigger] items@.contains(n) <==> list@.contains(n.spec_key()),
{
    let mut items: Vec<N> = Vec::new();
    for i in 0..list.len()
        invariant
            list@.no_duplicates(),
            items@.no_duplicates(),
            forall|n: N|
                #![trigger items@.contains(n)]
                #![trigger list@.take(i as int).contains(n.spec_key())]
                items@.contains(n) <==> list@.take(i as int).contains(n.spec_key()),
    {
        let ghost before = items@;
        let ghost seen = list@.take(i as int);
        let ghost more = list@.take(i + 1);
        proof {
            assert(more =~= seen.push(list@[i as int]));
            assert forall|k: u128| more.contains(k) <==> seen.contains(k) || k == list@[i as int] by {
                assert(more[i as int] == list@[i as int]);
                if seen.contains(k) {
                    let j = choose|j: int| 0 <= j < seen.len() && seen[j] == k;
                    assert(more[j] == k);
                }
            }
        }
        if let Some(n) = N::from_key(list[i]) {
            items.push(n);
            proof {
                assert(!seen.contains(list@[i as int]));
                assert(!before.contains(n));
                assert forall|m: N| items@.contains(m) <==> before.contains(m) || m == n by {
                    assert(items@[before.len() as int] == n);
                    if before.contains(m) {
                        let j = choose|j: int| 0 <= j < before.len() && before[j] == m;
                        assert(items@[j] == m);
                    }
                }
                assert forall|m: N| m.spec_key() == n.spec_key() implies m == n by {
                    N::lemma_key_injective(m, n);
                }
                assert forall|m: N| #[trigger]
                    items@.contains(m) <==> more.contains(m.spec_key()) by {
                    assert(before.contains(m) <==> seen.contains(m.spec_key()));
                }
            }
        } else {
            assert forall|m: N| #[trigger] items@.contains(m) <==> more.contains(m.spec_key()) by {
                assert(before.contains(m) <==> seen.contains(m.spec_key()));
            }
        }
    }
    assert(list@.take(list@.len() as int) =~= list@);
    items
}

/// What a map says of a key.
pub open spec fn lookup<K, V>(map: Map<K, V>, key: K) -> Option<V> {
    if map.contains_key(key) {
        Some(map[key])
    } else {
        None
    }
}

/// A map from values to `V`, held by the keys of the values.
#[derive(Debug)]
pub struct KeyMap<N, V> {
    entries: HashMap<u128, V>,
    marker: std::marker::PhantomData<N>,
}

impl<N: NodeKey, V> View for KeyMap<N, V> {
    type V = Map<N, V>;

    closed spec fn view(&self) -> Map<N, V> {
        Map::new(
            |n: N| self.entries@.contains_key(n.spec_key()),
            |n: N| self.entries@[n.spec_key()],
        )
    }
}

impl<N: NodeKey, V> KeyMap<N, V> {
    /// The empty map.
    pub fn new() -> (map: Self)
        ensures
            map@ == Map::<N, V>::empty(),
    {
        let map = KeyMap { entries: HashMap::new(), marker: std::marker::PhantomData };
        assert(map@ =~= Map::<N, V>::empty());
        map
    }

    /// Whether `n` has an entry.
    pub fn contains_key(&self, n: &N) -> (found: bool)
        ensures
            found == self@.contains_key(*n),
    {
        self.entries.contains_key(&n.key())
    }

    /// The entry of `n`.
    pub fn get(&self, n: &N) -> (value: Option<&V>)
        ensures
            match value {
                Some(v) => self@.contains_key(*n) && *v == self@[*n],
                None => !self@.contains_key(*n),
            },
    {
        self.entries.get(&n.key())
    }

    /// Sets the entry of `n`.
    pub fn insert(&mut self, n: N, value: V)
        ensures
            final(self)@ == old(self)@.insert(n, value),
    {
        self.entries.insert(n.key(), value);
        proof {
            assert forall|m: N| m.spec_key() == n.spec_key() implies m == n by {
                N::lemma_key_injective(m, n);
            }
            assert(self@ =~= old(self)@.insert(n, value));
        }
    }

    /// All values that have an entry, each once, in no particular order.
    pub fn keys(&self) -> (keys: Vec<N>)
        ensures
            keys@.no_duplicates(),
            forall|n: N| #[trigger] keys@.contains(n) <==> self@.contains_key(n),
    {
        let mut list: Vec<u128> = Vec::new();
        for key in iter: self.entries.keys()
            invariant
                list@.len() == iter.index(),
                forall|i: int| 0 <= i < list@.len() ==> list@[i] == *iter.seq()[i],
                iter.seq().no_duplicates(),
                iter.seq().unref().to_set() == self.entries@.dom(),
                iter.index() == iter.seq().len() ==> list@ == iter.seq().unref(),
        {
            list.push(*key);
            assert(iter.index() + 1 == iter.seq().len() ==> list@ =~= iter.seq().unref());
        }
        proof {
            assert forall|n: N| list@.contains(n.spec_key()) <==> self@.contains_key(n) by {
                assert(list@.to_set().contains(n.spec_key()) <==> list@.contains(n.spec_key()));
            }
        }
        values_of(&list)
    }

    /// Takes the entry of `n` out.
    pub fn remove(&mut self, n: &N) -> (value: Option<V>)
        ensures
            final(self)@ == old(self)@.remove(*n),
            match value {
                Some(v) => old(self)@.contains_key(*n) && v == old(self)@[*n],
                None => !old(self)@.contains_key(*n),
            },
    {
        let value = self.entries.remove(&n.key());
        proof {
            assert forall|m: N| m.spec_key() == n.spec_key() implies m == n by {
                N::lemma_key_injective(m, *n);
            }
            assert(self@ =~= old(self)@.remove(*n));
        }
        value
    }
}

} // verus!
