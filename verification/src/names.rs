//! Sets of names, kept in order.
use crate::order::{
    increasing, lemma_increasing_unique, lemma_names_total, lex, lex_at, names_less, place_name,
    placed, strict_total, Place,
};
use vstd::prelude::*;

verus! {

/// The names that strings hold.
pub open spec fn texts(strings: Seq<String>) -> Seq<Seq<char>> {
    Seq::new(strings.len(), |i: int| strings[i]@)
}

/// A set of names.
#[derive(Debug, PartialEq, Eq, PartialOrd, Ord, Hash, Clone)]
pub struct NameSet {
    names: Vec<String>,
}

impl View for NameSet {
    type V = Seq<Seq<char>>;

    /// The names in order.
    closed spec fn view(&self) -> Seq<Seq<char>> {
        texts(self.names@)
    }
}

impl NameSet {
    /// The names are in order, and none occurs twice.
    pub open spec fn wf(&self) -> bool {
        increasing(names_less(), self@)
    }

    /// The empty set.
    pub fn new() -> (set: Self)
        ensures
            set.wf(),
            set@ == Seq::<Seq<char>>::empty(),
    {
        let set = NameSet { names: Vec::new() };
        assert(set@ =~= Seq::<Seq<char>>::empty());
        set
    }

    /// The names in order.
    pub fn names(&self) -> (names: &Vec<String>)
        ensures
            texts(names@) == self@,
    {
        &self.names
    }

    /// Adds a name.
    pub fn insert(&mut self, name: &str)
        requires
            old(self).wf(),
        ensures
            final(self).wf(),
            final(self)@.to_set() == old(self)@.to_set().insert(name@),
            final(self)@.len() >= old(self)@.len(),
            final(self)@.len() >= 1,
    {
        proof {
            lemma_names_total();
        }
        let ghost less = names_less();
        let ghost start = self@;
        let mut at: usize = 0;
        while at < self.names.len()
            invariant
                self@ == start,
                increasing(less, start),
                less == names_less(),
                strict_total(less),
                at <= self.names@.len(),
                start == old(self)@,
                forall|i: int| 0 <= i < at ==> less(#[trigger] start[i], name@),
            ensures
                at <= self.names@.len(),
                self@ == start,
                start == old(self)@,
                forall|i: int| 0 <= i < at ==> less(#[trigger] start[i], name@),
                at < self.names@.len() ==> less(name@, start[at as int]),
            decreases self.names@.len() - at,
        {
            match place_name(self.names[at].as_str(), name) {
                Place::Before => {
                    assert(less(start[at as int], name@));
                    at += 1;
                },
                Place::Same => {
                    proof {
                        assert(start[at as int] == name@);
                        assert(start.contains(name@));
                        assert(start.to_set().insert(name@) =~= start.to_set());
                    }
                    return;
                },
                Place::After => {
                    assert(less(name@, start[at as int]));
                    break;
                },
            }
        }
        self.names.insert(at, name.to_owned());
        proof {
            let end = self@;
            assert(end =~= start.insert(at as int, name@));
            assert forall|i: int, j: int| 0 <= i < j < end.len() implies less(
                #[trigger] end[i],
                #[trigger] end[j],
            ) by {
                if i < at && j == at {
                    assert(less(start[i], name@));
                } else if i == at {
                    assert(end[j] == start[j - 1]);
                    if j - 1 > at {
                        assert(less(start[at as int], start[j - 1]));
                        assert(less(name@, start[at as int]));
                    }
                } else if i < at && j > at {
                    assert(less(start[i], start[j - 1]));
                } else if i < at {
                    assert(less(start[i], start[j]));
                } else {
                    assert(less(start[i - 1], start[j - 1]));
                }
            }
            assert forall|x: Seq<char>| #[trigger] end.to_set().contains(x) <==> start.to_set().insert(
                name@,
            ).contains(x) by {
                if end.contains(x) {
                    let k = choose|k: int| 0 <= k < end.len() && end[k] == x;
                    if k < at {
                        assert(start[k] == x);
                    } else if k > at {
                        assert(start[k - 1] == x);
                    }
                }
                if start.contains(x) {
                    let k = choose|k: int| 0 <= k < start.len() && start[k] == x;
                    if k < at {
                        assert(end[k] == x);
                    } else {
                        assert(end[k + 1] == x);
                    }
                }
                assert(end[at as int] == name@);
            }
            assert(end.to_set() =~= start.to_set().insert(name@));
        }
    }

    /// Adds all names of another set.
    pub fn extend(&mut self, other: &NameSet)
        requires
            old(self).wf(),
        ensures
            final(self).wf(),
            final(self)@.to_set() == old(self)@.to_set().union(other@.to_set()),
            final(self)@.len() >= old(self)@.len(),
    {
        for i in 0..other.names.len()
            invariant
                self.wf(),
                self@.to_set() =~= old(self)@.to_set().union(other@.take(i as int).to_set()),
                self@.len() >= old(self)@.len(),
        {
            self.insert(other.names[i].as_str());
            proof {
                crate::keyed::lemma_take_to_set(other@, i as int);
                assert(other@[i as int] == other.names@[i as int]@);
            }
        }
        assert(other@.take(other@.len() as int) =~= other@);
    }

    /// The same set once more.
    pub fn duplicate(&self) -> (set: Self)
        ensures
            set@ == self@,
    {
        let mut names: Vec<String> = Vec::new();
        for i in 0..self.names.len()
            invariant
                texts(names@) == self@.take(i as int),
        {
            let ghost before = names@;
            names.push(self.names[i].clone());
            assert(texts(names@) =~= texts(before).push(self@[i as int]));
            assert(self@.take(i + 1) =~= self@.take(i as int).push(self@[i as int]));
        }
        assert(self@.take(self@.len() as int) =~= self@);
        NameSet { names }
    }

    /// Places this set with respect to another, in dictionary order.
    pub fn place(&self, other: &NameSet) -> (place: Place)
        ensures
            placed(lex(names_less()), self@, other@, place),
    {
        let x = &self.names;
        let y = &other.names;
        let mut i: usize = 0;
        while i < x.len() && i < y.len()
            invariant
                x@ == self.names@,
                y@ == other.names@,
                i <= self@.len(),
                i <= other@.len(),
                forall|j: int| 0 <= j < i ==> self@[j] == #[trigger] other@[j],
            decreases x@.len() - i,
        {
            proof {
                assert forall|j: int| 0 <= j < i implies other@[j] == #[trigger] self@[j] by {
                    assert(self@[j] == other@[j]);
                }
            }
            match place_name(x[i].as_str(), y[i].as_str()) {
                Place::Before => {
                    assert(lex_at(names_less(), self@, other@, i as int));
                    return Place::Before;
                },
                Place::Same => {
                    i += 1;
                },
                Place::After => {
                    assert(lex_at(names_less(), other@, self@, i as int));
                    return Place::After;
                },
            }
        }
        proof {
            assert forall|j: int| 0 <= j < i implies other@[j] == #[trigger] self@[j] by {
                assert(self@[j] == other@[j]);
            }
        }
        if i < y.len() {
            assert(lex_at(names_less(), self@, other@, i as int));
            Place::Before
        } else if i < x.len() {
            assert(lex_at(names_less(), other@, self@, i as int));
            Place::After
        } else {
            assert(self@ =~= other@);
            Place::Same
        }
    }
}

/// The names of a set in order.
pub open spec fn listing(names: Set<Seq<char>>) -> Seq<Seq<char>> {
    choose|s: Seq<Seq<char>>| increasing(names_less(), s) && s.to_set() == names
}

/// Names in order are the listing of their set.
pub proof fn lemma_listing(s: Seq<Seq<char>>)
    requires
        increasing(names_less(), s),
    ensures
        listing(s.to_set()) == s,
{
    lemma_names_total();
    let t = listing(s.to_set());
    assert(increasing(names_less(), t) && t.to_set() == s.to_set());
    assert forall|x: Seq<char>| s.contains(x) <==> #[trigger] t.contains(x) by {
        assert(s.to_set().contains(x) <==> t.to_set().contains(x));
    }
    lemma_increasing_unique(names_less(), s, t);
}

} // verus!
