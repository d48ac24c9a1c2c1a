//! The names of the modules that a program is split into.
use crate::names::{lemma_listing, listing, NameSet};
use crate::order::{
    increasing, lemma_lex_total, lemma_names_total, lex, lex_less, name_less, names_less,
    place_name, placed, strict_total, Place,
};
use crate::text::{decimal, to_decimal};
use vstd::prelude::*;
use vstd::string::*;

verus! {

/// One of the modules that a program is split into.
#[derive(Debug, PartialEq, Eq, PartialOrd, Ord, Hash, Clone)]
pub enum SplitModuleIdentifier {
    /// The module that is always loaded.
    Main,
    /// A module that the program declares.
    Split(String),
    /// What several declared modules share.
    Chunk(NameSet),
}

/// What a [`SplitModuleIdentifier`] says.
pub enum ModuleId {
    /// The module that is always loaded.
    Main,
    /// A module that the program declares.
    Split(Seq<char>),
    /// What several declared modules share, with their names in order.
    Chunk(Seq<Seq<char>>),
}

impl ModuleId {
    /// The declared modules that need this one.
    pub open spec fn names(self) -> Set<Seq<char>> {
        match self {
            ModuleId::Main => Set::empty(),
            ModuleId::Split(name) => set![name],
            ModuleId::Chunk(names) => names.to_set(),
        }
    }
}

impl View for SplitModuleIdentifier {
    type V = ModuleId;

    open spec fn view(&self) -> ModuleId {
        match self {
            SplitModuleIdentifier::Main => ModuleId::Main,
            SplitModuleIdentifier::Split(name) => ModuleId::Split(name@),
            SplitModuleIdentifier::Chunk(names) => ModuleId::Chunk(names@),
        }
    }
}

/// The module for what exactly the given declared modules need.
pub open spec fn module_for(names: Set<Seq<char>>) -> ModuleId {
    if exists|n: Seq<char>| names == set![n] {
        ModuleId::Split(choose|n: Seq<char>| names == set![n])
    } else {
        ModuleId::Chunk(listing(names))
    }
}

/// The module for what two modules need.
pub open spec fn join(a: ModuleId, b: ModuleId) -> ModuleId {
    if a is Main || b is Main {
        ModuleId::Main
    } else {
        module_for(a.names().union(b.names()))
    }
}

/// Whether the module `a` comes before `b`: the main module first, then declared modules by name,
/// then shared ones by their lists of names.
pub open spec fn module_less(a: ModuleId, b: ModuleId) -> bool {
    match (a, b) {
        (ModuleId::Main, ModuleId::Main) => false,
        (ModuleId::Main, _) => true,
        (ModuleId::Split(x), ModuleId::Split(y)) => name_less(x, y),
        (ModuleId::Split(_), ModuleId::Chunk(_)) => true,
        (ModuleId::Chunk(x), ModuleId::Chunk(y)) => lex_less(names_less(), x, y),
        _ => false,
    }
}

/// The order of modules, as a function.
pub open spec fn modules_less() -> spec_fn(ModuleId, ModuleId) -> bool {
    |a: ModuleId, b: ModuleId| module_less(a, b)
}

/// The order of modules is total.
pub proof fn lemma_modules_total()
    ensures
        strict_total(modules_less()),
{
    lemma_names_total();
    lemma_lex_total(names_less());
    let l = modules_less();
    let n = names_less();
    let c = lex(names_less());
    assert forall|a: ModuleId| !#[trigger] l(a, a) by {
        match a {
            ModuleId::Main => {},
            ModuleId::Split(x) => {
                assert(!n(x, x));
            },
            ModuleId::Chunk(x) => {
                assert(!c(x, x));
            },
        }
    }
    assert forall|a: ModuleId, b: ModuleId| #[trigger] l(a, b) || l(b, a) || a == b by {
        match (a, b) {
            (ModuleId::Split(x), ModuleId::Split(y)) => {
                assert(n(x, y) || n(y, x) || x == y);
            },
            (ModuleId::Chunk(x), ModuleId::Chunk(y)) => {
                assert(c(x, y) || c(y, x) || x == y);
            },
            _ => {},
        }
    }
    assert forall|a: ModuleId, b: ModuleId, d: ModuleId| #[trigger]
        l(a, b) && #[trigger] l(b, d) implies l(a, d) by {
        match (a, b, d) {
            (ModuleId::Split(x), ModuleId::Split(y), ModuleId::Split(z)) => {
                assert(n(x, y) && n(y, z));
            },
            (ModuleId::Chunk(x), ModuleId::Chunk(y), ModuleId::Chunk(z)) => {
                assert(c(x, y) && c(y, z));
            },
            _ => {},
        }
    }
}

/// A set of exactly one name is that name's module.
pub proof fn lemma_module_for_one(n: Seq<char>)
    ensures
        module_for(set![n]) == ModuleId::Split(n),
{
    let names = set![n];
    assert(names == set![n]);
    let m = choose|m: Seq<char>| names == set![m];
    assert(names.contains(n));
    assert(set![m].contains(n));
}

/// Names in order that are not one name are a chunk.
pub proof fn lemma_module_for_many(s: Seq<Seq<char>>)
    requires
        increasing(names_less(), s),
        s.len() != 1,
    ensures
        module_for(s.to_set()) == ModuleId::Chunk(s),
{
    let names = s.to_set();
    if exists|n: Seq<char>| names == set![n] {
        let n = choose|n: Seq<char>| names == set![n];
        assert(set![n].contains(n));
        assert(s.contains(n));
        let k = choose|k: int| 0 <= k < s.len() && s[k] == n;
        let j: int = if k == 0 {
            1
        } else {
            0
        };
        assert(s.contains(s[j]));
        assert(names.contains(s[j]));
        assert(s[j] == n);
        lemma_names_total();
        let l = names_less();
        assert(!l(n, n));
        assert(l(s[0], s[1]));
    }
    lemma_listing(s);
}

impl SplitModuleIdentifier {
    /// A chunk's names are in order.
    pub open spec fn wf(&self) -> bool {
        self matches SplitModuleIdentifier::Chunk(names) ==> names.wf()
    }

    /// The name of the file that the module is written to.
    pub fn filename(&self, module_index: usize) -> (name: String)
        requires
            !(self is Main),
        ensures
            name@ == (match self@ {
                ModuleId::Split(name) => "split_"@ + name,
                _ => "chunk_"@ + decimal(module_index as nat),
            }),
    {
        match self {
            SplitModuleIdentifier::Split(name) => "split_".to_owned().concat(name.as_str()),
            _ => "chunk_".to_owned().concat(to_decimal(module_index).as_str()),
        }
    }

    /// The name of the function that loads a declared module.
    pub fn loader_name(&self) -> (name: String)
        requires
            self is Split,
        ensures
            name@ == "__wasm_split_load_"@ + self@->Split_0,
    {
        match self {
            SplitModuleIdentifier::Split(name) => "__wasm_split_load_".to_owned().concat(
                name.as_str(),
            ),
            _ => String::new(),
        }
    }

    /// The same identifier once more.
    pub fn duplicate(&self) -> (id: Self)
        ensures
            id@ == self@,
            self.wf() ==> id.wf(),
    {
        match self {
            SplitModuleIdentifier::Main => SplitModuleIdentifier::Main,
            SplitModuleIdentifier::Split(name) => SplitModuleIdentifier::Split(name.clone()),
            SplitModuleIdentifier::Chunk(names) => SplitModuleIdentifier::Chunk(names.duplicate()),
        }
    }

    /// Places this module with respect to another.
    pub fn place(&self, other: &SplitModuleIdentifier) -> (place: Place)
        ensures
            placed(modules_less(), self@, other@, place),
    {
        match (self, other) {
            (SplitModuleIdentifier::Main, SplitModuleIdentifier::Main) => Place::Same,
            (SplitModuleIdentifier::Main, _) => Place::Before,
            (_, SplitModuleIdentifier::Main) => Place::After,
            (
                SplitModuleIdentifier::Split(a),
                SplitModuleIdentifier::Split(b),
            ) => place_name(a.as_str(), b.as_str()),
            (SplitModuleIdentifier::Split(_), _) => Place::Before,
            (_, SplitModuleIdentifier::Split(_)) => Place::After,
            (
                SplitModuleIdentifier::Chunk(a),
                SplitModuleIdentifier::Chunk(b),
            ) => a.place(b),
        }
    }

    /// The declared modules that need this one.
    fn needed_by(&self) -> (names: NameSet)
        requires
            self.wf(),
        ensures
            names.wf(),
            names@.to_set() == self@.names(),
    {
        match self {
            SplitModuleIdentifier::Main => {
                let names = NameSet::new();
                assert(names@.to_set() =~= Set::empty());
                names
            },
            SplitModuleIdentifier::Split(split) => {
                let mut names = NameSet::new();
                let ghost before = names@;
                names.insert(split.as_str());
                assert(before.to_set().insert(split@) =~= set![split@]);
                names
            },
            SplitModuleIdentifier::Chunk(chunk) => chunk.duplicate(),
        }
    }

    /// Makes this the module for what it and `other` need.
    pub fn also_in(&mut self, other: &SplitModuleIdentifier)
        requires
            old(self).wf(),
            other.wf(),
        ensures
            final(self).wf(),
            final(self)@ == join(old(self)@, other@),
            !(final(self)@ is Main) ==> final(self)@.names() == old(self)@.names().union(
                other@.names(),
            ),
    {
        if let SplitModuleIdentifier::Main = self {
            return;
        }
        if let SplitModuleIdentifier::Main = other {
            *self = SplitModuleIdentifier::Main;
            return;
        }
        let mut needed_by = self.needed_by();
        needed_by.extend(&other.needed_by());
        let ghost names = needed_by@;
        if needed_by.names().len() == 1 {
            let name = needed_by.names()[0].clone();
            proof {
                assert(names[0] == name@);
                assert forall|x: Seq<char>| names.contains(x) implies x == name@ by {
                    let k = choose|k: int| 0 <= k < names.len() && names[k] == x;
                }
                assert(names.contains(name@));
                assert(names.to_set() =~= set![name@]);
                lemma_module_for_one(name@);
            }
            *self = SplitModuleIdentifier::Split(name);
        } else {
            proof {
                lemma_module_for_many(names);
            }
            *self = SplitModuleIdentifier::Chunk(needed_by);
        }
    }
}

} // verus!
