//! The modules that a program is split into, with their contents.
use crate::dep_graph::DepNode;
use crate::keyed::KeySet;
use crate::order::{increasing, strict_total, Place};
use crate::split_point::identifier::{
    lemma_modules_total, module_less, modules_less, ModuleId, SplitModuleIdentifier,
};
use vstd::prelude::*;

verus! {

/// What can be reached.
#[derive(Debug)]
pub struct ReachabilityGraph {
    /// The parts that can be reached.
    pub reachable: KeySet<DepNode>,
}

impl Default for ReachabilityGraph {
    fn default() -> (graph: Self)
        ensures
            graph.reachable@ == Set::<DepNode>::empty(),
    {
        ReachabilityGraph { reachable: KeySet::new() }
    }
}

/// The contents of one module.
#[derive(Debug)]
pub struct OutputModuleInfo {
    /// The parts that go into the module.
    pub included_symbols: KeySet<DepNode>,
    /// The parts of other modules that the module uses.
    pub used_shared_deps: KeySet<DepNode>,
    /// Whether the module exists only because it is declared.
    pub is_empty: bool,
}

impl Default for OutputModuleInfo {
    fn default() -> (info: Self)
        ensures
            info.included_symbols@ == Set::<DepNode>::empty(),
            info.used_shared_deps@ == Set::<DepNode>::empty(),
            !info.is_empty,
    {
        OutputModuleInfo {
            included_symbols: KeySet::new(),
            used_shared_deps: KeySet::new(),
            is_empty: false,
        }
    }
}

/// The identifiers of modules.
pub open spec fn ids(modules: Seq<(SplitModuleIdentifier, OutputModuleInfo)>) -> Seq<ModuleId> {
    Seq::new(modules.len(), |i: int| modules[i].0@)
}

/// The modules are in order, and none occurs twice.
pub open spec fn in_order(modules: Seq<(SplitModuleIdentifier, OutputModuleInfo)>) -> bool {
    &&& increasing(modules_less(), ids(modules))
    &&& forall|i: int| 0 <= i < modules.len() ==> (#[trigger] modules[i]).0.wf()
}

/// Finds where a module is, or where it belongs.
fn find(modules: &Vec<(SplitModuleIdentifier, OutputModuleInfo)>, id: &SplitModuleIdentifier) -> (
    place: (usize, bool))
    requires
        in_order(modules@),
    ensures
        place.0 <= modules@.len(),
        place.1 ==> place.0 < modules@.len() && modules@[place.0 as int].0@ == id@,
        !place.1 ==> {
            &&& forall|i: int|
                0 <= i < place.0 ==> module_less((#[trigger] modules@[i]).0@, id@)
            &&& forall|i: int|
                place.0 <= i < modules@.len() ==> module_less(id@, (#[trigger] modules@[i]).0@)
        },
{
    let ghost less = modules_less();
    proof {
        lemma_modules_total();
    }
    let mut low: usize = 0;
    let mut high: usize = modules.len();
    while low < high
        invariant
            less == modules_less(),
            strict_total(less),
            in_order(modules@),
            low <= high <= modules@.len(),
            forall|i: int| 0 <= i < low ==> module_less((#[trigger] modules@[i]).0@, id@),
            forall|i: int|
                high <= i < modules@.len() ==> module_less(id@, (#[trigger] modules@[i]).0@),
        decreases high - low,
    {
        let mid: usize = low + (high - low) / 2;
        let ghost all = ids(modules@);
        match modules[mid].0.place(id) {
            Place::Before => {
                proof {
                    assert(less(all[mid as int], id@));
                    assert forall|i: int| 0 <= i < mid + 1 implies module_less(
                        (#[trigger] modules@[i]).0@,
                        id@,
                    ) by {
                        if i < mid {
                            assert(less(all[i], all[mid as int]));
                        }
                    }
                }
                low = mid + 1;
            },
            Place::Same => {
                return (mid, true);
            },
            Place::After => {
                proof {
                    assert(less(id@, all[mid as int]));
                    assert forall|i: int| mid <= i < modules@.len() implies module_less(
                        id@,
                        (#[trigger] modules@[i]).0@,
                    ) by {
                        if mid < i {
                            assert(less(all[mid as int], all[i]));
                        }
                    }
                }
                high = mid;
            },
        }
    }
    (low, false)
}

/// Whether a module is among those given.
pub open spec fn has_module(
    modules: Seq<(SplitModuleIdentifier, OutputModuleInfo)>,
    id: ModuleId,
) -> bool {
    exists|i: int| 0 <= i < modules.len() && (#[trigger] modules[i]).0@ == id
}

/// The contents of each module.
pub open spec fn by_id(modules: Seq<(SplitModuleIdentifier, OutputModuleInfo)>) -> Map<
    ModuleId,
    OutputModuleInfo,
> {
    Map::new(
        |id: ModuleId| has_module(modules, id),
        |id: ModuleId| modules[position(modules, id)].1,
    )
}

/// Where a module is.
pub open spec fn position(
    modules: Seq<(SplitModuleIdentifier, OutputModuleInfo)>,
    id: ModuleId,
) -> int {
    choose|i: int| 0 <= i < modules.len() && (#[trigger] modules[i]).0@ == id
}

/// Modules in order are found under their identifiers.
pub proof fn lemma_by_id(modules: Seq<(SplitModuleIdentifier, OutputModuleInfo)>)
    requires
        in_order(modules),
    ensures
        forall|i: int|
            0 <= i < modules.len() ==> by_id(modules).contains_key((#[trigger] modules[i]).0@)
                && by_id(modules)[modules[i].0@] == modules[i].1,
{
    lemma_modules_total();
    let less = modules_less();
    let all = ids(modules);
    assert forall|i: int| 0 <= i < modules.len() implies by_id(modules).contains_key(
        (#[trigger] modules[i]).0@,
    ) && by_id(modules)[modules[i].0@] == modules[i].1 by {
        let id = modules[i].0@;
        let j = position(modules, id);
        assert(has_module(modules, id));
        assert(0 <= j < modules.len() && modules[j].0@ == id);
        assert(!less(id, id));
        if i < j {
            assert(less(all[i], all[j]));
        }
        if j < i {
            assert(less(all[j], all[i]));
        }
    }
}

/// Puts a new module at its place.
fn put(
    modules: &mut Vec<(SplitModuleIdentifier, OutputModuleInfo)>,
    at: usize,
    id: SplitModuleIdentifier,
    info: OutputModuleInfo,
)
    requires
        in_order(old(modules)@),
        id.wf(),
        at <= old(modules)@.len(),
        forall|i: int| 0 <= i < at ==> module_less((#[trigger] old(modules)@[i]).0@, id@),
        forall|i: int|
            at <= i < old(modules)@.len() ==> module_less(id@, (#[trigger] old(modules)@[i]).0@),
    ensures
        in_order(final(modules)@),
        by_id(final(modules)@) == by_id(old(modules)@).insert(id@, info),
{
    let ghost before = modules@;
    let ghost key = id@;
    modules.insert(at, (id, info));
    proof {
        let after = modules@;
        let less = modules_less();
        lemma_modules_total();
        assert(after == before.insert(at as int, after[at as int]));
        assert(ids(after) =~= ids(before).insert(at as int, key));
        let all = ids(after);
        assert forall|i: int, j: int| 0 <= i < j < all.len() implies less(
            #[trigger] all[i],
            #[trigger] all[j],
        ) by {
            let i0 = if i < at {
                i
            } else {
                i - 1
            };
            let j0 = if j < at {
                j
            } else {
                j - 1
            };
            if i == at {
                assert(less(key, before[j0].0@));
            } else if j == at {
                assert(less(before[i0].0@, key));
            } else {
                assert(less(ids(before)[i0], ids(before)[j0]));
            }
        }
        assert forall|i: int| 0 <= i < after.len() implies (#[trigger] after[i]).0.wf() by {
            if i < at {
                assert(before[i].0.wf());
            } else if i > at {
                assert(before[i - 1].0.wf());
            }
        }
        lemma_by_id(before);
        lemma_by_id(after);
        let map = by_id(before).insert(key, info);
        assert forall|m: ModuleId| #[trigger] by_id(after).dom().contains(m) == map.dom().contains(
            m,
        ) && (map.dom().contains(m) ==> by_id(after)[m] == map[m]) by {
            if has_module(before, m) {
                let i = choose|i: int| 0 <= i < before.len() && (#[trigger] before[i]).0@ == m;
                assert(before[i].0@ == m);
                let k = if i < at {
                    i
                } else {
                    i + 1
                };
                assert(after[k] == before[i]);
                if m == key {
                    assert(!less(m, m));
                }
            }
            if m == key {
                assert(after[at as int].0@ == m);
            }
            if has_module(after, m) {
                let i = choose|i: int| 0 <= i < after.len() && (#[trigger] after[i]).0@ == m;
                assert(after[i].0@ == m);
                if i < at {
                    assert(before[i].0@ == m);
                } else if i > at {
                    assert(before[i - 1].0@ == m);
                }
            }
        }
        assert(by_id(after) =~= map);
    }
}

/// The parts that go into a module, if there is one.
pub open spec fn included_in(map: Map<ModuleId, OutputModuleInfo>, id: ModuleId) -> Set<DepNode> {
    if map.contains_key(id) {
        map[id].included_symbols@
    } else {
        Set::empty()
    }
}

/// Adds a part to a module, which is created if need be.
pub fn add_symbol(
    modules: &mut Vec<(SplitModuleIdentifier, OutputModuleInfo)>,
    id: &SplitModuleIdentifier,
    node: DepNode,
)
    requires
        in_order(old(modules)@),
        id.wf(),
    ensures
        in_order(final(modules)@),
        by_id(final(modules)@) == by_id(old(modules)@).insert(
            id@,
            by_id(final(modules)@)[id@],
        ),
        by_id(final(modules)@)[id@].included_symbols@ == included_in(
            by_id(old(modules)@),
            id@,
        ).insert(node),
{
    let ghost before = modules@;
    proof {
        lemma_by_id(before);
    }
    let (at, found) = find(modules, id);
    if found {
        modules[at].1.included_symbols.insert(node);
        proof {
            let after = modules@;
            assert(ids(after) =~= ids(before));
            assert forall|i: int| 0 <= i < after.len() implies (#[trigger] after[i]).0.wf() by {
                assert(before[i].0.wf());
            }
            lemma_by_id(after);
            let map = by_id(before).insert(id@, by_id(after)[id@]);
            assert(after[at as int].0@ == id@);
            assert forall|m: ModuleId| #[trigger]
                by_id(after).dom().contains(m) == map.dom().contains(m) && (map.dom().contains(m)
                    ==> by_id(after)[m] == map[m]) by {
                if has_module(before, m) {
                    let i = choose|i: int| 0 <= i < before.len() && (#[trigger] before[i]).0@ == m;
                    assert(before[i].0@ == m);
                    assert(after[i].0@ == m);
                    if i != at {
                        assert(after[i] == before[i]);
                    }
                }
                if has_module(after, m) {
                    let i = choose|i: int| 0 <= i < after.len() && (#[trigger] after[i]).0@ == m;
                    assert(after[i].0@ == m);
                    assert(before[i].0@ == m);
                }
            }
            assert(by_id(after) =~= map);
        }
    } else {
        let mut info = OutputModuleInfo::default();
        info.included_symbols.insert(node);
        proof {
            if has_module(before, id@) {
                let i = choose|i: int| 0 <= i < before.len() && (#[trigger] before[i]).0@ == id@;
                assert(before[i].0@ == id@);
                lemma_modules_total();
                let less = modules_less();
                assert(!less(id@, id@));
            }
        }
        put(modules, at, id.duplicate(), info);
    }
}

/// Adds an empty module, unless the module is there already.
pub fn add_declared(
    modules: &mut Vec<(SplitModuleIdentifier, OutputModuleInfo)>,
    id: SplitModuleIdentifier,
)
    requires
        in_order(old(modules)@),
        id.wf(),
    ensures
        in_order(final(modules)@),
        has_module(old(modules)@, id@) ==> by_id(final(modules)@) == by_id(old(modules)@),
        !has_module(old(modules)@, id@) ==> {
            let info = by_id(final(modules)@)[id@];
            &&& by_id(final(modules)@) == by_id(old(modules)@).insert(id@, info)
            &&& info.included_symbols@ == Set::<DepNode>::empty()
            &&& info.used_shared_deps@ == Set::<DepNode>::empty()
            &&& info.is_empty
        },
{
    let ghost before = modules@;
    let (at, found) = find(modules, &id);
    if !found {
        proof {
            if has_module(before, id@) {
                let i = choose|i: int| 0 <= i < before.len() && (#[trigger] before[i]).0@ == id@;
                assert(before[i].0@ == id@);
                lemma_modules_total();
                let less = modules_less();
                assert(!less(id@, id@));
            }
        }
        let info = OutputModuleInfo { is_empty: true, ..OutputModuleInfo::default() };
        put(modules, at, id, info);
    } else {
        assert(before[at as int].0@ == id@);
    }
}

} // verus!
