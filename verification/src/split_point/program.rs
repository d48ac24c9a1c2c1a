//! Splitting a program into modules.
use crate::dep_graph::{DepGraph, DepNode};
use crate::graph_utils::tarjan_scc::has_edge;
use crate::keyed::{lookup, KeyMap, KeySet};
use crate::order::same_text;
use crate::read::{InputFuncId, InputModule};
use crate::split_point::analysis::DepGraphAnalysis;
use crate::split_point::coloring::Coloring;
use crate::split_point::identifier::{ModuleId, SplitModuleIdentifier};
use crate::split_point::output::{
    add_declared, add_symbol, by_id, has_module, ids, in_order, included_in, lemma_by_id, position,
    OutputModuleInfo,
};
use crate::split_point::painter::{paint, DepGraphPainter};
use crate::split_point::points::SplitError;
use crate::split_point::roots::{
    cast_nodes, casts_have_index, export_nodes, get_main_module_roots, get_split_roots, main_roots,
    wbg_rooting_funs, SplitPoint,
};
use crate::text::{hexadecimal, to_hexadecimal};
use std::collections::hash_map::DefaultHasher;
use std::hash::Hasher;
use vstd::prelude::*;
use vstd::std_specs::hash::DefaultHasherAdditionalSpecFns;
use vstd::string::*;

verus! {

/// The split points of a declared module, in order.
pub open spec fn points_of(split_points: Seq<SplitPoint>, name: Seq<char>) -> Seq<SplitPoint> {
    split_points.filter(|p: SplitPoint| p.module_name@ == name)
}

/// `groups` holds the declared modules, each once, with its split points.
pub open spec fn groups_points(
    groups: Seq<(String, Vec<&SplitPoint>)>,
    split_points: Seq<SplitPoint>,
) -> bool {
    &&& forall|i: int, j: int|
        0 <= i < j < groups.len() ==> (#[trigger] groups[i]).0@ != (#[trigger] groups[j]).0@
    &&& forall|i: int|
        0 <= i < groups.len() ==> (#[trigger] groups[i]).1@.unref() == points_of(
            split_points,
            groups[i].0@,
        )
    &&& forall|name: Seq<char>| #[trigger]
        is_declared(split_points, name) <==> exists|i: int|
            0 <= i < groups.len() && (#[trigger] groups[i]).0@ == name
}

/// Whether a split point leads to the module `name`.
pub open spec fn is_declared(split_points: Seq<SplitPoint>, name: Seq<char>) -> bool {
    exists|i: int| 0 <= i < split_points.len() && (#[trigger] split_points[i]).module_name@ == name
}

/// Groups split points by the declared module that they lead to.
pub fn get_split_points_by_module<'a>(split_points: &'a [SplitPoint]) -> (groups: Vec<
    (String, Vec<&'a SplitPoint>),
>)
    ensures
        groups_points(groups@, split_points@),
{
    let mut groups: Vec<(String, Vec<&'a SplitPoint>)> = Vec::new();
    for k in 0..split_points.len()
        invariant
            groups_points(groups@, split_points@.take(k as int)),
    {
        let split_point = &split_points[k];
        let name = split_point.module_name.as_str();
        let ghost before = groups@;
        let ghost seen = split_points@.take(k as int);
        let ghost more = split_points@.take(k + 1);
        proof {
            assert(more.drop_last() =~= seen);
            assert(more.last() == *split_point);
            assert forall|n: Seq<char>| #[trigger] is_declared(more, n) <==> is_declared(seen, n)
                || n == name@ by {
                if is_declared(seen, n) {
                    let i = choose|i: int|
                        0 <= i < seen.len() && (#[trigger] seen[i]).module_name@ == n;
                    assert(more[i].module_name@ == n);
                }
                if n == name@ {
                    assert(more[k as int].module_name@ == n);
                }
                if is_declared(more, n) {
                    let i = choose|i: int|
                        0 <= i < more.len() && (#[trigger] more[i]).module_name@ == n;
                    if i < k {
                        assert(seen[i].module_name@ == n);
                    }
                }
            }
            assert forall|n: Seq<char>| #[trigger] points_of(more, n) == (if n == name@ {
                points_of(seen, n).push(*split_point)
            } else {
                points_of(seen, n)
            }) by {
                reveal(Seq::filter);
            }
        }
        let mut at: usize = 0;
        while at < groups.len() && !same_text(groups[at].0.as_str(), name)
            invariant
                groups@ == before,
                at <= groups@.len(),
                forall|i: int| 0 <= i < at ==> (#[trigger] groups@[i]).0@ != name@,
            decreases groups@.len() - at,
        {
            at += 1;
        }
        if at < groups.len() {
            groups[at].1.push(split_point);
            proof {
                assert(before[at as int].0@ == name@);
                assert forall|i: int| 0 <= i < groups@.len() implies (#[trigger] groups@[i]).0@
                    == before[i].0@ && groups@[i].1@.unref() == points_of(more, groups@[i].0@) by {
                    if i == at {
                        assert(groups@[i].1@.unref() =~= before[i].1@.unref().push(*split_point));
                    } else {
                        assert(groups@[i] == before[i]);
                        assert(before[i].0@ != name@) by {
                            if i < at {
                            } else {
                                assert(before[at as int].0@ != before[i].0@);
                            }
                        }
                    }
                }
                assert forall|n: Seq<char>| #[trigger] is_declared(more, n) <==> exists|i: int|
                    0 <= i < groups@.len() && (#[trigger] groups@[i]).0@ == n by {
                    if is_declared(seen, n) {
                        let i = choose|i: int|
                            0 <= i < before.len() && (#[trigger] before[i]).0@ == n;
                        assert(groups@[i].0@ == n);
                    }
                    if n == name@ {
                        assert(groups@[at as int].0@ == n);
                    }
                    if exists|i: int| 0 <= i < groups@.len() && (#[trigger] groups@[i]).0@ == n {
                        let i = choose|i: int|
                            0 <= i < groups@.len() && (#[trigger] groups@[i]).0@ == n;
                        assert(before[i].0@ == n);
                    }
                }
            }
        } else {
            let mut points: Vec<&'a SplitPoint> = Vec::new();
            points.push(split_point);
            let ghost points_view = points@.unref();
            groups.push((split_point.module_name.clone(), points));
            proof {
                assert(!is_declared(seen, name@));
                assert(points_of(seen, name@) =~= Seq::empty()) by {
                    lemma_points_of_none(seen, name@);
                }
                assert(points_view =~= points_of(more, name@));
                assert(groups@[at as int].1@.unref() == points_view);
                assert forall|i: int| 0 <= i < groups@.len() implies (#[trigger] groups@[i]).1@.unref()
                    == points_of(more, groups@[i].0@) by {
                    if i < at {
                        assert(groups@[i] == before[i]);
                    }
                }
                assert forall|n: Seq<char>| #[trigger] is_declared(more, n) <==> exists|i: int|
                    0 <= i < groups@.len() && (#[trigger] groups@[i]).0@ == n by {
                    if is_declared(seen, n) {
                        let i = choose|i: int|
                            0 <= i < before.len() && (#[trigger] before[i]).0@ == n;
                        assert(groups@[i].0@ == n);
                    }
                    if n == name@ {
                        assert(groups@[at as int].0@ == n);
                    }
                    if exists|i: int| 0 <= i < groups@.len() && (#[trigger] groups@[i]).0@ == n {
                        let i = choose|i: int|
                            0 <= i < groups@.len() && (#[trigger] groups@[i]).0@ == n;
                        if i < at {
                            assert(before[i].0@ == n);
                        }
                    }
                }
            }
        }
    }
    assert(split_points@.take(split_points@.len() as int) =~= split_points@);
    groups
}

/// A module that is not declared has no split points.
proof fn lemma_points_of_none(split_points: Seq<SplitPoint>, name: Seq<char>)
    requires
        !is_declared(split_points, name),
    ensures
        points_of(split_points, name) == Seq::<SplitPoint>::empty(),
    decreases split_points.len(),
{
    reveal(Seq::filter);
    if split_points.len() > 0 {
        let rest = split_points.drop_last();
        assert(!is_declared(rest, name)) by {
            if is_declared(rest, name) {
                let i = choose|i: int|
                    0 <= i < rest.len() && (#[trigger] rest[i]).module_name@ == name;
                assert(split_points[i].module_name@ == name);
            }
        }
        lemma_points_of_none(rest, name);
        assert(split_points[split_points.len() - 1].module_name@ != name);
    }
}

/// A split point is among those of a module if and only if it leads there.
proof fn lemma_points_of(split_points: Seq<SplitPoint>, name: Seq<char>, p: SplitPoint)
    ensures
        points_of(split_points, name).contains(p) <==> split_points.contains(p) && p.module_name@
            == name,
    decreases split_points.len(),
{
    reveal(Seq::filter);
    if split_points.len() > 0 {
        let rest = split_points.drop_last();
        let last = split_points.last();
        lemma_points_of(rest, name, p);
        assert(split_points.contains(p) <==> rest.contains(p) || p == last) by {
            if rest.contains(p) {
                let i = choose|i: int| 0 <= i < rest.len() && rest[i] == p;
                assert(split_points[i] == p);
            }
            if split_points.contains(p) && p != last {
                let i = choose|i: int| 0 <= i < split_points.len() && split_points[i] == p;
                assert(rest[i] == p);
            }
            if p == last {
                assert(split_points[split_points.len() - 1] == p);
            }
        }
        let before = points_of(rest, name);
        if last.module_name@ == name {
            let after = before.push(last);
            assert(points_of(split_points, name) == after);
            assert(after.contains(p) <==> before.contains(p) || p == last) by {
                if before.contains(p) {
                    let i = choose|i: int| 0 <= i < before.len() && before[i] == p;
                    assert(after[i] == p);
                }
                if p == last {
                    assert(after[before.len() as int] == p);
                }
            }
        } else {
            assert(points_of(split_points, name) == before);
        }
    } else {
        assert(points_of(split_points, name) =~= Seq::empty());
    }
}

/// What the declared modules start from.
pub open spec fn split_roots_of(split_points: Seq<SplitPoint>) -> Set<(Seq<char>, DepNode)> {
    Set::new(
        |p: (Seq<char>, DepNode)|
            exists|i: int|
                0 <= i < split_points.len() && (#[trigger] split_points[i]).module_name@ == p.0
                    && p.1 == DepNode::Function(split_points[i].export_func),
    )
}

/// What decides into which module each part of a program goes.
pub open spec fn coloring_of(
    module: &InputModule,
    graph: Map<DepNode, KeySet<DepNode>>,
    split_points: Seq<SplitPoint>,
) -> Coloring {
    Coloring {
        graph,
        marks: cast_nodes(module),
        main_roots: main_roots(module, split_points),
        split_roots: split_roots_of(split_points),
    }
}

/// The imports that split points replace.
pub open spec fn import_nodes(split_points: Seq<SplitPoint>) -> Set<DepNode> {
    Set::new(
        |n: DepNode|
            exists|i: int|
                0 <= i < split_points.len() && n == DepNode::Function(
                    (#[trigger] split_points[i]).import_func,
                ),
    )
}

/// Whether `v` goes into some module: it is needed, and no split point replaces it.
pub open spec fn is_placed(c: Coloring, imports: Set<DepNode>, v: DepNode) -> bool {
    c.reached(v) && !imports.contains(v)
}

/// The parts that go into module `id`.
pub open spec fn contents(c: Coloring, imports: Set<DepNode>, id: ModuleId) -> Set<DepNode> {
    Set::new(|v: DepNode| is_placed(c, imports, v) && c.module_of(v) == id)
}

/// Whether something goes into module `id`.
pub open spec fn is_filled(c: Coloring, imports: Set<DepNode>, id: ModuleId) -> bool {
    exists|v: DepNode| #[trigger] is_placed(c, imports, v) && c.module_of(v) == id
}

/// The function that implements an imported one; the last split point decides.
pub open spec fn export_for(split_points: Seq<SplitPoint>, import_func: InputFuncId) -> Option<
    InputFuncId,
>
    decreases split_points.len(),
{
    if split_points.len() == 0 {
        None
    } else if split_points.last().import_func == import_func {
        Some(split_points.last().export_func)
    } else {
        export_for(split_points.drop_last(), import_func)
    }
}

/// What a dependency on `n` comes down to: imports of split points stand for their
/// implementations.
pub open spec fn redirected(split_points: Seq<SplitPoint>, n: DepNode) -> DepNode {
    match n {
        DepNode::Function(f) => match export_for(split_points, f) {
            Some(g) => DepNode::Function(g),
            None => n,
        },
        _ => n,
    }
}

/// Whether a module with the given contents depends directly on `e`. Every module depends on the
/// main memory and on the table for indirect calls.
pub open spec fn is_needed(
    module: &InputModule,
    graph: Map<DepNode, KeySet<DepNode>>,
    included: Set<DepNode>,
    e: DepNode,
) -> bool {
    ||| e == DepNode::Memory(0)
    ||| e == DepNode::Table(module.reloc_info.indirect_table)
    ||| exists|s: DepNode| included.contains(s) && #[trigger] has_edge(graph, s, e)
}

/// What a module with the given contents uses of other modules. Data need no sharing.
pub open spec fn shared_by(
    module: &InputModule,
    graph: Map<DepNode, KeySet<DepNode>>,
    split_points: Seq<SplitPoint>,
    included: Set<DepNode>,
) -> Set<DepNode> {
    Set::new(
        |d: DepNode|
            !included.contains(d) && !(d is DataSymbol) && exists|e: DepNode| #[trigger]
                is_needed(module, graph, included, e) && d == redirected(split_points, e),
    )
}

/// The functions by which split points are implemented.
fn map_split_funcs(split_points: &[SplitPoint]) -> (map: KeyMap<InputFuncId, InputFuncId>)
    ensures
        forall|f: InputFuncId| export_for(split_points@, f) == #[trigger] lookup(map@, f),
{
    let mut map: KeyMap<InputFuncId, InputFuncId> = KeyMap::new();
    for i in 0..split_points.len()
        invariant
            forall|f: InputFuncId|
                export_for(split_points@.take(i as int), f) == #[trigger] lookup(map@, f),
    {
        let ghost before = map@;
        map.insert(split_points[i].import_func, split_points[i].export_func);
        proof {
            let more = split_points@.take(i + 1);
            assert(more.drop_last() =~= split_points@.take(i as int));
            assert(more.last() == split_points@[i as int]);
            assert forall|f: InputFuncId| export_for(more, f) == #[trigger] lookup(map@, f) by {
                assert(lookup(before, f) == export_for(split_points@.take(i as int), f));
            }
        }
    }
    assert(split_points@.take(split_points@.len() as int) =~= split_points@);
    map
}

/// Collects the imports that split points replace.
fn collect_imports(split_points: &[SplitPoint]) -> (imports: KeySet<DepNode>)
    ensures
        imports@ == import_nodes(split_points@),
{
    let mut imports: KeySet<DepNode> = KeySet::new();
    for k in 0..split_points.len()
        invariant
            forall|n: DepNode| #[trigger]
                imports@.contains(n) <==> exists|i: int|
                    0 <= i < k && n == DepNode::Function((#[trigger] split_points@[i]).import_func),
    {
        imports.insert(DepNode::Function(split_points[k].import_func));
    }
    assert(imports@ =~= import_nodes(split_points@));
    imports
}

/// Finds out into which module each part of the program goes.
fn explore_modules(
    module: &InputModule,
    dep_graph: &DepGraph,
    wbg_rooting_deps: &KeySet<DepNode>,
    split_points: &[SplitPoint],
    groups: &Vec<(String, Vec<&SplitPoint>)>,
) -> (painter: DepGraphPainter)
    requires
        wbg_rooting_deps@ == cast_nodes(module),
        groups_points(groups@, split_points@),
    ensures
        painter.wf(),
        painter.remaining().no_duplicates(),
        forall|v: DepNode| #[trigger]
            painter.remaining().contains(v) <==> coloring_of(
                module,
                dep_graph@,
                split_points@,
            ).reached(v),
        forall|v: DepNode| #[trigger]
            painter.scc().contains_key(v) ==> paint(
                painter.start(),
                painter.comps(),
                painter.scc()[v],
            ) == coloring_of(module, dep_graph@, split_points@).module_of(v),
{
    let mut graph_analysis = DepGraphAnalysis::new(dep_graph, wbg_rooting_deps);
    let roots = get_main_module_roots(module, split_points);
    graph_analysis.explore(&roots, &SplitModuleIdentifier::Main);
    let ghost c = coloring_of(module, dep_graph@, split_points@);
    proof {
        assert(graph_analysis.coloring().main_roots =~= c.main_roots);
    }
    for k in 0..groups.len()
        invariant
            groups_points(groups@, split_points@),
            graph_analysis.wf(),
            graph_analysis.coloring().graph == c.graph,
            graph_analysis.coloring().marks == c.marks,
            graph_analysis.coloring().main_roots == c.main_roots,
            forall|p: (Seq<char>, DepNode)| #[trigger]
                graph_analysis.coloring().split_roots.contains(p) <==> exists|i: int|
                    0 <= i < k && (#[trigger] groups@[i]).0@ == p.0 && export_nodes(
                        points_of(split_points@, groups@[i].0@),
                    ).contains(p.1),
    {
        let (name, entry_points) = &groups[k];
        let roots = get_split_roots(entry_points.as_slice());
        graph_analysis.explore(&roots, &SplitModuleIdentifier::Split(name.clone()));
        proof {
            assert(groups@[k as int].1@.unref() == points_of(split_points@, groups@[k as int].0@));
        }
    }
    proof {
        assert forall|p: (Seq<char>, DepNode)|
            graph_analysis.coloring().split_roots.contains(p) <==> c.split_roots.contains(p) by {
            let (name, n) = p;
            if graph_analysis.coloring().split_roots.contains(p) {
                let i = choose|i: int|
                    0 <= i < groups@.len() && (#[trigger] groups@[i]).0@ == p.0 && export_nodes(
                        points_of(split_points@, groups@[i].0@),
                    ).contains(p.1);
                let points = points_of(split_points@, name);
                let j = choose|j: int|
                    0 <= j < points.len() && n == DepNode::Function(
                        (#[trigger] points[j]).export_func,
                    );
                lemma_points_of(split_points@, name, points[j]);
                assert(points.contains(points[j]));
                let m = choose|m: int|
                    0 <= m < split_points@.len() && split_points@[m] == points[j];
                assert(split_points@[m].module_name@ == name);
            }
            if c.split_roots.contains(p) {
                let m = choose|m: int|
                    0 <= m < split_points@.len() && (#[trigger] split_points@[m]).module_name@
                        == p.0 && p.1 == DepNode::Function(split_points@[m].export_func);
                assert(split_points@[m].module_name@ == name);
                assert(is_declared(split_points@, name));
                let i = choose|i: int| 0 <= i < groups@.len() && (#[trigger] groups@[i]).0@ == name;
                let points = points_of(split_points@, name);
                lemma_points_of(split_points@, name, split_points@[m]);
                assert(split_points@.contains(split_points@[m]));
                let j = choose|j: int| 0 <= j < points.len() && points[j] == split_points@[m];
                assert(n == DepNode::Function(points[j].export_func));
                assert(groups@[i].0@ == p.0);
            }
        }
        assert(graph_analysis.coloring().split_roots =~= c.split_roots);
    }
    graph_analysis.into_painter()
}

/// The functions that go into the main module because they depend on a mark.
pub open spec fn shims(c: Coloring, imports: Set<DepNode>) -> Set<InputFuncId> {
    Set::new(
        |f: InputFuncId|
            is_placed(c, imports, DepNode::Function(f)) && c.module_of(DepNode::Function(f))
                is Main && c.touches_mark(DepNode::Function(f)),
    )
}

/// The modules that are not empty have their contents.
pub open spec fn are_filled(
    c: Coloring,
    imports: Set<DepNode>,
    map: Map<ModuleId, OutputModuleInfo>,
) -> bool {
    &&& forall|id: ModuleId| #[trigger] map.contains_key(id) <==> is_filled(c, imports, id)
    &&& forall|id: ModuleId| #[trigger]
        map.contains_key(id) ==> map[id].included_symbols@ == contents(c, imports, id)
}

/// What is known of the modules when the parts in `seen` were put into them.
#[verifier::opaque]
spec fn filled_with(
    c: Coloring,
    imports: Set<DepNode>,
    seen: Set<DepNode>,
    map: Map<ModuleId, OutputModuleInfo>,
) -> bool {
    &&& forall|id: ModuleId| #[trigger]
        map.contains_key(id) <==> exists|v: DepNode| #[trigger]
            seen.contains(v) && !imports.contains(v) && c.module_of(v) == id
    &&& forall|id: ModuleId| #[trigger]
        map.contains_key(id) ==> map[id].included_symbols@ =~= Set::new(
            |v: DepNode| seen.contains(v) && !imports.contains(v) && c.module_of(v) == id,
        )
}

/// Putting one more part into its module.
proof fn lemma_fill(
    c: Coloring,
    imports: Set<DepNode>,
    seen: Set<DepNode>,
    map: Map<ModuleId, OutputModuleInfo>,
    v: DepNode,
    map2: Map<ModuleId, OutputModuleInfo>,
)
    requires
        filled_with(c, imports, seen, map),
        !imports.contains(v),
        map2 == map.insert(c.module_of(v), map2[c.module_of(v)]),
        map2[c.module_of(v)].included_symbols@ == included_in(map, c.module_of(v)).insert(v),
    ensures
        filled_with(c, imports, seen.insert(v), map2),
{
    reveal(filled_with);
    let seen2 = seen.insert(v);
    let at = c.module_of(v);
    assert forall|id: ModuleId| #[trigger] map2.contains_key(id) <==> exists|w: DepNode| #[trigger]
        seen2.contains(w) && !imports.contains(w) && c.module_of(w) == id by {
        if id == at {
            assert(seen2.contains(v));
        }
        if map.contains_key(id) {
            let w = choose|w: DepNode| #[trigger]
                seen.contains(w) && !imports.contains(w) && c.module_of(w) == id;
            assert(seen2.contains(w));
        }
        if exists|w: DepNode| #[trigger]
            seen2.contains(w) && !imports.contains(w) && c.module_of(w) == id {
            let w = choose|w: DepNode| #[trigger]
                seen2.contains(w) && !imports.contains(w) && c.module_of(w) == id;
            if w != v {
                assert(seen.contains(w));
            }
        }
    }
    assert forall|id: ModuleId| #[trigger] map2.contains_key(id) implies map2[id].included_symbols@
        =~= Set::new(
        |w: DepNode| seen2.contains(w) && !imports.contains(w) && c.module_of(w) == id,
    ) by {
        if id == at {
            if !map.contains_key(at) {
                assert forall|w: DepNode|
                    seen.contains(w) && !imports.contains(w) implies c.module_of(w) != at by {
                    assert(seen.contains(w));
                }
            }
        } else {
            assert(map.contains_key(id));
        }
    }
}

/// Passing over a part that split points replace.
proof fn lemma_fill_import(
    c: Coloring,
    imports: Set<DepNode>,
    seen: Set<DepNode>,
    map: Map<ModuleId, OutputModuleInfo>,
    v: DepNode,
)
    requires
        filled_with(c, imports, seen, map),
        imports.contains(v),
    ensures
        filled_with(c, imports, seen.insert(v), map),
{
    reveal(filled_with);
    let seen2 = seen.insert(v);
    assert forall|id: ModuleId| #[trigger] map.contains_key(id) <==> exists|w: DepNode| #[trigger]
        seen2.contains(w) && !imports.contains(w) && c.module_of(w) == id by {
        if map.contains_key(id) {
            let w = choose|w: DepNode| #[trigger]
                seen.contains(w) && !imports.contains(w) && c.module_of(w) == id;
            assert(seen2.contains(w));
        }
        if exists|w: DepNode| #[trigger]
            seen2.contains(w) && !imports.contains(w) && c.module_of(w) == id {
            let w = choose|w: DepNode| #[trigger]
                seen2.contains(w) && !imports.contains(w) && c.module_of(w) == id;
            assert(seen.contains(w));
        }
    }
}

/// Puts all parts into their modules.
fn fill_modules(
    mut painter: DepGraphPainter,
    all_imports: &KeySet<DepNode>,
    dep_graph: &DepGraph,
    wbg_rooting_deps: &KeySet<DepNode>,
    c: Ghost<Coloring>,
) -> (filled: (Vec<(SplitModuleIdentifier, OutputModuleInfo)>, KeySet<InputFuncId>))
    requires
        painter.wf(),
        painter.remaining().no_duplicates(),
        c@.graph == dep_graph@,
        c@.marks == wbg_rooting_deps@,
        forall|v: DepNode| #[trigger] painter.remaining().contains(v) <==> c@.reached(v),
        forall|v: DepNode| #[trigger]
            painter.scc().contains_key(v) ==> paint(
                painter.start(),
                painter.comps(),
                painter.scc()[v],
            ) == c@.module_of(v),
    ensures
        in_order(filled.0@),
        are_filled(c@, all_imports@, by_id(filled.0@)),
        filled.1@ == shims(c@, all_imports@),
{
    let mut modules: Vec<(SplitModuleIdentifier, OutputModuleInfo)> = Vec::new();
    let mut needs_shim_in_main: KeySet<InputFuncId> = KeySet::new();
    let ghost all = painter.remaining();
    let ghost mut seen: Set<DepNode> = Set::empty();
    let mut finished = false;
    proof {
        assert(all.take(all.len() as int) =~= all);
        assert(by_id(modules@) =~= Map::empty());
        reveal(filled_with);
    }
    while !finished
        invariant
            painter.wf(),
            all.no_duplicates(),
            c@.graph == dep_graph@,
            c@.marks == wbg_rooting_deps@,
            forall|v: DepNode| #[trigger] all.contains(v) <==> c@.reached(v),
            forall|v: DepNode| #[trigger]
                painter.scc().contains_key(v) ==> paint(
                    painter.start(),
                    painter.comps(),
                    painter.scc()[v],
                ) == c@.module_of(v),
            painter.remaining().len() <= all.len(),
            painter.remaining() == all.take(painter.remaining().len() as int),
            forall|v: DepNode| #[trigger]
                seen.contains(v) <==> all.contains(v) && !painter.remaining().contains(v),
            finished ==> painter.remaining().len() == 0,
            in_order(modules@),
            filled_with(c@, all_imports@, seen, by_id(modules@)),
            forall|f: InputFuncId| #[trigger]
                needs_shim_in_main@.contains(f) <==> seen.contains(DepNode::Function(f))
                    && !all_imports@.contains(DepNode::Function(f)) && c@.module_of(
                    DepNode::Function(f),
                ) is Main && c@.touches_mark(DepNode::Function(f)),
        decreases
                painter.remaining().len(),
                (if finished {
                    0int
                } else {
                    1int
                }),
    {
        let ghost todo = painter.remaining();
        let ghost seen0 = seen;
        match painter.next() {
            None => {
                finished = true;
            },
            Some(node) => {
                proof {
                    let left = painter.remaining();
                    assert(left =~= todo.drop_last());
                    assert(left =~= all.take(left.len() as int));
                    assert(todo[left.len() as int] == node);
                    assert(all[left.len() as int] == node);
                    seen = seen.insert(node);
                    assert forall|v: DepNode| #[trigger] seen.contains(v) <==> all.contains(v)
                        && !left.contains(v) by {
                        if v == node {
                            assert(all.contains(v));
                            if left.contains(v) {
                                let i = choose|i: int| 0 <= i < left.len() && left[i] == v;
                                assert(all[i] == all[left.len() as int]);
                            }
                        } else {
                            assert(seen.contains(v) == seen0.contains(v));
                            if todo.contains(v) {
                                let i = choose|i: int| 0 <= i < todo.len() && todo[i] == v;
                                assert(left[i] == v);
                            }
                            if left.contains(v) {
                                let i = choose|i: int| 0 <= i < left.len() && left[i] == v;
                                assert(todo[i] == v);
                            }
                        }
                    }
                }
                if all_imports.contains(&node) {
                    proof {
                        lemma_fill_import(c@, all_imports@, seen0, by_id(modules@), node);
                    }
                    continue;
                }
                let ghost map = by_id(modules@);
                add_symbol(&mut modules, painter.color(), node);
                proof {
                    lemma_fill(c@, all_imports@, seen0, map, node, by_id(modules@));
                }
                if let DepNode::Function(func_id) = node {
                    let in_main = match painter.color() {
                        SplitModuleIdentifier::Main => true,
                        _ => false,
                    };
                    let touches = match dep_graph.get(&node) {
                        Some(deps) => !deps.is_disjoint(wbg_rooting_deps),
                        None => false,
                    };
                    proof {
                        if touches {
                            let w = choose|w: DepNode|
                                dep_graph@[node]@.contains(w) && wbg_rooting_deps@.contains(w);
                            assert(has_edge(c@.graph, node, w));
                        }
                        if c@.touches_mark(node) {
                            let w = choose|w: DepNode| #[trigger]
                                has_edge(c@.graph, node, w) && c@.marks.contains(w);
                            assert(dep_graph@[node]@.contains(w));
                        }
                        assert(touches == c@.touches_mark(node));
                    }
                    if in_main && touches {
                        needs_shim_in_main.insert(func_id);
                    }
                }
            },
        }
    }
    proof {
        assert forall|v: DepNode| #[trigger] seen.contains(v) <==> c@.reached(v) by {
            assert(all.contains(v) <==> c@.reached(v));
        }
        assert(needs_shim_in_main@ =~= shims(c@, all_imports@));
        reveal(filled_with);
        let map = by_id(modules@);
        assert forall|id: ModuleId| #[trigger] map.contains_key(id) <==> is_filled(
            c@,
            all_imports@,
            id,
        ) by {
            if map.contains_key(id) {
                let v = choose|v: DepNode| #[trigger]
                    seen.contains(v) && !all_imports@.contains(v) && c@.module_of(v) == id;
                assert(is_placed(c@, all_imports@, v));
            }
            if is_filled(c@, all_imports@, id) {
                let v = choose|v: DepNode| #[trigger]
                    is_placed(c@, all_imports@, v) && c@.module_of(v) == id;
                assert(seen.contains(v));
            }
        }
        assert forall|id: ModuleId| #[trigger]
            map.contains_key(id) implies map[id].included_symbols@ == contents(
            c@,
            all_imports@,
            id,
        ) by {
            assert(map[id].included_symbols@ =~= contents(c@, all_imports@, id));
        }
    }
    (modules, needs_shim_in_main)
}

/// Collects what a module with the given contents depends on directly.
fn collect_needed(module: &InputModule, dep_graph: &DepGraph, included: &KeySet<DepNode>) -> (
    needed: KeySet<DepNode>)
    ensures
        forall|e: DepNode|
            needed@.contains(e) <==> #[trigger] is_needed(module, dep_graph@, included@, e),
{
    let mut needed: KeySet<DepNode> = KeySet::new();
    needed.insert(module.main_memory());
    needed.insert(module.indirect_function_table());
    let symbols = included.to_vec();
    for i in 0..symbols.len()
        invariant
            forall|e: DepNode| #[trigger]
                needed@.contains(e) <==> e == DepNode::Memory(0) || e == DepNode::Table(
                    module.reloc_info.indirect_table,
                ) || exists|j: int|
                    0 <= j < i && has_edge(dep_graph@, #[trigger] symbols@[j], e),
    {
        let ghost before = needed@;
        if let Some(deps) = dep_graph.get(&symbols[i]) {
            needed.extend(deps);
        }
        proof {
            assert forall|e: DepNode| #[trigger] needed@.contains(e) <==> e == DepNode::Memory(0)
                || e == DepNode::Table(module.reloc_info.indirect_table) || exists|j: int|
                0 <= j < i + 1 && has_edge(dep_graph@, #[trigger] symbols@[j], e) by {
                assert(needed@.contains(e) <==> before.contains(e) || has_edge(
                    dep_graph@,
                    symbols@[i as int],
                    e,
                ));
            }
        }
    }
    proof {
        assert forall|e: DepNode| needed@.contains(e) <==> #[trigger] is_needed(
            module,
            dep_graph@,
            included@,
            e,
        ) by {
            if exists|j: int| 0 <= j < symbols@.len() && has_edge(dep_graph@, #[trigger] symbols@[j], e) {
                let j = choose|j: int|
                    0 <= j < symbols@.len() && has_edge(dep_graph@, #[trigger] symbols@[j], e);
                assert(symbols@.to_set().contains(symbols@[j]));
            }
            if exists|s: DepNode| included@.contains(s) && #[trigger] has_edge(dep_graph@, s, e) {
                let s = choose|s: DepNode|
                    included@.contains(s) && #[trigger] has_edge(dep_graph@, s, e);
                assert(symbols@.to_set().contains(s));
                let j = choose|j: int| 0 <= j < symbols@.len() && symbols@[j] == s;
                assert(has_edge(dep_graph@, symbols@[j], e));
            }
        }
    }
    needed
}

/// Finds what a module with the given contents uses of other modules.
fn find_shared(
    module: &InputModule,
    dep_graph: &DepGraph,
    split_func_map: &KeyMap<InputFuncId, InputFuncId>,
    included: &KeySet<DepNode>,
    split_points: Ghost<Seq<SplitPoint>>,
) -> (shared: KeySet<DepNode>)
    requires
        forall|f: InputFuncId|
            export_for(split_points@, f) == #[trigger] lookup(split_func_map@, f),
    ensures
        shared@ == shared_by(module, dep_graph@, split_points@, included@),
{
    let needed = collect_needed(module, dep_graph, included);
    let list = needed.to_vec();
    let mut shared: KeySet<DepNode> = KeySet::new();
    for i in 0..list.len()
        invariant
            forall|f: InputFuncId|
                export_for(split_points@, f) == #[trigger] lookup(split_func_map@, f),
            forall|d: DepNode| #[trigger]
                shared@.contains(d) <==> !included@.contains(d) && !(d is DataSymbol) && exists|
                    j: int,
                | 0 <= j < i && d == redirected(split_points@, #[trigger] list@[j]),
    {
        let mut dep_to_check = list[i];
        if let DepNode::Function(called_func_id) = dep_to_check {
            assert(export_for(split_points@, called_func_id) == lookup(
                split_func_map@,
                called_func_id,
            ));
            if let Some(mapped_func_id) = split_func_map.get(&called_func_id) {
                dep_to_check = DepNode::Function(*mapped_func_id);
            }
        }
        assert(dep_to_check == redirected(split_points@, list@[i as int]));
        let is_data = match dep_to_check {
            DepNode::DataSymbol(_) => true,
            _ => false,
        };
        if !included.contains(&dep_to_check) && !is_data {
            shared.insert(dep_to_check);
        }
    }
    proof {
        assert forall|d: DepNode| shared@.contains(d) <==> shared_by(
            module,
            dep_graph@,
            split_points@,
            included@,
        ).contains(d) by {
            if exists|j: int|
                0 <= j < list@.len() && d == redirected(split_points@, #[trigger] list@[j]) {
                let j = choose|j: int|
                    0 <= j < list@.len() && d == redirected(split_points@, #[trigger] list@[j]);
                assert(list@.to_set().contains(list@[j]));
                assert(is_needed(module, dep_graph@, included@, list@[j]));
            }
            if exists|e: DepNode| #[trigger]
                is_needed(module, dep_graph@, included@, e) && d == redirected(split_points@, e) {
                let e = choose|e: DepNode| #[trigger]
                    is_needed(module, dep_graph@, included@, e) && d == redirected(
                        split_points@,
                        e,
                    );
                assert(list@.to_set().contains(e));
                let j = choose|j: int| 0 <= j < list@.len() && list@[j] == e;
                assert(d == redirected(split_points@, list@[j]));
            }
        }
        assert(shared@ =~= shared_by(module, dep_graph@, split_points@, included@));
    }
    shared
}

/// The program, split into modules.
#[derive(Debug)]
pub struct SplitProgramInfo {
    /// The modules, in order.
    pub output_modules: Vec<(SplitModuleIdentifier, OutputModuleInfo)>,
    /// The split points.
    pub split_points: Vec<SplitPoint>,
    /// The functions that implement split points.
    pub split_point_exports: KeySet<InputFuncId>,
    /// The parts that some module uses of another one.
    pub shared_deps: KeySet<DepNode>,
    /// The position of the module of each part.
    pub symbol_output_module: KeyMap<DepNode, usize>,
    /// A name that tells the program apart from others, derived from the input.
    pub canary_export_name: String,
    /// The functions in the main module that the host's bindings may replace by an import. Other
    /// modules reach them through a shim, with their original signature.
    pub needs_shim_in_main: KeySet<InputFuncId>,
}

impl Default for SplitProgramInfo {
    fn default() -> (info: Self)
        ensures
            info.output_modules@.len() == 0,
            info.split_points@.len() == 0,
            info.split_point_exports@ == Set::<InputFuncId>::empty(),
            info.shared_deps@ == Set::<DepNode>::empty(),
            info.symbol_output_module@ == Map::<DepNode, usize>::empty(),
            info.canary_export_name@ == Seq::<char>::empty(),
            info.needs_shim_in_main@ == Set::<InputFuncId>::empty(),
    {
        let canary_export_name = String::new();
        assert(canary_export_name@ =~= Seq::<char>::empty());
        SplitProgramInfo {
            output_modules: Vec::new(),
            split_points: Vec::new(),
            split_point_exports: KeySet::new(),
            shared_deps: KeySet::new(),
            symbol_output_module: KeyMap::new(),
            canary_export_name,
            needs_shim_in_main: KeySet::new(),
        }
    }
}

impl SplitProgramInfo {
    /// The name of the additional import of split modules by which it is checked, when they are
    /// linked, that they are loaded from the right main module.
    pub fn canary_export_name(&self) -> (name: &str)
        ensures
            name@ == self.canary_export_name@,
    {
        self.canary_export_name.as_str()
    }
}

/// The modules and their contents: those that something goes into, and the declared ones.
pub open spec fn modules_right(
    module: &InputModule,
    graph: Map<DepNode, KeySet<DepNode>>,
    split_points: Seq<SplitPoint>,
    modules: Seq<(SplitModuleIdentifier, OutputModuleInfo)>,
) -> bool {
    let c = coloring_of(module, graph, split_points);
    let imports = import_nodes(split_points);
    &&& in_order(modules)
    &&& forall|id: ModuleId| #[trigger]
        has_module(modules, id) <==> is_filled(c, imports, id) || (id is Split && is_declared(
            split_points,
            id->Split_0,
        ))
    &&& forall|i: int|
        0 <= i < modules.len() ==> {
            let id = (#[trigger] modules[i]).0@;
            let info = modules[i].1;
            &&& info.included_symbols@ == contents(c, imports, id)
            &&& info.is_empty <==> !is_filled(c, imports, id)
            &&& info.used_shared_deps@ == if info.is_empty {
                Set::empty()
            } else {
                shared_by(module, graph, split_points, contents(c, imports, id))
            }
        }
}

/// Whether some module uses `d` of another one, or a split point is implemented by it.
pub open spec fn is_shared(
    modules: Seq<(SplitModuleIdentifier, OutputModuleInfo)>,
    split_points: Seq<SplitPoint>,
    d: DepNode,
) -> bool {
    export_nodes(split_points).contains(d) || exists|i: int|
        0 <= i < modules.len() && (#[trigger] modules[i]).1.used_shared_deps@.contains(d)
}

/// The position of each part's module.
pub open spec fn positions_right(
    modules: Seq<(SplitModuleIdentifier, OutputModuleInfo)>,
    positions: Map<DepNode, usize>,
) -> bool {
    &&& forall|v: DepNode| #[trigger]
        positions.contains_key(v) <==> exists|i: int|
            0 <= i < modules.len() && (#[trigger] modules[i]).1.included_symbols@.contains(v)
    &&& forall|v: DepNode| #[trigger]
        positions.contains_key(v) ==> positions[v] < modules.len()
            && modules[positions[v] as int].1.included_symbols@.contains(v)
}

/// The name that tells a program apart from others.
pub open spec fn canary_of(version: Seq<u8>, raw: Seq<u8>) -> Seq<char> {
    "__canary_"@ + hexadecimal(DefaultHasher::spec_finish(seq![version, raw]) as nat)
}

/// `info` is the program that `module` is split into.
pub open spec fn splits(
    module: &InputModule,
    graph: Map<DepNode, KeySet<DepNode>>,
    split_points: Seq<SplitPoint>,
    version: Seq<u8>,
    info: SplitProgramInfo,
) -> bool {
    let c = coloring_of(module, graph, split_points);
    &&& modules_right(module, graph, split_points, info.output_modules@)
    &&& info.split_points@ == split_points
    &&& forall|f: InputFuncId| #[trigger]
        info.split_point_exports@.contains(f) <==> export_nodes(split_points).contains(
            DepNode::Function(f),
        )
    &&& forall|d: DepNode| #[trigger]
        info.shared_deps@.contains(d) <==> is_shared(info.output_modules@, split_points, d)
    &&& positions_right(info.output_modules@, info.symbol_output_module@)
    &&& info.canary_export_name@ == canary_of(version, module.raw@)
    &&& info.needs_shim_in_main@ == shims(c, import_nodes(split_points))
}

/// Finds what each module uses of the others.
fn share_modules(
    module: &InputModule,
    dep_graph: &DepGraph,
    split_func_map: &KeyMap<InputFuncId, InputFuncId>,
    modules: Vec<(SplitModuleIdentifier, OutputModuleInfo)>,
    split_points: Ghost<Seq<SplitPoint>>,
) -> (shared: (Vec<(SplitModuleIdentifier, OutputModuleInfo)>, KeySet<DepNode>))
    requires
        forall|f: InputFuncId|
            export_for(split_points@, f) == #[trigger] lookup(split_func_map@, f),
    ensures
        shared.0@.len() == modules@.len(),
        forall|i: int|
            0 <= i < modules@.len() ==> {
                &&& (#[trigger] shared.0@[i]).0 == modules@[i].0
                &&& shared.0@[i].1.included_symbols == modules@[i].1.included_symbols
                &&& shared.0@[i].1.used_shared_deps@ == shared_by(
                    module,
                    dep_graph@,
                    split_points@,
                    modules@[i].1.included_symbols@,
                )
                &&& !shared.0@[i].1.is_empty
            },
        forall|d: DepNode| #[trigger]
            shared.1@.contains(d) <==> exists|i: int|
                0 <= i < modules@.len() && (#[trigger] shared.0@[i]).1.used_shared_deps@.contains(
                    d,
                ),
{
    let ghost all = modules@;
    let mut result: Vec<(SplitModuleIdentifier, OutputModuleInfo)> = Vec::new();
    let mut shared_deps: KeySet<DepNode> = KeySet::new();
    for entry in it: modules
        invariant
            it.seq() == all,
            forall|f: InputFuncId|
                export_for(split_points@, f) == #[trigger] lookup(split_func_map@, f),
            result@.len() == it.index(),
            forall|i: int|
                0 <= i < result@.len() ==> {
                    &&& (#[trigger] result@[i]).0 == all[i].0
                    &&& result@[i].1.included_symbols == all[i].1.included_symbols
                    &&& result@[i].1.used_shared_deps@ == shared_by(
                        module,
                        dep_graph@,
                        split_points@,
                        all[i].1.included_symbols@,
                    )
                    &&& !result@[i].1.is_empty
                },
            forall|d: DepNode| #[trigger]
                shared_deps@.contains(d) <==> exists|i: int|
                    0 <= i < result@.len() && (
                    #[trigger] result@[i]).1.used_shared_deps@.contains(d),
    {
        let ghost before = result@;
        let ghost deps0 = shared_deps@;
        let (id, info) = entry;
        let used = find_shared(
            module,
            dep_graph,
            split_func_map,
            &info.included_symbols,
            split_points,
        );
        shared_deps.extend(&used);
        result.push(
            (
                id,
                OutputModuleInfo {
                    included_symbols: info.included_symbols,
                    used_shared_deps: used,
                    is_empty: false,
                },
            ),
        );
        proof {
            assert forall|d: DepNode| #[trigger] shared_deps@.contains(d) <==> exists|i: int|
                0 <= i < result@.len() && (#[trigger] result@[i]).1.used_shared_deps@.contains(
                    d,
                ) by {
                if deps0.contains(d) {
                    let i = choose|i: int|
                        0 <= i < before.len() && (#[trigger] before[i]).1.used_shared_deps@.contains(
                            d,
                        );
                    assert(result@[i].1.used_shared_deps@.contains(d));
                }
                if used@.contains(d) {
                    assert(result@[before.len() as int].1.used_shared_deps@.contains(d));
                }
                if exists|i: int|
                    0 <= i < result@.len() && (#[trigger] result@[i]).1.used_shared_deps@.contains(
                        d,
                    ) {
                    let i = choose|i: int|
                        0 <= i < result@.len() && (
                        #[trigger] result@[i]).1.used_shared_deps@.contains(d);
                    if i < before.len() {
                        assert(before[i].1.used_shared_deps@.contains(d));
                    }
                }
            }
        }
    }
    (result, shared_deps)
}

/// Notes the position of each part's module.
fn locate_symbols(modules: &Vec<(SplitModuleIdentifier, OutputModuleInfo)>) -> (positions: KeyMap<
    DepNode,
    usize,
>)
    ensures
        positions_right(modules@, positions@),
{
    let mut positions: KeyMap<DepNode, usize> = KeyMap::new();
    for k in 0..modules.len()
        invariant
            positions_right(modules@.take(k as int), positions@),
    {
        let ghost before = positions@;
        let ghost seen = modules@.take(k as int);
        let ghost more = modules@.take(k + 1);
        let symbols = modules[k].1.included_symbols.to_vec();
        for j in 0..symbols.len()
            invariant
                0 <= k < modules@.len(),
                forall|v: DepNode| #[trigger]
                    positions@.contains_key(v) <==> before.contains_key(v) || exists|i: int|
                        0 <= i < j && #[trigger] symbols@[i] == v,
                forall|v: DepNode| #[trigger]
                    positions@.contains_key(v) ==> if exists|i: int|
                        0 <= i < j && #[trigger] symbols@[i] == v {
                        positions@[v] == k
                    } else {
                        positions@[v] == before[v]
                    },
        {
            positions.insert(symbols[j], k);
        }
        proof {
            let own = modules@[k as int].1.included_symbols@;
            assert(more[k as int] == modules@[k as int]);
            assert forall|v: DepNode| own.contains(v) <==> exists|i: int|
                0 <= i < symbols@.len() && #[trigger] symbols@[i] == v by {
                assert(own.contains(v) <==> symbols@.to_set().contains(v));
            }
            assert forall|v: DepNode| #[trigger] positions@.contains_key(v) <==> exists|i: int|
                0 <= i < more.len() && (#[trigger] more[i]).1.included_symbols@.contains(v) by {
                if before.contains_key(v) {
                    let i = choose|i: int|
                        0 <= i < seen.len() && (#[trigger] seen[i]).1.included_symbols@.contains(v);
                    assert(more[i].1.included_symbols@.contains(v));
                }
                if own.contains(v) {
                    assert(more[k as int].1.included_symbols@.contains(v));
                }
                if exists|i: int|
                    0 <= i < more.len() && (#[trigger] more[i]).1.included_symbols@.contains(v) {
                    let i = choose|i: int|
                        0 <= i < more.len() && (#[trigger] more[i]).1.included_symbols@.contains(v);
                    if i < k {
                        assert(seen[i].1.included_symbols@.contains(v));
                    }
                }
            }
            assert forall|v: DepNode| #[trigger] positions@.contains_key(v) implies positions@[v]
                < more.len() && more[positions@[v] as int].1.included_symbols@.contains(v) by {
                if !own.contains(v) {
                    assert(before.contains_key(v));
                    assert(seen[before[v] as int].1.included_symbols@.contains(v));
                    assert(more[before[v] as int] == seen[before[v] as int]);
                }
            }
        }
    }
    assert(modules@.take(modules@.len() as int) =~= modules@);
    positions
}

/// Derives the name that tells a program apart from others.
fn canary_name(version: &str, raw: &[u8]) -> (name: String)
    ensures
        name@ == canary_of(version.spec_bytes(), raw@),
{
    let mut hasher = DefaultHasher::new();
    hasher.write(version.as_bytes());
    hasher.write(raw);
    assert(hasher@ =~= seq![version.spec_bytes(), raw@]);
    let hash: u64 = hasher.finish();
    "__canary_".to_owned().concat(to_hexadecimal(hash).as_str())
}

/// What a module has to hold.
spec fn info_right(
    module: &InputModule,
    graph: Map<DepNode, KeySet<DepNode>>,
    split_points: Seq<SplitPoint>,
    id: ModuleId,
    info: OutputModuleInfo,
) -> bool {
    let c = coloring_of(module, graph, split_points);
    let imports = import_nodes(split_points);
    &&& info.included_symbols@ == contents(c, imports, id)
    &&& info.is_empty <==> !is_filled(c, imports, id)
    &&& info.used_shared_deps@ == if info.is_empty {
        Set::empty()
    } else {
        shared_by(module, graph, split_points, contents(c, imports, id))
    }
}

/// Whether some module uses `d` of another one.
spec fn used_by_some(map: Map<ModuleId, OutputModuleInfo>, d: DepNode) -> bool {
    exists|id: ModuleId| #[trigger]
        map.contains_key(id) && map[id].used_shared_deps@.contains(d)
}

/// What some module uses, by position and by identifier.
proof fn lemma_used_by_some(modules: Seq<(SplitModuleIdentifier, OutputModuleInfo)>, d: DepNode)
    requires
        in_order(modules),
    ensures
        used_by_some(by_id(modules), d) <==> exists|i: int|
            0 <= i < modules.len() && (#[trigger] modules[i]).1.used_shared_deps@.contains(d),
{
    lemma_by_id(modules);
    let map = by_id(modules);
    if used_by_some(map, d) {
        let id = choose|id: ModuleId| #[trigger]
            map.contains_key(id) && map[id].used_shared_deps@.contains(d);
        let i = position(modules, id);
        assert(has_module(modules, id));
        assert(0 <= i < modules.len() && modules[i].0@ == id);
        assert(modules[i].1.used_shared_deps@.contains(d));
    }
    if exists|i: int|
        0 <= i < modules.len() && (#[trigger] modules[i]).1.used_shared_deps@.contains(d) {
        let i = choose|i: int|
            0 <= i < modules.len() && (#[trigger] modules[i]).1.used_shared_deps@.contains(d);
        assert(map.contains_key(modules[i].0@));
    }
}

/// Adds the declared modules that nothing goes into.
///
/// A declared module can end up empty, for example where all that it needs is shared. It is still
/// kept, because its loader must exist.
fn declare_modules(
    modules: &mut Vec<(SplitModuleIdentifier, OutputModuleInfo)>,
    groups: &Vec<(String, Vec<&SplitPoint>)>,
    module: &InputModule,
    dep_graph: &DepGraph,
    split_points: Ghost<Seq<SplitPoint>>,
)
    requires
        groups_points(groups@, split_points@),
        in_order(old(modules)@),
        forall|id: ModuleId| #[trigger]
            by_id(old(modules)@).contains_key(id) <==> is_filled(
                coloring_of(module, dep_graph@, split_points@),
                import_nodes(split_points@),
                id,
            ),
        forall|id: ModuleId| #[trigger]
            by_id(old(modules)@).contains_key(id) ==> info_right(
                module,
                dep_graph@,
                split_points@,
                id,
                by_id(old(modules)@)[id],
            ),
    ensures
        modules_right(module, dep_graph@, split_points@, final(modules)@),
        forall|d: DepNode| #[trigger]
            used_by_some(by_id(final(modules)@), d) <==> used_by_some(by_id(old(modules)@), d),
{
    let ghost c = coloring_of(module, dep_graph@, split_points@);
    let ghost imports = import_nodes(split_points@);
    let ghost start = by_id(modules@);
    for k in 0..groups.len()
        invariant
            start == by_id(old(modules)@),
            c == coloring_of(module, dep_graph@, split_points@),
            imports == import_nodes(split_points@),
            in_order(modules@),
            forall|id: ModuleId| #[trigger] start.contains_key(id) <==> is_filled(c, imports, id),
            forall|id: ModuleId| #[trigger]
                by_id(modules@).contains_key(id) <==> is_filled(c, imports, id) || exists|j: int|
                    0 <= j < k && id == ModuleId::Split((#[trigger] groups@[j]).0@),
            forall|id: ModuleId| #[trigger]
                by_id(modules@).contains_key(id) ==> info_right(
                    module,
                    dep_graph@,
                    split_points@,
                    id,
                    by_id(modules@)[id],
                ),
            forall|d: DepNode| #[trigger]
                used_by_some(by_id(modules@), d) <==> used_by_some(start, d),
    {
        let ghost before = by_id(modules@);
        let ghost name = groups@[k as int].0@;
        let ghost new = ModuleId::Split(name);
        let ghost had = has_module(modules@, new);
        add_declared(modules, SplitModuleIdentifier::Split(groups[k].0.clone()));
        proof {
            let after = by_id(modules@);
            assert(before.contains_key(new) == had);
            if !had {
                assert(after == before.insert(new, after[new]));
                assert(!is_filled(c, imports, new));
                assert(contents(c, imports, new) =~= Set::empty()) by {
                    assert forall|v: DepNode| !contents(c, imports, new).contains(v) by {
                        if contents(c, imports, new).contains(v) {
                            assert(is_placed(c, imports, v));
                        }
                    }
                }
                assert(info_right(module, dep_graph@, split_points@, new, after[new]));
                assert forall|d: DepNode| #[trigger] used_by_some(after, d) <==> used_by_some(
                    start,
                    d,
                ) by {
                    assert(used_by_some(before, d) <==> used_by_some(start, d));
                    if used_by_some(after, d) {
                        let id = choose|id: ModuleId| #[trigger]
                            after.contains_key(id) && after[id].used_shared_deps@.contains(d);
                        assert(id != new);
                        assert(before.contains_key(id));
                    }
                    if used_by_some(before, d) {
                        let id = choose|id: ModuleId| #[trigger]
                            before.contains_key(id) && before[id].used_shared_deps@.contains(d);
                        assert(after.contains_key(id) && after[id] == before[id]);
                    }
                }
            }
            assert forall|id: ModuleId| #[trigger] after.contains_key(id) <==> is_filled(
                c,
                imports,
                id,
            ) || exists|j: int|
                0 <= j < k + 1 && id == ModuleId::Split((#[trigger] groups@[j]).0@) by {
                if id == new {
                    assert(id == ModuleId::Split(groups@[k as int].0@));
                }
                assert(after.contains_key(id) <==> before.contains_key(id) || id == new);
            }
            assert forall|id: ModuleId| #[trigger] after.contains_key(id) implies info_right(
                module,
                dep_graph@,
                split_points@,
                id,
                after[id],
            ) by {
                if !(id == new && !had) {
                    assert(before.contains_key(id));
                    assert(after[id] == before[id]);
                }
            }
        }
    }
    proof {
        lemma_by_id(modules@);
        let map = by_id(modules@);
        assert forall|id: ModuleId| #[trigger] has_module(modules@, id) <==> is_filled(
            c,
            imports,
            id,
        ) || (id is Split && is_declared(split_points@, id->Split_0)) by {
            assert(map.contains_key(id) <==> has_module(modules@, id));
            if id is Split && is_declared(split_points@, id->Split_0) {
                let j = choose|j: int|
                    0 <= j < groups@.len() && (#[trigger] groups@[j]).0@ == id->Split_0;
                assert(id == ModuleId::Split(groups@[j].0@));
            }
            if exists|j: int|
                0 <= j < groups@.len() && id == ModuleId::Split((#[trigger] groups@[j]).0@) {
                let j = choose|j: int|
                    0 <= j < groups@.len() && id == ModuleId::Split((#[trigger] groups@[j]).0@);
                assert(groups@[j].0@ == id->Split_0);
                assert(is_declared(split_points@, id->Split_0));
            }
        }
        assert forall|i: int| 0 <= i < modules@.len() implies info_right(
            module,
            dep_graph@,
            split_points@,
            (#[trigger] modules@[i]).0@,
            modules@[i].1,
        ) by {
            assert(map.contains_key(modules@[i].0@));
        }
    }
}

/// Finds the modules of a program, and what goes into them.
///
/// What the main module needs goes there, and so does what depends on a cast description. What
/// one declared module needs goes into that module, and what several declared modules need goes
/// into a module that they share.
pub fn compute_split_modules(
    module: &InputModule,
    dep_graph: &DepGraph,
    split_points: Vec<SplitPoint>,
    version: &str,
) -> (info: Result<SplitProgramInfo, SplitError>)
    requires
        casts_have_index(module),
    ensures
        info matches Ok(info) && splits(
            module,
            dep_graph@,
            split_points@,
            version.spec_bytes(),
            info,
        ),
{
    let ghost points = split_points@;
    let groups = get_split_points_by_module(split_points.as_slice());
    let split_func_map = map_split_funcs(split_points.as_slice());
    let all_imports = collect_imports(split_points.as_slice());
    let wbg_rooting_deps = wbg_rooting_funs(dep_graph, module);
    let ghost c = coloring_of(module, dep_graph@, points);
    let painter = explore_modules(
        module,
        dep_graph,
        &wbg_rooting_deps,
        split_points.as_slice(),
        &groups,
    );
    let (filled, needs_shim_in_main) = fill_modules(
        painter,
        &all_imports,
        dep_graph,
        &wbg_rooting_deps,
        Ghost(c),
    );
    let ghost filled_view = filled@;
    let (mut output_modules, mut shared_deps) = share_modules(
        module,
        dep_graph,
        &split_func_map,
        filled,
        Ghost(points),
    );
    let ghost shared_view = output_modules@;
    proof {
        assert(ids(shared_view) =~= ids(filled_view));
        assert(in_order(shared_view)) by {
            assert forall|i: int| 0 <= i < shared_view.len() implies (
            #[trigger] shared_view[i]).0.wf() by {
                assert(filled_view[i].0.wf());
            }
        }
        lemma_by_id(filled_view);
        lemma_by_id(shared_view);
        assert forall|id: ModuleId| #[trigger] by_id(shared_view).contains_key(id) <==> is_filled(
            c,
            import_nodes(points),
            id,
        ) by {
            assert(has_module(shared_view, id) <==> has_module(filled_view, id)) by {
                if has_module(shared_view, id) {
                    let i = position(shared_view, id);
                    assert(filled_view[i].0@ == id);
                }
                if has_module(filled_view, id) {
                    let i = position(filled_view, id);
                    assert(shared_view[i].0@ == id);
                }
            }
            assert(by_id(filled_view).contains_key(id) <==> has_module(filled_view, id));
        }
        assert forall|id: ModuleId| #[trigger]
            by_id(shared_view).contains_key(id) implies info_right(
            module,
            dep_graph@,
            points,
            id,
            by_id(shared_view)[id],
        ) by {
            let i = position(shared_view, id);
            assert(has_module(shared_view, id));
            assert(0 <= i < shared_view.len() && shared_view[i].0@ == id);
            assert(filled_view[i].0@ == id);
            assert(by_id(filled_view).contains_key(id));
        }
    }
    declare_modules(&mut output_modules, &groups, module, dep_graph, Ghost(points));
    let ghost shared0 = shared_deps@;
    let mut split_point_exports: KeySet<InputFuncId> = KeySet::new();
    for k in 0..split_points.len()
        invariant
            split_points@ == points,
            forall|d: DepNode| #[trigger]
                shared_deps@.contains(d) <==> shared0.contains(d) || exists|i: int|
                    0 <= i < k && d == DepNode::Function((#[trigger] points[i]).export_func),
            forall|f: InputFuncId| #[trigger]
                split_point_exports@.contains(f) <==> exists|i: int|
                    0 <= i < k && DepNode::Function(f) == DepNode::Function(
                        (#[trigger] points[i]).export_func,
                    ),
    {
        shared_deps.insert(DepNode::Function(split_points[k].export_func));
        split_point_exports.insert(split_points[k].export_func);
    }
    let symbol_output_module = locate_symbols(&output_modules);
    let canary_export_name = canary_name(version, module.raw.as_slice());
    proof {
        assert forall|d: DepNode| #[trigger] shared_deps@.contains(d) <==> is_shared(
            output_modules@,
            points,
            d,
        ) by {
            lemma_used_by_some(output_modules@, d);
            lemma_used_by_some(shared_view, d);
            assert(used_by_some(by_id(output_modules@), d) <==> used_by_some(
                by_id(shared_view),
                d,
            ));
        }
    }
    Ok(
        SplitProgramInfo {
            output_modules,
            split_points,
            split_point_exports,
            shared_deps,
            symbol_output_module,
            canary_export_name,
            needs_shim_in_main,
        },
    )
}

} // verus!
