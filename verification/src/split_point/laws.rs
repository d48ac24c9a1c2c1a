//! What holds of every program that is split.
use crate::dep_graph::DepNode;
use crate::graph_utils::reach::{lemma_reach_refl, lemma_reach_step, lemma_reach_trans};
use crate::graph_utils::settled::graph_edges;
use crate::graph_utils::tarjan_scc::has_edge;
use crate::js::is_chunk_of;
use crate::keyed::KeySet;
use crate::names::listing;
use crate::order::{increasing, lemma_names_total, names_less};
use crate::read::InputModule;
use crate::split_point::coloring::Coloring;
use crate::split_point::identifier::{
    join, lemma_module_for_many, lemma_module_for_one, lemma_modules_total, module_for,
    modules_less, ModuleId, SplitModuleIdentifier,
};
use crate::split_point::output::{has_module, ids};
use crate::split_point::program::{
    coloring_of, contents, export_for, import_nodes, is_declared, is_filled, is_needed, is_placed,
    redirected, shared_by, splits, SplitProgramInfo,
};
use crate::split_point::roots::{cast_nodes, main_roots, split_nodes, SplitPoint};
use vstd::prelude::*;

verus! {

/// Whether the module at a position holds a part.
pub open spec fn holds(info: SplitProgramInfo, i: int, v: DepNode) -> bool {
    0 <= i < info.output_modules@.len() && info.output_modules@[i].1.included_symbols@.contains(v)
}

/// The identifier of the module at a position.
pub open spec fn id_at(info: SplitProgramInfo, i: int) -> ModuleId {
    info.output_modules@[i].0@
}

/// A module holds what belongs into it.
pub(crate) proof fn lemma_holds(
    module: &InputModule,
    graph: Map<DepNode, KeySet<DepNode>>,
    points: Seq<SplitPoint>,
    version: Seq<u8>,
    info: SplitProgramInfo,
    i: int,
    v: DepNode,
)
    requires
        splits(module, graph, points, version, info),
        0 <= i < info.output_modules@.len(),
    ensures
        holds(info, i, v) <==> is_placed(
            coloring_of(module, graph, points),
            import_nodes(points),
            v,
        ) && coloring_of(module, graph, points).module_of(v) == id_at(info, i),
{
    let c = coloring_of(module, graph, points);
    assert(info.output_modules@[i].1.included_symbols@ == contents(
        c,
        import_nodes(points),
        info.output_modules@[i].0@,
    ));
}

/// No part is in two modules.
pub proof fn lemma_placed_once(
    module: &InputModule,
    graph: Map<DepNode, KeySet<DepNode>>,
    points: Seq<SplitPoint>,
    version: Seq<u8>,
    info: SplitProgramInfo,
    i: int,
    j: int,
    v: DepNode,
)
    requires
        splits(module, graph, points, version, info),
        holds(info, i, v),
        holds(info, j, v),
    ensures
        i == j,
        info.symbol_output_module@.contains_key(v),
        info.symbol_output_module@[v] == i,
{
    lemma_holds(module, graph, points, version, info, i, v);
    lemma_holds(module, graph, points, version, info, j, v);
    lemma_modules_total();
    let less = modules_less();
    let all = ids(info.output_modules@);
    let id = id_at(info, i);
    assert(!less(id, id));
    if i < j {
        assert(less(all[i], all[j]));
    } else if j < i {
        assert(less(all[j], all[i]));
    }
    assert(info.output_modules@[i].1.included_symbols@.contains(v));
    assert(info.symbol_output_module@.contains_key(v));
    let k = info.symbol_output_module@[v] as int;
    assert(holds(info, k, v));
    lemma_holds(module, graph, points, version, info, k, v);
    if i < k {
        assert(less(all[i], all[k]));
    } else if k < i {
        assert(less(all[k], all[i]));
    }
}

/// Everything that some module needs is in a module, unless a split point replaces it.
pub proof fn lemma_nothing_lost(
    module: &InputModule,
    graph: Map<DepNode, KeySet<DepNode>>,
    points: Seq<SplitPoint>,
    version: Seq<u8>,
    info: SplitProgramInfo,
    v: DepNode,
)
    requires
        splits(module, graph, points, version, info),
        coloring_of(module, graph, points).reached(v),
        !import_nodes(points).contains(v),
    ensures
        exists|i: int| #[trigger] holds(info, i, v),
{
    let c = coloring_of(module, graph, points);
    let id = c.module_of(v);
    assert(is_placed(c, import_nodes(points), v));
    assert(is_filled(c, import_nodes(points), id));
    assert(has_module(info.output_modules@, id));
    let i = choose|i: int|
        0 <= i < info.output_modules@.len() && (#[trigger] info.output_modules@[i]).0@ == id;
    lemma_holds(module, graph, points, version, info, i, v);
    assert(holds(info, i, v));
}

/// What a part that is needed depends on is needed.
proof fn lemma_reached(c: Coloring, v: DepNode, w: DepNode)
    requires
        c.reached(v),
        c.depends(v, w),
    ensures
        c.reached(w),
{
    let r = choose|r: DepNode| c.is_root(r) && #[trigger] c.depends(r, v);
    lemma_reach_trans(graph_edges(c.graph), r, v, w);
    assert(c.depends(r, w));
}

/// The implementation of a split point is something that its declared module starts from.
proof fn lemma_export_root(points: Seq<SplitPoint>, f: usize)
    requires
        export_for(points, f) is Some,
    ensures
        exists|i: int|
            0 <= i < points.len() && (#[trigger] points[i]).import_func == f
                && points[i].export_func == export_for(points, f)->0,
    decreases points.len(),
{
    if points.last().import_func == f {
        assert(points[points.len() - 1].import_func == f);
    } else {
        lemma_export_root(points.drop_last(), f);
        let i = choose|i: int|
            0 <= i < points.drop_last().len() && (
            #[trigger] points.drop_last()[i]).import_func == f && points.drop_last()[i].export_func
                == export_for(points, f)->0;
        assert(points[i].import_func == f);
    }
}

/// A declared module starts from the implementations of its split points.
proof fn lemma_split_root(
    module: &InputModule,
    graph: Map<DepNode, KeySet<DepNode>>,
    points: Seq<SplitPoint>,
    i: int,
)
    requires
        0 <= i < points.len(),
    ensures
        coloring_of(module, graph, points).needed_by(
            DepNode::Function(points[i].export_func),
            points[i].module_name@,
        ),
        coloring_of(module, graph, points).reached(DepNode::Function(points[i].export_func)),
{
    let c = coloring_of(module, graph, points);
    let v = DepNode::Function(points[i].export_func);
    let name = points[i].module_name@;
    assert(points[i].module_name@ == name);
    assert(c.split_roots.contains((name, v)));
    lemma_reach_refl(graph_edges(graph), v);
    assert(c.is_root(v));
    assert(c.depends(v, v));
}

/// A dependency on an import that split points replace is redirected to something that is needed.
proof fn lemma_redirected_reached(
    module: &InputModule,
    graph: Map<DepNode, KeySet<DepNode>>,
    points: Seq<SplitPoint>,
    e: DepNode,
)
    requires
        coloring_of(module, graph, points).reached(e),
    ensures
        coloring_of(module, graph, points).reached(redirected(points, e)),
{
    if redirected(points, e) != e {
        let f = e->Function_0;
        lemma_export_root(points, f);
        let i = choose|i: int|
            0 <= i < points.len() && (#[trigger] points[i]).import_func == f
                && points[i].export_func == export_for(points, f)->0;
        lemma_split_root(module, graph, points, i);
    }
}

/// Whatever a part of a module directly depends on is there when it is used.
///
/// What it depends on, after calls of split points were redirected to their implementations, is in
/// some module. If that is another one, it is listed among what the module uses of other modules,
/// unless it is data, which need no sharing. (This does not speak of implementations of split
/// points that are themselves imports of split points.)
pub proof fn lemma_dependencies_available(
    module: &InputModule,
    graph: Map<DepNode, KeySet<DepNode>>,
    points: Seq<SplitPoint>,
    version: Seq<u8>,
    info: SplitProgramInfo,
    i: int,
    s: DepNode,
    e: DepNode,
)
    requires
        splits(module, graph, points, version, info),
        holds(info, i, s),
        has_edge(graph, s, e),
        !import_nodes(points).contains(redirected(points, e)),
    ensures
        exists|j: int| #[trigger] holds(info, j, redirected(points, e)),
        holds(info, i, redirected(points, e)) || redirected(points, e) is DataSymbol
            || info.output_modules@[i].1.used_shared_deps@.contains(redirected(points, e)),
{
    let c = coloring_of(module, graph, points);
    let imports = import_nodes(points);
    let d = redirected(points, e);
    let edges = graph_edges(graph);
    lemma_holds(module, graph, points, version, info, i, s);
    assert(edges(s, e));
    lemma_reach_step(edges, s, e);
    lemma_reached(c, s, e);
    lemma_redirected_reached(module, graph, points, e);
    lemma_nothing_lost(module, graph, points, version, info, d);
    let entry = info.output_modules@[i];
    let included = contents(c, imports, entry.0@);
    assert(entry.1.included_symbols@ == included);
    assert(included.contains(s));
    assert(is_needed(module, graph, included, e));
    assert(is_filled(c, imports, entry.0@)) by {
        assert(is_placed(c, imports, s));
    }
    assert(entry.1.used_shared_deps@ == shared_by(module, graph, points, included));
    if !included.contains(d) && !(d is DataSymbol) {
        assert(shared_by(module, graph, points, included).contains(d));
    }
}

/// What a module uses of other modules is in another module.
///
/// The exceptions are the table for indirect calls, which may be missing, and implementations of
/// split points that are themselves imports of split points.
pub proof fn lemma_shared_elsewhere(
    module: &InputModule,
    graph: Map<DepNode, KeySet<DepNode>>,
    points: Seq<SplitPoint>,
    version: Seq<u8>,
    info: SplitProgramInfo,
    i: int,
    d: DepNode,
)
    requires
        splits(module, graph, points, version, info),
        0 <= i < info.output_modules@.len(),
        info.output_modules@[i].1.used_shared_deps@.contains(d),
        !import_nodes(points).contains(d),
        d != DepNode::Table(module.reloc_info.indirect_table),
    ensures
        exists|j: int| j != i && #[trigger] holds(info, j, d),
        info.shared_deps@.contains(d),
{
    let c = coloring_of(module, graph, points);
    let imports = import_nodes(points);
    let edges = graph_edges(graph);
    let entry = info.output_modules@[i];
    let included = contents(c, imports, entry.0@);
    assert(entry.1.included_symbols@ == included);
    assert(!entry.1.is_empty);
    assert(shared_by(module, graph, points, included).contains(d));
    let e = choose|e: DepNode| #[trigger]
        is_needed(module, graph, included, e) && d == redirected(points, e);
    if e == DepNode::Memory(0) {
        lemma_memory_in_main(module, graph, points);
    } else {
        assert(e != DepNode::Table(module.reloc_info.indirect_table));
        let s = choose|s: DepNode| included.contains(s) && #[trigger] has_edge(graph, s, e);
        assert(edges(s, e));
        lemma_reach_step(edges, s, e);
        lemma_reached(c, s, e);
    }
    lemma_redirected_reached(module, graph, points, e);
    lemma_nothing_lost(module, graph, points, version, info, d);
    let j = choose|j: int| #[trigger] holds(info, j, d);
    assert(j != i && holds(info, j, d));
    assert(info.output_modules@[i].1.used_shared_deps@.contains(d));
}

/// The main memory belongs into the main module.
proof fn lemma_memory_in_main(
    module: &InputModule,
    graph: Map<DepNode, KeySet<DepNode>>,
    points: Seq<SplitPoint>,
)
    ensures
        coloring_of(module, graph, points).reached(DepNode::Memory(0)),
        coloring_of(module, graph, points).in_main(DepNode::Memory(0)),
        !import_nodes(points).contains(DepNode::Memory(0)),
{
    let c = coloring_of(module, graph, points);
    let memory = DepNode::Memory(0);
    assert(c.main_roots.contains(memory));
    lemma_reach_refl(graph_edges(graph), memory);
    assert(c.is_root(memory));
    assert(c.depends(memory, memory));
}

/// There is a main module.
pub proof fn lemma_main_exists(
    module: &InputModule,
    graph: Map<DepNode, KeySet<DepNode>>,
    points: Seq<SplitPoint>,
    version: Seq<u8>,
    info: SplitProgramInfo,
)
    requires
        splits(module, graph, points, version, info),
    ensures
        has_module(info.output_modules@, ModuleId::Main),
{
    let c = coloring_of(module, graph, points);
    lemma_memory_in_main(module, graph, points);
    assert(is_placed(c, import_nodes(points), DepNode::Memory(0)));
    assert(is_filled(c, import_nodes(points), ModuleId::Main));
}

/// What the main module depends on is in the main module.
pub proof fn lemma_main_closed(
    module: &InputModule,
    graph: Map<DepNode, KeySet<DepNode>>,
    points: Seq<SplitPoint>,
    version: Seq<u8>,
    info: SplitProgramInfo,
    i: int,
    s: DepNode,
    e: DepNode,
)
    requires
        splits(module, graph, points, version, info),
        holds(info, i, s),
        id_at(info, i) is Main,
        has_edge(graph, s, e),
        !import_nodes(points).contains(e),
    ensures
        holds(info, i, e),
{
    let c = coloring_of(module, graph, points);
    let edges = graph_edges(graph);
    lemma_holds(module, graph, points, version, info, i, s);
    lemma_holds(module, graph, points, version, info, i, e);
    assert(edges(s, e));
    lemma_reach_step(edges, s, e);
    lemma_reached(c, s, e);
    assert(c.in_main(s)) by {
        if !c.in_main(s) {
            let names = Set::new(|name: Seq<char>| c.needed_by(s, name));
            assert(!(module_for(names) is Main));
        }
    }
    let u = choose|u: DepNode|
        (c.main_roots.contains(u) || (c.reached(u) && c.touches_mark(u))) && #[trigger] c.depends(
            u,
            s,
        );
    lemma_reach_trans(edges, u, s, e);
    assert(c.depends(u, e));
    assert(c.in_main(e));
}

/// Puts a name at its place in a list.
proof fn lemma_insert_name(s: Seq<Seq<char>>, x: Seq<char>) -> (t: Seq<Seq<char>>)
    requires
        increasing(names_less(), s),
        !s.contains(x),
    ensures
        increasing(names_less(), t),
        t.to_set() == s.to_set().insert(x),
    decreases s.len(),
{
    let less = names_less();
    lemma_names_total();
    if s.len() == 0 {
        let t = seq![x];
        assert forall|y: Seq<char>| t.to_set().contains(y) <==> s.to_set().insert(x).contains(y) by {
            assert(t[0] == x);
        }
        assert(t.to_set() =~= s.to_set().insert(x));
        t
    } else {
        let last = s.last();
        assert(s[s.len() - 1] == last);
        assert(s.contains(last));
        assert(less(last, x) || less(x, last));
        if less(last, x) {
            let t = s.push(x);
            assert forall|i: int, j: int| 0 <= i < j < t.len() implies less(
                #[trigger] t[i],
                #[trigger] t[j],
            ) by {
                if j < s.len() {
                    assert(less(s[i], s[j]));
                } else if i < s.len() - 1 {
                    assert(less(s[i], s[s.len() - 1]));
                }
            }
            assert forall|y: Seq<char>| t.to_set().contains(y) <==> s.to_set().insert(x).contains(
                y,
            ) by {
                lemma_push_contains(s, x, y);
            }
            assert(t.to_set() =~= s.to_set().insert(x));
            t
        } else {
            let rest = s.drop_last();
            assert forall|i: int, j: int| 0 <= i < j < rest.len() implies less(
                #[trigger] rest[i],
                #[trigger] rest[j],
            ) by {
                assert(less(s[i], s[j]));
            }
            assert(rest.push(last) =~= s);
            if rest.contains(x) {
                lemma_push_contains(rest, last, x);
            }
            let u = lemma_insert_name(rest, x);
            let t = u.push(last);
            assert forall|y: Seq<char>| u.contains(y) implies less(y, last) by {
                assert(u.to_set().contains(y));
                if y != x {
                    assert(rest.to_set().contains(y));
                    let k = choose|k: int| 0 <= k < rest.len() && rest[k] == y;
                    assert(less(s[k], s[s.len() - 1]));
                }
            }
            assert forall|i: int, j: int| 0 <= i < j < t.len() implies less(
                #[trigger] t[i],
                #[trigger] t[j],
            ) by {
                if j < u.len() {
                    assert(less(u[i], u[j]));
                } else {
                    assert(u.contains(u[i]));
                }
            }
            assert forall|y: Seq<char>| t.to_set().contains(y) <==> s.to_set().insert(x).contains(
                y,
            ) by {
                lemma_push_contains(u, last, y);
                lemma_push_contains(rest, last, y);
                assert(u.to_set().contains(y) <==> rest.to_set().insert(x).contains(y));
            }
            assert(t.to_set() =~= s.to_set().insert(x));
            t
        }
    }
}

/// What a longer list contains.
proof fn lemma_push_contains<T>(s: Seq<T>, x: T, y: T)
    ensures
        s.push(x).contains(y) <==> s.contains(y) || y == x,
{
    let t = s.push(x);
    assert(t[s.len() as int] == x);
    if s.contains(y) {
        let k = choose|k: int| 0 <= k < s.len() && s[k] == y;
        assert(t[k] == y);
    }
}

/// Every finite set of names can be listed in order.
proof fn lemma_names_listed(names: Set<Seq<char>>) -> (s: Seq<Seq<char>>)
    requires
        names.finite(),
    ensures
        increasing(names_less(), s),
        s.to_set() == names,
    decreases names.len(),
{
    if names.len() == 0 {
        let s = Seq::<Seq<char>>::empty();
        assert(names =~= Set::empty());
        assert(s.to_set() =~= names);
        s
    } else {
        let x = names.choose();
        let rest = lemma_names_listed(names.remove(x));
        assert(!rest.contains(x)) by {
            assert(!rest.to_set().contains(x));
        }
        let s = lemma_insert_name(rest, x);
        assert(names.remove(x).insert(x) =~= names);
        s
    }
}

/// The module for what some declared modules need is named by them.
proof fn lemma_module_names(names: Set<Seq<char>>)
    requires
        names.finite(),
    ensures
        module_for(names).names() == names,
        !(module_for(names) is Main),
{
    if exists|n: Seq<char>| names == set![n] {
    } else {
        let s = lemma_names_listed(names);
        let t = listing(names);
        assert(increasing(names_less(), t) && t.to_set() == names);
    }
}

/// The declared modules that need a part.
pub open spec fn needing(c: Coloring, v: DepNode) -> Set<Seq<char>> {
    Set::new(|name: Seq<char>| c.needed_by(v, name))
}

/// A part is in the main module, or in the one that is named by the declared modules that need it.
pub proof fn lemma_module_of(
    module: &InputModule,
    graph: Map<DepNode, KeySet<DepNode>>,
    points: Seq<SplitPoint>,
    v: DepNode,
)
    ensures
        ({
            let c = coloring_of(module, graph, points);
            if c.in_main(v) {
                c.module_of(v) is Main
            } else {
                !(c.module_of(v) is Main) && c.module_of(v).names() == needing(c, v)
            }
        }),
{
    let c = coloring_of(module, graph, points);
    let declared = Seq::new(points.len(), |i: int| points[i].module_name@);
    let needed = needing(c, v);
    assert(needed.subset_of(declared.to_set())) by {
        assert forall|name: Seq<char>| needed.contains(name) implies declared.to_set().contains(
            name,
        ) by {
            let r = choose|r: DepNode|
                c.split_roots.contains((name, r)) && #[trigger] c.depends(r, v);
            let i = choose|i: int|
                0 <= i < points.len() && (#[trigger] points[i]).module_name@ == name && r
                    == DepNode::Function(points[i].export_func);
            assert(declared[i] == name);
        }
    }
    vstd::seq_lib::seq_to_set_is_finite(declared);
    vstd::set_lib::lemma_set_subset_finite(declared.to_set(), needed);
    lemma_module_names(needed);
}

/// What a part depends on is loaded whenever the part is loaded: it is in the main module, or all
/// declared modules that need the module of the part need its module too.
pub proof fn lemma_loaded_together(
    module: &InputModule,
    graph: Map<DepNode, KeySet<DepNode>>,
    points: Seq<SplitPoint>,
    version: Seq<u8>,
    info: SplitProgramInfo,
    i: int,
    j: int,
    s: DepNode,
    e: DepNode,
)
    requires
        splits(module, graph, points, version, info),
        holds(info, i, s),
        holds(info, j, e),
        has_edge(graph, s, e),
    ensures
        id_at(info, j) is Main || (!(id_at(info, i) is Main) && id_at(info, i).names().subset_of(
            id_at(info, j).names(),
        )),
{
    let c = coloring_of(module, graph, points);
    let edges = graph_edges(graph);
    lemma_holds(module, graph, points, version, info, i, s);
    lemma_holds(module, graph, points, version, info, j, e);
    lemma_module_of(module, graph, points, s);
    lemma_module_of(module, graph, points, e);
    assert(edges(s, e));
    lemma_reach_step(edges, s, e);
    if c.in_main(s) {
        let u = choose|u: DepNode|
            (c.main_roots.contains(u) || (c.reached(u) && c.touches_mark(u)))
                && #[trigger] c.depends(u, s);
        lemma_reach_trans(edges, u, s, e);
        assert(c.depends(u, e));
        assert(c.in_main(e));
    } else {
        assert forall|name: Seq<char>| needing(c, s).contains(name) implies needing(
            c,
            e,
        ).contains(name) by {
            let r = choose|r: DepNode|
                c.split_roots.contains((name, r)) && #[trigger] c.depends(r, s);
            lemma_reach_trans(edges, r, s, e);
            assert(c.depends(r, e));
        }
    }
}

/// The loader of a declared module loads everything that the module needs: what it needs is in the
/// main module, in the module itself, or in one of the shared modules that the loader loads.
pub proof fn lemma_loader_complete(
    module: &InputModule,
    graph: Map<DepNode, KeySet<DepNode>>,
    points: Seq<SplitPoint>,
    version: Seq<u8>,
    info: SplitProgramInfo,
    name: Seq<char>,
    j: int,
    v: DepNode,
)
    requires
        splits(module, graph, points, version, info),
        coloring_of(module, graph, points).needed_by(v, name),
        holds(info, j, v),
    ensures
        id_at(info, j) is Main || id_at(info, j) == ModuleId::Split(name) || is_chunk_of(
            info.output_modules@,
            j,
            name,
        ),
{
    let c = coloring_of(module, graph, points);
    lemma_holds(module, graph, points, version, info, j, v);
    lemma_module_of(module, graph, points, v);
    assert(needing(c, v).contains(name));
    if !(id_at(info, j) is Main) {
        assert(id_at(info, j).names().contains(name));
    }
}

/// The implementation of a split point is there when its declared module is loaded: it is in the
/// main module, or in a module that the declared module needs. (This does not speak of
/// implementations that are themselves imports of split points.)
pub proof fn lemma_entry_loaded(
    module: &InputModule,
    graph: Map<DepNode, KeySet<DepNode>>,
    points: Seq<SplitPoint>,
    version: Seq<u8>,
    info: SplitProgramInfo,
    k: int,
)
    requires
        splits(module, graph, points, version, info),
        0 <= k < points.len(),
        !import_nodes(points).contains(DepNode::Function(points[k].export_func)),
    ensures
        exists|j: int| #[trigger]
            holds(info, j, DepNode::Function(points[k].export_func)) && (id_at(info, j) is Main
                || id_at(info, j).names().contains(points[k].module_name@)),
        info.shared_deps@.contains(DepNode::Function(points[k].export_func)),
        info.split_point_exports@.contains(points[k].export_func),
{
    let c = coloring_of(module, graph, points);
    let v = DepNode::Function(points[k].export_func);
    let name = points[k].module_name@;
    lemma_split_root(module, graph, points, k);
    lemma_nothing_lost(module, graph, points, version, info, v);
    let j = choose|j: int| #[trigger] holds(info, j, v);
    lemma_holds(module, graph, points, version, info, j, v);
    lemma_module_of(module, graph, points, v);
    assert(needing(c, v).contains(name));
    assert(holds(info, j, v) && (id_at(info, j) is Main || id_at(info, j).names().contains(name)));
    assert(points[k].export_func == points[k].export_func);
}

/// There is a module for each one that a split point declares.
pub proof fn lemma_declared_exists(
    module: &InputModule,
    graph: Map<DepNode, KeySet<DepNode>>,
    points: Seq<SplitPoint>,
    version: Seq<u8>,
    info: SplitProgramInfo,
    name: Seq<char>,
)
    requires
        splits(module, graph, points, version, info),
        is_declared(points, name),
    ensures
        has_module(info.output_modules@, ModuleId::Split(name)),
{
    let id = ModuleId::Split(name);
    assert(has_module(info.output_modules@, id) <==> is_filled(
        coloring_of(module, graph, points),
        import_nodes(points),
        id,
    ) || (id is Split && is_declared(points, id->Split_0)));
}

/// What the main module starts from is in the main module: all that is imported and exported, and
/// what may be called indirectly, other than what belongs to split points.
pub proof fn lemma_roots_in_main(
    module: &InputModule,
    graph: Map<DepNode, KeySet<DepNode>>,
    points: Seq<SplitPoint>,
    version: Seq<u8>,
    info: SplitProgramInfo,
    v: DepNode,
)
    requires
        splits(module, graph, points, version, info),
        main_roots(module, points).contains(v),
    ensures
        exists|i: int| #[trigger] holds(info, i, v) && id_at(info, i) is Main,
{
    let c = coloring_of(module, graph, points);
    lemma_reach_refl(graph_edges(graph), v);
    assert(c.is_root(v));
    assert(c.depends(v, v));
    assert(!import_nodes(points).contains(v)) by {
        if import_nodes(points).contains(v) {
            let k = choose|k: int|
                0 <= k < points.len() && v == DepNode::Function(
                    (#[trigger] points[k]).import_func,
                );
            assert(split_nodes(points).contains(v));
        }
    }
    lemma_nothing_lost(module, graph, points, version, info, v);
    let i = choose|i: int| #[trigger] holds(info, i, v);
    lemma_holds(module, graph, points, version, info, i, v);
    assert(c.in_main(v));
    assert(holds(info, i, v) && id_at(info, i) is Main);
}

/// What directly depends on a description of a cast is in the main module, and other modules reach
/// it through a shim if it is a function.
pub proof fn lemma_cast_users_in_main(
    module: &InputModule,
    graph: Map<DepNode, KeySet<DepNode>>,
    points: Seq<SplitPoint>,
    version: Seq<u8>,
    info: SplitProgramInfo,
    i: int,
    u: DepNode,
    w: DepNode,
)
    requires
        splits(module, graph, points, version, info),
        holds(info, i, u),
        has_edge(graph, u, w),
        cast_nodes(module).contains(w),
    ensures
        id_at(info, i) is Main,
        u is Function ==> info.needs_shim_in_main@.contains(u->Function_0),
{
    let c = coloring_of(module, graph, points);
    lemma_holds(module, graph, points, version, info, i, u);
    lemma_reach_refl(graph_edges(graph), u);
    assert(c.touches_mark(u));
    assert(c.depends(u, u));
    assert(c.in_main(u));
    if u is Function {
        assert(u == DepNode::Function(u->Function_0));
    }
}

/// Every module that holds something has the main memory and the table for indirect calls, or uses
/// them of another module.
pub proof fn lemma_always_shared(
    module: &InputModule,
    graph: Map<DepNode, KeySet<DepNode>>,
    points: Seq<SplitPoint>,
    version: Seq<u8>,
    info: SplitProgramInfo,
    i: int,
    v: DepNode,
    d: DepNode,
)
    requires
        splits(module, graph, points, version, info),
        holds(info, i, v),
        d == DepNode::Memory(0) || d == DepNode::Table(module.reloc_info.indirect_table),
    ensures
        holds(info, i, d) || info.output_modules@[i].1.used_shared_deps@.contains(d),
{
    let c = coloring_of(module, graph, points);
    let imports = import_nodes(points);
    let entry = info.output_modules@[i];
    let included = contents(c, imports, entry.0@);
    lemma_holds(module, graph, points, version, info, i, v);
    assert(is_placed(c, imports, v));
    assert(is_filled(c, imports, entry.0@));
    assert(entry.1.used_shared_deps@ == shared_by(module, graph, points, included));
    assert(is_needed(module, graph, included, d));
    assert(redirected(points, d) == d);
    if !holds(info, i, d) {
        assert(shared_by(module, graph, points, included).contains(d));
    }
}

/// The name that tells programs apart depends on nothing but the input and the version.
pub proof fn lemma_canary(
    module: &InputModule,
    graph: Map<DepNode, KeySet<DepNode>>,
    points: Seq<SplitPoint>,
    info: SplitProgramInfo,
    module2: &InputModule,
    graph2: Map<DepNode, KeySet<DepNode>>,
    points2: Seq<SplitPoint>,
    info2: SplitProgramInfo,
    version: Seq<u8>,
)
    requires
        splits(module, graph, points, version, info),
        splits(module2, graph2, points2, version, info2),
        module.raw@ == module2.raw@,
    ensures
        info.canary_export_name@ == info2.canary_export_name@,
{
}

/// It does not matter in which order modules are joined.
pub proof fn lemma_join_order(a: ModuleId, b: ModuleId, c: ModuleId)
    requires
        a.names().finite(),
        b.names().finite(),
        c.names().finite(),
    ensures
        join(a, b) == join(b, a),
        join(join(a, b), c) == join(a, join(b, c)),
{
    assert(a.names().union(b.names()) =~= b.names().union(a.names()));
    if !(a is Main) && !(b is Main) && !(c is Main) {
        lemma_module_names(a.names().union(b.names()));
        lemma_module_names(b.names().union(c.names()));
        assert(a.names().union(b.names()).union(c.names()) =~= a.names().union(
            b.names().union(c.names()),
        ));
    }
}

/// Joining a module with itself changes nothing.
pub proof fn lemma_join_same(id: SplitModuleIdentifier)
    requires
        id.wf(),
        id@ matches ModuleId::Chunk(names) ==> names.len() > 1,
    ensures
        join(id@, id@) == id@,
{
    assert(id@.names().union(id@.names()) =~= id@.names());
    match id@ {
        ModuleId::Main => {},
        ModuleId::Split(name) => {
            lemma_module_for_one(name);
        },
        ModuleId::Chunk(names) => {
            lemma_module_for_many(names);
        },
    }
}

} // verus!
