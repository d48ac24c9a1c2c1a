//! Into which module each part of a program goes, told by the program itself.
use crate::dep_graph::DepNode;
use crate::edge_laws::{edges_of, leads_to};
use crate::graph_utils::reach::{lemma_reach_mono, reach};
use crate::graph_utils::settled::graph_edges;
use crate::graph_utils::tarjan_scc::has_edge;
use crate::keyed::KeySet;
use crate::read::{ExternalKind, InputModule};
use crate::split_point::identifier::{module_for, ModuleId, SplitModuleIdentifier};
use crate::split_point::laws::{
    holds, id_at, lemma_holds, lemma_module_of, lemma_nothing_lost, lemma_roots_in_main, needing,
};
use crate::split_point::output::has_module;
use crate::split_point::program::{
    coloring_of, contents, export_for, import_nodes, is_declared, is_filled, is_needed, is_placed,
    is_shared, redirected, shared_by, shims, splits, SplitProgramInfo,
};
use crate::split_point::roots::{
    cast_nodes, casts_have_index, export_nodes, exported_nodes, first_nodes, indirect_nodes, is_describe_cast,
    is_marker, main_roots, node_of, split_nodes, SplitPoint,
};
use vstd::prelude::*;

verus! {

/// Whether the main module holds a part.
pub open spec fn main_has(info: SplitProgramInfo, v: DepNode) -> bool {
    exists|i: int|
        0 <= i < info.output_modules@.len() && (#[trigger] info.output_modules@[i]).0 is Main
            && info.output_modules@[i].1.included_symbols@.contains(v)
}

/// Whether a function is the import or the export of a split point.
pub open spec fn is_split_func(points: Seq<SplitPoint>, f: usize) -> bool {
    exists|k: int|
        0 <= k < points.len() && ((#[trigger] points[k]).import_func == f || points[k].export_func
            == f)
}

/// Whether a function is the import of a split point.
pub open spec fn is_split_import(points: Seq<SplitPoint>, v: DepNode) -> bool {
    exists|k: int|
        0 <= k < points.len() && v == DepNode::Function((#[trigger] points[k]).import_func)
}

/// What the main module starts from is in it.
proof fn lemma_main_has(
    module: &InputModule,
    graph: Map<DepNode, KeySet<DepNode>>,
    points: Seq<SplitPoint>,
    version: Seq<u8>,
    info: SplitProgramInfo,
    v: DepNode,
)
    requires
        splits(module, graph, points, version, info),
        main_roots(module, points).contains(v),
    ensures
        main_has(info, v),
{
    lemma_roots_in_main(module, graph, points, version, info, v);
    let i = choose|i: int| #[trigger] holds(info, i, v) && id_at(info, i) is Main;
    assert(info.output_modules@[i].0 is Main);
}

/// What split points take out is their functions.
proof fn lemma_split_nodes(points: Seq<SplitPoint>, v: DepNode)
    ensures
        split_nodes(points).contains(v) <==> v is Function && is_split_func(points, v->Function_0),
        import_nodes(points).contains(v) <==> is_split_import(points, v),
{
    if split_nodes(points).contains(v) {
        let k = choose|k: int|
            0 <= k < points.len() && (v == DepNode::Function((#[trigger] points[k]).export_func)
                || v == DepNode::Function(points[k].import_func));
        assert(points[k].import_func == v->Function_0 || points[k].export_func == v->Function_0);
    }
    if v is Function && is_split_func(points, v->Function_0) {
        let f = v->Function_0;
        let k = choose|k: int|
            0 <= k < points.len() && ((#[trigger] points[k]).import_func == f
                || points[k].export_func == f);
        assert(v == DepNode::Function(points[k].export_func) || v == DepNode::Function(
            points[k].import_func,
        ));
    }
}

/// Everything that a module exports is in the main module: functions other than those of split
/// points, tables, memories, tags, and globals other than marks.
pub proof fn lemma_exports_in_main(
    module: &InputModule,
    graph: Map<DepNode, KeySet<DepNode>>,
    points: Seq<SplitPoint>,
    version: Seq<u8>,
    info: SplitProgramInfo,
    i: int,
)
    requires
        splits(module, graph, points, version, info),
        0 <= i < module.exports@.len(),
    ensures
        ({
            let index = module.exports@[i].index as usize;
            match module.exports@[i].kind {
                ExternalKind::Func | ExternalKind::FuncExact => is_split_func(points, index)
                    || main_has(info, DepNode::Function(index)),
                ExternalKind::Table => main_has(info, DepNode::Table(index)),
                ExternalKind::Memory => main_has(info, DepNode::Memory(index)),
                ExternalKind::Tag => main_has(info, DepNode::Tag(index)),
                ExternalKind::Global => module.reloc_info.split_marker_globals@.contains(index)
                    || main_has(info, DepNode::Global(index)),
            }
        }),
{
    let export = module.exports@[i];
    let index = export.index as usize;
    let v = match export.kind {
        ExternalKind::Func | ExternalKind::FuncExact => DepNode::Function(index),
        ExternalKind::Table => DepNode::Table(index),
        ExternalKind::Memory => DepNode::Memory(index),
        ExternalKind::Tag => DepNode::Tag(index),
        ExternalKind::Global => DepNode::Global(index),
    };
    lemma_split_nodes(points, v);
    if !is_marker(module, export) && !split_nodes(points).contains(v) {
        assert(exported_nodes(module).contains(v)) by {
            assert(v == node_of(module.exports@[i].kind, index));
        }
        assert(main_roots(module, points).contains(v));
        lemma_main_has(module, graph, points, version, info, v);
    }
}

/// Everything that a module imports is in the main module, other than the imports of split points.
pub proof fn lemma_imports_in_main(
    module: &InputModule,
    graph: Map<DepNode, KeySet<DepNode>>,
    points: Seq<SplitPoint>,
    version: Seq<u8>,
    info: SplitProgramInfo,
    k: usize,
)
    requires
        splits(module, graph, points, version, info),
    ensures
        k < module.imported_funcs@.len() ==> is_split_func(points, k) || main_has(
            info,
            DepNode::Function(k),
        ),
        k < module.imported_globals_num ==> main_has(info, DepNode::Global(k)),
        k < module.imported_tables_num ==> main_has(info, DepNode::Table(k)),
        k < module.imported_tags_num ==> main_has(info, DepNode::Tag(k)),
        k < module.imported_memories_num ==> main_has(info, DepNode::Memory(k)),
{
    let roots = main_roots(module, points);
    let f = DepNode::Function(k);
    lemma_split_nodes(points, f);
    lemma_split_nodes(points, DepNode::Global(k));
    lemma_split_nodes(points, DepNode::Table(k));
    lemma_split_nodes(points, DepNode::Tag(k));
    lemma_split_nodes(points, DepNode::Memory(k));
    if k < module.imported_funcs@.len() && !is_split_func(points, k) {
        assert(first_nodes(ExternalKind::Func, module.imported_funcs.len()).contains(f));
        assert(roots.contains(f));
        lemma_main_has(module, graph, points, version, info, f);
    }
    if k < module.imported_globals_num {
        assert(roots.contains(DepNode::Global(k)));
        lemma_main_has(module, graph, points, version, info, DepNode::Global(k));
    }
    if k < module.imported_tables_num {
        assert(roots.contains(DepNode::Table(k)));
        lemma_main_has(module, graph, points, version, info, DepNode::Table(k));
    }
    if k < module.imported_tags_num {
        assert(roots.contains(DepNode::Tag(k)));
        lemma_main_has(module, graph, points, version, info, DepNode::Tag(k));
    }
    if k < module.imported_memories_num {
        assert(roots.contains(DepNode::Memory(k)));
        lemma_main_has(module, graph, points, version, info, DepNode::Memory(k));
    }
}

/// The function that runs at the start, the main memory, and the functions that may be called
/// through the table and must stay visible are in the main module, other than those of split
/// points.
pub proof fn lemma_start_in_main(
    module: &InputModule,
    graph: Map<DepNode, KeySet<DepNode>>,
    points: Seq<SplitPoint>,
    version: Seq<u8>,
    info: SplitProgramInfo,
    f: usize,
)
    requires
        splits(module, graph, points, version, info),
    ensures
        main_has(info, DepNode::Memory(0)),
        module.start == Some(f) ==> is_split_func(points, f) || main_has(
            info,
            DepNode::Function(f),
        ),
        module.reloc_info.visible_indirects@.contains(f) ==> is_split_func(points, f) || main_has(
            info,
            DepNode::Function(f),
        ),
{
    let roots = main_roots(module, points);
    let v = DepNode::Function(f);
    lemma_split_nodes(points, v);
    lemma_split_nodes(points, DepNode::Memory(0));
    assert(roots.contains(DepNode::Memory(0)));
    lemma_main_has(module, graph, points, version, info, DepNode::Memory(0));
    if (module.start == Some(f) || module.reloc_info.visible_indirects@.contains(f))
        && !is_split_func(points, f) {
        if module.reloc_info.visible_indirects@.contains(f) {
            assert(indirect_nodes(module).contains(v));
        }
        assert(roots.contains(v));
        lemma_main_has(module, graph, points, version, info, v);
    }
}

/// Whether a part is exported, other than as a mark.
pub open spec fn is_exported(module: &InputModule, v: DepNode) -> bool {
    exists|i: int|
        0 <= i < module.exports@.len() && match (#[trigger] module.exports@[i]).kind {
            ExternalKind::Func | ExternalKind::FuncExact => v == DepNode::Function(
                module.exports@[i].index as usize,
            ),
            ExternalKind::Table => v == DepNode::Table(module.exports@[i].index as usize),
            ExternalKind::Memory => v == DepNode::Memory(module.exports@[i].index as usize),
            ExternalKind::Tag => v == DepNode::Tag(module.exports@[i].index as usize),
            ExternalKind::Global => v == DepNode::Global(module.exports@[i].index as usize)
                && !module.reloc_info.split_marker_globals@.contains(
                module.exports@[i].index as usize,
            ),
        }
}

/// Whether the host or the start of the program can use a part without any split point.
pub open spec fn is_entry(module: &InputModule, points: Seq<SplitPoint>, v: DepNode) -> bool {
    match v {
        DepNode::Function(f) => !is_split_func(points, f) && (module.start == Some(f) || f
            < module.imported_funcs@.len() || is_exported(module, v)
            || module.reloc_info.visible_indirects@.contains(f)),
        DepNode::Global(g) => g < module.imported_globals_num || is_exported(module, v),
        DepNode::Table(t) => t < module.imported_tables_num || is_exported(module, v),
        DepNode::Tag(t) => t < module.imported_tags_num || is_exported(module, v),
        DepNode::Memory(m) => m == 0 || m < module.imported_memories_num || is_exported(module, v),
        DepNode::DataSymbol(_) => false,
    }
}

/// What the main module starts from is what can be used without any split point.
pub proof fn lemma_entries(module: &InputModule, points: Seq<SplitPoint>, v: DepNode)
    ensures
        main_roots(module, points).contains(v) <==> is_entry(module, points, v),
{
    lemma_split_nodes(points, v);
    assert(exported_nodes(module).contains(v) <==> is_exported(module, v)) by {
        if exported_nodes(module).contains(v) {
            let i = choose|i: int|
                0 <= i < module.exports@.len() && !is_marker(module, #[trigger] module.exports@[i])
                    && v == node_of(module.exports@[i].kind, module.exports@[i].index as usize);
            assert(module.exports@[i].kind == module.exports@[i].kind);
        }
        if is_exported(module, v) {
            let i = choose|i: int|
                0 <= i < module.exports@.len() && match (#[trigger] module.exports@[i]).kind {
                    ExternalKind::Func | ExternalKind::FuncExact => v == DepNode::Function(
                        module.exports@[i].index as usize,
                    ),
                    ExternalKind::Table => v == DepNode::Table(module.exports@[i].index as usize),
                    ExternalKind::Memory => v == DepNode::Memory(module.exports@[i].index as usize),
                    ExternalKind::Tag => v == DepNode::Tag(module.exports@[i].index as usize),
                    ExternalKind::Global => v == DepNode::Global(module.exports@[i].index as usize)
                        && !module.reloc_info.split_marker_globals@.contains(
                        module.exports@[i].index as usize,
                    ),
                };
            assert(!is_marker(module, module.exports@[i]));
            assert(v == node_of(module.exports@[i].kind, module.exports@[i].index as usize));
        }
    }
}

/// Whether a part directly depends on the description of a cast that the host's bindings replace.
pub open spec fn uses_cast(
    module: &InputModule,
    graph: Map<DepNode, KeySet<DepNode>>,
    u: DepNode,
) -> bool {
    exists|i: int|
        0 <= i < module.imports@.len() && (#[trigger] module.imports@[i]).module@
            == "__wbindgen_placeholder__"@ && module.imports@[i].name@
            == "__wbindgen_describe_cast"@ && module.imports@[i].ty == ExternalKind::Func
            && leads_to(graph, u, DepNode::Function(module.imported_func_map@[i as usize]))
}

/// The parts that depend on a mark are those that use a cast.
proof fn lemma_uses_cast(
    module: &InputModule,
    graph: Map<DepNode, KeySet<DepNode>>,
    points: Seq<SplitPoint>,
    u: DepNode,
)
    ensures
        coloring_of(module, graph, points).touches_mark(u) <==> uses_cast(module, graph, u),
{
    let c = coloring_of(module, graph, points);
    if c.touches_mark(u) {
        let w = choose|w: DepNode| #[trigger] has_edge(c.graph, u, w) && c.marks.contains(w);
        let i = choose|i: int|
            0 <= i < module.imports@.len() && is_describe_cast(#[trigger] module.imports@[i]) && w
                == DepNode::Function(module.imported_func_map@[i as usize]);
        assert(module.imports@[i].ty == ExternalKind::Func);
    }
    if uses_cast(module, graph, u) {
        let i = choose|i: int|
            0 <= i < module.imports@.len() && (#[trigger] module.imports@[i]).module@
                == "__wbindgen_placeholder__"@ && module.imports@[i].name@
                == "__wbindgen_describe_cast"@ && module.imports@[i].ty == ExternalKind::Func
                && leads_to(graph, u, DepNode::Function(module.imported_func_map@[i as usize]));
        let w = DepNode::Function(module.imported_func_map@[i as usize]);
        assert(is_describe_cast(module.imports@[i]));
        assert(cast_nodes(module).contains(w));
        assert(has_edge(c.graph, u, w));
    }
}

/// A program can be split if and only if every description of a cast that is imported as a function
/// has a function index.
pub proof fn lemma_casts_known(module: &InputModule)
    ensures
        casts_have_index(module) <==> forall|i: int|
            0 <= i < module.imports@.len() && (#[trigger] module.imports@[i]).module@
                == "__wbindgen_placeholder__"@ && module.imports@[i].name@
                == "__wbindgen_describe_cast"@ && module.imports@[i].ty == ExternalKind::Func
                ==> module.imported_func_map@.contains_key(i as usize),
{
}

/// What is reached in a graph.
proof fn lemma_same_reach(graph: Map<DepNode, KeySet<DepNode>>, a: DepNode, b: DepNode)
    ensures
        reach(graph_edges(graph), a, b) <==> reach(edges_of(graph), a, b),
{
    let e = graph_edges(graph);
    let f = edges_of(graph);
    assert forall|u: DepNode, w: DepNode| #[trigger] e(u, w) implies f(u, w) by {}
    assert forall|u: DepNode, w: DepNode| #[trigger] f(u, w) implies e(u, w) by {
        assert(has_edge(graph, u, w));
    }
    if reach(e, a, b) {
        lemma_reach_mono(e, f, a, b);
    }
    if reach(f, a, b) {
        lemma_reach_mono(f, e, a, b);
    }
}

/// Whether the declared module `name` needs a part: the implementation of one of its split points
/// leads to it.
pub open spec fn is_wanted(
    graph: Map<DepNode, KeySet<DepNode>>,
    points: Seq<SplitPoint>,
    v: DepNode,
    name: Seq<char>,
) -> bool {
    exists|k: int|
        0 <= k < points.len() && (#[trigger] points[k]).module_name@ == name && reach(
            edges_of(graph),
            DepNode::Function(points[k].export_func),
            v,
        )
}

/// Whether some entry leads to a part.
pub open spec fn is_entered(
    module: &InputModule,
    graph: Map<DepNode, KeySet<DepNode>>,
    points: Seq<SplitPoint>,
    v: DepNode,
) -> bool {
    exists|r: DepNode| #[trigger] is_entry(module, points, r) && reach(edges_of(graph), r, v)
}

/// Whether a part is of use: an entry or the implementation of a split point leads to it.
pub open spec fn is_used(
    module: &InputModule,
    graph: Map<DepNode, KeySet<DepNode>>,
    points: Seq<SplitPoint>,
    v: DepNode,
) -> bool {
    is_entered(module, graph, points, v) || exists|name: Seq<char>| #[trigger]
        is_wanted(graph, points, v, name)
}

/// Whether a part must be in the main module: an entry leads to it, or something of use that uses a
/// cast does.
pub open spec fn is_for_main(
    module: &InputModule,
    graph: Map<DepNode, KeySet<DepNode>>,
    points: Seq<SplitPoint>,
    v: DepNode,
) -> bool {
    is_entered(module, graph, points, v) || exists|u: DepNode| #[trigger]
        uses_cast(module, graph, u) && is_used(module, graph, points, u) && reach(
            edges_of(graph),
            u,
            v,
        )
}

/// What declared modules need.
proof fn lemma_wanted(
    module: &InputModule,
    graph: Map<DepNode, KeySet<DepNode>>,
    points: Seq<SplitPoint>,
    v: DepNode,
    name: Seq<char>,
)
    ensures
        coloring_of(module, graph, points).needed_by(v, name) <==> is_wanted(
            graph,
            points,
            v,
            name,
        ),
{
    let c = coloring_of(module, graph, points);
    if c.needed_by(v, name) {
        let r = choose|r: DepNode| c.split_roots.contains((name, r)) && #[trigger] c.depends(r, v);
        let k = choose|k: int|
            0 <= k < points.len() && (#[trigger] points[k]).module_name@ == name && r
                == DepNode::Function(points[k].export_func);
        lemma_same_reach(graph, r, v);
        assert(points[k].module_name@ == name);
    }
    if is_wanted(graph, points, v, name) {
        let k = choose|k: int|
            0 <= k < points.len() && (#[trigger] points[k]).module_name@ == name && reach(
                edges_of(graph),
                DepNode::Function(points[k].export_func),
                v,
            );
        let r = DepNode::Function(points[k].export_func);
        lemma_same_reach(graph, r, v);
        assert(c.split_roots.contains((name, r)));
        assert(c.depends(r, v));
    }
}

/// What some module needs.
proof fn lemma_used(
    module: &InputModule,
    graph: Map<DepNode, KeySet<DepNode>>,
    points: Seq<SplitPoint>,
    v: DepNode,
)
    ensures
        coloring_of(module, graph, points).reached(v) <==> is_used(module, graph, points, v),
{
    let c = coloring_of(module, graph, points);
    if c.reached(v) {
        let r = choose|r: DepNode| c.is_root(r) && #[trigger] c.depends(r, v);
        lemma_same_reach(graph, r, v);
        lemma_entries(module, points, r);
        if c.main_roots.contains(r) {
            assert(is_entry(module, points, r));
        } else {
            let name = choose|name: Seq<char>| #[trigger] c.split_roots.contains((name, r));
            assert(c.needed_by(v, name));
            lemma_wanted(module, graph, points, v, name);
        }
    }
    if is_entered(module, graph, points, v) {
        let r = choose|r: DepNode| #[trigger]
            is_entry(module, points, r) && reach(edges_of(graph), r, v);
        lemma_same_reach(graph, r, v);
        lemma_entries(module, points, r);
        assert(c.is_root(r));
        assert(c.depends(r, v));
    } else if is_used(module, graph, points, v) {
        let name = choose|name: Seq<char>| #[trigger] is_wanted(graph, points, v, name);
        lemma_wanted(module, graph, points, v, name);
        let r = choose|r: DepNode| c.split_roots.contains((name, r)) && #[trigger] c.depends(r, v);
        assert(c.is_root(r));
    }
}

/// What belongs into the main module.
proof fn lemma_for_main(
    module: &InputModule,
    graph: Map<DepNode, KeySet<DepNode>>,
    points: Seq<SplitPoint>,
    v: DepNode,
)
    ensures
        coloring_of(module, graph, points).in_main(v) <==> is_for_main(module, graph, points, v),
{
    let c = coloring_of(module, graph, points);
    if c.in_main(v) {
        let u = choose|u: DepNode|
            (c.main_roots.contains(u) || (c.reached(u) && c.touches_mark(u)))
                && #[trigger] c.depends(u, v);
        lemma_same_reach(graph, u, v);
        lemma_entries(module, points, u);
        lemma_uses_cast(module, graph, points, u);
        lemma_used(module, graph, points, u);
        if c.main_roots.contains(u) {
            assert(is_entry(module, points, u));
        } else {
            assert(uses_cast(module, graph, u));
        }
    }
    if is_entered(module, graph, points, v) {
        let r = choose|r: DepNode| #[trigger]
            is_entry(module, points, r) && reach(edges_of(graph), r, v);
        lemma_same_reach(graph, r, v);
        lemma_entries(module, points, r);
        assert(c.depends(r, v));
    } else if is_for_main(module, graph, points, v) {
        let u = choose|u: DepNode| #[trigger]
            uses_cast(module, graph, u) && is_used(module, graph, points, u) && reach(
                edges_of(graph),
                u,
                v,
            );
        lemma_same_reach(graph, u, v);
        lemma_uses_cast(module, graph, points, u);
        lemma_used(module, graph, points, u);
        assert(c.depends(u, v));
    }
}

/// Every part of use is in a module, unless it is the import of a split point, and a module holds
/// only such parts.
pub proof fn lemma_parts_placed(
    module: &InputModule,
    graph: Map<DepNode, KeySet<DepNode>>,
    points: Seq<SplitPoint>,
    version: Seq<u8>,
    info: SplitProgramInfo,
    v: DepNode,
)
    requires
        splits(module, graph, points, version, info),
    ensures
        (exists|i: int|
            0 <= i < info.output_modules@.len() && (
            #[trigger] info.output_modules@[i]).1.included_symbols@.contains(v)) <==> is_used(
            module,
            graph,
            points,
            v,
        ) && !is_split_import(points, v),
{
    lemma_used(module, graph, points, v);
    lemma_split_nodes(points, v);
    if is_used(module, graph, points, v) && !is_split_import(points, v) {
        lemma_nothing_lost(module, graph, points, version, info, v);
        let i = choose|i: int| #[trigger] holds(info, i, v);
        assert(info.output_modules@[i].1.included_symbols@.contains(v));
    }
    if exists|i: int|
        0 <= i < info.output_modules@.len() && (
        #[trigger] info.output_modules@[i]).1.included_symbols@.contains(v) {
        let i = choose|i: int|
            0 <= i < info.output_modules@.len() && (
            #[trigger] info.output_modules@[i]).1.included_symbols@.contains(v);
        assert(holds(info, i, v));
        lemma_holds(module, graph, points, version, info, i, v);
    }
}

/// A part is in the main module if it must be there. Otherwise it is in the module of the one
/// declared module that needs it, or in the one that is shared by exactly those that do.
pub proof fn lemma_module_chosen(
    module: &InputModule,
    graph: Map<DepNode, KeySet<DepNode>>,
    points: Seq<SplitPoint>,
    version: Seq<u8>,
    info: SplitProgramInfo,
    i: int,
    v: DepNode,
    name: Seq<char>,
)
    requires
        splits(module, graph, points, version, info),
        0 <= i < info.output_modules@.len(),
        info.output_modules@[i].1.included_symbols@.contains(v),
    ensures
        info.output_modules@[i].0 is Main <==> is_for_main(module, graph, points, v),
        match info.output_modules@[i].0 {
            SplitModuleIdentifier::Main => true,
            SplitModuleIdentifier::Split(own) => is_wanted(graph, points, v, name) <==> name
                == own@,
            SplitModuleIdentifier::Chunk(sharers) => (is_wanted(graph, points, v, name) <==> exists|
                k: int,
            |
                0 <= k < sharers@.len() && #[trigger] sharers@[k] == name) && sharers@.len() != 1,
        },
{
    assert(holds(info, i, v));
    lemma_holds(module, graph, points, version, info, i, v);
    lemma_module_of(module, graph, points, v);
    lemma_for_main(module, graph, points, v);
    lemma_wanted(module, graph, points, v, name);
    let c = coloring_of(module, graph, points);
    let id = id_at(info, i);
    assert(needing(c, v).contains(name) <==> is_wanted(graph, points, v, name));
    match info.output_modules@[i].0 {
        SplitModuleIdentifier::Main => {},
        SplitModuleIdentifier::Split(own) => {
            assert(id.names().contains(name) <==> name == own@);
        },
        SplitModuleIdentifier::Chunk(sharers) => {
            assert(id.names() == sharers@.to_set());
            assert(id.names().contains(name) <==> sharers@.contains(name));
            if sharers@.contains(name) {
                let k = choose|k: int| 0 <= k < sharers@.len() && sharers@[k] == name;
                assert(sharers@[k] == name);
            }
            if sharers@.len() == 1 {
                let n = sharers@[0];
                assert(needing(c, v) =~= set![n]) by {
                    assert forall|m: Seq<char>| sharers@.to_set().contains(m) <==> m == n by {
                        if sharers@.contains(m) {
                            let k = choose|k: int| 0 <= k < sharers@.len() && sharers@[k] == m;
                        }
                        assert(sharers@[0] == n);
                    }
                }
                assert(module_for(needing(c, v)) is Split);
            }
        },
    }
}

/// Whether point `k` is the last one with its import.
pub open spec fn is_last_point(points: Seq<SplitPoint>, k: int) -> bool {
    0 <= k < points.len() && forall|j: int|
        k < j < points.len() ==> (#[trigger] points[j]).import_func != points[k].import_func
}

/// The implementation of an import is that of the last split point with it.
proof fn lemma_export_for(points: Seq<SplitPoint>, f: usize)
    ensures
        match export_for(points, f) {
            Some(g) => exists|k: int| #[trigger]
                is_last_point(points, k) && points[k].import_func == f && points[k].export_func
                    == g,
            None => !is_split_import(points, DepNode::Function(f)),
        },
        forall|k: int| #[trigger]
            is_last_point(points, k) ==> (points[k].import_func == f ==> export_for(points, f)
                == Some(points[k].export_func)),
    decreases points.len(),
{
    if points.len() > 0 {
        let rest = points.drop_last();
        let last = points.len() - 1;
        lemma_export_for(rest, f);
        assert forall|k: int| 0 <= k < last implies #[trigger] points[k] == rest[k] by {}
        if points[last].import_func == f {
            assert(is_last_point(points, last));
            assert forall|k: int| #[trigger] is_last_point(points, k) implies (points[k].import_func
                == f ==> export_for(points, f) == Some(points[k].export_func)) by {
                if k < last && points[k].import_func == f {
                    assert(points[last].import_func != points[k].import_func);
                }
            }
        } else {
            assert forall|k: int| #[trigger] is_last_point(points, k) implies (points[k].import_func
                == f ==> export_for(points, f) == Some(points[k].export_func)) by {
                if points[k].import_func == f {
                    assert(is_last_point(rest, k)) by {
                        assert forall|j: int| k < j < rest.len() implies (
                        #[trigger] rest[j]).import_func != rest[k].import_func by {
                            assert(points[j].import_func != points[k].import_func);
                        }
                    }
                }
            }
            match export_for(points, f) {
                Some(g) => {
                    let k = choose|k: int| #[trigger]
                        is_last_point(rest, k) && rest[k].import_func == f && rest[k].export_func
                            == g;
                    assert(is_last_point(points, k)) by {
                        assert forall|j: int| k < j < points.len() implies (
                        #[trigger] points[j]).import_func != points[k].import_func by {
                            if j < last {
                                assert(rest[j].import_func != rest[k].import_func);
                            }
                        }
                    }
                },
                None => {
                    if is_split_import(points, DepNode::Function(f)) {
                        let k = choose|k: int|
                            0 <= k < points.len() && DepNode::Function(f) == DepNode::Function(
                                (#[trigger] points[k]).import_func,
                            );
                        assert(rest[k].import_func == f);
                        assert(DepNode::Function(f) == DepNode::Function(rest[k].import_func));
                        assert(is_split_import(rest, DepNode::Function(f)));
                    }
                },
            }
        }
    }
}

/// Whether a dependency on `e` comes down to `d`: the import of a split point stands for what
/// implements it, and everything else for itself.
pub open spec fn comes_to(points: Seq<SplitPoint>, e: DepNode, d: DepNode) -> bool {
    if is_split_import(points, e) {
        exists|k: int| #[trigger]
            is_last_point(points, k) && e == DepNode::Function(points[k].import_func) && d
                == DepNode::Function(points[k].export_func)
    } else {
        d == e
    }
}

/// What a dependency comes down to.
proof fn lemma_comes_to(points: Seq<SplitPoint>, e: DepNode, d: DepNode)
    ensures
        comes_to(points, e, d) <==> d == redirected(points, e),
{
    if let DepNode::Function(f) = e {
        lemma_export_for(points, f);
        if is_split_import(points, e) {
            let j = choose|j: int|
                0 <= j < points.len() && e == DepNode::Function((#[trigger] points[j]).import_func);
            assert(export_for(points, f) is Some);
        } else {
            match export_for(points, f) {
                Some(g) => {
                    let k = choose|k: int| #[trigger]
                        is_last_point(points, k) && points[k].import_func == f
                            && points[k].export_func == g;
                    assert(e == DepNode::Function(points[k].import_func));
                },
                None => {},
            }
        }
    } else if is_split_import(points, e) {
        let j = choose|j: int|
            0 <= j < points.len() && e == DepNode::Function((#[trigger] points[j]).import_func);
    }
}

/// Whether a module directly depends on a part: something in it does, or the part is the main
/// memory or the table for indirect calls, which every module that is not empty uses.
pub open spec fn asks_for(
    module: &InputModule,
    graph: Map<DepNode, KeySet<DepNode>>,
    info: SplitProgramInfo,
    i: int,
    e: DepNode,
) -> bool {
    ||| e == DepNode::Memory(0)
    ||| e == DepNode::Table(module.reloc_info.indirect_table)
    ||| exists|s: DepNode| #[trigger]
        info.output_modules@[i].1.included_symbols@.contains(s) && leads_to(graph, s, e)
}

/// What a module uses of others is what it depends on, but does not hold, and is not data.
pub proof fn lemma_uses_of_others(
    module: &InputModule,
    graph: Map<DepNode, KeySet<DepNode>>,
    points: Seq<SplitPoint>,
    version: Seq<u8>,
    info: SplitProgramInfo,
    i: int,
    d: DepNode,
)
    requires
        splits(module, graph, points, version, info),
        0 <= i < info.output_modules@.len(),
    ensures
        info.output_modules@[i].1.used_shared_deps@.contains(d) <==> {
            &&& exists|v: DepNode| #[trigger]
                info.output_modules@[i].1.included_symbols@.contains(v)
            &&& !info.output_modules@[i].1.included_symbols@.contains(d)
            &&& !(d is DataSymbol)
            &&& exists|e: DepNode| #[trigger]
                asks_for(module, graph, info, i, e) && comes_to(points, e, d)
        },
        info.output_modules@[i].1.is_empty <==> !exists|v: DepNode| #[trigger]
            info.output_modules@[i].1.included_symbols@.contains(v),
{
    let c = coloring_of(module, graph, points);
    let imports = import_nodes(points);
    let entry = info.output_modules@[i];
    let included = contents(c, imports, entry.0@);
    assert(entry.1.included_symbols@ == included);
    assert(is_filled(c, imports, entry.0@) <==> exists|v: DepNode| #[trigger]
        included.contains(v)) by {
        if is_filled(c, imports, entry.0@) {
            let v = choose|v: DepNode| #[trigger]
                is_placed(c, imports, v) && c.module_of(v) == entry.0@;
            assert(included.contains(v));
        }
        if exists|v: DepNode| #[trigger] included.contains(v) {
            let v = choose|v: DepNode| #[trigger] included.contains(v);
            assert(is_placed(c, imports, v));
        }
    }
    assert forall|e: DepNode| is_needed(module, graph, included, e) <==> #[trigger] asks_for(
        module,
        graph,
        info,
        i,
        e,
    ) by {
        if exists|s: DepNode| included.contains(s) && #[trigger] has_edge(graph, s, e) {
            let s = choose|s: DepNode| included.contains(s) && #[trigger] has_edge(graph, s, e);
            assert(info.output_modules@[i].1.included_symbols@.contains(s));
        }
        if exists|s: DepNode| #[trigger]
            info.output_modules@[i].1.included_symbols@.contains(s) && leads_to(graph, s, e) {
            let s = choose|s: DepNode| #[trigger]
                info.output_modules@[i].1.included_symbols@.contains(s) && leads_to(graph, s, e);
            assert(has_edge(graph, s, e));
        }
    }
    if is_filled(c, imports, entry.0@) {
        if shared_by(module, graph, points, included).contains(d) {
            let e = choose|e: DepNode| #[trigger]
                is_needed(module, graph, included, e) && d == redirected(points, e);
            lemma_comes_to(points, e, d);
            assert(asks_for(module, graph, info, i, e));
        }
        if exists|e: DepNode| #[trigger]
            asks_for(module, graph, info, i, e) && comes_to(points, e, d) {
            let e = choose|e: DepNode| #[trigger]
                asks_for(module, graph, info, i, e) && comes_to(points, e, d);
            lemma_comes_to(points, e, d);
            assert(is_needed(module, graph, included, e));
        }
    }
}

/// What is shared is what some module uses of another one, and what implements split points.
pub proof fn lemma_shared_parts(
    module: &InputModule,
    graph: Map<DepNode, KeySet<DepNode>>,
    points: Seq<SplitPoint>,
    version: Seq<u8>,
    info: SplitProgramInfo,
    d: DepNode,
)
    requires
        splits(module, graph, points, version, info),
    ensures
        info.shared_deps@.contains(d) <==> (exists|i: int|
            0 <= i < info.output_modules@.len() && (
            #[trigger] info.output_modules@[i]).1.used_shared_deps@.contains(d)) || (exists|k: int|
            0 <= k < points.len() && d == DepNode::Function((#[trigger] points[k]).export_func)),
        d is Function ==> (info.split_point_exports@.contains(d->Function_0) <==> exists|k: int|
            0 <= k < points.len() && (#[trigger] points[k]).export_func == d->Function_0),
        info.split_points@ == points,
{
    assert(info.shared_deps@.contains(d) <==> is_shared(info.output_modules@, points, d));
    if let DepNode::Function(f) = d {
        assert(info.split_point_exports@.contains(f) <==> export_nodes(points).contains(
            DepNode::Function(f),
        ));
        if export_nodes(points).contains(d) {
            let k = choose|k: int|
                0 <= k < points.len() && d == DepNode::Function((#[trigger] points[k]).export_func);
            assert(points[k].export_func == f);
        }
        if exists|k: int| 0 <= k < points.len() && (#[trigger] points[k]).export_func == f {
            let k = choose|k: int|
                0 <= k < points.len() && (#[trigger] points[k]).export_func == f;
            assert(d == DepNode::Function(points[k].export_func));
        }
    }
}

/// The functions that other modules reach through a shim are those in the main module that use a
/// cast.
pub proof fn lemma_shimmed(
    module: &InputModule,
    graph: Map<DepNode, KeySet<DepNode>>,
    points: Seq<SplitPoint>,
    version: Seq<u8>,
    info: SplitProgramInfo,
    f: usize,
)
    requires
        splits(module, graph, points, version, info),
    ensures
        info.needs_shim_in_main@.contains(f) <==> main_has(info, DepNode::Function(f))
            && uses_cast(module, graph, DepNode::Function(f)),
{
    let c = coloring_of(module, graph, points);
    let imports = import_nodes(points);
    let v = DepNode::Function(f);
    lemma_uses_cast(module, graph, points, v);
    if shims(c, imports).contains(f) {
        assert(is_placed(c, imports, v));
        lemma_nothing_lost(module, graph, points, version, info, v);
        let i = choose|i: int| #[trigger] holds(info, i, v);
        lemma_holds(module, graph, points, version, info, i, v);
        assert(info.output_modules@[i].0 is Main);
    }
    if main_has(info, v) {
        let i = choose|i: int|
            0 <= i < info.output_modules@.len() && (#[trigger] info.output_modules@[i]).0 is Main
                && info.output_modules@[i].1.included_symbols@.contains(v);
        assert(holds(info, i, v));
        lemma_holds(module, graph, points, version, info, i, v);
    }
}

/// There is a module for each name that a split point declares, and every other module holds
/// something.
pub proof fn lemma_modules_listed(
    module: &InputModule,
    graph: Map<DepNode, KeySet<DepNode>>,
    points: Seq<SplitPoint>,
    version: Seq<u8>,
    info: SplitProgramInfo,
    k: int,
    i: int,
)
    requires
        splits(module, graph, points, version, info),
    ensures
        0 <= k < points.len() ==> exists|j: int|
            0 <= j < info.output_modules@.len() && (#[trigger] info.output_modules@[j].0 matches
                SplitModuleIdentifier::Split(name) && name@ == points[k].module_name@),
        0 <= i < info.output_modules@.len() ==> {
            ||| exists|v: DepNode| #[trigger] info.output_modules@[i].1.included_symbols@.contains(v)
            ||| info.output_modules@[i].0 matches SplitModuleIdentifier::Split(name) && exists|
                k: int,
            |
                0 <= k < points.len() && (#[trigger] points[k]).module_name@ == name@
        },
{
    let modules = info.output_modules@;
    let c = coloring_of(module, graph, points);
    let imports = import_nodes(points);
    if 0 <= k < points.len() {
        let name = points[k].module_name@;
        assert(is_declared(points, name));
        let id = ModuleId::Split(name);
        assert(has_module(modules, id));
        let j = choose|j: int| 0 <= j < modules.len() && (#[trigger] modules[j]).0@ == id;
        assert(modules[j].0 is Split);
    }
    if 0 <= i < modules.len() {
        let id = modules[i].0@;
        assert(has_module(modules, id)) by {
            assert(modules[i].0@ == id);
        }
        if is_filled(c, imports, id) {
            let v = choose|v: DepNode| #[trigger] is_placed(c, imports, v) && c.module_of(v) == id;
            assert(contents(c, imports, id).contains(v));
            assert(modules[i].1.included_symbols@.contains(v));
        } else {
            assert(is_declared(points, id->Split_0));
        }
    }
}

} // verus!
