//! What the dependencies of a module guarantee.
use crate::data_deps::{end_of, start_of, DataDependency};
use crate::data_laws::{
    contains_reloc, data_edges, is_smallest, lemma_overlaps_connected, lemma_relocs_reported,
    overlaps, reported, reports, says, symbols_in_order,
};
use crate::dep_graph::{
    can_analyze, code_edge, data_base, data_edge, data_found, data_link, data_node, data_relocs,
    defined_index, dep_error, depends_on, reloc_target, DepNode,
};
use crate::func_relocs::{
    bodies_apart, body_contains, code_base, code_relocs, func_of, funcs_in_order, in_some_body,
    lemma_func_contains,
};
use crate::graph_utils::reach::{lemma_reach_map, lemma_reach_step, lemma_reach_trans, reach};
use crate::read::InputModule;
use crate::reloc::apply::relocs_in_order;
use vstd::prelude::*;

verus! {

/// The direct dependencies of a module.
pub open spec fn dep_edges(module: &InputModule) -> spec_fn(DepNode, DepNode) -> bool {
    |a: DepNode, b: DepNode| depends_on(module, a, b)
}

/// A function depends on what the relocations in its body refer to.
pub proof fn lemma_func_depends(module: &InputModule, i: int, j: int, target: DepNode)
    requires
        bodies_apart(module.defined_funcs@),
        funcs_in_order(module.defined_funcs@),
        relocs_in_order(code_relocs(module)),
        forall|a: int|
            0 <= a < code_relocs(module).len() ==> in_some_body(
                module.defined_funcs@,
                code_base(module),
                #[trigger] code_relocs(module)[a],
            ),
        0 <= i < code_relocs(module).len(),
        body_contains(module.defined_funcs@, code_base(module), j, code_relocs(module)[i]),
        reloc_target(&module.reloc_info, code_relocs(module)[i]) == Some(target),
    ensures
        depends_on(module, DepNode::Function(defined_index(module, j)), target),
{
    lemma_func_contains(module, i, j);
    assert(DepNode::Function(defined_index(module, j)) == DepNode::Function(
        defined_index(module, func_of(module, i)),
    ));
    assert(code_edge(
        module,
        code_relocs(module).len() as int,
        DepNode::Function(defined_index(module, j)),
        target,
    ));
}

/// Dependencies among pieces of data are dependencies of the module.
proof fn lemma_data_reach(module: &InputModule, x: usize, y: usize)
    requires
        reach(data_edges(data_found(module).0), x, y),
    ensures
        reach(dep_edges(module), data_node(module, x), data_node(module, y)),
{
    let deps = data_found(module).0;
    let edges = data_edges(deps);
    let all = dep_edges(module);
    let node = |k: usize| data_node(module, k);
    assert forall|u: usize, w: usize| #[trigger] edges(u, w) implies all(node(u), node(w)) by {
        let d = choose|d: int| 0 <= d < deps.len() && says(#[trigger] deps[d], u, w);
        assert(data_link(module, data_found(module).0[d], node(u), node(w)));
        assert(data_edge(module, deps.len() as int, node(u), node(w)));
    }
    lemma_reach_map(edges, all, node, x, y);
}

/// Relocations can be counted.
proof fn lemma_relocs_counted(module: &InputModule)
    ensures
        data_relocs(module).len() <= usize::MAX,
{
    let info = &module.reloc_info;
    if info.relocs@.contains_key(info.data_section_index) {
        assert(info.relocs@[info.data_section_index].len() <= usize::MAX);
    }
}

/// A piece of data depends, directly or not, on what the relocations in it refer to.
pub proof fn lemma_data_depends(module: &InputModule, x: usize, r: usize, target: DepNode)
    requires
        can_analyze(module),
        dep_error(module) is None,
        symbols_in_order(module.reloc_info.data_symbols@),
        relocs_in_order(data_relocs(module)),
        r < data_relocs(module).len(),
        contains_reloc(
            module.reloc_info.data_symbols@,
            data_base(module),
            x,
            data_relocs(module)[r as int],
        ),
        reloc_target(&module.reloc_info, data_relocs(module)[r as int]) == Some(target),
    ensures
        reach(dep_edges(module), data_node(module, x), target),
{
    let symbols = module.reloc_info.data_symbols@;
    let relocs = data_relocs(module);
    let base = data_base(module);
    let deps = data_found(module).0;
    let all = dep_edges(module);
    lemma_relocs_counted(module);
    lemma_relocs_reported(symbols, relocs, base, r);
    assert(reported(symbols, relocs, base, deps, r));
    let t = choose|t: usize|
        #[trigger] reports(deps, t, r) && is_smallest(symbols, base, t, relocs[r as int])
            && forall|x: usize|
            #[trigger] contains_reloc(symbols, base, x, relocs[r as int]) ==> reach(
                data_edges(deps),
                x,
                t,
            );
    lemma_data_reach(module, x, t);
    let dep = DataDependency::Reloc { symbol: t, reloc: r };
    let d = choose|d: int| 0 <= d < deps.len() && deps[d] == dep;
    assert(data_link(module, data_found(module).0[d], data_node(module, t), target));
    assert(data_edge(module, deps.len() as int, data_node(module, t), target));
    assert(all(data_node(module, t), target));
    lemma_reach_step(all, data_node(module, t), target);
    lemma_reach_trans(all, data_node(module, x), data_node(module, t), target);
}

/// Pieces of data that overlap depend on each other, directly or not.
///
/// The one that comes first depends on the other one. If the other one reaches further, it depends
/// on the first one in turn.
pub proof fn lemma_overlap_depends(module: &InputModule, x: usize, y: usize)
    requires
        can_analyze(module),
        dep_error(module) is None,
        symbols_in_order(module.reloc_info.data_symbols@),
        relocs_in_order(data_relocs(module)),
        overlaps(module.reloc_info.data_symbols@, x, y),
    ensures
        reach(dep_edges(module), data_node(module, x), data_node(module, y)),
        end_of(module.reloc_info.data_symbols@, x) < end_of(module.reloc_info.data_symbols@, y)
            ==> reach(dep_edges(module), data_node(module, y), data_node(module, x)),
{
    let symbols = module.reloc_info.data_symbols@;
    lemma_relocs_counted(module);
    lemma_overlaps_connected(symbols, data_relocs(module), data_base(module), x, y);
    lemma_data_reach(module, x, y);
    if end_of(symbols, x) < end_of(symbols, y) {
        lemma_data_reach(module, y, x);
    }
}

/// Whether two pieces of data have bytes in common.
pub open spec fn share_bytes(module: &InputModule, x: usize, y: usize) -> bool {
    let symbols = module.reloc_info.data_symbols@;
    &&& x < symbols.len() && y < symbols.len()
    &&& exists|i: int|
        #![trigger in_data(module, x, i)]
        in_data(module, x, i) && in_data(module, y, i)
}

/// Whether a position in the input module is inside a piece of data.
pub open spec fn in_data(module: &InputModule, x: usize, i: int) -> bool {
    start_of(module.reloc_info.data_symbols@, x) <= i < end_of(module.reloc_info.data_symbols@, x)
}

/// Whether the piece of data `x` starts no later than `y`, and ends no earlier.
pub open spec fn encloses(module: &InputModule, x: usize, y: usize) -> bool {
    let symbols = module.reloc_info.data_symbols@;
    start_of(symbols, x) <= start_of(symbols, y) && end_of(symbols, y) <= end_of(symbols, x)
}

/// A piece of data depends, directly or not, on what it contains, and pieces of data of which none
/// contains the other one depend on each other if they have bytes in common.
pub proof fn lemma_shared_bytes_depend(module: &InputModule, x: usize, y: usize)
    requires
        can_analyze(module),
        dep_error(module) is None,
        symbols_in_order(module.reloc_info.data_symbols@),
        relocs_in_order(data_relocs(module)),
        share_bytes(module, x, y),
    ensures
        encloses(module, x, y) && !encloses(module, y, x) ==> reach(
            dep_edges(module),
            data_node(module, x),
            data_node(module, y),
        ),
        !encloses(module, x, y) && !encloses(module, y, x) ==> reach(
            dep_edges(module),
            data_node(module, x),
            data_node(module, y),
        ) && reach(dep_edges(module), data_node(module, y), data_node(module, x)),
{
    let symbols = module.reloc_info.data_symbols@;
    let i = choose|i: int|
        #![trigger in_data(module, x, i)]
        in_data(module, x, i) && in_data(module, y, i);
    if x < y {
        assert(start_of(symbols, x) <= start_of(symbols, y));
        lemma_overlap_depends(module, x, y);
    } else if y < x {
        assert(start_of(symbols, y) <= start_of(symbols, x));
        lemma_overlap_depends(module, y, x);
    }
}

} // verus!
