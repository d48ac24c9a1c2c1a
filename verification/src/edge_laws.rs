//! Which edges the dependency graph of a module has, told by its relocations, instructions and data.
use crate::data_deps::{end_of, start_of, DataDependency};
use crate::data_laws::{
    contains_reloc, data_edges, is_smallest, lemma_dependencies_sound, lemma_error_found,
    lemma_relocs_reported, reloc_of, reported, reports, symbols_forward, symbols_in_order,
    touches_reloc,
};
use crate::dep_graph::{
    are_dependencies, body_faults, can_analyze, code_edge, code_faults, data_base, data_edge,
    data_faults, data_found, data_link, data_relocs, defined_index, dep_error, depends_on,
    first_fault, func_operators, global_edge, has_relocs, is_stub, lacks_relocs, reference_error,
    reloc_target, stub_edge, unexpected_in, DepError, DepNode, Dependencies,
};
use crate::dep_laws::{
    dep_edges, encloses, in_data, lemma_data_depends, lemma_shared_bytes_depend, share_bytes,
};
use crate::func_relocs::{
    bodies_apart, body_contains, code_base, code_relocs, func_of, in_some_body, lemma_func_contains,
};
use crate::graph_utils::reach::{lemma_reach_mono, reach};
use crate::graph_utils::tarjan_scc::has_edge;
use crate::keyed::KeySet;
use crate::read::InputModule;
use crate::reloc::apply::relocs_in_order;
use crate::reloc::expand::extent;
use crate::reloc::info::{RelocInfo, RelocationEntry, RelocationType, SymbolInfo};
use crate::reloc::value_laws::width;
use crate::stub_laws::{is_missing, is_stub_op, lemma_callees, lemma_missing, lemma_stub_op_suits};
use crate::stubs::{any_unexpected, called, first_unexpected, short_name, stub_targets, suits_stub};
use crate::wasm::body_operators;
use vstd::prelude::*;

verus! {

/// Whether a relocation stands for a part of the module, by its type and its symbol: data for
/// addresses, functions for function indices and places in a table, and tables, globals and tags
/// for their indices.
pub open spec fn stands_for(
    symbols: Seq<SymbolInfo>,
    relocation: RelocationEntry,
    part: DepNode,
) -> bool {
    match relocation.ty {
        RelocationType::MemoryAddrLeb
        | RelocationType::MemoryAddrSleb
        | RelocationType::MemoryAddrI32
        | RelocationType::MemoryAddrRelSleb
        | RelocationType::MemoryAddrTlsSleb
        | RelocationType::MemoryAddrLocrelI32
        | RelocationType::MemoryAddrLeb64
        | RelocationType::MemoryAddrSleb64
        | RelocationType::MemoryAddrI64
        | RelocationType::MemoryAddrRelSleb64
        | RelocationType::MemoryAddrTlsSleb64 => symbols[relocation.index as int] is Data && part
            == DepNode::DataSymbol(relocation.index as usize),
        RelocationType::TableIndexSleb
        | RelocationType::TableIndexI32
        | RelocationType::TableIndexSleb64
        | RelocationType::TableIndexI64
        | RelocationType::TableIndexRelSleb
        | RelocationType::TableIndexRelSleb64
        | RelocationType::FunctionIndexLeb
        | RelocationType::FunctionIndexI32 => symbols[relocation.index as int] matches
            SymbolInfo::Func { index, .. } && part == DepNode::Function(index as usize),
        RelocationType::TableNumberLeb => symbols[relocation.index as int] matches
            SymbolInfo::Table { index, .. } && part == DepNode::Table(index as usize),
        RelocationType::GlobalIndexLeb
        | RelocationType::GlobalIndexI32 => symbols[relocation.index as int] matches
            SymbolInfo::Global { index, .. } && part == DepNode::Global(index as usize),
        RelocationType::EventIndexLeb => symbols[relocation.index as int] matches
            SymbolInfo::Event { index, .. } && part == DepNode::Tag(index as usize),
        RelocationType::TypeIndexLeb
        | RelocationType::SectionOffsetI32
        | RelocationType::FunctionOffsetI32
        | RelocationType::FunctionOffsetI64 => false,
    }
}

/// Whether a graph has an edge.
pub open spec fn leads_to(graph: Map<DepNode, KeySet<DepNode>>, a: DepNode, b: DepNode) -> bool {
    graph.contains_key(a) && graph[a]@.contains(b)
}

/// Whether the code section has a relocation at position `i`.
pub open spec fn has_code_reloc(module: &InputModule, i: int) -> bool {
    let info = &module.reloc_info;
    info.relocs@.contains_key(info.code_section_index) && 0 <= i
        < info.relocs@[info.code_section_index]@.len()
}

/// The relocation of the code section at position `i`.
pub open spec fn code_reloc(module: &InputModule, i: int) -> RelocationEntry {
    module.reloc_info.relocs@[module.reloc_info.code_section_index]@[i]
}

/// Whether the bytes of a relocation of the code section are in the body of the function that the
/// module defines at position `j`.
pub open spec fn in_body(module: &InputModule, i: int, j: int) -> bool {
    let info = &module.reloc_info;
    let at = info.section_ranges@[info.code_section_index as int].start + code_reloc(
        module,
        i,
    ).offset;
    &&& 0 <= j < module.defined_funcs@.len()
    &&& module.defined_funcs@[j].body.start <= at
    &&& at + width(code_reloc(module, i).ty) <= module.defined_funcs@[j].body.end
}

/// Whether the code of a module is as linkers write it: bodies follow each other, and each
/// relocation is in one of them, in the order of their places.
pub open spec fn code_regular(module: &InputModule) -> bool {
    let funcs = module.defined_funcs@;
    &&& forall|i: int, j: int|
        0 <= i < j < funcs.len() ==> (#[trigger] funcs[i]).body.end <= (
        #[trigger] funcs[j]).body.start && funcs[j].body.start <= funcs[j].body.end
    &&& forall|i: int| #[trigger]
        has_code_reloc(module, i) ==> exists|j: int| #[trigger] in_body(module, i, j)
    &&& forall|i: int, j: int| #[trigger]
        has_code_reloc(module, i) && #[trigger] has_code_reloc(module, j) && i < j ==> code_reloc(
            module,
            i,
        ).offset <= code_reloc(module, j).offset
}

/// The dependencies of a module have been found.
pub open spec fn are_found(module: &InputModule, dependencies: Dependencies) -> bool {
    can_analyze(module) && dep_error(module) is None && are_dependencies(module, dependencies)
}

/// No error comes up if none is the first.
pub(crate) proof fn lemma_no_fault(faults: spec_fn(int) -> Option<DepError>, i: int, n: int)
    requires
        first_fault(faults, n) is None,
        0 <= i < n,
    ensures
        faults(i) is None,
    decreases n,
{
    if i < n - 1 {
        lemma_no_fault(faults, i, n - 1);
    }
}

/// What is regular in the code is so where relocations are assigned to functions.
proof fn lemma_regular(module: &InputModule)
    requires
        code_regular(module),
    ensures
        bodies_apart(module.defined_funcs@),
        relocs_in_order(code_relocs(module)),
        forall|i: int|
            has_code_reloc(module, i) <==> 0 <= i < code_relocs(module).len(),
        forall|i: int| #[trigger]
            has_code_reloc(module, i) ==> code_relocs(module)[i] == code_reloc(module, i),
        forall|a: int|
            0 <= a < code_relocs(module).len() ==> in_some_body(
                module.defined_funcs@,
                code_base(module),
                #[trigger] code_relocs(module)[a],
            ),
        forall|i: int, j: int| #[trigger]
            has_code_reloc(module, i) ==> (#[trigger] in_body(module, i, j) <==> body_contains(
                module.defined_funcs@,
                code_base(module),
                j,
                code_relocs(module)[i],
            )),
{
    let relocs = code_relocs(module);
    assert forall|i: int, j: int| #[trigger] has_code_reloc(module, i) implies (
    #[trigger] in_body(module, i, j) <==> body_contains(
        module.defined_funcs@,
        code_base(module),
        j,
        relocs[i],
    )) by {
        lemma_width(relocs[i].ty);
    }
    assert forall|a: int| 0 <= a < relocs.len() implies in_some_body(
        module.defined_funcs@,
        code_base(module),
        #[trigger] relocs[a],
    ) by {
        assert(has_code_reloc(module, a));
        let j = choose|j: int| #[trigger] in_body(module, a, j);
        assert(body_contains(module.defined_funcs@, code_base(module), j, relocs[a]));
    }
    assert forall|i: int, j: int| 0 <= i < j < relocs.len() implies (#[trigger] relocs[i]).offset
        <= (#[trigger] relocs[j]).offset by {
        assert(has_code_reloc(module, i) && has_code_reloc(module, j));
    }
}

/// A relocation takes as many bytes as its value.
proof fn lemma_width(ty: RelocationType)
    ensures
        extent(ty) == width(ty),
{
}

/// What a relocation stands for is what makes for an edge.
proof fn lemma_stands_for(info: &RelocInfo, relocation: RelocationEntry, part: DepNode)
    requires
        reference_error(info, relocation) is None,
    ensures
        reloc_target(info, relocation) == Some(part) <==> stands_for(
            info.symbols@,
            relocation,
            part,
        ),
{
}

/// A function depends on what the relocations in its body stand for.
pub proof fn lemma_code_edges(
    module: &InputModule,
    dependencies: Dependencies,
    i: int,
    j: int,
    part: DepNode,
)
    requires
        are_found(module, dependencies),
        code_regular(module),
        has_code_reloc(module, i),
        in_body(module, i, j),
        stands_for(module.reloc_info.symbols@, code_reloc(module, i), part),
    ensures
        leads_to(
            dependencies.graph@,
            DepNode::Function((module.imported_funcs@.len() + j) as usize),
            part,
        ),
{
    lemma_regular(module);
    lemma_no_fault(code_faults(module), i, code_relocs(module).len() as int);
    assert(code_faults(module)(i) is None);
    lemma_func_contains(module, i, j);
    lemma_stands_for(&module.reloc_info, code_relocs(module)[i], part);
    let a = DepNode::Function(defined_index(module, j));
    assert(a == DepNode::Function(defined_index(module, func_of(module, i))));
    assert(code_edge(module, code_relocs(module).len() as int, a, part));
    assert(has_edge(dependencies.graph@, a, part));
}

/// Every relocation of the code stands for some part of the module, other than those for types.
pub proof fn lemma_code_refers(module: &InputModule, dependencies: Dependencies, i: int)
    requires
        are_found(module, dependencies),
        has_code_reloc(module, i),
        code_reloc(module, i).ty != RelocationType::TypeIndexLeb,
    ensures
        exists|part: DepNode|
            stands_for(module.reloc_info.symbols@, code_reloc(module, i), part),
{
    let relocation = code_reloc(module, i);
    assert(code_relocs(module)[i] == relocation);
    lemma_no_fault(code_faults(module), i, code_relocs(module).len() as int);
    assert(code_faults(module)(i) is None);
    assert(reference_error(&module.reloc_info, relocation) is None);
    let part = reloc_target(&module.reloc_info, relocation)->0;
    lemma_stands_for(&module.reloc_info, relocation, part);
    assert(stands_for(module.reloc_info.symbols@, relocation, part));
}

/// The instructions of the function that the module defines at position `k`, and whether some
/// cannot be read.
pub open spec fn instructions(module: &InputModule, k: int) -> (
    Seq<(Seq<char>, Option<u32>)>,
    bool,
) {
    let body = module.defined_funcs@[k].body;
    body_operators(module.raw@.subrange(body.start as int, body.end as int))
}

/// Whether the function that the module defines at position `k` has no relocations in its body.
pub open spec fn has_none(module: &InputModule, k: int) -> bool {
    forall|i: int| #[trigger] has_code_reloc(module, i) ==> !in_body(module, i, k)
}

/// A function has no relocations if none is in its body.
pub(crate) proof fn lemma_has_none(module: &InputModule, k: int)
    requires
        can_analyze(module),
        code_regular(module),
    ensures
        lacks_relocs(module, k) <==> has_none(module, k),
{
    lemma_regular(module);
    let n = code_relocs(module).len() as int;
    if has_relocs(module, n, k) {
        let i = choose|i: int| 0 <= i < n && #[trigger] func_of(module, i) == k;
        assert(has_code_reloc(module, i));
        let j = choose|j: int| #[trigger] in_body(module, i, j);
        lemma_func_contains(module, i, j);
        assert(in_body(module, i, k));
    }
    if !has_none(module, k) {
        let i = choose|i: int| #[trigger] has_code_reloc(module, i) && in_body(module, i, k);
        lemma_func_contains(module, i, k);
        assert(has_relocs(module, n, k));
    }
}

/// A function without relocations that only passes parameters on to functions that it calls depends
/// on them, and is noted as a stub.
pub proof fn lemma_stub_edges(module: &InputModule, dependencies: Dependencies, k: int, i: int)
    requires
        are_found(module, dependencies),
        code_regular(module),
        0 <= k < module.defined_funcs@.len(),
        has_none(module, k),
        0 <= i < instructions(module, k).0.len(),
        instructions(module, k).0[i].1 is Some,
        forall|j: int|
            0 <= j < instructions(module, k).0.len() ==> is_stub_op(
                #[trigger] instructions(module, k).0[j],
            ),
    ensures
        leads_to(
            dependencies.graph@,
            DepNode::Function((module.imported_funcs@.len() + k) as usize),
            DepNode::Function(instructions(module, k).0[i].1->0 as usize),
        ),
        dependencies.stub_fns@.contains((module.imported_funcs@.len() + k) as usize),
{
    let ops = instructions(module, k).0;
    lemma_has_none(module, k);
    assert(ops == func_operators(module, k).0);
    assert forall|j: int| 0 <= j < ops.len() implies suits_stub(#[trigger] ops[j]) by {
        lemma_stub_op_suits(ops[j]);
    }
    assert forall|j: int| !#[trigger] first_unexpected(ops, j) by {
        if 0 <= j < ops.len() {
            assert(suits_stub(ops[j]));
        }
    }
    lemma_callees(ops, i);
    assert(is_stub(module, k));
    let a = DepNode::Function(defined_index(module, k));
    let b = DepNode::Function(ops[i].1->0 as usize);
    assert(stub_edge(module, module.defined_funcs@.len() as int, a, b));
    assert(depends_on(module, a, b));
    assert(has_edge(dependencies.graph@, a, b));
}

/// Whether a stub at position `k` calls function `f`.
pub open spec fn calls(module: &InputModule, k: int, f: usize) -> bool {
    let ops = instructions(module, k).0;
    &&& 0 <= k < module.defined_funcs@.len()
    &&& has_none(module, k)
    &&& exists|i: int| 0 <= i < ops.len() && (#[trigger] ops[i]).1 == Some(f as u32) && f
        <= u32::MAX
}

/// A callee is called by an instruction.
proof fn lemma_called_by(ops: Seq<(Seq<char>, Option<u32>)>, f: usize)
    requires
        called(ops).contains(f),
    ensures
        f <= u32::MAX,
        exists|i: int| 0 <= i < ops.len() && (#[trigger] ops[i]).1 == Some(f as u32),
    decreases ops.len(),
{
    if ops.len() > 0 {
        let rest = ops.drop_last();
        if ops.last().1 is Some && ops.last().1->0 as usize == f {
            assert(ops[ops.len() - 1].1 == Some(f as u32));
        } else {
            let j = choose|j: int| 0 <= j < called(ops).len() && called(ops)[j] == f;
            assert(called(rest)[j] == f);
            lemma_called_by(rest, f);
            let i = choose|i: int| 0 <= i < rest.len() && (#[trigger] rest[i]).1 == Some(f as u32);
            assert(ops[i].1 == Some(f as u32));
        }
    }
}

/// Whether a relocation of the data section stands for a part of the module, and its bytes are in
/// the piece of data at position `x`.
pub open spec fn data_refers(module: &InputModule, x: int, r: int, part: DepNode) -> bool {
    let info = &module.reloc_info;
    let relocation = info.relocs@[info.data_section_index]@[r];
    let at = info.section_ranges@[info.data_section_index as int].start + relocation.offset;
    &&& 0 <= x < info.data_symbols@.len()
    &&& info.relocs@.contains_key(info.data_section_index)
    &&& 0 <= r < info.relocs@[info.data_section_index]@.len()
    &&& info.data_symbols@[x].range.start <= at
    &&& at + width(relocation.ty) <= info.data_symbols@[x].range.end
    &&& stands_for(info.symbols@, relocation, part)
}

/// Whether the pieces of data and their relocations are in the order of their places, and no piece
/// of data is empty.
pub open spec fn data_regular(module: &InputModule) -> bool {
    let info = &module.reloc_info;
    &&& info.data_symbols@.len() <= usize::MAX
    &&& forall|x: int|
        0 <= x < info.data_symbols@.len() ==> (#[trigger] info.data_symbols@[x]).range.start
            < info.data_symbols@[x].range.end
    &&& forall|x: int, y: int|
        0 <= x < y < info.data_symbols@.len() ==> (#[trigger] info.data_symbols@[x]).range.start
            <= (#[trigger] info.data_symbols@[y]).range.start
    &&& info.relocs@.contains_key(info.data_section_index) ==> forall|i: int, j: int|
        0 <= i < j < info.relocs@[info.data_section_index]@.len() ==> (
        #[trigger] info.relocs@[info.data_section_index]@[i]).offset <= (
        #[trigger] info.relocs@[info.data_section_index]@[j]).offset
}

/// The edges of a graph, as a relation.
pub open spec fn edges_of(graph: Map<DepNode, KeySet<DepNode>>) -> spec_fn(DepNode, DepNode) -> bool {
    |a: DepNode, b: DepNode| leads_to(graph, a, b)
}

/// The part of the module that the piece of data at position `x` is.
pub open spec fn data_part(module: &InputModule, x: int) -> DepNode {
    DepNode::DataSymbol(module.reloc_info.data_symbols@[x].symbol_index)
}

/// What is reached by dependencies is reached in the graph.
proof fn lemma_reach_in_graph(
    module: &InputModule,
    dependencies: Dependencies,
    a: DepNode,
    b: DepNode,
)
    requires
        are_found(module, dependencies),
        reach(dep_edges(module), a, b),
    ensures
        reach(edges_of(dependencies.graph@), a, b),
{
    let e = dep_edges(module);
    let f = edges_of(dependencies.graph@);
    assert forall|u: DepNode, w: DepNode| #[trigger] e(u, w) implies f(u, w) by {
        assert(has_edge(dependencies.graph@, u, w));
    }
    lemma_reach_mono(e, f, a, b);
}

/// What is regular in the data is so where dependencies are looked for.
pub(crate) proof fn lemma_data_regular(module: &InputModule)
    requires
        data_regular(module),
    ensures
        symbols_in_order(module.reloc_info.data_symbols@),
        relocs_in_order(data_relocs(module)),
        data_relocs(module).len() <= usize::MAX,
{
    let info = &module.reloc_info;
    if info.relocs@.contains_key(info.data_section_index) {
        assert(info.relocs@[info.data_section_index].len() <= usize::MAX);
    }
    let symbols = info.data_symbols@;
    assert forall|i: usize, j: usize| i < j < symbols.len() implies (#[trigger] start_of(
        symbols,
        i,
    )) <= #[trigger] start_of(symbols, j) by {
        assert(symbols[i as int].range.start <= symbols[j as int].range.start);
    }
}

/// A piece of data leads, directly or not, to what the relocations in it stand for.
pub proof fn lemma_data_reaches(
    module: &InputModule,
    dependencies: Dependencies,
    x: int,
    r: int,
    part: DepNode,
)
    requires
        are_found(module, dependencies),
        data_regular(module),
        data_refers(module, x, r, part),
    ensures
        reach(edges_of(dependencies.graph@), data_part(module, x), part),
{
    lemma_data_regular(module);
    let relocs = data_relocs(module);
    let symbols = module.reloc_info.data_symbols@;
    lemma_width(relocs[r].ty);
    assert(contains_reloc(symbols, data_base(module), x as usize, relocs[r]));
    lemma_relocs_reported(symbols, relocs, data_base(module), r as usize);
    lemma_reported_faultless(module, r as usize);
    lemma_stands_for(&module.reloc_info, relocs[r], part);
    lemma_data_depends(module, x as usize, r as usize, part);
    lemma_reach_in_graph(module, dependencies, data_part(module, x), part);
}

/// A relocation of the data section that is reported suits its symbol.
proof fn lemma_reported_faultless(module: &InputModule, r: usize)
    requires
        dep_error(module) is None,
        r < data_relocs(module).len(),
        reported(
            module.reloc_info.data_symbols@,
            data_relocs(module),
            data_base(module),
            data_found(module).0,
            r,
        ),
    ensures
        reference_error(&module.reloc_info, data_relocs(module)[r as int]) is None,
{
    let deps = data_found(module).0;
    let t = choose|t: usize|
        #[trigger] reports(deps, t, r) && is_smallest(
            module.reloc_info.data_symbols@,
            data_base(module),
            t,
            data_relocs(module)[r as int],
        ) && forall|x: usize|
            #[trigger] contains_reloc(
                module.reloc_info.data_symbols@,
                data_base(module),
                x,
                data_relocs(module)[r as int],
            ) ==> reach(data_edges(deps), x, t);
    let dep = DataDependency::Reloc { symbol: t, reloc: r };
    let d = choose|d: int| 0 <= d < deps.len() && deps[d] == dep;
    lemma_no_fault(data_faults(module), d, deps.len() as int);
    assert(data_faults(module)(d) is None);
}

/// A piece of data leads, directly or not, to what it contains, and pieces of data with bytes in
/// common of which none contains the other one lead to each other.
pub proof fn lemma_overlaps_reach(
    module: &InputModule,
    dependencies: Dependencies,
    x: int,
    y: int,
    b: int,
)
    requires
        are_found(module, dependencies),
        data_regular(module),
        0 <= x < module.reloc_info.data_symbols@.len(),
        0 <= y < module.reloc_info.data_symbols@.len(),
        module.reloc_info.data_symbols@[x].range.start <= b
            < module.reloc_info.data_symbols@[x].range.end,
        module.reloc_info.data_symbols@[y].range.start <= b
            < module.reloc_info.data_symbols@[y].range.end,
    ensures
        ({
            let p = module.reloc_info.data_symbols@[x].range;
            let q = module.reloc_info.data_symbols@[y].range;
            let edges = edges_of(dependencies.graph@);
            let here = data_part(module, x);
            let there = data_part(module, y);
            &&& p.start <= q.start && q.end <= p.end && (p.start < q.start || q.end < p.end)
                ==> reach(edges, here, there)
            &&& p.start < q.start && p.end < q.end ==> reach(edges, here, there) && reach(
                edges,
                there,
                here,
            )
        }),
{
    lemma_data_regular(module);
    let u = x as usize;
    let w = y as usize;
    assert(in_data(module, u, b) && in_data(module, w, b));
    assert(share_bytes(module, u, w));
    lemma_shared_bytes_depend(module, u, w);
    let p = module.reloc_info.data_symbols@[x].range;
    let q = module.reloc_info.data_symbols@[y].range;
    if p.start <= q.start && q.end <= p.end && (p.start < q.start || q.end < p.end) {
        assert(encloses(module, u, w) && !encloses(module, w, u));
        lemma_reach_in_graph(module, dependencies, data_part(module, x), data_part(module, y));
    }
    if p.start < q.start && p.end < q.end {
        assert(!encloses(module, u, w) && !encloses(module, w, u));
        lemma_reach_in_graph(module, dependencies, data_part(module, x), data_part(module, y));
        lemma_reach_in_graph(module, dependencies, data_part(module, y), data_part(module, x));
    }
}

/// A global that holds the address of a piece of data depends on it.
pub proof fn lemma_global_edges(module: &InputModule, dependencies: Dependencies, global: usize)
    requires
        are_found(module, dependencies),
        module.reloc_info.symbol_as_global@.contains_key(global),
    ensures
        leads_to(
            dependencies.graph@,
            DepNode::Global(global),
            DepNode::DataSymbol(module.reloc_info.symbol_as_global@[global]),
        ),
{
    let a = DepNode::Global(global);
    let b = DepNode::DataSymbol(module.reloc_info.symbol_as_global@[global]);
    assert(global_edge(module, a, b));
    assert(has_edge(dependencies.graph@, a, b));
}

/// Whether two pieces of data have a byte in common.
pub open spec fn share_byte(module: &InputModule, x: int, y: int) -> bool {
    let p = module.reloc_info.data_symbols@[x].range;
    let q = module.reloc_info.data_symbols@[y].range;
    &&& 0 <= x < module.reloc_info.data_symbols@.len()
    &&& 0 <= y < module.reloc_info.data_symbols@.len()
    &&& p.start < q.end && q.start < p.end
}

/// Every edge has a reason: a relocation in the body of a function, a call of a stub, a relocation
/// in a piece of data, data with common bytes, or a global that holds an address.
pub proof fn lemma_edge_reasons(
    module: &InputModule,
    dependencies: Dependencies,
    a: DepNode,
    b: DepNode,
)
    requires
        are_found(module, dependencies),
        code_regular(module),
        data_regular(module),
        leads_to(dependencies.graph@, a, b),
    ensures
        match a {
            DepNode::Function(f) => {
                ||| exists|i: int, j: int| #[trigger]
                    in_body(module, i, j) && has_code_reloc(module, i) && f
                        == module.imported_funcs@.len() + j && stands_for(
                        module.reloc_info.symbols@,
                        code_reloc(module, i),
                        b,
                    )
                ||| b is Function && f >= module.imported_funcs@.len() && calls(
                    module,
                    f - module.imported_funcs@.len(),
                    b->Function_0,
                )
            },
            DepNode::DataSymbol(_) => {
                ||| exists|x: int, r: int| #[trigger]
                    data_refers(module, x, r, b) && a == data_part(module, x)
                ||| exists|x: int, y: int| #[trigger]
                    share_byte(module, x, y) && a == data_part(module, x) && b == data_part(
                        module,
                        y,
                    )
            },
            DepNode::Global(g) => module.reloc_info.symbol_as_global@.contains_key(g) && b
                == DepNode::DataSymbol(module.reloc_info.symbol_as_global@[g]),
            _ => false,
        },
{
    lemma_regular(module);
    lemma_data_regular(module);
    assert(has_edge(dependencies.graph@, a, b));
    assert(depends_on(module, a, b));
    let n = code_relocs(module).len() as int;
    if code_edge(module, n, a, b) {
        let i = choose|i: int|
            0 <= i < n && a == DepNode::Function(
                defined_index(module, #[trigger] func_of(module, i)),
            ) && reloc_target(&module.reloc_info, code_relocs(module)[i]) == Some(b);
        assert(has_code_reloc(module, i));
        let j = choose|j: int| #[trigger] in_body(module, i, j);
        lemma_func_contains(module, i, j);
        lemma_no_fault(code_faults(module), i, n);
        assert(code_faults(module)(i) is None);
        lemma_stands_for(&module.reloc_info, code_relocs(module)[i], b);
        assert(in_body(module, i, j));
    } else if stub_edge(module, module.defined_funcs@.len() as int, a, b) {
        let k = choose|k: int|
            0 <= k < module.defined_funcs@.len() && #[trigger] is_stub(module, k) && a
                == DepNode::Function(defined_index(module, k)) && b is Function
                && stub_targets(func_operators(module, k).0)->0.contains(
                b->Function_0,
            );
        lemma_has_none(module, k);
        let ops = instructions(module, k).0;
        assert(ops == func_operators(module, k).0);
        lemma_called_by(ops, b->Function_0);
        assert(calls(module, k, b->Function_0));
    } else if data_edge(module, data_found(module).0.len() as int, a, b) {
        let deps = data_found(module).0;
        let d = choose|d: int|
            0 <= d < deps.len() && data_link(module, #[trigger] data_found(module).0[d], a, b);
        let symbols = module.reloc_info.data_symbols@;
        lemma_dependencies_sound(symbols, data_relocs(module), data_base(module), d);
        match deps[d] {
            DataDependency::Reloc { symbol, reloc } => {
                lemma_no_fault(data_faults(module), d, deps.len() as int);
                assert(data_faults(module)(d) is None);
                lemma_stands_for(&module.reloc_info, data_relocs(module)[reloc as int], b);
                lemma_width(data_relocs(module)[reloc as int].ty);
                assert(data_refers(module, symbol as int, reloc as int, b));
            },
            DataDependency::Containment { container, inner } => {
                assert(share_byte(module, container as int, inner as int));
            },
            DataDependency::DirectedOverlap { from, to, back_to, container } => {
                assert(share_byte(module, from as int, to as int));
                assert(share_byte(module, to as int, back_to as int));
                if container is Some {
                    assert(share_byte(module, container->0 as int, to as int));
                }
            },
        }
    }
}

/// Whether a relocation can be used: it stands for a part of the module, or for a type.
pub open spec fn is_usable(symbols: Seq<SymbolInfo>, relocation: RelocationEntry) -> bool {
    relocation.ty == RelocationType::TypeIndexLeb || exists|part: DepNode| #[trigger]
        stands_for(symbols, relocation, part)
}

/// Relocations that can be used suit their symbols.
pub(crate) proof fn lemma_usable(info: &RelocInfo, relocation: RelocationEntry)
    ensures
        reference_error(info, relocation) is None <==> is_usable(info.symbols@, relocation),
{
    if reference_error(info, relocation) is None && relocation.ty != RelocationType::TypeIndexLeb {
        let part = reloc_target(info, relocation)->0;
        lemma_stands_for(info, relocation, part);
        assert(stands_for(info.symbols@, relocation, part));
    }
}

/// No error is the first if there is none.
proof fn lemma_no_first_fault(faults: spec_fn(int) -> Option<DepError>, n: int)
    requires
        forall|i: int| 0 <= i < n ==> (#[trigger] faults(i)) is None,
    ensures
        first_fault(faults, n) is None,
    decreases n,
{
    if n > 0 {
        lemma_no_first_fault(faults, n - 1);
    }
}

/// The relocation of the data section at position `r`.
pub open spec fn data_reloc(module: &InputModule, r: int) -> RelocationEntry {
    module.reloc_info.relocs@[module.reloc_info.data_section_index]@[r]
}

/// Whether the data section has a relocation at position `r`.
pub open spec fn has_data_reloc(module: &InputModule, r: int) -> bool {
    let info = &module.reloc_info;
    info.relocs@.contains_key(info.data_section_index) && 0 <= r
        < info.relocs@[info.data_section_index]@.len()
}

/// Whether the bytes of a relocation of the data section are in the piece of data at position `x`.
pub open spec fn in_piece(module: &InputModule, r: int, x: int) -> bool {
    let info = &module.reloc_info;
    let at = info.section_ranges@[info.data_section_index as int].start + data_reloc(
        module,
        r,
    ).offset;
    &&& 0 <= x < info.data_symbols@.len()
    &&& info.data_symbols@[x].range.start <= at
    &&& at + width(data_reloc(module, r).ty) <= info.data_symbols@[x].range.end
}

/// The dependencies of a module are found if all relocations can be used, those of the data section
/// are in pieces of data, and functions without relocations can be read.
pub proof fn lemma_dependencies_found(module: &InputModule)
    requires
        can_analyze(module),
        code_regular(module),
        data_regular(module),
        forall|i: int| #[trigger]
            has_code_reloc(module, i) ==> is_usable(
                module.reloc_info.symbols@,
                code_reloc(module, i),
            ),
        forall|r: int| #[trigger]
            has_data_reloc(module, r) ==> is_usable(
                module.reloc_info.symbols@,
                data_reloc(module, r),
            ) && exists|x: int| #[trigger] in_piece(module, r, x),
        forall|k: int|
            0 <= k < module.defined_funcs@.len() && #[trigger] has_none(module, k)
                ==> !instructions(module, k).1,
    ensures
        dep_error(module) is None,
{
    lemma_regular(module);
    lemma_data_regular(module);
    let relocs = code_relocs(module);
    let faults = code_faults(module);
    assert forall|i: int| 0 <= i < relocs.len() implies (#[trigger] faults(i)) is None by {
        assert(has_code_reloc(module, i));
        let j = choose|j: int| #[trigger] in_body(module, i, j);
        lemma_func_contains(module, i, j);
        lemma_width(relocs[i].ty);
        lemma_usable(&module.reloc_info, relocs[i]);
    }
    lemma_no_first_fault(faults, relocs.len() as int);
    let bodies = body_faults(module);
    assert forall|k: int| 0 <= k < module.defined_funcs@.len() implies (
    #[trigger] bodies(k)) is None by {
        lemma_has_none(module, k);
    }
    lemma_no_first_fault(bodies, module.defined_funcs@.len() as int);
    let symbols = module.reloc_info.data_symbols@;
    let places = data_relocs(module);
    let deps = data_found(module).0;
    let datas = data_faults(module);
    assert forall|d: int| 0 <= d < deps.len() implies (#[trigger] datas(d)) is None by {
        lemma_dependencies_sound(symbols, places, data_base(module), d);
        if let DataDependency::Reloc { symbol, reloc } = deps[d] {
            assert(has_data_reloc(module, reloc as int));
            assert(places[reloc as int] == data_reloc(module, reloc as int));
            lemma_usable(&module.reloc_info, places[reloc as int]);
        }
    }
    lemma_no_first_fault(datas, deps.len() as int);
    if let Some(error) = data_found(module).1 {
        assert(symbols_forward(symbols)) by {
            assert forall|k: usize| k < symbols.len() implies (#[trigger] start_of(symbols, k))
                <= end_of(symbols, k) by {
                assert(symbols[k as int].range.start < symbols[k as int].range.end);
            }
        }
        lemma_error_found(symbols, places, data_base(module), error);
        let at = reloc_of(error);
        assert(has_data_reloc(module, at as int));
        assert(places[at as int] == data_reloc(module, at as int));
        lemma_width(places[at as int].ty);
        let x = choose|x: int| #[trigger] in_piece(module, at as int, x);
        assert(contains_reloc(symbols, data_base(module), x as usize, places[at as int]));
        assert(touches_reloc(symbols, data_base(module), x as usize, places[at as int]));
    }
}

/// If the dependencies of a module are found, all relocations can be used, those of the data
/// section are in pieces of data, and functions that are taken for stubs can be read.
pub proof fn lemma_found_means(module: &InputModule, dependencies: Dependencies, i: int, r: int)
    requires
        are_found(module, dependencies),
        data_regular(module),
    ensures
        has_code_reloc(module, i) ==> is_usable(
            module.reloc_info.symbols@,
            code_reloc(module, i),
        ),
        has_data_reloc(module, r) ==> is_usable(
            module.reloc_info.symbols@,
            data_reloc(module, r),
        ) && exists|x: int| #[trigger] in_piece(module, r, x),
{
    lemma_data_regular(module);
    if has_code_reloc(module, i) {
        assert(code_relocs(module)[i] == code_reloc(module, i));
        lemma_no_fault(code_faults(module), i, code_relocs(module).len() as int);
        assert(code_faults(module)(i) is None);
        lemma_usable(&module.reloc_info, code_reloc(module, i));
    }
    if has_data_reloc(module, r) {
        let symbols = module.reloc_info.data_symbols@;
        let relocs = data_relocs(module);
        assert(relocs[r] == data_reloc(module, r));
        lemma_relocs_reported(symbols, relocs, data_base(module), r as usize);
        lemma_reported_faultless(module, r as usize);
        lemma_usable(&module.reloc_info, relocs[r]);
        let t = choose|t: usize|
            #[trigger] reports(data_found(module).0, t, r as usize) && is_smallest(
                symbols,
                data_base(module),
                t,
                relocs[r],
            ) && forall|x: usize|
                #[trigger] contains_reloc(symbols, data_base(module), x, relocs[r]) ==> reach(
                    data_edges(data_found(module).0),
                    x,
                    t,
                );
        lemma_width(relocs[r].ty);
        assert(in_piece(module, r, t as int));
    }
}

/// `funcs` are the positions of the functions without relocations of which an instruction with a
/// name shows that relocations are missing, in order.
pub open spec fn are_missing(module: &InputModule, name: Seq<char>, funcs: Seq<int>) -> bool {
    &&& forall|i: int, j: int| 0 <= i < j < funcs.len() ==> #[trigger] funcs[i] < #[trigger] funcs[j]
    &&& forall|k: int| #[trigger]
        funcs.contains(k) <==> 0 <= k < module.defined_funcs@.len() && has_none(module, k)
            && is_missing(instructions(module, k).0, name)
}

/// An instruction that shows that relocations are missing is noted with the number of functions in
/// which it does so, and the first one of these.
pub proof fn lemma_missing_noted(
    module: &InputModule,
    dependencies: Dependencies,
    name: Seq<char>,
)
    requires
        are_found(module, dependencies),
        code_regular(module),
    ensures
        exists|funcs: Seq<int>| #[trigger]
            are_missing(module, name, funcs) && (dependencies.unexpected_ops@.contains_key(name)
                <==> funcs.len() > 0) && (funcs.len() > 0 ==> dependencies.unexpected_ops@[name].0
                == funcs.len() && dependencies.unexpected_ops@[name].1
                == module.imported_funcs@.len() + funcs[0]),
{
    let n = module.defined_funcs@.len() as int;
    assert(module.defined_funcs.len() == module.defined_funcs@.len());
    let funcs = lemma_missing_in(module, name, n);
    assert(are_missing(module, name, funcs));
}

/// The functions among the first `n`.
proof fn lemma_missing_in(module: &InputModule, name: Seq<char>, n: int) -> (funcs: Seq<int>)
    requires
        can_analyze(module),
        code_regular(module),
        0 <= n <= module.defined_funcs@.len() <= usize::MAX,
    ensures
        funcs.len() <= n,
        forall|i: int, j: int|
            0 <= i < j < funcs.len() ==> #[trigger] funcs[i] < #[trigger] funcs[j],
        forall|k: int| #[trigger]
            funcs.contains(k) <==> 0 <= k < n && has_none(module, k) && is_missing(
                instructions(module, k).0,
                name,
            ),
        ({
            let noted = unexpected_in(module, n);
            &&& noted.contains_key(name) <==> funcs.len() > 0
            &&& funcs.len() > 0 ==> noted[name].0 == funcs.len() && noted[name].1
                == module.imported_funcs@.len() + funcs[0]
        }),
    decreases n,
{
    if n == 0 {
        Seq::empty()
    } else {
        let before = lemma_missing_in(module, name, n - 1);
        let ops = instructions(module, n - 1).0;
        assert(ops == func_operators(module, n - 1).0);
        lemma_has_none(module, n - 1);
        lemma_missing(ops, name);
        assert forall|i: int| 0 <= i < before.len() implies #[trigger] before[i] < n - 1 by {
            assert(before.contains(before[i]));
        }
        if lacks_relocs(module, n - 1) && is_missing(ops, name) {
            let funcs = before.push(n - 1);
            assert forall|k: int| #[trigger] funcs.contains(k) <==> before.contains(k) || k == n
                - 1 by {
                if before.contains(k) {
                    let i = choose|i: int| 0 <= i < before.len() && before[i] == k;
                    assert(funcs[i] == k);
                }
                assert(funcs[before.len() as int] == n - 1);
            }
            let i = choose|i: int| #[trigger] first_unexpected(ops, i);
            assert(short_name(ops[i].0) == name);
            if before.len() > 0 {
                assert(funcs[0] == before[0]);
            }
            funcs
        } else {
            if lacks_relocs(module, n - 1) && any_unexpected(ops) {
                let i = choose|i: int| #[trigger] first_unexpected(ops, i);
                assert(short_name(ops[i].0) != name);
            }
            before
        }
    }
}

} // verus!
