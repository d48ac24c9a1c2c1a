//! Which parts of a module depend on which.
use crate::data_deps::{
    all_fit, dep_exists, find_data_dependencies, fits, lemma_deps_exist, reloc_end, sweep,
    DataDependency, SweepError,
};
use crate::func_relocs::{
    can_assign, code_relocs, func_error, func_of, funcs_in_order, is_in, iter_functions_with_relocs,
    FuncRelocError,
};
use crate::graph_utils::tarjan_scc::{has_edge, Graph};
use crate::keyed::{KeyMap, KeySet, NodeKey};
use crate::name_map::NameMap;
use crate::read::{GlobalId, InputFuncId, InputModule, MemoryId, SymbolIndex, TableId, TagId};
use crate::reloc::apply::section_relocs;
use crate::reloc::expand::{
    can_expand, expand_error, target_kind, RelocDetails, RelocError, TargetKind,
};
use crate::reloc::info::{RelocInfo, RelocationEntry, SymbolInfo};
use crate::stubs::{
    any_unexpected, checks, counted, first_unexpected, short_name, stub_targets,
    validate_no_reloc_stub, OperatorView, StubCheck, UnexpectedOps,
};
use crate::wasm::body_operators;
use vstd::prelude::*;
use vstd::slice::slice_subrange;

verus! {

/// A part of a module that can depend on other parts.
#[derive(Debug, PartialEq, Eq, Hash, Copy, PartialOrd, Ord, Clone, Structural)]
pub enum DepNode {
    /// A function.
    Function(InputFuncId),
    /// A piece of data that has a symbol.
    DataSymbol(SymbolIndex),
    /// A global.
    Global(GlobalId),
    /// A table.
    Table(TableId),
    /// A tag.
    Tag(TagId),
    /// A memory.
    Memory(MemoryId),
}

/// The direct dependencies of each part.
pub type DepGraph = Graph<DepNode>;

impl DepNode {
    /// The kind of this part, as a number.
    pub open spec fn kind(self) -> u128 {
        match self {
            DepNode::Function(_) => 0,
            DepNode::DataSymbol(_) => 1,
            DepNode::Global(_) => 2,
            DepNode::Table(_) => 3,
            DepNode::Tag(_) => 4,
            DepNode::Memory(_) => 5,
        }
    }

    /// The index of this part among those of its kind.
    pub open spec fn index(self) -> usize {
        match self {
            DepNode::Function(index) => index,
            DepNode::DataSymbol(index) => index,
            DepNode::Global(index) => index,
            DepNode::Table(index) => index,
            DepNode::Tag(index) => index,
            DepNode::Memory(index) => index,
        }
    }
}

impl NodeKey for DepNode {
    open spec fn spec_key(self) -> u128 {
        (self.kind() * 0x1_0000_0000_0000_0000 + self.index()) as u128
    }

    proof fn lemma_key_injective(a: Self, b: Self) {
    }

    fn key(&self) -> (key: u128) {
        let (kind, index): (u128, usize) = match self {
            DepNode::Function(index) => (0, *index),
            DepNode::DataSymbol(index) => (1, *index),
            DepNode::Global(index) => (2, *index),
            DepNode::Table(index) => (3, *index),
            DepNode::Tag(index) => (4, *index),
            DepNode::Memory(index) => (5, *index),
        };
        kind * 0x1_0000_0000_0000_0000 + index as u128
    }

    fn from_key(key: u128) -> (value: Option<Self>) {
        let kind: u128 = key / 0x1_0000_0000_0000_0000;
        let rest: u128 = key % 0x1_0000_0000_0000_0000;
        if rest > usize::MAX as u128 {
            return None;
        }
        let index: usize = rest as usize;
        if kind == 0 {
            Some(DepNode::Function(index))
        } else if kind == 1 {
            Some(DepNode::DataSymbol(index))
        } else if kind == 2 {
            Some(DepNode::Global(index))
        } else if kind == 3 {
            Some(DepNode::Table(index))
        } else if kind == 4 {
            Some(DepNode::Tag(index))
        } else if kind == 5 {
            Some(DepNode::Memory(index))
        } else {
            None
        }
    }
}

/// The dependencies of a module.
pub struct Dependencies {
    /// Which parts depend on which.
    pub graph: DepGraph,
    /// The functions that only call others, and for which the linker gives no relocations.
    pub stub_fns: KeySet<InputFuncId>,
    /// Instructions in functions for which relocations are missing.
    pub unexpected_ops: UnexpectedOps,
}

/// Why the dependencies of a module cannot be found.
#[derive(Debug)]
pub enum DepError {
    /// A relocation of the code section is in no function.
    Code(FuncRelocError),
    /// A relocation does not suit the symbol that it refers to.
    Reference(RelocError),
    /// The instructions of a function cannot be read.
    Body {
        /// The function.
        func: InputFuncId,
    },
    /// A relocation of the data section is in no piece of data.
    Data(SweepError),
}

/// The first of some errors, of which there may be one for each number below `n`.
pub open spec fn first_fault(faults: spec_fn(int) -> Option<DepError>, n: int) -> Option<DepError>
    decreases n,
{
    if n <= 0 {
        None
    } else {
        match first_fault(faults, n - 1) {
            Some(error) => Some(error),
            None => faults(n - 1),
        }
    }
}

/// The first error stays the first one when there are more.
proof fn lemma_first_fault(faults: spec_fn(int) -> Option<DepError>, i: int, n: int)
    requires
        i <= n,
        first_fault(faults, i) is Some,
    ensures
        first_fault(faults, n) == first_fault(faults, i),
    decreases n - i,
{
    if i < n {
        lemma_first_fault(faults, i, n - 1);
    }
}

/// What a relocation makes a part of the module depend on.
pub open spec fn reloc_target(info: &RelocInfo, reloc: RelocationEntry) -> Option<DepNode> {
    match (target_kind(reloc.ty), info.symbols@[reloc.index as int]) {
        (TargetKind::MemoryAddr, _) => Some(DepNode::DataSymbol(reloc.index as usize)),
        (TargetKind::TableIndex, SymbolInfo::Func { index, .. }) => Some(
            DepNode::Function(index as usize),
        ),
        (TargetKind::RelTableIndex, SymbolInfo::Func { index, .. }) => Some(
            DepNode::Function(index as usize),
        ),
        (TargetKind::FunctionIndex, SymbolInfo::Func { index, .. }) => Some(
            DepNode::Function(index as usize),
        ),
        (TargetKind::TableNumber, SymbolInfo::Table { index, .. }) => Some(
            DepNode::Table(index as usize),
        ),
        (TargetKind::GlobalIndex, SymbolInfo::Global { index, .. }) => Some(
            DepNode::Global(index as usize),
        ),
        (TargetKind::TagIndex, SymbolInfo::Event { index, .. }) => Some(
            DepNode::Tag(index as usize),
        ),
        _ => None,
    }
}

/// The error for a relocation that does not suit its symbol.
pub open spec fn reference_error(info: &RelocInfo, reloc: RelocationEntry) -> Option<DepError> {
    if can_expand(reloc.ty, info.symbols@[reloc.index as int]) {
        None
    } else {
        Some(DepError::Reference(expand_error(reloc.ty, reloc.index as usize)))
    }
}

/// The start of the data section.
pub open spec fn data_base(module: &InputModule) -> usize {
    module.reloc_info.section_ranges@[module.reloc_info.data_section_index as int].start
}

/// The relocations of the data section.
pub open spec fn data_relocs(module: &InputModule) -> Seq<RelocationEntry> {
    section_relocs(&module.reloc_info, module.reloc_info.data_section_index)
}

/// All relocations refer to symbols that exist.
pub open spec fn symbols_exist(info: &RelocInfo, relocs: Seq<RelocationEntry>) -> bool {
    forall|i: int| 0 <= i < relocs.len() ==> (#[trigger] relocs[i]).index < info.symbols@.len()
}

/// All functions have their bodies in the input module.
pub open spec fn bodies_exist(module: &InputModule) -> bool {
    forall|i: int|
        0 <= i < module.defined_funcs@.len() ==> (
        #[trigger] module.defined_funcs@[i]).body.start <= module.defined_funcs@[i].body.end
            <= module.raw@.len()
}

/// Whether everything that a module refers to exists, so that dependencies can be looked for.
pub open spec fn can_analyze(module: &InputModule) -> bool {
    &&& can_assign(module)
    &&& module.reloc_info.data_section_index < module.reloc_info.section_ranges@.len()
    &&& all_fit(data_relocs(module), data_base(module))
    &&& symbols_exist(&module.reloc_info, code_relocs(module))
    &&& symbols_exist(&module.reloc_info, data_relocs(module))
    &&& bodies_exist(module)
}

/// The index of a function that the module defines.
pub open spec fn defined_index(module: &InputModule, k: int) -> InputFuncId {
    (module.imported_funcs@.len() + k) as usize
}

/// The error for relocation `i` of the code section, if there is one.
pub open spec fn code_faults(module: &InputModule) -> spec_fn(int) -> Option<DepError> {
    |i: int|
        match func_error(module, i) {
            Some(error) => Some(DepError::Code(error)),
            None => reference_error(&module.reloc_info, code_relocs(module)[i]),
        }
}

/// Whether one of the first `n` relocations of the code section makes `a` depend on `b`.
pub open spec fn code_edge(module: &InputModule, n: int, a: DepNode, b: DepNode) -> bool {
    exists|i: int|
        0 <= i < n && a == DepNode::Function(defined_index(module, #[trigger] func_of(module, i)))
            && reloc_target(&module.reloc_info, code_relocs(module)[i]) == Some(b)
}

/// Whether one of the first `n` relocations of the code section is in a function.
pub open spec fn has_relocs(module: &InputModule, n: int, k: int) -> bool {
    exists|i: int| 0 <= i < n && #[trigger] func_of(module, i) == k
}

/// The instructions of a function that the module defines, and whether some cannot be read.
pub open spec fn func_operators(module: &InputModule, k: int) -> (Seq<OperatorView>, bool) {
    let body = module.defined_funcs@[k].body;
    body_operators(module.raw@.subrange(body.start as int, body.end as int))
}

/// Whether a function that the module defines has no relocations, and is looked at closer.
pub open spec fn lacks_relocs(module: &InputModule, k: int) -> bool {
    !has_relocs(module, code_relocs(module).len() as int, k)
}

/// Whether a function that the module defines is a stub for which the linker gives no relocations.
pub open spec fn is_stub(module: &InputModule, k: int) -> bool {
    &&& lacks_relocs(module, k)
    &&& !any_unexpected(func_operators(module, k).0)
    &&& stub_targets(func_operators(module, k).0) is Some
}

/// The error for a function that the module defines, if there is one.
pub open spec fn body_faults(module: &InputModule) -> spec_fn(int) -> Option<DepError> {
    |k: int|
        if lacks_relocs(module, k) && !any_unexpected(func_operators(module, k).0)
            && func_operators(module, k).1 {
            Some(DepError::Body { func: defined_index(module, k) })
        } else {
            None
        }
}

/// Whether one of the first `n` functions that the module defines is a stub that is `a` and calls
/// `b`.
pub open spec fn stub_edge(module: &InputModule, n: int, a: DepNode, b: DepNode) -> bool {
    exists|k: int|
        0 <= k < n && #[trigger] is_stub(module, k) && a == DepNode::Function(
            defined_index(module, k),
        ) && b is Function && stub_targets(func_operators(module, k).0)->0.contains(b->Function_0)
}

/// The unexpected instructions in the first `n` functions that the module defines.
pub open spec fn unexpected_in(module: &InputModule, n: int) -> Map<
    Seq<char>,
    (usize, InputFuncId),
>
    decreases n,
{
    if n <= 0 {
        Map::empty()
    } else {
        let before = unexpected_in(module, n - 1);
        let ops = func_operators(module, n - 1).0;
        if lacks_relocs(module, n - 1) && any_unexpected(ops) {
            let i = choose|i: int| #[trigger] first_unexpected(ops, i);
            counted(before, short_name(ops[i].0), defined_index(module, n - 1))
        } else {
            before
        }
    }
}

/// The dependencies that the places of data imply, up to the first error.
pub open spec fn data_found(module: &InputModule) -> (Seq<DataDependency>, Option<SweepError>) {
    sweep(
        module.reloc_info.data_symbols@,
        data_relocs(module),
        data_base(module),
        0,
        0,
        Seq::empty(),
    )
}

/// A piece of data as a part of the module.
pub open spec fn data_node(module: &InputModule, k: usize) -> DepNode {
    DepNode::DataSymbol(module.reloc_info.data_symbols@[k as int].symbol_index)
}

/// The error for a dependency that places of data imply, if there is one.
pub open spec fn data_faults(module: &InputModule) -> spec_fn(int) -> Option<DepError> {
    |d: int|
        match data_found(module).0[d] {
            DataDependency::Reloc { reloc, .. } => reference_error(
                &module.reloc_info,
                data_relocs(module)[reloc as int],
            ),
            _ => None,
        }
}

/// Whether a dependency that places of data imply makes `a` depend on `b`.
pub open spec fn data_link(
    module: &InputModule,
    dep: DataDependency,
    a: DepNode,
    b: DepNode,
) -> bool {
    match dep {
        DataDependency::Reloc { symbol, reloc } => a == data_node(module, symbol) && reloc_target(
            &module.reloc_info,
            data_relocs(module)[reloc as int],
        ) == Some(b),
        DataDependency::Containment { container, inner } => a == data_node(module, container) && b
            == data_node(module, inner),
        DataDependency::DirectedOverlap { from, to, back_to, container } => {
            ||| a == data_node(module, from) && b == data_node(module, to)
            ||| a == data_node(module, to) && b == data_node(module, back_to)
            ||| container is Some && a == data_node(module, container->0) && b == data_node(
                module,
                to,
            )
        },
    }
}

/// Whether one of the first `n` dependencies that places of data imply makes `a` depend on `b`.
pub open spec fn data_edge(module: &InputModule, n: int, a: DepNode, b: DepNode) -> bool {
    exists|d: int| 0 <= d < n && data_link(module, #[trigger] data_found(module).0[d], a, b)
}

/// Whether `a` is a global that holds the address of the piece of data `b`.
pub open spec fn global_edge(module: &InputModule, a: DepNode, b: DepNode) -> bool {
    let globals = module.reloc_info.symbol_as_global@;
    a is Global && globals.contains_key(a->Global_0) && b == DepNode::DataSymbol(
        globals[a->Global_0],
    )
}

/// Whether `a` directly depends on `b`.
pub open spec fn depends_on(module: &InputModule, a: DepNode, b: DepNode) -> bool {
    ||| code_edge(module, code_relocs(module).len() as int, a, b)
    ||| stub_edge(module, module.defined_funcs@.len() as int, a, b)
    ||| data_edge(module, data_found(module).0.len() as int, a, b)
    ||| global_edge(module, a, b)
}

/// The error because of which the dependencies of a module cannot be found, if there is one: the
/// first one in the code, the functions without relocations, and the data.
pub open spec fn dep_error(module: &InputModule) -> Option<DepError> {
    match first_fault(code_faults(module), code_relocs(module).len() as int) {
        Some(error) => Some(error),
        None => match first_fault(body_faults(module), module.defined_funcs@.len() as int) {
            Some(error) => Some(error),
            None => match first_fault(data_faults(module), data_found(module).0.len() as int) {
                Some(error) => Some(error),
                None => match data_found(module).1 {
                    Some(error) => Some(DepError::Data(error)),
                    None => None,
                },
            },
        },
    }
}

/// No part is listed without dependencies.
pub open spec fn no_empty(graph: Map<DepNode, KeySet<DepNode>>) -> bool {
    forall|a: DepNode| #[trigger]
        graph.contains_key(a) ==> exists|b: DepNode| #[trigger] has_edge(graph, a, b)
}

/// `dependencies` are those of a module.
pub open spec fn are_dependencies(module: &InputModule, dependencies: Dependencies) -> bool {
    &&& forall|a: DepNode, b: DepNode| #[trigger]
        has_edge(dependencies.graph@, a, b) <==> depends_on(module, a, b)
    &&& no_empty(dependencies.graph@)
    &&& forall|f: InputFuncId| #[trigger]
        dependencies.stub_fns@.contains(f) <==> exists|k: int|
            0 <= k < module.defined_funcs@.len() && #[trigger] is_stub(module, k) && f
                == defined_index(module, k)
    &&& dependencies.unexpected_ops.wf()
    &&& dependencies.unexpected_ops@ == unexpected_in(module, module.defined_funcs@.len() as int)
}

/// Makes `a` depend on `b`.
fn add_dep(graph: &mut DepGraph, a: DepNode, b: DepNode)
    requires
        no_empty(old(graph)@),
    ensures
        no_empty(final(graph)@),
        forall|u: DepNode, w: DepNode| #[trigger]
            has_edge(final(graph)@, u, w) <==> has_edge(old(graph)@, u, w) || (u == a && w == b),
{
    let mut set = match graph.remove(&a) {
        Some(set) => set,
        None => KeySet::new(),
    };
    set.insert(b);
    graph.insert(a, set);
    proof {
        assert forall|u: DepNode| #[trigger] graph@.contains_key(u) implies exists|w: DepNode| #[trigger]
            has_edge(graph@, u, w) by {
            if u == a {
                assert(has_edge(graph@, a, b));
            } else {
                assert(old(graph)@.contains_key(u));
                let w = choose|w: DepNode| #[trigger] has_edge(old(graph)@, u, w);
                assert(has_edge(graph@, u, w));
            }
        }
    }
}

/// Finds what a relocation makes a part of the module depend on.
fn find_reloc_target(info: &RelocInfo, reloc: &RelocationEntry) -> (target: Result<
    Option<DepNode>,
    DepError,
>)
    requires
        reloc.index < info.symbols@.len(),
    ensures
        match target {
            Ok(target) => reference_error(info, *reloc) is None && target == reloc_target(
                info,
                *reloc,
            ),
            Err(error) => reference_error(info, *reloc) == Some(error),
        },
{
    match info.expand_relocation(reloc) {
        Ok(details) => Ok(
            match details {
                RelocDetails::TypeIndex { .. } => None,
                RelocDetails::MemoryAddr(details) => Some(
                    DepNode::DataSymbol(details.symbol_index),
                ),
                RelocDetails::TableIndex(details) => Some(DepNode::Function(details.index)),
                RelocDetails::RelTableIndex(details) => Some(DepNode::Function(details.index)),
                RelocDetails::FunctionIndex(details) => Some(DepNode::Function(details.index)),
                RelocDetails::TableNumber(details) => Some(DepNode::Table(details.index)),
                RelocDetails::GlobalIndex(details) => Some(DepNode::Global(details.index)),
                RelocDetails::TagIndex(details) => Some(DepNode::Tag(details.index)),
            },
        ),
        Err(error) => Err(DepError::Reference(error)),
    }
}

/// Makes functions depend on what their relocations refer to, and finds the functions that have
/// relocations.
fn add_code_deps(module: &InputModule, graph: &mut DepGraph) -> (with_relocs: Result<
    KeySet<InputFuncId>,
    DepError,
>)
    requires
        can_analyze(module),
        no_empty(old(graph)@),
    ensures
        match with_relocs {
            Ok(funcs) => {
                &&& first_fault(code_faults(module), code_relocs(module).len() as int) is None
                &&& no_empty(final(graph)@)
                &&& forall|a: DepNode, b: DepNode| #[trigger]
                    has_edge(final(graph)@, a, b) <==> has_edge(old(graph)@, a, b) || code_edge(
                        module,
                        code_relocs(module).len() as int,
                        a,
                        b,
                    )
                &&& forall|k: int|
                    0 <= k < module.defined_funcs@.len() ==> (#[trigger] funcs@.contains(
                        defined_index(module, k),
                    ) <==> !lacks_relocs(module, k))
            },
            Err(error) => first_fault(code_faults(module), code_relocs(module).len() as int)
                == Some(error),
        },
{
    let relocs = module.reloc_info.iter_code_relocs();
    let (found, error) = iter_functions_with_relocs(module);
    let mut funcs: KeySet<InputFuncId> = KeySet::new();
    let ghost faults = code_faults(module);
    let ghost before = graph@;
    for i in 0..found.len()
        invariant
            can_analyze(module),
            relocs@ == code_relocs(module),
            found@.len() <= relocs@.len(),
            forall|j: int| 0 <= j < found@.len() ==> is_in(module, j, #[trigger] found@[j]),
            faults == code_faults(module),
            first_fault(faults, i as int) is None,
            no_empty(graph@),
            forall|a: DepNode, b: DepNode| #[trigger]
                has_edge(graph@, a, b) <==> has_edge(before, a, b) || code_edge(
                    module,
                    i as int,
                    a,
                    b,
                ),
            forall|f: InputFuncId| #[trigger]
                funcs@.contains(f) <==> exists|j: int| 0 <= j < i && #[trigger] found@[j] == f,
    {
        let func: InputFuncId = found[i];
        assert(is_in(module, i as int, func));
        assert(func == defined_index(module, func_of(module, i as int)));
        let ghost old_funcs = funcs@;
        funcs.insert(func);
        assert forall|f: InputFuncId| #[trigger] funcs@.contains(f) <==> exists|j: int|
            0 <= j < i + 1 && #[trigger] found@[j] == f by {
            if f == func {
                assert(found@[i as int] == f);
            } else if old_funcs.contains(f) {
                let j = choose|j: int| 0 <= j < i && #[trigger] found@[j] == f;
                assert(found@[j] == f);
            }
        }
        let ghost now = graph@;
        match find_reloc_target(&module.reloc_info, &relocs[i]) {
            Ok(target) => {
                if let Some(target) = target {
                    add_dep(graph, DepNode::Function(func), target);
                }
                proof {
                    assert forall|a: DepNode, b: DepNode| #[trigger]
                        has_edge(graph@, a, b) <==> has_edge(before, a, b) || code_edge(
                            module,
                            i + 1,
                            a,
                            b,
                        ) by {
                        lemma_code_edge(module, i as int, a, b);
                        assert(has_edge(now, a, b) <==> has_edge(before, a, b) || code_edge(
                            module,
                            i as int,
                            a,
                            b,
                        ));
                    }
                }
            },
            Err(error) => {
                proof {
                    assert(first_fault(faults, i + 1) == Some(error));
                    lemma_first_fault(faults, i + 1, relocs@.len() as int);
                }
                return Err(error);
            },
        }
    }
    match error {
        Some(error) => {
            proof {
                let n = found@.len() as int;
                assert(first_fault(faults, n + 1) == Some(DepError::Code(error)));
                lemma_first_fault(faults, n + 1, relocs@.len() as int);
            }
            Err(DepError::Code(error))
        },
        None => {
            proof {
                assert forall|k: int| 0 <= k < module.defined_funcs@.len() implies (
                #[trigger] funcs@.contains(defined_index(module, k)) <==> !lacks_relocs(
                    module,
                    k,
                )) by {
                    let f = defined_index(module, k);
                    if funcs@.contains(f) {
                        let j = choose|j: int| 0 <= j < found@.len() && #[trigger] found@[j] == f;
                        assert(is_in(module, j, found@[j]));
                        assert(func_of(module, j) == k);
                    }
                    if !lacks_relocs(module, k) {
                        let j = choose|j: int|
                            0 <= j < relocs@.len() && #[trigger] func_of(module, j) == k;
                        assert(is_in(module, j, found@[j]));
                        assert(found@[j] == f);
                    }
                }
            }
            Ok(funcs)
        },
    }
}

/// What one more relocation of the code section adds.
proof fn lemma_code_edge(module: &InputModule, i: int, a: DepNode, b: DepNode)
    requires
        i >= 0,
    ensures
        code_edge(module, i + 1, a, b) <==> code_edge(module, i, a, b) || (a == DepNode::Function(
            defined_index(module, func_of(module, i)),
        ) && reloc_target(&module.reloc_info, code_relocs(module)[i]) == Some(b)),
{
    if code_edge(module, i, a, b) {
        let j = choose|j: int|
            0 <= j < i && a == DepNode::Function(
                defined_index(module, #[trigger] func_of(module, j)),
            ) && reloc_target(&module.reloc_info, code_relocs(module)[j]) == Some(b);
        assert(a == DepNode::Function(defined_index(module, func_of(module, j))));
    }
    if a == DepNode::Function(defined_index(module, func_of(module, i))) && reloc_target(
        &module.reloc_info,
        code_relocs(module)[i],
    ) == Some(b) {
        assert(code_edge(module, i + 1, a, b));
    }
}

/// What one more function that the module defines adds.
proof fn lemma_stub_edge(module: &InputModule, k: int, a: DepNode, b: DepNode)
    requires
        k >= 0,
    ensures
        stub_edge(module, k + 1, a, b) <==> stub_edge(module, k, a, b) || (is_stub(module, k) && a
            == DepNode::Function(defined_index(module, k)) && b is Function && stub_targets(
            func_operators(module, k).0,
        )->0.contains(b->Function_0)),
{
    if stub_edge(module, k, a, b) {
        let j = choose|j: int|
            0 <= j < k && #[trigger] is_stub(module, j) && a == DepNode::Function(
                defined_index(module, j),
            ) && b is Function && stub_targets(func_operators(module, j).0)->0.contains(
                b->Function_0,
            );
        assert(is_stub(module, j));
    }
}

/// Makes a stub depend on the functions that it calls.
fn add_calls(graph: &mut DepGraph, func: InputFuncId, targets: &Vec<InputFuncId>)
    requires
        no_empty(old(graph)@),
    ensures
        no_empty(final(graph)@),
        forall|a: DepNode, b: DepNode| #[trigger]
            has_edge(final(graph)@, a, b) <==> has_edge(old(graph)@, a, b) || (a
                == DepNode::Function(func) && b is Function && targets@.contains(b->Function_0)),
{
    let ghost before = graph@;
    for i in 0..targets.len()
        invariant
            no_empty(graph@),
            forall|a: DepNode, b: DepNode| #[trigger]
                has_edge(graph@, a, b) <==> has_edge(before, a, b) || (a == DepNode::Function(func)
                    && b is Function && targets@.take(i as int).contains(b->Function_0)),
    {
        let ghost now = graph@;
        add_dep(graph, DepNode::Function(func), DepNode::Function(targets[i]));
        proof {
            let part = targets@.take(i as int);
            let more = targets@.take(i + 1);
            assert forall|f: InputFuncId| #[trigger] more.contains(f) <==> part.contains(f) || f
                == targets@[i as int] by {
                if more.contains(f) {
                    let j = choose|j: int| 0 <= j < more.len() && more[j] == f;
                    if j < i {
                        assert(part[j] == f);
                    }
                }
                if part.contains(f) {
                    let j = choose|j: int| 0 <= j < part.len() && part[j] == f;
                    assert(more[j] == f);
                }
                assert(more[i as int] == targets@[i as int]);
            }
        }
    }
    assert(targets@.take(targets@.len() as int) =~= targets@);
}

/// Makes stubs depend on what they call, and finds all stubs and unexpected instructions.
fn add_stub_deps(
    module: &InputModule,
    with_relocs: &KeySet<InputFuncId>,
    graph: &mut DepGraph,
) -> (stubs: Result<(KeySet<InputFuncId>, UnexpectedOps), DepError>)
    requires
        can_analyze(module),
        no_empty(old(graph)@),
        forall|k: int|
            0 <= k < module.defined_funcs@.len() ==> (#[trigger] with_relocs@.contains(
                defined_index(module, k),
            ) <==> !lacks_relocs(module, k)),
    ensures
        match stubs {
            Ok((stub_fns, unexpected)) => {
                &&& first_fault(body_faults(module), module.defined_funcs@.len() as int) is None
                &&& no_empty(final(graph)@)
                &&& forall|a: DepNode, b: DepNode| #[trigger]
                    has_edge(final(graph)@, a, b) <==> has_edge(old(graph)@, a, b) || stub_edge(
                        module,
                        module.defined_funcs@.len() as int,
                        a,
                        b,
                    )
                &&& forall|f: InputFuncId| #[trigger]
                    stub_fns@.contains(f) <==> exists|k: int|
                        0 <= k < module.defined_funcs@.len() && #[trigger] is_stub(module, k) && f
                            == defined_index(module, k)
                &&& unexpected.wf()
                &&& unexpected@ == unexpected_in(module, module.defined_funcs@.len() as int)
            },
            Err(error) => first_fault(body_faults(module), module.defined_funcs@.len() as int)
                == Some(error),
        },
{
    let mut stub_fns: KeySet<InputFuncId> = KeySet::new();
    let mut unexpected: UnexpectedOps = NameMap::new();
    let imported: usize = module.imported_funcs.len();
    let ghost faults = body_faults(module);
    let ghost before = graph@;
    for k in 0..module.defined_funcs.len()
        invariant
            can_analyze(module),
            imported == module.imported_funcs@.len(),
            forall|j: int|
                0 <= j < module.defined_funcs@.len() ==> (#[trigger] with_relocs@.contains(
                    defined_index(module, j),
                ) <==> !lacks_relocs(module, j)),
            faults == body_faults(module),
            first_fault(faults, k as int) is None,
            no_empty(graph@),
            forall|a: DepNode, b: DepNode| #[trigger]
                has_edge(graph@, a, b) <==> has_edge(before, a, b) || stub_edge(
                    module,
                    k as int,
                    a,
                    b,
                ),
            forall|f: InputFuncId| #[trigger]
                stub_fns@.contains(f) <==> exists|j: int|
                    0 <= j < k && #[trigger] is_stub(module, j) && f == defined_index(module, j),
            unexpected.wf(),
            unexpected@ == unexpected_in(module, k as int),
            forall|name: Seq<char>| #[trigger]
                unexpected@.contains_key(name) ==> unexpected@[name].0 <= k,
    {
        let func: InputFuncId = imported + k;
        let ghost now = graph@;
        let ghost old_stubs = stub_fns@;
        let ghost ops = func_operators(module, k as int);
        proof {
            assert(func == defined_index(module, k as int));
            assert forall|a: DepNode, b: DepNode| #[trigger] has_edge(now, a, b) <==> has_edge(
                before,
                a,
                b,
            ) || stub_edge(module, k as int, a, b) by {}
        }
        if !with_relocs.contains(&func) {
            let body = &module.defined_funcs[k].body;
            let bytes = slice_subrange(module.raw.as_slice(), body.start, body.end);
            let ghost counts = unexpected@;
            let check = validate_no_reloc_stub(bytes, body.start, func, &mut unexpected);
            proof {
                assert(checks(ops.0, ops.1, func, counts, check, unexpected@));
                if any_unexpected(ops.0) {
                    let i = choose|i: int| #[trigger] first_unexpected(ops.0, i);
                    assert(first_unexpected(ops.0, i));
                }
                assert(unexpected@ == unexpected_in(module, k + 1));
                assert forall|name: Seq<char>| #[trigger]
                    unexpected@.contains_key(name) implies unexpected@[name].0 <= k + 1 by {
                    if counts.contains_key(name) {
                        assert(counts[name].0 <= k);
                    }
                }
            }
            match check {
                StubCheck::Unreadable => {
                    proof {
                        assert(first_fault(faults, k + 1) == Some(DepError::Body { func }));
                        lemma_first_fault(faults, k + 1, module.defined_funcs@.len() as int);
                    }
                    return Err(DepError::Body { func });
                },
                StubCheck::Stub(targets) => {
                    assert(is_stub(module, k as int));
                    stub_fns.insert(func);
                    add_calls(graph, func, &targets);
                },
                StubCheck::Other => {
                    assert(!is_stub(module, k as int));
                },
            }
        }
        proof {
            assert forall|a: DepNode, b: DepNode| #[trigger] has_edge(graph@, a, b) <==> has_edge(
                before,
                a,
                b,
            ) || stub_edge(module, k + 1, a, b) by {
                lemma_stub_edge(module, k as int, a, b);
                assert(has_edge(now, a, b) <==> has_edge(before, a, b) || stub_edge(
                    module,
                    k as int,
                    a,
                    b,
                ));
            }
            assert forall|f: InputFuncId| #[trigger] stub_fns@.contains(f) <==> exists|j: int|
                0 <= j < k + 1 && #[trigger] is_stub(module, j) && f == defined_index(
                    module,
                    j,
                ) by {
                if old_stubs.contains(f) {
                    let j = choose|j: int|
                        0 <= j < k && #[trigger] is_stub(module, j) && f == defined_index(
                            module,
                            j,
                        );
                    assert(is_stub(module, j));
                }
                if stub_fns@.contains(f) && !old_stubs.contains(f) {
                    assert(is_stub(module, k as int));
                }
            }
        }
    }
    Ok((stub_fns, unexpected))
}

/// What one more dependency that places of data imply adds.
proof fn lemma_data_edge(module: &InputModule, d: int, a: DepNode, b: DepNode)
    requires
        d >= 0,
    ensures
        data_edge(module, d + 1, a, b) <==> data_edge(module, d, a, b) || data_link(
            module,
            data_found(module).0[d],
            a,
            b,
        ),
{
    if data_edge(module, d, a, b) {
        let j = choose|j: int|
            0 <= j < d && data_link(module, #[trigger] data_found(module).0[j], a, b);
        assert(data_link(module, data_found(module).0[j], a, b));
    }
}

/// Adds what a dependency that places of data imply comes to.
fn add_data_dep(module: &InputModule, dep: &DataDependency, graph: &mut DepGraph) -> (added: Result<
    (),
    DepError,
>)
    requires
        can_analyze(module),
        no_empty(old(graph)@),
        dep_exists(module.reloc_info.data_symbols@, data_relocs(module), *dep),
    ensures
        match added {
            Ok(_) => {
                &&& *dep matches DataDependency::Reloc { reloc, .. } ==> reference_error(
                    &module.reloc_info,
                    data_relocs(module)[reloc as int],
                ) is None
                &&& no_empty(final(graph)@)
                &&& forall|a: DepNode, b: DepNode| #[trigger]
                    has_edge(final(graph)@, a, b) <==> has_edge(old(graph)@, a, b) || data_link(
                        module,
                        *dep,
                        a,
                        b,
                    )
            },
            Err(error) => *dep matches DataDependency::Reloc { reloc, .. } && reference_error(
                &module.reloc_info,
                data_relocs(module)[reloc as int],
            ) == Some(error),
        },
{
    let symbols = &module.reloc_info.data_symbols;
    match dep {
        DataDependency::Reloc { symbol, reloc } => {
            let relocs = module.reloc_info.iter_data_relocs();
            let target = match find_reloc_target(&module.reloc_info, &relocs[*reloc]) {
                Ok(target) => target,
                Err(error) => return Err(error),
            };
            if let Some(target) = target {
                add_dep(graph, DepNode::DataSymbol(symbols[*symbol].symbol_index), target);
            }
        },
        DataDependency::Containment { container, inner } => {
            add_dep(
                graph,
                DepNode::DataSymbol(symbols[*container].symbol_index),
                DepNode::DataSymbol(symbols[*inner].symbol_index),
            );
        },
        DataDependency::DirectedOverlap { from, to, back_to, container } => {
            if let Some(container) = container {
                add_dep(
                    graph,
                    DepNode::DataSymbol(symbols[*container].symbol_index),
                    DepNode::DataSymbol(symbols[*to].symbol_index),
                );
            }
            add_dep(
                graph,
                DepNode::DataSymbol(symbols[*from].symbol_index),
                DepNode::DataSymbol(symbols[*to].symbol_index),
            );
            add_dep(
                graph,
                DepNode::DataSymbol(symbols[*to].symbol_index),
                DepNode::DataSymbol(symbols[*back_to].symbol_index),
            );
        },
    }
    Ok(())
}

/// Finds the dependencies that the places of data imply, up to the first error.
fn iter_data_dependencies(module: &InputModule) -> (found: (Vec<DataDependency>, Option<SweepError>))
    requires
        can_analyze(module),
    ensures
        (found.0@, found.1) == data_found(module),
{
    find_data_dependencies(
        module.reloc_info.data_symbols.as_slice(),
        module.reloc_info.iter_data_relocs(),
        module.reloc_info.data_section_offset(),
    )
}

/// Makes pieces of data depend on what their places and relocations imply.
fn add_data_deps(module: &InputModule, graph: &mut DepGraph) -> (added: Result<(), DepError>)
    requires
        can_analyze(module),
        no_empty(old(graph)@),
    ensures
        match added {
            Ok(_) => {
                &&& first_fault(data_faults(module), data_found(module).0.len() as int) is None
                &&& data_found(module).1 is None
                &&& no_empty(final(graph)@)
                &&& forall|a: DepNode, b: DepNode| #[trigger]
                    has_edge(final(graph)@, a, b) <==> has_edge(old(graph)@, a, b) || data_edge(
                        module,
                        data_found(module).0.len() as int,
                        a,
                        b,
                    )
            },
            Err(error) => match first_fault(
                data_faults(module),
                data_found(module).0.len() as int,
            ) {
                Some(fault) => fault == error,
                None => data_found(module).1 is Some && error == DepError::Data(
                    data_found(module).1->0,
                ),
            },
        },
{
    let (found, error) = iter_data_dependencies(module);
    let ghost faults = data_faults(module);
    let ghost before = graph@;
    let relocs = module.reloc_info.iter_data_relocs();
    proof {
        assert(module.reloc_info.data_symbols.len() <= usize::MAX);
        assert(relocs.len() <= usize::MAX);
        lemma_deps_exist(
            module.reloc_info.data_symbols@,
            data_relocs(module),
            data_base(module),
            0,
            0,
            Seq::empty(),
        );
    }
    for d in 0..found.len()
        invariant
            can_analyze(module),
            found@ == data_found(module).0,
            forall|j: int|
                0 <= j < found@.len() ==> dep_exists(
                    module.reloc_info.data_symbols@,
                    data_relocs(module),
                    #[trigger] found@[j],
                ),
            faults == data_faults(module),
            first_fault(faults, d as int) is None,
            no_empty(graph@),
            forall|a: DepNode, b: DepNode| #[trigger]
                has_edge(graph@, a, b) <==> has_edge(before, a, b) || data_edge(
                    module,
                    d as int,
                    a,
                    b,
                ),
    {
        let ghost now = graph@;
        match add_data_dep(module, &found[d], graph) {
            Ok(_) => {},
            Err(error) => {
                proof {
                    assert(first_fault(faults, d + 1) == Some(error));
                    lemma_first_fault(faults, d + 1, found@.len() as int);
                }
                return Err(error);
            },
        }
        proof {
            assert(first_fault(faults, d + 1) is None);
            assert forall|a: DepNode, b: DepNode| #[trigger] has_edge(graph@, a, b) <==> has_edge(
                before,
                a,
                b,
            ) || data_edge(module, d + 1, a, b) by {
                lemma_data_edge(module, d as int, a, b);
                assert(has_edge(now, a, b) <==> has_edge(before, a, b) || data_edge(
                    module,
                    d as int,
                    a,
                    b,
                ));
            }
        }
    }
    match error {
        Some(error) => Err(DepError::Data(error)),
        None => Ok(()),
    }
}

/// Makes globals depend on the data whose addresses they hold.
fn add_global_deps(module: &InputModule, graph: &mut DepGraph)
    requires
        no_empty(old(graph)@),
    ensures
        no_empty(final(graph)@),
        forall|a: DepNode, b: DepNode| #[trigger]
            has_edge(final(graph)@, a, b) <==> has_edge(old(graph)@, a, b) || global_edge(
                module,
                a,
                b,
            ),
{
    let globals = module.reloc_info.symbol_as_global.keys();
    let ghost before = graph@;
    for i in 0..globals.len()
        invariant
            forall|g: GlobalId| #[trigger]
                globals@.contains(g) <==> module.reloc_info.symbol_as_global@.contains_key(g),
            no_empty(graph@),
            forall|a: DepNode, b: DepNode| #[trigger]
                has_edge(graph@, a, b) <==> has_edge(before, a, b) || (global_edge(module, a, b)
                    && globals@.take(i as int).contains(a->Global_0)),
    {
        let global: GlobalId = globals[i];
        let ghost now = graph@;
        assert(globals@.contains(global));
        if let Some(symbol) = module.reloc_info.symbol_as_global.get(&global) {
            add_dep(graph, DepNode::Global(global), DepNode::DataSymbol(*symbol));
        }
        proof {
            let part = globals@.take(i as int);
            let more = globals@.take(i + 1);
            assert forall|g: GlobalId| #[trigger] more.contains(g) <==> part.contains(g) || g
                == global by {
                if more.contains(g) {
                    let j = choose|j: int| 0 <= j < more.len() && more[j] == g;
                    if j < i {
                        assert(part[j] == g);
                    }
                }
                if part.contains(g) {
                    let j = choose|j: int| 0 <= j < part.len() && part[j] == g;
                    assert(more[j] == g);
                }
                assert(more[i as int] == global);
            }
            assert forall|a: DepNode, b: DepNode| #[trigger] has_edge(graph@, a, b) <==> has_edge(
                before,
                a,
                b,
            ) || (global_edge(module, a, b) && more.contains(a->Global_0)) by {
                assert(has_edge(now, a, b) <==> has_edge(before, a, b) || (global_edge(
                    module,
                    a,
                    b,
                ) && part.contains(a->Global_0)));
            }
        }
    }
    proof {
        assert(globals@.take(globals@.len() as int) =~= globals@);
        assert forall|a: DepNode, b: DepNode| #[trigger] has_edge(graph@, a, b) <==> has_edge(
            before,
            a,
            b,
        ) || global_edge(module, a, b) by {
            if global_edge(module, a, b) {
                assert(globals@.contains(a->Global_0));
            }
        }
    }
}

/// Finds which parts of a module depend on which.
///
/// Functions depend on what their relocations refer to. Stubs, for which the linker gives no
/// relocations, depend on the functions that they call. Data depend on what their relocations refer
/// to, and on data that they contain or overlap. Globals depend on the data whose addresses they hold.
pub fn get_dependencies(module: &InputModule) -> (dependencies: Result<Dependencies, DepError>)
    requires
        can_analyze(module),
    ensures
        match dependencies {
            Ok(dependencies) => dep_error(module) is None && are_dependencies(module, dependencies),
            Err(error) => dep_error(module) == Some(error),
        },
{
    let mut graph: DepGraph = KeyMap::new();
    let with_relocs = match add_code_deps(module, &mut graph) {
        Ok(funcs) => funcs,
        Err(error) => return Err(error),
    };
    let ghost code = graph@;
    let (stub_fns, unexpected_ops) = match add_stub_deps(module, &with_relocs, &mut graph) {
        Ok(stubs) => stubs,
        Err(error) => return Err(error),
    };
    let ghost stubs = graph@;
    match add_data_deps(module, &mut graph) {
        Ok(_) => {},
        Err(error) => return Err(error),
    }
    let ghost data = graph@;
    add_global_deps(module, &mut graph);
    proof {
        assert forall|a: DepNode, b: DepNode| #[trigger] has_edge(graph@, a, b) <==> depends_on(
            module,
            a,
            b,
        ) by {
            assert(has_edge(data, a, b) <==> has_edge(stubs, a, b) || data_edge(
                module,
                data_found(module).0.len() as int,
                a,
                b,
            ));
            assert(has_edge(stubs, a, b) <==> has_edge(code, a, b) || stub_edge(
                module,
                module.defined_funcs@.len() as int,
                a,
                b,
            ));
            assert(has_edge(code, a, b) <==> code_edge(
                module,
                code_relocs(module).len() as int,
                a,
                b,
            ));
        }
    }
    Ok(Dependencies { graph, stub_fns, unexpected_ops })
}

/// Whether relocations refer to symbols that exist, at places that exist.
fn relocs_exist(info: &RelocInfo, relocs: &[RelocationEntry], base: usize) -> (exist: bool)
    ensures
        exist == (symbols_exist(info, relocs@) && all_fit(relocs@, base)),
{
    for i in 0..relocs.len()
        invariant
            forall|j: int|
                0 <= j < i ==> (#[trigger] relocs@[j]).index < info.symbols@.len() && (fits(
                    relocs@[j],
                ) ==> reloc_end(base, relocs@[j]) <= usize::MAX),
    {
        if relocs[i].index as usize >= info.symbols.len() {
            assert(!symbols_exist(info, relocs@));
            return false;
        }
        if let Ok(range) = relocs[i].relocation_range() {
            assert(fits(relocs@[i as int]));
            if range.end > usize::MAX - base {
                assert(!all_fit(relocs@, base));
                return false;
            }
        }
    }
    true
}

/// Tells whether everything that a module refers to exists, so that dependencies can be looked for.
pub fn is_analyzable(module: &InputModule) -> (analyzable: bool)
    ensures
        analyzable == can_analyze(module),
{
    let info = &module.reloc_info;
    let sections: usize = info.section_ranges.len();
    if info.code_section_index >= sections || info.data_section_index >= sections {
        return false;
    }
    if module.imported_funcs.len() > usize::MAX - module.defined_funcs.len() {
        return false;
    }
    let funcs = &module.defined_funcs;
    for i in 0..funcs.len()
        invariant
            funcs@ == module.defined_funcs@,
            forall|j: int|
                0 <= j < i ==> (#[trigger] funcs@[j]).body.start <= funcs@[j].body.end
                    <= module.raw@.len(),
            forall|j: int, k: int|
                0 <= j < k < i ==> (#[trigger] funcs@[j]).body.end <= (
                #[trigger] funcs@[k]).body.end,
    {
        let body = &funcs[i].body;
        if body.start > body.end || body.end > module.raw.len() {
            assert(!bodies_exist(module));
            return false;
        }
        if i > 0 && funcs[i - 1].body.end > body.end {
            assert(!funcs_in_order(module.defined_funcs@));
            return false;
        }
    }
    relocs_exist(info, info.iter_code_relocs(), info.code_section_offset()) && relocs_exist(
        info,
        info.iter_data_relocs(),
        info.data_section_offset(),
    )
}

} // verus!
