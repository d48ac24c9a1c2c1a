//! Which functions are stubs, and why dependencies cannot be found.
use crate::data_deps::{reloc_end, SweepError};
use crate::data_laws::{contains_reloc, lemma_error_found, reloc_of, symbols_forward};
use crate::dep_graph::{
    body_faults, can_analyze, code_faults, data_base, data_faults, data_found, data_relocs,
    defined_index, dep_error, first_fault, func_operators, is_stub, reference_error, DepError,
    Dependencies,
};
use crate::edge_laws::{
    are_found, code_reloc, code_regular, data_reloc, data_regular, has_code_reloc, has_data_reloc,
    has_none, in_piece, instructions, is_usable, lemma_data_regular, lemma_has_none, lemma_usable,
};
use crate::func_relocs::{
    code_base, code_relocs, func_error, func_of, func_place, reach_of, FuncRelocError,
};
use crate::read::{DefinedFunc, InputModule};
use crate::reloc::expand::{extent, RelocError};
use crate::reloc::info::{RelocationEntry, RelocationType};
use crate::reloc::value_laws::width;
use crate::stub_laws::{
    is_missing, lemma_called_from, lemma_callees, lemma_missing, lemma_passes_on, passes_on,
};
use crate::stubs::{called, first_unexpected, short_name, suits_stub};
use vstd::prelude::*;

verus! {

/// Whether a function without relocations calls functions, and does nothing but that.
pub open spec fn only_calls(module: &InputModule, k: int) -> bool {
    let ops = instructions(module, k).0;
    &&& 0 <= k < module.defined_funcs@.len()
    &&& has_none(module, k)
    &&& exists|i: int| 0 <= i < ops.len() && (#[trigger] ops[i]).1 is Some
    &&& forall|i: int| 0 <= i < ops.len() ==> passes_on(#[trigger] ops[i])
}

/// The stubs are the functions without relocations that call functions, and do nothing but that.
pub proof fn lemma_stubs_noted(module: &InputModule, dependencies: Dependencies, f: usize)
    requires
        are_found(module, dependencies),
        code_regular(module),
    ensures
        dependencies.stub_fns@.contains(f) <==> exists|k: int| #[trigger]
            only_calls(module, k) && f == module.imported_funcs@.len() + k,
{
    assert forall|k: int| 0 <= k < module.defined_funcs@.len() implies (#[trigger] is_stub(
        module,
        k,
    ) <==> only_calls(module, k)) by {
        let ops = instructions(module, k).0;
        assert(ops == func_operators(module, k).0);
        lemma_has_none(module, k);
        assert forall|i: int| 0 <= i < ops.len() implies (passes_on(#[trigger] ops[i])
            <==> suits_stub(ops[i])) by {
            lemma_passes_on(ops[i]);
        }
        if only_calls(module, k) {
            let i = choose|i: int| 0 <= i < ops.len() && (#[trigger] ops[i]).1 is Some;
            lemma_callees(ops, i);
            assert(called(ops).len() > 0);
            assert forall|j: int| !#[trigger] first_unexpected(ops, j) by {
                if 0 <= j < ops.len() {
                    assert(passes_on(ops[j]));
                }
            }
        }
        if is_stub(module, k) {
            lemma_called_from(ops);
        }
    }
    if dependencies.stub_fns@.contains(f) {
        let k = choose|k: int|
            0 <= k < module.defined_funcs@.len() && #[trigger] is_stub(module, k) && f
                == defined_index(module, k);
        assert(only_calls(module, k));
    }
    if exists|k: int| #[trigger] only_calls(module, k) && f == module.imported_funcs@.len() + k {
        let k = choose|k: int| #[trigger]
            only_calls(module, k) && f == module.imported_funcs@.len() + k;
        assert(is_stub(module, k));
    }
}

/// A first error is the error at some position, and there is none in front of it.
proof fn lemma_first_at(faults: spec_fn(int) -> Option<DepError>, n: int, error: DepError) -> (i:
    int)
    requires
        first_fault(faults, n) == Some(error),
    ensures
        0 <= i < n,
        faults(i) == Some(error),
        first_fault(faults, i) is None,
    decreases n,
{
    if first_fault(faults, n - 1) is Some {
        lemma_first_at(faults, n - 1, error)
    } else {
        n - 1
    }
}

/// Whether an error says that a relocation does not suit its symbol.
pub open spec fn says_unsuited(error: RelocError, relocation: RelocationEntry) -> bool {
    if relocation.ty == RelocationType::SectionOffsetI32 || relocation.ty
        == RelocationType::FunctionOffsetI32 || relocation.ty == RelocationType::FunctionOffsetI64 {
        error == (RelocError::Unhandled { ty: relocation.ty })
    } else {
        error == (RelocError::UnexpectedSymbol {
            ty: relocation.ty,
            symbol_index: relocation.index as usize,
        })
    }
}

/// Whether a relocation of the code or of the data does not suit its symbol, as an error says.
pub open spec fn is_unsuited(module: &InputModule, error: RelocError) -> bool {
    ||| exists|i: int| #[trigger]
        has_code_reloc(module, i) && !is_usable(
            module.reloc_info.symbols@,
            code_reloc(module, i),
        ) && says_unsuited(error, code_reloc(module, i))
    ||| exists|r: int| #[trigger]
        has_data_reloc(module, r) && !is_usable(
            module.reloc_info.symbols@,
            data_reloc(module, r),
        ) && says_unsuited(error, data_reloc(module, r))
}

/// Whether an instruction shows that relocations are missing.
pub open spec fn misses_some(module: &InputModule, k: int) -> bool {
    exists|name: Seq<char>| #[trigger] is_missing(instructions(module, k).0, name)
}

/// Why dependencies cannot be found: a relocation of the code ends too far off or behind all
/// functions, a relocation does not suit its symbol, a function without relocations cannot be read,
/// or a relocation of the data is not inside any piece of data.
pub proof fn lemma_fault_told(module: &InputModule, error: DepError)
    requires
        can_analyze(module),
        dep_error(module) == Some(error),
    ensures
        match error {
            DepError::Code(FuncRelocError::TooFar { reloc }) => has_code_reloc(module, reloc as int)
                && code_reloc(module, reloc as int).offset + width(
                code_reloc(module, reloc as int).ty,
            ) > usize::MAX,
            DepError::Code(FuncRelocError::NoFunction { reloc }) => has_code_reloc(
                module,
                reloc as int,
            ) && forall|j: int|
                0 <= j < module.defined_funcs@.len() ==> (
                #[trigger] module.defined_funcs@[j]).body.end
                    < module.reloc_info.section_ranges@[module.reloc_info.code_section_index as int].start
                    + code_reloc(module, reloc as int).offset + width(
                    code_reloc(module, reloc as int).ty,
                ),
            DepError::Reference(unsuited) => data_regular(module) ==> is_unsuited(module, unsuited),
            DepError::Body { func } => code_regular(module) ==> exists|k: int|
                {
                    &&& 0 <= k < module.defined_funcs@.len()
                    &&& func == module.imported_funcs@.len() + k
                    &&& #[trigger] has_none(module, k)
                    &&& instructions(module, k).1
                    &&& !misses_some(module, k)
                },
            DepError::Data(outside) => data_regular(module) ==> has_data_reloc(
                module,
                reloc_at(outside),
            ) && is_outside(module, reloc_at(outside), outside is TooFar),
        },
{
    assert forall|ty: RelocationType| #[trigger] extent(ty) == width(ty) by {}
    let n = code_relocs(module).len() as int;
    let bodies = module.defined_funcs@.len() as int;
    let deps = data_found(module).0;
    if first_fault(code_faults(module), n) is Some {
        let i = lemma_first_at(code_faults(module), n, error);
        lemma_code_fault(module, i, error);
    } else if first_fault(body_faults(module), bodies) is Some {
        let k = lemma_first_at(body_faults(module), bodies, error);
        let ops = instructions(module, k).0;
        assert(ops == func_operators(module, k).0);
        if code_regular(module) {
            lemma_has_none(module, k);
            assert(!misses_some(module, k)) by {
                if misses_some(module, k) {
                    let name = choose|name: Seq<char>| #[trigger] is_missing(ops, name);
                    lemma_missing(ops, name);
                    let j = choose|j: int| #[trigger]
                        first_unexpected(ops, j) && short_name(ops[j].0) == name;
                    assert(first_unexpected(ops, j));
                }
            }
            assert(has_none(module, k));
        }
    } else if first_fault(data_faults(module), deps.len() as int) is Some {
        let d = lemma_first_at(data_faults(module), deps.len() as int, error);
        if data_regular(module) {
            lemma_data_regular(module);
            crate::data_laws::lemma_dependencies_sound(
                module.reloc_info.data_symbols@,
                data_relocs(module),
                data_base(module),
                d,
            );
            if let crate::data_deps::DataDependency::Reloc { symbol, reloc } = deps[d] {
                let relocation = data_relocs(module)[reloc as int];
                assert(has_data_reloc(module, reloc as int));
                assert(relocation == data_reloc(module, reloc as int));
                lemma_usable(&module.reloc_info, relocation);
                assert(reference_error(&module.reloc_info, relocation) == Some(error));
                lemma_unsuited(module, relocation, error);
                assert(is_unsuited(module, error->Reference_0));
            }
        }
    } else {
        let outside = data_found(module).1->0;
        if data_regular(module) {
            lemma_data_fault(module, outside);
        }
    }
}

/// The relocation that an error names.
pub open spec fn reloc_at(error: SweepError) -> int {
    match error {
        SweepError::TooFar { reloc } => reloc as int,
        SweepError::NoSymbol { reloc } => reloc as int,
        SweepError::NotInside { reloc } => reloc as int,
    }
}

/// Whether a relocation of the data ends too far off, or else is not inside any piece of data.
pub open spec fn is_outside(module: &InputModule, r: int, far: bool) -> bool {
    if far {
        data_reloc(module, r).offset + width(data_reloc(module, r).ty) > usize::MAX
    } else {
        forall|x: int| !#[trigger] in_piece(module, r, x)
    }
}

/// Which relocation of the data is not inside any piece of data.
proof fn lemma_data_fault(module: &InputModule, outside: SweepError)
    requires
        data_regular(module),
        data_found(module).1 == Some(outside),
    ensures
        has_data_reloc(module, reloc_at(outside)),
        is_outside(module, reloc_at(outside), outside is TooFar),
{
    assert forall|ty: RelocationType| #[trigger] extent(ty) == width(ty) by {}
    lemma_data_regular(module);
    let symbols = module.reloc_info.data_symbols@;
    let relocs = data_relocs(module);
    let base = data_base(module);
    assert(symbols_forward(symbols)) by {
        assert forall|k: usize| k < symbols.len() implies (#[trigger] crate::data_deps::start_of(
            symbols,
            k,
        )) <= crate::data_deps::end_of(symbols, k) by {
            assert(symbols[k as int].range.start < symbols[k as int].range.end);
        }
    }
    lemma_error_found(symbols, relocs, base, outside);
    let at = reloc_of(outside);
    let relocation = relocs[at as int];
    assert(has_data_reloc(module, at as int));
    assert(relocation == data_reloc(module, at as int));
    assert(extent(relocation.ty) == width(relocation.ty));
    if !(outside is TooFar) {
        assert forall|x: int| !#[trigger] in_piece(module, at as int, x) by {
            if in_piece(module, at as int, x) {
                assert(symbols[x].range.start < symbols[x].range.end);
                assert(contains_reloc(symbols, base, x as usize, relocation));
                assert(crate::data_laws::touches_reloc(symbols, base, x as usize, relocation));
            }
        }
    }
}

/// What the error for a relocation that does not suit its symbol says.
proof fn lemma_unsuited(module: &InputModule, relocation: RelocationEntry, error: DepError)
    requires
        reference_error(&module.reloc_info, relocation) == Some(error),
    ensures
        error matches DepError::Reference(unsuited) && says_unsuited(unsuited, relocation),
{
}

/// What the first error in the code says.
proof fn lemma_code_fault(module: &InputModule, i: int, error: DepError)
    requires
        can_analyze(module),
        0 <= i < code_relocs(module).len(),
        code_faults(module)(i) == Some(error),
        first_fault(code_faults(module), i) is None,
    ensures
        has_code_reloc(module, i),
        match error {
            DepError::Code(FuncRelocError::TooFar { reloc }) => reloc == i && code_reloc(
                module,
                i,
            ).offset + width(code_reloc(module, i).ty) > usize::MAX,
            DepError::Code(FuncRelocError::NoFunction { reloc }) => reloc == i && forall|j: int|
                0 <= j < module.defined_funcs@.len() ==> (
                #[trigger] module.defined_funcs@[j]).body.end
                    < module.reloc_info.section_ranges@[module.reloc_info.code_section_index as int].start
                    + code_reloc(module, i).offset + width(code_reloc(module, i).ty),
            DepError::Reference(unsuited) => is_unsuited(module, unsuited),
            _ => false,
        },
{
    let relocs = code_relocs(module);
    let base = code_base(module);
    let list = module.reloc_info.relocs@[module.reloc_info.code_section_index];
    assert(has_code_reloc(module, i));
    assert(list.len() == list@.len());
    assert(relocs[i] == code_reloc(module, i));
    assert(extent(relocs[i].ty) == width(relocs[i].ty));
    match func_error(module, i) {
        Some(FuncRelocError::TooFar { reloc }) => {},
        Some(FuncRelocError::NoFunction { reloc }) => {
            let funcs = module.defined_funcs@;
            lemma_all_earlier(funcs, reach_of(relocs, base, i));
            if reach_of(relocs, base, i) != reloc_end(base, relocs[i]) {
                assert(reach_of(relocs, base, i) == reach_of(relocs, base, i - 1));
                crate::edge_laws::lemma_no_fault(code_faults(module), i - 1, i);
                assert(code_faults(module)(i - 1) is None);
                assert(func_error(module, i - 1) is None);
                assert(func_of(module, i) == func_of(module, i - 1));
            }
        },
        None => {
            lemma_usable(&module.reloc_info, relocs[i]);
            lemma_unsuited(module, relocs[i], error);
            assert(is_unsuited(module, error->Reference_0));
        },
    }
}

/// If the place is behind all functions, they all end earlier.
proof fn lemma_all_earlier(funcs: Seq<DefinedFunc>, end: int)
    requires
        func_place(funcs, end) >= funcs.len(),
    ensures
        forall|j: int| 0 <= j < funcs.len() ==> (#[trigger] funcs[j]).body.end < end,
    decreases funcs.len(),
{
    if funcs.len() > 0 {
        let rest = funcs.drop_first();
        lemma_all_earlier(rest, end);
        assert forall|j: int| 0 <= j < funcs.len() implies (#[trigger] funcs[j]).body.end < end by {
            if j > 0 {
                assert(rest[j - 1] == funcs[j]);
            }
        }
    }
}

} // verus!
