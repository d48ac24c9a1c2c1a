//! What applying a relocation comes to, and what is asked of modules for it to be possible.
use crate::data_deps::all_fit;
use crate::dep_graph::{can_analyze, data_base, data_relocs, symbols_exist};
use crate::func_relocs::{code_base, code_relocs};
use crate::read::{ElementItems, InputModule};
use crate::place_laws::lemma_between;
use crate::reloc::apply::{
    answers, applies, applies_all, is_trace, outcome, relocates, relocs_between, section_relocs,
    value_fits, RelocTarget,
};
use crate::reloc::expand::{can_expand, expand_error, expands, extent, RelocDetails, RelocError};
use crate::reloc::info::{RelocInfo, RelocationEntry, RelocationType, SymbolInfo};
use crate::reloc::symbol_laws::{address_taken, lemma_tells_address, tells_address};
use crate::reloc::symbols::{
    elements_inside, exports_address, globals_inside, has_reloc, is_table_reloc, segments_right,
    table_relocs_inside,
};
use crate::reloc::value_laws::{
    describes, has_range, lemma_details, lemma_section_of, lemma_suitable_symbols,
    lemma_value_with_addend, reads_at, width,
};
use std::ops::Range;
use vstd::prelude::*;

verus! {

/// Whether a symbol is of the kind that relocations of a type refer to.
pub open spec fn suits(ty: RelocationType, symbol: SymbolInfo) -> bool {
    match ty {
        RelocationType::MemoryAddrLeb
        | RelocationType::MemoryAddrSleb
        | RelocationType::MemoryAddrI32
        | RelocationType::MemoryAddrRelSleb
        | RelocationType::MemoryAddrTlsSleb
        | RelocationType::MemoryAddrLocrelI32
        | RelocationType::MemoryAddrLeb64
        | RelocationType::MemoryAddrSleb64
        | RelocationType::MemoryAddrI64
        | RelocationType::MemoryAddrRelSleb64
        | RelocationType::MemoryAddrTlsSleb64 => symbol is Data,
        RelocationType::TableIndexSleb
        | RelocationType::TableIndexI32
        | RelocationType::TableIndexSleb64
        | RelocationType::TableIndexI64
        | RelocationType::TableIndexRelSleb
        | RelocationType::TableIndexRelSleb64
        | RelocationType::FunctionIndexLeb
        | RelocationType::FunctionIndexI32 => symbol is Func,
        RelocationType::TableNumberLeb => symbol is Table,
        RelocationType::GlobalIndexLeb | RelocationType::GlobalIndexI32 => symbol is Global,
        RelocationType::EventIndexLeb => symbol is Event,
        RelocationType::TypeIndexLeb => true,
        RelocationType::SectionOffsetI32
        | RelocationType::FunctionOffsetI32
        | RelocationType::FunctionOffsetI64 => false,
    }
}

/// Whether applying a relocation came to what the answer of its target asks for: the value plus the
/// addend is written if there is room for it, and otherwise nothing changes. An error is passed on.
pub open spec fn obeys(
    relocation: RelocationEntry,
    at: int,
    before: Seq<u8>,
    after: Seq<u8>,
    answer: Result<Option<usize>, RelocError>,
    applied: Result<(), RelocError>,
) -> bool {
    match answer {
        Ok(Some(value)) => if value_fits(relocation, value) {
            &&& applied is Ok
            &&& reads_at(relocation.ty, after, at, value + relocation.addend)
            &&& after.len() == before.len()
            &&& forall|i: int|
                0 <= i < at || at + width(relocation.ty) <= i < before.len() ==> #[trigger] after[i]
                    == before[i]
        } else {
            applied == Err::<(), RelocError>(RelocError::ValueTooLarge) && after == before
        },
        Ok(None) => applied is Ok && after == before,
        Err(error) => applied == Err::<(), RelocError>(error) && after == before,
    }
}

/// A relocation that does not suit its symbol is refused, and changes nothing. Otherwise its target
/// is asked for the value of what it refers to, and obeyed.
pub proof fn lemma_applied<T: RelocTarget>(
    info: &RelocInfo,
    target: &T,
    relocation: RelocationEntry,
    at: int,
    before: Seq<u8>,
    after: Seq<u8>,
    applied: Result<(), RelocError>,
)
    requires
        applies(info, target, relocation, at, before, after, applied),
        0 <= at,
        at + width(relocation.ty) <= before.len(),
    ensures
        !suits(relocation.ty, info.symbols@[relocation.index as int]) ==> after == before && applied
            == Err::<(), RelocError>(
            if relocation.ty == RelocationType::SectionOffsetI32 || relocation.ty
                == RelocationType::FunctionOffsetI32 || relocation.ty
                == RelocationType::FunctionOffsetI64 {
                RelocError::Unhandled { ty: relocation.ty }
            } else {
                RelocError::UnexpectedSymbol {
                    ty: relocation.ty,
                    symbol_index: relocation.index as usize,
                }
            },
        ),
        suits(relocation.ty, info.symbols@[relocation.index as int]) ==> exists|
            details: RelocDetails,
            answer: Result<Option<usize>, RelocError>,
        | #[trigger]
            answers(target, details, answer) && describes(
                relocation.ty,
                info.symbols@[relocation.index as int],
                relocation.index as int,
                details,
            ) && obeys(relocation, at, before, after, answer, applied),
{
    let index = relocation.index as usize;
    let symbol = info.symbols@[index as int];
    lemma_suitable_symbols(relocation.ty, symbol, index);
    assert(suits(relocation.ty, symbol) <==> can_expand(relocation.ty, symbol));
    if suits(relocation.ty, symbol) {
        let (details, answer) = choose|
            details: RelocDetails,
            answer: Result<Option<usize>, RelocError>,
        |
            expands(relocation.ty, symbol, index, details) && #[trigger] answers(
                target,
                details,
                answer,
            ) && outcome(relocation, at, before, answer, after, applied);
        lemma_details(relocation.ty, symbol, index, details);
        if let Ok(Some(value)) = answer {
            if value_fits(relocation, value) {
                lemma_value_with_addend(before, after, at, relocation, value);
            }
        }
        assert(obeys(relocation, at, before, after, answer, applied));
    } else {
        assert(applied == Err::<(), RelocError>(expand_error(relocation.ty, index)));
    }
}

/// Whether a relocation is refused with an error: it does not suit its symbol, or its target
/// refuses it or gives a value for which there is no room.
pub open spec fn is_refused<T: RelocTarget>(
    info: &RelocInfo,
    target: &T,
    relocation: RelocationEntry,
    error: RelocError,
) -> bool {
    let symbol = info.symbols@[relocation.index as int];
    if suits(relocation.ty, symbol) {
        exists|details: RelocDetails, answer: Result<Option<usize>, RelocError>| #[trigger]
            answers(target, details, answer) && describes(
                relocation.ty,
                symbol,
                relocation.index as int,
                details,
            ) && match answer {
                Ok(Some(value)) => !value_fits(relocation, value) && error
                    == RelocError::ValueTooLarge,
                Ok(None) => false,
                Err(first) => error == first,
            }
    } else {
        error == expand_error(relocation.ty, relocation.index as usize)
    }
}

/// If a range cannot be relocated, a relocation whose place is in it is refused.
pub proof fn lemma_range_refused<T: RelocTarget>(
    module: &InputModule,
    range: Range<usize>,
    target: &T,
    error: RelocError,
    k: int,
)
    requires
        relocates(module, range, target, Err(error)),
        has_range(module, range, k),
    ensures
        module.reloc_info.relocs@.contains_key(k as usize),
        exists|i: int|
            {
                let relocation = #[trigger] module.reloc_info.relocs@[k as usize]@[i];
                let start = module.reloc_info.section_ranges@[k].start;
                &&& 0 <= i < module.reloc_info.relocs@[k as usize]@.len()
                &&& range.start <= start + relocation.offset < range.end
                &&& is_refused(&module.reloc_info, target, relocation, error)
            },
{
    let info = &module.reloc_info;
    lemma_section_of(module, range, k);
    let start = info.section_ranges@[k].start;
    let before = module.raw@.subrange(range.start as int, range.end as int);
    let all = section_relocs(info, k as usize);
    let (relocs, after, applied) = choose|
        relocs: Seq<RelocationEntry>,
        after: Seq<u8>,
        applied: Result<(), RelocError>,
    |
        relocs_between(all, range.start - start, range.end - start, relocs)
            && #[trigger] applies_all(
            info,
            target,
            relocs,
            start - range.start,
            before,
            after,
            applied,
        ) && applied == Err::<(), RelocError>(error);
    let states = choose|states: Seq<Seq<u8>>| #[trigger]
        is_trace(info, target, relocs, start - range.start, states, applied) && states[0] == before
            && states.last() == after;
    let last = states.len() - 1;
    let m = last - 1;
    let relocation = relocs[m];
    let at = relocation.offset + (start - range.start);
    assert(applies(info, target, relocation, at, states[m], states[last], applied));
    lemma_between(all, range.start - start, range.end - start, relocs, m);
    assert(all.contains(relocation));
    let i = choose|i: int| 0 <= i < all.len() && all[i] == relocation;
    assert(info.relocs@.contains_key(k as usize));
    let index = relocation.index as usize;
    let symbol = info.symbols@[index as int];
    lemma_suitable_symbols(relocation.ty, symbol, index);
    if suits(relocation.ty, symbol) {
        let (details, answer) = choose|
            details: RelocDetails,
            answer: Result<Option<usize>, RelocError>,
        |
            expands(relocation.ty, symbol, index, details) && #[trigger] answers(
                target,
                details,
                answer,
            ) && outcome(relocation, at, states[m], answer, states[last], applied);
        lemma_details(relocation.ty, symbol, index, details);
        assert(answers(target, details, answer));
    }
    assert(is_refused(info, target, relocation, error));
    assert(info.relocs@[k as usize]@[i] == relocation);
}

/// The relocations for the table for indirect calls can be used if and only if their symbols exist.
pub proof fn lemma_table_symbols(info: RelocInfo)
    ensures
        table_relocs_inside(&info) <==> forall|section: usize, i: int| #[trigger]
            address_taken(info, section, i) ==> info.relocs@[section]@[i].index
                < info.symbols@.len(),
{
    if table_relocs_inside(&info) {
        assert forall|section: usize, i: int| #[trigger]
            address_taken(info, section, i) implies info.relocs@[section]@[i].index
            < info.symbols@.len() by {
            let r = info.relocs@[section]@[i];
            assert(info.relocs@[section]@.contains(r));
            assert(has_reloc(info.relocs@, r));
            assert(is_table_reloc(r.ty));
        }
    }
    if forall|section: usize, i: int| #[trigger]
        address_taken(info, section, i) ==> info.relocs@[section]@[i].index < info.symbols@.len() {
        assert forall|r: RelocationEntry| #[trigger]
            has_reloc(info.relocs@, r) && is_table_reloc(r.ty) implies r.index
            < info.symbols@.len() by {
            let section = choose|section: usize| #[trigger]
                info.relocs@.contains_key(section) && info.relocs@[section]@.contains(r);
            let i = choose|i: int|
                0 <= i < info.relocs@[section]@.len() && info.relocs@[section]@[i] == r;
            assert(address_taken(info, section, i));
        }
    }
}

/// The globals that make addresses known can be looked at if and only if they exist and their
/// expressions are inside the module.
pub proof fn lemma_globals_there(module: &InputModule, info: RelocInfo, marker: Seq<char>)
    requires
        info.symbols@.len() <= usize::MAX,
    ensures
        globals_inside(module, info.symbols@, marker) <==> forall|e: int|
            0 <= e < module.exports@.len() && tells_address(
                info,
                marker,
                #[trigger] module.exports@[e],
            ) ==> module.exports@[e].index < module.globals@.len()
                && module.globals@[module.exports@[e].index as int].init_expr.start
                <= module.globals@[module.exports@[e].index as int].init_expr.end
                <= module.raw@.len(),
{
    assert forall|e: int| 0 <= e < module.exports@.len() implies (tells_address(
        info,
        marker,
        #[trigger] module.exports@[e],
    ) <==> exports_address(info.symbols@, marker, module.exports@[e])) by {
        lemma_tells_address(info, marker, module.exports@[e]);
    }
}

/// The lists of element segments and the data of data segments can be looked at if and only if they
/// are inside the module, and inside the segments.
pub proof fn lemma_segments_there(module: &InputModule)
    ensures
        elements_inside(module) <==> forall|e: int|
            0 <= e < module.elements@.len() ==> (#[trigger] module.elements@[e].items matches
                ElementItems::Functions(range) ==> range.start <= range.end <= module.raw@.len()),
        segments_right(module.data_segments@) <==> forall|s: int|
            0 <= s < module.data_segments@.len() ==> (
            #[trigger] module.data_segments@[s]).data_len <= module.data_segments@[s].range.end,
{
    if forall|e: int|
        0 <= e < module.elements@.len() ==> (#[trigger] module.elements@[e].items matches
            ElementItems::Functions(range) ==> range.start <= range.end <= module.raw@.len()) {
        assert forall|e: int| 0 <= e < module.elements@.len() implies match (
        #[trigger] module.elements@[e]).items {
            ElementItems::Functions(range) => range.start <= range.end <= module.raw@.len(),
            ElementItems::Expressions => true,
        } by {
            assert(module.elements@[e].items == module.elements@[e].items);
        }
    }
}

/// Whether the relocations of a section can be used: their symbols exist, and the ends of those
/// that are not too far off from the start of the section can be written down.
pub open spec fn are_usable(info: &RelocInfo, section: usize) -> bool {
    info.relocs@.contains_key(section) ==> forall|i: int|
        0 <= i < info.relocs@[section]@.len() ==> {
            let relocation = #[trigger] info.relocs@[section]@[i];
            &&& relocation.index < info.symbols@.len()
            &&& relocation.offset + width(relocation.ty) <= usize::MAX
                ==> info.section_ranges@[section as int].start + relocation.offset + width(
                relocation.ty,
            ) <= usize::MAX
        }
}

/// Dependencies can be looked for if and only if the code and data sections exist, their
/// relocations can be used, all functions can be counted, and their bodies are in order and inside
/// the module.
pub proof fn lemma_analyzable(module: &InputModule)
    ensures
        can_analyze(module) <==> {
            let info = &module.reloc_info;
            &&& info.code_section_index < info.section_ranges@.len()
            &&& info.data_section_index < info.section_ranges@.len()
            &&& are_usable(info, info.code_section_index)
            &&& are_usable(info, info.data_section_index)
            &&& module.imported_funcs@.len() + module.defined_funcs@.len() <= usize::MAX
            &&& forall|i: int, j: int|
                0 <= i < j < module.defined_funcs@.len() ==> (
                #[trigger] module.defined_funcs@[i]).body.end <= (
                #[trigger] module.defined_funcs@[j]).body.end
            &&& forall|i: int|
                0 <= i < module.defined_funcs@.len() ==> (
                #[trigger] module.defined_funcs@[i]).body.start <= module.defined_funcs@[i].body.end
                    <= module.raw@.len()
        },
{
    let info = &module.reloc_info;
    assert forall|ty: RelocationType| #[trigger] extent(ty) == width(ty) by {}
    if info.code_section_index < info.section_ranges@.len() && info.data_section_index
        < info.section_ranges@.len() {
        lemma_usable(info, info.code_section_index, code_relocs(module), code_base(module));
        lemma_usable(info, info.data_section_index, data_relocs(module), data_base(module));
    }
}

/// Which relocations can be used.
proof fn lemma_usable(
    info: &RelocInfo,
    section: usize,
    relocs: Seq<RelocationEntry>,
    base: usize,
)
    requires
        section < info.section_ranges@.len(),
        base == info.section_ranges@[section as int].start,
        relocs == if info.relocs@.contains_key(section) {
            info.relocs@[section]@
        } else {
            Seq::empty()
        },
    ensures
        are_usable(info, section) <==> all_fit(relocs, base) && symbols_exist(info, relocs),
{
    assert forall|ty: RelocationType| #[trigger] extent(ty) == width(ty) by {}
    if are_usable(info, section) {
        assert forall|i: int| 0 <= i < relocs.len() implies (#[trigger] relocs[i]).index
            < info.symbols@.len() by {
            assert(info.relocs@[section]@[i] == relocs[i]);
        }
        assert forall|i: int| 0 <= i < relocs.len() && crate::data_deps::fits(
            #[trigger] relocs[i],
        ) implies crate::data_deps::reloc_end(base, relocs[i]) <= usize::MAX by {
            assert(info.relocs@[section]@[i] == relocs[i]);
            assert(extent(relocs[i].ty) == width(relocs[i].ty));
        }
    }
    if all_fit(relocs, base) && symbols_exist(info, relocs) && info.relocs@.contains_key(section) {
        assert forall|i: int| 0 <= i < info.relocs@[section]@.len() implies ({
            let relocation = #[trigger] info.relocs@[section]@[i];
            &&& relocation.index < info.symbols@.len()
            &&& relocation.offset + width(relocation.ty) <= usize::MAX
                ==> info.section_ranges@[section as int].start + relocation.offset + width(
                relocation.ty,
            ) <= usize::MAX
        }) by {
            assert(relocs[i] == info.relocs@[section]@[i]);
            assert(extent(relocs[i].ty) == width(relocs[i].ty));
            assert(crate::data_deps::fits(relocs[i]) <==> relocs[i].offset + width(relocs[i].ty)
                <= usize::MAX);
        }
    }
}

} // verus!
