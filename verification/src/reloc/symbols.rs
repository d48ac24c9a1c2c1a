//! What the symbols say of data, of indirect calls and of exported globals.
use crate::keyed::KeySet;
use crate::order::{begins_with, same_text, starts_with};
use crate::read::{
    Data, Element, ElementItems, ElementKind, Export, ExternalKind, Global, GlobalId, InputFuncId,
    InputModule, SymbolIndex, TableId, ValType,
};
use crate::reloc::expand::RelocError;
use crate::reloc::info::{
    DataSymbol, RelocInfo, RelocationEntry, RelocationType, SectionIndex, SymbolInfo, BINDING_WEAK,
    EXPORTED, NO_STRIP,
};
use crate::sort::{sort_by_key, sorts, SortKey};
use crate::util::shift_range;
use crate::wasm::{const_value, function_indices, read_const, read_function_indices, ConstValue};
use vstd::prelude::*;
use vstd::slice::slice_subrange;

verus! {

impl SortKey for DataSymbol {
    open spec fn spec_sort_key(self) -> usize {
        self.range.start
    }

    fn sort_key(&self) -> (key: usize) {
        self.range.start
    }
}

/// What a symbol adds to the pieces of data that have a symbol.
pub enum DataPlace {
    /// Nothing.
    Skip,
    /// A piece of data.
    At(DataSymbol),
    /// An error: its segment does not exist.
    NoSegment,
    /// An error: it does not fit into its segment.
    TooLarge,
}

/// `place` is where the data of a symbol are in the input module. Symbols without data are skipped,
/// and so are those that are empty, since nothing can refer to them.
pub open spec fn is_data_place(
    segments: Seq<Data>,
    symbol: SymbolInfo,
    symbol_index: SymbolIndex,
    place: DataPlace,
) -> bool {
    match symbol {
        SymbolInfo::Data { symbol: Some(place_in), .. } => if place_in.size == 0 {
            place is Skip
        } else if place_in.index >= segments.len() {
            place is NoSegment
        } else {
            let segment = segments[place_in.index as int];
            if place_in.offset + place_in.size > segment.data_len {
                place is TooLarge
            } else {
                let start = segment.range.end - segment.data_len + place_in.offset;
                &&& place matches DataPlace::At(data)
                &&& data.symbol_index == symbol_index
                &&& data.range.start == start
                &&& data.range.end == start + place_in.size
            }
        },
        _ => place is Skip,
    }
}

/// `found` are the pieces of data that symbols stand for, in the order of the symbols.
pub open spec fn finds_data(
    segments: Seq<Data>,
    symbols: Seq<SymbolInfo>,
    found: Seq<DataSymbol>,
) -> bool
    decreases symbols.len(),
{
    if symbols.len() == 0 {
        found.len() == 0
    } else {
        let last = symbols.len() - 1;
        let rest = symbols.drop_last();
        ||| is_data_place(segments, symbols[last], last as usize, DataPlace::Skip) && finds_data(
            segments,
            rest,
            found,
        )
        ||| found.len() > 0 && is_data_place(
            segments,
            symbols[last],
            last as usize,
            DataPlace::At(found.last()),
        ) && finds_data(segments, rest, found.drop_last())
    }
}

/// The error for a symbol whose data cannot be found.
pub open spec fn data_error(
    segments: Seq<Data>,
    symbols: Seq<SymbolInfo>,
    i: int,
    error: RelocError,
) -> bool {
    ||| is_data_place(segments, symbols[i], i as usize, DataPlace::NoSegment) && error
        == RelocError::InvalidDataSegment { symbol_index: i as usize }
    ||| is_data_place(segments, symbols[i], i as usize, DataPlace::TooLarge) && error
        == RelocError::InvalidDataSymbol { symbol_index: i as usize }
}

/// The data of a segment are at its end.
pub open spec fn segments_right(segments: Seq<Data>) -> bool {
    forall|i: int|
        0 <= i < segments.len() ==> (#[trigger] segments[i]).data_len <= segments[i].range.end
}

/// Finds the pieces of data that symbols stand for, in the order of their starts.
pub fn get_data_symbols(data_segments: &[Data], symbols: &[SymbolInfo]) -> (found: Result<
    Vec<DataSymbol>,
    RelocError,
>)
    requires
        segments_right(data_segments@),
    ensures
        match found {
            Ok(list) => exists|unsorted: Seq<DataSymbol>| #[trigger]
                finds_data(data_segments@, symbols@, unsorted) && sorts(unsorted, list@),
            Err(error) => exists|i: int, before: Seq<DataSymbol>|
                0 <= i < symbols@.len() && #[trigger] finds_data(
                    data_segments@,
                    symbols@.take(i),
                    before,
                ) && data_error(data_segments@, symbols@, i, error),
        },
{
    let mut data_symbols: Vec<DataSymbol> = Vec::new();
    for symbol_index in 0..symbols.len()
        invariant
            segments_right(data_segments@),
            finds_data(data_segments@, symbols@.take(symbol_index as int), data_symbols@),
    {
        let ghost before = data_symbols@;
        let ghost more = symbols@.take(symbol_index + 1);
        proof {
            assert(more.drop_last() =~= symbols@.take(symbol_index as int));
            assert(more[symbol_index as int] == symbols@[symbol_index as int]);
        }
        if let SymbolInfo::Data { flags: _, name: _, symbol: Some(symbol) } = &symbols[symbol_index] {
            // Empty symbols are ignored, since they cannot be the target of a relocation.
            if symbol.size != 0 {
                let index: usize = symbol.index as usize;
                if index >= data_segments.len() {
                    proof {
                        assert(data_error(
                            data_segments@,
                            symbols@,
                            symbol_index as int,
                            RelocError::InvalidDataSegment { symbol_index },
                        ));
                    }
                    return Err(RelocError::InvalidDataSegment { symbol_index });
                }
                let data_segment = &data_segments[index];
                assert(data_segments@[index as int].data_len
                    <= data_segments@[index as int].range.end);
                let end: u64 = symbol.offset as u64 + symbol.size as u64;
                if end > data_segment.data_len as u64 {
                    proof {
                        assert(data_error(
                            data_segments@,
                            symbols@,
                            symbol_index as int,
                            RelocError::InvalidDataSymbol { symbol_index },
                        ));
                    }
                    return Err(RelocError::InvalidDataSymbol { symbol_index });
                }
                let symbol_range = shift_range(0..symbol.size as usize, symbol.offset as usize);
                let data_offset: usize = data_segment.range.end - data_segment.data_len;
                data_symbols.push(
                    DataSymbol { symbol_index, range: shift_range(symbol_range, data_offset) },
                );
                proof {
                    assert(data_symbols@.drop_last() =~= before);
                }
            }
        }
    }
    assert(symbols@.take(symbols@.len() as int) =~= symbols@);
    let ghost unsorted = data_symbols@;
    sort_by_key(&mut data_symbols);
    assert(finds_data(data_segments@, symbols@, unsorted) && sorts(unsorted, data_symbols@));
    Ok(data_symbols)
}

/// Whether an element segment fills the table that indirect calls go through.
pub open spec fn fills_table(element: Element, iftable: TableId) -> bool {
    element.kind matches ElementKind::Active { table_index } && iftable == (match table_index {
        Some(index) => index as usize,
        None => 0,
    })
}

/// The functions that an element segment holds, if they can be read.
pub open spec fn element_functions(raw: Seq<u8>, element: Element) -> Option<Seq<u32>> {
    match element.items {
        ElementItems::Functions(range) => function_indices(
            raw.subrange(range.start as int, range.end as int),
        ),
        ElementItems::Expressions => None,
    }
}

/// Whether an element segment puts function `f` into the table that indirect calls go through.
pub open spec fn puts_into_table(
    raw: Seq<u8>,
    element: Element,
    iftable: TableId,
    f: InputFuncId,
) -> bool {
    fills_table(element, iftable) && f <= u32::MAX && (element_functions(raw, element) matches Some(
        list,
    ) && list.contains(f as u32))
}

/// Whether an element segment that fills the table cannot be used.
pub open spec fn element_fails(raw: Seq<u8>, element: Element, iftable: TableId) -> bool {
    fills_table(element, iftable) && element_functions(raw, element) is None
}

/// The lists of function indices are inside the module.
pub open spec fn elements_inside(module: &InputModule) -> bool {
    forall|i: int|
        0 <= i < module.elements@.len() ==> match (#[trigger] module.elements@[i]).items {
            ElementItems::Functions(range) => range.start <= range.end <= module.raw@.len(),
            ElementItems::Expressions => true,
        }
}

/// Collects the functions in the table that indirect calls go through.
fn collect_table_functions(module: &InputModule, iftable: TableId) -> (collected: Result<
    KeySet<InputFuncId>,
    RelocError,
>)
    requires
        elements_inside(module),
    ensures
        match collected {
            Ok(funcs) => {
                &&& forall|i: int|
                    0 <= i < module.elements@.len() ==> !element_fails(
                        module.raw@,
                        #[trigger] module.elements@[i],
                        iftable,
                    )
                &&& forall|f: InputFuncId| #[trigger]
                    funcs@.contains(f) <==> in_table(module, iftable, f)
            },
            Err(error) => exists|i: int|
                0 <= i < module.elements@.len() && table_error(module, iftable, i, error),
        },
{
    let mut funcs: KeySet<InputFuncId> = KeySet::new();
    for k in 0..module.elements.len()
        invariant
            elements_inside(module),
            forall|i: int|
                0 <= i < k ==> !element_fails(
                    module.raw@,
                    #[trigger] module.elements@[i],
                    iftable,
                ),
            forall|f: InputFuncId| #[trigger]
                funcs@.contains(f) <==> exists|i: int|
                    0 <= i < k && puts_into_table(
                        module.raw@,
                        #[trigger] module.elements@[i],
                        iftable,
                        f,
                    ),
    {
        let element = &module.elements[k];
        let table: Option<TableId> = match element.kind {
            ElementKind::Active { table_index: Some(index) } => Some(index as usize),
            ElementKind::Active { table_index: None } => Some(0),
            _ => None,
        };
        let fills = match table {
            Some(table) => table == iftable,
            None => false,
        };
        if fills {
            match &element.items {
                ElementItems::Functions(range) => {
                    let bytes = slice_subrange(module.raw.as_slice(), range.start, range.end);
                    assert(module.raw.len() <= usize::MAX);
                    match read_function_indices(bytes, range.start) {
                        Ok(list) => {
                            add_functions(&mut funcs, &list);
                        },
                        Err(error) => {
                            assert(table_error(
                                module,
                                iftable,
                                k as int,
                                RelocError::Read(error),
                            ));
                            return Err(RelocError::Read(error));
                        },
                    }
                },
                ElementItems::Expressions => {
                    assert(table_error(
                        module,
                        iftable,
                        k as int,
                        RelocError::ExpectedFunctions,
                    ));
                    return Err(RelocError::ExpectedFunctions);
                },
            }
        }
    }
    Ok(funcs)
}

/// Adds function indices to a set.
fn add_functions(funcs: &mut KeySet<InputFuncId>, list: &Vec<u32>)
    ensures
        forall|f: InputFuncId| #[trigger]
            final(funcs)@.contains(f) <==> old(funcs)@.contains(f) || (f <= u32::MAX
                && list@.contains(f as u32)),
{
    for j in 0..list.len()
        invariant
            forall|f: InputFuncId| #[trigger]
                funcs@.contains(f) <==> old(funcs)@.contains(f) || exists|i: int|
                    0 <= i < j && #[trigger] list@[i] == f,
    {
        funcs.insert(list[j] as usize);
    }
    proof {
        assert forall|f: InputFuncId| #[trigger] funcs@.contains(f) <==> old(funcs)@.contains(f)
            || (f <= u32::MAX && list@.contains(f as u32)) by {
            if exists|i: int| 0 <= i < list@.len() && #[trigger] list@[i] == f {
                let i = choose|i: int| 0 <= i < list@.len() && #[trigger] list@[i] == f;
                assert(list@[i] == f as u32);
            }
            if f <= u32::MAX && list@.contains(f as u32) {
                let i = choose|i: int| 0 <= i < list@.len() && list@[i] == f as u32;
                assert(list@[i] == f);
            }
        }
    }
}

/// Whether function `f` is in the table that indirect calls go through.
pub open spec fn in_table(module: &InputModule, iftable: TableId, f: InputFuncId) -> bool {
    exists|i: int|
        0 <= i < module.elements@.len() && puts_into_table(
            module.raw@,
            #[trigger] module.elements@[i],
            iftable,
            f,
        )
}

/// The error for the first element segment that cannot be used.
pub open spec fn table_error(
    module: &InputModule,
    iftable: TableId,
    i: int,
    error: RelocError,
) -> bool {
    &&& element_fails(module.raw@, module.elements@[i], iftable)
    &&& forall|j: int|
        0 <= j < i ==> !element_fails(module.raw@, #[trigger] module.elements@[j], iftable)
    &&& match module.elements@[i].items {
        ElementItems::Functions(_) => error is Read,
        ElementItems::Expressions => error == RelocError::ExpectedFunctions,
    }
}

/// Whether flags say that a function must stay visible.
pub open spec fn is_kept(flags: u32) -> bool {
    flags & NO_STRIP == NO_STRIP || flags & (EXPORTED | BINDING_WEAK) == EXPORTED | BINDING_WEAK
}

/// Whether function `f` is in the table and must stay visible.
pub open spec fn is_visible(
    symbols: Seq<SymbolInfo>,
    in_table: Set<InputFuncId>,
    f: InputFuncId,
) -> bool {
    in_table.contains(f) && exists|i: int|
        0 <= i < symbols.len() && (#[trigger] symbols[i] matches SymbolInfo::Func {
            index,
            flags,
            ..
        } && index == f && is_kept(flags))
}

/// Whether a relocation stands for the place of a function in the table.
pub open spec fn is_table_reloc(ty: RelocationType) -> bool {
    match ty {
        RelocationType::TableIndexI32
        | RelocationType::TableIndexI64
        | RelocationType::TableIndexSleb
        | RelocationType::TableIndexSleb64
        | RelocationType::TableIndexRelSleb
        | RelocationType::TableIndexRelSleb64 => true,
        _ => false,
    }
}

/// Whether some section has the relocation `r`.
pub open spec fn has_reloc(
    relocs: Map<SectionIndex, Vec<RelocationEntry>>,
    r: RelocationEntry,
) -> bool {
    exists|s: SectionIndex| #[trigger] relocs.contains_key(s) && relocs[s]@.contains(r)
}

/// Whether a relocation uses the place of function `f` in the table.
pub open spec fn uses_place(
    relocs: Map<SectionIndex, Vec<RelocationEntry>>,
    symbols: Seq<SymbolInfo>,
    f: InputFuncId,
) -> bool {
    exists|r: RelocationEntry| #[trigger]
        has_reloc(relocs, r) && is_table_reloc(r.ty) && (symbols[r.index as int] matches
            SymbolInfo::Func { index, .. } && index == f)
}

/// Every relocation for the table refers to a symbol that exists.
pub open spec fn table_relocs_inside(info: &RelocInfo) -> bool {
    forall|r: RelocationEntry| #[trigger]
        has_reloc(info.relocs@, r) && is_table_reloc(r.ty) ==> r.index < info.symbols@.len()
}

/// Whether a relocation for the table refers to something else than a function.
pub open spec fn is_bad_table_reloc(symbols: Seq<SymbolInfo>, r: RelocationEntry) -> bool {
    is_table_reloc(r.ty) && !(symbols[r.index as int] is Func)
}

/// Whether some relocation for the table refers to something else than a function.
pub open spec fn has_bad_table_reloc(info: &RelocInfo) -> bool {
    exists|r: RelocationEntry| #[trigger]
        has_reloc(info.relocs@, r) && is_bad_table_reloc(info.symbols@, r)
}

/// Collects the functions in the table that must stay visible.
fn collect_visible(symbols: &[SymbolInfo], table: &KeySet<InputFuncId>) -> (visible: KeySet<
    InputFuncId,
>)
    ensures
        forall|f: InputFuncId| #[trigger]
            visible@.contains(f) <==> is_visible(symbols@, table@, f),
{
    let mut visible: KeySet<InputFuncId> = KeySet::new();
    for k in 0..symbols.len()
        invariant
            forall|f: InputFuncId| #[trigger]
                visible@.contains(f) <==> is_visible(symbols@.take(k as int), table@, f),
    {
        let ghost before = visible@;
        let ghost seen = symbols@.take(k as int);
        let ghost more = symbols@.take(k + 1);
        if let SymbolInfo::Func { flags, index, name: _ } = &symbols[k] {
            let func: usize = *index as usize;
            let keep = *flags & NO_STRIP == NO_STRIP || *flags & (EXPORTED | BINDING_WEAK)
                == EXPORTED | BINDING_WEAK;
            if table.contains(&func) && keep {
                visible.insert(func);
            }
        }
        proof {
            assert(more[k as int] == symbols@[k as int]);
            assert forall|f: InputFuncId| #[trigger] visible@.contains(f) <==> is_visible(
                more,
                table@,
                f,
            ) by {
                assert(before.contains(f) <==> is_visible(seen, table@, f));
                if is_visible(seen, table@, f) {
                    let i = choose|i: int|
                        0 <= i < seen.len() && (#[trigger] seen[i] matches SymbolInfo::Func {
                            index,
                            flags,
                            ..
                        } && index == f && is_kept(flags));
                    assert(more[i] == seen[i]);
                }
                if is_visible(more, table@, f) {
                    let i = choose|i: int|
                        0 <= i < more.len() && (#[trigger] more[i] matches SymbolInfo::Func {
                            index,
                            flags,
                            ..
                        } && index == f && is_kept(flags));
                    if i < k {
                        assert(seen[i] == more[i]);
                    }
                }
            }
        }
    }
    assert(symbols@.take(symbols@.len() as int) =~= symbols@);
    visible
}

/// Whether a relocation stands for the place of a function in the table.
pub(crate) fn for_table(ty: RelocationType) -> (is: bool)
    ensures
        is == is_table_reloc(ty),
{
    match ty {
        RelocationType::TableIndexI32
        | RelocationType::TableIndexI64
        | RelocationType::TableIndexSleb
        | RelocationType::TableIndexSleb64
        | RelocationType::TableIndexRelSleb
        | RelocationType::TableIndexRelSleb64 => true,
        _ => false,
    }
}

/// Finds the functions whose place in the table is used by a section's relocations.
fn add_referenced(
    referenced: &mut KeySet<InputFuncId>,
    relocs: &Vec<RelocationEntry>,
    symbols: &[SymbolInfo],
) -> (added: Result<(), RelocError>)
    requires
        forall|i: int|
            0 <= i < relocs@.len() && is_table_reloc((#[trigger] relocs@[i]).ty)
                ==> relocs@[i].index < symbols@.len(),
    ensures
        match added {
            Ok(_) => {
                &&& forall|i: int|
                    0 <= i < relocs@.len() ==> !is_bad_table_reloc(symbols@, #[trigger] relocs@[i])
                &&& forall|f: InputFuncId| #[trigger]
                    final(referenced)@.contains(f) <==> old(referenced)@.contains(f) || exists|
                        i: int,
                    |
                        0 <= i < relocs@.len() && is_table_reloc((#[trigger] relocs@[i]).ty) && (
                        symbols@[relocs@[i].index as int] matches SymbolInfo::Func { index, .. }
                            && index == f)
            },
            Err(error) => error == RelocError::InvalidTableIndex && exists|i: int|
                0 <= i < relocs@.len() && is_bad_table_reloc(symbols@, #[trigger] relocs@[i]),
        },
{
    for k in 0..relocs.len()
        invariant
            forall|i: int|
                0 <= i < relocs@.len() && is_table_reloc((#[trigger] relocs@[i]).ty)
                    ==> relocs@[i].index < symbols@.len(),
            forall|i: int|
                0 <= i < k ==> !is_bad_table_reloc(symbols@, #[trigger] relocs@[i]),
            forall|f: InputFuncId| #[trigger]
                referenced@.contains(f) <==> old(referenced)@.contains(f) || exists|i: int|
                    0 <= i < k && is_table_reloc((#[trigger] relocs@[i]).ty) && (
                    symbols@[relocs@[i].index as int] matches SymbolInfo::Func { index, .. }
                        && index == f),
    {
        let relocation = &relocs[k];
        let is_table = for_table(relocation.ty);
        if is_table {
            assert(relocs@[k as int].index < symbols@.len());
            if let SymbolInfo::Func { flags: _, index, name: _ } = &symbols[relocation.index as usize] {
                referenced.insert(*index as usize);
            } else {
                assert(is_bad_table_reloc(symbols@, relocs@[k as int]));
                return Err(RelocError::InvalidTableIndex);
            }
        }
    }
    Ok(())
}

/// `after` is `before` with the functions that indirect calls may lead to, when the functions in
/// the table are known.
pub open spec fn notes_indirects(
    before: RelocInfo,
    after: RelocInfo,
    table: Set<InputFuncId>,
) -> bool {
    &&& after == (RelocInfo {
        visible_indirects: after.visible_indirects,
        referenced_indirects: after.referenced_indirects,
        ..before
    })
    &&& forall|f: InputFuncId| #[trigger]
        after.visible_indirects@.contains(f) <==> is_visible(before.symbols@, table, f)
    &&& forall|f: InputFuncId| #[trigger]
        after.referenced_indirects@.contains(f) <==> is_visible(before.symbols@, table, f)
            || uses_place(before.relocs@, before.symbols@, f)
}

/// Notes the functions that indirect calls may lead to, when the functions in the table are known.
///
/// Nothing changes if a relocation for the table refers to something else than a function.
pub fn note_indirects(this: &mut RelocInfo, table: &KeySet<InputFuncId>) -> (noted: Result<
    (),
    RelocError,
>)
    requires
        table_relocs_inside(old(this)),
    ensures
        match noted {
            Ok(_) => !has_bad_table_reloc(old(this)) && notes_indirects(
                *old(this),
                *final(this),
                table@,
            ),
            Err(error) => has_bad_table_reloc(old(this)) && error == RelocError::InvalidTableIndex
                && *final(this) == *old(this),
        },
{
    let visible = collect_visible(this.symbols.as_slice(), table);
    let mut referenced = visible.duplicate();
    let sections = this.relocs.keys();
    for k in 0..sections.len()
        invariant
            *this == *old(this),
            table_relocs_inside(this),
            forall|s: SectionIndex| #[trigger]
                sections@.contains(s) <==> this.relocs@.contains_key(s),
            forall|f: InputFuncId| #[trigger]
                visible@.contains(f) <==> is_visible(this.symbols@, table@, f),
            forall|j: int, i: int|
                0 <= j < k && 0 <= i < this.relocs@[sections@[j]]@.len() ==> !is_bad_table_reloc(
                    this.symbols@,
                    #[trigger] this.relocs@[sections@[j]]@[i],
                ),
            forall|f: InputFuncId| #[trigger]
                referenced@.contains(f) <==> visible@.contains(f) || exists|j: int, i: int|
                    0 <= j < k && 0 <= i < this.relocs@[sections@[j]]@.len() && is_table_reloc(
                        (#[trigger] this.relocs@[sections@[j]]@[i]).ty,
                    ) && (this.symbols@[this.relocs@[sections@[j]]@[i].index as int] matches
                        SymbolInfo::Func { index, .. } && index == f),
    {
        assert(sections@.contains(sections@[k as int]));
        if let Some(relocs) = this.relocs.get(&sections[k]) {
            let ghost before = referenced@;
            proof {
                assert forall|i: int|
                    0 <= i < relocs@.len() && is_table_reloc(
                        (#[trigger] relocs@[i]).ty,
                    ) implies relocs@[i].index < this.symbols@.len() by {
                    assert(relocs@.contains(relocs@[i]));
                    assert(has_reloc(this.relocs@, relocs@[i]));
                }
            }
            let added = add_referenced(&mut referenced, relocs, this.symbols.as_slice());
            if let Err(error) = added {
                proof {
                    let i = choose|i: int|
                        0 <= i < relocs@.len() && is_bad_table_reloc(
                            this.symbols@,
                            #[trigger] relocs@[i],
                        );
                    assert(relocs@.contains(relocs@[i]));
                    assert(has_reloc(this.relocs@, relocs@[i]));
                }
                return Err(error);
            }
            proof {
                assert forall|f: InputFuncId| #[trigger] referenced@.contains(f) <==> visible@.contains(f)
                    || exists|j: int, i: int|
                    0 <= j < k + 1 && 0 <= i < this.relocs@[sections@[j]]@.len() && is_table_reloc(
                        (#[trigger] this.relocs@[sections@[j]]@[i]).ty,
                    ) && (this.symbols@[this.relocs@[sections@[j]]@[i].index as int] matches
                        SymbolInfo::Func { index, .. } && index == f) by {
                    if exists|i: int|
                        0 <= i < relocs@.len() && is_table_reloc((#[trigger] relocs@[i]).ty) && (
                        this.symbols@[relocs@[i].index as int] matches SymbolInfo::Func {
                            index,
                            ..
                        } && index == f) {
                        let i = choose|i: int|
                            0 <= i < relocs@.len() && is_table_reloc((#[trigger] relocs@[i]).ty)
                                && (this.symbols@[relocs@[i].index as int] matches
                                SymbolInfo::Func { index, .. } && index == f);
                        assert(this.relocs@[sections@[k as int]]@[i] == relocs@[i]);
                    }
                    if exists|j: int, i: int|
                        0 <= j < k + 1 && 0 <= i < this.relocs@[sections@[j]]@.len()
                            && is_table_reloc((#[trigger] this.relocs@[sections@[j]]@[i]).ty) && (
                        this.symbols@[this.relocs@[sections@[j]]@[i].index as int] matches
                            SymbolInfo::Func { index, .. } && index == f) {
                        let (j, i) = choose|j: int, i: int|
                            0 <= j < k + 1 && 0 <= i < this.relocs@[sections@[j]]@.len()
                                && is_table_reloc((#[trigger] this.relocs@[sections@[j]]@[i]).ty)
                                && (this.symbols@[this.relocs@[sections@[j]]@[i].index as int]
                                matches SymbolInfo::Func { index, .. } && index == f);
                        if j == k {
                            assert(relocs@[i] == this.relocs@[sections@[j]]@[i]);
                        }
                    }
                }
            }
        }
    }
    proof {
        assert forall|f: InputFuncId| #[trigger] referenced@.contains(f) <==> is_visible(
            this.symbols@,
            table@,
            f,
        ) || uses_place(this.relocs@, this.symbols@, f) by {
            assert(visible@.contains(f) <==> is_visible(this.symbols@, table@, f));
            if exists|j: int, i: int|
                0 <= j < sections@.len() && 0 <= i < this.relocs@[sections@[j]]@.len()
                    && is_table_reloc((#[trigger] this.relocs@[sections@[j]]@[i]).ty) && (
                this.symbols@[this.relocs@[sections@[j]]@[i].index as int] matches
                    SymbolInfo::Func { index, .. } && index == f) {
                let (j, i) = choose|j: int, i: int|
                    0 <= j < sections@.len() && 0 <= i < this.relocs@[sections@[j]]@.len()
                        && is_table_reloc((#[trigger] this.relocs@[sections@[j]]@[i]).ty) && (
                    this.symbols@[this.relocs@[sections@[j]]@[i].index as int] matches
                        SymbolInfo::Func { index, .. } && index == f);
                let r = this.relocs@[sections@[j]]@[i];
                assert(sections@.contains(sections@[j]));
                assert(this.relocs@[sections@[j]]@.contains(r));
                assert(has_reloc(this.relocs@, r));
            }
            if uses_place(this.relocs@, this.symbols@, f) {
                let r = choose|r: RelocationEntry| #[trigger]
                    has_reloc(this.relocs@, r) && is_table_reloc(r.ty) && (
                    this.symbols@[r.index as int] matches SymbolInfo::Func { index, .. } && index
                        == f);
                let s = choose|s: SectionIndex| #[trigger]
                    this.relocs@.contains_key(s) && this.relocs@[s]@.contains(r);
                assert(sections@.contains(s));
                let j = choose|j: int| 0 <= j < sections@.len() && sections@[j] == s;
                let i = choose|i: int| 0 <= i < this.relocs@[s]@.len() && this.relocs@[s]@[i] == r;
                assert(this.relocs@[sections@[j]]@[i] == r);
            }
        }
        if has_bad_table_reloc(this) {
            let r = choose|r: RelocationEntry| #[trigger]
                has_reloc(this.relocs@, r) && is_bad_table_reloc(this.symbols@, r);
            let s = choose|s: SectionIndex| #[trigger]
                this.relocs@.contains_key(s) && this.relocs@[s]@.contains(r);
            assert(sections@.contains(s));
            let j = choose|j: int| 0 <= j < sections@.len() && sections@[j] == s;
            let i = choose|i: int| 0 <= i < this.relocs@[s]@.len() && this.relocs@[s]@[i] == r;
            assert(this.relocs@[sections@[j]]@[i] == r);
        }
    }
    this.visible_indirects = visible;
    this.referenced_indirects = referenced;
    Ok(())
}

/// What noting the functions that indirect calls may lead to comes to.
pub open spec fn indirects_noted(
    module: &InputModule,
    iftable: TableId,
    before: RelocInfo,
    after: RelocInfo,
    noted: Result<(), RelocError>,
) -> bool {
    let table = Set::new(|f: InputFuncId| in_table(module, iftable, f));
    if exists|i: int|
        0 <= i < module.elements@.len() && element_fails(
            module.raw@,
            #[trigger] module.elements@[i],
            iftable,
        ) {
        (noted matches Err(error) && exists|i: int|
            0 <= i < module.elements@.len() && table_error(module, iftable, i, error)) && after
            == before
    } else if has_bad_table_reloc(&before) {
        noted == Err::<(), RelocError>(RelocError::InvalidTableIndex) && after == before
    } else {
        noted is Ok && notes_indirects(before, after, table)
    }
}

/// Notes the functions that indirect calls may lead to: those in the table that must stay visible,
/// and those whose place in the table is used.
pub fn get_indirect_functions(this: &mut RelocInfo, iftable: TableId, module: &InputModule) -> (noted:
    Result<(), RelocError>)
    requires
        elements_inside(module),
        table_relocs_inside(old(this)),
    ensures
        indirects_noted(module, iftable, *old(this), *final(this), noted),
{
    match collect_table_functions(module, iftable) {
        Ok(table) => {
            assert(table@ =~= Set::new(|f: InputFuncId| in_table(module, iftable, f)));
            note_indirects(this, &table)
        },
        Err(error) => {
            proof {
                let i = choose|i: int|
                    0 <= i < module.elements@.len() && table_error(module, iftable, i, error);
                assert(element_fails(module.raw@, module.elements@[i], iftable));
            }
            Err(error)
        },
    }
}

/// Whether a symbol stands for data of the given name.
pub open spec fn is_data_named(symbol: SymbolInfo, name: Seq<char>) -> bool {
    symbol matches SymbolInfo::Data { name: own, .. } && own@ == name
}

/// The first data symbol of the given name.
pub open spec fn data_named(symbols: Seq<SymbolInfo>, name: Seq<char>) -> Option<SymbolIndex>
    decreases symbols.len(),
{
    if symbols.len() == 0 {
        None
    } else {
        match data_named(symbols.drop_last(), name) {
            Some(index) => Some(index),
            None => if is_data_named(symbols.last(), name) {
                Some((symbols.len() - 1) as usize)
            } else {
                None
            },
        }
    }
}

/// The first of several symbols is found, whatever follows it.
proof fn lemma_data_named(symbols: Seq<SymbolInfo>, name: Seq<char>, n: int)
    requires
        0 <= n <= symbols.len(),
        data_named(symbols.take(n), name) is Some,
    ensures
        data_named(symbols, name) == data_named(symbols.take(n), name),
    decreases symbols.len() - n,
{
    if n < symbols.len() {
        assert(symbols.take(n + 1).drop_last() =~= symbols.take(n));
        lemma_data_named(symbols, name, n + 1);
    } else {
        assert(symbols.take(n) =~= symbols);
    }
}

/// Finds the first data symbol of the given name.
fn find_data_named(symbols: &[SymbolInfo], name: &str) -> (found: Option<SymbolIndex>)
    ensures
        found == data_named(symbols@, name@),
        found matches Some(index) ==> index < symbols@.len() && is_data_named(
            symbols@[index as int],
            name@,
        ),
{
    for k in 0..symbols.len()
        invariant
            data_named(symbols@.take(k as int), name@) is None,
    {
        proof {
            let more = symbols@.take(k + 1);
            assert(more.drop_last() =~= symbols@.take(k as int));
            assert(more.last() == symbols@[k as int]);
        }
        if let SymbolInfo::Data { flags: _, name: own, symbol: _ } = &symbols[k] {
            if same_text(own.as_str(), name) {
                proof {
                    lemma_data_named(symbols@, name@, k + 1);
                }
                return Some(k);
            }
        }
    }
    assert(symbols@.take(symbols@.len() as int) =~= symbols@);
    None
}

/// What exported globals stand for.
pub ghost struct GlobalState {
    /// The data symbol whose address a global holds.
    pub symbol_as_global: Map<GlobalId, SymbolIndex>,
    /// The globals that only mark a split program.
    pub markers: Set<GlobalId>,
}

/// Whether a symbol is defined and has no data.
pub open spec fn is_empty_data(symbol: SymbolInfo) -> bool {
    symbol matches SymbolInfo::Data { symbol: Some(place), .. } && place.size == 0
}

/// Tells whether a symbol is defined and has no data.
fn has_no_data(symbol: &SymbolInfo) -> (empty: bool)
    ensures
        empty == is_empty_data(*symbol),
{
    match symbol {
        SymbolInfo::Data { flags: _, name: _, symbol: Some(place) } => place.size == 0,
        _ => false,
    }
}

/// Whether an export of a global only marks a split program.
pub open spec fn is_marker_export(
    symbols: Seq<SymbolInfo>,
    marker: Seq<char>,
    name: Seq<char>,
    symbol_index: SymbolIndex,
) -> bool {
    begins_with(name, marker) && is_empty_data(symbols[symbol_index as int])
}

/// Whether the export of a global makes the address of a symbol known.
pub open spec fn exports_address(
    symbols: Seq<SymbolInfo>,
    marker: Seq<char>,
    export: Export,
) -> bool {
    export.kind == ExternalKind::Global && (data_named(symbols, export.name@) matches Some(index)
        && !is_marker_export(symbols, marker, export.name@, index))
}

/// Whether a global holds a fixed address.
pub open spec fn is_address(raw: Seq<u8>, global: Global) -> bool {
    &&& global.content_type == ValType::I32 || global.content_type == ValType::I64
    &&& !global.mutable
    &&& !global.shared
    &&& match const_value(
        raw.subrange(global.init_expr.start as int, global.init_expr.end as int),
    ) {
        ConstValue::I32(value) => 0 <= value,
        ConstValue::I64(value) => 0 <= value <= usize::MAX,
        ConstValue::Other => false,
    }
}

/// What is known after one more export, and the global that does not hold an address.
pub open spec fn global_step(
    module: &InputModule,
    symbols: Seq<SymbolInfo>,
    marker: Seq<char>,
    check: bool,
    export: Export,
    state: GlobalState,
) -> (GlobalState, Option<GlobalId>) {
    let global = export.index as usize;
    if export.kind != ExternalKind::Global {
        (state, None)
    } else {
        match data_named(symbols, export.name@) {
            None => (state, None),
            Some(index) => if is_marker_export(symbols, marker, export.name@, index) {
                (GlobalState { markers: state.markers.insert(global), ..state }, None)
            } else if check && !is_address(module.raw@, module.globals@[global as int]) {
                (state, Some(global))
            } else {
                (
                    GlobalState {
                        symbol_as_global: state.symbol_as_global.insert(global, index),
                        ..state
                    },
                    None,
                )
            },
        }
    }
}

/// What is known after exports, up to the first that does not hold an address.
pub open spec fn global_steps(
    module: &InputModule,
    symbols: Seq<SymbolInfo>,
    marker: Seq<char>,
    check: bool,
    exports: Seq<Export>,
    state: GlobalState,
) -> (GlobalState, Option<GlobalId>)
    decreases exports.len(),
{
    if exports.len() == 0 {
        (state, None)
    } else {
        let (before, error) = global_steps(
            module,
            symbols,
            marker,
            check,
            exports.drop_last(),
            state,
        );
        if error is Some {
            (before, error)
        } else {
            global_step(module, symbols, marker, check, exports.last(), before)
        }
    }
}

/// After a global that does not hold an address, the other exports are not looked at.
proof fn lemma_globals_stop(
    module: &InputModule,
    symbols: Seq<SymbolInfo>,
    marker: Seq<char>,
    check: bool,
    exports: Seq<Export>,
    state: GlobalState,
    n: int,
)
    requires
        0 <= n <= exports.len(),
        global_steps(module, symbols, marker, check, exports.take(n), state).1 is Some,
    ensures
        global_steps(module, symbols, marker, check, exports, state) == global_steps(
            module,
            symbols,
            marker,
            check,
            exports.take(n),
            state,
        ),
    decreases exports.len() - n,
{
    if n < exports.len() {
        assert(exports.take(n + 1).drop_last() =~= exports.take(n));
        lemma_globals_stop(module, symbols, marker, check, exports, state, n + 1);
    } else {
        assert(exports.take(n) =~= exports);
    }
}

/// The globals that may hold an address exist, and their expressions are inside the module.
pub open spec fn globals_inside(
    module: &InputModule,
    symbols: Seq<SymbolInfo>,
    marker: Seq<char>,
) -> bool {
    forall|i: int|
        0 <= i < module.exports@.len() && exports_address(
            symbols,
            marker,
            #[trigger] module.exports@[i],
        ) ==> {
            let global = module.exports@[i].index;
            &&& global < module.globals@.len()
            &&& module.globals@[global as int].init_expr.start
                <= module.globals@[global as int].init_expr.end <= module.raw@.len()
        }
}

/// Tells whether the globals that may hold an address exist, and their expressions are inside the
/// module.
pub fn has_globals(module: &InputModule, symbols: &[SymbolInfo], marker: &str) -> (has: bool)
    ensures
        has == globals_inside(module, symbols@, marker@),
{
    for k in 0..module.exports.len()
        invariant
            forall|i: int|
                0 <= i < k && exports_address(symbols@, marker@, #[trigger] module.exports@[i])
                    ==> {
                    let global = module.exports@[i].index;
                    &&& global < module.globals@.len()
                    &&& module.globals@[global as int].init_expr.start
                        <= module.globals@[global as int].init_expr.end <= module.raw@.len()
                },
    {
        let export = &module.exports[k];
        if export.kind == ExternalKind::Global {
            if let Some(index) = find_data_named(symbols, export.name.as_str()) {
                let is_empty = has_no_data(&symbols[index]);
                if !(starts_with(export.name.as_str(), marker) && is_empty) {
                    assert(exports_address(symbols@, marker@, module.exports@[k as int]));
                    let global: usize = export.index as usize;
                    if global >= module.globals.len() {
                        return false;
                    }
                    let range = &module.globals[global].init_expr;
                    if range.start > range.end || range.end > module.raw.len() {
                        return false;
                    }
                }
            }
        }
    }
    true
}

impl RelocInfo {
    /// What exported globals stand for.
    pub open spec fn global_state(&self) -> GlobalState {
        GlobalState {
            symbol_as_global: self.symbol_as_global@,
            markers: self.split_marker_globals@,
        }
    }
}

/// Whether a value that a global starts with can be an address.
pub fn can_be_address(value: ConstValue) -> (can: bool)
    ensures
        can == (match value {
            ConstValue::I32(value) => 0 <= value,
            ConstValue::I64(value) => 0 <= value <= usize::MAX,
            ConstValue::Other => false,
        }),
{
    match value {
        ConstValue::I32(value) => value >= 0,
        ConstValue::I64(value) => value >= 0 && value as u64 <= usize::MAX as u64,
        ConstValue::Other => false,
    }
}

/// Whether a global holds a fixed address.
fn holds_address(module: &InputModule, global: &Global) -> (holds: bool)
    requires
        global.init_expr.start <= global.init_expr.end <= module.raw@.len(),
    ensures
        holds == is_address(module.raw@, *global),
{
    let is_integer = match global.content_type {
        ValType::I32 | ValType::I64 => true,
        ValType::Other => false,
    };
    let bytes = slice_subrange(
        module.raw.as_slice(),
        global.init_expr.start,
        global.init_expr.end,
    );
    assert(module.raw.len() <= usize::MAX);
    let value = read_const(bytes, global.init_expr.start);
    is_integer && !global.mutable && !global.shared && can_be_address(value)
}

/// Notes which exported globals hold the address of a data symbol, and which ones only mark a
/// split program.
///
/// Nothing in a module says which symbols are exported. But a global that is exported under the
/// name of a data symbol holds its address. A global whose name starts with `marker` and whose
/// symbol has no data is a mark. With `check`, the other globals must hold a fixed address.
pub fn reconstruct_global_symbols(
    reloc_info: &mut RelocInfo,
    module: &InputModule,
    marker: &str,
    check: bool,
) -> (noted: Result<(), RelocError>)
    requires
        check ==> globals_inside(module, old(reloc_info).symbols@, marker@),
    ensures
        *final(reloc_info) == (RelocInfo {
            symbol_as_global: final(reloc_info).symbol_as_global,
            split_marker_globals: final(reloc_info).split_marker_globals,
            ..*old(reloc_info)
        }),
        ({
            let (state, error) = global_steps(
                module,
                old(reloc_info).symbols@,
                marker@,
                check,
                module.exports@,
                old(reloc_info).global_state(),
            );
            &&& final(reloc_info).global_state() == state
            &&& match error {
                None => noted is Ok,
                Some(global_index) => noted == Err::<(), RelocError>(
                    RelocError::InvalidAddress { global_index },
                ),
            }
        }),
{
    let ghost symbols = reloc_info.symbols@;
    let ghost start = reloc_info.global_state();
    assert(module.exports@.take(0) =~= Seq::empty());
    for k in 0..module.exports.len()
        invariant
            check ==> globals_inside(module, symbols, marker@),
            symbols == old(reloc_info).symbols@,
            start == old(reloc_info).global_state(),
            *reloc_info == (RelocInfo {
                symbol_as_global: reloc_info.symbol_as_global,
                split_marker_globals: reloc_info.split_marker_globals,
                ..*old(reloc_info)
            }),
            global_steps(module, symbols, marker@, check, module.exports@.take(k as int), start)
                == (reloc_info.global_state(), None::<GlobalId>),
    {
        let export = &module.exports[k];
        proof {
            let more = module.exports@.take(k + 1);
            assert(more.drop_last() =~= module.exports@.take(k as int));
            assert(more.last() == *export);
            assert(global_steps(module, symbols, marker@, check, more, start) == global_step(
                module,
                symbols,
                marker@,
                check,
                *export,
                reloc_info.global_state(),
            ));
        }
        let global_index: GlobalId = export.index as usize;
        if export.kind == ExternalKind::Global {
            let found = find_data_named(reloc_info.symbols.as_slice(), export.name.as_str());
            if let Some(symbol_index) = found {
                let is_empty = has_no_data(&reloc_info.symbols[symbol_index]);
                if starts_with(export.name.as_str(), marker) && is_empty {
                    reloc_info.split_marker_globals.insert(global_index);
                } else {
                    if check {
                        assert(exports_address(symbols, marker@, module.exports@[k as int]));
                        if !holds_address(module, &module.globals[global_index]) {
                            proof {
                                lemma_globals_stop(
                                    module,
                                    symbols,
                                    marker@,
                                    check,
                                    module.exports@,
                                    start,
                                    k + 1,
                                );
                            }
                            return Err(RelocError::InvalidAddress { global_index });
                        }
                    }
                    reloc_info.symbol_as_global.insert(global_index, symbol_index);
                }
            }
        }
    }
    assert(module.exports@.take(module.exports@.len() as int) =~= module.exports@);
    Ok(())
}

/// Whether the export of a global has the name of a mark, but its symbol has data.
pub open spec fn is_odd_marker(
    symbols: Seq<SymbolInfo>,
    marker: Seq<char>,
    export: Export,
) -> bool {
    &&& export.kind == ExternalKind::Global
    &&& begins_with(export.name@, marker)
    &&& data_named(symbols, export.name@) matches Some(index) && !is_empty_data(
        symbols[index as int],
    )
}

/// `found` are the positions of the exports that have the name of a mark, but whose symbols have data,
/// in order.
pub open spec fn are_odd_markers(
    symbols: Seq<SymbolInfo>,
    marker: Seq<char>,
    exports: Seq<Export>,
    found: Seq<usize>,
) -> bool {
    &&& forall|a: int, b: int| 0 <= a < b < found.len() ==> #[trigger] found[a] < #[trigger] found[b]
    &&& forall|k: usize| #[trigger]
        found.contains(k) <==> k < exports.len() && is_odd_marker(
            symbols,
            marker,
            exports[k as int],
        )
}

/// Finds the exports of globals that have the name of a mark, but whose symbols have data. They are
/// not taken for marks.
pub fn find_odd_markers(symbols: &[SymbolInfo], exports: &[Export], marker: &str) -> (found: Vec<
    usize,
>)
    ensures
        are_odd_markers(symbols@, marker@, exports@, found@),
{
    let mut found: Vec<usize> = Vec::new();
    for k in 0..exports.len()
        invariant
            are_odd_markers(symbols@, marker@, exports@.take(k as int), found@),
    {
        let export = &exports[k];
        let ghost before = found@;
        let ghost more = exports@.take(k + 1);
        assert(more[k as int] == *export);
        if export.kind == ExternalKind::Global && starts_with(export.name.as_str(), marker) {
            if let Some(index) = find_data_named(symbols, export.name.as_str()) {
                if !has_no_data(&symbols[index]) {
                    found.push(k);
                }
            }
        }
        proof {
            assert forall|j: usize| j < k implies #[trigger] more[j as int] == exports@.take(
                k as int,
            )[j as int] by {}
            assert forall|i: int| 0 <= i < before.len() implies #[trigger] before[i] < k by {
                assert(before.contains(before[i]));
            }
            assert forall|j: usize| #[trigger]
                found@.contains(j) <==> j < more.len() && is_odd_marker(
                    symbols@,
                    marker@,
                    more[j as int],
                ) by {
                if before.contains(j) {
                    let i = choose|i: int| 0 <= i < before.len() && before[i] == j;
                    assert(found@[i] == j);
                }
                if found@.len() > before.len() {
                    assert(found@[before.len() as int] == k);
                    if found@.contains(j) && j != k {
                        let i = choose|i: int| 0 <= i < found@.len() && found@[i] == j;
                        assert(before[i] == j);
                    }
                }
            }
        }
    }
    assert(exports@.take(exports@.len() as int) =~= exports@);
    found
}

} // verus!
