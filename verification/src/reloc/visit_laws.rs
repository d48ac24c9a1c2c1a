//! What visiting the pieces of a module collects, told by what they hold.
use crate::reloc::info::{
    DataSymbol, RelocInfo, RelocationEntry, RelocationType, Segment, SymbolInfo,
};
use crate::reloc::parse::{
    are_entries, custom_visited, described_segments, indirect_table_of, info_views,
    is_indirect_table, link_parts, notes_relocs, payload_visited, section_noted, symbols_of,
    CustomSection, LinkState, Payload, PayloadKind, RelocInfoParser, SymbolView,
};
use crate::reloc::RelocError;
use crate::sort::{in_key_order, lemma_sorts_same, sorts, with_key, SortKey};
use crate::wasm::{linking_subsections, reloc_section, segment_table, symbol_table};
use std::ops::Range;
use vstd::prelude::*;

verus! {

/// Sections are numbered in the order in which they come, and the code and data sections are found
/// under their numbers.
pub proof fn lemma_sections_numbered(
    before: &RelocInfoParser,
    after: &RelocInfoParser,
    payload: &Payload,
    visited: Result<(), RelocError>,
)
    requires
        payload_visited(before, after, payload, visited),
    ensures
        match payload.section {
            Some(range) => {
                let all = after.info().section_ranges@;
                &&& all == before.info().section_ranges@.push(range)
                &&& payload.kind is DataSection ==> after.info().data_section_index < all.len()
                    && all[after.info().data_section_index as int] == range
                    && after.info().data_section_index == all.len() - 1
                &&& payload.kind is CodeSectionStart ==> after.info().code_section_index < all.len()
                    && all[after.info().code_section_index as int] == range
                    && after.info().code_section_index == all.len() - 1
            },
            None => after.info().section_ranges@ == before.info().section_ranges@,
        },
        !(payload.kind is DataSection) ==> after.info().data_section_index
            == before.info().data_section_index,
        !(payload.kind is CodeSectionStart) ==> after.info().code_section_index
            == before.info().code_section_index,
        !(payload.kind is CustomSection) ==> visited is Ok && after.info().symbols
            == before.info().symbols && after.info().relocs == before.info().relocs
            && after.info().segments == before.info().segments && after.table() == before.table()
            && after.has_linking() == before.has_linking(),
{
    if let PayloadKind::CustomSection(custom) = payload.kind {
        let mid = lemma_custom(before, after, payload, visited, &custom);
    }
}

/// The state when the section is noted and its contents are not.
pub(crate) proof fn lemma_custom(
    before: &RelocInfoParser,
    after: &RelocInfoParser,
    payload: &Payload,
    visited: Result<(), RelocError>,
    custom: &CustomSection,
) -> (mid: RelocInfoParser)
    requires
        payload_visited(before, after, payload, visited),
        payload.kind == PayloadKind::CustomSection(*custom),
    ensures
        section_noted(before.info(), mid.info(), payload.section),
        mid.has_linking() == before.has_linking(),
        mid.table() == before.table(),
        custom_visited(&mid, after, custom, visited),
{
    choose|mid: RelocInfoParser|
        {
            &&& section_noted(before.info(), mid.info(), payload.section)
            &&& mid.has_linking() == before.has_linking()
            &&& mid.table() == before.table()
            &&& #[trigger] custom_visited(&mid, after, custom, visited)
        }
}

/// Whether two names are the same, or both missing.
pub open spec fn same_names(a: Option<String>, b: Option<Seq<char>>) -> bool {
    match (a, b) {
        (Some(a), Some(b)) => a@ == b,
        (None, None) => true,
        _ => false,
    }
}

/// Whether a symbol is what an entry of the symbol table says: the kinds are functions, data,
/// globals, sections, tags and tables.
pub open spec fn is_entry(
    entry: (u8, u32, u32, Option<Seq<char>>, Option<(u32, u32, u32)>),
    symbol: SymbolInfo,
) -> bool {
    match symbol {
        SymbolInfo::Func { flags, index, name } => entry.0 == 0 && flags == entry.1 && index
            == entry.2 && same_names(name, entry.3),
        SymbolInfo::Data { flags, name, symbol: place } => entry.0 == 1 && flags == entry.1
            && name@ == entry.3->0 && match (place, entry.4) {
            (Some(place), Some((segment, offset, size))) => place.index == segment && place.offset
                == offset && place.size == size,
            (None, None) => true,
            _ => false,
        },
        SymbolInfo::Global { flags, index, name } => entry.0 == 2 && flags == entry.1 && index
            == entry.2 && same_names(name, entry.3),
        SymbolInfo::Section { flags, section } => entry.0 == 3 && flags == entry.1 && section
            == entry.2,
        SymbolInfo::Event { flags, index, name } => entry.0 == 4 && flags == entry.1 && index
            == entry.2 && same_names(name, entry.3),
        SymbolInfo::Table { flags, index, name } => entry.0 >= 5 && flags == entry.1 && index
            == entry.2 && same_names(name, entry.3),
    }
}

/// Whether a subsection of a linking section is at position `k`.
pub open spec fn has_part(custom: &CustomSection, k: int, kind: u8, bytes: Seq<u8>) -> bool {
    let parts = linking_subsections(custom.data@, custom.data_offset).0;
    &&& custom.name@ == "linking"@
    &&& 0 <= k < parts.len()
    &&& parts[k].0 == kind
    &&& bytes == custom.data@.subrange(
        parts[k].1 - custom.data_offset,
        parts[k].2 - custom.data_offset,
    )
}

/// Symbols and segments that are known stay known.
proof fn lemma_parts_keep(
    state: LinkState,
    parts: Seq<(u8, usize, usize)>,
    data: Seq<u8>,
    offset: usize,
    k: int,
)
    requires
        0 <= k <= parts.len(),
        link_parts(state, parts, data, offset).1 is None,
    ensures
        ({
            let mid = link_parts(state, parts.take(k), data, offset);
            let end = link_parts(state, parts, data, offset).0;
            &&& mid.1 is None
            &&& mid.0.symbols.len() > 0 ==> end.symbols == mid.0.symbols && end.table == mid.0.table
            &&& mid.0.segments.len() > 0 ==> end.segments == mid.0.segments
        }),
    decreases parts.len(),
{
    if k == parts.len() {
        assert(parts.take(k) =~= parts);
    } else {
        let rest = parts.drop_last();
        assert(rest.take(k) =~= parts.take(k));
        lemma_parts_keep(state, rest, data, offset, k);
    }
}

/// The symbols that are known are those of the symbol table.
proof fn lemma_symbols_known(
    state: LinkState,
    parts: Seq<(u8, usize, usize)>,
    data: Seq<u8>,
    offset: usize,
    k: int,
)
    requires
        0 <= k < parts.len(),
        link_parts(state, parts, data, offset).1 is None,
        state.symbols.len() == 0,
        parts[k].0 == 8,
    ensures
        ({
            let table = symbol_table(data.subrange(parts[k].1 - offset, parts[k].2 - offset));
            let end = link_parts(state, parts, data, offset).0;
            &&& table is Some
            &&& table->0.len() > 0 ==> end.symbols == symbols_of(table->0)
        }),
{
    lemma_parts_keep(state, parts, data, offset, k + 1);
    lemma_parts_keep(state, parts, data, offset, k);
    let more = parts.take(k + 1);
    assert(more.drop_last() =~= parts.take(k));
    assert(more.last() == parts[k]);
}

/// The segments that are known are those that are described.
proof fn lemma_segments_known(
    state: LinkState,
    parts: Seq<(u8, usize, usize)>,
    data: Seq<u8>,
    offset: usize,
    k: int,
)
    requires
        0 <= k < parts.len(),
        link_parts(state, parts, data, offset).1 is None,
        state.segments.len() == 0,
        parts[k].0 == 5,
    ensures
        ({
            let table = segment_table(data.subrange(parts[k].1 - offset, parts[k].2 - offset));
            let end = link_parts(state, parts, data, offset).0;
            &&& table is Some
            &&& table->0.len() > 0 ==> end.segments == table->0
        }),
{
    lemma_parts_keep(state, parts, data, offset, k + 1);
    lemma_parts_keep(state, parts, data, offset, k);
    let more = parts.take(k + 1);
    assert(more.drop_last() =~= parts.take(k));
    assert(more.last() == parts[k]);
}

/// When a linking section was visited, the symbols are those of its symbol table, in order, each
/// with what the table says of it.
pub proof fn lemma_symbols_read(
    before: &RelocInfoParser,
    after: &RelocInfoParser,
    payload: &Payload,
    visited: Result<(), RelocError>,
    custom: &CustomSection,
    k: int,
    bytes: Seq<u8>,
)
    requires
        payload_visited(before, after, payload, visited),
        payload.kind == PayloadKind::CustomSection(*custom),
        visited is Ok,
        before.info().symbols@.len() == 0,
        has_part(custom, k, 8, bytes),
        symbol_table(bytes) is Some ==> symbol_table(bytes)->0.len() > 0,
    ensures
        after.has_linking(),
        symbol_table(bytes) is Some,
        after.info().symbols@.len() == symbol_table(bytes)->0.len(),
        forall|s: int|
            0 <= s < after.info().symbols@.len() ==> is_entry(
                symbol_table(bytes)->0[s],
                #[trigger] after.info().symbols@[s],
            ),
{
    let mid = lemma_custom(before, after, payload, visited, custom);
    let start = mid.link_state();
    let parts = linking_subsections(custom.data@, custom.data_offset).0;
    assert(start.symbols =~= Seq::<SymbolView>::empty());
    lemma_symbols_known(start, parts, custom.data@, custom.data_offset, k);
    let table = symbol_table(bytes)->0;
    let symbols = after.info().symbols@;
    assert(info_views(symbols) == symbols_of(table));
    assert(info_views(symbols).len() == symbols_of(table).len());
    assert forall|s: int| 0 <= s < symbols.len() implies is_entry(
        table[s],
        #[trigger] symbols[s],
    ) by {
        assert(info_views(symbols)[s] == symbols_of(table)[s]);
    }
}

/// When a linking section was visited, the segments are as it describes them.
pub proof fn lemma_segments_read(
    before: &RelocInfoParser,
    after: &RelocInfoParser,
    payload: &Payload,
    visited: Result<(), RelocError>,
    custom: &CustomSection,
    k: int,
    bytes: Seq<u8>,
)
    requires
        payload_visited(before, after, payload, visited),
        payload.kind == PayloadKind::CustomSection(*custom),
        visited is Ok,
        before.info().segments@.len() == 0,
        has_part(custom, k, 5, bytes),
        segment_table(bytes) is Some ==> segment_table(bytes)->0.len() > 0,
    ensures
        segment_table(bytes) is Some,
        after.info().segments@.len() == segment_table(bytes)->0.len(),
        forall|s: int|
            0 <= s < after.info().segments@.len() ==> {
                let told = segment_table(bytes)->0[s];
                &&& (#[trigger] after.info().segments@[s]).name@ == told.0
                &&& after.info().segments@[s].alignment == told.1
                &&& after.info().segments@[s].flags == told.2
            },
{
    let mid = lemma_custom(before, after, payload, visited, custom);
    let start = mid.link_state();
    let parts = linking_subsections(custom.data@, custom.data_offset).0;
    assert(start.segments =~= Seq::<(Seq<char>, u32, u32)>::empty());
    lemma_segments_known(start, parts, custom.data@, custom.data_offset, k);
    let table = segment_table(bytes)->0;
    let segments = after.info().segments@;
    assert(described_segments(segments) == table);
    assert(described_segments(segments).len() == table.len());
    assert forall|s: int| 0 <= s < segments.len() implies ({
        &&& (#[trigger] segments[s]).name@ == table[s].0
        &&& segments[s].alignment == table[s].1
        &&& segments[s].flags == table[s].2
    }) by {
        assert(described_segments(segments)[s] == table[s]);
    }
}

/// Whether a symbol is that of the table for indirect calls.
pub open spec fn names_indirect_table(symbol: SymbolInfo) -> bool {
    symbol matches SymbolInfo::Table { name: Some(name), .. } && name@
        == "__indirect_function_table"@
}

/// The table is that of the last symbol with its name.
proof fn lemma_last_table(symbols: Seq<SymbolInfo>, before: Option<usize>)
    ensures
        match indirect_table_of(info_views(symbols), before) {
            Some(table) => before == Some(table) || exists|s: int|
                0 <= s < symbols.len() && names_indirect_table(#[trigger] symbols[s])
                    && symbols[s]->Table_index == table,
            None => before is None,
        },
        forall|s: int|
            0 <= s < symbols.len() && names_indirect_table(#[trigger] symbols[s]) && (forall|t: int|
                s < t < symbols.len() ==> !names_indirect_table(#[trigger] symbols[t]))
                ==> indirect_table_of(info_views(symbols), before) == Some(
                symbols[s]->Table_index as usize,
            ),
    decreases symbols.len(),
{
    if symbols.len() > 0 {
        let rest = symbols.drop_last();
        lemma_last_table(rest, before);
        let views = info_views(symbols);
        assert(views.drop_last() =~= info_views(rest));
        let last = symbols.len() - 1;
        assert(views.last() == symbols[last]@);
        assert(is_indirect_table(views.last()) <==> names_indirect_table(symbols[last]));
        assert forall|s: int| 0 <= s < last implies #[trigger] symbols[s] == rest[s] by {}
        if !names_indirect_table(symbols[last]) {
            assert forall|s: int|
                0 <= s < symbols.len() && names_indirect_table(#[trigger] symbols[s]) && (forall|
                    t: int,
                |
                    s < t < symbols.len() ==> !names_indirect_table(
                        #[trigger] symbols[t],
                    )) implies indirect_table_of(views, before) == Some(
                symbols[s]->Table_index as usize,
            ) by {
                assert(names_indirect_table(rest[s]));
                assert forall|t: int| s < t < rest.len() implies !names_indirect_table(
                    #[trigger] rest[t],
                ) by {
                    assert(symbols[t] == rest[t]);
                }
            }
            match indirect_table_of(views, before) {
                Some(table) => {
                    if before != Some(table) {
                        let s = choose|s: int|
                            0 <= s < rest.len() && names_indirect_table(#[trigger] rest[s])
                                && rest[s]->Table_index == table;
                        assert(names_indirect_table(symbols[s]));
                    }
                },
                None => {},
            }
        } else {
            assert forall|s: int|
                0 <= s < symbols.len() && names_indirect_table(#[trigger] symbols[s]) && (forall|
                    t: int,
                |
                    s < t < symbols.len() ==> !names_indirect_table(
                        #[trigger] symbols[t],
                    )) implies indirect_table_of(views, before) == Some(
                symbols[s]->Table_index as usize,
            ) by {
                if s < last {
                    assert(!names_indirect_table(symbols[last]));
                }
            }
        }
    }
}

/// The table follows the symbols.
proof fn lemma_table_known(
    state: LinkState,
    parts: Seq<(u8, usize, usize)>,
    data: Seq<u8>,
    offset: usize,
)
    requires
        state.symbols.len() == 0,
        link_parts(state, parts, data, offset).1 is None,
    ensures
        ({
            let end = link_parts(state, parts, data, offset).0;
            end.table == indirect_table_of(end.symbols, state.table)
        }),
    decreases parts.len(),
{
    if parts.len() > 0 {
        lemma_table_known(state, parts.drop_last(), data, offset);
        let mid = link_parts(state, parts.drop_last(), data, offset).0;
        if mid.symbols.len() == 0 {
            assert(indirect_table_of(mid.symbols, state.table) == state.table);
        }
    }
}

/// When a linking section was visited, the table for indirect calls is that of the last symbol with
/// its name.
pub proof fn lemma_table_read(
    before: &RelocInfoParser,
    after: &RelocInfoParser,
    payload: &Payload,
    visited: Result<(), RelocError>,
    custom: &CustomSection,
    s: int,
)
    requires
        payload_visited(before, after, payload, visited),
        payload.kind == PayloadKind::CustomSection(*custom),
        custom.name@ == "linking"@,
        visited is Ok,
        before.info().symbols@.len() == 0,
        0 <= s < after.info().symbols@.len(),
        names_indirect_table(after.info().symbols@[s]),
        forall|t: int|
            s < t < after.info().symbols@.len() ==> !names_indirect_table(
                #[trigger] after.info().symbols@[t],
            ),
    ensures
        after.table() == Some(after.info().symbols@[s]->Table_index as usize),
{
    let mid = lemma_custom(before, after, payload, visited, custom);
    let start = mid.link_state();
    let parts = linking_subsections(custom.data@, custom.data_offset).0;
    assert(start.symbols =~= Seq::<SymbolView>::empty());
    lemma_table_known(start, parts, custom.data@, custom.data_offset);
    lemma_last_table(after.info().symbols@, start.table);
}

/// The type of relocation that a code of the binary format stands for.
pub open spec fn is_code_of(code: u8, ty: RelocationType) -> bool {
    match ty {
        RelocationType::FunctionIndexLeb => code == 0,
        RelocationType::TableIndexSleb => code == 1,
        RelocationType::TableIndexI32 => code == 2,
        RelocationType::MemoryAddrLeb => code == 3,
        RelocationType::MemoryAddrSleb => code == 4,
        RelocationType::MemoryAddrI32 => code == 5,
        RelocationType::TypeIndexLeb => code == 6,
        RelocationType::GlobalIndexLeb => code == 7,
        RelocationType::FunctionOffsetI32 => code == 8,
        RelocationType::SectionOffsetI32 => code == 9,
        RelocationType::EventIndexLeb => code == 10,
        RelocationType::MemoryAddrRelSleb => code == 11,
        RelocationType::TableIndexRelSleb => code == 12,
        RelocationType::GlobalIndexI32 => code == 13,
        RelocationType::MemoryAddrLeb64 => code == 14,
        RelocationType::MemoryAddrSleb64 => code == 15,
        RelocationType::MemoryAddrI64 => code == 16,
        RelocationType::MemoryAddrRelSleb64 => code == 17,
        RelocationType::TableIndexSleb64 => code == 18,
        RelocationType::TableIndexI64 => code == 19,
        RelocationType::TableNumberLeb => code == 20,
        RelocationType::MemoryAddrTlsSleb => code == 21,
        RelocationType::FunctionOffsetI64 => code == 22,
        RelocationType::MemoryAddrLocrelI32 => code == 23,
        RelocationType::TableIndexRelSleb64 => code == 24,
        RelocationType::MemoryAddrTlsSleb64 => code == 25,
        RelocationType::FunctionIndexI32 => code == 26,
    }
}

/// Whether a relocation is what a relocation section says: its type, offset, symbol and addend.
pub open spec fn is_reloc(told: (u8, u32, u32, i64), relocation: RelocationEntry) -> bool {
    &&& is_code_of(told.0, relocation.ty)
    &&& relocation.offset == told.1
    &&& relocation.index == told.2
    &&& relocation.addend == told.3
}

/// Whether what a relocation section says is among the relocations that were found.
pub open spec fn is_noted(told: (u8, u32, u32, i64), found: Seq<RelocationEntry>) -> bool {
    exists|i: int| 0 <= i < found.len() && is_reloc(told, #[trigger] found[i])
}

/// Whether a relocation is among what a relocation section says.
pub open spec fn is_told(told: Seq<(u8, u32, u32, i64)>, relocation: RelocationEntry) -> bool {
    exists|k: int| 0 <= k < told.len() && is_reloc(#[trigger] told[k], relocation)
}

/// When a relocation section was visited, the relocations of the section that it names are those
/// that it holds, in the order of their offsets, and those of other sections are as before.
pub proof fn lemma_relocs_read(
    before: &RelocInfoParser,
    after: &RelocInfoParser,
    payload: &Payload,
    visited: Result<(), RelocError>,
    custom: &CustomSection,
    section: u32,
    told: Seq<(u8, u32, u32, i64)>,
)
    requires
        payload_visited(before, after, payload, visited),
        payload.kind == PayloadKind::CustomSection(*custom),
        custom.name@.len() >= 6,
        custom.name@.take(6) == "reloc."@,
        reloc_section(custom.data@) == Some((section, told)),
    ensures
        visited is Ok,
        after.info().symbols == before.info().symbols,
        after.info().relocs@.dom() == before.info().relocs@.dom().insert(section as usize),
        forall|other: usize|
            other != section && #[trigger] after.info().relocs@.contains_key(other)
                ==> after.info().relocs@[other] == before.info().relocs@[other],
        ({
            let found = after.info().relocs@[section as usize]@;
            &&& forall|k: int| 0 <= k < told.len() ==> is_noted(#[trigger] told[k], found)
            &&& forall|i: int| 0 <= i < found.len() ==> is_told(told, #[trigger] found[i])
            &&& forall|i: int, j: int|
                0 <= i < j < found.len() ==> (#[trigger] found[i]).offset <= (
                #[trigger] found[j]).offset
        }),
{
    let mid = lemma_custom(before, after, payload, visited, custom);
    reveal_strlit("reloc.");
    reveal_strlit("linking");
    assert(custom.name@.take(6)[0] == custom.name@[0]);
    assert(custom.name@[0] == 'r');
    assert(custom.name@ != "linking"@);
    assert(custom.name@.subrange(0, 6) =~= custom.name@.take(6));
    assert(notes_relocs(mid.info(), after.info(), section, told));
    let found = after.info().relocs@[section as usize]@;
    let entries = choose|entries: Seq<RelocationEntry>| #[trigger]
        are_entries(told, entries) && sorts(entries, found);
    assert forall|k: int| 0 <= k < told.len() implies is_noted(#[trigger] told[k], found) by {
        assert(entries.contains(entries[k]));
        lemma_sorts_same(entries, found, entries[k]);
        let i = choose|i: int| 0 <= i < found.len() && found[i] == entries[k];
        assert(is_reloc(told[k], found[i]));
    }
    assert forall|i: int| 0 <= i < found.len() implies is_told(told, #[trigger] found[i]) by {
        assert(found.contains(found[i]));
        lemma_sorts_same(entries, found, found[i]);
        let k = choose|k: int| 0 <= k < entries.len() && entries[k] == found[i];
        assert(is_reloc(told[k], found[i]));
    }
    assert(in_key_order(found));
    assert forall|i: int, j: int| 0 <= i < j < found.len() implies (#[trigger] found[i]).offset <= (
    #[trigger] found[j]).offset by {
        assert(found[i].spec_sort_key() <= found[j].spec_sort_key());
    }
}

/// The relocations at an offset, in the order in which they come.
pub open spec fn at_offset(found: Seq<RelocationEntry>, offset: u32) -> Seq<RelocationEntry> {
    found.filter(|relocation: RelocationEntry| relocation.offset == offset)
}

/// What a relocation section says of an offset, in the order in which it does.
pub open spec fn told_at(told: Seq<(u8, u32, u32, i64)>, offset: u32) -> Seq<(u8, u32, u32, i64)> {
    told.filter(|entry: (u8, u32, u32, i64)| entry.1 == offset)
}

/// The relocations at an offset are those with a place.
proof fn lemma_at_offset(found: Seq<RelocationEntry>, offset: u32)
    ensures
        at_offset(found, offset) == with_key(found, offset as usize),
    decreases found.len(),
{
    reveal(Seq::filter);
    if found.len() > 0 {
        lemma_at_offset(found.drop_last(), offset);
    }
}

/// The relocations at an offset are those that are told, one by one.
proof fn lemma_told_at(told: Seq<(u8, u32, u32, i64)>, entries: Seq<RelocationEntry>, offset: u32)
    requires
        entries.len() == told.len(),
        forall|i: int| 0 <= i < told.len() ==> is_reloc(told[i], #[trigger] entries[i]),
    ensures
        at_offset(entries, offset).len() == told_at(told, offset).len(),
        forall|i: int|
            0 <= i < told_at(told, offset).len() ==> is_reloc(
                told_at(told, offset)[i],
                #[trigger] at_offset(entries, offset)[i],
            ),
    decreases told.len(),
{
    reveal(Seq::filter);
    if told.len() > 0 {
        let n = told.len() - 1;
        assert(is_reloc(told[n], entries[n]));
        assert forall|i: int| 0 <= i < n implies is_reloc(
            told.drop_last()[i],
            #[trigger] entries.drop_last()[i],
        ) by {
            assert(is_reloc(told[i], entries[i]));
        }
        lemma_told_at(told.drop_last(), entries.drop_last(), offset);
    }
}

/// Relocations at the same offset stay in the order in which the relocation section has them, and
/// none is lost or comes twice.
pub proof fn lemma_relocs_kept(
    before: &RelocInfoParser,
    after: &RelocInfoParser,
    payload: &Payload,
    visited: Result<(), RelocError>,
    custom: &CustomSection,
    section: u32,
    told: Seq<(u8, u32, u32, i64)>,
    offset: u32,
)
    requires
        payload_visited(before, after, payload, visited),
        payload.kind == PayloadKind::CustomSection(*custom),
        custom.name@.len() >= 6,
        custom.name@.take(6) == "reloc."@,
        reloc_section(custom.data@) == Some((section, told)),
    ensures
        ({
            let found = at_offset(after.info().relocs@[section as usize]@, offset);
            &&& found.len() == told_at(told, offset).len()
            &&& forall|i: int|
                0 <= i < found.len() ==> is_reloc(told_at(told, offset)[i], #[trigger] found[i])
        }),
{
    let mid = lemma_custom(before, after, payload, visited, custom);
    reveal_strlit("reloc.");
    reveal_strlit("linking");
    assert(custom.name@.take(6)[0] == custom.name@[0]);
    assert(custom.name@[0] == 'r');
    assert(custom.name@ != "linking"@);
    assert(custom.name@.subrange(0, 6) =~= custom.name@.take(6));
    assert(notes_relocs(mid.info(), after.info(), section, told));
    let found = after.info().relocs@[section as usize]@;
    let entries = choose|entries: Seq<RelocationEntry>| #[trigger]
        are_entries(told, entries) && sorts(entries, found);
    assert forall|i: int| 0 <= i < told.len() implies is_reloc(told[i], #[trigger] entries[i]) by {}
    lemma_told_at(told, entries, offset);
    lemma_at_offset(entries, offset);
    lemma_at_offset(found, offset);
    assert(with_key(found, offset as usize) == with_key(entries, offset as usize));
}

/// A custom section that is neither a linking section nor a relocation section changes nothing but
/// the list of sections.
pub proof fn lemma_other_sections(
    before: &RelocInfoParser,
    after: &RelocInfoParser,
    payload: &Payload,
    visited: Result<(), RelocError>,
    custom: &CustomSection,
)
    requires
        payload_visited(before, after, payload, visited),
        payload.kind == PayloadKind::CustomSection(*custom),
        custom.name@ != "linking"@,
        custom.name@.len() < 6 || custom.name@.take(6) != "reloc."@,
    ensures
        visited is Ok,
        after.has_linking() == before.has_linking(),
        after.table() == before.table(),
        after.info().symbols == before.info().symbols,
        after.info().segments == before.info().segments,
        after.info().relocs == before.info().relocs,
{
    let mid = lemma_custom(before, after, payload, visited, custom);
    reveal_strlit("reloc.");
    if custom.name@.len() >= 6 {
        assert(custom.name@.subrange(0, 6) =~= custom.name@.take(6));
    }
}

/// Before anything is visited, no sections, segments, symbols, data, relocations, functions or
/// globals are known.
pub proof fn lemma_nothing_known(info: &RelocInfo, section: usize, f: usize)
    requires
        info.is_default(),
    ensures
        info.section_ranges@ == Seq::<Range<usize>>::empty(),
        info.segments@ == Seq::<Segment>::empty(),
        info.symbols@ == Seq::<SymbolInfo>::empty(),
        info.data_symbols@ == Seq::<DataSymbol>::empty(),
        info.code_section_index == 0 && info.data_section_index == 0,
        info.indirect_table == 0 && info.stack_pointer == 0,
        !info.relocs@.contains_key(section),
        !info.visible_indirects@.contains(f),
        !info.referenced_indirects@.contains(f),
        !info.symbol_as_global@.contains_key(f),
        !info.split_marker_globals@.contains(f),
{
    assert(info.section_ranges@ =~= Seq::<Range<usize>>::empty());
    assert(info.segments@ =~= Seq::<Segment>::empty());
    assert(info.symbols@ =~= Seq::<SymbolInfo>::empty());
    assert(info.data_symbols@ =~= Seq::<DataSymbol>::empty());
}

} // verus!
