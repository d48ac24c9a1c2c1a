//! What is collected of symbols and relocations, told by what the module holds.
use crate::order::begins_with;
use crate::read::{Data, ElementItems, ElementKind, Export, ExternalKind, InputModule, ValType};
use crate::reloc::expand::RelocError;
use crate::reloc::info::{DataSymbol, RelocInfo, RelocationEntry, RelocationType, SymbolInfo};
use crate::reloc::parse::{finishes, globals_noted, prepared, RelocInfoParser};
use crate::reloc::symbols::{
    are_odd_markers, data_error, data_named, element_fails, exports_address, finds_data,
    global_step, global_steps, has_bad_table_reloc, has_reloc, in_table, indirects_noted,
    is_bad_table_reloc, is_data_place, is_kept, is_marker_export, is_odd_marker, is_table_reloc,
    is_visible, notes_indirects, puts_into_table, table_error, uses_place, DataPlace, GlobalState,
};
use crate::sort::{lemma_sorts_same, sorts, with_key, SortKey};
use crate::wasm::{const_value, function_indices, ConstValue};
use vstd::prelude::*;

verus! {

/// Whether a relocation of a type is for the place of a function in the table for indirect calls.
pub open spec fn takes_address(ty: RelocationType) -> bool {
    ||| ty == RelocationType::TableIndexSleb
    ||| ty == RelocationType::TableIndexI32
    ||| ty == RelocationType::TableIndexI64
    ||| ty == RelocationType::TableIndexSleb64
    ||| ty == RelocationType::TableIndexRelSleb
    ||| ty == RelocationType::TableIndexRelSleb64
}

/// Whether a section has a relocation at position `i` that is for the place of a function in the
/// table for indirect calls.
pub open spec fn address_taken(info: RelocInfo, section: usize, i: int) -> bool {
    info.relocs@.contains_key(section) && 0 <= i < info.relocs@[section]@.len() && takes_address(
        info.relocs@[section]@[i].ty,
    )
}

/// The state in the middle of completing.
proof fn lemma_middle(
    parser: &RelocInfoParser,
    module: &InputModule,
    marker: Seq<char>,
    check: bool,
    info: RelocInfo,
) -> (states: (RelocInfo, RelocInfo))
    requires
        finishes(parser, module, marker, check, Ok(info)),
    ensures
        prepared(parser, module, parser.table()->0, states.0),
        indirects_noted(module, parser.table()->0, states.0, states.1, Ok(())),
        info == (RelocInfo {
            symbol_as_global: info.symbol_as_global,
            split_marker_globals: info.split_marker_globals,
            ..states.1
        }),
        global_steps(
            module,
            states.1.symbols@,
            marker,
            check,
            module.exports@,
            states.1.global_state(),
        ) == (info.global_state(), None::<usize>),
        notes_indirects(
            states.0,
            states.1,
            Set::new(|f: usize| in_table(module, parser.table()->0, f)),
        ),
        !has_bad_table_reloc(&states.0),
        info.relocs == parser.info().relocs,
        info.symbols == parser.info().symbols,
        states.0.relocs == info.relocs,
        states.0.symbols == info.symbols,
        states.1.symbols == info.symbols,
{
    let table = parser.table()->0;
    choose|start: RelocInfo, mid: RelocInfo|
        prepared(parser, module, table, start) && #[trigger] indirects_noted(
            module,
            table,
            start,
            mid,
            Ok(()),
        ) && info == (RelocInfo {
            symbol_as_global: info.symbol_as_global,
            split_marker_globals: info.split_marker_globals,
            ..mid
        }) && globals_noted(module, marker, check, mid) == (
            info.global_state(),
            None::<usize>,
        )
}

/// A function whose place in the table for indirect calls is used by a relocation of any section is
/// noted as referenced.
pub proof fn lemma_addresses_noted(
    parser: &RelocInfoParser,
    module: &InputModule,
    marker: Seq<char>,
    check: bool,
    info: RelocInfo,
    section: usize,
    i: int,
)
    requires
        finishes(parser, module, marker, check, Ok(info)),
        address_taken(info, section, i),
    ensures
        info.symbols@[info.relocs@[section]@[i].index as int] matches SymbolInfo::Func { index, .. }
            && info.referenced_indirects@.contains(index as usize),
{
    let (start, mid) = lemma_middle(parser, module, marker, check, info);
    let r = info.relocs@[section]@[i];
    assert(info.relocs@[section]@.contains(r));
    assert(has_reloc(start.relocs@, r));
    assert(is_table_reloc(r.ty));
    assert(!is_bad_table_reloc(start.symbols@, r));
    let f = info.symbols@[r.index as int]->Func_index as usize;
    assert(uses_place(start.relocs@, start.symbols@, f));
    assert(mid.referenced_indirects@.contains(f));
}

/// Whether an element segment puts function `f` into a table when the module starts.
pub open spec fn fills_with(module: &InputModule, e: int, table: usize, f: usize) -> bool {
    &&& 0 <= e < module.elements@.len()
    &&& match module.elements@[e].kind {
        ElementKind::Active { table_index: Some(index) } => index == table,
        ElementKind::Active { table_index: None } => table == 0,
        _ => false,
    }
    &&& module.elements@[e].items matches ElementItems::Functions(range)
    &&& function_indices(module.raw@.subrange(range.start as int, range.end as int)) matches Some(
        list,
    )
    &&& exists|k: int| 0 <= k < list.len() && #[trigger] list[k] == f
}

/// Whether a symbol says that function `f` must stay visible: it must not be stripped, or is
/// exported and weak.
pub open spec fn keeps(info: RelocInfo, s: int, f: usize) -> bool {
    &&& 0 <= s < info.symbols@.len()
    &&& info.symbols@[s] matches SymbolInfo::Func { index, flags, .. }
    &&& index == f
    &&& flags & 0x80 == 0x80 || flags & 0x21 == 0x21
}

/// The flags by which functions stay visible.
proof fn lemma_flags(flags: u32)
    ensures
        is_kept(flags) <==> flags & 0x80 == 0x80 || flags & 0x21 == 0x21,
{
    assert(0x20u32 | 0x01u32 == 0x21u32) by (bit_vector);
}

/// What an element segment puts into a table.
proof fn lemma_fills(module: &InputModule, e: int, table: usize, f: usize)
    requires
        0 <= e < module.elements@.len(),
    ensures
        puts_into_table(module.raw@, module.elements@[e], table, f) <==> fills_with(
            module,
            e,
            table,
            f,
        ),
{
    if let ElementItems::Functions(range) = module.elements@[e].items {
        if let Some(list) = function_indices(
            module.raw@.subrange(range.start as int, range.end as int),
        ) {
            if f <= u32::MAX && list.contains(f as u32) {
                let k = choose|k: int| 0 <= k < list.len() && list[k] == f as u32;
                assert(list[k] == f);
            }
            if exists|k: int| 0 <= k < list.len() && #[trigger] list[k] == f {
                let k = choose|k: int| 0 <= k < list.len() && #[trigger] list[k] == f;
                assert(list[k] == f as u32);
            }
        }
    }
}

/// The functions that are noted as visible are those that an element segment puts into the table
/// for indirect calls, and that a symbol keeps visible.
pub proof fn lemma_visible_noted(
    parser: &RelocInfoParser,
    module: &InputModule,
    marker: Seq<char>,
    check: bool,
    info: RelocInfo,
    f: usize,
)
    requires
        finishes(parser, module, marker, check, Ok(info)),
    ensures
        info.visible_indirects@.contains(f) <==> (exists|e: int| #[trigger]
            fills_with(module, e, info.indirect_table, f)) && (exists|s: int| #[trigger]
            keeps(info, s, f)),
        info.visible_indirects@.contains(f) ==> info.referenced_indirects@.contains(f),
{
    let (start, mid) = lemma_middle(parser, module, marker, check, info);
    let table = parser.table()->0;
    assert(info.indirect_table == table);
    let symbols = info.symbols@;
    assert forall|s: int| 0 <= s < symbols.len() implies ((#[trigger] symbols[s] matches
        SymbolInfo::Func { index, flags, .. } && index == f && is_kept(flags)) <==> keeps(
        info,
        s,
        f,
    )) by {
        if let SymbolInfo::Func { index, flags, .. } = symbols[s] {
            lemma_flags(flags);
        }
    }
    assert((exists|e: int| #[trigger] fills_with(module, e, table, f)) <==> in_table(
        module,
        table,
        f,
    )) by {
        if in_table(module, table, f) {
            let e = choose|e: int|
                0 <= e < module.elements@.len() && puts_into_table(
                    module.raw@,
                    #[trigger] module.elements@[e],
                    table,
                    f,
                );
            lemma_fills(module, e, table, f);
            assert(fills_with(module, e, table, f));
        }
        if exists|e: int| #[trigger] fills_with(module, e, table, f) {
            let e = choose|e: int| #[trigger] fills_with(module, e, table, f);
            lemma_fills(module, e, table, f);
        }
    }
    assert(mid.visible_indirects@.contains(f) <==> is_visible(
        symbols,
        Set::new(|f: usize| in_table(module, table, f)),
        f,
    ));
    if exists|s: int| #[trigger] keeps(info, s, f) {
        let s = choose|s: int| #[trigger] keeps(info, s, f);
        assert(symbols[s] is Func);
    }
    if mid.visible_indirects@.contains(f) {
        let s = choose|s: int|
            0 <= s < symbols.len() && (#[trigger] symbols[s] matches SymbolInfo::Func {
                index,
                flags,
                ..
            } && index == f && is_kept(flags));
        assert(keeps(info, s, f));
    }
}

/// A function is noted as referenced only if it is visible, or its place in the table for indirect
/// calls is used by a relocation.
pub proof fn lemma_referenced_reasons(
    parser: &RelocInfoParser,
    module: &InputModule,
    marker: Seq<char>,
    check: bool,
    info: RelocInfo,
    f: usize,
)
    requires
        finishes(parser, module, marker, check, Ok(info)),
        info.referenced_indirects@.contains(f),
    ensures
        info.visible_indirects@.contains(f) || exists|section: usize, i: int| #[trigger]
            address_taken(info, section, i) && (info.symbols@[info.relocs@[section]@[i].index as int]
                matches SymbolInfo::Func { index, .. } && index == f),
{
    let (start, mid) = lemma_middle(parser, module, marker, check, info);
    if !info.visible_indirects@.contains(f) {
        assert(uses_place(start.relocs@, start.symbols@, f));
        let r = choose|r: RelocationEntry| #[trigger]
            has_reloc(start.relocs@, r) && is_table_reloc(r.ty) && (
            start.symbols@[r.index as int] matches SymbolInfo::Func { index, .. } && index == f);
        let section = choose|section: usize| #[trigger]
            start.relocs@.contains_key(section) && start.relocs@[section]@.contains(r);
        let i = choose|i: int|
            0 <= i < start.relocs@[section]@.len() && start.relocs@[section]@[i] == r;
        assert(address_taken(info, section, i));
    }
}

/// Whether a piece of data is that of symbol `s`: it is in the segment that the symbol names, at
/// the offset and with the size that it says.
pub open spec fn is_piece_of(
    segments: Seq<Data>,
    symbols: Seq<SymbolInfo>,
    s: int,
    piece: DataSymbol,
) -> bool {
    &&& 0 <= s < symbols.len()
    &&& piece.symbol_index == s
    &&& symbols[s] matches SymbolInfo::Data { symbol: Some(place), .. }
    &&& place.size > 0
    &&& place.index < segments.len()
    &&& place.offset + place.size <= segments[place.index as int].data_len
    &&& piece.range.start == segments[place.index as int].range.end - segments[place.index as int].data_len
        + place.offset
    &&& piece.range.end == piece.range.start + place.size
}

/// The pieces of data that are found are those of symbols, one for each that has data.
proof fn lemma_pieces_found(segments: Seq<Data>, symbols: Seq<SymbolInfo>, found: Seq<DataSymbol>)
    requires
        finds_data(segments, symbols, found),
        symbols.len() <= usize::MAX,
    ensures
        forall|i: int|
            0 <= i < found.len() ==> is_piece_of(
                segments,
                symbols,
                (#[trigger] found[i]).symbol_index as int,
                found[i],
            ),
        forall|s: int|
            0 <= s < symbols.len() && (#[trigger] symbols[s] matches SymbolInfo::Data {
                symbol: Some(place),
                ..
            } && place.size > 0) ==> exists|i: int|
                0 <= i < found.len() && (#[trigger] found[i]).symbol_index == s,
        forall|i: int, j: int|
            0 <= i < j < found.len() ==> (#[trigger] found[i]).symbol_index < (
            #[trigger] found[j]).symbol_index,
    decreases symbols.len(),
{
    if symbols.len() > 0 {
        let last = symbols.len() - 1;
        let rest = symbols.drop_last();
        if is_data_place(segments, symbols[last], last as usize, DataPlace::Skip) && finds_data(
            segments,
            rest,
            found,
        ) {
            lemma_pieces_found(segments, rest, found);
            assert forall|i: int| 0 <= i < found.len() implies is_piece_of(
                segments,
                symbols,
                (#[trigger] found[i]).symbol_index as int,
                found[i],
            ) by {
                assert(is_piece_of(segments, rest, found[i].symbol_index as int, found[i]));
            }
            assert forall|s: int|
                0 <= s < symbols.len() && (#[trigger] symbols[s] matches SymbolInfo::Data {
                    symbol: Some(place),
                    ..
                } && place.size > 0) implies exists|i: int|
                0 <= i < found.len() && (#[trigger] found[i]).symbol_index == s by {
                if s < last {
                    assert(rest[s] == symbols[s]);
                }
            }
        } else {
            let before = found.drop_last();
            let top = found.last();
            assert(finds_data(segments, rest, before));
            lemma_pieces_found(segments, rest, before);
            assert(is_data_place(segments, symbols[last], last as usize, DataPlace::At(top)));
            assert(is_piece_of(segments, symbols, last, top));
            assert forall|i: int| 0 <= i < found.len() implies is_piece_of(
                segments,
                symbols,
                (#[trigger] found[i]).symbol_index as int,
                found[i],
            ) by {
                if i < before.len() {
                    assert(found[i] == before[i]);
                    assert(is_piece_of(segments, rest, found[i].symbol_index as int, found[i]));
                }
            }
            assert forall|s: int|
                0 <= s < symbols.len() && (#[trigger] symbols[s] matches SymbolInfo::Data {
                    symbol: Some(place),
                    ..
                } && place.size > 0) implies exists|i: int|
                0 <= i < found.len() && (#[trigger] found[i]).symbol_index == s by {
                if s < last {
                    assert(rest[s] == symbols[s]);
                    let i = choose|i: int|
                        0 <= i < before.len() && (#[trigger] before[i]).symbol_index == s;
                    assert(found[i].symbol_index == s);
                } else {
                    assert(found[found.len() - 1].symbol_index == s);
                }
            }
            assert forall|i: int, j: int| 0 <= i < j < found.len() implies (
            #[trigger] found[i]).symbol_index < (#[trigger] found[j]).symbol_index by {
                assert(found[i] == before[i]);
                if j < before.len() {
                    assert(found[j] == before[j]);
                } else {
                    assert(is_piece_of(segments, rest, before[i].symbol_index as int, before[i]));
                }
            }
        }
    }
}

/// Each symbol that has data makes for a piece of data, at the place that it says, and there are no
/// other pieces of data.
pub proof fn lemma_pieces_of_data(
    parser: &RelocInfoParser,
    module: &InputModule,
    marker: Seq<char>,
    check: bool,
    info: RelocInfo,
    s: int,
    i: int,
)
    requires
        finishes(parser, module, marker, check, Ok(info)),
        info.symbols@.len() <= usize::MAX,
    ensures
        0 <= s < info.symbols@.len() && (info.symbols@[s] matches SymbolInfo::Data {
            symbol: Some(place),
            ..
        } && place.size > 0) ==> exists|piece: DataSymbol|
            #![trigger info.data_symbols@.contains(piece)]
            info.data_symbols@.contains(piece) && is_piece_of(
                module.data_segments@,
                info.symbols@,
                s,
                piece,
            ),
        0 <= i < info.data_symbols@.len() ==> is_piece_of(
            module.data_segments@,
            info.symbols@,
            info.data_symbols@[i].symbol_index as int,
            info.data_symbols@[i],
        ),
{
    let (start, mid) = lemma_middle(parser, module, marker, check, info);
    let segments = module.data_segments@;
    let symbols = info.symbols@;
    let sorted = info.data_symbols@;
    let found = choose|found: Seq<DataSymbol>| #[trigger]
        finds_data(segments, symbols, found) && sorts(found, sorted);
    lemma_pieces_found(segments, symbols, found);
    if 0 <= i < sorted.len() {
        assert(sorted.contains(sorted[i]));
        lemma_sorts_same(found, sorted, sorted[i]);
        let k = choose|k: int| 0 <= k < found.len() && found[k] == sorted[i];
        assert(is_piece_of(segments, symbols, found[k].symbol_index as int, found[k]));
    }
    if 0 <= s < symbols.len() && (symbols[s] matches SymbolInfo::Data { symbol: Some(place), .. }
        && place.size > 0) {
        let k = choose|k: int| 0 <= k < found.len() && (#[trigger] found[k]).symbol_index == s;
        assert(found.contains(found[k]));
        lemma_sorts_same(found, sorted, found[k]);
        assert(is_piece_of(segments, symbols, found[k].symbol_index as int, found[k]));
        assert(sorted.contains(found[k]));
    }
}

/// Those with a start keep their order.
proof fn lemma_filter_order(items: Seq<DataSymbol>, key: usize)
    requires
        forall|i: int, j: int|
            0 <= i < j < items.len() ==> (#[trigger] items[i]).symbol_index < (
            #[trigger] items[j]).symbol_index,
    ensures
        forall|i: int, j: int|
            0 <= i < j < with_key(items, key).len() ==> (#[trigger] with_key(items, key)[i]).symbol_index < (
            #[trigger] with_key(items, key)[j]).symbol_index,
        forall|i: int|
            0 <= i < with_key(items, key).len() ==> items.contains(#[trigger] with_key(items, key)[i]),
    decreases items.len(),
{
    reveal(Seq::filter);
    if items.len() > 0 {
        let rest = items.drop_last();
        lemma_filter_order(rest, key);
        let before = with_key(rest, key);
        let now = with_key(items, key);
        assert forall|i: int| 0 <= i < before.len() implies items.contains(#[trigger] before[i])
            && before[i].symbol_index < items.last().symbol_index by {
            let k = choose|k: int| 0 <= k < rest.len() && rest[k] == before[i];
            assert(items[k] == before[i]);
            assert(items[k].symbol_index < items[items.len() - 1].symbol_index);
        }
        if items.last().range.start == key {
            assert(now == before.push(items.last()));
            assert(items.contains(items[items.len() - 1]));
        } else {
            assert(now == before);
        }
    }
}

/// Two with the same start stay in their order.
proof fn lemma_filter_keeps(
    items: Seq<DataSymbol>,
    key: usize,
    a: int,
    b: int,
) -> (at: (int, int))
    requires
        0 <= a < b < items.len(),
        items[a].range.start == key,
        items[b].range.start == key,
    ensures
        0 <= at.0 < at.1 < with_key(items, key).len(),
        with_key(items, key)[at.0] == items[a],
        with_key(items, key)[at.1] == items[b],
    decreases items.len(),
{
    reveal(Seq::filter);
    let rest = items.drop_last();
    if b < items.len() - 1 {
        lemma_filter_keeps(rest, key, a, b)
    } else {
        let i = lemma_filter_has(rest, key, a);
        assert(with_key(items, key) == with_key(rest, key).push(items.last()));
        (i, with_key(rest, key).len() as int)
    }
}

/// One with a start stays.
proof fn lemma_filter_has(items: Seq<DataSymbol>, key: usize, a: int) -> (at:
    int)
    requires
        0 <= a < items.len(),
        items[a].range.start == key,
    ensures
        0 <= at < with_key(items, key).len(),
        with_key(items, key)[at] == items[a],
    decreases items.len(),
{
    reveal(Seq::filter);
    let rest = items.drop_last();
    if a < items.len() - 1 {
        lemma_filter_has(rest, key, a)
    } else {
        with_key(rest, key).len() as int
    }
}

/// Pieces of data are in the order of their starts, and those with the same start in the order of
/// their symbols. No symbol has two of them.
pub proof fn lemma_pieces_ordered(
    parser: &RelocInfoParser,
    module: &InputModule,
    marker: Seq<char>,
    check: bool,
    info: RelocInfo,
    a: int,
    b: int,
)
    requires
        finishes(parser, module, marker, check, Ok(info)),
        info.symbols@.len() <= usize::MAX,
        0 <= a < b < info.data_symbols@.len(),
    ensures
        info.data_symbols@[a].range.start < info.data_symbols@[b].range.start || (
        info.data_symbols@[a].range.start == info.data_symbols@[b].range.start
            && info.data_symbols@[a].symbol_index < info.data_symbols@[b].symbol_index),
        info.data_symbols@[a].symbol_index != info.data_symbols@[b].symbol_index,
{
    let (start, mid) = lemma_middle(parser, module, marker, check, info);
    let segments = module.data_segments@;
    let symbols = info.symbols@;
    let sorted = info.data_symbols@;
    let found = choose|found: Seq<DataSymbol>| #[trigger]
        finds_data(segments, symbols, found) && sorts(found, sorted);
    lemma_pieces_found(segments, symbols, found);
    assert(sorted[a].spec_sort_key() <= sorted[b].spec_sort_key());
    if sorted[a].range.start == sorted[b].range.start {
        let key = sorted[a].range.start;
        let at = lemma_filter_keeps(sorted, key, a, b);
        lemma_filter_order(found, key);
        assert(with_key(sorted, key) == with_key(found, key));
        assert(with_key(found, key)[at.0].symbol_index < with_key(found, key)[at.1].symbol_index);
    } else if sorted[a].symbol_index == sorted[b].symbol_index {
        lemma_pieces_of_data(parser, module, marker, check, info, 0, a);
        lemma_pieces_of_data(parser, module, marker, check, info, 0, b);
    }
}

/// Whether symbol `s` is the first one for data that has the name under which a global is exported.
pub open spec fn is_namesake(info: RelocInfo, export: Export, s: int) -> bool {
    &&& export.kind == ExternalKind::Global
    &&& 0 <= s < info.symbols@.len()
    &&& info.symbols@[s] matches SymbolInfo::Data { name, .. } && name@ == export.name@
    &&& forall|k: int|
        0 <= k < s ==> !(#[trigger] info.symbols@[k] matches SymbolInfo::Data { name, .. } && name@
            == export.name@)
}

/// Whether the export of a global is a mark: its name starts with `marker`, and its symbol is
/// defined but has no data.
pub open spec fn is_mark(info: RelocInfo, marker: Seq<char>, export: Export, s: int) -> bool {
    &&& marker.len() <= export.name@.len()
    &&& export.name@.take(marker.len() as int) == marker
    &&& info.symbols@[s] matches SymbolInfo::Data { symbol: Some(place), .. }
    &&& place.size == 0
}

/// The first symbol of a name.
proof fn lemma_namesake(symbols: Seq<SymbolInfo>, name: Seq<char>)
    requires
        symbols.len() <= usize::MAX,
    ensures
        match data_named(symbols, name) {
            Some(s) => {
                &&& s < symbols.len()
                &&& symbols[s as int] matches SymbolInfo::Data { name: own, .. } && own@ == name
                &&& forall|k: int|
                    0 <= k < s ==> !(#[trigger] symbols[k] matches SymbolInfo::Data { name: own, .. }
                        && own@ == name)
            },
            None => forall|k: int|
                0 <= k < symbols.len() ==> !(#[trigger] symbols[k] matches SymbolInfo::Data {
                    name: own,
                    ..
                } && own@ == name),
        },
    decreases symbols.len(),
{
    if symbols.len() > 0 {
        let rest = symbols.drop_last();
        lemma_namesake(rest, name);
        assert forall|k: int| 0 <= k < rest.len() implies #[trigger] symbols[k] == rest[k] by {}
    }
}

/// A namesake is the symbol that is found.
proof fn lemma_is_namesake(info: RelocInfo, export: Export, s: int)
    requires
        info.symbols@.len() <= usize::MAX,
        export.kind == ExternalKind::Global,
    ensures
        is_namesake(info, export, s) <==> data_named(info.symbols@, export.name@) == Some(
            s as usize,
        ) && 0 <= s <= usize::MAX,
{
    lemma_namesake(info.symbols@, export.name@);
    let symbols = info.symbols@;
    if is_namesake(info, export, s) {
        match data_named(symbols, export.name@) {
            Some(t) => {
                if t < s {
                    assert(symbols[t as int] is Data);
                } else if s < t {
                    assert(symbols[s] is Data);
                }
            },
            None => {
                assert(symbols[s] is Data);
            },
        }
    }
}

/// A mark is what is taken for one.
proof fn lemma_is_mark(info: RelocInfo, marker: Seq<char>, export: Export, s: int)
    requires
        0 <= s <= usize::MAX,
    ensures
        is_mark(info, marker, export, s) <==> is_marker_export(
            info.symbols@,
            marker,
            export.name@,
            s as usize,
        ),
{
    if marker.len() <= export.name@.len() {
        assert(export.name@.take(marker.len() as int) =~= export.name@.subrange(
            0,
            marker.len() as int,
        ));
    }
}

/// What exports add, one after the other.
proof fn lemma_globals_noted(
    module: &InputModule,
    info: RelocInfo,
    marker: Seq<char>,
    check: bool,
    exports: Seq<Export>,
    start: GlobalState,
    state: GlobalState,
)
    requires
        global_steps(module, info.symbols@, marker, check, exports, start) == (
            state,
            None::<usize>,
        ),
        info.symbols@.len() <= usize::MAX,
    ensures
        forall|g: usize| #[trigger]
            state.markers.contains(g) <==> start.markers.contains(g) || exists|e: int, s: int|
                0 <= e < exports.len() && #[trigger] is_namesake(info, exports[e], s) && is_mark(
                    info,
                    marker,
                    exports[e],
                    s,
                ) && exports[e].index == g,
        forall|e: int, s: int|
            0 <= e < exports.len() && #[trigger] is_namesake(info, exports[e], s) && !is_mark(
                info,
                marker,
                exports[e],
                s,
            ) && is_last_address(info, marker, exports, e) ==> state.symbol_as_global.contains_key(
                exports[e].index as usize,
            ) && state.symbol_as_global[exports[e].index as usize] == s,
        forall|g: usize| #[trigger]
            state.symbol_as_global.contains_key(g) ==> start.symbol_as_global.contains_key(g)
                || exists|e: int, s: int|
                0 <= e < exports.len() && #[trigger] is_namesake(info, exports[e], s) && !is_mark(
                    info,
                    marker,
                    exports[e],
                    s,
                ) && exports[e].index == g,
    decreases exports.len(),
{
    if exports.len() > 0 {
        let rest = exports.drop_last();
        let last = exports.last();
        let n = rest.len() as int;
        assert(exports[n] == last);
        let (mid, error) = global_steps(module, info.symbols@, marker, check, rest, start);
        assert(error is None);
        lemma_globals_noted(module, info, marker, check, rest, start, mid);
        assert(global_step(module, info.symbols@, marker, check, last, mid) == (
            state,
            None::<usize>,
        ));
        assert forall|e: int| 0 <= e < n implies #[trigger] rest[e] == exports[e] by {}
        if last.kind == ExternalKind::Global {
            lemma_namesake(info.symbols@, last.name@);
        }
        assert forall|s: int| #[trigger] is_namesake(info, last, s) implies data_named(
            info.symbols@,
            last.name@,
        ) == Some(s as usize) && (is_mark(info, marker, last, s) <==> is_marker_export(
            info.symbols@,
            marker,
            last.name@,
            s as usize,
        )) && 0 <= s <= usize::MAX by {
            lemma_is_namesake(info, last, s);
            lemma_is_mark(info, marker, last, s);
        }
        if last.kind == ExternalKind::Global && data_named(info.symbols@, last.name@) is Some {
            let s = data_named(info.symbols@, last.name@)->0 as int;
            lemma_is_namesake(info, last, s);
            assert(is_namesake(info, exports[n], s));
            lemma_is_mark(info, marker, last, s);
        }
        assert forall|g: usize| #[trigger]
            state.markers.contains(g) <==> start.markers.contains(g) || exists|e: int, s: int|
                0 <= e < exports.len() && #[trigger] is_namesake(info, exports[e], s) && is_mark(
                    info,
                    marker,
                    exports[e],
                    s,
                ) && exports[e].index == g by {
            if mid.markers.contains(g) && !start.markers.contains(g) {
                let (e, s) = choose|e: int, s: int|
                    0 <= e < rest.len() && #[trigger] is_namesake(info, rest[e], s) && is_mark(
                        info,
                        marker,
                        rest[e],
                        s,
                    ) && rest[e].index == g;
                assert(is_namesake(info, exports[e], s));
            }
            if exists|e: int, s: int|
                0 <= e < exports.len() && #[trigger] is_namesake(info, exports[e], s) && is_mark(
                    info,
                    marker,
                    exports[e],
                    s,
                ) && exports[e].index == g {
                let (e, s) = choose|e: int, s: int|
                    0 <= e < exports.len() && #[trigger] is_namesake(info, exports[e], s)
                        && is_mark(info, marker, exports[e], s) && exports[e].index == g;
                if e < n {
                    assert(is_namesake(info, rest[e], s));
                } else {
                    assert(is_namesake(info, last, s));
                }
            }
        }
        assert forall|e: int, s: int|
            0 <= e < exports.len() && #[trigger] is_namesake(info, exports[e], s) && !is_mark(
                info,
                marker,
                exports[e],
                s,
            ) && is_last_address(
                info,
                marker,
                exports,
                e,
            ) implies state.symbol_as_global.contains_key(exports[e].index as usize)
            && state.symbol_as_global[exports[e].index as usize] == s by {
            if e < n {
                assert(is_namesake(info, rest[e], s));
                assert(is_last_address(info, marker, rest, e)) by {
                    assert forall|k: int, t: int|
                        e < k < rest.len() && #[trigger] is_namesake(info, rest[k], t) && !is_mark(
                            info,
                            marker,
                            rest[k],
                            t,
                        ) implies rest[k].index != rest[e].index by {
                        assert(is_namesake(info, exports[k], t));
                    }
                }
                if last.kind == ExternalKind::Global && data_named(info.symbols@, last.name@)
                    is Some {
                    let t = data_named(info.symbols@, last.name@)->0 as int;
                    assert(is_namesake(info, exports[n], t));
                }
            } else {
                assert(is_namesake(info, last, s));
            }
        }
        assert forall|g: usize| #[trigger]
            state.symbol_as_global.contains_key(g) implies start.symbol_as_global.contains_key(g)
            || exists|e: int, s: int|
            0 <= e < exports.len() && #[trigger] is_namesake(info, exports[e], s) && !is_mark(
                info,
                marker,
                exports[e],
                s,
            ) && exports[e].index == g by {
            if mid.symbol_as_global.contains_key(g) && !start.symbol_as_global.contains_key(g) {
                let (e, s) = choose|e: int, s: int|
                    0 <= e < rest.len() && #[trigger] is_namesake(info, rest[e], s) && !is_mark(
                        info,
                        marker,
                        rest[e],
                        s,
                    ) && rest[e].index == g;
                assert(is_namesake(info, exports[e], s));
            }
        }
    }
}

/// Whether no later export of the same global makes the address of a symbol known.
pub open spec fn is_last_address(
    info: RelocInfo,
    marker: Seq<char>,
    exports: Seq<Export>,
    e: int,
) -> bool {
    forall|k: int, t: int|
        e < k < exports.len() && #[trigger] is_namesake(info, exports[k], t) && !is_mark(
            info,
            marker,
            exports[k],
            t,
        ) ==> exports[k].index != exports[e].index
}

/// A global that is exported under the name of a data symbol is a mark, or holds the address of
/// that symbol.
pub proof fn lemma_exported_globals(
    parser: &RelocInfoParser,
    module: &InputModule,
    marker: Seq<char>,
    check: bool,
    info: RelocInfo,
    e: int,
    s: int,
)
    requires
        finishes(parser, module, marker, check, Ok(info)),
        info.symbols@.len() <= usize::MAX,
        0 <= e < module.exports@.len(),
        is_namesake(info, module.exports@[e], s),
    ensures
        is_mark(info, marker, module.exports@[e], s) ==> info.split_marker_globals@.contains(
            module.exports@[e].index as usize,
        ),
        !is_mark(info, marker, module.exports@[e], s) && is_last_address(
            info,
            marker,
            module.exports@,
            e,
        ) ==> info.symbol_as_global@.contains_key(module.exports@[e].index as usize)
            && info.symbol_as_global@[module.exports@[e].index as usize] == s,
{
    let (start, mid) = lemma_middle(parser, module, marker, check, info);
    lemma_globals_noted(
        module,
        info,
        marker,
        check,
        module.exports@,
        mid.global_state(),
        info.global_state(),
    );
    assert(info.global_state().markers == info.split_marker_globals@);
    assert(info.global_state().symbol_as_global == info.symbol_as_global@);
}

/// Nothing else is taken for a mark, or for the address of a symbol.
pub proof fn lemma_global_reasons(
    parser: &RelocInfoParser,
    module: &InputModule,
    marker: Seq<char>,
    check: bool,
    info: RelocInfo,
    g: usize,
)
    requires
        finishes(parser, module, marker, check, Ok(info)),
        info.symbols@.len() <= usize::MAX,
        !parser.info().split_marker_globals@.contains(g),
        !parser.info().symbol_as_global@.contains_key(g),
    ensures
        info.split_marker_globals@.contains(g) ==> exists|e: int, s: int|
            0 <= e < module.exports@.len() && #[trigger] is_namesake(info, module.exports@[e], s)
                && is_mark(info, marker, module.exports@[e], s) && module.exports@[e].index == g,
        info.symbol_as_global@.contains_key(g) ==> exists|e: int, s: int|
            0 <= e < module.exports@.len() && #[trigger] is_namesake(info, module.exports@[e], s)
                && !is_mark(info, marker, module.exports@[e], s) && module.exports@[e].index == g,
{
    let (start, mid) = lemma_middle(parser, module, marker, check, info);
    lemma_globals_noted(
        module,
        info,
        marker,
        check,
        module.exports@,
        mid.global_state(),
        info.global_state(),
    );
    assert(mid.global_state().markers == parser.info().split_marker_globals@);
    assert(mid.global_state().symbol_as_global == parser.info().symbol_as_global@);
    assert(info.global_state().markers.contains(g) <==> info.split_marker_globals@.contains(g));
    assert(info.global_state().symbol_as_global.contains_key(g)
        <==> info.symbol_as_global@.contains_key(g));
}

/// Whether the data of all symbols are in their segments.
pub open spec fn data_fits(segments: Seq<Data>, symbols: Seq<SymbolInfo>) -> bool {
    forall|s: int|
        0 <= s < symbols.len() ==> match #[trigger] symbols[s] {
            SymbolInfo::Data { symbol: Some(place), .. } => place.size == 0 || (place.index
                < segments.len() && place.offset + place.size
                <= segments[place.index as int].data_len),
            _ => true,
        }
}

/// Whether an element segment that fills a table can be read.
pub open spec fn is_readable(module: &InputModule, e: int, table: usize) -> bool {
    let fills = match module.elements@[e].kind {
        ElementKind::Active { table_index: Some(index) } => index == table,
        ElementKind::Active { table_index: None } => table == 0,
        _ => false,
    };
    fills ==> match module.elements@[e].items {
        ElementItems::Functions(range) => function_indices(
            module.raw@.subrange(range.start as int, range.end as int),
        ) is Some,
        ElementItems::Expressions => false,
    }
}

/// Whether a global starts with an address that does not change: it is an integer, and neither
/// mutable nor shared, and its expression starts with a number that is not negative.
pub open spec fn is_fixed(module: &InputModule, g: usize) -> bool {
    let global = module.globals@[g as int];
    &&& match global.content_type {
        ValType::I32 | ValType::I64 => true,
        ValType::Other => false,
    }
    &&& !global.mutable
    &&& !global.shared
    &&& match const_value(
        module.raw@.subrange(global.init_expr.start as int, global.init_expr.end as int),
    ) {
        ConstValue::I32(value) => value >= 0,
        ConstValue::I64(value) => value >= 0 && value <= usize::MAX,
        ConstValue::Other => false,
    }
}

/// Whether an export makes an address known: it is a global with the name of a data symbol, and no
/// mark.
pub open spec fn tells_address(info: RelocInfo, marker: Seq<char>, export: Export) -> bool {
    exists|s: int| #[trigger] is_namesake(info, export, s) && !is_mark(info, marker, export, s)
}

/// Which exports make addresses known.
pub(crate) proof fn lemma_tells_address(info: RelocInfo, marker: Seq<char>, export: Export)
    requires
        info.symbols@.len() <= usize::MAX,
    ensures
        tells_address(info, marker, export) <==> exports_address(info.symbols@, marker, export),
{
    lemma_namesake(info.symbols@, export.name@);
    assert(begins_with(export.name@, marker) <==> marker.len() <= export.name@.len()
        && export.name@.take(marker.len() as int) == marker);
    if exports_address(info.symbols@, marker, export) {
        let s = data_named(info.symbols@, export.name@)->0 as int;
        assert(is_namesake(info, export, s));
        assert(!is_mark(info, marker, export, s));
    }
    if tells_address(info, marker, export) {
        let s = choose|s: int| #[trigger]
            is_namesake(info, export, s) && !is_mark(info, marker, export, s);
        assert(data_named(info.symbols@, export.name@) == Some(s as usize));
    }
}

/// Which export makes for an error.
proof fn lemma_steps_checked(
    module: &InputModule,
    info: RelocInfo,
    marker: Seq<char>,
    check: bool,
    exports: Seq<Export>,
    state: GlobalState,
)
    requires
        info.symbols@.len() <= usize::MAX,
    ensures
        match global_steps(module, info.symbols@, marker, check, exports, state).1 {
            None => check ==> forall|e: int|
                0 <= e < exports.len() && tells_address(info, marker, #[trigger] exports[e])
                    ==> is_fixed(module, exports[e].index as usize),
            Some(g) => check && exists|e: int|
                0 <= e < exports.len() && tells_address(info, marker, #[trigger] exports[e])
                    && exports[e].index == g && !is_fixed(module, g),
        },
    decreases exports.len(),
{
    if exports.len() > 0 {
        let rest = exports.drop_last();
        let last = exports.last();
        lemma_steps_checked(module, info, marker, check, rest, state);
        lemma_tells_address(info, marker, last);
        assert(exports[exports.len() - 1] == last);
        assert forall|e: int| 0 <= e < rest.len() implies #[trigger] exports[e] == rest[e] by {}
        match global_steps(module, info.symbols@, marker, check, exports, state).1 {
            None => {},
            Some(g) => {
                if global_steps(module, info.symbols@, marker, check, rest, state).1 is Some {
                    let e = choose|e: int|
                        0 <= e < rest.len() && tells_address(info, marker, #[trigger] rest[e])
                            && rest[e].index == g && !is_fixed(module, g);
                    assert(tells_address(info, marker, exports[e]));
                }
            },
        }
    }
}

/// If completing with the check of addresses succeeds, all globals that make an address known start
/// with one that does not change.
pub proof fn lemma_addresses_fixed(
    parser: &RelocInfoParser,
    module: &InputModule,
    marker: Seq<char>,
    info: RelocInfo,
    e: int,
)
    requires
        finishes(parser, module, marker, true, Ok(info)),
        info.symbols@.len() <= usize::MAX,
        0 <= e < module.exports@.len(),
        tells_address(info, marker, module.exports@[e]),
    ensures
        is_fixed(module, module.exports@[e].index as usize),
{
    let (start, mid) = lemma_middle(parser, module, marker, true, info);
    lemma_steps_checked(module, info, marker, true, module.exports@, mid.global_state());
}

/// What is wrong when completing fails because of indirect calls or exported globals: a segment for
/// the table for indirect calls holds something else than functions, a relocation for it refers to
/// something else than a function, or a global that makes an address known does not start with a
/// fixed one.
pub proof fn lemma_later_failure(
    parser: &RelocInfoParser,
    module: &InputModule,
    marker: Seq<char>,
    check: bool,
    error: RelocError,
)
    requires
        finishes(parser, module, marker, check, Err(error)),
        parser.info().symbols@.len() <= usize::MAX,
    ensures
        error is ExpectedFunctions ==> parser.table() is Some && exists|e: int|
            0 <= e < module.elements@.len() && !is_readable(module, e, parser.table()->0) && (
            #[trigger] module.elements@[e]).items is Expressions,
        error is InvalidTableIndex ==> exists|section: usize, i: int| #[trigger]
            address_taken(parser.info(), section, i)
                && !(parser.info().symbols@[parser.info().relocs@[section]@[i].index as int] is Func),
        error matches RelocError::InvalidAddress { global_index } ==> check && exists|e: int|
            0 <= e < module.exports@.len() && tells_address(
                parser.info(),
                marker,
                #[trigger] module.exports@[e],
            ) && module.exports@[e].index == global_index && !is_fixed(module, global_index),
{
    if error is ExpectedFunctions || error is InvalidTableIndex || error is InvalidAddress {
        let table = parser.table()->0;
        let (start, mid, noted) = choose|
            start: RelocInfo,
            mid: RelocInfo,
            noted: Result<(), RelocError>,
        |
            prepared(parser, module, table, start) && #[trigger] indirects_noted(
                module,
                table,
                start,
                mid,
                noted,
            ) && match noted {
                Err(first) => error == first,
                Ok(_) => globals_noted(module, marker, check, mid).1 matches Some(global_index)
                    && error == (RelocError::InvalidAddress { global_index }),
            };
        if noted is Ok {
            lemma_steps_checked(
                module,
                parser.info(),
                marker,
                check,
                module.exports@,
                mid.global_state(),
            );
        } else if exists|e: int|
            0 <= e < module.elements@.len() && element_fails(
                module.raw@,
                #[trigger] module.elements@[e],
                table,
            ) {
            let e = choose|e: int|
                0 <= e < module.elements@.len() && table_error(module, table, e, error);
            assert(!is_readable(module, e, table));
            assert(module.elements@[e].items is Expressions);
        } else {
            let r = choose|r: RelocationEntry| #[trigger]
                has_reloc(start.relocs@, r) && is_bad_table_reloc(start.symbols@, r);
            let section = choose|section: usize| #[trigger]
                start.relocs@.contains_key(section) && start.relocs@[section]@.contains(r);
            let i = choose|i: int|
                0 <= i < start.relocs@[section]@.len() && start.relocs@[section]@[i] == r;
            assert(address_taken(parser.info(), section, i));
        }
    }
}

/// Completing succeeds if there is a linking section and a table for indirect calls, all data are
/// in their segments, all element segments and relocations for the table can be used, and, if that
/// is checked, the globals that make addresses known start with fixed ones.
pub proof fn lemma_completed(
    parser: &RelocInfoParser,
    module: &InputModule,
    marker: Seq<char>,
    check: bool,
    finished: Result<RelocInfo, RelocError>,
)
    requires
        finishes(parser, module, marker, check, finished),
        parser.info().symbols@.len() <= usize::MAX,
        parser.has_linking(),
        parser.table() is Some,
        data_fits(module.data_segments@, parser.info().symbols@),
        forall|e: int|
            0 <= e < module.elements@.len() ==> #[trigger] is_readable(
                module,
                e,
                parser.table()->0,
            ),
        forall|section: usize, i: int| #[trigger]
            address_taken(parser.info(), section, i)
                ==> parser.info().symbols@[parser.info().relocs@[section]@[i].index as int] is Func,
        check ==> forall|e: int|
            0 <= e < module.exports@.len() && tells_address(
                parser.info(),
                marker,
                #[trigger] module.exports@[e],
            ) ==> is_fixed(module, module.exports@[e].index as usize),
    ensures
        finished is Ok,
{
    let symbols = parser.info().symbols@;
    let segments = module.data_segments@;
    let table = parser.table()->0;
    if let Err(error) = finished {
        assert forall|i: int| 0 <= i < symbols.len() implies !data_error(
            segments,
            symbols,
            i,
            error,
        ) by {
            assert(symbols[i] is Data || !(symbols[i] is Data));
        }
        let (start, mid, noted) = choose|
            start: RelocInfo,
            mid: RelocInfo,
            noted: Result<(), RelocError>,
        |
            prepared(parser, module, table, start) && #[trigger] indirects_noted(
                module,
                table,
                start,
                mid,
                noted,
            ) && match noted {
                Err(first) => error == first,
                Ok(_) => globals_noted(module, marker, check, mid).1 matches Some(global_index)
                    && error == (RelocError::InvalidAddress { global_index }),
            };
        assert forall|e: int| 0 <= e < module.elements@.len() implies !element_fails(
            module.raw@,
            #[trigger] module.elements@[e],
            table,
        ) by {
            assert(is_readable(module, e, table));
        }
        if has_bad_table_reloc(&start) {
            let r = choose|r: RelocationEntry| #[trigger]
                has_reloc(start.relocs@, r) && is_bad_table_reloc(start.symbols@, r);
            let section = choose|section: usize| #[trigger]
                start.relocs@.contains_key(section) && start.relocs@[section]@.contains(r);
            let i = choose|i: int|
                0 <= i < start.relocs@[section]@.len() && start.relocs@[section]@[i] == r;
            assert(address_taken(parser.info(), section, i));
        }
        if noted is Ok {
            assert(mid.symbols == parser.info().symbols);
            lemma_steps_checked(
                module,
                parser.info(),
                marker,
                check,
                module.exports@,
                mid.global_state(),
            );
        }
    }
}

/// If completing succeeds, there were a linking section and a table for indirect calls, and all
/// data are in their segments. What was collected before is kept.
pub proof fn lemma_completed_means(
    parser: &RelocInfoParser,
    module: &InputModule,
    marker: Seq<char>,
    check: bool,
    info: RelocInfo,
)
    requires
        finishes(parser, module, marker, check, Ok(info)),
        info.symbols@.len() <= usize::MAX,
    ensures
        parser.has_linking(),
        parser.table() == Some(info.indirect_table),
        data_fits(module.data_segments@, info.symbols@),
        info.section_ranges == parser.info().section_ranges,
        info.segments == parser.info().segments,
        info.code_section_index == parser.info().code_section_index,
        info.data_section_index == parser.info().data_section_index,
        info.symbols == parser.info().symbols,
        info.relocs == parser.info().relocs,
        info.stack_pointer == parser.info().stack_pointer,
{
    let (start, mid) = lemma_middle(parser, module, marker, check, info);
    assert forall|s: int| 0 <= s < info.symbols@.len() implies match #[trigger] info.symbols@[s] {
        SymbolInfo::Data { symbol: Some(place), .. } => place.size == 0 || (place.index
            < module.data_segments@.len() && place.offset + place.size
            <= module.data_segments@[place.index as int].data_len),
        _ => true,
    } by {
        lemma_pieces_of_data(parser, module, marker, check, info, s, 0);
    }
}

/// What is wrong when completing fails without any of the causes that come later: data that do not
/// fit come first, then a missing linking section, then a missing table for indirect calls.
pub proof fn lemma_first_failure(
    parser: &RelocInfoParser,
    module: &InputModule,
    marker: Seq<char>,
    check: bool,
    finished: Result<RelocInfo, RelocError>,
)
    requires
        finishes(parser, module, marker, check, finished),
        parser.info().symbols@.len() <= usize::MAX,
    ensures
        data_fits(module.data_segments@, parser.info().symbols@) && !parser.has_linking()
            ==> finished == Err::<RelocInfo, RelocError>(RelocError::NoLinkingSection),
        data_fits(module.data_segments@, parser.info().symbols@) && parser.has_linking()
            && parser.table() is None ==> finished == Err::<RelocInfo, RelocError>(
            RelocError::NoIndirectTable,
        ),
        finished matches Err(RelocError::InvalidDataSegment { symbol_index }) ==> symbol_index
            < parser.info().symbols@.len() && (parser.info().symbols@[symbol_index as int] matches
            SymbolInfo::Data { symbol: Some(place), .. } && place.size > 0 && place.index
            >= module.data_segments@.len()),
        finished matches Err(RelocError::InvalidDataSymbol { symbol_index }) ==> symbol_index
            < parser.info().symbols@.len() && (parser.info().symbols@[symbol_index as int] matches
            SymbolInfo::Data { symbol: Some(place), .. } && place.size > 0 && place.index
            < module.data_segments@.len() && place.offset + place.size
            > module.data_segments@[place.index as int].data_len),
{
    let symbols = parser.info().symbols@;
    let segments = module.data_segments@;
    if let Err(error) = finished {
        if data_fits(segments, symbols) {
            assert forall|i: int| 0 <= i < symbols.len() implies !data_error(
                segments,
                symbols,
                i,
                error,
            ) by {
                assert(symbols[i] is Data || !(symbols[i] is Data));
            }
        }
    }
}

/// The exports that look like marks, but whose symbols have data or are not defined, are told.
pub proof fn lemma_odd_marks_told(
    info: RelocInfo,
    exports: Seq<Export>,
    marker: Seq<char>,
    found: Seq<usize>,
    k: usize,
)
    requires
        are_odd_markers(info.symbols@, marker, exports, found),
        info.symbols@.len() <= usize::MAX,
    ensures
        found.contains(k) <==> k < exports.len() && exists|s: int| #[trigger]
            is_namesake(info, exports[k as int], s) && marker.len() <= exports[k as int].name@.len()
                && exports[k as int].name@.take(marker.len() as int) == marker && !is_mark(
                info,
                marker,
                exports[k as int],
                s,
            ),
        forall|a: int, b: int|
            0 <= a < b < found.len() ==> #[trigger] found[a] < #[trigger] found[b],
{
    if k < exports.len() {
        let export = exports[k as int];
        let symbols = info.symbols@;
        lemma_namesake(symbols, export.name@);
        assert(begins_with(export.name@, marker) <==> marker.len() <= export.name@.len()
            && export.name@.take(marker.len() as int) == marker);
        if is_odd_marker(symbols, marker, export) {
            let s = data_named(symbols, export.name@)->0 as int;
            assert(is_namesake(info, export, s));
        }
        if exists|s: int| #[trigger]
            is_namesake(info, export, s) && marker.len() <= export.name@.len() && export.name@.take(
                marker.len() as int,
            ) == marker && !is_mark(info, marker, export, s) {
            let s = choose|s: int| #[trigger]
                is_namesake(info, export, s) && marker.len() <= export.name@.len()
                    && export.name@.take(marker.len() as int) == marker && !is_mark(
                    info,
                    marker,
                    export,
                    s,
                );
            let t = data_named(symbols, export.name@)->0 as int;
            assert(t == s);
            assert(is_odd_marker(symbols, marker, export));
        }
    }
}

} // verus!
