//! What holds of symbols and relocations however they were collected.
use crate::data_deps::{end_of, start_of};
use crate::data_laws::{symbols_forward, symbols_in_order};
use crate::read::{Data, InputModule};
use crate::reloc::apply::relocs_in_order;
use crate::reloc::info::{DataSymbol, RelocInfo, RelocationEntry, SymbolInfo};
use crate::reloc::parse::{are_entries, finishes, notes_relocs, prepared, RelocInfoParser};
use crate::reloc::symbols::{finds_data, indirects_noted, is_data_place, DataPlace};
use crate::sort::{in_key_order, lemma_sorts_same, sorts, SortKey};
use vstd::prelude::*;

verus! {

/// The relocations of a section are kept in the order of their offsets.
pub proof fn lemma_relocs_sorted(
    before: RelocInfo,
    after: RelocInfo,
    section: u32,
    raw: Seq<(u8, u32, u32, i64)>,
)
    requires
        notes_relocs(before, after, section, raw),
    ensures
        relocs_in_order(after.relocs@[section as usize]@),
{
    let sorted = after.relocs@[section as usize]@;
    let entries = choose|entries: Seq<RelocationEntry>| #[trigger]
        are_entries(raw, entries) && sorts(entries, sorted);
    assert(in_key_order(sorted));
    assert forall|i: int, j: int| 0 <= i < j < sorted.len() implies (#[trigger] sorted[i]).offset
        <= (#[trigger] sorted[j]).offset by {
        assert(sorted[i].spec_sort_key() <= sorted[j].spec_sort_key());
    }
}

/// Whether a piece of data is not empty, and inside the data of one of the segments.
pub open spec fn is_inside(segments: Seq<Data>, found: DataSymbol) -> bool {
    &&& found.range.start < found.range.end
    &&& exists|k: int|
        0 <= k < segments.len() && (#[trigger] segments[k]).range.end - segments[k].data_len
            <= found.range.start && found.range.end <= segments[k].range.end
}

/// All pieces of data that symbols stand for are inside segments.
proof fn lemma_found_inside(
    segments: Seq<Data>,
    symbols: Seq<SymbolInfo>,
    found: Seq<DataSymbol>,
    d: DataSymbol,
)
    requires
        finds_data(segments, symbols, found),
        found.contains(d),
    ensures
        is_inside(segments, d),
    decreases symbols.len(),
{
    if symbols.len() > 0 {
        let last = symbols.len() - 1;
        let rest = symbols.drop_last();
        if is_data_place(segments, symbols[last], last as usize, DataPlace::Skip) && finds_data(
            segments,
            rest,
            found,
        ) {
            lemma_found_inside(segments, rest, found, d);
        } else if d == found.last() {
            assert(is_data_place(segments, symbols[last], last as usize, DataPlace::At(d)));
        } else {
            let i = choose|i: int| 0 <= i < found.len() && found[i] == d;
            assert(found.drop_last()[i] == d);
            lemma_found_inside(segments, rest, found.drop_last(), d);
        }
    }
}

/// When everything is collected, the pieces of data are in the order of their starts, none is
/// empty, each is inside a segment, and the relocations are as they were.
pub proof fn lemma_finished(
    parser: &RelocInfoParser,
    module: &InputModule,
    marker: Seq<char>,
    check: bool,
    info: RelocInfo,
)
    requires
        finishes(parser, module, marker, check, Ok(info)),
        info.data_symbols@.len() <= usize::MAX,
    ensures
        symbols_in_order(info.data_symbols@),
        symbols_forward(info.data_symbols@),
        forall|i: int|
            0 <= i < info.data_symbols@.len() ==> is_inside(
                module.data_segments@,
                #[trigger] info.data_symbols@[i],
            ),
        info.relocs == parser.info().relocs,
        info.symbols == parser.info().symbols,
{
    let table = parser.table()->0;
    let (start, mid) = choose|start: RelocInfo, mid: RelocInfo|
        prepared(parser, module, table, start) && #[trigger] indirects_noted(
            module,
            table,
            start,
            mid,
            Ok(()),
        ) && info == (RelocInfo {
            symbol_as_global: info.symbol_as_global,
            split_marker_globals: info.split_marker_globals,
            ..mid
        });
    assert(info.data_symbols == start.data_symbols);
    let sorted = info.data_symbols@;
    let unsorted = choose|unsorted: Seq<DataSymbol>| #[trigger]
        finds_data(module.data_segments@, parser.info().symbols@, unsorted) && sorts(
            unsorted,
            sorted,
        );
    assert forall|i: usize, j: usize| i < j < sorted.len() implies (#[trigger] start_of(
        sorted,
        i,
    )) <= #[trigger] start_of(sorted, j) by {
        assert(sorted[i as int].spec_sort_key() <= sorted[j as int].spec_sort_key());
    }
    assert forall|i: int| 0 <= i < sorted.len() implies is_inside(
        module.data_segments@,
        #[trigger] sorted[i],
    ) by {
        assert(sorted.contains(sorted[i]));
        lemma_sorts_same(unsorted, sorted, sorted[i]);
        lemma_found_inside(module.data_segments@, parser.info().symbols@, unsorted, sorted[i]);
    }
    assert forall|k: usize| k < sorted.len() implies #[trigger] start_of(sorted, k) <= end_of(
        sorted,
        k,
    ) by {
        assert(is_inside(module.data_segments@, sorted[k as int]));
    }
}

} // verus!
