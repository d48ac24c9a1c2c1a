//! Collecting symbols and relocations from the sections of a module.
use crate::keyed::{KeyMap, KeySet};
use crate::order::{begins_with, same_text, starts_with};
use crate::read::{GlobalId, InputModule, InputOffset, TableId};
use crate::reloc::expand::RelocError;
use crate::reloc::info::{
    DataSymbol, DefinedDataSymbol, RelocInfo, RelocationEntry, RelocationType, SectionIndex,
    Segment, SymbolInfo,
};
use crate::reloc::symbols::{
    are_odd_markers, data_error, elements_inside, find_odd_markers, finds_data, for_table,
    get_data_symbols, get_indirect_functions, global_steps, globals_inside, has_globals,
    has_reloc, indirects_noted, is_table_reloc, reconstruct_global_symbols, segments_right,
    table_relocs_inside, GlobalState,
};
use crate::sort::{sort_by_key, sorts, SortKey};
use crate::wasm::{
    has_room, linking_subsections, name_view, read_linking, read_relocs, read_segments,
    read_symbols, reloc_section, segment_table, segment_views, subsection_views, symbol_table,
    symbol_views, RawRelocation, RawSegment, RawSymbol, SEGMENT_INFO, SYMBOL_TABLE,
};
use std::ops::Range;
use vstd::prelude::*;
use vstd::slice::slice_subrange;

verus! {

/// A custom section.
#[derive(Debug)]
pub struct CustomSection {
    /// Its name.
    pub name: String,
    /// Its bytes behind the name.
    pub data: Vec<u8>,
    /// Where these bytes are in the input module.
    pub data_offset: InputOffset,
}

/// Whether positions in a custom section can be written down, and, if it is a linking section, whether
/// there is room for what it can declare.
pub open spec fn can_visit(custom: &CustomSection) -> bool {
    &&& custom.data_offset + custom.data@.len() <= usize::MAX
    &&& custom.name@ == "linking"@ ==> has_room(custom.data@)
}

/// What a piece of a module is.
#[derive(Debug)]
pub enum PayloadKind {
    /// The data section.
    DataSection,
    /// The start of the code section.
    CodeSectionStart,
    /// A custom section.
    CustomSection(CustomSection),
    /// Anything else.
    Other,
}

/// A piece of a module.
#[derive(Debug)]
pub struct Payload {
    /// Where the section is, if the piece is a section.
    pub section: Option<Range<InputOffset>>,
    /// What it is.
    pub kind: PayloadKind,
}

/// What a symbol says.
pub enum SymbolView {
    /// A function, with its flags, index and name.
    Func(u32, u32, Option<Seq<char>>),
    /// A piece of data, with its flags, name and place.
    Data(u32, Seq<char>, Option<DefinedDataSymbol>),
    /// A global, with its flags, index and name.
    Global(u32, u32, Option<Seq<char>>),
    /// A section, with its flags and index.
    Section(u32, u32),
    /// A tag, with its flags, index and name.
    Event(u32, u32, Option<Seq<char>>),
    /// A table, with its flags, index and name.
    Table(u32, u32, Option<Seq<char>>),
}

impl View for SymbolInfo {
    type V = SymbolView;

    open spec fn view(&self) -> SymbolView {
        match self {
            SymbolInfo::Func { flags, index, name } => SymbolView::Func(
                *flags,
                *index,
                name_view(*name),
            ),
            SymbolInfo::Data { flags, name, symbol } => SymbolView::Data(*flags, name@, *symbol),
            SymbolInfo::Global { flags, index, name } => SymbolView::Global(
                *flags,
                *index,
                name_view(*name),
            ),
            SymbolInfo::Section { flags, section } => SymbolView::Section(*flags, *section),
            SymbolInfo::Event { flags, index, name } => SymbolView::Event(
                *flags,
                *index,
                name_view(*name),
            ),
            SymbolInfo::Table { flags, index, name } => SymbolView::Table(
                *flags,
                *index,
                name_view(*name),
            ),
        }
    }
}

/// The place of a data symbol.
pub open spec fn place_of(place: Option<(u32, u32, u32)>) -> Option<DefinedDataSymbol> {
    match place {
        Some((index, offset, size)) => Some(DefinedDataSymbol { index, offset, size }),
        None => None,
    }
}

/// What an entry of the symbol table says, by its kind.
pub open spec fn symbol_of(
    raw: (u8, u32, u32, Option<Seq<char>>, Option<(u32, u32, u32)>),
) -> SymbolView {
    let (kind, flags, index, name, place) = raw;
    if kind == 0 {
        SymbolView::Func(flags, index, name)
    } else if kind == 1 {
        SymbolView::Data(flags, name->0, place_of(place))
    } else if kind == 2 {
        SymbolView::Global(flags, index, name)
    } else if kind == 3 {
        SymbolView::Section(flags, index)
    } else if kind == 4 {
        SymbolView::Event(flags, index, name)
    } else {
        SymbolView::Table(flags, index, name)
    }
}

/// What the entries of the symbol table say.
pub open spec fn symbols_of(
    raw: Seq<(u8, u32, u32, Option<Seq<char>>, Option<(u32, u32, u32)>)>,
) -> Seq<SymbolView> {
    Seq::new(raw.len(), |i: int| symbol_of(raw[i]))
}

/// What symbols say.
pub open spec fn info_views(symbols: Seq<SymbolInfo>) -> Seq<SymbolView> {
    Seq::new(symbols.len(), |i: int| symbols[i]@)
}

/// Builds a symbol from an entry of the symbol table.
fn build_symbol(raw: RawSymbol) -> (symbol: SymbolInfo)
    requires
        raw.0 <= 5,
        raw.0 == 1 ==> raw.3 is Some,
    ensures
        symbol@ == symbol_of((raw.0, raw.1, raw.2, name_view(raw.3), raw.4)),
{
    let (kind, flags, index, name, place) = raw;
    match kind {
        0 => SymbolInfo::Func { flags, index, name },
        1 => {
            let symbol = match place {
                Some((index, offset, size)) => Some(DefinedDataSymbol { index, offset, size }),
                None => None,
            };
            match name {
                Some(name) => SymbolInfo::Data { flags, name, symbol },
                None => SymbolInfo::Data { flags, name: String::new(), symbol },
            }
        },
        2 => SymbolInfo::Global { flags, index, name },
        3 => SymbolInfo::Section { flags, section: index },
        4 => SymbolInfo::Event { flags, index, name },
        _ => SymbolInfo::Table { flags, index, name },
    }
}

/// What segment descriptions say.
pub open spec fn described_segments(segments: Seq<Segment>) -> Seq<(Seq<char>, u32, u32)> {
    Seq::new(
        segments.len(),
        |i: int| (segments[i].name@, segments[i].alignment, segments[i].flags),
    )
}

/// Whether a symbol is that of the table that indirect calls go through.
pub open spec fn is_indirect_table(symbol: SymbolView) -> bool {
    symbol matches SymbolView::Table(_, _, Some(name)) && name == "__indirect_function_table"@
}

/// The table that indirect calls go through: the last symbol of that name decides.
pub open spec fn indirect_table_of(
    symbols: Seq<SymbolView>,
    before: Option<TableId>,
) -> Option<TableId>
    decreases symbols.len(),
{
    if symbols.len() == 0 {
        before
    } else if is_indirect_table(symbols.last()) {
        Some(symbols.last()->Table_1 as TableId)
    } else {
        indirect_table_of(symbols.drop_last(), before)
    }
}

impl SortKey for RelocationEntry {
    open spec fn spec_sort_key(self) -> usize {
        self.offset as usize
    }

    fn sort_key(&self) -> (key: usize) {
        self.offset as usize
    }
}

/// `entries` are the relocations that a section holds.
pub open spec fn are_entries(
    raw: Seq<(u8, u32, u32, i64)>,
    entries: Seq<RelocationEntry>,
) -> bool {
    &&& entries.len() == raw.len()
    &&& forall|i: int|
        0 <= i < raw.len() ==> {
            &&& (#[trigger] entries[i]).ty.spec_code() == raw[i].0
            &&& entries[i].offset == raw[i].1
            &&& entries[i].index == raw[i].2
            &&& entries[i].addend == raw[i].3
        }
}

/// `sorted` are the relocations that a section holds, in the order of their offsets.
pub open spec fn are_sorted_entries(
    raw: Seq<(u8, u32, u32, i64)>,
    sorted: Seq<RelocationEntry>,
) -> bool {
    exists|entries: Seq<RelocationEntry>| #[trigger]
        are_entries(raw, entries) && sorts(entries, sorted)
}

/// `after` is `before` with the relocations of a section, in the order of their offsets.
pub open spec fn notes_relocs(
    before: RelocInfo,
    after: RelocInfo,
    section: u32,
    raw: Seq<(u8, u32, u32, i64)>,
) -> bool {
    let index = section as usize;
    &&& after == (RelocInfo { relocs: after.relocs, ..before })
    &&& after.relocs@ == before.relocs@.insert(index, after.relocs@[index])
    &&& are_sorted_entries(raw, after.relocs@[index]@)
}

/// Collects symbols and relocations from the pieces of a module.
pub struct RelocInfoParser {
    info: RelocInfo,
    has_linking_section: bool,
    // The table that indirect calls go through must be known, because it is changed.
    indirect_function_table: Option<TableId>,
}

/// What the linking section says.
pub ghost struct LinkState {
    /// The descriptions of the data segments.
    pub segments: Seq<(Seq<char>, u32, u32)>,
    /// The symbols.
    pub symbols: Seq<SymbolView>,
    /// The table that indirect calls go through.
    pub table: Option<TableId>,
}

/// Why a linking section cannot be used.
pub enum LinkError {
    /// There are two descriptions of the data segments.
    DuplicateSegments,
    /// There are two symbol tables.
    DuplicateSymbols,
    /// A part cannot be read.
    Read,
}

/// What is known after one more subsection, and whether it can be used.
pub open spec fn link_part(
    state: LinkState,
    part: (u8, usize, usize),
    data: Seq<u8>,
    offset: usize,
) -> (LinkState, Option<LinkError>) {
    let bytes = data.subrange(part.1 - offset, part.2 - offset);
    if part.0 == SEGMENT_INFO {
        if state.segments.len() > 0 {
            (state, Some(LinkError::DuplicateSegments))
        } else {
            match segment_table(bytes) {
                Some(segments) => (LinkState { segments, ..state }, None),
                None => (state, Some(LinkError::Read)),
            }
        }
    } else if part.0 == SYMBOL_TABLE {
        if state.symbols.len() > 0 {
            (state, Some(LinkError::DuplicateSymbols))
        } else {
            match symbol_table(bytes) {
                Some(raw) => (
                    LinkState {
                        symbols: symbols_of(raw),
                        table: indirect_table_of(symbols_of(raw), state.table),
                        ..state
                    },
                    None,
                ),
                None => (state, Some(LinkError::Read)),
            }
        }
    } else {
        (state, None)
    }
}

/// What is known after subsections, up to the first that cannot be used.
pub open spec fn link_parts(
    state: LinkState,
    parts: Seq<(u8, usize, usize)>,
    data: Seq<u8>,
    offset: usize,
) -> (LinkState, Option<LinkError>)
    decreases parts.len(),
{
    if parts.len() == 0 {
        (state, None)
    } else {
        let (before, error) = link_parts(state, parts.drop_last(), data, offset);
        if error is Some {
            (before, error)
        } else {
            link_part(before, parts.last(), data, offset)
        }
    }
}

/// What is known after a linking section, and whether it can be used.
pub open spec fn link_section(state: LinkState, data: Seq<u8>, offset: usize) -> (
    LinkState,
    Option<LinkError>,
) {
    let (parts, failed) = linking_subsections(data, offset);
    let (after, error) = link_parts(state, parts, data, offset);
    if error is None && failed {
        (after, Some(LinkError::Read))
    } else {
        (after, error)
    }
}

/// The result that a linking section leads to.
pub open spec fn link_result(error: Option<LinkError>, result: Result<(), RelocError>) -> bool {
    match error {
        None => result is Ok,
        Some(LinkError::DuplicateSegments) => result == Err::<(), RelocError>(
            RelocError::DuplicateSegments,
        ),
        Some(LinkError::DuplicateSymbols) => result == Err::<(), RelocError>(
            RelocError::DuplicateSymbols,
        ),
        Some(LinkError::Read) => result matches Err(error) && error is Read,
    }
}

impl RelocInfo {
    /// Nothing is known yet.
    pub open spec fn is_default(&self) -> bool {
        &&& self.section_ranges@.len() == 0
        &&& self.segments@.len() == 0
        &&& self.code_section_index == 0
        &&& self.data_section_index == 0
        &&& self.data_symbols@.len() == 0
        &&& self.symbols@.len() == 0
        &&& self.relocs@ == Map::<SectionIndex, Vec<RelocationEntry>>::empty()
        &&& self.indirect_table == 0
        &&& self.stack_pointer == 0
        &&& self.visible_indirects@ == Set::<usize>::empty()
        &&& self.referenced_indirects@ == Set::<usize>::empty()
        &&& self.symbol_as_global@ == Map::<usize, usize>::empty()
        &&& self.split_marker_globals@ == Set::<usize>::empty()
    }
}

impl Default for RelocInfo {
    fn default() -> (info: Self)
        ensures
            info.is_default(),
    {
        RelocInfo {
            section_ranges: Vec::new(),
            segments: Vec::new(),
            code_section_index: 0,
            data_section_index: 0,
            data_symbols: Vec::new(),
            symbols: Vec::new(),
            relocs: KeyMap::new(),
            indirect_table: 0,
            stack_pointer: 0,
            visible_indirects: KeySet::new(),
            referenced_indirects: KeySet::new(),
            symbol_as_global: KeyMap::new(),
            split_marker_globals: KeySet::new(),
        }
    }
}

impl Default for RelocInfoParser {
    fn default() -> (parser: Self)
        ensures
            parser.info().is_default(),
            !parser.has_linking(),
            parser.table() is None,
    {
        RelocInfoParser {
            info: RelocInfo::default(),
            has_linking_section: false,
            indirect_function_table: None,
        }
    }
}

impl RelocInfoParser {
    /// What was collected.
    pub closed spec fn info(&self) -> RelocInfo {
        self.info
    }

    /// Whether there was a linking section.
    pub closed spec fn has_linking(&self) -> bool {
        self.has_linking_section
    }

    /// The table that indirect calls go through.
    pub closed spec fn table(&self) -> Option<TableId> {
        self.indirect_function_table
    }

    /// What the linking section says.
    pub open spec fn link_state(&self) -> LinkState {
        LinkState {
            segments: described_segments(self.info().segments@),
            symbols: info_views(self.info().symbols@),
            table: self.table(),
        }
    }

    /// `self` is `before` but for what the linking section says.
    pub open spec fn same_but_linking(&self, before: &RelocInfoParser) -> bool {
        self.info() == (RelocInfo {
            segments: self.info().segments,
            symbols: self.info().symbols,
            ..before.info()
        })
    }

    /// Notes the descriptions of the data segments.
    pub fn set_segments(&mut self, segments: Vec<RawSegment>)
        ensures
            final(self).same_but_linking(old(self)),
            final(self).has_linking() == old(self).has_linking(),
            final(self).link_state() == (LinkState {
                segments: segment_views(segments@),
                ..old(self).link_state()
            }),
    {
        let mut list: Vec<Segment> = Vec::new();
        let ghost all = segments@;
        for segment in it: segments
            invariant
                it.seq() == all,
                described_segments(list@) == segment_views(all.take(it.index())),
        {
            let ghost before = list@;
            let (name, alignment, flags) = segment;
            list.push(Segment { name, alignment, flags });
            proof {
                assert(described_segments(list@) =~= described_segments(before).push(
                    (all[it.index()].0@, alignment, flags),
                ));
                assert(segment_views(all.take(it.index() + 1)) =~= segment_views(
                    all.take(it.index()),
                ).push((all[it.index()].0@, alignment, flags)));
            }
        }
        assert(all.take(all.len() as int) =~= all);
        self.info.segments = list;
    }

    /// Notes the symbols.
    pub fn set_symbols(&mut self, symbols: Vec<RawSymbol>)
        requires
            forall|i: int|
                0 <= i < symbols@.len() ==> (#[trigger] symbols@[i]).0 <= 5 && (symbols@[i].0 == 1
                    ==> symbols@[i].3 is Some),
        ensures
            final(self).same_but_linking(old(self)),
            final(self).has_linking() == old(self).has_linking(),
            final(self).link_state() == (LinkState {
                symbols: symbols_of(symbol_views(symbols@)),
                table: indirect_table_of(
                    symbols_of(symbol_views(symbols@)),
                    old(self).link_state().table,
                ),
                ..old(self).link_state()
            }),
    {
        let mut list: Vec<SymbolInfo> = Vec::new();
        let ghost all = symbols@;
        let ghost views = symbols_of(symbol_views(all));
        let mut table: Option<TableId> = self.indirect_function_table;
        for symbol in it: symbols
            invariant
                it.seq() == all,
                views == symbols_of(symbol_views(all)),
                forall|i: int|
                    0 <= i < all.len() ==> (#[trigger] all[i]).0 <= 5 && (all[i].0 == 1
                        ==> all[i].3 is Some),
                info_views(list@) == views.take(it.index()),
                table == indirect_table_of(
                    views.take(it.index()),
                    old(self).indirect_function_table,
                ),
        {
            let ghost before = list@;
            let symbol = build_symbol(symbol);
            proof {
                assert(symbol@ == views[it.index()]);
                let more = views.take(it.index() + 1);
                assert(more.drop_last() =~= views.take(it.index()));
                assert(more.last() == symbol@);
            }
            if let SymbolInfo::Table { flags: _, index, name: Some(name) } = &symbol {
                if same_text(name.as_str(), "__indirect_function_table") {
                    table = Some(*index as usize);
                }
            }
            list.push(symbol);
            proof {
                assert(info_views(list@) =~= info_views(before).push(views[it.index()]));
                assert(views.take(it.index() + 1) =~= views.take(it.index()).push(
                    views[it.index()],
                ));
            }
        }
        assert(views.take(views.len() as int) =~= views);
        self.info.symbols = list;
        self.indirect_function_table = table;
    }

    /// Notes the relocations of a section, in the order of their offsets.
    pub fn set_relocs(&mut self, section: u32, relocs: Vec<RawRelocation>)
        requires
            forall|i: int| 0 <= i < relocs@.len() ==> (#[trigger] relocs@[i]).0 <= 26,
        ensures
            final(self).has_linking() == old(self).has_linking(),
            final(self).table() == old(self).table(),
            notes_relocs(old(self).info(), final(self).info(), section, relocs@),
    {
        let mut entries: Vec<RelocationEntry> = Vec::new();
        for i in 0..relocs.len()
            invariant
                forall|i: int| 0 <= i < relocs@.len() ==> (#[trigger] relocs@[i]).0 <= 26,
                are_entries(relocs@.take(i as int), entries@),
        {
            let (code, offset, index, addend) = relocs[i];
            let ghost before = entries@;
            assert(relocs@[i as int].0 <= 26);
            entries.push(
                RelocationEntry { ty: RelocationType::from_code(code), offset, index, addend },
            );
            proof {
                let more = relocs@.take(i + 1);
                assert forall|j: int| 0 <= j < more.len() implies {
                    &&& (#[trigger] entries@[j]).ty.spec_code() == more[j].0
                    &&& entries@[j].offset == more[j].1
                    &&& entries@[j].index == more[j].2
                    &&& entries@[j].addend == more[j].3
                } by {
                    if j < i {
                        assert(entries@[j] == before[j]);
                        assert(more[j] == relocs@.take(i as int)[j]);
                    }
                }
            }
        }
        assert(relocs@.take(relocs@.len() as int) =~= relocs@);
        let ghost unsorted = entries@;
        sort_by_key(&mut entries);
        proof {
            assert(are_entries(relocs@, unsorted) && sorts(unsorted, entries@));
        }
        self.info.relocs.insert(section as usize, entries);
    }

    /// Notes what a linking section says.
    fn visit_linking(&mut self, data: &[u8], offset: usize) -> (visited: Result<(), RelocError>)
        requires
            offset + data@.len() <= usize::MAX,
            has_room(data@),
        ensures
            final(self).same_but_linking(old(self)),
            final(self).has_linking() == old(self).has_linking(),
            final(self).link_state() == link_section(old(self).link_state(), data@, offset).0,
            link_result(link_section(old(self).link_state(), data@, offset).1, visited),
    {
        let (parts, error) = read_linking(data, offset);
        let ghost views = subsection_views(parts@);
        let ghost start = self.link_state();
        assert(views.take(0) =~= Seq::empty());
        for k in 0..parts.len()
            invariant
                has_room(data@),
                views == subsection_views(parts@),
                views == linking_subsections(data@, offset).0,
                start == old(self).link_state(),
                forall|i: int|
                    0 <= i < parts@.len() ==> offset <= (#[trigger] parts@[i]).1.start
                        <= parts@[i].1.end <= offset + data@.len(),
                offset + data@.len() <= usize::MAX,
                self.same_but_linking(old(self)),
                self.has_linking() == old(self).has_linking(),
                link_parts(start, views.take(k as int), data@, offset) == (
                    self.link_state(),
                    None::<LinkError>,
                ),
        {
            let (id, range) = &parts[k];
            let ghost before = self.link_state();
            let ghost part = views[k as int];
            proof {
                let more = views.take(k + 1);
                assert(more.drop_last() =~= views.take(k as int));
                assert(more.last() == part);
                assert(link_parts(start, more, data@, offset) == link_part(
                    before,
                    part,
                    data@,
                    offset,
                ));
            }
            let bytes = slice_subrange(data, range.start - offset, range.end - offset);
            if *id == SEGMENT_INFO {
                if self.info.segments.len() > 0 {
                    proof {
                        lemma_link_stops(start, views, data@, offset, k + 1);
                    }
                    return Err(RelocError::DuplicateSegments);
                }
                match read_segments(bytes, range.start) {
                    Ok(segments) => self.set_segments(segments),
                    Err(error) => {
                        proof {
                            lemma_link_stops(start, views, data@, offset, k + 1);
                        }
                        return Err(RelocError::Read(error));
                    },
                }
            } else if *id == SYMBOL_TABLE {
                if self.info.symbols.len() > 0 {
                    proof {
                        lemma_link_stops(start, views, data@, offset, k + 1);
                    }
                    return Err(RelocError::DuplicateSymbols);
                }
                match read_symbols(bytes, range.start) {
                    Ok(symbols) => self.set_symbols(symbols),
                    Err(error) => {
                        proof {
                            lemma_link_stops(start, views, data@, offset, k + 1);
                        }
                        return Err(RelocError::Read(error));
                    },
                }
            }
        }
        assert(views.take(views.len() as int) =~= views);
        match error {
            Some(error) => Err(RelocError::Read(error)),
            None => Ok(()),
        }
    }

    /// Notes what a custom section says, if it is a linking section or holds relocations.
    pub fn visit_custom(&mut self, custom: &CustomSection) -> (visited: Result<(), RelocError>)
        requires
            can_visit(custom),
        ensures
            custom_visited(old(self), final(self), custom, visited),
    {
        if same_text(custom.name.as_str(), "linking") {
            self.has_linking_section = true;
            self.visit_linking(custom.data.as_slice(), custom.data_offset)
        } else if starts_with(custom.name.as_str(), "reloc.") {
            match read_relocs(custom.data.as_slice(), custom.data_offset) {
                Ok((section, relocs)) => {
                    self.set_relocs(section, relocs);
                    Ok(())
                },
                Err(error) => Err(RelocError::Read(error)),
            }
        } else {
            Ok(())
        }
    }

    /// Notes what a piece of a module says.
    pub fn visit_payload(&mut self, payload: &Payload) -> (visited: Result<(), RelocError>)
        requires
            payload.kind matches PayloadKind::CustomSection(custom) ==> can_visit(&custom),
        ensures
            payload_visited(old(self), final(self), payload, visited),
    {
        let section_index: usize = self.info.section_ranges.len();
        if let Some(range) = &payload.section {
            self.info.section_ranges.push(range.start..range.end);
        }
        match &payload.kind {
            PayloadKind::DataSection => {
                self.info.data_section_index = section_index;
                Ok(())
            },
            PayloadKind::CodeSectionStart => {
                self.info.code_section_index = section_index;
                Ok(())
            },
            PayloadKind::CustomSection(custom) => self.visit_custom(custom),
            PayloadKind::Other => Ok(()),
        }
    }

    /// Whether every relocation for the table that indirect calls go through refers to a symbol
    /// that exists.
    pub fn has_table_symbols(&self) -> (has: bool)
        ensures
            has == table_relocs_inside(&self.info()),
    {
        let sections = self.info.relocs.keys();
        for k in 0..sections.len()
            invariant
                forall|s: SectionIndex| #[trigger]
                    sections@.contains(s) <==> self.info.relocs@.contains_key(s),
                forall|j: int, i: int|
                    0 <= j < k && 0 <= i < self.info.relocs@[sections@[j]]@.len()
                        && is_table_reloc((#[trigger] self.info.relocs@[sections@[j]]@[i]).ty)
                        ==> self.info.relocs@[sections@[j]]@[i].index < self.info.symbols@.len(),
        {
            assert(sections@.contains(sections@[k as int]));
            if let Some(relocs) = self.info.relocs.get(&sections[k]) {
                for i in 0..relocs.len()
                    invariant
                        0 <= k < sections@.len(),
                        self.info.relocs@.contains_key(sections@[k as int]),
                        *relocs == self.info.relocs@[sections@[k as int]],
                        forall|j: int|
                            0 <= j < i && is_table_reloc((#[trigger] relocs@[j]).ty)
                                ==> relocs@[j].index < self.info.symbols@.len(),
                {
                    if for_table(relocs[i].ty) && relocs[i].index as usize
                        >= self.info.symbols.len() {
                        assert(relocs@.contains(relocs@[i as int]));
                        assert(has_reloc(self.info.relocs@, relocs@[i as int]));
                        return false;
                    }
                }
            }
        }
        proof {
            assert forall|r: RelocationEntry| #[trigger]
                has_reloc(self.info.relocs@, r) && is_table_reloc(r.ty) implies r.index
                < self.info.symbols@.len() by {
                let s = choose|s: SectionIndex| #[trigger]
                    self.info.relocs@.contains_key(s) && self.info.relocs@[s]@.contains(r);
                assert(sections@.contains(s));
                let j = choose|j: int| 0 <= j < sections@.len() && sections@[j] == s;
                let i = choose|i: int|
                    0 <= i < self.info.relocs@[s]@.len() && self.info.relocs@[s]@[i] == r;
                assert(self.info.relocs@[sections@[j]]@[i] == r);
            }
        }
        true
    }

    /// Whether the globals that may hold the address of a symbol exist, and their expressions are
    /// inside the module.
    pub fn has_globals(&self, module: &InputModule, marker: &str) -> (has: bool)
        ensures
            has == globals_inside(module, self.info().symbols@, marker@),
    {
        has_globals(module, self.info.symbols.as_slice(), marker)
    }

    /// Finds the exports of globals whose names start with `marker`, but whose symbols have data.
    pub fn odd_markers(&self, module: &InputModule, marker: &str) -> (found: Vec<usize>)
        ensures
            are_odd_markers(self.info().symbols@, marker@, module.exports@, found@),
    {
        find_odd_markers(self.info.symbols.as_slice(), module.exports.as_slice(), marker)
    }

    /// Completes what is known of symbols and relocations with what the module says.
    ///
    /// The names of globals that only mark a split program start with `marker`. With `check`, the
    /// globals that stand for data symbols must hold a fixed address.
    pub fn finish(self, module: &InputModule, marker: &str, check: bool) -> (finished: Result<
        RelocInfo,
        RelocError,
    >)
        requires
            segments_right(module.data_segments@),
            elements_inside(module),
            table_relocs_inside(&self.info()),
            check ==> globals_inside(module, self.info().symbols@, marker@),
        ensures
            finishes(&self, module, marker@, check, finished),
    {
        let has_linking_section = self.has_linking_section;
        let table: Option<TableId> = self.indirect_function_table;
        let ghost parser = self;
        let mut info = self.info;
        info.data_symbols = match get_data_symbols(
            module.data_segments.as_slice(),
            info.symbols.as_slice(),
        ) {
            Ok(data_symbols) => data_symbols,
            Err(error) => return Err(error),
        };
        if !has_linking_section {
            return Err(RelocError::NoLinkingSection);
        }
        let indirect_function_table: TableId = match table {
            Some(table) => table,
            None => return Err(RelocError::NoIndirectTable),
        };
        info.indirect_table = indirect_function_table;
        let ghost start = info;
        if let Err(error) = get_indirect_functions(&mut info, indirect_function_table, module) {
            assert(indirects_noted(module, indirect_function_table, start, info, Err(error)));
            return Err(error);
        }
        let ghost mid = info;
        assert(indirects_noted(module, indirect_function_table, start, mid, Ok(())));
        if let Err(error) = reconstruct_global_symbols(&mut info, module, marker, check) {
            return Err(error);
        }
        Ok(info)
    }
}

/// `info` is what was collected, with pieces of data and a table for indirect calls.
pub open spec fn prepared(
    parser: &RelocInfoParser,
    module: &InputModule,
    table: TableId,
    info: RelocInfo,
) -> bool {
    &&& info == (RelocInfo {
        data_symbols: info.data_symbols,
        indirect_table: table,
        ..parser.info()
    })
    &&& exists|unsorted: Seq<DataSymbol>| #[trigger]
        finds_data(module.data_segments@, parser.info().symbols@, unsorted) && sorts(
            unsorted,
            info.data_symbols@,
        )
}

/// What the exported globals add.
pub open spec fn globals_noted(
    module: &InputModule,
    marker: Seq<char>,
    check: bool,
    before: RelocInfo,
) -> (GlobalState, Option<GlobalId>) {
    global_steps(
        module,
        before.symbols@,
        marker,
        check,
        module.exports@,
        before.global_state(),
    )
}

/// What completing comes to. Errors come in this order: data that cannot be found, no linking
/// section, no table for indirect calls, indirect calls, exported globals.
pub open spec fn finishes(
    parser: &RelocInfoParser,
    module: &InputModule,
    marker: Seq<char>,
    check: bool,
    finished: Result<RelocInfo, RelocError>,
) -> bool {
    let segments = module.data_segments@;
    let symbols = parser.info().symbols@;
    match finished {
        Ok(info) => {
            &&& parser.has_linking()
            &&& parser.table() is Some
            &&& exists|start: RelocInfo, mid: RelocInfo|
                prepared(parser, module, parser.table()->0, start) && #[trigger] indirects_noted(
                    module,
                    parser.table()->0,
                    start,
                    mid,
                    Ok(()),
                ) && info == (RelocInfo {
                    symbol_as_global: info.symbol_as_global,
                    split_marker_globals: info.split_marker_globals,
                    ..mid
                }) && globals_noted(module, marker, check, mid) == (
                    info.global_state(),
                    None::<GlobalId>,
                )
        },
        Err(error) => {
            ||| exists|i: int, before: Seq<DataSymbol>|
                0 <= i < symbols.len() && #[trigger] finds_data(
                    segments,
                    symbols.take(i),
                    before,
                ) && data_error(segments, symbols, i, error)
            ||| (exists|found: Seq<DataSymbol>| finds_data(segments, symbols, found))
                && if !parser.has_linking() {
                error == RelocError::NoLinkingSection
            } else if parser.table() is None {
                error == RelocError::NoIndirectTable
            } else {
                exists|start: RelocInfo, mid: RelocInfo, noted: Result<(), RelocError>|
                    prepared(parser, module, parser.table()->0, start)
                        && #[trigger] indirects_noted(
                        module,
                        parser.table()->0,
                        start,
                        mid,
                        noted,
                    ) && match noted {
                        Err(first) => error == first,
                        Ok(_) => globals_noted(module, marker, check, mid).1 matches Some(
                            global_index,
                        ) && error == (RelocError::InvalidAddress { global_index }),
                    }
            }
        },
    }
}

/// After a subsection that cannot be used, the others are not looked at.
proof fn lemma_link_stops(
    state: LinkState,
    parts: Seq<(u8, usize, usize)>,
    data: Seq<u8>,
    offset: usize,
    n: int,
)
    requires
        0 <= n <= parts.len(),
        link_parts(state, parts.take(n), data, offset).1 is Some,
    ensures
        link_parts(state, parts, data, offset) == link_parts(state, parts.take(n), data, offset),
    decreases parts.len() - n,
{
    if n < parts.len() {
        assert(parts.take(n + 1).drop_last() =~= parts.take(n));
        lemma_link_stops(state, parts, data, offset, n + 1);
    } else {
        assert(parts.take(n) =~= parts);
    }
}

/// What a custom section leads to.
pub open spec fn custom_visited(
    before: &RelocInfoParser,
    after: &RelocInfoParser,
    custom: &CustomSection,
    visited: Result<(), RelocError>,
) -> bool {
    if custom.name@ == "linking"@ {
        let (state, error) = link_section(
            before.link_state(),
            custom.data@,
            custom.data_offset,
        );
        &&& after.has_linking()
        &&& after.same_but_linking(before)
        &&& after.link_state() == state
        &&& link_result(error, visited)
    } else {
        &&& after.has_linking() == before.has_linking()
        &&& after.table() == before.table()
        &&& if begins_with(custom.name@, "reloc."@) {
            match reloc_section(custom.data@) {
                Some((section, raw)) => visited is Ok && notes_relocs(
                    before.info(),
                    after.info(),
                    section,
                    raw,
                ),
                None => (visited matches Err(error) && error is Read) && after.info()
                    == before.info(),
            }
        } else {
            visited is Ok && after.info() == before.info()
        }
    }
}

/// `after` is `before` with the place of one more section, if there is one.
pub open spec fn section_noted(
    before: RelocInfo,
    after: RelocInfo,
    section: Option<Range<InputOffset>>,
) -> bool {
    &&& after == (RelocInfo { section_ranges: after.section_ranges, ..before })
    &&& match section {
        Some(range) => after.section_ranges@ == before.section_ranges@.push(range),
        None => after.section_ranges@ == before.section_ranges@,
    }
}

/// What a piece of a module leads to.
pub open spec fn payload_visited(
    before: &RelocInfoParser,
    after: &RelocInfoParser,
    payload: &Payload,
    visited: Result<(), RelocError>,
) -> bool {
    let index = before.info().section_ranges@.len();
    match payload.kind {
        PayloadKind::DataSection => {
            &&& visited is Ok
            &&& after.has_linking() == before.has_linking()
            &&& after.table() == before.table()
            &&& after.info().data_section_index == index
            &&& section_noted(
                RelocInfo { data_section_index: after.info().data_section_index, ..before.info() },
                after.info(),
                payload.section,
            )
        },
        PayloadKind::CodeSectionStart => {
            &&& visited is Ok
            &&& after.has_linking() == before.has_linking()
            &&& after.table() == before.table()
            &&& after.info().code_section_index == index
            &&& section_noted(
                RelocInfo { code_section_index: after.info().code_section_index, ..before.info() },
                after.info(),
                payload.section,
            )
        },
        PayloadKind::CustomSection(custom) => exists|mid: RelocInfoParser|
            {
                &&& section_noted(before.info(), mid.info(), payload.section)
                &&& mid.has_linking() == before.has_linking()
                &&& mid.table() == before.table()
                &&& #[trigger] custom_visited(&mid, after, &custom, visited)
            },
        PayloadKind::Other => {
            &&& visited is Ok
            &&& after.has_linking() == before.has_linking()
            &&& after.table() == before.table()
            &&& section_noted(before.info(), after.info(), payload.section)
        },
    }
}

} // verus!
