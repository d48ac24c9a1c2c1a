//! Symbols and relocations.
use std::ops::Range;
use wasm_split::keyed::{KeyMap, KeySet};
use wasm_split::read::{
    Data, Element, ElementItems, ElementKind, Export, ExternalKind, Global, InputModule, Names,
    Options, ValType,
};
use wasm_split::reloc::apply::{can_relocate, write_relocation};
use wasm_split::reloc::encode::{
    encode_leb128_i32_5byte, encode_leb128_i64_10byte, encode_leb128_u32_5byte,
    encode_leb128_u64_10byte, encode_u32, encode_u64,
};
use wasm_split::reloc::parse::{CustomSection, Payload, PayloadKind};
use wasm_split::reloc::{
    DataSymbol, DefinedDataSymbol, RelocDetails, RelocError, RelocInfo, RelocInfoParser,
    RelocTarget, RelocationEntry, RelocationType, SymbolInfo, BINDING_WEAK, EXPORTED, NO_STRIP,
};

fn empty_module() -> InputModule {
    InputModule {
        raw: vec![],
        options: Options {
            debug_assertions: false,
        },
        imports: vec![],
        exports: vec![],
        imported_funcs: vec![],
        imported_func_map: KeyMap::new(),
        imported_globals_num: 0,
        imported_tables_num: 0,
        imported_tags_num: 0,
        imported_memories_num: 0,
        defined_funcs: vec![],
        globals: vec![],
        elements: vec![],
        data_segments: vec![],
        start: None,
        names: Names {
            functions: KeyMap::new(),
        },
        reloc_info: RelocInfo::default(),
    }
}

fn func(index: u32) -> SymbolInfo {
    SymbolInfo::Func {
        flags: 0,
        index,
        name: Some(format!("f{index}")),
    }
}

fn data(name: &str, place: Option<(u32, u32, u32)>) -> SymbolInfo {
    SymbolInfo::Data {
        flags: 0,
        name: name.to_string(),
        symbol: place.map(|(index, offset, size)| DefinedDataSymbol {
            index,
            offset,
            size,
        }),
    }
}

fn entry(ty: RelocationType, offset: u32, index: u32, addend: i64) -> RelocationEntry {
    RelocationEntry {
        ty,
        offset,
        index,
        addend,
    }
}

fn table_symbol() -> SymbolInfo {
    SymbolInfo::Table {
        flags: 0,
        index: 7,
        name: Some("t".to_string()),
    }
}

/// The bytes of a number of at most seven bits.
fn small(value: usize) -> u8 {
    assert!(value < 0x80);
    value as u8
}

fn string(text: &str) -> Vec<u8> {
    let mut bytes = vec![small(text.len())];
    bytes.extend_from_slice(text.as_bytes());
    bytes
}

fn subsection(id: u8, payload: &[u8]) -> Vec<u8> {
    let mut bytes = vec![id, small(payload.len())];
    bytes.extend_from_slice(payload);
    bytes
}

/// A linking section with one segment description and four symbols.
fn linking_data() -> Vec<u8> {
    let mut segments = vec![1];
    segments.extend(string(".rodata"));
    segments.extend([2, 1]);
    let mut symbols = vec![4];
    symbols.extend([0, 0x80, 0x01, 3]);
    symbols.extend(string("kept"));
    symbols.extend([1, 0]);
    symbols.extend(string("text"));
    symbols.extend([0, 4, 6]);
    symbols.extend([5, 0, 1]);
    symbols.extend(string("__indirect_function_table"));
    symbols.extend([0, 0x10, 2]);
    let mut bytes = vec![2];
    bytes.extend(subsection(5, &segments));
    bytes.extend(subsection(8, &symbols));
    bytes
}

fn custom(name: &str, data: Vec<u8>) -> Payload {
    Payload {
        section: Some(100..100 + data.len()),
        kind: PayloadKind::CustomSection(CustomSection {
            name: name.to_string(),
            data,
            data_offset: 100,
        }),
    }
}

fn sorted(set: &KeySet<usize>) -> Vec<usize> {
    let mut items = set.to_vec();
    items.sort();
    items
}

#[test]
fn unsigned_numbers_are_encoded() {
    let mut five = [0u8; 5];
    encode_leb128_u32_5byte(624485, &mut five);
    assert_eq!(five, [0xe5, 0x8e, 0xa6, 0x80, 0x00]);
    encode_leb128_u32_5byte(u32::MAX, &mut five);
    assert_eq!(five, [0xff, 0xff, 0xff, 0xff, 0x0f]);
    let mut ten = [0u8; 10];
    encode_leb128_u64_10byte(u64::MAX, &mut ten);
    assert_eq!(
        ten,
        [0xff, 0xff, 0xff, 0xff, 0xff, 0xff, 0xff, 0xff, 0xff, 0x01]
    );
    let mut four = [0u8; 4];
    encode_u32(0x0102_0304, &mut four);
    assert_eq!(four, [4, 3, 2, 1]);
    let mut eight = [0u8; 8];
    encode_u64(0x0102_0304_0506_0708, &mut eight);
    assert_eq!(eight, [8, 7, 6, 5, 4, 3, 2, 1]);
}

#[test]
fn signed_numbers_are_encoded() {
    let mut five = [0u8; 5];
    encode_leb128_i32_5byte(-1, &mut five);
    assert_eq!(five, [0xff, 0xff, 0xff, 0xff, 0x7f]);
    encode_leb128_i32_5byte(-123456, &mut five);
    assert_eq!(five, [0xc0, 0xbb, 0xf8, 0xff, 0x7f]);
    encode_leb128_i32_5byte(i32::MIN, &mut five);
    assert_eq!(five, [0x80, 0x80, 0x80, 0x80, 0x78]);
    let mut ten = [0u8; 10];
    encode_leb128_i64_10byte(-1, &mut ten);
    assert_eq!(
        ten,
        [0xff, 0xff, 0xff, 0xff, 0xff, 0xff, 0xff, 0xff, 0xff, 0x7f]
    );
    encode_leb128_i64_10byte(5, &mut ten);
    assert_eq!(
        ten,
        [0x85, 0x80, 0x80, 0x80, 0x80, 0x80, 0x80, 0x80, 0x80, 0x00]
    );
}

#[test]
fn encoded_numbers_are_read_back() {
    for value in [0u32, 1, 127, 128, 300, 0x7fff_ffff, u32::MAX] {
        let mut five = [0u8; 5];
        encode_leb128_u32_5byte(value, &mut five);
        let mut reader = wasmparser::BinaryReader::new(&five, 0);
        assert_eq!(reader.read_var_u32().unwrap(), value);
    }
    for value in [0i32, 1, -1, 63, 64, -64, -65, i32::MAX, i32::MIN] {
        let mut five = [0u8; 5];
        encode_leb128_i32_5byte(value, &mut five);
        let mut reader = wasmparser::BinaryReader::new(&five, 0);
        assert_eq!(reader.read_var_i32().unwrap(), value);
    }
    for value in [0i64, 1, -1, 1 << 40, -(1 << 40), i64::MAX, i64::MIN] {
        let mut ten = [0u8; 10];
        encode_leb128_i64_10byte(value, &mut ten);
        let mut reader = wasmparser::BinaryReader::new(&ten, 0);
        assert_eq!(reader.read_var_i64().unwrap(), value);
    }
}

#[test]
fn relocation_types_agree_with_the_format() {
    for code in 0..=26u8 {
        let ours = RelocationType::from_code(code);
        let theirs = wasmparser::RelocationType::try_from(code).unwrap();
        assert_eq!(format!("{ours:?}"), format!("{theirs:?}"));
        assert_eq!(ours.code(), code);
        let range = entry(ours, 40, 0, 0).relocation_range().unwrap();
        assert_eq!(range, 40..40 + theirs.extent());
    }
}

#[test]
fn relocations_are_expanded() {
    let info = RelocInfo {
        symbols: vec![
            func(3),
            data("d", Some((0, 1, 2))),
            table_symbol(),
            SymbolInfo::Global {
                flags: 0,
                index: 8,
                name: None,
            },
            SymbolInfo::Event {
                flags: 0,
                index: 9,
                name: None,
            },
        ],
        ..RelocInfo::default()
    };
    let expand = |ty, index| info.expand_relocation(&entry(ty, 0, index, 0));
    match expand(RelocationType::MemoryAddrSleb, 1) {
        Ok(RelocDetails::MemoryAddr(details)) => {
            assert_eq!(details.symbol_index, 1);
            assert_eq!(details._name, "d");
            assert_eq!(details.definition.unwrap().size, 2);
        }
        _ => panic!("expected data"),
    }
    match expand(RelocationType::FunctionIndexLeb, 0) {
        Ok(RelocDetails::FunctionIndex(details)) => {
            assert_eq!(details.index, 3);
            assert_eq!(details._name, Some("f3"));
        }
        _ => panic!("expected a function"),
    }
    assert!(matches!(
        expand(RelocationType::TableIndexI32, 0),
        Ok(RelocDetails::TableIndex(details)) if details.index == 3
    ));
    assert!(matches!(
        expand(RelocationType::TableIndexRelSleb, 0),
        Ok(RelocDetails::RelTableIndex(details)) if details.index == 3
    ));
    assert!(matches!(
        expand(RelocationType::TableNumberLeb, 2),
        Ok(RelocDetails::TableNumber(details)) if details.index == 7
    ));
    assert!(matches!(
        expand(RelocationType::GlobalIndexLeb, 3),
        Ok(RelocDetails::GlobalIndex(details)) if details.index == 8
    ));
    assert!(matches!(
        expand(RelocationType::EventIndexLeb, 4),
        Ok(RelocDetails::TagIndex(details)) if details.index == 9
    ));
    assert!(matches!(
        expand(RelocationType::TypeIndexLeb, 4),
        Ok(RelocDetails::TypeIndex { _symbol_idx: 4, .. })
    ));
}

#[test]
fn unsuitable_relocations_are_not_expanded() {
    let info = RelocInfo {
        symbols: vec![func(3), data("d", None)],
        ..RelocInfo::default()
    };
    let expand = |ty, index| info.expand_relocation(&entry(ty, 0, index, 0));
    for (ty, index) in [
        (RelocationType::MemoryAddrLeb, 0),
        (RelocationType::TableIndexSleb, 1),
        (RelocationType::TableIndexRelSleb64, 1),
        (RelocationType::FunctionIndexI32, 1),
        (RelocationType::TableNumberLeb, 0),
        (RelocationType::GlobalIndexI32, 0),
        (RelocationType::EventIndexLeb, 0),
    ] {
        match expand(ty, index) {
            Err(RelocError::UnexpectedSymbol { ty: t, symbol_index }) => {
                assert_eq!(t, ty);
                assert_eq!(symbol_index, index as usize);
            }
            _ => panic!("expected an error for {ty:?}"),
        }
    }
    for ty in [
        RelocationType::SectionOffsetI32,
        RelocationType::FunctionOffsetI32,
        RelocationType::FunctionOffsetI64,
    ] {
        assert!(matches!(
            expand(ty, 0),
            Err(RelocError::Unhandled { ty: t }) if t == ty
        ));
    }
}

/// Moves functions by ten and data to a thousand, and leaves everything else.
struct Mover;

impl RelocTarget for Mover {
    fn reloc_value(&self, reloc: RelocDetails<'_>) -> Result<Option<usize>, RelocError> {
        match reloc {
            RelocDetails::FunctionIndex(details) => Ok(Some(details.index + 10)),
            RelocDetails::MemoryAddr(_) => Ok(Some(1000)),
            RelocDetails::TableIndex(_) => Ok(Some(usize::MAX)),
            RelocDetails::TagIndex(_) => Err(RelocError::NoIndirectTable),
            _ => Ok(None),
        }
    }
}

fn module_with(relocs: Vec<RelocationEntry>) -> InputModule {
    let mut module = empty_module();
    module.raw = (0..40).collect();
    module.reloc_info.section_ranges = vec![0..10, 10..30, 30..40];
    module.reloc_info.symbols = vec![
        func(3),
        data("d", Some((0, 1, 2))),
        table_symbol(),
        SymbolInfo::Event {
            flags: 0,
            index: 9,
            name: None,
        },
    ];
    module.reloc_info.relocs.insert(1, relocs);
    module
}

fn relocated(module: &InputModule, range: Range<usize>) -> Result<Vec<u8>, RelocError> {
    RelocInfo::get_relocated_data(module, range, &Mover)
}

#[test]
fn relocations_of_a_range_are_found() {
    let relocs: Vec<RelocationEntry> = [0, 5, 9, 9, 14]
        .iter()
        .map(|&offset| entry(RelocationType::MemoryAddrI32, offset, 1, 0))
        .collect();
    let module = module_with(relocs.clone());
    let (start, found) = module.reloc_info.get_relocations_for_range(&(15..24));
    assert_eq!(start, 10);
    assert_eq!(found, &relocs[1..4]);
    let (_, all) = module.reloc_info.get_relocations_for_range(&(10..30));
    assert_eq!(all, &relocs[..]);
    let (start, none) = module.reloc_info.get_relocations_for_range(&(0..10));
    assert_eq!((start, none.len()), (0, 0));
}

#[test]
fn relocations_are_applied() {
    let module = module_with(vec![
        entry(RelocationType::FunctionIndexLeb, 2, 0, 0),
        entry(RelocationType::MemoryAddrI32, 8, 1, -1),
        entry(RelocationType::TypeIndexLeb, 13, 0, 0),
    ]);
    let bytes = relocated(&module, 10..30).unwrap();
    let mut expected: Vec<u8> = (10..30).collect();
    expected[2..7].copy_from_slice(&[0x8d, 0x80, 0x80, 0x80, 0x00]);
    expected[8..12].copy_from_slice(&[0xe7, 0x03, 0, 0]);
    assert_eq!(bytes, expected);
    // A part of the section gets the same bytes.
    assert_eq!(relocated(&module, 17..24).unwrap(), expected[7..14]);
    // Bytes without relocations stay as they are.
    assert_eq!(
        relocated(&module, 0..10).unwrap(),
        (0..10).collect::<Vec<u8>>()
    );
}

#[test]
fn failures_to_relocate_are_reported() {
    let fails = |relocation| match relocated(&module_with(vec![relocation]), 10..30) {
        Ok(_) => panic!("expected an error"),
        Err(error) => error,
    };
    assert!(matches!(
        fails(entry(RelocationType::TableIndexI32, 0, 0, 0)),
        RelocError::ValueTooLarge
    ));
    assert!(matches!(
        fails(entry(RelocationType::MemoryAddrI32, 0, 1, -1001)),
        RelocError::ValueTooLarge
    ));
    assert!(matches!(
        fails(entry(RelocationType::EventIndexLeb, 0, 3, 0)),
        RelocError::NoIndirectTable
    ));
    assert!(matches!(
        fails(entry(RelocationType::MemoryAddrI32, 0, 0, 0)),
        RelocError::UnexpectedSymbol { symbol_index: 0, .. }
    ));
    assert!(matches!(
        fails(entry(RelocationType::SectionOffsetI32, 0, 0, 0)),
        RelocError::Unhandled { .. }
    ));
}

#[test]
fn values_are_written_in_place() {
    let relocation = entry(RelocationType::MemoryAddrLeb, 0, 0, 5);
    assert!(can_relocate(&relocation, 0xffff_fffa));
    assert!(!can_relocate(&relocation, 0xffff_fffb));
    let mut bytes = vec![9u8; 8];
    write_relocation(&mut bytes, 2, &relocation, 123);
    assert_eq!(bytes, [9, 9, 0x80, 0x81, 0x80, 0x80, 0x00, 9]);
    let wide = entry(RelocationType::MemoryAddrSleb64, 0, 0, -5);
    assert!(can_relocate(&wide, 0));
    assert!(!can_relocate(
        &entry(RelocationType::MemoryAddrLeb64, 0, 0, -5),
        0
    ));
}

#[test]
fn linking_sections_are_read() {
    let mut parser = RelocInfoParser::default();
    parser
        .visit_payload(&Payload {
            section: Some(8..20),
            kind: PayloadKind::Other,
        })
        .unwrap();
    parser
        .visit_payload(&Payload {
            section: Some(20..60),
            kind: PayloadKind::CodeSectionStart,
        })
        .unwrap();
    parser
        .visit_payload(&Payload {
            section: Some(60..90),
            kind: PayloadKind::DataSection,
        })
        .unwrap();
    parser
        .visit_payload(&custom("linking", linking_data()))
        .unwrap();
    // Two relocations, the later one first.
    let relocs = vec![1, 2, 3, 9, 1, 0x7e, 0, 4, 0];
    parser
        .visit_payload(&custom("reloc.CODE", relocs))
        .unwrap();
    parser
        .visit_payload(&custom("producers", vec![1, 2, 3]))
        .unwrap();
    assert!(parser.has_table_symbols());

    let mut module = empty_module();
    module.raw = vec![0; 100];
    module.data_segments = vec![Data {
        data_len: 20,
        range: 65..90,
    }];
    let info = parser.finish(&module, "marker", false).unwrap();
    assert_eq!(info.section_ranges.len(), 6);
    assert_eq!(info.section_ranges[1], 20..60);
    assert_eq!(info.code_section_index, 1);
    assert_eq!(info.data_section_index, 2);
    assert_eq!(info.code_section_offset(), 20);
    assert_eq!(info.data_section_offset(), 60);
    assert_eq!(info.segments.len(), 1);
    assert_eq!(info.segments[0].name, ".rodata");
    assert_eq!((info.segments[0].alignment, info.segments[0].flags), (2, 1));
    assert_eq!(info.symbols.len(), 4);
    match &info.symbols[0] {
        SymbolInfo::Func { flags, index, name } => {
            assert_eq!((*flags, *index), (NO_STRIP, 3));
            assert_eq!(name.as_deref(), Some("kept"));
        }
        _ => panic!("expected a function"),
    }
    match &info.symbols[3] {
        SymbolInfo::Func { flags, index, name } => {
            assert_eq!((*flags, *index), (0x10, 2));
            assert_eq!(*name, None);
        }
        _ => panic!("expected a function"),
    }
    assert_eq!(info.indirect_table, 1);
    assert_eq!(
        info.data_symbols,
        vec![DataSymbol {
            symbol_index: 1,
            range: 74..80,
        }]
    );
    assert_eq!(
        info.iter_code_relocs(),
        &[
            entry(RelocationType::FunctionIndexLeb, 4, 0, 0),
            entry(RelocationType::MemoryAddrLeb, 9, 1, -2),
        ]
    );
    assert_eq!(info.iter_data_relocs().len(), 0);
    assert_eq!(info.section_offset(0), 8);
}

#[test]
fn unreadable_sections_are_refused() {
    let read_fails = |name: &str, data: Vec<u8>| {
        let mut parser = RelocInfoParser::default();
        matches!(
            parser.visit_payload(&custom(name, data)),
            Err(RelocError::Read(_))
        )
    };
    assert!(read_fails("linking", vec![1]));
    assert!(read_fails("linking", vec![2, 8, 2, 1, 9]));
    assert!(read_fails("linking", vec![2, 5, 2, 1, 9]));
    assert!(read_fails("linking", vec![2, 5]));
    assert!(read_fails("reloc.CODE", vec![1, 1, 99, 0, 0]));
    assert!(!read_fails("name", vec![99]));
}

#[test]
fn repeated_tables_are_refused() {
    let mut parser = RelocInfoParser::default();
    parser
        .visit_payload(&custom("linking", linking_data()))
        .unwrap();
    assert!(matches!(
        parser.visit_payload(&custom("linking", linking_data())),
        Err(RelocError::DuplicateSegments)
    ));
    let mut symbols = vec![1, 3, 0, 0];
    let mut bytes = vec![2];
    bytes.extend(subsection(8, &symbols));
    symbols[2] = 1;
    bytes.extend(subsection(8, &symbols));
    let mut parser = RelocInfoParser::default();
    assert!(matches!(
        parser.visit_payload(&custom("linking", bytes)),
        Err(RelocError::DuplicateSymbols)
    ));
}

fn linked_parser(symbols: &[u8]) -> RelocInfoParser {
    let mut bytes = vec![2];
    bytes.extend(subsection(8, symbols));
    let mut parser = RelocInfoParser::default();
    parser.visit_payload(&custom("linking", bytes)).unwrap();
    parser
}

fn table_bytes() -> Vec<u8> {
    let mut bytes = vec![5, 0, 0];
    bytes.extend(string("__indirect_function_table"));
    bytes
}

#[test]
fn missing_parts_are_reported() {
    let module = empty_module();
    let parser = RelocInfoParser::default();
    assert!(matches!(
        parser.finish(&module, "m", false),
        Err(RelocError::NoLinkingSection)
    ));
    assert!(matches!(
        linked_parser(&[1, 3, 0, 0]).finish(&module, "m", false),
        Err(RelocError::NoIndirectTable)
    ));
    let mut symbols = vec![1, 1, 0];
    symbols.extend(string("d"));
    symbols.extend([5, 0, 1]);
    assert!(matches!(
        linked_parser(&symbols).finish(&module, "m", false),
        Err(RelocError::InvalidDataSegment { symbol_index: 0 })
    ));
    symbols[5] = 0;
    let mut module = empty_module();
    module.data_segments = vec![Data {
        data_len: 0,
        range: 5..9,
    }];
    assert!(matches!(
        linked_parser(&symbols).finish(&module, "m", false),
        Err(RelocError::InvalidDataSymbol { symbol_index: 0 })
    ));
}

fn active(table_index: Option<u32>, items: ElementItems) -> Element {
    Element {
        kind: ElementKind::Active { table_index },
        items,
    }
}

#[test]
fn indirect_functions_are_found() {
    // Functions 1 to 5, with different flags, and the table.
    let mut symbols = vec![6];
    for (index, flags) in [
        (1, NO_STRIP),
        (2, EXPORTED | BINDING_WEAK),
        (3, EXPORTED),
        (4, 0),
        (5, NO_STRIP),
    ] {
        let low = (flags & 0x7f) as u8 | 0x80;
        symbols.extend([0, low, (flags >> 7) as u8, index]);
        symbols.extend(string("f"));
    }
    symbols.extend(table_bytes());
    let mut parser = linked_parser(&symbols);
    // A table index of function 4.
    parser
        .visit_payload(&custom("reloc.DATA", vec![0, 1, 2, 0, 3]))
        .unwrap();
    let mut module = empty_module();
    module.raw = vec![9, 4, 1, 2, 3, 4, 9, 1, 5];
    module.elements = vec![
        active(None, ElementItems::Functions(1..6)),
        active(Some(1), ElementItems::Functions(7..9)),
        Element {
            kind: ElementKind::Passive,
            items: ElementItems::Expressions,
        },
    ];
    let info = parser.finish(&module, "m", false).unwrap();
    assert_eq!(sorted(&info.visible_indirects), vec![1, 2]);
    assert_eq!(sorted(&info.referenced_indirects), vec![1, 2, 4]);
}

#[test]
fn unsuitable_tables_are_refused() {
    let mut symbols = vec![2];
    symbols.extend(table_bytes());
    symbols.extend([3, 0, 0]);
    let mut module = empty_module();
    module.elements = vec![active(None, ElementItems::Expressions)];
    assert!(matches!(
        linked_parser(&symbols).finish(&module, "m", false),
        Err(RelocError::ExpectedFunctions)
    ));
    module.raw = vec![2, 1];
    module.elements = vec![active(None, ElementItems::Functions(0..2))];
    assert!(matches!(
        linked_parser(&symbols).finish(&module, "m", false),
        Err(RelocError::Read(_))
    ));
    let mut parser = linked_parser(&symbols);
    parser
        .visit_payload(&custom("reloc.DATA", vec![0, 1, 2, 0, 1]))
        .unwrap();
    assert!(matches!(
        parser.finish(&empty_module(), "m", false),
        Err(RelocError::InvalidTableIndex)
    ));
    let mut parser = linked_parser(&symbols);
    parser
        .visit_payload(&custom("reloc.DATA", vec![0, 1, 2, 0, 2]))
        .unwrap();
    assert!(!parser.has_table_symbols());
}

fn global(content_type: ValType, init_expr: Range<usize>) -> Global {
    Global {
        content_type,
        mutable: false,
        shared: false,
        init_expr,
    }
}

fn global_export(name: &str, index: u32) -> Export {
    Export {
        name: name.to_string(),
        kind: ExternalKind::Global,
        index,
    }
}

/// Two symbols for data, one of them empty, and the table.
fn address_symbols() -> Vec<u8> {
    let mut symbols = vec![3, 1, 0];
    symbols.extend(string("m_d"));
    symbols.extend([0, 0, 4]);
    symbols.extend([1, 0]);
    symbols.extend(string("m_mark"));
    symbols.extend([0, 0, 0]);
    symbols.extend(table_bytes());
    symbols
}

#[test]
fn exported_globals_stand_for_data() {
    let mut module = empty_module();
    module.data_segments = vec![Data {
        data_len: 4,
        range: 0..4,
    }];
    module.exports = vec![
        global_export("m_d", 1),
        global_export("m_mark", 0),
        global_export("other", 2),
        Export {
            name: "m_d".to_string(),
            kind: ExternalKind::Memory,
            index: 3,
        },
    ];
    let info = linked_parser(&address_symbols())
        .finish(&module, "m_", false)
        .unwrap();
    assert_eq!(info.symbol_as_global.keys(), vec![1]);
    assert_eq!(info.symbol_as_global.get(&1), Some(&0));
    assert_eq!(sorted(&info.split_marker_globals), vec![0]);
}

#[test]
fn odd_marks_and_missing_globals_are_found() {
    let mut module = empty_module();
    module.exports = vec![
        global_export("m_mark", 7),
        global_export("m_d", 0),
        global_export("m_none", 8),
    ];
    let parser = linked_parser(&address_symbols());
    assert_eq!(parser.odd_markers(&module, "m_"), vec![1]);
    assert_eq!(parser.odd_markers(&module, "x"), Vec::<usize>::new());
    assert!(!parser.has_globals(&module, "m_"));
    module.raw = vec![0x41, 0x10, 0x0b];
    module.globals = vec![global(ValType::I32, 0..3)];
    assert!(parser.has_globals(&module, "m_"));
    // The empty symbol is no mark any more, so its global must exist.
    assert!(!parser.has_globals(&module, "x"));
    module.globals = vec![global(ValType::I32, 0..4)];
    assert!(!parser.has_globals(&module, "m_"));
}

#[test]
fn addresses_are_checked() {
    let finish = |content_type, bytes: Vec<u8>, mutable| {
        let mut module = empty_module();
        module.data_segments = vec![Data {
            data_len: 4,
            range: 0..4,
        }];
        module.exports = vec![global_export("m_d", 0)];
        module.globals = vec![Global {
            mutable,
            ..global(content_type, 0..bytes.len())
        }];
        module.raw = bytes;
        linked_parser(&address_symbols()).finish(&module, "x", true)
    };
    // i32.const 16
    assert!(finish(ValType::I32, vec![0x41, 0x10, 0x0b], false).is_ok());
    // i64.const 16
    assert!(finish(ValType::I64, vec![0x42, 0x10, 0x0b], false).is_ok());
    for (content_type, bytes, mutable) in [
        (ValType::Other, vec![0x41, 0x10, 0x0b], false),
        (ValType::I32, vec![0x41, 0x10, 0x0b], true),
        // i32.const -1
        (ValType::I32, vec![0x41, 0x7f, 0x0b], false),
        // global.get 0
        (ValType::I32, vec![0x23, 0x00, 0x0b], false),
        (ValType::I32, vec![], false),
    ] {
        assert!(matches!(
            finish(content_type, bytes, mutable),
            Err(RelocError::InvalidAddress { global_index: 0 })
        ));
    }
}

#[test]
fn symbols_and_relocations_are_printed() {
    let mut info = RelocInfo {
        symbols: vec![
            SymbolInfo::Func {
                flags: 0x10,
                index: 3,
                name: None,
            },
            data("a\"b", Some((1, 2, 3))),
            SymbolInfo::Section {
                flags: 0,
                section: 4,
            },
            table_symbol(),
        ],
        ..RelocInfo::default()
    };
    info.relocs.insert(
        5,
        vec![
            entry(RelocationType::MemoryAddrLeb, 7, 1, -4),
            entry(RelocationType::MemoryAddrI64, 8, 9, 4),
            entry(RelocationType::FunctionIndexLeb, 12, 0, 0),
        ],
    );
    let listing = info.print_relocs();
    let flags = |bits| format!("{:?}", wasmparser::SymbolFlags::from_bits_retain(bits));
    let none = flags(0);
    assert_eq!(
        listing.symbols,
        vec![
            format!("Func {{ flags: {}, index: 3, name: None }}", flags(0x10)),
            format!(
                "Data {{ flags: {none}, name: \"a\\\"b\", symbol: Some(DefinedDataSymbol {{ index: 1, offset: 2, size: 3 }}) }}"
            ),
            format!("Section {{ flags: {none}, section: 4 }}"),
            format!("Table {{ flags: {none}, index: 7, name: Some(\"t\") }}"),
        ]
    );
    assert_eq!(listing.sections.len(), 1);
    assert_eq!(listing.sections[0].0, 5);
    assert_eq!(
        listing.sections[0].1,
        vec![
            format!("  [7] = MemoryAddrLeb({}) -4", listing.symbols[1]),
            "  [8] = MemoryAddrI64(<invalid reloc index>) +4".to_string(),
            format!("  [12] = FunctionIndexLeb({})", listing.symbols[0]),
        ]
    );
}

#[test]
fn symbols_are_printed_as_the_reader_does() {
    let theirs = wasmparser::SymbolInfo::Data {
        flags: wasmparser::SymbolFlags::from_bits_retain(0x21),
        name: "x",
        symbol: Some(wasmparser::DefinedDataSymbol {
            index: 1,
            offset: 2,
            size: 3,
        }),
    };
    let info = RelocInfo {
        symbols: vec![SymbolInfo::Data {
            flags: 0x21,
            name: "x".to_string(),
            symbol: Some(DefinedDataSymbol {
                index: 1,
                offset: 2,
                size: 3,
            }),
        }],
        ..RelocInfo::default()
    };
    assert_eq!(info.print_relocs().symbols, vec![format!("{theirs:?}")]);
}
