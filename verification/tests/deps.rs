//! Dependencies among the parts of a module.
use std::ops::Range;
use wasm_split::data_deps::{find_data_dependencies, DataDependency, SweepError};
use wasm_split::dep_graph::{get_dependencies, is_analyzable, DepError, DepNode, Dependencies};
use wasm_split::func_relocs::{iter_functions_with_relocs, FuncRelocError};
use wasm_split::keyed::KeyMap;
use wasm_split::name_map::NameMap;
use wasm_split::read::{DefinedFunc, InputModule, Names, Options};
use wasm_split::reloc::{
    DataSymbol, RelocError, RelocInfo, RelocationEntry, RelocationType, SymbolInfo,
};
use wasm_split::stubs::{check_operators, op_short_name, validate_no_reloc_stub, StubCheck};

fn empty_module() -> InputModule {
    InputModule {
        raw: vec![],
        options: Options {
            debug_assertions: false,
        },
        imports: vec![],
        exports: vec![],
        imported_funcs: vec![],
        imported_func_map: KeyMap::new(),
        imported_globals_num: 0,
        imported_tables_num: 0,
        imported_tags_num: 0,
        imported_memories_num: 0,
        defined_funcs: vec![],
        globals: vec![],
        elements: vec![],
        data_segments: vec![],
        start: None,
        names: Names {
            functions: KeyMap::new(),
        },
        reloc_info: RelocInfo::default(),
    }
}

fn entry(ty: RelocationType, offset: u32, index: u32) -> RelocationEntry {
    RelocationEntry {
        ty,
        offset,
        index,
        addend: 0,
    }
}

fn data_symbol(symbol_index: usize, range: Range<usize>) -> DataSymbol {
    DataSymbol {
        symbol_index,
        range,
    }
}

fn data_symbols(ranges: &[Range<usize>]) -> Vec<DataSymbol> {
    ranges
        .iter()
        .enumerate()
        .map(|(index, range)| data_symbol(index, range.clone()))
        .collect()
}

fn named_data(name: &str) -> SymbolInfo {
    SymbolInfo::Data {
        flags: 0,
        name: name.to_string(),
        symbol: None,
    }
}

fn func_symbol(index: u32) -> SymbolInfo {
    SymbolInfo::Func {
        flags: 0,
        index,
        name: None,
    }
}

/// A module with two imported functions, code from position 0 on and data from position 100 on.
fn module_with(bodies: &[&[u8]]) -> InputModule {
    let mut module = empty_module();
    module.imported_funcs = vec![0, 1];
    for body in bodies {
        let start = module.raw.len();
        module.raw.extend_from_slice(body);
        module.defined_funcs.push(DefinedFunc {
            body: start..module.raw.len(),
        });
    }
    assert!(module.raw.len() <= 100);
    module.raw.resize(200, 0);
    module.reloc_info.section_ranges = vec![0..100, 100..200];
    module.reloc_info.code_section_index = 0;
    module.reloc_info.data_section_index = 1;
    module
}

/// A body of ten bytes with one relocatable number.
const PADDED: [u8; 10] = [0, 0x41, 0x80, 0x80, 0x80, 0x80, 0x00, 0x1a, 0x01, 0x0b];

fn edges(dependencies: &Dependencies) -> Vec<(DepNode, DepNode)> {
    let mut edges = Vec::new();
    for from in dependencies.graph.keys() {
        for to in dependencies.graph.get(&from).unwrap().to_vec() {
            edges.push((from, to));
        }
    }
    edges.sort();
    edges
}

fn dependencies_of(module: &InputModule) -> Dependencies {
    assert!(is_analyzable(module));
    match get_dependencies(module) {
        Ok(dependencies) => dependencies,
        Err(error) => panic!("unexpected {error:?}"),
    }
}

fn error_of(module: &InputModule) -> DepError {
    assert!(is_analyzable(module));
    match get_dependencies(module) {
        Ok(_) => panic!("expected an error"),
        Err(error) => error,
    }
}

#[test]
fn functions_depend_on_what_relocations_refer_to() {
    let mut module = module_with(&[&PADDED, &PADDED, &PADDED]);
    module.reloc_info.symbols = vec![
        func_symbol(1),
        named_data("d"),
        SymbolInfo::Table {
            flags: 0,
            index: 0,
            name: None,
        },
        SymbolInfo::Global {
            flags: 0,
            index: 6,
            name: None,
        },
        SymbolInfo::Event {
            flags: 0,
            index: 7,
            name: None,
        },
    ];
    module.reloc_info.relocs.insert(
        0,
        vec![
            entry(RelocationType::FunctionIndexLeb, 2, 0),
            entry(RelocationType::MemoryAddrLeb, 2, 1),
            entry(RelocationType::TypeIndexLeb, 12, 0),
            entry(RelocationType::TableNumberLeb, 12, 2),
            entry(RelocationType::GlobalIndexLeb, 22, 3),
            entry(RelocationType::EventIndexLeb, 22, 4),
            entry(RelocationType::TableIndexSleb, 25, 0),
        ],
    );
    let (found, error) = iter_functions_with_relocs(&module);
    assert_eq!(found, vec![2, 2, 3, 3, 4, 4, 4]);
    assert_eq!(error, None);
    let dependencies = dependencies_of(&module);
    assert_eq!(
        edges(&dependencies),
        vec![
            (DepNode::Function(2), DepNode::Function(1)),
            (DepNode::Function(2), DepNode::DataSymbol(1)),
            (DepNode::Function(3), DepNode::Table(0)),
            (DepNode::Function(4), DepNode::Function(1)),
            (DepNode::Function(4), DepNode::Global(6)),
            (DepNode::Function(4), DepNode::Tag(7)),
        ]
    );
    assert_eq!(dependencies.stub_fns.to_vec(), Vec::<usize>::new());
}

#[test]
fn stubs_depend_on_what_they_call() {
    let call: &[u8] = &[0, 0x20, 0x00, 0x10, 0x05, 0x0b];
    let calls: &[u8] = &[0, 0x10, 0x00, 0x10, 0x03, 0x0f, 0x0b];
    let nothing: &[u8] = &[0, 0x20, 0x00, 0x0b];
    let constant: &[u8] = &[0, 0x41, 0x07, 0x10, 0x01, 0x0b];
    let module = module_with(&[call, calls, nothing, constant]);
    let dependencies = dependencies_of(&module);
    // A constant followed by a call: not a stub, but nothing that is surely wrong comes behind it.
    assert_eq!(
        edges(&dependencies),
        vec![
            (DepNode::Function(2), DepNode::Function(5)),
            (DepNode::Function(3), DepNode::Function(0)),
            (DepNode::Function(3), DepNode::Function(3)),
        ]
    );
    let mut stubs = dependencies.stub_fns.to_vec();
    stubs.sort();
    assert_eq!(stubs, vec![2, 3]);
    assert!(dependencies.unexpected_ops.entries().is_empty());
}

#[test]
fn missing_relocations_are_counted() {
    // call 0; i32.const 1; drop; end
    let complicated: &[u8] = &[0, 0x10, 0x00, 0x41, 0x01, 0x1a, 0x0b];
    // global.get 0; drop; end
    let reads: &[u8] = &[0, 0x23, 0x00, 0x1a, 0x0b];
    let module = module_with(&[complicated, reads, complicated]);
    let dependencies = dependencies_of(&module);
    assert!(edges(&dependencies).is_empty());
    let entries = dependencies.unexpected_ops.entries();
    assert_eq!(entries.len(), 2);
    assert_eq!(
        dependencies.unexpected_ops.get("I32Const"),
        Some(&(2usize, 2usize))
    );
    assert_eq!(
        dependencies.unexpected_ops.get("GlobalGet"),
        Some(&(1usize, 3usize))
    );
    assert_eq!(dependencies.unexpected_ops.get("Call"), None);
}

#[test]
fn functions_with_relocations_are_no_stubs() {
    let mut module = module_with(&[&[0, 0x10, 0x81, 0x80, 0x80, 0x80, 0x00, 0x0b]]);
    module.reloc_info.symbols = vec![func_symbol(0)];
    module.reloc_info.relocs.insert(
        0,
        vec![entry(RelocationType::FunctionIndexLeb, 2, 0)],
    );
    let dependencies = dependencies_of(&module);
    assert_eq!(
        edges(&dependencies),
        vec![(DepNode::Function(2), DepNode::Function(0))]
    );
    assert!(dependencies.stub_fns.to_vec().is_empty());
}

#[test]
fn data_depend_on_what_they_contain_and_overlap() {
    let mut module = module_with(&[]);
    module.reloc_info.symbols = vec![
        named_data("a"),
        named_data("b"),
        named_data("c"),
        func_symbol(1),
    ];
    module.reloc_info.data_symbols = vec![
        data_symbol(2, 100..150),
        data_symbol(0, 110..120),
        data_symbol(1, 140..160),
    ];
    module.reloc_info.relocs.insert(
        1,
        vec![
            entry(RelocationType::TableIndexI32, 12, 3),
            entry(RelocationType::MemoryAddrI32, 30, 1),
        ],
    );
    module.reloc_info.symbol_as_global.insert(9, 1);
    assert_eq!(
        edges(&dependencies_of(&module)),
        vec![
            (DepNode::DataSymbol(0), DepNode::Function(1)),
            (DepNode::DataSymbol(1), DepNode::DataSymbol(2)),
            (DepNode::DataSymbol(2), DepNode::DataSymbol(0)),
            (DepNode::DataSymbol(2), DepNode::DataSymbol(1)),
            (DepNode::Global(9), DepNode::DataSymbol(1)),
        ]
    );
}

#[test]
fn errors_are_reported_in_order() {
    let unreadable: &[u8] = &[0, 0xff, 0x0b];
    let mut module = module_with(&[&PADDED, unreadable]);
    module.reloc_info.symbols = vec![func_symbol(0), named_data("d")];
    module.reloc_info.relocs.insert(
        1,
        vec![entry(RelocationType::MemoryAddrI32, 0, 1)],
    );
    // No data: the relocation of the data section is in none.
    assert!(matches!(error_of(&module), DepError::Body { func: 3 }));
    module.reloc_info.relocs.insert(
        0,
        vec![
            entry(RelocationType::MemoryAddrLeb, 2, 0),
            entry(RelocationType::FunctionIndexLeb, 60, 0),
        ],
    );
    assert!(matches!(
        error_of(&module),
        DepError::Reference(RelocError::UnexpectedSymbol {
            symbol_index: 0,
            ..
        })
    ));
    module.reloc_info.relocs.insert(
        0,
        vec![
            entry(RelocationType::FunctionIndexLeb, 2, 0),
            entry(RelocationType::FunctionIndexLeb, 60, 0),
        ],
    );
    assert!(matches!(
        error_of(&module),
        DepError::Code(FuncRelocError::NoFunction { reloc: 1 })
    ));
    let (found, error) = iter_functions_with_relocs(&module);
    assert_eq!(found, vec![2]);
    assert_eq!(error, Some(FuncRelocError::NoFunction { reloc: 1 }));
    module.reloc_info.relocs.insert(0, vec![]);
    module.defined_funcs.pop();
    assert!(matches!(
        error_of(&module),
        DepError::Data(SweepError::NoSymbol { reloc: 0 })
    ));
    module.reloc_info.data_symbols = data_symbols(&[100..103]);
    assert!(matches!(
        error_of(&module),
        DepError::Data(SweepError::NotInside { reloc: 0 })
    ));
    module.reloc_info.data_symbols = data_symbols(&[100..104]);
    module.reloc_info.relocs.insert(
        1,
        vec![entry(RelocationType::SectionOffsetI32, 0, 1)],
    );
    assert!(matches!(
        error_of(&module),
        DepError::Reference(RelocError::Unhandled { .. })
    ));
}

#[test]
fn broken_modules_are_not_analyzable() {
    let mut module = module_with(&[&PADDED]);
    assert!(is_analyzable(&module));
    module.reloc_info.code_section_index = 2;
    assert!(!is_analyzable(&module));
    let mut module = module_with(&[&PADDED, &PADDED]);
    module.defined_funcs.swap(0, 1);
    assert!(!is_analyzable(&module));
    let mut module = module_with(&[&PADDED]);
    module.defined_funcs[0].body = 0..201;
    assert!(!is_analyzable(&module));
    let mut module = module_with(&[&PADDED]);
    module.reloc_info.relocs.insert(
        0,
        vec![entry(RelocationType::FunctionIndexLeb, 2, 0)],
    );
    assert!(!is_analyzable(&module));
}

#[test]
fn places_of_data_imply_dependencies() {
    let found = |ranges: &[Range<usize>], offsets: &[u32]| {
        let relocs: Vec<RelocationEntry> = offsets
            .iter()
            .map(|&offset| entry(RelocationType::MemoryAddrI32, offset, 0))
            .collect();
        find_data_dependencies(&data_symbols(ranges), &relocs, 100)
    };
    // The smallest piece of data that contains a relocation gets it.
    assert_eq!(
        found(&[100..150, 110..130, 115..125], &[2, 18, 26, 40]),
        (
            vec![
                DataDependency::Reloc {
                    symbol: 0,
                    reloc: 0
                },
                DataDependency::Containment {
                    container: 0,
                    inner: 1
                },
                DataDependency::Containment {
                    container: 1,
                    inner: 2
                },
                DataDependency::Reloc {
                    symbol: 2,
                    reloc: 1
                },
                DataDependency::Reloc {
                    symbol: 1,
                    reloc: 2
                },
                DataDependency::Reloc {
                    symbol: 0,
                    reloc: 3
                },
            ],
            None
        )
    );
    // Overlaps go both ways.
    assert_eq!(
        found(&[100..150, 100..120, 110..130], &[]),
        (
            vec![
                DataDependency::Containment {
                    container: 0,
                    inner: 1
                },
                DataDependency::DirectedOverlap {
                    from: 1,
                    to: 2,
                    back_to: 1,
                    container: Some(0)
                },
            ],
            None
        )
    );
    // What is over does not matter any more.
    assert_eq!(found(&[100..110, 110..120], &[]), (vec![], None));
    assert_eq!(
        found(&[100..110], &[3, 8]),
        (
            vec![DataDependency::Reloc {
                symbol: 0,
                reloc: 0
            }],
            Some(SweepError::NotInside { reloc: 1 })
        )
    );
    assert_eq!(
        found(&[], &[3]),
        (vec![], Some(SweepError::NoSymbol { reloc: 0 }))
    );
}

/// Whether the dependencies lead from one piece of data to another.
fn leads(deps: &[DataDependency], from: usize, to: usize) -> bool {
    let mut seen = vec![from];
    let mut i = 0;
    while i < seen.len() {
        let now = seen[i];
        i += 1;
        for dep in deps {
            let mut next = vec![];
            match *dep {
                DataDependency::Reloc { .. } => {}
                DataDependency::Containment { container, inner } => next.push((container, inner)),
                DataDependency::DirectedOverlap {
                    from,
                    to,
                    back_to,
                    container,
                } => {
                    next.push((from, to));
                    next.push((to, back_to));
                    if let Some(container) = container {
                        next.push((container, to));
                    }
                }
            }
            for (a, b) in next {
                if a == now && !seen.contains(&b) {
                    seen.push(b);
                }
            }
        }
    }
    seen.contains(&to)
}

#[test]
fn overlapping_data_are_connected() {
    let ranges = [0..50, 10..100, 20..60, 55..70, 65..120, 110..111];
    let symbols = data_symbols(&ranges);
    let (deps, error) = find_data_dependencies(&symbols, &[], 0);
    assert_eq!(error, None);
    for x in 0..ranges.len() {
        for y in x + 1..ranges.len() {
            if ranges[y].start < ranges[x].end {
                assert!(leads(&deps, x, y), "{x} {y}");
            }
        }
    }
    assert!(leads(&deps, 1, 0));
    assert!(leads(&deps, 4, 1));
    for x in 0..ranges.len() {
        for y in x + 1..ranges.len() {
            if ranges[y].start < ranges[x].end && ranges[x].end < ranges[y].end {
                assert!(leads(&deps, y, x), "{y} {x}");
            }
        }
    }
    // The third one overlaps the first one, though the second one contains it.
    let (deps, _) = find_data_dependencies(&data_symbols(&[0..50, 10..100, 20..60]), &[], 0);
    assert!(leads(&deps, 0, 2));
    assert!(leads(&deps, 1, 0));
    assert!(leads(&deps, 2, 0));
    // The third one contains the first one, which starts where it does.
    let (deps, _) = find_data_dependencies(&data_symbols(&[100..105, 100..112, 100..110]), &[], 0);
    assert!(leads(&deps, 1, 0));
    assert!(leads(&deps, 1, 2));
    assert!(leads(&deps, 2, 0));
    // What is small does not need what contains it.
    let (deps, _) = find_data_dependencies(&data_symbols(&[0..50, 10..100, 20..30]), &[], 0);
    assert!(leads(&deps, 0, 2));
    assert!(!leads(&deps, 2, 0));
    assert!(!leads(&deps, 2, 1));
}

#[test]
fn relocations_belong_to_the_smallest_data_that_contain_them() {
    let home = |ranges: &[Range<usize>], relocs: &[RelocationEntry]| {
        let (deps, error) = find_data_dependencies(&data_symbols(ranges), relocs, 0);
        let homes: Vec<(usize, usize)> = deps
            .iter()
            .filter_map(|dep| match *dep {
                DataDependency::Reloc { symbol, reloc } => Some((symbol, reloc)),
                _ => None,
            })
            .collect();
        (homes, error)
    };
    let at = |offset| entry(RelocationType::MemoryAddrI32, offset, 0);
    // The inner one overlaps the relocation, but does not contain it.
    assert_eq!(home(&[0..100, 10..20], &[at(18)]), (vec![(0, 0)], None));
    assert_eq!(home(&[0..100, 10..20], &[at(8)]), (vec![(0, 0)], None));
    assert_eq!(home(&[0..100, 1..10, 5..20], &[at(2)]), (vec![(1, 0)], None));
    assert_eq!(home(&[0..100, 10..20], &[at(16)]), (vec![(1, 0)], None));
    // The one that ends last is the smallest one.
    assert_eq!(home(&[0..100, 50..101], &[at(60)]), (vec![(1, 0)], None));
    // Of the same size, the last one counts.
    assert_eq!(home(&[0..8, 0..8, 1..9], &[at(0), at(2)]), (vec![(1, 0), (2, 1)], None));
    // A relocation may end before one in front of it.
    assert_eq!(
        home(
            &[0..100, 0..40, 0..8, 0..6, 6..50],
            &[entry(RelocationType::MemoryAddrI64, 0, 0), at(1)]
        ),
        (vec![(2, 0), (3, 1)], None)
    );
    assert_eq!(
        home(&[0..10, 12..20], &[at(9)]),
        (vec![], Some(SweepError::NotInside { reloc: 0 }))
    );
    assert_eq!(
        home(&[0..9, 12..20], &[at(9)]),
        (vec![], Some(SweepError::NotInside { reloc: 0 }))
    );
    assert_eq!(
        home(&[0..9, 13..20], &[at(9)]),
        (vec![], Some(SweepError::NoSymbol { reloc: 0 }))
    );
}

#[test]
fn names_of_instructions_are_cut_out() {
    assert_eq!(op_short_name("Call { function_index: 3 }"), "Call");
    assert_eq!(op_short_name("End"), "End");
    assert_eq!(op_short_name("a_1-b"), "a_1");
    assert_eq!(op_short_name(" x"), "");
    assert_eq!(op_short_name("\u{e9}t\u{e9} 1"), "\u{e9}t\u{e9}");
    assert_eq!(op_short_name(""), "");
}

fn op(text: &str) -> (String, Option<u32>) {
    (text.to_string(), None)
}

fn call(index: u32) -> (String, Option<u32>) {
    (
        format!("Call {{ function_index: {index} }}"),
        Some(index),
    )
}

#[test]
fn instructions_tell_stubs_apart() {
    let check = |ops: Vec<(String, Option<u32>)>, failed| {
        let mut unexpected = NameMap::new();
        let check = check_operators(&ops, failed, 8, &mut unexpected);
        let names: Vec<(String, (usize, usize))> = unexpected.entries().clone();
        (check, names)
    };
    let (found, names) = check(
        vec![op("LocalGet { local_index: 0 }"), call(4), call(5), op("Return"), op("End")],
        false,
    );
    assert!(matches!(found, StubCheck::Stub(targets) if targets == vec![4, 5]));
    assert!(names.is_empty());
    // Nothing is called.
    assert!(matches!(
        check(vec![op("End")], false).0,
        StubCheck::Other
    ));
    // Something else happens, but before anything that needs a relocation.
    assert!(matches!(
        check(vec![op("Nop"), call(4), op("End")], false).0,
        StubCheck::Other
    ));
    // Each of these needs a relocation by itself.
    for name in [
        "ReturnCall",
        "CallIndirect",
        "ReturnCallIndirect",
        "RefFunc",
        "GlobalGet",
        "GlobalSet",
        "TableGet",
        "TableSet",
        "TableSize",
        "TableGrow",
        "TableFill",
        "TableInit",
        "TableCopy",
        "MemoryInit",
        "DataDrop",
        "ElemDrop",
    ] {
        let (found, names) = check(vec![op(&format!("{name} {{ x: 1 }}"))], true);
        assert!(matches!(found, StubCheck::Other));
        assert_eq!(names, vec![(name.to_string(), (1, 8))]);
    }
    let (found, names) = check(vec![call(1), op("Nop"), op("Nop")], false);
    assert!(matches!(found, StubCheck::Other));
    assert_eq!(names, vec![("Nop".to_string(), (1, 8))]);
    assert!(matches!(
        check(vec![call(1)], true).0,
        StubCheck::Unreadable
    ));
}

#[test]
fn bodies_are_read() {
    let mut unexpected = NameMap::new();
    let mut check = |body: &[u8]| validate_no_reloc_stub(body, 7, 9, &mut unexpected);
    assert!(matches!(
        check(&[0, 0x10, 0x05, 0x0b]),
        StubCheck::Stub(targets) if targets == vec![5]
    ));
    // One group of two locals.
    assert!(matches!(
        check(&[1, 2, 0x7f, 0x20, 0x00, 0x10, 0x06, 0x0b]),
        StubCheck::Stub(targets) if targets == vec![6]
    ));
    assert!(matches!(check(&[0, 0x0b]), StubCheck::Other));
    assert!(matches!(check(&[]), StubCheck::Unreadable));
    assert!(matches!(check(&[0, 0xff]), StubCheck::Unreadable));
    // return_call 3
    assert!(matches!(check(&[0, 0x12, 0x03, 0x0b]), StubCheck::Other));
    assert_eq!(unexpected.get("ReturnCall"), Some(&(1usize, 9usize)));
}

#[test]
fn relocations_are_found_in_the_functions_that_contain_them() {
    // Some functions without relocations in between.
    let mut module = module_with(&[&PADDED, &PADDED, &PADDED, &PADDED, &PADDED, &PADDED]);
    module.reloc_info.symbols = vec![func_symbol(0)];
    module.reloc_info.relocs.insert(
        0,
        [1, 5, 21, 41, 45, 55]
            .iter()
            .map(|&offset| entry(RelocationType::FunctionIndexLeb, offset, 0))
            .collect(),
    );
    let (found, error) = iter_functions_with_relocs(&module);
    assert_eq!(found, vec![2, 2, 4, 6, 6, 7]);
    assert_eq!(error, None);
}
