//! Splitting programs.
use std::collections::BTreeMap;
use std::hash::{DefaultHasher, Hasher};
use wasm_split::dep_graph::{DepGraph, DepNode};
use wasm_split::keyed::{KeyMap, KeySet};
use wasm_split::names::NameSet;
use wasm_split::read::{
    DefinedFunc, Export, ExternalKind, Import, InputModule, Names, Options,
};
use wasm_split::reloc::{RelocInfo, SymbolInfo};
use wasm_split::split_point::points::{find_split_names, unmatched_exports};
use wasm_split::split_point::{
    compute_split_modules, get_split_points, get_split_points_by_module, trace_enabled,
    OutputModuleInfo, ReachabilityGraph, SplitError, SplitModuleIdentifier, SplitPoint,
    SplitProgramInfo,
};

const ID_A: &str = "0123456789abcdef0123456789abcdef";
const ID_B: &str = "ffffffffffffffffffffffffffffffff";

fn empty_module() -> InputModule {
    InputModule {
        raw: vec![1, 2, 3],
        options: Options {
            debug_assertions: false,
        },
        imports: vec![],
        exports: vec![],
        imported_funcs: vec![],
        imported_func_map: KeyMap::new(),
        imported_globals_num: 0,
        imported_tables_num: 0,
        imported_tags_num: 0,
        imported_memories_num: 0,
        defined_funcs: vec![],
        globals: vec![],
        elements: vec![],
        data_segments: vec![],
        start: None,
        names: Names {
            functions: KeyMap::new(),
        },
        reloc_info: RelocInfo::default(),
    }
}

fn import(module: &mut InputModule, from: &str, name: &str) -> usize {
    let id = module.imports.len();
    module.imports.push(Import {
        module: from.to_string(),
        name: name.to_string(),
        ty: ExternalKind::Func,
    });
    let func = module.imported_funcs.len();
    module.imported_funcs.push(id);
    module.imported_func_map.insert(id, func);
    func
}

fn export(module: &mut InputModule, name: &str, kind: ExternalKind, index: u32) {
    module.exports.push(Export {
        name: name.to_string(),
        kind,
        index,
    });
}

fn import_name(name: &str, id: &str) -> String {
    format!("__wasm_split_00{name}00_import_{id}")
}

fn export_name(name: &str, id: &str) -> String {
    format!("__wasm_split_00{name}00_export_{id}")
}

fn point(name: &str, import_func: usize, export_func: usize) -> SplitPoint {
    SplitPoint {
        module_name: name.to_string(),
        import: import_func,
        import_func,
        export: 0,
        export_func,
    }
}

#[test]
fn split_points_are_paired() {
    let mut module = empty_module();
    import(&mut module, "env", "log");
    import(&mut module, "env", &import_name("page", ID_A));
    import(&mut module, "env", &import_name("page", ID_B));
    export(
        &mut module,
        &export_name("page", ID_B),
        ExternalKind::Func,
        17,
    );
    export(&mut module, "memory", ExternalKind::Memory, 0);
    export(
        &mut module,
        &export_name("page", ID_A),
        ExternalKind::Func,
        18,
    );
    assert_eq!(
        get_split_points(&module).unwrap(),
        vec![
            SplitPoint {
                module_name: "page".to_string(),
                import: 1,
                import_func: 1,
                export: 2,
                export_func: 18,
            },
            SplitPoint {
                module_name: "page".to_string(),
                import: 2,
                import_func: 2,
                export: 0,
                export_func: 17,
            },
        ]
    );
    assert!(unmatched_exports(&find_split_names(&module)).is_empty());
}

#[test]
fn names_of_split_points_are_found() {
    let mut module = empty_module();
    let names = [
        import_name("a", ID_A),
        // The longest name counts.
        format!("{}00_import_{ID_B}", import_name("a", ID_A)),
        // The first start counts.
        format!("x__wasm_split_00__wasm_split_00b00_import_{ID_A}x"),
        import_name("", ID_A),
        // Not enough digits.
        import_name("a", &ID_A[1..]),
        // No capital letters.
        import_name("a", &ID_A.to_uppercase()),
        // No line feeds in names.
        import_name("a\nb", ID_A),
        import_name("a\rb", ID_A),
        export_name("a", ID_A),
        format!("__wasm_split_00a\n__wasm_split_00b00_import_{ID_A}"),
        import_name("\u{1f600}", ID_A),
    ];
    for name in &names {
        import(&mut module, "env", name);
    }
    let found: Vec<Option<(String, String)>> = find_split_names(&module).imports;
    let pair = |name: &str, id: &str| Some((name.to_string(), id.to_string()));
    assert_eq!(
        found,
        vec![
            pair("a", ID_A),
            pair(&format!("a00_import_{ID_A}"), ID_B),
            pair("__wasm_split_00b", ID_A),
            pair("", ID_A),
            None,
            None,
            None,
            pair("a\rb", ID_A),
            None,
            pair("b", ID_A),
            pair("\u{1f600}", ID_A),
        ]
    );
}

#[test]
fn the_last_of_equal_names_counts() {
    let mut module = empty_module();
    import(&mut module, "env", &import_name("a", ID_A));
    import(&mut module, "other", &import_name("a", ID_A));
    for index in [5, 6] {
        export(
            &mut module,
            &export_name("a", ID_A),
            ExternalKind::Func,
            index,
        );
    }
    let points = get_split_points(&module).unwrap();
    assert_eq!(points.len(), 1);
    assert_eq!((points[0].import, points[0].export), (1, 1));
    assert_eq!(points[0].export_func, 6);
}

#[test]
fn split_points_without_partner_are_refused() {
    let mut module = empty_module();
    import(&mut module, "env", &import_name("a", ID_A));
    export(
        &mut module,
        &export_name("a", ID_B),
        ExternalKind::Func,
        5,
    );
    assert_eq!(
        get_split_points(&module),
        Err(SplitError::NoExport { import: 0 })
    );
    assert_eq!(unmatched_exports(&find_split_names(&module)), vec![0]);
    export(
        &mut module,
        &export_name("a", ID_A),
        ExternalKind::Global,
        5,
    );
    assert_eq!(
        get_split_points(&module),
        Err(SplitError::ExpectedExportedFunction { export: 1 })
    );
    export(
        &mut module,
        &export_name("a", ID_A),
        ExternalKind::Func,
        5,
    );
    assert!(get_split_points(&module).is_ok());
    module.imported_func_map = KeyMap::new();
    assert_eq!(
        get_split_points(&module),
        Err(SplitError::ExpectedImportedFunction { import: 0 })
    );
}

#[test]
fn split_points_are_grouped() {
    let points = vec![point("b", 0, 10), point("a", 1, 11), point("b", 2, 12)];
    let groups = get_split_points_by_module(&points);
    let groups: BTreeMap<&str, Vec<usize>> = groups
        .iter()
        .map(|(name, points)| {
            (
                name.as_str(),
                points.iter().map(|point| point.export_func).collect(),
            )
        })
        .collect();
    assert_eq!(
        groups,
        BTreeMap::from([("a", vec![11]), ("b", vec![10, 12])])
    );
    assert!(get_split_points_by_module(&[]).is_empty());
}

fn chunk(names: &[&str]) -> SplitModuleIdentifier {
    let mut set = NameSet::new();
    for name in names {
        set.insert(name);
    }
    SplitModuleIdentifier::Chunk(set)
}

#[test]
fn modules_have_names() {
    let split = SplitModuleIdentifier::Split("page".to_string());
    assert_eq!(split.filename(3), "split_page");
    assert_eq!(split.loader_name(), "__wasm_split_load_page");
    assert_eq!(chunk(&["a", "b"]).filename(12), "chunk_12");
}

#[test]
fn modules_are_joined() {
    let mut id = SplitModuleIdentifier::Split("b".to_string());
    id.also_in(&SplitModuleIdentifier::Split("b".to_string()));
    assert_eq!(text_of(&id), "b");
    id.also_in(&SplitModuleIdentifier::Split("a".to_string()));
    assert_eq!(text_of(&id), "a+b");
    id.also_in(&chunk(&["c", "b"]));
    assert_eq!(text_of(&id), "a+b+c");
    id.also_in(&SplitModuleIdentifier::Main);
    assert_eq!(text_of(&id), "main");
    id.also_in(&SplitModuleIdentifier::Split("a".to_string()));
    assert_eq!(text_of(&id), "main");
}

fn text_of(id: &SplitModuleIdentifier) -> String {
    match id {
        SplitModuleIdentifier::Main => "main".to_string(),
        SplitModuleIdentifier::Split(name) => name.clone(),
        SplitModuleIdentifier::Chunk(names) => names.names().join("+"),
    }
}

fn graph_of(edges: &[(DepNode, &[DepNode])]) -> DepGraph {
    let mut graph = KeyMap::new();
    for (from, to) in edges {
        let mut set = KeySet::new();
        for node in *to {
            set.insert(*node);
        }
        graph.insert(*from, set);
    }
    graph
}

fn sorted(set: &KeySet<DepNode>) -> Vec<DepNode> {
    let mut nodes = set.to_vec();
    nodes.sort();
    nodes
}

fn contents(info: &SplitProgramInfo) -> Vec<(String, Vec<DepNode>, Vec<DepNode>, bool)> {
    info.output_modules
        .iter()
        .map(|(id, module)| {
            (
                text_of(id),
                sorted(&module.included_symbols),
                sorted(&module.used_shared_deps),
                module.is_empty,
            )
        })
        .collect()
}

use DepNode::{DataSymbol as D, Function as F, Global as G, Memory as M, Table as T};

/// A program with two declared modules.
///
/// Functions 0 and 1 are the imports of split points, which functions 10 and 11 implement. Function 2
/// is another import. The main module starts from functions 3, and from the exported global 5.
fn program() -> (InputModule, DepGraph, Vec<SplitPoint>) {
    let mut module = empty_module();
    import(&mut module, "env", &import_name("b", ID_A));
    import(&mut module, "env", &import_name("a", ID_A));
    import(&mut module, "env", "log");
    export(&mut module, "global", ExternalKind::Global, 5);
    export(
        &mut module,
        &export_name("b", ID_A),
        ExternalKind::Func,
        10,
    );
    export(
        &mut module,
        &export_name("a", ID_A),
        ExternalKind::Func,
        11,
    );
    module.start = Some(3);
    module.reloc_info.indirect_table = 4;
    let graph = graph_of(&[
        (F(3), &[F(0), F(1), F(4), D(6)]),
        (F(4), &[T(4)]),
        (F(10), &[F(12), F(13), F(4), D(7)]),
        (F(11), &[F(13), F(14), F(0), D(7)]),
        (F(13), &[F(15), F(2)]),
        (F(99), &[F(98)]),
    ]);
    let points = get_split_points(&module).unwrap();
    (module, graph, points)
}

#[test]
fn programs_are_split() {
    let (module, graph, points) = program();
    let info = compute_split_modules(&module, &graph, points, "1.0").unwrap();
    assert_eq!(
        contents(&info),
        vec![
            (
                "main".to_string(),
                vec![F(2), F(3), F(4), D(6), G(5), T(4), M(0)],
                vec![F(10), F(11)],
                false
            ),
            (
                "a".to_string(),
                vec![F(11), F(14)],
                vec![F(10), F(13), T(4), M(0)],
                false
            ),
            (
                "b".to_string(),
                vec![F(10), F(12)],
                vec![F(4), F(13), T(4), M(0)],
                false
            ),
            (
                "a+b".to_string(),
                vec![F(13), F(15), D(7)],
                vec![F(2), T(4), M(0)],
                false
            ),
        ]
    );
    assert_eq!(
        sorted(&info.shared_deps),
        vec![F(2), F(4), F(10), F(11), F(13), T(4), M(0)]
    );
    let mut exports = info.split_point_exports.to_vec();
    exports.sort();
    assert_eq!(exports, vec![10, 11]);
    assert_eq!(info.split_points.len(), 2);
    assert!(info.needs_shim_in_main.to_vec().is_empty());
}

#[test]
fn each_part_is_in_one_module() {
    let (module, graph, points) = program();
    let info = compute_split_modules(&module, &graph, points, "1.0").unwrap();
    let mut count = 0;
    for (index, (_, output)) in info.output_modules.iter().enumerate() {
        for node in output.included_symbols.to_vec() {
            assert_eq!(info.symbol_output_module.get(&node), Some(&index));
            count += 1;
        }
    }
    assert_eq!(info.symbol_output_module.keys().len(), count);
    // The imports of split points, and what nothing needs, are nowhere.
    for node in [F(0), F(1), F(98), F(99)] {
        assert_eq!(info.symbol_output_module.get(&node), None);
    }
}

#[test]
fn dependencies_are_available() {
    let (module, graph, points) = program();
    let redirect = |node: DepNode| match node {
        F(func) => points
            .iter()
            .find(|point| point.import_func == func)
            .map_or(node, |point| F(point.export_func)),
        _ => node,
    };
    let info = compute_split_modules(&module, &graph, points.clone(), "1.0").unwrap();
    for (index, (_, output)) in info.output_modules.iter().enumerate() {
        for node in output.included_symbols.to_vec() {
            let Some(needed) = graph.get(&node) else {
                continue;
            };
            for dep in needed.to_vec() {
                let dep = redirect(dep);
                let place = *info.symbol_output_module.get(&dep).unwrap();
                if place != index && !matches!(dep, D(_)) {
                    assert!(output.used_shared_deps.contains(&dep));
                }
            }
        }
        for dep in output.used_shared_deps.to_vec() {
            assert_ne!(info.symbol_output_module.get(&dep), Some(&index));
        }
    }
}

#[test]
fn users_of_casts_are_in_the_main_module() {
    let (mut module, _, _) = program();
    let cast = import(
        &mut module,
        "__wbindgen_placeholder__",
        "__wbindgen_describe_cast",
    );
    import(&mut module, "env", "__wbindgen_describe_cast");
    let graph = graph_of(&[
        (F(10), &[F(20), F(21)]),
        (F(20), &[F(cast), F(22)]),
        (F(22), &[F(23)]),
    ]);
    let points = get_split_points(&module).unwrap();
    let info = compute_split_modules(&module, &graph, points, "1.0").unwrap();
    let place = |node| {
        let index = *info.symbol_output_module.get(&node).unwrap();
        text_of(&info.output_modules[index].0)
    };
    assert_eq!(place(F(10)), "b");
    assert_eq!(place(F(21)), "b");
    for node in [F(20), F(22), F(23), F(cast)] {
        assert_eq!(place(node), "main");
    }
    assert_eq!(info.needs_shim_in_main.to_vec(), vec![20]);
}

#[test]
fn declared_modules_are_kept_if_they_are_empty() {
    let (module, _, mut points) = program();
    // Both modules do the same.
    points[1].export_func = points[0].export_func;
    let info = compute_split_modules(&module, &graph_of(&[]), points, "1.0").unwrap();
    let contents = contents(&info);
    let names: Vec<&str> = contents.iter().map(|entry| entry.0.as_str()).collect();
    assert_eq!(names, vec!["main", "a", "b", "a+b"]);
    assert_eq!(contents[1].3, true);
    assert_eq!(contents[2].3, true);
    assert_eq!(contents[1].1, vec![]);
    assert_eq!(contents[1].2, vec![]);
    assert_eq!(contents[3].1, vec![F(10)]);
}

#[test]
fn markers_are_no_roots() {
    let (mut module, _, points) = program();
    module.reloc_info.split_marker_globals.insert(5);
    module.reloc_info.visible_indirects.insert(30);
    module.imported_globals_num = 1;
    module.imported_tables_num = 1;
    module.imported_tags_num = 1;
    module.imported_memories_num = 2;
    let info = compute_split_modules(&module, &graph_of(&[]), points, "1.0").unwrap();
    assert_eq!(
        sorted(&info.output_modules[0].1.included_symbols),
        vec![
            F(2),
            F(3),
            F(30),
            G(0),
            T(0),
            DepNode::Tag(0),
            M(0),
            M(1)
        ]
    );
}

#[test]
fn programs_are_told_apart() {
    let (mut module, graph, points) = program();
    let name = |module: &InputModule, version: &str| {
        let info = compute_split_modules(module, &graph, points.clone(), version).unwrap();
        info.canary_export_name().to_string()
    };
    let mut hasher = DefaultHasher::new();
    hasher.write("1.0".as_bytes());
    hasher.write(&[1, 2, 3]);
    let first = name(&module, "1.0");
    assert_eq!(first, format!("__canary_{:x}", hasher.finish()));
    assert_ne!(name(&module, "1.1"), first);
    module.raw.push(4);
    assert_ne!(name(&module, "1.0"), first);
}

#[test]
fn contents_are_printed() {
    let mut module = empty_module();
    module.imported_funcs = vec![0];
    module.defined_funcs = vec![DefinedFunc { body: 4..19 }, DefinedFunc { body: 19..20 }];
    module.names.functions.insert(1, "a\tb".to_string());
    module.reloc_info.symbols = vec![SymbolInfo::Section {
        flags: 0,
        section: 2,
    }];
    let mut info = OutputModuleInfo::default();
    for node in [F(0), F(1), F(2), D(0), G(3), T(4), DepNode::Tag(5), M(6)] {
        info.included_symbols.insert(node);
    }
    let mut lines = info.print("page", &module);
    assert_eq!(lines[0], "SPLIT: ============== page");
    assert_eq!(
        lines.pop().unwrap(),
        "SPLIT: ============== page  : total size: 16"
    );
    let mut middle = lines.split_off(1);
    middle.sort();
    let flags = wasmparser::SymbolFlags::from_bits_retain(0);
    let mut expected = vec![
        "   func[0] <None> size=0".to_string(),
        "   func[1] <Some(\"a\\tb\")> size=15".to_string(),
        "   func[2] <None> size=1".to_string(),
        format!("   Section {{ flags: {flags:?}, section: 2 }}"),
        "   global[3]".to_string(),
        "   table[4]".to_string(),
        "   tag[5]".to_string(),
        "   memory[6]".to_string(),
    ];
    expected.sort();
    assert_eq!(middle, expected);
}

#[test]
fn reachable_parts_become_contents() {
    let mut reachable = KeySet::new();
    reachable.insert(F(3));
    let info = OutputModuleInfo::from(ReachabilityGraph { reachable });
    assert_eq!(sorted(&info.included_symbols), vec![F(3)]);
    assert!(info.used_shared_deps.to_vec().is_empty());
    assert!(!info.is_empty);
}

#[test]
fn traces_need_a_receiver() {
    assert!(trace_enabled(true, true));
    assert!(!trace_enabled(true, false));
    assert!(!trace_enabled(false, true));
}
