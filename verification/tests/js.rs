//! The script that links modules.
use std::collections::BTreeMap;
use wasm_split::dep_graph::DepNode;
use wasm_split::js::{link_module, EmitState, Snippets};
use wasm_split::keyed::{KeyMap, KeySet};
use wasm_split::names::NameSet;
use wasm_split::read::{InputModule, Names, Options};
use wasm_split::reloc::RelocInfo;
use wasm_split::split_point::{OutputModuleInfo, SplitModuleIdentifier, SplitProgramInfo};

fn module(debug_assertions: bool) -> InputModule {
    InputModule {
        raw: vec![],
        options: Options { debug_assertions },
        imports: vec![],
        exports: vec![],
        imported_funcs: vec![],
        imported_func_map: KeyMap::new(),
        imported_globals_num: 0,
        imported_tables_num: 0,
        imported_tags_num: 0,
        imported_memories_num: 0,
        defined_funcs: vec![],
        globals: vec![],
        elements: vec![],
        data_segments: vec![],
        start: None,
        names: Names {
            functions: KeyMap::new(),
        },
        reloc_info: RelocInfo::default(),
    }
}

fn snippets() -> Snippets {
    Snippets {
        split_wasm: "/* runtime */\n".to_string(),
        make_fetch: "/* fetch */\n".to_string(),
        make_fetch_debug: "/* checked fetch */\n".to_string(),
    }
}

fn chunk(names: &[&str]) -> SplitModuleIdentifier {
    let mut set = NameSet::new();
    for name in names {
        set.insert(name);
    }
    SplitModuleIdentifier::Chunk(set)
}

fn holding(nodes: &[DepNode]) -> OutputModuleInfo {
    let mut info = OutputModuleInfo::default();
    for node in nodes {
        info.included_symbols.insert(*node);
    }
    info
}

fn empty() -> OutputModuleInfo {
    OutputModuleInfo {
        is_empty: true,
        ..OutputModuleInfo::default()
    }
}

fn split(name: &str) -> SplitModuleIdentifier {
    SplitModuleIdentifier::Split(name.to_string())
}

fn program() -> SplitProgramInfo {
    let mut shared_deps = KeySet::new();
    for node in [
        DepNode::Function(1),
        DepNode::DataSymbol(2),
        DepNode::Memory(0),
        DepNode::Global(9),
    ] {
        shared_deps.insert(node);
    }
    SplitProgramInfo {
        output_modules: vec![
            (
                SplitModuleIdentifier::Main,
                holding(&[
                    DepNode::Function(1),
                    DepNode::DataSymbol(2),
                    DepNode::Memory(0),
                    DepNode::Table(3),
                ]),
            ),
            (split("a"), holding(&[DepNode::Function(4)])),
            (split("b"), empty()),
            (chunk(&["a", "b"]), holding(&[DepNode::Function(5)])),
            (chunk(&["a", "c"]), holding(&[DepNode::Function(6)])),
        ],
        split_points: vec![],
        split_point_exports: KeySet::new(),
        shared_deps,
        symbol_output_module: KeyMap::new(),
        canary_export_name: "__canary_12".to_string(),
        needs_shim_in_main: KeySet::new(),
    }
}

fn emitted(debug_assertions: bool) -> (String, BTreeMap<String, Vec<String>>) {
    let input = module(debug_assertions);
    let program = program();
    let mut names = KeyMap::new();
    names.insert(DepNode::Memory(0), "__mem0".to_string());
    let emit_state = EmitState {
        input_module: &input,
        names,
    };
    let writer = link_module("./main.js", &program, &emit_state, &snippets());
    let (script, prefetches) = writer.emit();
    let prefetches = prefetches
        .entries()
        .iter()
        .map(|(name, files)| (name.clone(), files.clone()))
        .collect();
    (script, prefetches)
}

#[test]
fn scripts_are_written() {
    let (script, _) = emitted(false);
    assert_eq!(
        script,
        r#"import { initSync } from "./main.js";
let sharedImports = undefined;
function getSharedImports() {
    if (sharedImports === undefined) {
        sharedImports = { __wasm_split: {  } };
        const mainExports = initSync(undefined, undefined);
        const { __mem0,  } = mainExports;
        Object.assign(sharedImports.__wasm_split, { __mem0,  });
    }
    return sharedImports;
}
/* runtime */
/* fetch */
/* a, b */
const __chunk_3 = makeLoad(new URL("./chunk_3.wasm", import.meta.url), []);
/* a, c */
const __chunk_4 = makeLoad(new URL("./chunk_4.wasm", import.meta.url), []);
export const __wasm_split_load_b = wrapAsyncCb(makeLoad(undefined, [__chunk_3]));
export const __wasm_split_load_a = wrapAsyncCb(makeLoad(new URL("./split_a.wasm", import.meta.url), [__chunk_3, __chunk_4]));
"#
    );
}

#[test]
fn checks_are_written_on_demand() {
    let (script, _) = emitted(true);
    assert!(script.contains("sharedImports = { __wasm_split: { __canary_12: ~0xdead, } };\n"));
    assert!(script.contains("/* runtime */\n/* checked fetch */\n"));
    assert!(!script.contains("/* fetch */"));
}

#[test]
fn files_are_listed_for_prefetching() {
    let (_, prefetches) = emitted(false);
    let list = |files: &[&str]| -> Vec<String> { files.iter().map(|f| f.to_string()).collect() };
    assert_eq!(
        prefetches,
        BTreeMap::from([
            ("a".to_string(), list(&["chunk_3", "chunk_4", "split_a"])),
            ("b".to_string(), list(&["chunk_3"])),
            ("c".to_string(), list(&["chunk_4"])),
        ])
    );
}
