//! Splitting a WebAssembly program into separately loaded modules.
pub mod data_deps;
pub mod data_laws;
pub mod dep_graph;
pub mod dep_laws;
pub mod edge_laws;
pub mod fault_laws;
pub mod func_relocs;
pub mod graph_utils;
pub mod js;
pub mod js_laws;
pub mod keyed;
pub mod name_map;
pub mod names;
pub mod order;
pub mod place_laws;
pub mod read;
pub mod reloc;
pub mod sort;
pub mod split_point;
pub mod stub_laws;
pub mod stubs;
pub mod text;
pub mod text_laws;
pub mod util;
pub mod util_laws;
pub mod wasm;
