//! The parts of an input module.
use crate::dep_graph::DepNode;
use crate::keyed::KeyMap;
use crate::reloc::RelocInfo;
use std::ops::Range;
use vstd::prelude::*;

verus! {

/// The position of an import among all imports.
pub type ImportId = usize;

/// The position of an export among all exports.
pub type ExportId = usize;

/// The index of a function, imported ones first.
pub type InputFuncId = usize;

/// The index of a global, imported ones first.
pub type GlobalId = usize;

/// The index of a table, imported ones first.
pub type TableId = usize;

/// The index of a tag, imported ones first.
pub type TagId = usize;

/// The index of a memory, imported ones first.
pub type MemoryId = usize;

/// The position of a symbol in the symbol table.
pub type SymbolIndex = usize;

/// A position in the bytes of the input module.
pub type InputOffset = usize;

/// The kind of a thing that can be imported or exported.
#[derive(Debug, PartialEq, Eq, Clone, Copy, Structural)]
pub enum ExternalKind {
    /// A function.
    Func,
    /// A function with exactly the given type.
    FuncExact,
    /// A table.
    Table,
    /// A memory.
    Memory,
    /// A global.
    Global,
    /// A tag.
    Tag,
}

/// An import.
#[derive(Debug)]
pub struct Import {
    /// The name of the module that it comes from.
    pub module: String,
    /// The name under which that module exports it.
    pub name: String,
    /// What is imported.
    pub ty: ExternalKind,
}

/// An export.
#[derive(Debug)]
pub struct Export {
    /// The name under which it is exported.
    pub name: String,
    /// What is exported.
    pub kind: ExternalKind,
    /// The index of what is exported.
    pub index: u32,
}

/// A function that the module defines.
#[derive(Debug)]
pub struct DefinedFunc {
    /// Where the bytes of the function's body are, with the declarations of the locals.
    pub body: Range<InputOffset>,
}

/// The type of a global's value, as far as it matters here.
#[derive(Debug, PartialEq, Eq, Clone, Copy, Structural)]
pub enum ValType {
    /// A 32-bit integer.
    I32,
    /// A 64-bit integer.
    I64,
    /// Anything else.
    Other,
}

/// A global.
#[derive(Debug)]
pub struct Global {
    /// The type of the value.
    pub content_type: ValType,
    /// Whether the value can change.
    pub mutable: bool,
    /// Whether threads share the value.
    pub shared: bool,
    /// Where the bytes of the initial value's expression are.
    pub init_expr: Range<InputOffset>,
}

/// When the items of an element segment are put into a table.
#[derive(Debug, PartialEq, Eq, Clone, Copy, Structural)]
pub enum ElementKind {
    /// On demand.
    Passive,
    /// At the start.
    Active {
        /// The table, or none for the first one.
        table_index: Option<u32>,
    },
    /// Never.
    Declared,
}

/// The items of an element segment.
#[derive(Debug)]
pub enum ElementItems {
    /// Function indices: where the bytes of the list are, with its length in front.
    Functions(Range<InputOffset>),
    /// Expressions.
    Expressions,
}

/// An element segment.
#[derive(Debug)]
pub struct Element {
    /// When the items are put into a table.
    pub kind: ElementKind,
    /// The items.
    pub items: ElementItems,
}

/// A data segment.
#[derive(Debug)]
pub struct Data {
    /// How many bytes of data it holds.
    pub data_len: usize,
    /// Where the segment is; the data are at the end.
    pub range: Range<InputOffset>,
}

/// The names that the module gives to its parts.
pub struct Names {
    /// The names of functions.
    pub functions: KeyMap<InputFuncId, String>,
}

/// What the user asked for.
#[derive(Debug, PartialEq, Eq, Clone, Copy, Structural)]
pub struct Options {
    /// Whether the output checks at run time that it is used as intended.
    pub debug_assertions: bool,
}

/// The module that is to be split.
pub struct InputModule {
    /// All bytes.
    pub raw: Vec<u8>,
    /// What the user asked for.
    pub options: Options,
    /// The imports.
    pub imports: Vec<Import>,
    /// The exports.
    pub exports: Vec<Export>,
    /// The imports that are functions.
    pub imported_funcs: Vec<ImportId>,
    /// The function index of each import that is a function.
    pub imported_func_map: KeyMap<ImportId, InputFuncId>,
    /// How many globals are imported.
    pub imported_globals_num: usize,
    /// How many tables are imported.
    pub imported_tables_num: usize,
    /// How many tags are imported.
    pub imported_tags_num: usize,
    /// How many memories are imported.
    pub imported_memories_num: usize,
    /// The functions that the module defines.
    pub defined_funcs: Vec<DefinedFunc>,
    /// The globals.
    pub globals: Vec<Global>,
    /// The element segments.
    pub elements: Vec<Element>,
    /// The data segments.
    pub data_segments: Vec<Data>,
    /// The function that runs at the start.
    pub start: Option<InputFuncId>,
    /// The names of the parts.
    pub names: Names,
    /// What is known of symbols and relocations.
    pub reloc_info: RelocInfo,
}

impl InputModule {
    /// The memory that the program uses.
    pub fn main_memory(&self) -> (node: DepNode)
        ensures
            node == DepNode::Memory(0),
    {
        DepNode::Memory(0)
    }

    /// The table that indirect calls go through.
    pub fn indirect_function_table(&self) -> (node: DepNode)
        ensures
            node == DepNode::Table(self.reloc_info.indirect_table),
    {
        DepNode::Table(self.reloc_info.indirect_table)
    }
}

} // verus!
