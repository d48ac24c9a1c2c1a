//! What is known of symbols and relocations.
use crate::keyed::{KeyMap, KeySet};
use crate::read::{GlobalId, InputFuncId, InputOffset, SymbolIndex, TableId};
use std::ops::Range;
use vstd::prelude::*;

verus! {

/// The position of a section among all sections.
pub type SectionIndex = usize;

/// What kind of value a relocation writes, and how.
#[derive(Debug, PartialEq, Eq, Clone, Copy, Structural)]
pub enum RelocationType {
    /// A function index, as LEB128.
    FunctionIndexLeb,
    /// A table index of a function, as signed LEB128.
    TableIndexSleb,
    /// A table index of a function, as 32-bit integer.
    TableIndexI32,
    /// A memory address, as LEB128.
    MemoryAddrLeb,
    /// A memory address, as signed LEB128.
    MemoryAddrSleb,
    /// A memory address, as 32-bit integer.
    MemoryAddrI32,
    /// A type index, as LEB128.
    TypeIndexLeb,
    /// A global index, as LEB128.
    GlobalIndexLeb,
    /// An offset in the code section, as 32-bit integer.
    FunctionOffsetI32,
    /// An offset in a section, as 32-bit integer.
    SectionOffsetI32,
    /// A tag index, as LEB128.
    EventIndexLeb,
    /// A memory address relative to a base, as signed LEB128.
    MemoryAddrRelSleb,
    /// A table index relative to a base, as signed LEB128.
    TableIndexRelSleb,
    /// A global index, as 32-bit integer.
    GlobalIndexI32,
    /// A 64-bit memory address, as LEB128.
    MemoryAddrLeb64,
    /// A 64-bit memory address, as signed LEB128.
    MemoryAddrSleb64,
    /// A 64-bit memory address, as 64-bit integer.
    MemoryAddrI64,
    /// A 64-bit memory address relative to a base, as signed LEB128.
    MemoryAddrRelSleb64,
    /// A 64-bit table index of a function, as signed LEB128.
    TableIndexSleb64,
    /// A 64-bit table index of a function, as 64-bit integer.
    TableIndexI64,
    /// A table number, as LEB128.
    TableNumberLeb,
    /// An offset in thread-local memory, as signed LEB128.
    MemoryAddrTlsSleb,
    /// A 64-bit offset in the code section, as 64-bit integer.
    FunctionOffsetI64,
    /// A memory address relative to its place, as 32-bit integer.
    MemoryAddrLocrelI32,
    /// A 64-bit table index relative to a base, as signed LEB128.
    TableIndexRelSleb64,
    /// A 64-bit offset in thread-local memory, as signed LEB128.
    MemoryAddrTlsSleb64,
    /// A function index, as 32-bit integer.
    FunctionIndexI32,
}

/// A place in a section that is to be changed when what it refers to moves.
#[derive(Debug, PartialEq, Eq, Clone, Copy, Structural)]
pub struct RelocationEntry {
    /// What is written there.
    pub ty: RelocationType,
    /// The place, from the start of the section.
    pub offset: u32,
    /// The symbol that is referred to.
    pub index: u32,
    /// What is added to the value of the symbol.
    pub addend: i64,
}

/// The flags of a symbol.
pub type SymbolFlags = u32;

/// The flag of a symbol that yields to others of the same name.
pub const BINDING_WEAK: u32 = 0x1;

/// The flag of a symbol that is exported to the host.
pub const EXPORTED: u32 = 0x20;

/// The flag of a symbol that is kept even if it seems unused.
pub const NO_STRIP: u32 = 0x80;

/// Where a data symbol is defined.
#[derive(Debug, PartialEq, Eq, Clone, Copy, Structural)]
pub struct DefinedDataSymbol {
    /// The data segment.
    pub index: u32,
    /// The place in the segment.
    pub offset: u32,
    /// How many bytes the symbol has.
    pub size: u32,
}

/// A symbol.
#[derive(Debug)]
#[allow(inconsistent_fields)]
pub enum SymbolInfo {
    /// A function.
    Func {
        /// The flags.
        flags: SymbolFlags,
        /// The function.
        index: u32,
        /// The name, if there is one.
        name: Option<String>,
    },
    /// A piece of data.
    Data {
        /// The flags.
        flags: SymbolFlags,
        /// The name.
        name: String,
        /// Where it is, if it is defined here.
        symbol: Option<DefinedDataSymbol>,
    },
    /// A global.
    Global {
        /// The flags.
        flags: SymbolFlags,
        /// The global.
        index: u32,
        /// The name, if there is one.
        name: Option<String>,
    },
    /// A section.
    Section {
        /// The flags.
        flags: SymbolFlags,
        /// The section.
        section: u32,
    },
    /// A tag.
    Event {
        /// The flags.
        flags: SymbolFlags,
        /// The tag.
        index: u32,
        /// The name, if there is one.
        name: Option<String>,
    },
    /// A table.
    Table {
        /// The flags.
        flags: SymbolFlags,
        /// The table.
        index: u32,
        /// The name, if there is one.
        name: Option<String>,
    },
}

/// What the linker says of a data segment.
#[derive(Debug)]
pub struct Segment {
    /// The name.
    pub name: String,
    /// The alignment, as a power of two.
    pub alignment: u32,
    /// The flags.
    pub flags: u32,
}

/// A piece of data with its place in the input module.
#[derive(Debug, PartialEq, Eq)]
pub struct DataSymbol {
    /// The symbol.
    pub symbol_index: SymbolIndex,
    /// The place, from the start of the input module.
    pub range: Range<InputOffset>,
}

impl Clone for DataSymbol {
    fn clone(&self) -> (copy: Self)
        ensures
            copy == *self,
    {
        DataSymbol { symbol_index: self.symbol_index, range: self.range.start..self.range.end }
    }
}

/// What is known of symbols and relocations.
pub struct RelocInfo {
    /// Where the sections are.
    pub section_ranges: Vec<Range<InputOffset>>,
    /// What the linker says of the data segments.
    pub segments: Vec<Segment>,
    /// The code section.
    pub code_section_index: SectionIndex,
    /// The data section.
    pub data_section_index: SectionIndex,
    /// The pieces of data that have a symbol, by their start.
    pub data_symbols: Vec<DataSymbol>,
    /// The symbol table.
    pub symbols: Vec<SymbolInfo>,
    /// The relocations of each section, by their offset.
    pub relocs: KeyMap<SectionIndex, Vec<RelocationEntry>>,
    /// The table that indirect calls go through.
    pub indirect_table: TableId,
    /// The global that holds the stack pointer.
    pub stack_pointer: GlobalId,
    /// The functions in the indirect table that must stay visible.
    pub visible_indirects: KeySet<InputFuncId>,
    /// The functions whose place in the indirect table is used.
    pub referenced_indirects: KeySet<InputFuncId>,
    /// The data symbol whose address a global holds.
    pub symbol_as_global: KeyMap<GlobalId, SymbolIndex>,
    /// The globals that only mark a split program.
    pub split_marker_globals: KeySet<GlobalId>,
}

} // verus!
