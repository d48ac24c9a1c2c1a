//! What relocations refer to.
use crate::read::{GlobalId, InputFuncId, TableId, TagId};
use crate::reloc::encode::encoding_of;
use crate::reloc::info::{
    DefinedDataSymbol, RelocInfo, RelocationEntry, RelocationType, SymbolFlags, SymbolInfo,
};
use crate::wasm::{name_view, read_relocation_range, relocation_extent};
use std::ops::Range;
use vstd::prelude::*;

verus! {

/// Why symbols and relocations cannot be used.
#[derive(Debug)]
pub enum RelocError {
    /// A part of the module cannot be read.
    Read(wasmparser::Error),
    /// A relocation refers to a symbol of the wrong kind.
    UnexpectedSymbol {
        /// The type of the relocation.
        ty: RelocationType,
        /// The symbol.
        symbol_index: usize,
    },
    /// A relocation has a type that a module should not have.
    Unhandled {
        /// The type of the relocation.
        ty: RelocationType,
    },
    /// The value of a relocation is too large.
    ValueTooLarge,
    /// There is no linking section.
    NoLinkingSection,
    /// There is no symbol for the table that indirect calls go through.
    NoIndirectTable,
    /// There are two descriptions of the data segments.
    DuplicateSegments,
    /// There are two symbol tables.
    DuplicateSymbols,
    /// A data symbol is in a segment that does not exist.
    InvalidDataSegment {
        /// The symbol.
        symbol_index: usize,
    },
    /// A data symbol does not fit into its segment.
    InvalidDataSymbol {
        /// The symbol.
        symbol_index: usize,
    },
    /// The table that indirect calls go through has items that are not function indices.
    ExpectedFunctions,
    /// A relocation for a table index refers to something else than a function.
    InvalidTableIndex,
    /// A global that should hold an address does not.
    InvalidAddress {
        /// The global.
        global_index: GlobalId,
    },
}

impl RelocationType {
    /// The code of the type in the binary format.
    pub open spec fn spec_code(self) -> u8 {
        match self {
            RelocationType::FunctionIndexLeb => 0,
            RelocationType::TableIndexSleb => 1,
            RelocationType::TableIndexI32 => 2,
            RelocationType::MemoryAddrLeb => 3,
            RelocationType::MemoryAddrSleb => 4,
            RelocationType::MemoryAddrI32 => 5,
            RelocationType::TypeIndexLeb => 6,
            RelocationType::GlobalIndexLeb => 7,
            RelocationType::FunctionOffsetI32 => 8,
            RelocationType::SectionOffsetI32 => 9,
            RelocationType::EventIndexLeb => 10,
            RelocationType::MemoryAddrRelSleb => 11,
            RelocationType::TableIndexRelSleb => 12,
            RelocationType::GlobalIndexI32 => 13,
            RelocationType::MemoryAddrLeb64 => 14,
            RelocationType::MemoryAddrSleb64 => 15,
            RelocationType::MemoryAddrI64 => 16,
            RelocationType::MemoryAddrRelSleb64 => 17,
            RelocationType::TableIndexSleb64 => 18,
            RelocationType::TableIndexI64 => 19,
            RelocationType::TableNumberLeb => 20,
            RelocationType::MemoryAddrTlsSleb => 21,
            RelocationType::FunctionOffsetI64 => 22,
            RelocationType::MemoryAddrLocrelI32 => 23,
            RelocationType::TableIndexRelSleb64 => 24,
            RelocationType::MemoryAddrTlsSleb64 => 25,
            RelocationType::FunctionIndexI32 => 26,
        }
    }

    /// The code of the type in the binary format.
    pub fn code(self) -> (code: u8)
        ensures
            code == self.spec_code(),
    {
        match self {
            RelocationType::FunctionIndexLeb => 0,
            RelocationType::TableIndexSleb => 1,
            RelocationType::TableIndexI32 => 2,
            RelocationType::MemoryAddrLeb => 3,
            RelocationType::MemoryAddrSleb => 4,
            RelocationType::MemoryAddrI32 => 5,
            RelocationType::TypeIndexLeb => 6,
            RelocationType::GlobalIndexLeb => 7,
            RelocationType::FunctionOffsetI32 => 8,
            RelocationType::SectionOffsetI32 => 9,
            RelocationType::EventIndexLeb => 10,
            RelocationType::MemoryAddrRelSleb => 11,
            RelocationType::TableIndexRelSleb => 12,
            RelocationType::GlobalIndexI32 => 13,
            RelocationType::MemoryAddrLeb64 => 14,
            RelocationType::MemoryAddrSleb64 => 15,
            RelocationType::MemoryAddrI64 => 16,
            RelocationType::MemoryAddrRelSleb64 => 17,
            RelocationType::TableIndexSleb64 => 18,
            RelocationType::TableIndexI64 => 19,
            RelocationType::TableNumberLeb => 20,
            RelocationType::MemoryAddrTlsSleb => 21,
            RelocationType::FunctionOffsetI64 => 22,
            RelocationType::MemoryAddrLocrelI32 => 23,
            RelocationType::TableIndexRelSleb64 => 24,
            RelocationType::MemoryAddrTlsSleb64 => 25,
            RelocationType::FunctionIndexI32 => 26,
        }
    }

    /// The type with a code.
    pub fn from_code(code: u8) -> (ty: Self)
        requires
            code <= 26,
        ensures
            ty.spec_code() == code,
    {
        match code {
            0 => RelocationType::FunctionIndexLeb,
            1 => RelocationType::TableIndexSleb,
            2 => RelocationType::TableIndexI32,
            3 => RelocationType::MemoryAddrLeb,
            4 => RelocationType::MemoryAddrSleb,
            5 => RelocationType::MemoryAddrI32,
            6 => RelocationType::TypeIndexLeb,
            7 => RelocationType::GlobalIndexLeb,
            8 => RelocationType::FunctionOffsetI32,
            9 => RelocationType::SectionOffsetI32,
            10 => RelocationType::EventIndexLeb,
            11 => RelocationType::MemoryAddrRelSleb,
            12 => RelocationType::TableIndexRelSleb,
            13 => RelocationType::GlobalIndexI32,
            14 => RelocationType::MemoryAddrLeb64,
            15 => RelocationType::MemoryAddrSleb64,
            16 => RelocationType::MemoryAddrI64,
            17 => RelocationType::MemoryAddrRelSleb64,
            18 => RelocationType::TableIndexSleb64,
            19 => RelocationType::TableIndexI64,
            20 => RelocationType::TableNumberLeb,
            21 => RelocationType::MemoryAddrTlsSleb,
            22 => RelocationType::FunctionOffsetI64,
            23 => RelocationType::MemoryAddrLocrelI32,
            24 => RelocationType::TableIndexRelSleb64,
            25 => RelocationType::MemoryAddrTlsSleb64,
            _ => RelocationType::FunctionIndexI32,
        }
    }
}

/// How many bytes a relocation of a type changes.
pub open spec fn extent(ty: RelocationType) -> nat {
    relocation_extent(ty.spec_code())
}

/// A relocation changes as many bytes as its value takes.
pub proof fn lemma_extent(ty: RelocationType)
    ensures
        extent(ty) == encoding_of(ty).size(),
{
}

impl RelocationEntry {
    /// The bytes that the relocation changes, from the start of its section.
    pub fn relocation_range(&self) -> (range: Result<Range<usize>, RelocError>)
        ensures
            match range {
                Ok(range) => range.start == self.offset && range.end == self.offset + extent(
                    self.ty,
                ),
                Err(error) => error is Read && self.offset + extent(self.ty) > usize::MAX,
            },
    {
        match read_relocation_range(self.ty.code(), self.offset, self.index, self.addend) {
            Ok(range) => Ok(range),
            Err(error) => Err(RelocError::Read(error)),
        }
    }
}

/// A symbol that is not data, with the index of what it stands for.
pub struct SymbolDetails<'a, Idx> {
    /// The symbol.
    pub _symbol_index: usize,
    /// What it stands for.
    pub index: Idx,
    /// Its flags.
    pub _flags: SymbolFlags,
    /// Its name, if there is one.
    pub _name: Option<&'a str>,
}

/// A data symbol.
pub struct DataDetails<'a> {
    /// The symbol.
    pub symbol_index: usize,
    /// Its flags.
    pub _flags: SymbolFlags,
    /// Its name.
    pub _name: &'a str,
    /// Where it is, if it is defined here.
    pub definition: Option<DefinedDataSymbol>,
}

/// What a relocation refers to.
pub enum RelocDetails<'a> {
    /// A type.
    TypeIndex {
        /// The symbol's position.
        _symbol_idx: usize,
        /// The symbol.
        _symbol: &'a SymbolInfo,
    },
    /// The address of data.
    MemoryAddr(DataDetails<'a>),
    /// The place of a function in the table that indirect calls go through.
    TableIndex(SymbolDetails<'a, InputFuncId>),
    /// The same, relative to a base.
    RelTableIndex(SymbolDetails<'a, InputFuncId>),
    /// A function.
    FunctionIndex(SymbolDetails<'a, InputFuncId>),
    /// A table.
    TableNumber(SymbolDetails<'a, TableId>),
    /// A global.
    GlobalIndex(SymbolDetails<'a, GlobalId>),
    /// A tag.
    TagIndex(SymbolDetails<'a, TagId>),
}

/// What a relocation of a type refers to.
#[derive(Debug, PartialEq, Eq, Clone, Copy, Structural)]
pub enum TargetKind {
    /// The address of data.
    MemoryAddr,
    /// The place of a function in the table that indirect calls go through.
    TableIndex,
    /// The same, relative to a base.
    RelTableIndex,
    /// A function.
    FunctionIndex,
    /// A table.
    TableNumber,
    /// A global.
    GlobalIndex,
    /// A tag.
    TagIndex,
    /// A type.
    TypeIndex,
    /// Something that modules should not refer to.
    Unhandled,
}

/// What a relocation of a type refers to.
pub open spec fn target_kind(ty: RelocationType) -> TargetKind {
    match ty {
        RelocationType::MemoryAddrLeb
        | RelocationType::MemoryAddrSleb
        | RelocationType::MemoryAddrI32
        | RelocationType::MemoryAddrLeb64
        | RelocationType::MemoryAddrSleb64
        | RelocationType::MemoryAddrI64
        | RelocationType::MemoryAddrTlsSleb
        | RelocationType::MemoryAddrLocrelI32
        | RelocationType::MemoryAddrTlsSleb64
        | RelocationType::MemoryAddrRelSleb
        | RelocationType::MemoryAddrRelSleb64 => TargetKind::MemoryAddr,
        RelocationType::TableIndexSleb
        | RelocationType::TableIndexSleb64
        | RelocationType::TableIndexI32
        | RelocationType::TableIndexI64 => TargetKind::TableIndex,
        RelocationType::TableIndexRelSleb
        | RelocationType::TableIndexRelSleb64 => TargetKind::RelTableIndex,
        RelocationType::FunctionIndexLeb
        | RelocationType::FunctionIndexI32 => TargetKind::FunctionIndex,
        RelocationType::TableNumberLeb => TargetKind::TableNumber,
        RelocationType::GlobalIndexI32 | RelocationType::GlobalIndexLeb => TargetKind::GlobalIndex,
        RelocationType::EventIndexLeb => TargetKind::TagIndex,
        RelocationType::TypeIndexLeb => TargetKind::TypeIndex,
        RelocationType::SectionOffsetI32
        | RelocationType::FunctionOffsetI32
        | RelocationType::FunctionOffsetI64 => TargetKind::Unhandled,
    }
}

/// Whether a relocation of a type can refer to a symbol.
pub open spec fn can_expand(ty: RelocationType, symbol: SymbolInfo) -> bool {
    match target_kind(ty) {
        TargetKind::MemoryAddr => symbol is Data,
        TargetKind::TableIndex
        | TargetKind::RelTableIndex
        | TargetKind::FunctionIndex => symbol is Func,
        TargetKind::TableNumber => symbol is Table,
        TargetKind::GlobalIndex => symbol is Global,
        TargetKind::TagIndex => symbol is Event,
        TargetKind::TypeIndex => true,
        TargetKind::Unhandled => false,
    }
}

/// What a text, if there is one, says.
pub open spec fn text_view(text: Option<&str>) -> Option<Seq<char>> {
    match text {
        Some(text) => Some(text@),
        None => None,
    }
}

/// `details` are those of a symbol with the given flags, index and name.
pub open spec fn details_of(
    details: SymbolDetails<usize>,
    symbol_index: usize,
    flags: SymbolFlags,
    index: u32,
    name: Option<String>,
) -> bool {
    &&& details._symbol_index == symbol_index
    &&& details._flags == flags
    &&& details.index == index
    &&& text_view(details._name) == name_view(name)
}

/// `details` say what a relocation of a type refers to by a symbol.
pub open spec fn expands(
    ty: RelocationType,
    symbol: SymbolInfo,
    symbol_index: usize,
    details: RelocDetails,
) -> bool {
    match (target_kind(ty), symbol, details) {
        (
            TargetKind::MemoryAddr,
            SymbolInfo::Data { flags, name, symbol: place },
            RelocDetails::MemoryAddr(data),
        ) => {
            &&& data.symbol_index == symbol_index
            &&& data._flags == flags
            &&& data._name@ == name@
            &&& data.definition == place
        },
        (
            TargetKind::TableIndex,
            SymbolInfo::Func { flags, index, name },
            RelocDetails::TableIndex(d),
        ) => details_of(d, symbol_index, flags, index, name),
        (
            TargetKind::RelTableIndex,
            SymbolInfo::Func { flags, index, name },
            RelocDetails::RelTableIndex(d),
        ) => details_of(d, symbol_index, flags, index, name),
        (
            TargetKind::FunctionIndex,
            SymbolInfo::Func { flags, index, name },
            RelocDetails::FunctionIndex(d),
        ) => details_of(d, symbol_index, flags, index, name),
        (
            TargetKind::TableNumber,
            SymbolInfo::Table { flags, index, name },
            RelocDetails::TableNumber(d),
        ) => details_of(d, symbol_index, flags, index, name),
        (
            TargetKind::GlobalIndex,
            SymbolInfo::Global { flags, index, name },
            RelocDetails::GlobalIndex(d),
        ) => details_of(d, symbol_index, flags, index, name),
        (
            TargetKind::TagIndex,
            SymbolInfo::Event { flags, index, name },
            RelocDetails::TagIndex(d),
        ) => details_of(d, symbol_index, flags, index, name),
        (TargetKind::TypeIndex, _, RelocDetails::TypeIndex { _symbol_idx, _symbol }) => {
            _symbol_idx == symbol_index && *_symbol == symbol
        },
        _ => false,
    }
}

/// The error for a relocation that does not suit its symbol.
pub open spec fn expand_error(ty: RelocationType, symbol_index: usize) -> RelocError {
    if target_kind(ty) == TargetKind::Unhandled {
        RelocError::Unhandled { ty }
    } else {
        RelocError::UnexpectedSymbol { ty, symbol_index }
    }
}

/// Borrows a name.
fn borrow_name<'a>(name: &'a Option<String>) -> (text: Option<&'a str>)
    ensures
        text_view(text) == name_view(*name),
{
    match name {
        Some(name) => Some(name.as_str()),
        None => None,
    }
}

/// Collects what is known of a symbol.
fn details<'a>(
    symbol_index: usize,
    flags: SymbolFlags,
    index: u32,
    name: &'a Option<String>,
) -> (details: SymbolDetails<'a, usize>)
    ensures
        details_of(details, symbol_index, flags, index, *name),
{
    SymbolDetails {
        _symbol_index: symbol_index,
        index: index as usize,
        _flags: flags,
        _name: borrow_name(name),
    }
}

impl RelocInfo {
    /// Finds what a relocation refers to.
    pub fn expand_relocation(&self, relocation: &RelocationEntry) -> (expanded: Result<
        RelocDetails<'_>,
        RelocError,
    >)
        requires
            relocation.index < self.symbols@.len(),
        ensures
            match expanded {
                Ok(details) => expands(
                    relocation.ty,
                    self.symbols@[relocation.index as int],
                    relocation.index as usize,
                    details,
                ),
                Err(error) => !can_expand(
                    relocation.ty,
                    self.symbols@[relocation.index as int],
                ) && error == expand_error(relocation.ty, relocation.index as usize),
            },
    {
        let symbol_index: usize = relocation.index as usize;
        let symbol = &self.symbols[symbol_index];
        let ty = relocation.ty;
        match ty {
            RelocationType::MemoryAddrLeb
            | RelocationType::MemoryAddrSleb
            | RelocationType::MemoryAddrI32
            | RelocationType::MemoryAddrLeb64
            | RelocationType::MemoryAddrSleb64
            | RelocationType::MemoryAddrI64
            | RelocationType::MemoryAddrTlsSleb
            | RelocationType::MemoryAddrLocrelI32
            | RelocationType::MemoryAddrTlsSleb64
            | RelocationType::MemoryAddrRelSleb
            | RelocationType::MemoryAddrRelSleb64 => match symbol {
                SymbolInfo::Data { flags, name, symbol: place } => Ok(
                    RelocDetails::MemoryAddr(
                        DataDetails {
                            symbol_index,
                            _flags: *flags,
                            _name: name.as_str(),
                            definition: *place,
                        },
                    ),
                ),
                _ => Err(RelocError::UnexpectedSymbol { ty, symbol_index }),
            },
            RelocationType::TableIndexSleb
            | RelocationType::TableIndexSleb64
            | RelocationType::TableIndexI32
            | RelocationType::TableIndexI64 => match symbol {
                SymbolInfo::Func { flags, index, name } => Ok(
                    RelocDetails::TableIndex(details(symbol_index, *flags, *index, name)),
                ),
                _ => Err(RelocError::UnexpectedSymbol { ty, symbol_index }),
            },
            RelocationType::TableIndexRelSleb | RelocationType::TableIndexRelSleb64 => match symbol {
                SymbolInfo::Func { flags, index, name } => Ok(
                    RelocDetails::RelTableIndex(details(symbol_index, *flags, *index, name)),
                ),
                _ => Err(RelocError::UnexpectedSymbol { ty, symbol_index }),
            },
            RelocationType::FunctionIndexLeb | RelocationType::FunctionIndexI32 => match symbol {
                SymbolInfo::Func { flags, index, name } => Ok(
                    RelocDetails::FunctionIndex(details(symbol_index, *flags, *index, name)),
                ),
                _ => Err(RelocError::UnexpectedSymbol { ty, symbol_index }),
            },
            RelocationType::TableNumberLeb => match symbol {
                SymbolInfo::Table { flags, index, name } => Ok(
                    RelocDetails::TableNumber(details(symbol_index, *flags, *index, name)),
                ),
                _ => Err(RelocError::UnexpectedSymbol { ty, symbol_index }),
            },
            RelocationType::GlobalIndexI32 | RelocationType::GlobalIndexLeb => match symbol {
                SymbolInfo::Global { flags, index, name } => Ok(
                    RelocDetails::GlobalIndex(details(symbol_index, *flags, *index, name)),
                ),
                _ => Err(RelocError::UnexpectedSymbol { ty, symbol_index }),
            },
            RelocationType::EventIndexLeb => match symbol {
                SymbolInfo::Event { flags, index, name } => Ok(
                    RelocDetails::TagIndex(details(symbol_index, *flags, *index, name)),
                ),
                _ => Err(RelocError::UnexpectedSymbol { ty, symbol_index }),
            },
            RelocationType::TypeIndexLeb => Ok(
                RelocDetails::TypeIndex { _symbol_idx: symbol_index, _symbol: symbol },
            ),
            RelocationType::SectionOffsetI32
            | RelocationType::FunctionOffsetI32
            | RelocationType::FunctionOffsetI64 => Err(RelocError::Unhandled { ty }),
        }
    }
}

} // verus!
