//! Symbols and relocations.
pub mod apply;
pub mod apply_laws;
pub mod encode;
pub mod expand;
pub mod info;
pub mod laws;
pub mod link_laws;
pub mod parse;
pub mod print;
pub mod print_laws;
pub mod symbol_laws;
pub mod symbols;
pub mod value_laws;
pub mod visit_laws;

pub use crate::reloc::apply::RelocTarget;
pub use crate::reloc::expand::{DataDetails, RelocDetails, RelocError, SymbolDetails};
pub use crate::reloc::info::{
    DataSymbol, DefinedDataSymbol, RelocInfo, RelocationEntry, RelocationType, SectionIndex,
    Segment, SymbolFlags, SymbolInfo, BINDING_WEAK, EXPORTED, NO_STRIP,
};
pub use crate::reloc::parse::RelocInfoParser;
