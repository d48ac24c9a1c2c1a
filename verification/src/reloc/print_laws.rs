//! What traces say of each symbol and each relocation.
use crate::reloc::info::{RelocInfo, RelocationEntry, RelocationType, SymbolInfo};
use crate::reloc::print::{has_section, lists, lists_relocs, reloc_text, symbol_text, RelocListing};
use crate::text::{decimal, quoted, signed};
use crate::wasm::{flags_text, type_text};
use vstd::prelude::*;

verus! {

/// What is said of a name that may be missing.
pub open spec fn says_name(name: Option<String>) -> Seq<char> {
    match name {
        Some(name) => "Some("@ + quoted(name@) + ")"@,
        None => "None"@,
    }
}

/// Whether a text is what is said of a symbol: its kind, flags, and what it stands for.
pub open spec fn says_symbol(symbol: SymbolInfo, text: Seq<char>) -> bool {
    match symbol {
        SymbolInfo::Func { flags, index, name } => text == "Func"@ + " { flags: "@ + flags_text(
            flags,
        ) + ", index: "@ + decimal(index as nat) + ", name: "@ + says_name(name) + " }"@,
        SymbolInfo::Global { flags, index, name } => text == "Global"@ + " { flags: "@ + flags_text(
            flags,
        ) + ", index: "@ + decimal(index as nat) + ", name: "@ + says_name(name) + " }"@,
        SymbolInfo::Event { flags, index, name } => text == "Event"@ + " { flags: "@ + flags_text(
            flags,
        ) + ", index: "@ + decimal(index as nat) + ", name: "@ + says_name(name) + " }"@,
        SymbolInfo::Table { flags, index, name } => text == "Table"@ + " { flags: "@ + flags_text(
            flags,
        ) + ", index: "@ + decimal(index as nat) + ", name: "@ + says_name(name) + " }"@,
        SymbolInfo::Section { flags, section } => text == "Section { flags: "@ + flags_text(flags)
            + ", section: "@ + decimal(section as nat) + " }"@,
        SymbolInfo::Data { flags, name, symbol } => text == "Data { flags: "@ + flags_text(flags)
            + ", name: "@ + quoted(name@) + ", symbol: "@ + (match symbol {
            Some(place) => "Some(DefinedDataSymbol { index: "@ + decimal(place.index as nat)
                + ", offset: "@ + decimal(place.offset as nat) + ", size: "@ + decimal(
                place.size as nat,
            ) + " })"@,
            None => "None"@,
        }) + " }"@,
    }
}

/// What is said of symbols.
pub(crate) proof fn lemma_says_symbol(symbol: SymbolInfo)
    ensures
        says_symbol(symbol, symbol_text(symbol)),
{
}

/// Whether relocations of a type have an addend.
pub open spec fn has_addend(ty: RelocationType) -> bool {
    match ty {
        RelocationType::MemoryAddrLeb
        | RelocationType::MemoryAddrSleb
        | RelocationType::MemoryAddrI32
        | RelocationType::FunctionOffsetI32
        | RelocationType::SectionOffsetI32
        | RelocationType::MemoryAddrRelSleb
        | RelocationType::MemoryAddrTlsSleb
        | RelocationType::MemoryAddrLocrelI32
        | RelocationType::MemoryAddrLeb64
        | RelocationType::MemoryAddrSleb64
        | RelocationType::MemoryAddrI64
        | RelocationType::MemoryAddrRelSleb64
        | RelocationType::FunctionOffsetI64
        | RelocationType::MemoryAddrTlsSleb64 => true,
        _ => false,
    }
}

/// Whether a text is what is said of a relocation: its offset, its type, the symbol that it refers
/// to, and the addend if there is one.
pub open spec fn says_reloc(
    symbols: Seq<SymbolInfo>,
    relocation: RelocationEntry,
    text: Seq<char>,
) -> bool {
    exists|symbol: Seq<char>, addend: Seq<char>|
        {
            &&& text == #[trigger] ("  ["@ + decimal(relocation.offset as nat) + "] = "@
                + type_text(relocation.ty.spec_code()) + "("@ + symbol + ")"@ + addend)
            &&& if relocation.index < symbols.len() {
                says_symbol(symbols[relocation.index as int], symbol)
            } else {
                symbol == "<invalid reloc index>"@
            }
            &&& addend == if has_addend(relocation.ty) {
                " "@ + signed(relocation.addend as int)
            } else {
                Seq::empty()
            }
        }
}

/// Every symbol is listed, in order, and every relocation of every section.
pub proof fn lemma_all_listed(
    info: &RelocInfo,
    listing: RelocListing,
    k: int,
    section: usize,
    i: int,
)
    requires
        lists(info, listing),
    ensures
        listing.symbols@.len() == info.symbols@.len(),
        0 <= k < info.symbols@.len() ==> says_symbol(info.symbols@[k], listing.symbols@[k]@),
        info.relocs@.contains_key(section) ==> exists|s: int|
            0 <= s < listing.sections@.len() && (#[trigger] listing.sections@[s]).0 == section
                && listing.sections@[s].1@.len() == info.relocs@[section]@.len() && (0 <= i
                < info.relocs@[section]@.len() ==> says_reloc(
                info.symbols@,
                info.relocs@[section]@[i],
                listing.sections@[s].1@[i]@,
            )),
        0 <= i < listing.sections@.len() ==> info.relocs@.contains_key(listing.sections@[i].0),
{
    if 0 <= k < info.symbols@.len() {
        lemma_says_symbol(info.symbols@[k]);
    }
    if info.relocs@.contains_key(section) {
        assert(has_section(listing.sections@, section));
        let s = choose|s: int|
            0 <= s < listing.sections@.len() && (#[trigger] listing.sections@[s]).0 == section;
        let lines = listing.sections@[s].1@;
        assert(lists_relocs(info, section, lines));
        if 0 <= i < info.relocs@[section]@.len() {
            let relocation = info.relocs@[section]@[i];
            assert(lines[i]@ == reloc_text(info.symbols@, relocation));
            lemma_says_reloc(info.symbols@, relocation);
        }
    }
}

/// What is said of relocations.
proof fn lemma_says_reloc(symbols: Seq<SymbolInfo>, relocation: RelocationEntry)
    ensures
        says_reloc(symbols, relocation, reloc_text(symbols, relocation)),
{
    let symbol = if relocation.index < symbols.len() {
        lemma_says_symbol(symbols[relocation.index as int]);
        symbol_text(symbols[relocation.index as int])
    } else {
        "<invalid reloc index>"@
    };
    let addend = if has_addend(relocation.ty) {
        " "@ + signed(relocation.addend as int)
    } else {
        Seq::empty()
    };
    assert(reloc_text(symbols, relocation) =~= "  ["@ + decimal(relocation.offset as nat) + "] = "@
        + type_text(relocation.ty.spec_code()) + "("@ + symbol + ")"@ + addend);
}

} // verus!
