//! What symbols and relocations look like in traces.
use crate::reloc::info::{DefinedDataSymbol, RelocInfo, RelocationEntry, SectionIndex, SymbolInfo};
use crate::text::{
    decimal, optional_text, print_optional, quote, quoted, signed, to_decimal, to_signed,
};
use crate::wasm::{
    addend_bits, flags_text, name_view, print_flags, print_relocation_type, read_addend_bits,
    type_text,
};
use vstd::prelude::*;
use vstd::string::*;

verus! {

/// How a symbol with an index and a name is printed.
pub open spec fn indexed_text(
    kind: Seq<char>,
    flags: u32,
    index: u32,
    name: Option<Seq<char>>,
) -> Seq<char> {
    kind + " { flags: "@ + flags_text(flags) + ", index: "@ + decimal(index as nat) + ", name: "@
        + optional_text(name) + " }"@
}

/// How the place of a data symbol is printed.
pub open spec fn place_text(place: Option<DefinedDataSymbol>) -> Seq<char> {
    match place {
        Some(place) => "Some(DefinedDataSymbol { index: "@ + decimal(place.index as nat)
            + ", offset: "@ + decimal(place.offset as nat) + ", size: "@ + decimal(
            place.size as nat,
        ) + " })"@,
        None => "None"@,
    }
}

/// How a symbol is printed.
pub open spec fn symbol_text(symbol: SymbolInfo) -> Seq<char> {
    match symbol {
        SymbolInfo::Func { flags, index, name } => indexed_text(
            "Func"@,
            flags,
            index,
            name_view(name),
        ),
        SymbolInfo::Data { flags, name, symbol } => "Data { flags: "@ + flags_text(flags)
            + ", name: "@ + quoted(name@) + ", symbol: "@ + place_text(symbol) + " }"@,
        SymbolInfo::Global { flags, index, name } => indexed_text(
            "Global"@,
            flags,
            index,
            name_view(name),
        ),
        SymbolInfo::Section { flags, section } => "Section { flags: "@ + flags_text(flags)
            + ", section: "@ + decimal(section as nat) + " }"@,
        SymbolInfo::Event { flags, index, name } => indexed_text(
            "Event"@,
            flags,
            index,
            name_view(name),
        ),
        SymbolInfo::Table { flags, index, name } => indexed_text(
            "Table"@,
            flags,
            index,
            name_view(name),
        ),
    }
}

/// Prints a symbol with an index and a name.
fn print_indexed(kind: &str, flags: u32, index: u32, name: &Option<String>) -> (text: String)
    ensures
        text@ == indexed_text(kind@, flags, index, name_view(*name)),
{
    let name: Option<&str> = match name {
        Some(name) => Some(name.as_str()),
        None => None,
    };
    let mut text = kind.to_owned();
    text.append(" { flags: ");
    text.append(print_flags(flags).as_str());
    text.append(", index: ");
    text.append(to_decimal(index as usize).as_str());
    text.append(", name: ");
    text.append(print_optional(name).as_str());
    text.append(" }");
    text
}

/// Prints the place of a data symbol.
fn print_place(place: &Option<DefinedDataSymbol>) -> (text: String)
    ensures
        text@ == place_text(*place),
{
    match place {
        Some(place) => {
            let mut text = "Some(DefinedDataSymbol { index: ".to_owned();
            text.append(to_decimal(place.index as usize).as_str());
            text.append(", offset: ");
            text.append(to_decimal(place.offset as usize).as_str());
            text.append(", size: ");
            text.append(to_decimal(place.size as usize).as_str());
            text.append(" })");
            text
        },
        None => "None".to_owned(),
    }
}

/// Prints a symbol.
pub fn print_symbol(symbol: &SymbolInfo) -> (text: String)
    ensures
        text@ == symbol_text(*symbol),
{
    match symbol {
        SymbolInfo::Func { flags, index, name } => print_indexed("Func", *flags, *index, name),
        SymbolInfo::Data { flags, name, symbol } => {
            let mut text = "Data { flags: ".to_owned();
            text.append(print_flags(*flags).as_str());
            text.append(", name: ");
            text.append(quote(name.as_str()).as_str());
            text.append(", symbol: ");
            text.append(print_place(symbol).as_str());
            text.append(" }");
            text
        },
        SymbolInfo::Global { flags, index, name } => print_indexed("Global", *flags, *index, name),
        SymbolInfo::Section { flags, section } => {
            let mut text = "Section { flags: ".to_owned();
            text.append(print_flags(*flags).as_str());
            text.append(", section: ");
            text.append(to_decimal(*section as usize).as_str());
            text.append(" }");
            text
        },
        SymbolInfo::Event { flags, index, name } => print_indexed("Event", *flags, *index, name),
        SymbolInfo::Table { flags, index, name } => print_indexed("Table", *flags, *index, name),
    }
}

/// How a relocation is printed.
pub open spec fn reloc_text(symbols: Seq<SymbolInfo>, reloc: RelocationEntry) -> Seq<char> {
    let symbol = if reloc.index < symbols.len() {
        symbol_text(symbols[reloc.index as int])
    } else {
        "<invalid reloc index>"@
    };
    let text = "  ["@ + decimal(reloc.offset as nat) + "] = "@ + type_text(reloc.ty.spec_code())
        + "("@ + symbol + ")"@;
    if addend_bits(reloc.ty.spec_code()) > 0 {
        text + " "@ + signed(reloc.addend as int)
    } else {
        text
    }
}

/// What is printed of symbols and relocations.
#[derive(Debug)]
pub struct RelocListing {
    /// The symbols.
    pub symbols: Vec<String>,
    /// The relocations of each section.
    pub sections: Vec<(SectionIndex, Vec<String>)>,
}

/// Whether the relocations of a section are printed.
pub open spec fn lists_relocs(
    info: &RelocInfo,
    section: SectionIndex,
    lines: Seq<String>,
) -> bool {
    &&& info.relocs@.contains_key(section)
    &&& lines.len() == info.relocs@[section]@.len()
    &&& forall|i: int|
        0 <= i < lines.len() ==> (#[trigger] lines[i])@ == reloc_text(
            info.symbols@,
            info.relocs@[section]@[i],
        )
}

/// Whether a section is among those that are printed.
pub open spec fn has_section(
    sections: Seq<(SectionIndex, Vec<String>)>,
    section: SectionIndex,
) -> bool {
    exists|i: int| 0 <= i < sections.len() && (#[trigger] sections[i]).0 == section
}

/// Whether `listing` is what is printed of symbols and relocations.
pub open spec fn lists(info: &RelocInfo, listing: RelocListing) -> bool {
    &&& listing.symbols@.len() == info.symbols@.len()
    &&& forall|i: int|
        0 <= i < listing.symbols@.len() ==> (#[trigger] listing.symbols@[i])@ == symbol_text(
            info.symbols@[i],
        )
    &&& forall|i: int|
        0 <= i < listing.sections@.len() ==> lists_relocs(
            info,
            (#[trigger] listing.sections@[i]).0,
            listing.sections@[i].1@,
        )
    &&& forall|section: SectionIndex| #[trigger]
        info.relocs@.contains_key(section) ==> has_section(listing.sections@, section)
    &&& forall|i: int, j: int|
        0 <= i < j < listing.sections@.len() ==> (#[trigger] listing.sections@[i]).0 != (
        #[trigger] listing.sections@[j]).0
}

impl RelocInfo {
    /// Prints a relocation.
    fn print_reloc(&self, reloc: &RelocationEntry) -> (text: String)
        ensures
            text@ == reloc_text(self.symbols@, *reloc),
    {
        let symbol = if (reloc.index as usize) < self.symbols.len() {
            print_symbol(&self.symbols[reloc.index as usize])
        } else {
            "<invalid reloc index>".to_owned()
        };
        let mut text = "  [".to_owned();
        text.append(to_decimal(reloc.offset as usize).as_str());
        text.append("] = ");
        text.append(print_relocation_type(reloc.ty.code()).as_str());
        text.append("(");
        text.append(symbol.as_str());
        text.append(")");
        if read_addend_bits(reloc.ty.code()) > 0 {
            text.append(" ");
            text.append(to_signed(reloc.addend).as_str());
        }
        text
    }

    /// Prints all symbols and relocations. The sections come in no particular order.
    pub fn print_relocs(&self) -> (listing: RelocListing)
        ensures
            lists(self, listing),
    {
        let mut symbols: Vec<String> = Vec::new();
        for i in 0..self.symbols.len()
            invariant
                symbols@.len() == i,
                forall|j: int|
                    0 <= j < i ==> (#[trigger] symbols@[j])@ == symbol_text(self.symbols@[j]),
        {
            symbols.push(print_symbol(&self.symbols[i]));
        }
        let keys = self.relocs.keys();
        let mut sections: Vec<(SectionIndex, Vec<String>)> = Vec::new();
        for k in 0..keys.len()
            invariant
                keys@.no_duplicates(),
                forall|section: SectionIndex| #[trigger]
                    keys@.contains(section) <==> self.relocs@.contains_key(section),
                sections@.len() == k,
                forall|j: int| 0 <= j < k ==> (#[trigger] sections@[j]).0 == keys@[j],
                forall|j: int|
                    0 <= j < k ==> lists_relocs(
                        self,
                        (#[trigger] sections@[j]).0,
                        sections@[j].1@,
                    ),
        {
            let section: SectionIndex = keys[k];
            assert(keys@.contains(section));
            let relocs = self.iter_section_relocs(section);
            let mut lines: Vec<String> = Vec::new();
            for i in 0..relocs.len()
                invariant
                    self.relocs@.contains_key(section),
                    relocs@ == self.relocs@[section]@,
                    lines@.len() == i,
                    forall|j: int|
                        0 <= j < i ==> (#[trigger] lines@[j])@ == reloc_text(
                            self.symbols@,
                            relocs@[j],
                        ),
            {
                lines.push(self.print_reloc(&relocs[i]));
            }
            sections.push((section, lines));
        }
        proof {
            assert forall|section: SectionIndex| #[trigger]
                self.relocs@.contains_key(section) implies has_section(sections@, section) by {
                assert(keys@.contains(section));
                let i = choose|i: int| 0 <= i < keys@.len() && keys@[i] == section;
                assert(sections@[i].0 == section);
            }
            assert forall|i: int, j: int| 0 <= i < j < sections@.len() implies (
            #[trigger] sections@[i]).0 != (#[trigger] sections@[j]).0 by {
                assert(keys@[i] != keys@[j]);
            }
        }
        RelocListing { symbols, sections }
    }
}

} // verus!
