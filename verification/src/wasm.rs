//! Reading the parts of a module that the reader of the binary format understands.
use std::ops::Range;
use vstd::prelude::*;
use wasmparser::{
    BinaryReader, ConstExpr, FunctionBody, Linking, LinkingSectionReader, Operator, RelocAddendKind,
    RelocSectionReader, RelocationType, SectionLimited, SegmentMap, SymbolFlags, SymbolInfo,
    SymbolInfoMap,
};

verus! {

/// An error of the reader of the binary format.
#[verifier::external_type_specification]
#[verifier::external_body]
pub struct ExError(wasmparser::Error);

/// Whether there is room for any length that data can declare behind every position in the data. The
/// reader of linking sections adds the two before it compares them with the size of the data.
pub open spec fn has_room(data: Seq<u8>) -> bool {
    data.len() + u32::MAX <= usize::MAX
}

/// A subsection of the linking section: its number, and where it is.
pub type RawSubsection = (u8, Range<usize>);

/// The number of the subsection that describes data segments.
pub const SEGMENT_INFO: u8 = 5;

/// The number of the subsection that holds the symbol table.
pub const SYMBOL_TABLE: u8 = 8;

/// What subsections say.
pub open spec fn subsection_views(parts: Seq<RawSubsection>) -> Seq<(u8, usize, usize)> {
    Seq::new(parts.len(), |i: int| (parts[i].0, parts[i].1.start, parts[i].1.end))
}

/// The subsections of a linking section at `offset`, up to the first that cannot be read, and
/// whether there is one that cannot be read.
pub uninterp spec fn linking_subsections(data: Seq<u8>, offset: usize) -> (
    Seq<(u8, usize, usize)>,
    bool,
);

/// Reads the subsections of a linking section with `wasmparser::LinkingSectionReader::new` and
/// `subsections`.
///
/// What is found is named, not described. Every subsection is inside the section.
#[verifier::external_body]
pub(crate) fn read_linking(data: &[u8], offset: usize) -> (read: (
    Vec<RawSubsection>,
    Option<wasmparser::Error>,
))
    requires
        offset + data@.len() <= usize::MAX,
        has_room(data@),
    ensures
        subsection_views(read.0@) == linking_subsections(data@, offset).0,
        read.1 is Some == linking_subsections(data@, offset).1,
        forall|i: int|
            0 <= i < read.0@.len() ==> offset <= (#[trigger] read.0@[i]).1.start
                <= read.0@[i].1.end <= offset + data@.len(),
{
    let mut parts = Vec::new();
    let reader = LinkingSectionReader::new(BinaryReader::new(data, offset));
    let error = reader.and_then(|reader| reader.subsections().try_for_each(|part| {
        parts.push(match part? {
            Linking::SegmentInfo(map) => (SEGMENT_INFO, map.range()),
            Linking::InitFuncs(map) => (6, map.range()),
            Linking::ComdatInfo(map) => (7, map.range()),
            Linking::SymbolTable(map) => (SYMBOL_TABLE, map.range()),
            Linking::Unknown { ty, range, .. } => (ty, range),
        });
        Ok(())
    })).err();
    (parts, error)
}

/// A segment description: its name, alignment and flags.
pub type RawSegment = (String, u32, u32);

/// What segment descriptions say.
pub open spec fn segment_views(segments: Seq<RawSegment>) -> Seq<(Seq<char>, u32, u32)> {
    Seq::new(segments.len(), |i: int| (segments[i].0@, segments[i].1, segments[i].2))
}

/// The segment descriptions in the bytes of a subsection, if they can be read.
pub uninterp spec fn segment_table(bytes: Seq<u8>) -> Option<Seq<(Seq<char>, u32, u32)>>;

/// Reads segment descriptions with `wasmparser::SegmentMap::new`.
///
/// What is found is named, not described.
#[verifier::external_body]
pub(crate) fn read_segments(bytes: &[u8], offset: usize) -> (segments: Result<
    Vec<RawSegment>,
    wasmparser::Error,
>)
    requires
        offset + bytes@.len() <= usize::MAX,
        has_room(bytes@),
    ensures
        match segments {
            Ok(list) => segment_table(bytes@) == Some(segment_views(list@)),
            Err(_) => segment_table(bytes@) is None,
        },
{
    let segments = SegmentMap::new(BinaryReader::new(bytes, offset))?;
    segments.into_iter().map(|segment| {
        let segment = segment?;
        Ok((String::from(segment.name), segment.alignment, segment.flags.bits()))
    }).collect()
}

/// A symbol as the symbol table has it: its kind, flags, index, name and place.
pub type RawSymbol = (u8, u32, u32, Option<String>, Option<(u32, u32, u32)>);

/// What a name says.
pub open spec fn name_view(name: Option<String>) -> Option<Seq<char>> {
    match name {
        Some(name) => Some(name@),
        None => None,
    }
}

/// What symbols say.
pub open spec fn symbol_views(symbols: Seq<RawSymbol>) -> Seq<
    (u8, u32, u32, Option<Seq<char>>, Option<(u32, u32, u32)>),
> {
    Seq::new(
        symbols.len(),
        |i: int|
            (symbols[i].0, symbols[i].1, symbols[i].2, name_view(symbols[i].3), symbols[i].4),
    )
}

/// The symbols in the bytes of a subsection, if they can be read.
pub uninterp spec fn symbol_table(bytes: Seq<u8>) -> Option<
    Seq<(u8, u32, u32, Option<Seq<char>>, Option<(u32, u32, u32)>)>,
>;

/// A symbol without its place: its kind, flags, index and name.
pub type PlainSymbol = (u8, u32, u32, Option<String>);

/// `list` are the symbols of a table, without their places.
pub open spec fn are_symbols(
    table: Seq<(u8, u32, u32, Option<Seq<char>>, Option<(u32, u32, u32)>)>,
    list: Seq<PlainSymbol>,
) -> bool {
    &&& list.len() == table.len()
    &&& forall|i: int|
        0 <= i < list.len() ==> {
            &&& (#[trigger] list[i]).0 == table[i].0
            &&& list[i].1 == table[i].1
            &&& list[i].2 == table[i].2
            &&& name_view(list[i].3) == table[i].3
        }
}

/// `list` are the places of the symbols of a table.
pub open spec fn are_places(
    table: Seq<(u8, u32, u32, Option<Seq<char>>, Option<(u32, u32, u32)>)>,
    list: Seq<Option<(u32, u32, u32)>>,
) -> bool {
    &&& list.len() == table.len()
    &&& forall|i: int| 0 <= i < list.len() ==> #[trigger] list[i] == table[i].4
}

/// Reads symbols, without their places, with `wasmparser::SymbolInfoMap::new`.
///
/// What is found is named, not described. The kinds are functions, data, globals, sections, tags
/// and tables, counted from zero, and data have a name.
#[verifier::external_body]
fn read_plain_symbols(bytes: &[u8], offset: usize) -> (symbols: Result<
    Vec<PlainSymbol>,
    wasmparser::Error,
>)
    requires
        offset + bytes@.len() <= usize::MAX,
        has_room(bytes@),
    ensures
        match symbols {
            Ok(list) => symbol_table(bytes@) is Some && are_symbols(symbol_table(bytes@)->0, list@)
                && forall|i: int|
                0 <= i < list@.len() ==> (#[trigger] list@[i]).0 <= 5 && (list@[i].0 == 1
                    ==> list@[i].3 is Some),
            Err(_) => symbol_table(bytes@) is None,
        },
{
    SymbolInfoMap::new(BinaryReader::new(bytes, offset))?.into_iter().map(|symbol| {
        let (kind, flags, index, name) = match symbol? {
            SymbolInfo::Func { flags, index, name } => (0, flags, index, name),
            SymbolInfo::Data { flags, name, .. } => (1, flags, 0, Some(name)),
            SymbolInfo::Global { flags, index, name } => (2, flags, index, name),
            SymbolInfo::Section { flags, section } => (3, flags, section, None),
            SymbolInfo::Event { flags, index, name } => (4, flags, index, name),
            SymbolInfo::Table { flags, index, name } => (5, flags, index, name),
        };
        Ok((kind, flags.bits(), index, name.map(String::from)))
    }).collect()
}

/// Reads the places of symbols with `wasmparser::SymbolInfoMap::new`.
///
/// What is found is named, not described. Only data that are defined have a place: their segment,
/// the offset in it, and their size.
#[verifier::external_body]
fn read_symbol_places(bytes: &[u8], offset: usize) -> (places: Result<
    Vec<Option<(u32, u32, u32)>>,
    wasmparser::Error,
>)
    requires
        offset + bytes@.len() <= usize::MAX,
        has_room(bytes@),
    ensures
        match places {
            Ok(list) => symbol_table(bytes@) is Some && are_places(symbol_table(bytes@)->0, list@),
            Err(_) => symbol_table(bytes@) is None,
        },
{
    SymbolInfoMap::new(BinaryReader::new(bytes, offset))?.into_iter().map(|symbol| Ok(match symbol? {
        SymbolInfo::Data { symbol, .. } => symbol.map(|p| (p.index, p.offset, p.size)),
        _ => None,
    })).collect()
}

/// Reads symbols.
pub(crate) fn read_symbols(bytes: &[u8], offset: usize) -> (symbols: Result<
    Vec<RawSymbol>,
    wasmparser::Error,
>)
    requires
        offset + bytes@.len() <= usize::MAX,
        has_room(bytes@),
    ensures
        match symbols {
            Ok(list) => symbol_table(bytes@) == Some(symbol_views(list@)) && forall|i: int|
                0 <= i < list@.len() ==> (#[trigger] list@[i]).0 <= 5 && (list@[i].0 == 1
                    ==> list@[i].3 is Some),
            Err(_) => symbol_table(bytes@) is None,
        },
{
    let plain = match read_plain_symbols(bytes, offset) {
        Ok(plain) => plain,
        Err(error) => return Err(error),
    };
    let places = match read_symbol_places(bytes, offset) {
        Ok(places) => places,
        Err(error) => return Err(error),
    };
    let ghost table = symbol_table(bytes@)->0;
    let ghost all = plain@;
    let mut symbols: Vec<RawSymbol> = Vec::new();
    let mut i: usize = 0;
    for symbol in it: plain
        invariant
            it.seq() == all,
            i == it.index(),
            are_symbols(table, all),
            are_places(table, places@),
            forall|j: int|
                0 <= j < all.len() ==> (#[trigger] all[j]).0 <= 5 && (all[j].0 == 1
                    ==> all[j].3 is Some),
            symbols@.len() == i,
            forall|j: int|
                0 <= j < i ==> {
                    &&& (#[trigger] symbols@[j]).0 == all[j].0
                    &&& symbols@[j].1 == all[j].1
                    &&& symbols@[j].2 == all[j].2
                    &&& symbols@[j].3 == all[j].3
                    &&& symbols@[j].4 == places@[j]
                },
    {
        assert(symbol == all[i as int]);
        let (kind, flags, index, name) = symbol;
        assert(i < places.len());
        symbols.push((kind, flags, index, name, places[i]));
        i += 1;
    }
    assert(symbol_views(symbols@) =~= table);
    Ok(symbols)
}

/// A relocation as its section has it: the code of its type, offset, symbol and addend.
pub type RawRelocation = (u8, u32, u32, i64);

/// The section that relocations are for, and the relocations, if the bytes can be read.
pub uninterp spec fn reloc_section(data: Seq<u8>) -> Option<(u32, Seq<(u8, u32, u32, i64)>)>;

/// Reads relocations with `wasmparser::RelocSectionReader::new`, `entries` and `section_index`.
///
/// What is found is named, not described. The codes of the types are at most 26.
#[verifier::external_body]
pub(crate) fn read_relocs(data: &[u8], offset: usize) -> (relocs: Result<
    (u32, Vec<RawRelocation>),
    wasmparser::Error,
>)
    requires
        offset + data@.len() <= usize::MAX,
    ensures
        match relocs {
            Ok((section, list)) => reloc_section(data@) == Some((section, list@)) && forall|i: int|
                0 <= i < list@.len() ==> (#[trigger] list@[i]).0 <= 26,
            Err(_) => reloc_section(data@) is None,
        },
{
    let reader = RelocSectionReader::new(BinaryReader::new(data, offset))?;
    let list = reader.entries().into_iter().map(|entry| {
        let entry = entry?;
        Ok((entry.ty as u8, entry.offset, entry.index, entry.addend))
    }).collect::<Result<Vec<RawRelocation>, wasmparser::Error>>()?;
    Ok((reader.section_index(), list))
}

/// How many bytes a relocation with the given type code changes.
pub open spec fn relocation_extent(code: u8) -> nat {
    if code == 0 || code == 1 || code == 3 || code == 4 || code == 6 || code == 7 || code == 10
        || code == 11 || code == 12 || code == 20 || code == 21 {
        5
    } else if code == 14 || code == 15 || code == 17 || code == 18 || code == 24 || code == 25 {
        10
    } else if code == 16 || code == 19 || code == 22 {
        8
    } else {
        4
    }
}

/// Finds the bytes that a relocation changes, from the start of its section, with
/// `wasmparser::RelocationEntry::relocation_range`.
///
/// They start at the offset, and their number depends on the type. There is an error if and only
/// if the end does not fit into a `usize`.
#[verifier::external_body]
pub(crate) fn read_relocation_range(code: u8, offset: u32, index: u32, addend: i64) -> (range:
    Result<Range<usize>, wasmparser::Error>)
    requires
        code <= 26,
    ensures
        match range {
            Ok(range) => range.start == offset && range.end == offset + relocation_extent(code),
            Err(_) => offset + relocation_extent(code) > usize::MAX,
        },
{
    let ty = RelocationType::try_from(code).unwrap();
    wasmparser::RelocationEntry { ty, offset, index, addend }.relocation_range()
}

/// The function indices in the bytes of an element segment, if they can be read.
pub uninterp spec fn function_indices(bytes: Seq<u8>) -> Option<Seq<u32>>;

/// Reads a list of function indices with `wasmparser::SectionLimited::new`.
///
/// What is found is named, not described.
#[verifier::external_body]
pub(crate) fn read_function_indices(bytes: &[u8], offset: usize) -> (indices: Result<
    Vec<u32>,
    wasmparser::Error,
>)
    requires
        offset + bytes@.len() <= usize::MAX,
    ensures
        match indices {
            Ok(list) => function_indices(bytes@) == Some(list@),
            Err(_) => function_indices(bytes@) is None,
        },
{
    SectionLimited::<u32>::new(BinaryReader::new(bytes, offset))?.into_iter().collect()
}

/// An instruction: how it is printed, and which function it calls if it is a call.
pub type RawOperator = (String, Option<u32>);

/// What instructions say.
pub open spec fn operator_views(ops: Seq<RawOperator>) -> Seq<(Seq<char>, Option<u32>)> {
    Seq::new(ops.len(), |i: int| (ops[i].0@, ops[i].1))
}

/// The instructions in the body of a function, up to the first that cannot be read, and whether
/// there is one that cannot be read.
pub uninterp spec fn body_operators(body: Seq<u8>) -> (Seq<(Seq<char>, Option<u32>)>, bool);

/// Reads the instructions of a function with `wasmparser::FunctionBody::get_operators_reader` and
/// `wasmparser::OperatorsReader::read`.
///
/// What is found is named, not described. An instruction is printed with the name of its variant
/// first.
#[verifier::external_body]
pub(crate) fn read_operators(body: &[u8], offset: usize) -> (read: (
    Vec<RawOperator>,
    Option<wasmparser::Error>,
))
    requires
        offset + body@.len() <= usize::MAX,
    ensures
        operator_views(read.0@) == body_operators(body@).0,
        read.1 is Some == body_operators(body@).1,
{
    let mut found = Vec::new();
    let reader = FunctionBody::new(BinaryReader::new(body, offset)).get_operators_reader();
    let error = reader.and_then(|mut ops| {
        while !ops.eof() {
            let op = ops.read()?;
            found.push(match op {
                Operator::Call { function_index } => (format!("{op:?}"), Some(function_index)),
                _ => (format!("{op:?}"), None),
            });
        }
        Ok(())
    }).err();
    (found, error)
}

/// The value that an expression starts with.
#[derive(Debug, PartialEq, Eq, Clone, Copy, Structural)]
pub enum ConstValue {
    /// A 32-bit number.
    I32(i32),
    /// A 64-bit number.
    I64(i64),
    /// Anything else.
    Other,
}

/// The value that the bytes of an expression start with.
pub uninterp spec fn const_value(bytes: Seq<u8>) -> ConstValue;

/// Reads the first instruction of an expression with `wasmparser::ConstExpr::new`,
/// `get_operators_reader` and `wasmparser::OperatorsReader::read`.
///
/// What is found is named, not described.
#[verifier::external_body]
pub(crate) fn read_const(bytes: &[u8], offset: usize) -> (value: ConstValue)
    requires
        offset + bytes@.len() <= usize::MAX,
    ensures
        value == const_value(bytes@),
{
    match ConstExpr::new(BinaryReader::new(bytes, offset)).get_operators_reader().read() {
        Ok(Operator::I32Const { value }) => ConstValue::I32(value),
        Ok(Operator::I64Const { value }) => ConstValue::I64(value),
        _ => ConstValue::Other,
    }
}

/// How the flags of a symbol are printed.
pub uninterp spec fn flags_text(flags: u32) -> Seq<char>;

/// Prints the flags of a symbol as `wasmparser::SymbolFlags` does.
///
/// What is printed is named, not described.
#[verifier::external_body]
pub(crate) fn print_flags(flags: u32) -> (text: String)
    ensures
        text@ == flags_text(flags),
{
    format!("{:?}", SymbolFlags::from_bits_retain(flags))
}

/// How the type of a relocation is printed.
pub uninterp spec fn type_text(code: u8) -> Seq<char>;

/// Prints the type of a relocation as `wasmparser::RelocationType` does.
///
/// What is printed is named, not described.
#[verifier::external_body]
pub(crate) fn print_relocation_type(code: u8) -> (text: String)
    requires
        code <= 26,
    ensures
        text@ == type_text(code),
{
    format!("{:?}", RelocationType::try_from(code).unwrap())
}

/// How many bits the addend of a relocation with the given type code has, which is zero for those
/// without one.
pub open spec fn addend_bits(code: u8) -> u8 {
    if code == 3 || code == 4 || code == 5 || code == 8 || code == 9 || code == 11 || code == 21
        || code == 23 {
        32
    } else if code == 14 || code == 15 || code == 16 || code == 17 || code == 22 || code == 25 {
        64
    } else {
        0
    }
}

/// Finds how many bits the addend of a relocation has with
/// `wasmparser::RelocationType::addend_kind`.
///
/// Relocations for memory addresses and for offsets in sections have an addend.
#[verifier::external_body]
pub(crate) fn read_addend_bits(code: u8) -> (bits: u8)
    requires
        code <= 26,
    ensures
        bits == addend_bits(code),
{
    match RelocationType::try_from(code).unwrap().addend_kind() {
        RelocAddendKind::None => 0,
        RelocAddendKind::Addend32 => 32,
        RelocAddendKind::Addend64 => 64,
    }
}

} // verus!
