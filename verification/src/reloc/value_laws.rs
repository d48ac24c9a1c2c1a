//! What relocations write, told by how the bytes are read.
use crate::read::InputModule;
use crate::reloc::apply::{
    answers, applies, applies_all, holds_range, is_relocated, is_trace, outcome, relocates,
    relocs_between, section_relocs, value_fits, RelocTarget,
};
use crate::reloc::encode::{
    encoding_of, is_le, is_leb, le_value, leb_byte, leb_value, lemma_le_round_trip,
    lemma_leb_round_trip, number_of, power,
};
use crate::reloc::expand::{
    can_expand, expand_error, expands, extent, RelocDetails, RelocError, SymbolDetails,
};
use crate::reloc::info::{RelocInfo, RelocationEntry, RelocationType, SymbolInfo};
use std::ops::Range;
use vstd::prelude::*;

verus! {

/// Whether the four bytes from `at` on are a number, the least significant byte first.
pub open spec fn le4_at(bytes: Seq<u8>, at: int, n: int) -> bool {
    n == bytes[at] + 0x100 * bytes[at + 1] + 0x1_0000 * bytes[at + 2] + 0x100_0000 * bytes[at + 3]
}

/// Whether the eight bytes from `at` on are a number, the least significant byte first.
pub open spec fn le8_at(bytes: Seq<u8>, at: int, n: int) -> bool {
    n == bytes[at] + 0x100 * bytes[at + 1] + 0x1_0000 * bytes[at + 2] + 0x100_0000 * bytes[at + 3]
        + 0x1_0000_0000 * bytes[at + 4] + 0x100_0000_0000 * bytes[at + 5] + 0x1_0000_0000_0000
        * bytes[at + 6] + 0x100_0000_0000_0000 * bytes[at + 7]
}

/// Whether the last one of `len` bytes from `at` on is the only one that is not marked to be
/// followed by another one.
pub open spec fn ends_at(bytes: Seq<u8>, at: int, len: int) -> bool {
    bytes[at + len - 1] < 0x80 && forall|i: int|
        at <= i < at + len - 1 ==> #[trigger] bytes[i] >= 0x80
}

/// The seven bits of a byte.
pub open spec fn low(byte: u8) -> int {
    byte as int % 0x80
}

/// The number in the low bits of the five bytes from `at` on.
pub open spec fn low5_at(bytes: Seq<u8>, at: int) -> int {
    low(bytes[at]) + 0x80 * low(bytes[at + 1]) + 0x4000 * low(bytes[at + 2]) + 0x20_0000 * low(
        bytes[at + 3],
    ) + 0x1000_0000 * low(bytes[at + 4])
}

/// The number in the low bits of the ten bytes from `at` on.
pub open spec fn low10_at(bytes: Seq<u8>, at: int) -> int {
    low5_at(bytes, at) + 0x8_0000_0000 * low5_at(bytes, at + 5)
}

/// Whether the bytes from `at` on are a number as a relocation of a type has it.
pub open spec fn reads_at(ty: RelocationType, bytes: Seq<u8>, at: int, n: int) -> bool {
    match ty {
        RelocationType::TableIndexI32
        | RelocationType::MemoryAddrI32
        | RelocationType::FunctionOffsetI32
        | RelocationType::SectionOffsetI32
        | RelocationType::GlobalIndexI32
        | RelocationType::FunctionIndexI32
        | RelocationType::MemoryAddrLocrelI32 => le4_at(bytes, at, n),
        RelocationType::FunctionOffsetI64
        | RelocationType::MemoryAddrI64
        | RelocationType::TableIndexI64 => le8_at(bytes, at, n),
        RelocationType::FunctionIndexLeb
        | RelocationType::MemoryAddrLeb
        | RelocationType::TypeIndexLeb
        | RelocationType::GlobalIndexLeb
        | RelocationType::EventIndexLeb
        | RelocationType::TableNumberLeb => ends_at(bytes, at, 5) && n == low5_at(bytes, at),
        RelocationType::TableIndexSleb
        | RelocationType::MemoryAddrSleb
        | RelocationType::MemoryAddrRelSleb
        | RelocationType::TableIndexRelSleb
        | RelocationType::MemoryAddrTlsSleb => ends_at(bytes, at, 5) && n == low5_at(bytes, at)
            - if bytes[at + 4] >= 0x40 {
            0x8_0000_0000int
        } else {
            0int
        },
        RelocationType::MemoryAddrLeb64 => ends_at(bytes, at, 10) && n == low10_at(bytes, at),
        RelocationType::MemoryAddrSleb64
        | RelocationType::MemoryAddrRelSleb64
        | RelocationType::TableIndexSleb64
        | RelocationType::TableIndexRelSleb64
        | RelocationType::MemoryAddrTlsSleb64 => ends_at(bytes, at, 10) && n == low10_at(bytes, at)
            - if bytes[at + 9] >= 0x40 {
            0x40_0000_0000_0000_0000int
        } else {
            0int
        },
    }
}

/// How many bytes a number takes as a relocation of a type has it.
pub open spec fn width(ty: RelocationType) -> int {
    match ty {
        RelocationType::TableIndexI32
        | RelocationType::MemoryAddrI32
        | RelocationType::FunctionOffsetI32
        | RelocationType::SectionOffsetI32
        | RelocationType::GlobalIndexI32
        | RelocationType::FunctionIndexI32
        | RelocationType::MemoryAddrLocrelI32 => 4,
        RelocationType::FunctionOffsetI64
        | RelocationType::MemoryAddrI64
        | RelocationType::TableIndexI64 => 8,
        RelocationType::MemoryAddrLeb64
        | RelocationType::MemoryAddrSleb64
        | RelocationType::MemoryAddrRelSleb64
        | RelocationType::TableIndexSleb64
        | RelocationType::TableIndexRelSleb64
        | RelocationType::MemoryAddrTlsSleb64 => 10,
        _ => 5,
    }
}

/// The powers that occur.
proof fn lemma_powers()
    ensures
        power(256, 0) == 1,
        power(256, 1) == 0x100,
        power(256, 2) == 0x1_0000,
        power(256, 3) == 0x100_0000,
        power(256, 4) == 0x1_0000_0000,
        power(256, 5) == 0x100_0000_0000,
        power(256, 6) == 0x1_0000_0000_0000,
        power(256, 7) == 0x100_0000_0000_0000,
        power(256, 8) == 0x1_0000_0000_0000_0000,
        power(128, 0) == 1,
        power(128, 1) == 0x80,
        power(128, 2) == 0x4000,
        power(128, 3) == 0x20_0000,
        power(128, 4) == 0x1000_0000,
        power(128, 5) == 0x8_0000_0000,
        power(128, 6) == 0x400_0000_0000,
        power(128, 7) == 0x2_0000_0000_0000,
        power(128, 8) == 0x100_0000_0000_0000,
        power(128, 9) == 0x8000_0000_0000_0000,
        power(128, 10) == 0x40_0000_0000_0000_0000,
{
    reveal_with_fuel(power, 11);
}

/// A number of one more digit.
proof fn lemma_one_more(digits: Seq<int>, base: int, n: int)
    requires
        0 < n <= digits.len(),
    ensures
        number_of(digits.take(n), base) == number_of(digits.take(n - 1), base) + digits[n - 1]
            * power(base, (n - 1) as nat),
        number_of(digits.take(0), base) == 0,
{
    assert(digits.take(n).drop_last() =~= digits.take(n - 1));
}

/// What four or eight bytes are, the least significant one first.
proof fn lemma_le_bytes(bytes: Seq<u8>)
    ensures
        bytes.len() == 4 ==> le4_at(bytes, 0, le_value(bytes)),
        bytes.len() == 8 ==> le8_at(bytes, 0, le_value(bytes)),
{
    let d = Seq::new(bytes.len(), |i: int| bytes[i] as int);
    lemma_powers();
    if bytes.len() >= 4 {
        assert(d.take(d.len() as int) =~= d);
        lemma_one_more(d, 256, 1);
        lemma_one_more(d, 256, 2);
        lemma_one_more(d, 256, 3);
        lemma_one_more(d, 256, 4);
        if bytes.len() == 8 {
            lemma_one_more(d, 256, 5);
            lemma_one_more(d, 256, 6);
            lemma_one_more(d, 256, 7);
            lemma_one_more(d, 256, 8);
        }
    }
}

/// What five or ten bytes are as LEB128.
proof fn lemma_leb_bytes(bytes: Seq<u8>)
    ensures
        bytes.len() == 5 ==> leb_value(bytes) == low5_at(bytes, 0),
        bytes.len() == 10 ==> leb_value(bytes) == low10_at(bytes, 0),
{
    let d = Seq::new(bytes.len(), |i: int| bytes[i] as int % 128);
    lemma_powers();
    if bytes.len() >= 5 {
        assert(d.take(d.len() as int) =~= d);
        lemma_one_more(d, 128, 1);
        lemma_one_more(d, 128, 2);
        lemma_one_more(d, 128, 3);
        lemma_one_more(d, 128, 4);
        lemma_one_more(d, 128, 5);
        if bytes.len() == 10 {
            lemma_one_more(d, 128, 6);
            lemma_one_more(d, 128, 7);
            lemma_one_more(d, 128, 8);
            lemma_one_more(d, 128, 9);
            lemma_one_more(d, 128, 10);
        }
    }
}

/// Only the last byte of a LEB128 number is not marked to be followed by another one.
proof fn lemma_leb_ends(value: int, bytes: Seq<u8>)
    requires
        is_leb(value, bytes),
        bytes.len() > 0,
    ensures
        ends_at(bytes, 0, bytes.len() as int),
{
    let n = bytes.len() as int;
    assert forall|i: int| 0 <= i < n - 1 implies #[trigger] bytes[i] >= 0x80 by {
        assert(bytes[i] == leb_byte(value, i, n));
    }
    assert(bytes[n - 1] == leb_byte(value, n - 1, n));
}

/// What is read from part of some bytes is read from all of them at its place.
proof fn lemma_read_part(ty: RelocationType, bytes: Seq<u8>, at: int, n: int)
    requires
        0 <= at,
        at + width(ty) <= bytes.len(),
        reads_at(ty, bytes.subrange(at, at + width(ty)), 0, n),
    ensures
        reads_at(ty, bytes, at, n),
{
    let part = bytes.subrange(at, at + width(ty));
    assert forall|i: int| 0 <= i < part.len() implies #[trigger] part[i] == bytes[at + i] by {}
    assert forall|i: int| at <= i < at + width(ty) implies #[trigger] bytes[i] == part[i - at] by {}
}

/// A relocation replaces the bytes of its value, and only these. Whatever reads the value gets that
/// of what the relocation refers to, plus the addend.
pub proof fn lemma_value_with_addend(
    before: Seq<u8>,
    after: Seq<u8>,
    at: int,
    relocation: RelocationEntry,
    value: usize,
)
    requires
        value_fits(relocation, value),
        is_relocated(before, after, at, relocation, value),
        0 <= at,
        at + width(relocation.ty) <= before.len(),
    ensures
        reads_at(relocation.ty, after, at, value + relocation.addend),
        after.len() == before.len(),
        forall|i: int|
            0 <= i < at || at + width(relocation.ty) <= i < before.len() ==> #[trigger] after[i]
                == before[i],
{
    let ty = relocation.ty;
    let n = value + relocation.addend;
    assert(extent(ty) == width(ty));
    let part = after.subrange(at, at + width(ty));
    lemma_powers();
    assert(encoding_of(ty).writes(n, part));
    lemma_le_bytes(part);
    lemma_leb_bytes(part);
    match ty {
        RelocationType::TableIndexI32
        | RelocationType::MemoryAddrI32
        | RelocationType::FunctionOffsetI32
        | RelocationType::SectionOffsetI32
        | RelocationType::GlobalIndexI32
        | RelocationType::FunctionIndexI32
        | RelocationType::MemoryAddrLocrelI32
        | RelocationType::FunctionOffsetI64
        | RelocationType::MemoryAddrI64
        | RelocationType::TableIndexI64 => {
            assert(is_le(n, part));
            lemma_le_round_trip(n, part);
        },
        _ => {
            assert(is_leb(n, part));
            lemma_leb_round_trip(n, part);
            lemma_leb_ends(n, part);
        },
    }
    assert(reads_at(ty, part, 0, n));
    lemma_read_part(ty, after, at, n);
}

/// A value can be written if and only if its type has room for it together with the addend.
pub proof fn lemma_room_for_value(relocation: RelocationEntry, value: usize)
    ensures
        value_fits(relocation, value) <==> value <= i64::MAX && ({
            let n = value + relocation.addend;
            match relocation.ty {
                RelocationType::TableIndexI32
                | RelocationType::MemoryAddrI32
                | RelocationType::FunctionOffsetI32
                | RelocationType::SectionOffsetI32
                | RelocationType::GlobalIndexI32
                | RelocationType::FunctionIndexI32
                | RelocationType::MemoryAddrLocrelI32
                | RelocationType::FunctionIndexLeb
                | RelocationType::MemoryAddrLeb
                | RelocationType::TypeIndexLeb
                | RelocationType::GlobalIndexLeb
                | RelocationType::EventIndexLeb
                | RelocationType::TableNumberLeb => 0 <= n <= 0xffff_ffff,
                RelocationType::TableIndexSleb
                | RelocationType::MemoryAddrSleb
                | RelocationType::MemoryAddrRelSleb
                | RelocationType::TableIndexRelSleb
                | RelocationType::MemoryAddrTlsSleb => -0x8000_0000 <= n <= 0x7fff_ffff,
                RelocationType::FunctionOffsetI64
                | RelocationType::MemoryAddrI64
                | RelocationType::TableIndexI64
                | RelocationType::MemoryAddrLeb64 => 0 <= n <= 0x7fff_ffff_ffff_ffff,
                RelocationType::MemoryAddrSleb64
                | RelocationType::MemoryAddrRelSleb64
                | RelocationType::TableIndexSleb64
                | RelocationType::TableIndexRelSleb64
                | RelocationType::MemoryAddrTlsSleb64 => -0x8000_0000_0000_0000 <= n
                    <= 0x7fff_ffff_ffff_ffff,
            }
        }),
{
}

/// Whether details are those of a symbol that is not data: its number, what it stands for, its
/// flags and its name.
pub open spec fn tells(
    details: SymbolDetails<usize>,
    symbol_index: int,
    index: u32,
    flags: u32,
    name: Option<String>,
) -> bool {
    &&& details._symbol_index == symbol_index
    &&& details.index == index
    &&& details._flags == flags
    &&& match (details._name, name) {
        (Some(found), Some(name)) => found@ == name@,
        (None, None) => true,
        _ => false,
    }
}

/// Whether details say what a relocation of a type refers to by a symbol: the type tells what kind
/// of symbol it must be, and what is wanted of it.
pub open spec fn describes(
    ty: RelocationType,
    symbol: SymbolInfo,
    symbol_index: int,
    details: RelocDetails,
) -> bool {
    match ty {
        RelocationType::MemoryAddrLeb
        | RelocationType::MemoryAddrSleb
        | RelocationType::MemoryAddrI32
        | RelocationType::MemoryAddrRelSleb
        | RelocationType::MemoryAddrTlsSleb
        | RelocationType::MemoryAddrLocrelI32
        | RelocationType::MemoryAddrLeb64
        | RelocationType::MemoryAddrSleb64
        | RelocationType::MemoryAddrI64
        | RelocationType::MemoryAddrRelSleb64
        | RelocationType::MemoryAddrTlsSleb64 => {
            &&& symbol matches SymbolInfo::Data { flags, name, symbol: place }
            &&& details matches RelocDetails::MemoryAddr(data)
            &&& data.symbol_index == symbol_index
            &&& data._flags == flags
            &&& data._name@ == name@
            &&& data.definition == place
        },
        RelocationType::TableIndexSleb
        | RelocationType::TableIndexI32
        | RelocationType::TableIndexSleb64
        | RelocationType::TableIndexI64 => {
            &&& symbol matches SymbolInfo::Func { flags, index, name }
            &&& details matches RelocDetails::TableIndex(found)
            &&& tells(found, symbol_index, index, flags, name)
        },
        RelocationType::TableIndexRelSleb | RelocationType::TableIndexRelSleb64 => {
            &&& symbol matches SymbolInfo::Func { flags, index, name }
            &&& details matches RelocDetails::RelTableIndex(found)
            &&& tells(found, symbol_index, index, flags, name)
        },
        RelocationType::FunctionIndexLeb | RelocationType::FunctionIndexI32 => {
            &&& symbol matches SymbolInfo::Func { flags, index, name }
            &&& details matches RelocDetails::FunctionIndex(found)
            &&& tells(found, symbol_index, index, flags, name)
        },
        RelocationType::TableNumberLeb => {
            &&& symbol matches SymbolInfo::Table { flags, index, name }
            &&& details matches RelocDetails::TableNumber(found)
            &&& tells(found, symbol_index, index, flags, name)
        },
        RelocationType::GlobalIndexLeb | RelocationType::GlobalIndexI32 => {
            &&& symbol matches SymbolInfo::Global { flags, index, name }
            &&& details matches RelocDetails::GlobalIndex(found)
            &&& tells(found, symbol_index, index, flags, name)
        },
        RelocationType::EventIndexLeb => {
            &&& symbol matches SymbolInfo::Event { flags, index, name }
            &&& details matches RelocDetails::TagIndex(found)
            &&& tells(found, symbol_index, index, flags, name)
        },
        RelocationType::TypeIndexLeb => {
            &&& details matches RelocDetails::TypeIndex { _symbol_idx, _symbol }
            &&& _symbol_idx == symbol_index
            &&& *_symbol == symbol
        },
        RelocationType::SectionOffsetI32
        | RelocationType::FunctionOffsetI32
        | RelocationType::FunctionOffsetI64 => false,
    }
}

/// What a relocation refers to is found by its type and its symbol.
pub proof fn lemma_details(
    ty: RelocationType,
    symbol: SymbolInfo,
    symbol_index: usize,
    details: RelocDetails,
)
    requires
        expands(ty, symbol, symbol_index, details),
    ensures
        describes(ty, symbol, symbol_index as int, details),
{
}

/// Relocations for addresses refer to data, those for functions and their places in a table to
/// functions, and those for tables, globals and tags to such. Any symbol will do for a type, and
/// none for an offset in a section. The error says which of the two was wrong.
pub proof fn lemma_suitable_symbols(ty: RelocationType, symbol: SymbolInfo, symbol_index: usize)
    ensures
        can_expand(ty, symbol) <==> match ty {
            RelocationType::MemoryAddrLeb
            | RelocationType::MemoryAddrSleb
            | RelocationType::MemoryAddrI32
            | RelocationType::MemoryAddrRelSleb
            | RelocationType::MemoryAddrTlsSleb
            | RelocationType::MemoryAddrLocrelI32
            | RelocationType::MemoryAddrLeb64
            | RelocationType::MemoryAddrSleb64
            | RelocationType::MemoryAddrI64
            | RelocationType::MemoryAddrRelSleb64
            | RelocationType::MemoryAddrTlsSleb64 => symbol is Data,
            RelocationType::TableIndexSleb
            | RelocationType::TableIndexI32
            | RelocationType::TableIndexSleb64
            | RelocationType::TableIndexI64
            | RelocationType::TableIndexRelSleb
            | RelocationType::TableIndexRelSleb64
            | RelocationType::FunctionIndexLeb
            | RelocationType::FunctionIndexI32 => symbol is Func,
            RelocationType::TableNumberLeb => symbol is Table,
            RelocationType::GlobalIndexLeb | RelocationType::GlobalIndexI32 => symbol is Global,
            RelocationType::EventIndexLeb => symbol is Event,
            RelocationType::TypeIndexLeb => true,
            RelocationType::SectionOffsetI32
            | RelocationType::FunctionOffsetI32
            | RelocationType::FunctionOffsetI64 => false,
        },
        expand_error(ty, symbol_index) == if ty == RelocationType::SectionOffsetI32 || ty
            == RelocationType::FunctionOffsetI32 || ty == RelocationType::FunctionOffsetI64 {
            RelocError::Unhandled { ty }
        } else {
            RelocError::UnexpectedSymbol { ty, symbol_index }
        },
{
}

/// Whether two relocations change no byte in common.
pub open spec fn are_apart(a: RelocationEntry, b: RelocationEntry) -> bool {
    a.offset + width(a.ty) <= b.offset || b.offset + width(b.ty) <= a.offset
}

/// Bytes between two states of data that relocations do not name stay as they are.
proof fn lemma_span_kept<T: RelocTarget>(
    info: &RelocInfo,
    target: &T,
    relocs: Seq<RelocationEntry>,
    shift: int,
    states: Seq<Seq<u8>>,
    applied: Result<(), RelocError>,
    from: int,
    to: int,
    b: int,
)
    requires
        is_trace(info, target, relocs, shift, states, applied),
        0 <= from <= to < states.len(),
        0 <= b < states[from].len(),
        forall|k: int|
            from <= k < to ==> !((#[trigger] relocs[k]).offset + shift <= b < relocs[k].offset + shift
                + width(relocs[k].ty)),
    ensures
        states[to].len() == states[from].len(),
        states[to][b] == states[from][b],
    decreases to - from,
{
    if from < to {
        lemma_span_kept(info, target, relocs, shift, states, applied, from, to - 1, b);
        let k = to - 1;
        assert(applies(
            info,
            target,
            relocs[k],
            relocs[k].offset + shift,
            states[k],
            states[to],
            if to < states.len() - 1 {
                Ok::<(), RelocError>(())
            } else {
                applied
            },
        ));
        assert(extent(relocs[k].ty) == width(relocs[k].ty));
        assert(!(relocs[k].offset + shift <= b < relocs[k].offset + shift + width(relocs[k].ty)));
    }
}

/// What the bytes of relocation `i` are in the end, if no other one changes them.
proof fn lemma_applied_value<T: RelocTarget>(
    info: &RelocInfo,
    target: &T,
    relocs: Seq<RelocationEntry>,
    shift: int,
    before: Seq<u8>,
    after: Seq<u8>,
    i: int,
)
    requires
        applies_all(info, target, relocs, shift, before, after, Ok(())),
        0 <= i < relocs.len(),
        0 <= relocs[i].offset + shift,
        relocs[i].offset + shift + width(relocs[i].ty) <= before.len(),
        forall|k: int| 0 <= k < relocs.len() && k != i ==> are_apart(relocs[i], #[trigger] relocs[k]),
    ensures
        exists|details: RelocDetails, answer: Result<Option<usize>, RelocError>| #[trigger]
            answers(target, details, answer) && describes(
                relocs[i].ty,
                info.symbols@[relocs[i].index as int],
                relocs[i].index as int,
                details,
            ) && is_answered(relocs[i], relocs[i].offset + shift, before, after, answer),
{
    let states = choose|states: Seq<Seq<u8>>| #[trigger]
        is_trace(info, target, relocs, shift, states, Ok(())) && states[0] == before
            && states.last() == after;
    let ok = Ok::<(), RelocError>(());
    let at = relocs[i].offset + shift;
    let w = width(relocs[i].ty);
    let last = relocs.len() as int;
    assert(states[last] == after);
    assert(applies(info, target, relocs[i], at, states[i], states[i + 1], ok));
    let symbol = info.symbols@[relocs[i].index as int];
    let index = relocs[i].index as usize;
    assert(extent(relocs[i].ty) == w);
    let (details, answer) = choose|
        details: RelocDetails,
        answer: Result<Option<usize>, RelocError>,
    |
        expands(relocs[i].ty, symbol, index, details) && #[trigger] answers(target, details, answer)
            && outcome(
            relocs[i],
            at,
            states[i],
            answer,
            states[i + 1],
            ok,
        );
    lemma_details(relocs[i].ty, symbol, index, details);
    assert forall|b: int| at <= b < at + w implies states[i][b] == before[b] && after[b]
        == #[trigger] states[i + 1][b] && states[i].len() == before.len() && states[i + 1].len()
        == after.len() by {
        assert forall|k: int| 0 <= k < relocs.len() && k != i implies !((
        #[trigger] relocs[k]).offset + shift <= b < relocs[k].offset + shift + width(
            relocs[k].ty,
        )) by {
            assert(are_apart(relocs[i], relocs[k]));
        }
        lemma_span_kept(info, target, relocs, shift, states, ok, 0, i, b);
        lemma_span_kept(info, target, relocs, shift, states, ok, i + 1, last, b);
    }
    assert(w >= 4);
    assert(states[i + 1][at] == after[at]);
    if let Ok(Some(value)) = answer {
        assert(value_fits(relocs[i], value));
        lemma_value_with_addend(states[i], states[i + 1], at, relocs[i], value);
        let n = value + relocs[i].addend;
        assert(after.subrange(at, at + w) =~= states[i + 1].subrange(at, at + w));
        lemma_read_whole(relocs[i].ty, states[i + 1], at, n);
        lemma_read_part(relocs[i].ty, after, at, n);
    } else {
        assert forall|b: int| at <= b < at + w implies #[trigger] after[b] == before[b] by {
            assert(after[b] == states[i + 1][b]);
        }
    }
    assert(is_answered(relocs[i], at, before, after, answer));
}

/// What is read from some bytes at a place is read from that part of them.
proof fn lemma_read_whole(ty: RelocationType, bytes: Seq<u8>, at: int, n: int)
    requires
        0 <= at,
        at + width(ty) <= bytes.len(),
        reads_at(ty, bytes, at, n),
    ensures
        reads_at(ty, bytes.subrange(at, at + width(ty)), 0, n),
{
    let part = bytes.subrange(at, at + width(ty));
    assert forall|i: int| 0 <= i < part.len() implies #[trigger] part[i] == bytes[at + i] by {}
    assert forall|i: int| at <= i < at + width(ty) implies #[trigger] bytes[i] == part[i - at] by {}
}

/// Whether the bytes of a relocation at `at` are what the answer of its target asks for: the value
/// plus the addend, or what was there.
pub open spec fn is_answered(
    relocation: RelocationEntry,
    at: int,
    before: Seq<u8>,
    after: Seq<u8>,
    answer: Result<Option<usize>, RelocError>,
) -> bool {
    match answer {
        Ok(Some(value)) => reads_at(relocation.ty, after, at, value + relocation.addend),
        Ok(None) => forall|b: int|
            at <= b < at + width(relocation.ty) ==> #[trigger] after[b] == before[b],
        Err(_) => false,
    }
}

/// Whether a range is inside a section, and all sections in front of it end before the range does.
pub open spec fn has_range(module: &InputModule, range: Range<usize>, k: int) -> bool {
    let sections = module.reloc_info.section_ranges@;
    &&& 0 <= k < sections.len() <= usize::MAX
    &&& sections[k].start <= range.start <= range.end <= sections[k].end
    &&& forall|j: int| 0 <= j < k ==> (#[trigger] sections[j]).end < range.end
}

/// The section that has a range is the one whose relocations are looked for.
pub(crate) proof fn lemma_section_of(module: &InputModule, range: Range<usize>, k: int)
    requires
        has_range(module, range, k),
    ensures
        module.reloc_info.section_of(range) == k,
{
    let sections = module.reloc_info.section_ranges@;
    assert(holds_range(sections, range, k));
    let c = module.reloc_info.section_of(range);
    assert(holds_range(sections, range, c));
    if c < k {
        assert(sections[c].end < range.end);
    } else if k < c {
        assert(sections[k].end < range.end);
    }
}

/// All relocations whose place is in a range are applied to a copy of it, and no others. The bytes
/// of each, unless another one changes them too, are the value that the target gives for what it
/// refers to plus the addend, or as they were if the target gives none. All other bytes are as they
/// were.
pub proof fn lemma_relocated_range<T: RelocTarget>(
    module: &InputModule,
    range: Range<usize>,
    target: &T,
    data: Vec<u8>,
    k: int,
    i: int,
)
    requires
        relocates(module, range, target, Ok(data)),
        range.start <= range.end <= module.raw@.len(),
        module.reloc_info.can_relocate_range(range),
        has_range(module, range, k),
        module.reloc_info.relocs@.contains_key(k as usize),
        0 <= i < module.reloc_info.relocs@[k as usize]@.len(),
        ({
            let relocs = module.reloc_info.relocs@[k as usize]@;
            let start = module.reloc_info.section_ranges@[k].start;
            &&& range.start <= start + relocs[i].offset < range.end
            &&& forall|j: int|
                0 <= j < relocs.len() && j != i ==> are_apart(relocs[i], #[trigger] relocs[j])
        }),
    ensures
        ({
            let info = &module.reloc_info;
            let relocation = info.relocs@[k as usize]@[i];
            exists|details: RelocDetails, answer: Result<Option<usize>, RelocError>| #[trigger]
                answers(target, details, answer) && describes(
                    relocation.ty,
                    info.symbols@[relocation.index as int],
                    relocation.index as int,
                    details,
                ) && is_answered(
                    relocation,
                    info.section_ranges@[k].start + relocation.offset - range.start,
                    module.raw@.subrange(range.start as int, range.end as int),
                    data@,
                    answer,
                )
        }),
{
    let info = &module.reloc_info;
    lemma_section_of(module, range, k);
    let start = info.section_ranges@[k].start;
    let before = module.raw@.subrange(range.start as int, range.end as int);
    let all = section_relocs(info, k as usize);
    assert(all == info.relocs@[k as usize]@);
    let (relocs, after, applied) = choose|
        relocs: Seq<RelocationEntry>,
        after: Seq<u8>,
        applied: Result<(), RelocError>,
    |
        relocs_between(all, range.start - start, range.end - start, relocs)
            && #[trigger] applies_all(
            info,
            target,
            relocs,
            start - range.start,
            before,
            after,
            applied,
        ) && applied is Ok && data@ == after;
    if let Ok(unit) = applied {
        assert(unit == ());
    }
    let (a, b) = choose|a: int, b: int|
        {
            &&& 0 <= a <= b <= all.len()
            &&& relocs == #[trigger] all.subrange(a, b)
            &&& forall|i: int|
                0 <= i < all.len() ==> (a <= i < b <==> range.start - start <= (
                #[trigger] all[i]).offset < range.end - start)
        };
    assert(a <= i < b);
    assert(relocs[i - a] == all[i]);
    assert(extent(all[i].ty) == width(all[i].ty));
    assert forall|j: int| 0 <= j < relocs.len() && j != i - a implies are_apart(
        relocs[i - a],
        #[trigger] relocs[j],
    ) by {
        assert(relocs[j] == all[a + j]);
    }
    assert(start + all[i].offset + extent(all[i].ty) <= range.end);
    lemma_applied_value(info, target, relocs, start - range.start, before, data@, i - a);
}

/// Bytes of a copy of a range that no relocation names are as they were, and the copy has the
/// length of the range.
pub proof fn lemma_unrelocated_bytes<T: RelocTarget>(
    module: &InputModule,
    range: Range<usize>,
    target: &T,
    data: Vec<u8>,
    k: int,
    b: int,
)
    requires
        relocates(module, range, target, Ok(data)),
        range.start <= range.end <= module.raw@.len(),
        has_range(module, range, k),
        range.start <= b < range.end,
        module.reloc_info.relocs@.contains_key(k as usize) ==> forall|i: int|
            #![trigger module.reloc_info.relocs@[k as usize]@[i]]
            0 <= i < module.reloc_info.relocs@[k as usize]@.len() ==> {
                let relocation = module.reloc_info.relocs@[k as usize]@[i];
                let at = module.reloc_info.section_ranges@[k].start + relocation.offset;
                !(at <= b < at + width(relocation.ty))
            },
    ensures
        data@.len() == range.end - range.start,
        data@[b - range.start] == module.raw@[b],
{
    let info = &module.reloc_info;
    lemma_section_of(module, range, k);
    let start = info.section_ranges@[k].start;
    let before = module.raw@.subrange(range.start as int, range.end as int);
    let all = section_relocs(info, k as usize);
    let (relocs, after, applied) = choose|
        relocs: Seq<RelocationEntry>,
        after: Seq<u8>,
        applied: Result<(), RelocError>,
    |
        relocs_between(all, range.start - start, range.end - start, relocs)
            && #[trigger] applies_all(
            info,
            target,
            relocs,
            start - range.start,
            before,
            after,
            applied,
        ) && applied is Ok && data@ == after;
    let (a, c) = choose|a: int, c: int|
        {
            &&& 0 <= a <= c <= all.len()
            &&& relocs == #[trigger] all.subrange(a, c)
            &&& forall|i: int|
                0 <= i < all.len() ==> (a <= i < c <==> range.start - start <= (
                #[trigger] all[i]).offset < range.end - start)
        };
    let states = choose|states: Seq<Seq<u8>>| #[trigger]
        is_trace(info, target, relocs, start - range.start, states, applied) && states[0] == before
            && states.last() == after;
    let last = relocs.len() as int;
    assert(states[last] == after);
    assert forall|i: int| 0 <= i < last implies !((#[trigger] relocs[i]).offset + (start
        - range.start) <= b - range.start < relocs[i].offset + (start - range.start) + width(
        relocs[i].ty,
    )) by {
        assert(relocs[i] == all[a + i]);
        assert(all == info.relocs@[k as usize]@);
        assert(info.relocs@[k as usize]@[a + i] == relocs[i]);
    }
    lemma_span_kept(
        info,
        target,
        relocs,
        start - range.start,
        states,
        applied,
        0,
        last,
        b - range.start,
    );
}

} // verus!
