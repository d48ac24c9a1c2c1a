//! When linking sections and relocation sections can be used.
use crate::reloc::expand::RelocError;
use crate::reloc::parse::{
    link_part, link_parts, payload_visited, symbols_of, CustomSection, LinkError, LinkState,
    Payload, PayloadKind, RelocInfoParser,
};
use crate::reloc::visit_laws::lemma_custom;
use crate::wasm::{linking_subsections, reloc_section, segment_table, symbol_table};
use vstd::prelude::*;

verus! {

/// The bytes of the part at position `k` of a linking section.
pub open spec fn bytes_of(custom: &CustomSection, k: int) -> Seq<u8> {
    let part = linking_subsections(custom.data@, custom.data_offset).0[k];
    custom.data@.subrange(part.1 - custom.data_offset, part.2 - custom.data_offset)
}

/// Whether a part is a symbol table with symbols.
pub open spec fn has_symbols(custom: &CustomSection, k: int) -> bool {
    &&& linking_subsections(custom.data@, custom.data_offset).0[k].0 == 8
    &&& symbol_table(bytes_of(custom, k)) matches Some(table) && table.len() > 0
}

/// Whether a part describes segments.
pub open spec fn has_segments(custom: &CustomSection, k: int) -> bool {
    &&& linking_subsections(custom.data@, custom.data_offset).0[k].0 == 5
    &&& segment_table(bytes_of(custom, k)) matches Some(table) && table.len() > 0
}

/// Whether symbols are known in front of the part at position `k`.
pub open spec fn knows_symbols(before: &RelocInfoParser, custom: &CustomSection, k: int) -> bool {
    before.info().symbols@.len() > 0 || exists|j: int| 0 <= j < k && #[trigger] has_symbols(custom, j)
}

/// Whether segments are described in front of the part at position `k`.
pub open spec fn knows_segments(before: &RelocInfoParser, custom: &CustomSection, k: int) -> bool {
    before.info().segments@.len() > 0 || exists|j: int|
        0 <= j < k && #[trigger] has_segments(custom, j)
}

/// Whether the part at position `k` can be used: symbols and segments come once only, and can be
/// read.
pub open spec fn is_good(before: &RelocInfoParser, custom: &CustomSection, k: int) -> bool {
    let number = linking_subsections(custom.data@, custom.data_offset).0[k].0;
    &&& number == 5 ==> !knows_segments(before, custom, k) && segment_table(
        bytes_of(custom, k),
    ) is Some
    &&& number == 8 ==> !knows_symbols(before, custom, k) && symbol_table(
        bytes_of(custom, k),
    ) is Some
}

/// Whether an error is that of the part at position `k`.
pub open spec fn is_fault(
    before: &RelocInfoParser,
    custom: &CustomSection,
    k: int,
    error: RelocError,
) -> bool {
    let number = linking_subsections(custom.data@, custom.data_offset).0[k].0;
    if number == 5 && knows_segments(before, custom, k) {
        error is DuplicateSegments
    } else if number == 8 && knows_symbols(before, custom, k) {
        error is DuplicateSymbols
    } else {
        error is Read
    }
}

/// Whether an error stands for another one.
spec fn is_told(fault: LinkError, error: RelocError) -> bool {
    match fault {
        LinkError::DuplicateSegments => error is DuplicateSegments,
        LinkError::DuplicateSymbols => error is DuplicateSymbols,
        LinkError::Read => error is Read,
    }
}

/// What the first `n` parts lead to.
proof fn lemma_parts(
    before: &RelocInfoParser,
    custom: &CustomSection,
    state: LinkState,
    n: int,
    error: RelocError,
)
    requires
        state.symbols.len() == before.info().symbols@.len(),
        state.segments.len() == before.info().segments@.len(),
        0 <= n <= linking_subsections(custom.data@, custom.data_offset).0.len(),
    ensures
        ({
            let parts = linking_subsections(custom.data@, custom.data_offset).0;
            let (end, fault) = link_parts(state, parts.take(n), custom.data@, custom.data_offset);
            match fault {
                None => {
                    &&& forall|k: int| 0 <= k < n ==> #[trigger] is_good(before, custom, k)
                    &&& end.symbols.len() > 0 <==> knows_symbols(before, custom, n)
                    &&& end.segments.len() > 0 <==> knows_segments(before, custom, n)
                },
                Some(fault) => exists|k: int|
                    {
                        &&& 0 <= k < n
                        &&& !#[trigger] is_good(before, custom, k)
                        &&& forall|j: int| 0 <= j < k ==> #[trigger] is_good(before, custom, j)
                        &&& is_told(fault, error) ==> is_fault(before, custom, k, error)
                    },
            }
        }),
    decreases n,
{
    let parts = linking_subsections(custom.data@, custom.data_offset).0;
    if n > 0 {
        let m = n - 1;
        lemma_parts(before, custom, state, m, error);
        assert(parts.take(n).drop_last() =~= parts.take(m));
        assert(parts.take(n).last() == parts[m]);
        let (mid, first) = link_parts(state, parts.take(m), custom.data@, custom.data_offset);
        let (end, fault) = link_parts(state, parts.take(n), custom.data@, custom.data_offset);
        match first {
            Some(fault) => {
                let k = choose|k: int|
                    {
                        &&& 0 <= k < m
                        &&& !#[trigger] is_good(before, custom, k)
                        &&& forall|j: int| 0 <= j < k ==> #[trigger] is_good(before, custom, j)
                        &&& is_told(fault, error) ==> is_fault(before, custom, k, error)
                    };
                assert(!is_good(before, custom, k));
            },
            None => {
                assert((end, fault) == link_part(
                    mid,
                    parts[m],
                    custom.data@,
                    custom.data_offset,
                ));
                assert(knows_symbols(before, custom, n) <==> knows_symbols(before, custom, m)
                    || has_symbols(custom, m)) by {
                    if exists|j: int| 0 <= j < n && #[trigger] has_symbols(custom, j) {
                        let j = choose|j: int| 0 <= j < n && #[trigger] has_symbols(custom, j);
                        assert(has_symbols(custom, j));
                    }
                }
                assert(knows_segments(before, custom, n) <==> knows_segments(before, custom, m)
                    || has_segments(custom, m)) by {
                    if exists|j: int| 0 <= j < n && #[trigger] has_segments(custom, j) {
                        let j = choose|j: int| 0 <= j < n && #[trigger] has_segments(custom, j);
                        assert(has_segments(custom, j));
                    }
                }
                let bytes = bytes_of(custom, m);
                if let Some(table) = symbol_table(bytes) {
                    assert(symbols_of(table).len() == table.len());
                }
                match fault {
                    None => {
                        assert(is_good(before, custom, m));
                    },
                    Some(fault) => {
                        assert(!is_good(before, custom, m));
                        assert(is_told(fault, error) ==> is_fault(before, custom, m, error));
                    },
                }
            },
        }
    }
}

/// A linking section can be used if and only if it can be read, and all of its parts can be used.
/// Otherwise the error is that of the first part that cannot be used, or says that the rest cannot
/// be read.
pub proof fn lemma_linking_used(
    before: &RelocInfoParser,
    after: &RelocInfoParser,
    payload: &Payload,
    visited: Result<(), RelocError>,
    custom: &CustomSection,
)
    requires
        payload_visited(before, after, payload, visited),
        payload.kind == PayloadKind::CustomSection(*custom),
        custom.name@ == "linking"@,
    ensures
        after.has_linking(),
        visited is Ok <==> !linking_subsections(custom.data@, custom.data_offset).1 && forall|k: int|
            0 <= k < linking_subsections(custom.data@, custom.data_offset).0.len()
                ==> #[trigger] is_good(before, custom, k),
        visited matches Err(error) ==> (error is Read && linking_subsections(
            custom.data@,
            custom.data_offset,
        ).1 && forall|k: int|
            0 <= k < linking_subsections(custom.data@, custom.data_offset).0.len()
                ==> #[trigger] is_good(before, custom, k)) || exists|k: int|
            {
                &&& 0 <= k < linking_subsections(custom.data@, custom.data_offset).0.len()
                &&& !#[trigger] is_good(before, custom, k)
                &&& forall|j: int| 0 <= j < k ==> #[trigger] is_good(before, custom, j)
                &&& is_fault(before, custom, k, error)
            },
{
    let mid = lemma_custom(before, after, payload, visited, custom);
    let (parts, failed) = linking_subsections(custom.data@, custom.data_offset);
    let n = parts.len() as int;
    let state = mid.link_state();
    let error = if let Err(error) = visited {
        error
    } else {
        RelocError::NoLinkingSection
    };
    assert(parts.take(n) =~= parts);
    lemma_parts(before, custom, state, n, error);
}

/// What is not told by a linking section stays as it was.
pub proof fn lemma_linking_keeps(
    before: &RelocInfoParser,
    after: &RelocInfoParser,
    payload: &Payload,
    visited: Result<(), RelocError>,
    custom: &CustomSection,
)
    requires
        payload_visited(before, after, payload, visited),
        payload.kind == PayloadKind::CustomSection(*custom),
        custom.name@ == "linking"@,
    ensures
        after.info().relocs == before.info().relocs,
        after.info().code_section_index == before.info().code_section_index,
        after.info().data_section_index == before.info().data_section_index,
{
    let mid = lemma_custom(before, after, payload, visited, custom);
}

/// A relocation section that cannot be read makes for an error, and for no relocations.
pub proof fn lemma_relocs_unread(
    before: &RelocInfoParser,
    after: &RelocInfoParser,
    payload: &Payload,
    visited: Result<(), RelocError>,
    custom: &CustomSection,
)
    requires
        payload_visited(before, after, payload, visited),
        payload.kind == PayloadKind::CustomSection(*custom),
        custom.name@.len() >= 6,
        custom.name@.take(6) == "reloc."@,
        reloc_section(custom.data@) is None,
    ensures
        visited matches Err(error) && error is Read,
        after.info().relocs == before.info().relocs,
        after.info().symbols == before.info().symbols,
        after.has_linking() == before.has_linking(),
{
    let mid = lemma_custom(before, after, payload, visited, custom);
    reveal_strlit("linking");
    reveal_strlit("reloc.");
    assert(custom.name@[0] == custom.name@.take(6)[0]);
    assert(custom.name@[0] == 'r');
    assert("linking"@[0] == 'l');
    assert(custom.name@.subrange(0, 6) =~= custom.name@.take(6));
}

} // verus!
