//! Finding relocations, and applying them.
use crate::read::{InputModule, InputOffset};
use crate::reloc::encode::{encode_for_ty, encoding_of};
use crate::reloc::expand::{
    can_expand, expand_error, expands, extent, lemma_extent, RelocDetails, RelocError,
};
use crate::reloc::info::{RelocInfo, RelocationEntry, SectionIndex};
use crate::util::{find_subrange, true_from, true_until};
use std::ops::Range;
use vstd::prelude::*;
use vstd::slice::slice_subrange;

verus! {

/// The relocations of a section.
pub open spec fn section_relocs(info: &RelocInfo, section: SectionIndex) -> Seq<RelocationEntry> {
    if info.relocs@.contains_key(section) {
        info.relocs@[section]@
    } else {
        Seq::empty()
    }
}

/// Whether section `k` is the first one that ends at or behind the end of a range, and holds all of
/// the range.
pub open spec fn holds_range(
    sections: Seq<Range<InputOffset>>,
    range: Range<InputOffset>,
    k: int,
) -> bool {
    &&& 0 <= k < sections.len()
    &&& sections[k].start <= range.start
    &&& range.end <= sections[k].end
    &&& forall|j: int| 0 <= j < k ==> (#[trigger] sections[j]).end < range.end
}

/// The sections are in the order of their ends.
pub open spec fn sections_in_order(sections: Seq<Range<InputOffset>>) -> bool {
    forall|i: int, j: int|
        0 <= i < j < sections.len() ==> (#[trigger] sections[i]).end <= (#[trigger] sections[j]).end
}

/// The relocations are in the order of their offsets.
pub open spec fn relocs_in_order(relocs: Seq<RelocationEntry>) -> bool {
    forall|i: int, j: int|
        0 <= i < j < relocs.len() ==> (#[trigger] relocs[i]).offset <= (
        #[trigger] relocs[j]).offset
}

/// `part` are the relocations with an offset from `start` on and before `end`, in order.
pub open spec fn relocs_between(
    relocs: Seq<RelocationEntry>,
    start: int,
    end: int,
    part: Seq<RelocationEntry>,
) -> bool {
    exists|a: int, b: int|
        {
            &&& 0 <= a <= b <= relocs.len()
            &&& part == #[trigger] relocs.subrange(a, b)
            &&& forall|i: int|
                0 <= i < relocs.len() ==> (a <= i < b <==> start <= (#[trigger] relocs[i]).offset
                    < end)
        }
}

impl RelocInfo {
    /// Where a section starts.
    pub fn section_offset(&self, section: SectionIndex) -> (offset: InputOffset)
        requires
            section < self.section_ranges@.len(),
        ensures
            offset == self.section_ranges@[section as int].start,
    {
        self.section_ranges[section].start
    }

    /// Where the data section starts.
    pub fn data_section_offset(&self) -> (offset: InputOffset)
        requires
            self.data_section_index < self.section_ranges@.len(),
        ensures
            offset == self.section_ranges@[self.data_section_index as int].start,
    {
        self.section_offset(self.data_section_index)
    }

    /// Where the code section starts.
    pub fn code_section_offset(&self) -> (offset: InputOffset)
        requires
            self.code_section_index < self.section_ranges@.len(),
        ensures
            offset == self.section_ranges@[self.code_section_index as int].start,
    {
        self.section_offset(self.code_section_index)
    }

    /// The relocations of a section.
    pub fn iter_section_relocs(&self, section: SectionIndex) -> (relocs: &[RelocationEntry])
        ensures
            relocs@ == section_relocs(self, section),
    {
        match self.relocs.get(&section) {
            Some(relocs) => relocs.as_slice(),
            None => {
                let none: &[RelocationEntry] = &[];
                assert(none@ =~= Seq::empty());
                none
            },
        }
    }

    /// The relocations of the data section.
    pub fn iter_data_relocs(&self) -> (relocs: &[RelocationEntry])
        ensures
            relocs@ == section_relocs(self, self.data_section_index),
    {
        self.iter_section_relocs(self.data_section_index)
    }

    /// The relocations of the code section.
    pub fn iter_code_relocs(&self) -> (relocs: &[RelocationEntry])
        ensures
            relocs@ == section_relocs(self, self.code_section_index),
    {
        self.iter_section_relocs(self.code_section_index)
    }

    /// Whether the relocations for a range can be found: one section holds the range, and the
    /// sections and its relocations are in order.
    pub open spec fn can_find(&self, range: Range<InputOffset>) -> bool {
        &&& range.start <= range.end
        &&& sections_in_order(self.section_ranges@)
        &&& exists|k: int| #[trigger] holds_range(self.section_ranges@, range, k)
        &&& relocs_in_order(section_relocs(self, self.section_of(range) as usize))
    }

    /// The section that holds a range.
    pub open spec fn section_of(&self, range: Range<InputOffset>) -> int {
        choose|k: int| #[trigger] holds_range(self.section_ranges@, range, k)
    }

    /// Finds the section that holds a range, and the relocations whose offset is in the range.
    pub fn get_relocations_for_range(&self, range: &Range<InputOffset>) -> (found: (
        InputOffset,
        &[RelocationEntry],
    ))
        requires
            self.can_find(*range),
        ensures
            ({
                let k = self.section_of(*range);
                let start = self.section_ranges@[k].start;
                &&& holds_range(self.section_ranges@, *range, k)
                &&& found.0 == start
                &&& relocs_between(
                    section_relocs(self, k as usize),
                    range.start - start,
                    range.end - start,
                    found.1@,
                )
            }),
    {
        let ghost k = self.section_of(*range);
        let ghost sections = self.section_ranges@;
        let end: usize = range.end;
        let reaches = |section_range: &Range<usize>| -> (b: bool)
            ensures
                b == (section_range.end >= end),
            { section_range.end >= end };
        let starts = |section_range: &Range<usize>| -> (b: bool)
            ensures
                b == (section_range.start < end),
            { section_range.start < end };
        proof {
            assert(holds_range(sections, *range, k));
            assert(true_from(reaches, sections, k)) by {
                assert forall|i: int, b: bool|
                    0 <= i < sections.len() && #[trigger] reaches.ensures(
                        (&sections[i],),
                        b,
                    ) implies b == (i >= k) by {
                    if i > k {
                        assert(sections[k].end <= sections[i].end);
                    }
                }
            }
        }
        let target_sections = find_subrange(self.section_ranges.as_slice(), reaches, starts);
        let section: usize = target_sections.start;
        let section_start: usize = self.section_ranges[section].start;
        let from: usize = range.start - section_start;
        let to: usize = range.end - section_start;
        let relocs = self.iter_section_relocs(section);
        let after = |reloc: &RelocationEntry| -> (b: bool)
            ensures
                b == (reloc.offset >= from),
            { reloc.offset as usize >= from };
        let before = |reloc: &RelocationEntry| -> (b: bool)
            ensures
                b == (reloc.offset < to),
            { (reloc.offset as usize) < to };
        let ghost a = count_below(relocs@, from as int);
        let ghost b = count_below(relocs@, to as int);
        proof {
            assert(relocs_in_order(section_relocs(self, section)));
            lemma_count_below(relocs@, from as int);
            lemma_count_below(relocs@, to as int);
            assert(true_from(after, relocs@, a));
            assert(true_until(before, relocs@, b));
            assert(a <= b) by {
                if b < a {
                    assert(relocs@[b].offset < from);
                }
            }
        }
        let reloc_range = find_subrange(relocs, after, before);
        let part = slice_subrange(relocs, reloc_range.start, reloc_range.end);
        proof {
            assert(part@ == relocs@.subrange(a, b));
            assert(relocs_between(relocs@, from as int, to as int, part@));
        }
        (section_start, part)
    }
}

/// Gives the values that relocations write.
pub trait RelocTarget {
    /// The new value of what a relocation refers to, or none if it stays as it is.
    fn reloc_value(&self, reloc: RelocDetails<'_>) -> Result<Option<usize>, RelocError>;
}

/// Whether a target may give `answer` for what a relocation refers to.
pub open spec fn answers<T: RelocTarget>(
    target: &T,
    details: RelocDetails,
    answer: Result<Option<usize>, RelocError>,
) -> bool {
    call_ensures(T::reloc_value, (target, details), answer)
}

/// The value that a relocation writes, when what it refers to has the given value.
pub open spec fn relocated_value(relocation: RelocationEntry, value: usize) -> int {
    value + relocation.addend
}

/// Whether the value that a relocation writes fits into its place.
pub open spec fn value_fits(relocation: RelocationEntry, value: usize) -> bool {
    &&& value <= i64::MAX
    &&& i64::MIN <= relocated_value(relocation, value) <= i64::MAX
    &&& encoding_of(relocation.ty).fits(relocated_value(relocation, value))
}

/// `after` is `before` with the bytes from `at` on changed by a relocation, when what it refers to
/// has the given value.
pub open spec fn is_relocated(
    before: Seq<u8>,
    after: Seq<u8>,
    at: int,
    relocation: RelocationEntry,
    value: usize,
) -> bool {
    &&& same_outside(before, after, at, at + extent(relocation.ty))
    &&& encoding_of(relocation.ty).writes(
        relocated_value(relocation, value),
        after.subrange(at, at + extent(relocation.ty)),
    )
}

/// `after` differs from `before` only from `start` on and before `end`.
pub open spec fn same_outside(before: Seq<u8>, after: Seq<u8>, start: int, end: int) -> bool {
    &&& after.len() == before.len()
    &&& forall|i: int|
        0 <= i < before.len() && !(start <= i < end) ==> #[trigger] after[i] == before[i]
}

/// Whether the value that a relocation writes fits into its place.
pub fn can_relocate(relocation: &RelocationEntry, value: usize) -> (fits: bool)
    ensures
        fits == value_fits(*relocation, value),
{
    if value as u64 > 0x7fff_ffff_ffff_ffff {
        return false;
    }
    match (value as i64).checked_add(relocation.addend) {
        Some(sum) => encode_for_ty(relocation.ty).can_write(sum),
        None => false,
    }
}

/// Changes the bytes from `at` on by a relocation, when what it refers to has the given value.
pub fn write_relocation(data: &mut Vec<u8>, at: usize, relocation: &RelocationEntry, value: usize)
    requires
        value_fits(*relocation, value),
        at + extent(relocation.ty) <= old(data)@.len(),
    ensures
        is_relocated(old(data)@, final(data)@, at as int, *relocation, value),
{
    proof {
        lemma_extent(relocation.ty);
    }
    let sum: i64 = value as i64 + relocation.addend;
    encode_for_ty(relocation.ty).write(sum, data, at);
}

/// Whether a relocation of a section that starts at `reloc_base` changes only bytes of the `len`
/// ones from `data_offset` on.
pub open spec fn is_inside(
    relocation: RelocationEntry,
    reloc_base: InputOffset,
    data_offset: InputOffset,
    len: nat,
) -> bool {
    &&& data_offset <= reloc_base + relocation.offset
    &&& reloc_base + relocation.offset + extent(relocation.ty) <= data_offset + len
}

/// What applying a relocation comes to, when the target gives `answer`. Nothing changes if there is
/// no value or an error.
pub open spec fn outcome(
    relocation: RelocationEntry,
    at: int,
    before: Seq<u8>,
    answer: Result<Option<usize>, RelocError>,
    after: Seq<u8>,
    applied: Result<(), RelocError>,
) -> bool {
    match answer {
        Ok(Some(value)) => if value_fits(relocation, value) {
            applied == Ok::<(), RelocError>(()) && is_relocated(
                before,
                after,
                at,
                relocation,
                value,
            )
        } else {
            applied == Err::<(), RelocError>(RelocError::ValueTooLarge) && after == before
        },
        Ok(None) => applied == Ok::<(), RelocError>(()) && after == before,
        Err(error) => applied == Err::<(), RelocError>(error) && after == before,
    }
}

/// What applying a relocation at position `at` comes to.
pub open spec fn applies<T: RelocTarget>(
    info: &RelocInfo,
    target: &T,
    relocation: RelocationEntry,
    at: int,
    before: Seq<u8>,
    after: Seq<u8>,
    applied: Result<(), RelocError>,
) -> bool {
    let index = relocation.index as usize;
    let symbol = info.symbols@[index as int];
    if can_expand(relocation.ty, symbol) {
        exists|details: RelocDetails, answer: Result<Option<usize>, RelocError>|
            expands(relocation.ty, symbol, index, details) && #[trigger] answers(
                target,
                details,
                answer,
            ) && outcome(relocation, at, before, answer, after, applied)
    } else {
        applied == Err::<(), RelocError>(expand_error(relocation.ty, index)) && after == before
    }
}

/// `states` are the data before and after each of the relocations that are applied one after the
/// other, up to the first error.
pub open spec fn is_trace<T: RelocTarget>(
    info: &RelocInfo,
    target: &T,
    relocs: Seq<RelocationEntry>,
    shift: int,
    states: Seq<Seq<u8>>,
    applied: Result<(), RelocError>,
) -> bool {
    &&& 1 <= states.len() <= relocs.len() + 1
    &&& applied is Ok ==> states.len() == relocs.len() + 1
    &&& applied is Err ==> states.len() > 1
    &&& forall|i: int, j: int|
        0 <= i < states.len() - 1 && j == i + 1 ==> applies(
            info,
            target,
            relocs[i],
            relocs[i].offset + shift,
            #[trigger] states[i],
            #[trigger] states[j],
            if j < states.len() - 1 {
                Ok::<(), RelocError>(())
            } else {
                applied
            },
        )
}

/// What applying relocations one after the other comes to, up to the first error.
pub open spec fn applies_all<T: RelocTarget>(
    info: &RelocInfo,
    target: &T,
    relocs: Seq<RelocationEntry>,
    shift: int,
    before: Seq<u8>,
    after: Seq<u8>,
    applied: Result<(), RelocError>,
) -> bool {
    exists|states: Seq<Seq<u8>>| #[trigger]
        is_trace(info, target, relocs, shift, states, applied) && states[0] == before
            && states.last() == after
}

/// Applying a relocation changes nothing but its own bytes.
proof fn lemma_applies_outside<T: RelocTarget>(
    info: &RelocInfo,
    target: &T,
    relocation: RelocationEntry,
    at: int,
    before: Seq<u8>,
    after: Seq<u8>,
    applied: Result<(), RelocError>,
)
    requires
        applies(info, target, relocation, at, before, after, applied),
    ensures
        same_outside(before, after, at, at + extent(relocation.ty)),
{
}

/// Applying relocations keeps the length of the data, and all bytes that none of them names.
pub proof fn lemma_unnamed_bytes<T: RelocTarget>(
    info: &RelocInfo,
    target: &T,
    relocs: Seq<RelocationEntry>,
    shift: int,
    before: Seq<u8>,
    after: Seq<u8>,
    applied: Result<(), RelocError>,
)
    requires
        applies_all(info, target, relocs, shift, before, after, applied),
    ensures
        after.len() == before.len(),
        forall|i: int|
            #![trigger after[i]]
            0 <= i < before.len() && (forall|k: int|
                0 <= k < relocs.len() ==> !((#[trigger] relocs[k]).offset + shift <= i
                    < relocs[k].offset + shift + extent(relocs[k].ty))) ==> after[i] == before[i],
{
    let states = choose|states: Seq<Seq<u8>>| #[trigger]
        is_trace(info, target, relocs, shift, states, applied) && states[0] == before
            && states.last() == after;
    assert(states[states.len() - 1] == after);
    assert forall|i: int|
        #![trigger after[i]]
        0 <= i < before.len() && (forall|k: int|
            0 <= k < relocs.len() ==> !((#[trigger] relocs[k]).offset + shift <= i
                < relocs[k].offset + shift + extent(relocs[k].ty))) implies after[i]
        == before[i] by {
        lemma_trace_keeps(info, target, relocs, shift, states, applied, i, states.len() - 1);
    }
    lemma_trace_len(info, target, relocs, shift, states, applied, states.len() - 1);
}

proof fn lemma_trace_len<T: RelocTarget>(
    info: &RelocInfo,
    target: &T,
    relocs: Seq<RelocationEntry>,
    shift: int,
    states: Seq<Seq<u8>>,
    applied: Result<(), RelocError>,
    m: int,
)
    requires
        is_trace(info, target, relocs, shift, states, applied),
        0 <= m < states.len(),
    ensures
        states[m].len() == states[0].len(),
    decreases m,
{
    if m > 0 {
        lemma_trace_len(info, target, relocs, shift, states, applied, m - 1);
        assert(states[m - 1].len() == states[m].len());
    }
}

proof fn lemma_trace_keeps<T: RelocTarget>(
    info: &RelocInfo,
    target: &T,
    relocs: Seq<RelocationEntry>,
    shift: int,
    states: Seq<Seq<u8>>,
    applied: Result<(), RelocError>,
    i: int,
    m: int,
)
    requires
        is_trace(info, target, relocs, shift, states, applied),
        0 <= m < states.len(),
        0 <= i < states[0].len(),
        forall|k: int|
            0 <= k < relocs.len() ==> !((#[trigger] relocs[k]).offset + shift <= i
                < relocs[k].offset + shift + extent(relocs[k].ty)),
    ensures
        states[m][i] == states[0][i],
    decreases m,
{
    if m > 0 {
        lemma_trace_keeps(info, target, relocs, shift, states, applied, i, m - 1);
        lemma_trace_len(info, target, relocs, shift, states, applied, m - 1);
        let step = if m < states.len() - 1 {
            Ok::<(), RelocError>(())
        } else {
            applied
        };
        let relocation = relocs[m - 1];
        lemma_applies_outside(
            info,
            target,
            relocation,
            relocation.offset + shift,
            states[m - 1],
            states[m],
            step,
        );
        assert(states[m][i] == states[m - 1][i]);
    }
}

/// What copying a part of the input module, and applying the relocations in it, comes to.
pub open spec fn relocates<T: RelocTarget>(
    module: &InputModule,
    range: Range<InputOffset>,
    target: &T,
    relocated: Result<Vec<u8>, RelocError>,
) -> bool {
    let info = &module.reloc_info;
    let k = info.section_of(range);
    let start = info.section_ranges@[k].start;
    let before = module.raw@.subrange(range.start as int, range.end as int);
    exists|relocs: Seq<RelocationEntry>, after: Seq<u8>, applied: Result<(), RelocError>|
        relocs_between(
            section_relocs(info, k as usize),
            range.start - start,
            range.end - start,
            relocs,
        ) && #[trigger] applies_all(
            info,
            target,
            relocs,
            start - range.start,
            before,
            after,
            applied,
        ) && match relocated {
            Ok(data) => applied is Ok && data@ == after,
            Err(error) => applied == Err::<(), RelocError>(error),
        }
}

impl RelocInfo {
    /// Changes data that start at `data_offset` in the input module by a relocation of a section
    /// that starts at `reloc_base`.
    pub fn apply_relocation<T: RelocTarget>(
        &self,
        reloc_target: &T,
        data: &mut Vec<u8>,
        data_offset: InputOffset,
        reloc_base: InputOffset,
        relocation: &RelocationEntry,
    ) -> (applied: Result<(), RelocError>)
        requires
            relocation.index < self.symbols@.len(),
            is_inside(*relocation, reloc_base, data_offset, old(data)@.len()),
            data_offset + old(data)@.len() <= usize::MAX,
        ensures
            applies(
                self,
                reloc_target,
                *relocation,
                reloc_base + relocation.offset - data_offset,
                old(data)@,
                final(data)@,
                applied,
            ),
    {
        let relocation_range = match relocation.relocation_range() {
            Ok(range) => range,
            Err(error) => return Err(error),
        };
        let at: usize = reloc_base + relocation_range.start - data_offset;
        let expanded = match self.expand_relocation(relocation) {
            Ok(expanded) => expanded,
            Err(error) => return Err(error),
        };
        let ghost details = expanded;
        let answer = reloc_target.reloc_value(expanded);
        assert(answers(reloc_target, details, answer));
        match answer {
            Ok(Some(value)) => {
                if !can_relocate(relocation, value) {
                    return Err(RelocError::ValueTooLarge);
                }
                write_relocation(data, at, relocation, value);
                Ok(())
            },
            Ok(None) => Ok(()),
            Err(error) => Err(error),
        }
    }

    /// Whether data of a range can be relocated: its relocations can be found, change only bytes of
    /// the range, and refer to symbols that exist.
    pub open spec fn can_relocate_range(&self, range: Range<InputOffset>) -> bool {
        let k = self.section_of(range);
        let start = self.section_ranges@[k].start;
        &&& self.can_find(range)
        &&& forall|i: int|
            #![trigger section_relocs(self, k as usize)[i]]
            0 <= i < section_relocs(self, k as usize).len() && range.start - start
                <= section_relocs(self, k as usize)[i].offset < range.end - start ==> {
                let relocation = section_relocs(self, k as usize)[i];
                &&& relocation.index < self.symbols@.len()
                &&& start + relocation.offset + extent(relocation.ty) <= range.end
            }
    }

    /// Copies a part of the input module, and applies the relocations in it.
    pub fn get_relocated_data<T: RelocTarget>(
        module: &InputModule,
        range: Range<InputOffset>,
        target: &T,
    ) -> (relocated: Result<Vec<u8>, RelocError>)
        requires
            range.start <= range.end <= module.raw@.len(),
            module.reloc_info.can_relocate_range(range),
        ensures
            relocates(module, range, target, relocated),
    {
        let this = &module.reloc_info;
        let mut data: Vec<u8> = Vec::new();
        data.extend_from_slice(
            slice_subrange(module.raw.as_slice(), range.start, range.end),
        );
        let ghost before = module.raw@.subrange(range.start as int, range.end as int);
        assert(data@ =~= before);
        let (reloc_base, relocs) = this.get_relocations_for_range(&range);
        let ghost k = this.section_of(range);
        let ghost shift = reloc_base - range.start;
        let ghost all = relocs@;
        let ghost mut states: Seq<Seq<u8>> = seq![before];
        let total: usize = module.raw.len();
        for i in 0..relocs.len()
            invariant
                all == relocs@,
                before == module.raw@.subrange(range.start as int, range.end as int),
                this == &module.reloc_info,
                k == this.section_of(range),
                reloc_base == this.section_ranges@[k].start,
                shift == reloc_base - range.start,
                range.start <= range.end <= module.raw@.len(),
                module.raw@.len() == total,
                data@.len() == range.end - range.start,
                this.can_relocate_range(range),
                relocs_between(
                    section_relocs(this, k as usize),
                    range.start - reloc_base,
                    range.end - reloc_base,
                    all,
                ),
                states.len() == i + 1,
                states[0] == before,
                states[i as int] == data@,
                forall|m: int, j: int|
                    0 <= m < i && j == m + 1 ==> applies(
                        this,
                        target,
                        all[m],
                        all[m].offset + shift,
                        #[trigger] states[m],
                        #[trigger] states[j],
                        Ok::<(), RelocError>(()),
                    ),
        {
            let ghost mid = data@;
            let ghost relocation = all[i as int];
            proof {
                let list = section_relocs(this, k as usize);
                let (a, b) = choose|a: int, b: int|
                    {
                        &&& 0 <= a <= b <= list.len()
                        &&& all == #[trigger] list.subrange(a, b)
                        &&& forall|i: int|
                            0 <= i < list.len() ==> (a <= i < b <==> range.start - reloc_base <= (
                            #[trigger] list[i]).offset < range.end - reloc_base)
                    };
                assert(relocation == list[a + i]);
            }
            let applied = this.apply_relocation(
                target,
                &mut data,
                range.start,
                reloc_base,
                &relocs[i],
            );
            proof {
                lemma_applies_outside(
                    this,
                    target,
                    relocation,
                    relocation.offset + shift,
                    mid,
                    data@,
                    applied,
                );
                states = states.push(data@);
            }
            if let Err(error) = applied {
                proof {
                    assert(is_trace(this, target, all, shift, states, Err(error)));
                    assert(states.last() == data@);
                    assert(applies_all(this, target, all, shift, before, data@, Err(error)));
                }
                return Err(error);
            }
        }
        proof {
            assert(is_trace(this, target, all, shift, states, Ok(())));
            assert(states.last() == data@);
            assert(applies_all(this, target, all, shift, before, data@, Ok(())));
        }
        Ok(data)
    }
}

/// How many of the first relocations have an offset below a bound.
spec fn count_below(relocs: Seq<RelocationEntry>, bound: int) -> int
    decreases relocs.len(),
{
    if relocs.len() == 0 {
        0
    } else if relocs.last().offset < bound {
        relocs.len() as int
    } else {
        count_below(relocs.drop_last(), bound)
    }
}

/// Relocations in order have the offsets below a bound first.
proof fn lemma_count_below(relocs: Seq<RelocationEntry>, bound: int)
    requires
        relocs_in_order(relocs),
    ensures
        0 <= count_below(relocs, bound) <= relocs.len(),
        forall|i: int|
            0 <= i < relocs.len() ==> (i < count_below(relocs, bound) <==> (
            #[trigger] relocs[i]).offset < bound),
    decreases relocs.len(),
{
    if relocs.len() > 0 {
        let rest = relocs.drop_last();
        if relocs.last().offset < bound {
            assert forall|i: int| 0 <= i < relocs.len() implies (#[trigger] relocs[i]).offset
                < bound by {
                if i < relocs.len() - 1 {
                    assert(relocs[i].offset <= relocs[relocs.len() - 1].offset);
                }
            }
        } else {
            assert forall|i: int, j: int| 0 <= i < j < rest.len() implies (
            #[trigger] rest[i]).offset <= (#[trigger] rest[j]).offset by {
                assert(relocs[i].offset <= relocs[j].offset);
            }
            lemma_count_below(rest, bound);
            assert forall|i: int| 0 <= i < relocs.len() implies (i < count_below(relocs, bound)
                <==> (#[trigger] relocs[i]).offset < bound) by {
                if i < relocs.len() - 1 {
                    assert(rest[i] == relocs[i]);
                }
            }
        }
    }
}

} // verus!
