//! Which relocations are in which pieces of data and functions, told by their places.
use crate::data_deps::{fits, reloc_end, reloc_start, sweep, DataDependency, SweepError};
use crate::data_laws::{
    contains_reloc, data_edges, has_place, is_smallest, lemma_dependencies_sound, lemma_error_found,
    lemma_relocs_reported, reloc_of, reported, reports, symbols_forward, symbols_in_order,
    touches_reloc,
};
use crate::func_relocs::{
    bodies_apart, body_contains, can_assign, code_base, code_relocs, func_error, func_place,
    in_some_body, is_in, lemma_func_contains, reach_of, FuncRelocError,
};
use crate::graph_utils::reach::reach;
use crate::read::InputModule;
use crate::reloc::apply::{relocs_between, relocs_in_order};
use crate::reloc::expand::extent;
use crate::reloc::info::{DataSymbol, RelocationEntry};
use crate::reloc::value_laws::width;
use vstd::prelude::*;

verus! {

/// Whether a relocation of a section that starts at `base` is inside a piece of data.
pub open spec fn is_inside(
    symbols: Seq<DataSymbol>,
    base: usize,
    x: usize,
    relocation: RelocationEntry,
) -> bool {
    &&& x < symbols.len()
    &&& symbols[x as int].range.start <= base + relocation.offset
    &&& base + relocation.offset + width(relocation.ty) <= symbols[x as int].range.end
}

/// Whether a relocation of a section that starts at `base` has a byte in common with a piece of
/// data.
pub open spec fn is_touched(
    symbols: Seq<DataSymbol>,
    base: usize,
    x: usize,
    relocation: RelocationEntry,
) -> bool {
    &&& x < symbols.len()
    &&& base + relocation.offset < symbols[x as int].range.end
    &&& symbols[x as int].range.start < base + relocation.offset + width(relocation.ty)
}

/// Whether a relocation has a byte in common with some piece of data.
pub open spec fn is_touched_at_all(
    symbols: Seq<DataSymbol>,
    base: usize,
    relocation: RelocationEntry,
) -> bool {
    exists|x: usize| #[trigger] is_touched(symbols, base, x, relocation)
}

/// Whether the end of a relocation can be written down.
pub open spec fn has_end(relocation: RelocationEntry) -> bool {
    relocation.offset + width(relocation.ty) <= usize::MAX
}

/// Whether a relocation is inside a piece of data, and its end can be written down.
pub open spec fn is_housed(
    symbols: Seq<DataSymbol>,
    base: usize,
    relocation: RelocationEntry,
) -> bool {
    has_end(relocation) && exists|x: usize| #[trigger] is_inside(symbols, base, x, relocation)
}

/// How long a piece of data is.
pub open spec fn len_of(symbols: Seq<DataSymbol>, x: usize) -> int {
    symbols[x as int].range.end - symbols[x as int].range.start
}

/// Whether data and relocations are in the order of their places.
pub open spec fn in_place(symbols: Seq<DataSymbol>, relocs: Seq<RelocationEntry>) -> bool {
    &&& symbols.len() <= usize::MAX
    &&& relocs.len() <= usize::MAX
    &&& forall|i: int, j: int|
        0 <= i < j < symbols.len() ==> (#[trigger] symbols[i]).range.start <= (
        #[trigger] symbols[j]).range.start
    &&& forall|i: int|
        0 <= i < symbols.len() ==> (#[trigger] symbols[i]).range.start <= symbols[i].range.end
    &&& forall|i: int, j: int|
        0 <= i < j < relocs.len() ==> (#[trigger] relocs[i]).offset <= (
        #[trigger] relocs[j]).offset
}

/// The bytes of a relocation.
proof fn lemma_inside(
    symbols: Seq<DataSymbol>,
    base: usize,
    x: usize,
    relocation: RelocationEntry,
)
    ensures
        contains_reloc(symbols, base, x, relocation) <==> is_inside(symbols, base, x, relocation),
        touches_reloc(symbols, base, x, relocation) <==> is_touched(symbols, base, x, relocation),
        fits(relocation) <==> has_end(relocation),
        extent(relocation.ty) == width(relocation.ty),
        reloc_end(base, relocation) == base + relocation.offset + width(relocation.ty),
        reloc_start(base, relocation) == base + relocation.offset,
{
}

/// Data and relocations are in order.
proof fn lemma_in_place(symbols: Seq<DataSymbol>, relocs: Seq<RelocationEntry>)
    requires
        in_place(symbols, relocs),
    ensures
        symbols_in_order(symbols),
        symbols_forward(symbols),
        relocs_in_order(relocs),
{
}

/// All relocations are found a place if and only if each is inside a piece of data.
pub proof fn lemma_all_inside(symbols: Seq<DataSymbol>, relocs: Seq<RelocationEntry>, base: usize)
    requires
        in_place(symbols, relocs),
    ensures
        sweep(symbols, relocs, base, 0, 0, Seq::empty()).1 is None <==> forall|r: int|
            0 <= r < relocs.len() ==> is_housed(symbols, base, #[trigger] relocs[r]),
{
    lemma_in_place(symbols, relocs);
    match sweep(symbols, relocs, base, 0, 0, Seq::empty()).1 {
        None => {
            assert forall|r: int| 0 <= r < relocs.len() implies is_housed(
                symbols,
                base,
                #[trigger] relocs[r],
            ) by {
                let at = r as usize;
                lemma_smallest_found(symbols, relocs, base, at);
            }
        },
        Some(error) => {
            lemma_error_found(symbols, relocs, base, error);
            let at = reloc_of(error) as int;
            lemma_inside(symbols, base, 0, relocs[at]);
            if forall|r: int|
                0 <= r < relocs.len() ==> is_housed(symbols, base, #[trigger] relocs[r]) {
                assert(is_housed(symbols, base, relocs[at]));
                let x = choose|x: usize| #[trigger] is_inside(symbols, base, x, relocs[at]);
                lemma_inside(symbols, base, x, relocs[at]);
                assert(contains_reloc(symbols, base, x, relocs[at]));
                assert(touches_reloc(symbols, base, x, relocs[at])) by {
                    assert(symbols[x as int].range.start <= symbols[x as int].range.end);
                }
            }
        },
    }
}

/// Each relocation is found the smallest piece of data that it is inside of: the last one, if there
/// are several.
pub proof fn lemma_smallest_found(
    symbols: Seq<DataSymbol>,
    relocs: Seq<RelocationEntry>,
    base: usize,
    r: usize,
)
    requires
        in_place(symbols, relocs),
        sweep(symbols, relocs, base, 0, 0, Seq::empty()).1 is None,
        r < relocs.len(),
    ensures
        has_end(relocs[r as int]),
        exists|t: usize|
            {
                &&& sweep(symbols, relocs, base, 0, 0, Seq::empty()).0.contains(
                    DataDependency::Reloc { symbol: t, reloc: r },
                )
                &&& #[trigger] is_inside(symbols, base, t, relocs[r as int])
                &&& forall|x: usize| #[trigger]
                    is_inside(symbols, base, x, relocs[r as int]) ==> len_of(symbols, t) < len_of(
                        symbols,
                        x,
                    ) || (len_of(symbols, t) == len_of(symbols, x) && x <= t)
            },
{
    lemma_in_place(symbols, relocs);
    lemma_relocs_reported(symbols, relocs, base, r);
    let deps = sweep(symbols, relocs, base, 0, 0, Seq::empty()).0;
    let relocation = relocs[r as int];
    assert(reported(symbols, relocs, base, deps, r));
    let t = choose|t: usize|
        #[trigger] reports(deps, t, r) && is_smallest(symbols, base, t, relocation)
            && forall|x: usize|
            #[trigger] contains_reloc(symbols, base, x, relocation) ==> reach(
                data_edges(deps),
                x,
                t,
            );
    lemma_inside(symbols, base, t, relocation);
    assert forall|x: usize| #[trigger] is_inside(symbols, base, x, relocation) implies len_of(
        symbols,
        t,
    ) < len_of(symbols, x) || (len_of(symbols, t) == len_of(symbols, x) && x <= t) by {
        lemma_inside(symbols, base, x, relocation);
        assert(contains_reloc(symbols, base, x, relocation));
    }
}

/// The first relocation that is not inside a piece of data is named, and whether its end is too
/// large, it has no byte in common with any piece of data, or it sticks out.
pub proof fn lemma_first_outside(
    symbols: Seq<DataSymbol>,
    relocs: Seq<RelocationEntry>,
    base: usize,
    error: SweepError,
    k: int,
    x: usize,
)
    requires
        in_place(symbols, relocs),
        sweep(symbols, relocs, base, 0, 0, Seq::empty()).1 == Some(error),
    ensures
        ({
            let at = match error {
                SweepError::TooFar { reloc } => reloc,
                SweepError::NoSymbol { reloc } => reloc,
                SweepError::NotInside { reloc } => reloc,
            };
            &&& at < relocs.len()
            &&& 0 <= k < at ==> is_housed(symbols, base, relocs[k])
            &&& error is TooFar <==> !has_end(relocs[at as int])
            &&& error is NoSymbol ==> !is_touched(symbols, base, x, relocs[at as int])
            &&& error is NotInside ==> !is_inside(symbols, base, x, relocs[at as int])
                && is_touched_at_all(symbols, base, relocs[at as int])
        }),
{
    lemma_in_place(symbols, relocs);
    lemma_error_found(symbols, relocs, base, error);
    let at = reloc_of(error);
    lemma_inside(symbols, base, x, relocs[at as int]);
    if 0 <= k < at {
        assert(has_place(symbols, base, relocs[(k as usize) as int]));
        let y = choose|y: usize| #[trigger] contains_reloc(symbols, base, y, relocs[k]);
        lemma_inside(symbols, base, y, relocs[k]);
        assert(is_inside(symbols, base, y, relocs[k]));
        assert(is_housed(symbols, base, relocs[k]));
    }
    if error is NotInside {
        let y = choose|y: usize| #[trigger] touches_reloc(symbols, base, y, relocs[at as int]);
        lemma_inside(symbols, base, y, relocs[at as int]);
        assert(is_touched(symbols, base, y, relocs[at as int]));
        assert(is_touched_at_all(symbols, base, relocs[at as int]));
    }
}

/// Whether the piece of data `y` starts in `x`.
pub open spec fn starts_in(symbols: Seq<DataSymbol>, x: usize, y: usize) -> bool {
    &&& x < symbols.len() && y < symbols.len()
    &&& symbols[x as int].range.start <= symbols[y as int].range.start < symbols[x as int].range.end
}

/// What is found of data and relocations holds of their places.
pub proof fn lemma_found_places(
    symbols: Seq<DataSymbol>,
    relocs: Seq<RelocationEntry>,
    base: usize,
    i: int,
)
    requires
        in_place(symbols, relocs),
        0 <= i < sweep(symbols, relocs, base, 0, 0, Seq::empty()).0.len(),
    ensures
        match sweep(symbols, relocs, base, 0, 0, Seq::empty()).0[i] {
            DataDependency::Reloc { symbol, reloc } => reloc < relocs.len() && is_inside(
                symbols,
                base,
                symbol,
                relocs[reloc as int],
            ),
            DataDependency::Containment { container, inner } => starts_in(symbols, container, inner)
                && symbols[inner as int].range.end <= symbols[container as int].range.end,
            DataDependency::DirectedOverlap { from, to, back_to, container } => {
                &&& starts_in(symbols, from, to)
                &&& starts_in(symbols, back_to, to)
                &&& symbols[back_to as int].range.end < symbols[to as int].range.end
                &&& container matches Some(outer) ==> starts_in(symbols, outer, to)
                    && symbols[to as int].range.end <= symbols[outer as int].range.end
            },
        },
{
    lemma_in_place(symbols, relocs);
    lemma_dependencies_sound(symbols, relocs, base, i);
    if let DataDependency::Reloc { symbol, reloc } = sweep(
        symbols,
        relocs,
        base,
        0,
        0,
        Seq::empty(),
    ).0[i] {
        lemma_inside(symbols, base, symbol, relocs[reloc as int]);
    }
}

/// Whether a relocation of the code section is in the body of the function that the module defines
/// at position `j`.
pub open spec fn is_in_body(module: &InputModule, i: int, j: int) -> bool {
    let info = &module.reloc_info;
    let base = info.section_ranges@[info.code_section_index as int].start;
    let relocation = info.relocs@[info.code_section_index]@[i];
    &&& 0 <= j < module.defined_funcs@.len()
    &&& module.defined_funcs@[j].body.start <= base + relocation.offset
    &&& base + relocation.offset + width(relocation.ty) <= module.defined_funcs@[j].body.end
}

/// Whether the code section has a relocation at position `i`.
pub open spec fn has_reloc_at(module: &InputModule, i: int) -> bool {
    let info = &module.reloc_info;
    &&& info.relocs@.contains_key(info.code_section_index)
    &&& 0 <= i < info.relocs@[info.code_section_index]@.len()
}

/// A relocation is taken to be in the function whose body it is in, if the bodies follow each other
/// and all relocations are in bodies and in order.
pub proof fn lemma_function_found(module: &InputModule, i: int, j: int, f: usize)
    requires
        can_assign(module),
        bodies_apart(module.defined_funcs@),
        relocs_in_order(code_relocs(module)),
        forall|a: int| #[trigger]
            has_reloc_at(module, a) ==> exists|b: int| #[trigger] is_in_body(module, a, b),
        has_reloc_at(module, i),
        is_in_body(module, i, j),
        is_in(module, i, f),
    ensures
        f == module.imported_funcs@.len() + j,
{
    let relocs = code_relocs(module);
    let base = code_base(module);
    assert forall|a: int| 0 <= a < relocs.len() implies in_some_body(
        module.defined_funcs@,
        base,
        #[trigger] relocs[a],
    ) by {
        assert(has_reloc_at(module, a));
        let b = choose|b: int| #[trigger] is_in_body(module, a, b);
        assert(body_contains(module.defined_funcs@, base, b, relocs[a]));
    }
    lemma_func_contains(module, i, j);
}

/// A relocation is in no function if it ends behind all of them.
pub proof fn lemma_no_function(module: &InputModule, i: int)
    requires
        can_assign(module),
        has_reloc_at(module, i),
        has_end(module.reloc_info.relocs@[module.reloc_info.code_section_index]@[i]),
        forall|j: int|
            0 <= j < module.defined_funcs@.len() ==> (
            #[trigger] module.defined_funcs@[j]).body.end
                < module.reloc_info.section_ranges@[module.reloc_info.code_section_index as int].start
                + module.reloc_info.relocs@[module.reloc_info.code_section_index]@[i].offset + width(
                module.reloc_info.relocs@[module.reloc_info.code_section_index]@[i].ty,
            ),
    ensures
        func_error(module, i) matches Some(FuncRelocError::NoFunction { reloc }) && reloc == i,
{
    let relocs = code_relocs(module);
    let base = code_base(module);
    lemma_inside(Seq::empty(), base, 0, relocs[i]);
    lemma_reaches(relocs, base, i);
    lemma_behind(module.defined_funcs@, reach_of(relocs, base, i));
    let list = module.reloc_info.relocs@[module.reloc_info.code_section_index];
    assert(list.len() == list@.len());
}

/// Relocations reach at least as far as they end.
proof fn lemma_reaches(relocs: Seq<RelocationEntry>, base: usize, i: int)
    ensures
        reach_of(relocs, base, i) >= reloc_end(base, relocs[i]),
{
}

/// All functions are passed if they end earlier.
proof fn lemma_behind(funcs: Seq<crate::read::DefinedFunc>, end: int)
    requires
        forall|j: int| 0 <= j < funcs.len() ==> (#[trigger] funcs[j]).body.end < end,
    ensures
        func_place(funcs, end) == funcs.len(),
    decreases funcs.len(),
{
    if funcs.len() > 0 {
        let rest = funcs.drop_first();
        assert forall|j: int| 0 <= j < rest.len() implies (#[trigger] rest[j]).body.end < end by {
            assert(rest[j] == funcs[j + 1]);
        }
        assert(funcs[0].body.end < end);
        lemma_behind(rest, end);
    }
}

/// The relocations in a range are those whose offsets are in it, in order.
pub proof fn lemma_between(
    relocs: Seq<RelocationEntry>,
    start: int,
    end: int,
    part: Seq<RelocationEntry>,
    i: int,
)
    requires
        relocs_between(relocs, start, end, part),
    ensures
        0 <= i < relocs.len() && start <= relocs[i].offset < end ==> part.contains(relocs[i]),
        0 <= i < part.len() ==> start <= part[i].offset < end && relocs.contains(part[i]),
        exists|a: int|
            0 <= a && a + part.len() <= relocs.len() && part == #[trigger] relocs.subrange(
                a,
                a + part.len(),
            ),
{
    let (a, b) = choose|a: int, b: int|
        {
            &&& 0 <= a <= b <= relocs.len()
            &&& part == #[trigger] relocs.subrange(a, b)
            &&& forall|i: int|
                0 <= i < relocs.len() ==> (a <= i < b <==> start <= (#[trigger] relocs[i]).offset
                    < end)
        };
    assert(b == a + part.len());
    if 0 <= i < relocs.len() && start <= relocs[i].offset < end {
        assert(part[i - a] == relocs[i]);
    }
    if 0 <= i < part.len() {
        assert(part[i] == relocs[a + i]);
    }
}

} // verus!
