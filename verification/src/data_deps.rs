//! Dependencies among pieces of data, and of pieces of data on what their relocations refer to.
use crate::reloc::expand::extent;
use crate::reloc::info::{DataSymbol, RelocationEntry};
use crate::util::shift_range;
use std::ops::Range;
use vstd::prelude::*;

verus! {

/// A dependency that the places of data and relocations imply. Pieces of data and relocations are
/// given by their positions.
#[derive(Debug, PartialEq, Eq, Clone, Copy, Structural)]
#[allow(inconsistent_fields)]
pub enum DataDependency {
    /// A relocation is in a piece of data.
    Reloc {
        /// The smallest piece of data that contains the relocation.
        symbol: usize,
        /// The relocation.
        reloc: usize,
    },
    /// A piece of data contains another one.
    ///
    /// The larger one depends on the smaller one, which comes for free. This is needed, because a
    /// relocation is only reported for the smallest piece of data that it is in.
    Containment {
        /// The larger piece of data.
        container: usize,
        /// The smaller piece of data.
        inner: usize,
    },
    /// Pieces of data overlap.
    ///
    /// `to` overlaps both `from` and `back_to`, and `back_to` implies a dependency on `from`, by
    /// containment or overlap. Overlapping pieces of data depend on each other, because otherwise
    /// memory might be initialized more than once.
    DirectedOverlap {
        /// The piece of data that depends on `to`.
        from: usize,
        /// The piece of data that overlaps the others.
        to: usize,
        /// The piece of data that `to` depends on.
        back_to: usize,
        /// A piece of data that contains `to`.
        container: Option<usize>,
    },
}

/// Why relocations cannot be assigned to pieces of data.
#[derive(Debug, PartialEq, Eq, Clone, Copy, Structural)]
pub enum SweepError {
    /// The end of a relocation is too large.
    TooFar {
        /// The relocation.
        reloc: usize,
    },
    /// A relocation does not overlap any piece of data.
    NoSymbol {
        /// The relocation.
        reloc: usize,
    },
    /// A relocation overlaps pieces of data, but is not fully inside any of them.
    NotInside {
        /// The relocation.
        reloc: usize,
    },
}

/// Where a piece of data starts.
pub open spec fn start_of(symbols: Seq<DataSymbol>, k: usize) -> int {
    symbols[k as int].range.start as int
}

/// Where a piece of data ends.
pub open spec fn end_of(symbols: Seq<DataSymbol>, k: usize) -> int {
    symbols[k as int].range.end as int
}

/// Whether the end of a relocation, from the start of its section, can be written down.
pub open spec fn fits(reloc: RelocationEntry) -> bool {
    reloc.offset + extent(reloc.ty) <= usize::MAX
}

/// Whether all relocations of a section that starts at `base` whose ends can be written down are at
/// places in the input module that can be written down.
pub open spec fn all_fit(relocs: Seq<RelocationEntry>, base: usize) -> bool {
    forall|i: int|
        0 <= i < relocs.len() && fits(#[trigger] relocs[i]) ==> reloc_end(base, relocs[i])
            <= usize::MAX
}

/// Where a relocation of a section that starts at `base` starts in the input module.
pub open spec fn reloc_start(base: usize, reloc: RelocationEntry) -> int {
    base + reloc.offset
}

/// Where a relocation of a section that starts at `base` ends in the input module.
pub open spec fn reloc_end(base: usize, reloc: RelocationEntry) -> int {
    base + reloc.offset + extent(reloc.ty)
}

/// The pieces of data that may still overlap one that starts at `start`. The ends of those that are
/// `live` get smaller.
pub open spec fn without_ended(symbols: Seq<DataSymbol>, live: Seq<usize>, start: int) -> Seq<usize>
    decreases live.len(),
{
    if live.len() > 0 && end_of(symbols, live.last()) <= start {
        without_ended(symbols, live.drop_last(), start)
    } else {
        live
    }
}

/// How many pieces of data from the front on reach at least to `end`.
pub open spec fn reaching(symbols: Seq<DataSymbol>, live: Seq<usize>, end: int) -> int
    decreases live.len(),
{
    if live.len() > 0 && end <= end_of(symbols, live[0]) {
        1 + reaching(symbols, live.drop_first(), end)
    } else {
        0
    }
}

/// What may still overlap others once a piece of data is among it, and the dependency that the piece
/// of data implies.
///
/// It depends on what it reaches beyond, and what contains it depends on it. Those that are `live`
/// depend on all behind them, so the neighbors of its place are enough.
pub open spec fn take_symbol(symbols: Seq<DataSymbol>, live: Seq<usize>, s: usize) -> (
    Seq<usize>,
    Option<DataDependency>,
) {
    let left = without_ended(symbols, live, start_of(symbols, s));
    let p = reaching(symbols, left, end_of(symbols, s));
    let container = if p > 0 {
        Some(left[p - 1])
    } else {
        None
    };
    (
        left.insert(p, s),
        if p < left.len() {
            Some(
                DataDependency::DirectedOverlap {
                    from: left.last(),
                    to: s,
                    back_to: left[p],
                    container,
                },
            )
        } else {
            match container {
                Some(container) => Some(DataDependency::Containment { container, inner: s }),
                None => None,
            }
        },
    )
}

/// Whether a piece of data contains all between `start` and `end`.
pub open spec fn holds(symbols: Seq<DataSymbol>, k: usize, start: int, end: int) -> bool {
    start_of(symbols, k) <= start && end <= end_of(symbols, k)
}

/// Whether a piece of data overlaps what is between `start` and `end`.
pub open spec fn touches(symbols: Seq<DataSymbol>, k: usize, start: int, end: int) -> bool {
    start < end_of(symbols, k) && start_of(symbols, k) < end
}

/// How large a piece of data is.
pub open spec fn size_of(symbols: Seq<DataSymbol>, k: usize) -> int {
    end_of(symbols, k) - start_of(symbols, k)
}

/// Whether the piece of data `a` is smaller than `b`, or as large and behind it.
pub open spec fn is_tighter(symbols: Seq<DataSymbol>, a: usize, b: usize) -> bool {
    size_of(symbols, a) < size_of(symbols, b) || (size_of(symbols, a) == size_of(symbols, b) && b
        < a)
}

/// The smallest one of some pieces of data that contains all between `start` and `end`: the last one,
/// if there are several.
pub open spec fn home(symbols: Seq<DataSymbol>, live: Seq<usize>, start: int, end: int) -> Option<
    usize,
>
    decreases live.len(),
{
    if live.len() == 0 {
        None
    } else {
        let best = home(symbols, live.drop_last(), start, end);
        if holds(symbols, live.last(), start, end) && (best is None || is_tighter(
            symbols,
            live.last(),
            best->0,
        )) {
            Some(live.last())
        } else {
            best
        }
    }
}

/// Whether one of some pieces of data, or the one at position `s`, overlaps what is between `start`
/// and `end`.
pub open spec fn some_touch(
    symbols: Seq<DataSymbol>,
    live: Seq<usize>,
    s: int,
    start: int,
    end: int,
) -> bool {
    ||| exists|i: int| 0 <= i < live.len() && touches(symbols, #[trigger] live[i], start, end)
    ||| s < symbols.len() && touches(symbols, s as usize, start, end)
}

/// The dependencies that pieces of data from `s` on and relocations from `r` on imply, in the order
/// of their places, up to the first error. `live` are the pieces of data that may still overlap
/// others.
pub open spec fn sweep(
    symbols: Seq<DataSymbol>,
    relocs: Seq<RelocationEntry>,
    base: usize,
    s: int,
    r: int,
    live: Seq<usize>,
) -> (Seq<DataDependency>, Option<SweepError>)
    decreases symbols.len() - s + relocs.len() - r,
{
    if r < 0 || s < 0 || r > relocs.len() || s > symbols.len() || (r == relocs.len() && s
        == symbols.len()) {
        (Seq::empty(), None)
    } else if r < relocs.len() && !fits(relocs[r]) {
        (Seq::empty(), Some(SweepError::TooFar { reloc: r as usize }))
    } else if r < relocs.len() && (s == symbols.len() || start_of(symbols, s as usize)
        > reloc_start(base, relocs[r])) {
        let start = reloc_start(base, relocs[r]);
        let end = reloc_end(base, relocs[r]);
        match home(symbols, live, start, end) {
            Some(symbol) => {
                let (rest, error) = sweep(symbols, relocs, base, s, r + 1, live);
                let first = DataDependency::Reloc { symbol, reloc: r as usize };
                (seq![first] + rest, error)
            },
            None => if some_touch(symbols, live, s, start, end) {
                (Seq::empty(), Some(SweepError::NotInside { reloc: r as usize }))
            } else {
                (Seq::empty(), Some(SweepError::NoSymbol { reloc: r as usize }))
            },
        }
    } else {
        let (next, first) = take_symbol(symbols, live, s as usize);
        let (rest, error) = sweep(symbols, relocs, base, s + 1, r, next);
        match first {
            Some(first) => (seq![first] + rest, error),
            None => (rest, error),
        }
    }
}

/// Whether what a dependency speaks of exists.
pub open spec fn dep_exists(
    symbols: Seq<DataSymbol>,
    relocs: Seq<RelocationEntry>,
    dep: DataDependency,
) -> bool {
    match dep {
        DataDependency::Reloc { symbol, reloc } => symbol < symbols.len() && reloc < relocs.len(),
        DataDependency::Containment { container, inner } => container < symbols.len() && inner
            < symbols.len(),
        DataDependency::DirectedOverlap { from, to, back_to, container } => from < symbols.len()
            && to < symbols.len() && back_to < symbols.len() && (container is Some ==> container->0
            < symbols.len()),
    }
}

/// Whether all pieces of data in a list exist.
pub open spec fn all_exist(symbols: Seq<DataSymbol>, live: Seq<usize>) -> bool {
    forall|i: int| 0 <= i < live.len() ==> #[trigger] live[i] < symbols.len()
}

/// What is left of a list comes from it.
proof fn lemma_left_exists(symbols: Seq<DataSymbol>, live: Seq<usize>, start: int)
    requires
        all_exist(symbols, live),
    ensures
        all_exist(symbols, without_ended(symbols, live, start)),
    decreases live.len(),
{
    if live.len() > 0 {
        let rest = live.drop_last();
        assert forall|i: int| 0 <= i < rest.len() implies #[trigger] rest[i] < symbols.len() by {
            assert(rest[i] == live[i]);
        }
        lemma_left_exists(symbols, rest, start);
    }
}

/// How many pieces of data reach far is at most how many there are.
proof fn lemma_reaching_bound(symbols: Seq<DataSymbol>, live: Seq<usize>, end: int)
    ensures
        0 <= reaching(symbols, live, end) <= live.len(),
    decreases live.len(),
{
    if live.len() > 0 {
        lemma_reaching_bound(symbols, live.drop_first(), end);
    }
}

/// The smallest piece of data that contains all between `start` and `end` is in the list, contains
/// it, and no other one that does is tighter.
pub(crate) proof fn lemma_home(symbols: Seq<DataSymbol>, live: Seq<usize>, start: int, end: int)
    ensures
        match home(symbols, live, start, end) {
            Some(t) => {
                &&& live.contains(t)
                &&& holds(symbols, t, start, end)
                &&& forall|i: int|
                    0 <= i < live.len() && holds(symbols, #[trigger] live[i], start, end)
                        ==> !is_tighter(symbols, live[i], t)
            },
            None => forall|i: int|
                0 <= i < live.len() ==> !holds(symbols, #[trigger] live[i], start, end),
        },
    decreases live.len(),
{
    if live.len() > 0 {
        let rest = live.drop_last();
        lemma_home(symbols, rest, start, end);
        let found = home(symbols, live, start, end);
        if found is Some {
            if found->0 == live.last() {
                assert(live[live.len() - 1] == found->0);
            } else {
                let i = choose|i: int| 0 <= i < rest.len() && rest[i] == found->0;
                assert(live[i] == found->0);
            }
        }
        assert forall|i: int|
            0 <= i < live.len() && holds(symbols, #[trigger] live[i], start, end) implies found
            is Some && !is_tighter(symbols, live[i], found->0) by {
            if i < rest.len() {
                assert(rest[i] == live[i]);
            }
        }
    }
}

/// Everything that the dependencies speak of exists.
pub(crate) proof fn lemma_deps_exist(
    symbols: Seq<DataSymbol>,
    relocs: Seq<RelocationEntry>,
    base: usize,
    s: int,
    r: int,
    live: Seq<usize>,
)
    requires
        symbols.len() <= usize::MAX,
        relocs.len() <= usize::MAX,
        all_exist(symbols, live),
    ensures
        forall|i: int|
            0 <= i < sweep(symbols, relocs, base, s, r, live).0.len() ==> dep_exists(
                symbols,
                relocs,
                #[trigger] sweep(symbols, relocs, base, s, r, live).0[i],
            ),
    decreases symbols.len() - s + relocs.len() - r,
{
    let deps = sweep(symbols, relocs, base, s, r, live).0;
    if r < 0 || s < 0 || r > relocs.len() || s > symbols.len() || (r == relocs.len() && s
        == symbols.len()) {
    } else if r < relocs.len() && !fits(relocs[r]) {
    } else if r < relocs.len() && (s == symbols.len() || start_of(symbols, s as usize)
        > reloc_start(base, relocs[r])) {
        let start = reloc_start(base, relocs[r]);
        let end = reloc_end(base, relocs[r]);
        lemma_home(symbols, live, start, end);
        if home(symbols, live, start, end) is Some {
            lemma_deps_exist(symbols, relocs, base, s, r + 1, live);
            let rest = sweep(symbols, relocs, base, s, r + 1, live).0;
            assert forall|i: int| 0 <= i < deps.len() implies dep_exists(
                symbols,
                relocs,
                #[trigger] deps[i],
            ) by {
                if i > 0 {
                    assert(deps[i] == rest[i - 1]);
                }
            }
        }
    } else {
        let at = s as usize;
        let left = without_ended(symbols, live, start_of(symbols, at));
        lemma_left_exists(symbols, live, start_of(symbols, at));
        lemma_reaching_bound(symbols, left, end_of(symbols, at));
        let p = reaching(symbols, left, end_of(symbols, at));
        let (next, first) = take_symbol(symbols, live, at);
        if p > 0 {
            assert(left[p - 1] < symbols.len());
        }
        if p < left.len() {
            assert(left[p] < symbols.len());
            assert(left[left.len() - 1] < symbols.len());
        }
        assert forall|i: int| 0 <= i < next.len() implies #[trigger] next[i] < symbols.len() by {
            if i < p {
                assert(next[i] == left[i]);
            } else if i > p {
                assert(next[i] == left[i - 1]);
            }
        }
        lemma_deps_exist(symbols, relocs, base, s + 1, r, next);
        let rest = sweep(symbols, relocs, base, s + 1, r, next).0;
        assert forall|i: int| 0 <= i < deps.len() implies dep_exists(
            symbols,
            relocs,
            #[trigger] deps[i],
        ) by {
            if first is Some && i > 0 {
                assert(deps[i] == rest[i - 1]);
            } else if first is None {
                assert(deps[i] == rest[i]);
            }
        }
    }
}

/// Finds the smallest one of some pieces of data that contains a range.
fn find_home(symbols: &[DataSymbol], live: &Vec<usize>, range: &Range<usize>) -> (found: Option<
    usize,
>)
    requires
        all_exist(symbols@, live@),
        range.start <= range.end,
    ensures
        found == home(symbols@, live@, range.start as int, range.end as int),
{
    let mut best: Option<usize> = None;
    assert(live@.take(0) =~= Seq::empty());
    for i in 0..live.len()
        invariant
            all_exist(symbols@, live@),
            range.start <= range.end,
            best == home(
                symbols@,
                live@.take(i as int),
                range.start as int,
                range.end as int,
            ),
            best is Some ==> best->0 < symbols@.len() && holds(
                symbols@,
                best->0,
                range.start as int,
                range.end as int,
            ),
    {
        assert(live@.take(i + 1).drop_last() =~= live@.take(i as int));
        assert(live@.take(i + 1).last() == live@[i as int]);
        let k: usize = live[i];
        let at = &symbols[k].range;
        if at.start <= range.start && range.end <= at.end {
            let tighter = match best {
                None => true,
                Some(other) => {
                    let size: usize = at.end - at.start;
                    let known: usize = symbols[other].range.end - symbols[other].range.start;
                    size < known || (size == known && other < k)
                },
            };
            if tighter {
                best = Some(k);
            }
        }
    }
    assert(live@.take(live@.len() as int) =~= live@);
    best
}

/// Tells whether one of some pieces of data, or the one at position `s`, overlaps a range.
fn find_touch(symbols: &[DataSymbol], live: &Vec<usize>, s: usize, range: &Range<usize>) -> (found:
    bool)
    requires
        all_exist(symbols@, live@),
    ensures
        found == some_touch(symbols@, live@, s as int, range.start as int, range.end as int),
{
    for i in 0..live.len()
        invariant
            all_exist(symbols@, live@),
            forall|j: int|
                0 <= j < i ==> !touches(
                    symbols@,
                    #[trigger] live@[j],
                    range.start as int,
                    range.end as int,
                ),
    {
        let at = &symbols[live[i]].range;
        if range.start < at.end && at.start < range.end {
            assert(touches(
                symbols@,
                live@[i as int],
                range.start as int,
                range.end as int,
            ));
            return true;
        }
    }
    s < symbols.len() && range.start < symbols[s].range.end && symbols[s].range.start < range.end
}

/// Finds the dependencies that the places of data and relocations imply, up to the first error.
///
/// Data and relocations are looked at in one pass, in the order of their starts. The pieces of data
/// that may still overlap those to come are kept, with smaller ends towards the back.
pub fn find_data_dependencies(
    symbols: &[DataSymbol],
    relocs: &[RelocationEntry],
    base: usize,
) -> (found: (Vec<DataDependency>, Option<SweepError>))
    requires
        all_fit(relocs@, base),
    ensures
        (found.0@, found.1) == sweep(symbols@, relocs@, base, 0, 0, Seq::empty()),
{
    let mut deps: Vec<DataDependency> = Vec::new();
    let mut live: Vec<usize> = Vec::new();
    let mut s: usize = 0;
    let mut r: usize = 0;
    let ghost all = sweep(symbols@, relocs@, base, 0, 0, Seq::empty());
    assert(live@ =~= Seq::empty());
    assert(deps@ + all.0 =~= all.0);
    while s < symbols.len() || r < relocs.len()
        invariant
            s <= symbols@.len(),
            r <= relocs@.len(),
            all_fit(relocs@, base),
            all_exist(symbols@, live@),
            all == sweep(symbols@, relocs@, base, 0, 0, Seq::empty()),
            ({
                let (rest, error) = sweep(symbols@, relocs@, base, s as int, r as int, live@);
                all == (deps@ + rest, error)
            }),
        decreases symbols@.len() - s + relocs@.len() - r,
    {
        let ghost (rest, error) = sweep(symbols@, relocs@, base, s as int, r as int, live@);
        let ghost before = deps@;
        if r < relocs.len() {
            let range = match relocs[r].relocation_range() {
                Ok(range) => {
                    assert(fits(relocs@[r as int]));
                    shift_range(range, base)
                },
                Err(_) => {
                    assert(deps@ + rest =~= deps@);
                    return (deps, Some(SweepError::TooFar { reloc: r }));
                },
            };
            assert(range.start == reloc_start(base, relocs@[r as int]));
            assert(range.end == reloc_end(base, relocs@[r as int]));
            if s >= symbols.len() || symbols[s].range.start > range.start {
                match find_home(symbols, &live, &range) {
                    Some(symbol) => {
                        deps.push(DataDependency::Reloc { symbol, reloc: r });
                        proof {
                            let first = DataDependency::Reloc { symbol, reloc: r };
                            let tail = sweep(symbols@, relocs@, base, s as int, r + 1, live@).0;
                            assert(before + (seq![first] + tail) =~= deps@ + tail);
                        }
                    },
                    None => {
                        assert(deps@ + rest =~= deps@);
                        return if find_touch(symbols, &live, s, &range) {
                            (deps, Some(SweepError::NotInside { reloc: r }))
                        } else {
                            (deps, Some(SweepError::NoSymbol { reloc: r }))
                        };
                    },
                }
                r += 1;
                continue;
            }
        }
        let ghost full = live@;
        let start: usize = symbols[s].range.start;
        let end: usize = symbols[s].range.end;
        while live.len() > 0 && symbols[live[live.len() - 1]].range.end <= start
            invariant
                all_exist(symbols@, live@),
                without_ended(symbols@, live@, start as int) == without_ended(
                    symbols@,
                    full,
                    start as int,
                ),
            decreases live@.len(),
        {
            let ghost now = live@;
            live.pop();
            assert(live@ =~= now.drop_last());
        }
        // The piece of data overlaps, or is contained in, everything that is left.
        let ghost left = live@;
        let mut p: usize = 0;
        assert(left.skip(0) =~= left);
        while p < live.len() && end <= symbols[live[p]].range.end
            invariant
                p <= live@.len(),
                live@ == left,
                all_exist(symbols@, live@),
                reaching(symbols@, left, end as int) == p + reaching(
                    symbols@,
                    left.skip(p as int),
                    end as int,
                ),
            decreases live@.len() - p,
        {
            proof {
                assert(left.skip(p as int)[0] == left[p as int]);
                assert(left.skip(p as int).drop_first() =~= left.skip(p + 1));
            }
            p += 1;
        }
        proof {
            if p < left.len() {
                assert(left.skip(p as int)[0] == left[p as int]);
            }
            assert(reaching(symbols@, left, end as int) == p);
        }
        let container: Option<usize> = if p > 0 {
            Some(live[p - 1])
        } else {
            None
        };
        let first: Option<DataDependency> = if p < live.len() {
            let from: usize = live[live.len() - 1];
            Some(DataDependency::DirectedOverlap { from, to: s, back_to: live[p], container })
        } else if let Some(container) = container {
            Some(DataDependency::Containment { container, inner: s })
        } else {
            None
        };
        live.insert(p, s);
        proof {
            assert((live@, first) == take_symbol(symbols@, full, s));
            assert forall|i: int| 0 <= i < live@.len() implies #[trigger] live@[i]
                < symbols@.len() by {
                if i < p {
                    assert(live@[i] == left[i]);
                } else if i > p {
                    assert(live@[i] == left[i - 1]);
                }
            }
        }
        let ghost tail = sweep(symbols@, relocs@, base, s + 1, r as int, live@).0;
        if let Some(first) = first {
            deps.push(first);
            assert(before + (seq![first] + tail) =~= deps@ + tail);
        }
        s += 1;
    }
    assert(deps@ + Seq::<DataDependency>::empty() =~= deps@);
    (deps, None)
}

} // verus!
