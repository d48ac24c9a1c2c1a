//! What the dependencies among pieces of data guarantee.
use crate::data_deps::{
    end_of, fits, holds, home, is_tighter, lemma_home, reaching, reloc_end, reloc_start, some_touch,
    start_of, sweep, take_symbol, touches, without_ended, DataDependency, SweepError,
};
use crate::graph_utils::reach::{
    lemma_reach_mono, lemma_reach_refl, lemma_reach_step, lemma_reach_trans, reach,
};
use crate::reloc::apply::relocs_in_order;
use crate::reloc::info::{DataSymbol, RelocationEntry};
use vstd::prelude::*;

verus! {

/// Whether a dependency says that the piece of data `a` depends on `b`.
pub open spec fn says(dep: DataDependency, a: usize, b: usize) -> bool {
    match dep {
        DataDependency::Reloc { .. } => false,
        DataDependency::Containment { container, inner } => a == container && b == inner,
        DataDependency::DirectedOverlap { from, to, back_to, container } => {
            ||| a == from && b == to
            ||| a == to && b == back_to
            ||| container == Some(a) && b == to
        },
    }
}

/// The dependencies among pieces of data.
pub open spec fn data_edges(deps: Seq<DataDependency>) -> spec_fn(usize, usize) -> bool {
    |a: usize, b: usize| exists|i: int| 0 <= i < deps.len() && says(#[trigger] deps[i], a, b)
}

/// The pieces of data are in the order of their starts.
pub open spec fn symbols_in_order(symbols: Seq<DataSymbol>) -> bool {
    &&& symbols.len() <= usize::MAX
    &&& forall|i: usize, j: usize|
        i < j < symbols.len() ==> #[trigger] start_of(symbols, i) <= #[trigger] start_of(symbols, j)
}

/// No piece of data ends before it starts.
pub open spec fn symbols_forward(symbols: Seq<DataSymbol>) -> bool {
    forall|k: usize| k < symbols.len() ==> #[trigger] start_of(symbols, k) <= end_of(symbols, k)
}

/// Whether the piece of data `y` overlaps `x`, which comes first.
pub open spec fn overlaps(symbols: Seq<DataSymbol>, x: usize, y: usize) -> bool {
    x < y < symbols.len() && start_of(symbols, y) < end_of(symbols, x)
}

/// Whether the dependencies between two overlapping pieces of data are as they should: the first
/// one depends on the second one, and, if the second one reaches further, the second one depends on
/// the first one.
pub open spec fn connected(
    symbols: Seq<DataSymbol>,
    deps: Seq<DataDependency>,
    x: usize,
    y: usize,
) -> bool {
    &&& reach(data_edges(deps), x, y)
    &&& end_of(symbols, x) < end_of(symbols, y) ==> reach(data_edges(deps), y, x)
}

/// Whether a piece of data contains a relocation.
pub open spec fn contains_reloc(
    symbols: Seq<DataSymbol>,
    base: usize,
    x: usize,
    reloc: RelocationEntry,
) -> bool {
    x < symbols.len() && holds(symbols, x, reloc_start(base, reloc), reloc_end(base, reloc))
}

/// Whether a piece of data overlaps a relocation.
pub open spec fn touches_reloc(
    symbols: Seq<DataSymbol>,
    base: usize,
    x: usize,
    reloc: RelocationEntry,
) -> bool {
    x < symbols.len() && touches(symbols, x, reloc_start(base, reloc), reloc_end(base, reloc))
}

/// Whether `t` is the smallest piece of data that contains a relocation: the last one, if there are
/// several.
pub open spec fn is_smallest(
    symbols: Seq<DataSymbol>,
    base: usize,
    t: usize,
    reloc: RelocationEntry,
) -> bool {
    contains_reloc(symbols, base, t, reloc) && forall|x: usize| #[trigger]
        contains_reloc(symbols, base, x, reloc) ==> !is_tighter(symbols, x, t)
}

/// Whether relocation `r` is reported for the piece of data `t`.
pub open spec fn reports(deps: Seq<DataDependency>, t: usize, r: usize) -> bool {
    deps.contains(DataDependency::Reloc { symbol: t, reloc: r })
}

/// Whether relocation `r` is reported for the smallest piece of data that contains it.
pub open spec fn assigned(
    symbols: Seq<DataSymbol>,
    relocs: Seq<RelocationEntry>,
    base: usize,
    deps: Seq<DataDependency>,
    r: usize,
) -> bool {
    fits(relocs[r as int]) && exists|t: usize| #[trigger]
        reports(deps, t, r) && is_smallest(symbols, base, t, relocs[r as int])
}

/// Whether relocation `r` is reported for the smallest piece of data that contains it, and all
/// others that contain it depend on that one.
pub open spec fn reported(
    symbols: Seq<DataSymbol>,
    relocs: Seq<RelocationEntry>,
    base: usize,
    deps: Seq<DataDependency>,
    r: usize,
) -> bool {
    exists|t: usize|
        #[trigger] reports(deps, t, r) && is_smallest(symbols, base, t, relocs[r as int])
            && forall|x: usize|
            #[trigger] contains_reloc(symbols, base, x, relocs[r as int]) ==> reach(
                data_edges(deps),
                x,
                t,
            )
}

/// Whether some piece of data contains a relocation whose end can be written down.
pub open spec fn has_place(
    symbols: Seq<DataSymbol>,
    base: usize,
    reloc: RelocationEntry,
) -> bool {
    fits(reloc) && exists|x: usize| #[trigger] contains_reloc(symbols, base, x, reloc)
}

/// The relocation that an error names.
pub open spec fn reloc_of(error: SweepError) -> usize {
    match error {
        SweepError::TooFar { reloc } => reloc,
        SweepError::NoSymbol { reloc } => reloc,
        SweepError::NotInside { reloc } => reloc,
    }
}

/// Whether an error is the right one: all relocations in front of the one that it names are inside
/// pieces of data, and that one is not, as the error says.
pub open spec fn is_right_error(
    symbols: Seq<DataSymbol>,
    relocs: Seq<RelocationEntry>,
    base: usize,
    error: SweepError,
) -> bool {
    let at = reloc_of(error);
    &&& at < relocs.len()
    &&& forall|k: usize| k < at ==> has_place(symbols, base, #[trigger] relocs[k as int])
    &&& error is TooFar <==> !fits(relocs[at as int])
    &&& error is NoSymbol ==> forall|x: usize|
        !#[trigger] touches_reloc(symbols, base, x, relocs[at as int])
    &&& error is NotInside ==> {
        &&& exists|x: usize| #[trigger] touches_reloc(symbols, base, x, relocs[at as int])
        &&& forall|x: usize| !#[trigger] contains_reloc(symbols, base, x, relocs[at as int])
    }
}

/// Whether two pieces of data have bytes in common, of which `x` starts no later than `y`.
pub open spec fn meets(symbols: Seq<DataSymbol>, x: usize, y: usize) -> bool {
    x < symbols.len() && y < symbols.len() && start_of(symbols, x) <= start_of(symbols, y)
        < end_of(symbols, x)
}

/// Whether the places of what a dependency speaks of are as it claims.
pub open spec fn is_sound(
    symbols: Seq<DataSymbol>,
    relocs: Seq<RelocationEntry>,
    base: usize,
    deps: Seq<DataDependency>,
    dep: DataDependency,
) -> bool {
    match dep {
        DataDependency::Reloc { symbol, reloc } => reloc < relocs.len() && contains_reloc(
            symbols,
            base,
            symbol,
            relocs[reloc as int],
        ),
        DataDependency::Containment { container, inner } => meets(symbols, container, inner)
            && end_of(symbols, inner) <= end_of(symbols, container),
        DataDependency::DirectedOverlap { from, to, back_to, container } => {
            &&& meets(symbols, from, to)
            &&& meets(symbols, back_to, to)
            &&& end_of(symbols, back_to) < end_of(symbols, to)
            &&& reach(data_edges(deps), back_to, from)
            &&& container is Some ==> meets(symbols, container->0, to) && end_of(symbols, to)
                <= end_of(symbols, container->0)
        },
    }
}

/// How the pieces of data that may still overlap others look: the ends get smaller, and each piece
/// of data depends on those behind it.
#[verifier::opaque]
spec fn live_right(
    symbols: Seq<DataSymbol>,
    deps: Seq<DataDependency>,
    s: int,
    live: Seq<usize>,
) -> bool {
    &&& forall|i: int| 0 <= i < live.len() ==> #[trigger] live[i] < s
    &&& forall|i: int, j: int|
        0 <= i < j < live.len() ==> end_of(symbols, #[trigger] live[j]) <= end_of(
            symbols,
            #[trigger] live[i],
        )
    &&& forall|i: int, j: int|
        0 <= i <= j < live.len() ==> reach(
            data_edges(deps),
            #[trigger] live[i],
            #[trigger] live[j],
        )
}

/// What holds in the middle of a pass.
spec fn pass_right(
    symbols: Seq<DataSymbol>,
    relocs: Seq<RelocationEntry>,
    base: usize,
    s: int,
    r: int,
    live: Seq<usize>,
    deps: Seq<DataDependency>,
) -> bool {
    &&& 0 <= s <= symbols.len()
    &&& 0 <= r <= relocs.len() <= usize::MAX
    &&& symbols_in_order(symbols)
    &&& relocs_in_order(relocs)
    &&& live_right(symbols, deps, s, live)
    &&& forall|x: usize|
        x < s ==> live.contains(x) || #[trigger] end_of(symbols, x) <= start_of(
            symbols,
            (s - 1) as usize,
        )
    &&& forall|k: int|
        0 < s && r <= k < relocs.len() ==> start_of(symbols, (s - 1) as usize) <= reloc_start(
            base,
            #[trigger] relocs[k],
        )
    &&& forall|x: usize, y: usize|
        y < s && #[trigger] overlaps(symbols, x, y) ==> connected(symbols, deps, x, y)
    &&& forall|k: usize| k < r ==> #[trigger] assigned(symbols, relocs, base, deps, k)
}

/// More dependencies reach at least as far.
proof fn lemma_edges_grow(
    deps: Seq<DataDependency>,
    more: Seq<DataDependency>,
    a: usize,
    b: usize,
)
    requires
        deps.len() <= more.len(),
        forall|i: int| 0 <= i < deps.len() ==> #[trigger] more[i] == deps[i],
        reach(data_edges(deps), a, b),
    ensures
        reach(data_edges(more), a, b),
{
    let e = data_edges(deps);
    let f = data_edges(more);
    assert forall|x: usize, y: usize| #[trigger] e(x, y) implies f(x, y) by {
        let i = choose|i: int| 0 <= i < deps.len() && says(#[trigger] deps[i], x, y);
        assert(says(more[i], x, y));
    }
    lemma_reach_mono(e, f, a, b);
}

/// One more dependency keeps what holds of those before it.
proof fn lemma_deps_grow(
    symbols: Seq<DataSymbol>,
    relocs: Seq<RelocationEntry>,
    base: usize,
    deps: Seq<DataDependency>,
    dep: DataDependency,
)
    ensures
        forall|a: usize, b: usize| #[trigger]
            reach(data_edges(deps), a, b) ==> reach(data_edges(deps.push(dep)), a, b),
        forall|x: usize, y: usize|
            connected(symbols, deps, x, y) ==> #[trigger] connected(
                symbols,
                deps.push(dep),
                x,
                y,
            ),
        forall|k: usize|
            assigned(symbols, relocs, base, deps, k) ==> #[trigger] assigned(
                symbols,
                relocs,
                base,
                deps.push(dep),
                k,
            ),
{
    let more = deps.push(dep);
    assert forall|a: usize, b: usize| #[trigger] reach(data_edges(deps), a, b) implies reach(
        data_edges(more),
        a,
        b,
    ) by {
        lemma_edges_grow(deps, more, a, b);
    }
    assert forall|k: usize| assigned(symbols, relocs, base, deps, k) implies #[trigger] assigned(
        symbols,
        relocs,
        base,
        more,
        k,
    ) by {
        let t = choose|t: usize| #[trigger]
            reports(deps, t, k) && is_smallest(symbols, base, t, relocs[k as int]);
        let d = DataDependency::Reloc { symbol: t, reloc: k };
        let i = choose|i: int| 0 <= i < deps.len() && deps[i] == d;
        assert(more[i] == d);
        assert(reports(more, t, k));
    }
}

/// What is left is the front, and what is gone has ended.
proof fn lemma_without_ended(symbols: Seq<DataSymbol>, live: Seq<usize>, start: int)
    requires
        forall|i: int, j: int|
            0 <= i < j < live.len() ==> end_of(symbols, #[trigger] live[j]) <= end_of(
                symbols,
                #[trigger] live[i],
            ),
    ensures
        without_ended(symbols, live, start).len() <= live.len(),
        without_ended(symbols, live, start) == live.take(
            without_ended(symbols, live, start).len() as int,
        ),
        forall|i: int|
            0 <= i < live.len() ==> (i < without_ended(symbols, live, start).len() <==> end_of(
                symbols,
                #[trigger] live[i],
            ) > start),
    decreases live.len(),
{
    if live.len() > 0 && end_of(symbols, live.last()) <= start {
        let rest = live.drop_last();
        assert forall|i: int, j: int| 0 <= i < j < rest.len() implies end_of(
            symbols,
            #[trigger] rest[j],
        ) <= end_of(symbols, #[trigger] rest[i]) by {
            assert(end_of(symbols, live[j]) <= end_of(symbols, live[i]));
        }
        lemma_without_ended(symbols, rest, start);
        let n = without_ended(symbols, rest, start).len() as int;
        assert(rest.take(n) =~= live.take(n));
        assert forall|i: int| 0 <= i < live.len() implies (i < n <==> end_of(
            symbols,
            #[trigger] live[i],
        ) > start) by {
            if i < rest.len() {
                assert(rest[i] == live[i]);
            }
        }
    } else {
        assert(live.take(live.len() as int) =~= live);
        assert forall|i: int| 0 <= i < live.len() implies end_of(symbols, #[trigger] live[i])
            > start by {
            if i < live.len() - 1 {
                assert(end_of(symbols, live[live.len() - 1]) <= end_of(symbols, live[i]));
            }
        }
    }
}

/// The pieces of data at the front that reach far enough.
proof fn lemma_reaching(symbols: Seq<DataSymbol>, live: Seq<usize>, end: int)
    requires
        forall|i: int, j: int|
            0 <= i < j < live.len() ==> end_of(symbols, #[trigger] live[j]) <= end_of(
                symbols,
                #[trigger] live[i],
            ),
    ensures
        0 <= reaching(symbols, live, end) <= live.len(),
        forall|i: int|
            0 <= i < live.len() ==> (i < reaching(symbols, live, end) <==> end <= end_of(
                symbols,
                #[trigger] live[i],
            )),
    decreases live.len(),
{
    if live.len() > 0 && end <= end_of(symbols, live[0]) {
        let rest = live.drop_first();
        assert forall|i: int, j: int| 0 <= i < j < rest.len() implies end_of(
            symbols,
            #[trigger] rest[j],
        ) <= end_of(symbols, #[trigger] rest[i]) by {
            assert(end_of(symbols, live[j + 1]) <= end_of(symbols, live[i + 1]));
        }
        lemma_reaching(symbols, rest, end);
        assert forall|i: int| 0 <= i < live.len() implies (i < reaching(symbols, live, end)
            <==> end <= end_of(symbols, #[trigger] live[i])) by {
            if i > 0 {
                assert(rest[i - 1] == live[i]);
            }
        }
    } else {
        assert forall|i: int| 0 <= i < live.len() implies end > end_of(
            symbols,
            #[trigger] live[i],
        ) by {
            if i > 0 {
                assert(end_of(symbols, live[i]) <= end_of(symbols, live[0]));
            }
        }
    }
}

/// The front of what is live is as it should.
proof fn lemma_live_take(
    symbols: Seq<DataSymbol>,
    deps: Seq<DataDependency>,
    s: int,
    live: Seq<usize>,
    n: int,
)
    requires
        live_right(symbols, deps, s, live),
        0 <= n <= live.len(),
    ensures
        live_right(symbols, deps, s, live.take(n)),
{
    reveal(live_right);
    let left = live.take(n);
    assert forall|i: int| 0 <= i < left.len() implies #[trigger] left[i] == live[i] by {}
}

/// What the edges of a new dependency reach.
proof fn lemma_new_edge(deps: Seq<DataDependency>, dep: DataDependency, a: usize, b: usize)
    requires
        says(dep, a, b),
    ensures
        reach(data_edges(deps.push(dep)), a, b),
{
    let more = deps.push(dep);
    assert(says(more[deps.len() as int], a, b));
    lemma_reach_step(data_edges(more), a, b);
}

/// What is live and the dependencies after one more piece of data.
proof fn lemma_take_symbol(
    symbols: Seq<DataSymbol>,
    relocs: Seq<RelocationEntry>,
    base: usize,
    s: usize,
    live: Seq<usize>,
    deps: Seq<DataDependency>,
    more: Seq<DataDependency>,
)
    requires
        s < symbols.len(),
        live_right(symbols, deps, s as int, live),
        match take_symbol(symbols, live, s).1 {
            Some(dep) => more == deps.push(dep),
            None => more == deps,
        },
    ensures
        live_right(symbols, more, s + 1, take_symbol(symbols, live, s).0),
        take_symbol(symbols, live, s).0.contains(s),
        forall|x: usize, y: usize|
            connected(symbols, deps, x, y) ==> #[trigger] connected(symbols, more, x, y),
        forall|k: usize|
            assigned(symbols, relocs, base, deps, k) ==> #[trigger] assigned(
                symbols,
                relocs,
                base,
                more,
                k,
            ),
        forall|x: usize|
            start_of(symbols, s) < end_of(symbols, x) && #[trigger] live.contains(x)
                ==> take_symbol(symbols, live, s).0.contains(x) && connected(symbols, more, x, s),
{
    let start = start_of(symbols, s);
    let end = end_of(symbols, s);
    let left = without_ended(symbols, live, start);
    let p = reaching(symbols, left, end);
    let (next, dep) = take_symbol(symbols, live, s);
    let e = data_edges(more);
    assert(live_right(symbols, deps, s as int, left)) by {
        reveal(live_right);
        lemma_without_ended(symbols, live, start);
        lemma_live_take(symbols, deps, s as int, live, left.len() as int);
    }
    assert(0 <= p <= left.len() && forall|i: int|
        0 <= i < left.len() ==> (i < p <==> end <= end_of(symbols, #[trigger] left[i]))) by {
        reveal(live_right);
        lemma_reaching(symbols, left, end);
    }
    match dep {
        Some(d) => {
            lemma_deps_grow(symbols, relocs, base, deps, d);
        },
        None => {},
    }
    if p > 0 {
        lemma_new_edge(deps, dep->0, left[p - 1], s);
    }
    if p < left.len() {
        lemma_new_edge(deps, dep->0, left.last(), s);
        lemma_new_edge(deps, dep->0, s, left[p]);
    }
    lemma_reach_refl(e, s);
    // Everything that is left leads to the new piece of data.
    assert forall|i: int| 0 <= i < left.len() implies reach(e, #[trigger] left[i], s) by {
        reveal(live_right);
        if i < p {
            assert(reach(data_edges(deps), left[i], left[p - 1]));
            lemma_reach_trans(e, left[i], left[p - 1], s);
        } else {
            assert(reach(data_edges(deps), left[i], left[left.len() - 1]));
            lemma_reach_trans(e, left[i], left.last(), s);
        }
    }
    // The new piece of data leads to everything that does not reach as far.
    assert forall|i: int| p <= i < left.len() implies reach(e, s, #[trigger] left[i]) by {
        reveal(live_right);
        assert(reach(data_edges(deps), left[p], left[i]));
        lemma_reach_trans(e, s, left[p], left[i]);
    }
    assert(next[p] == s);
    assert forall|i: int| 0 <= i < p implies #[trigger] next[i] == left[i] by {}
    assert forall|i: int| p < i < next.len() implies #[trigger] next[i] == left[i - 1] by {}
    assert(live_right(symbols, more, s + 1, next)) by {
        reveal(live_right);
        assert forall|i: int| 0 <= i < next.len() implies #[trigger] next[i] < s + 1 by {
            if i < p {
                assert(next[i] == left[i]);
            } else if i > p {
                assert(next[i] == left[i - 1]);
            }
        }
        assert forall|i: int, j: int| 0 <= i < j < next.len() implies end_of(
            symbols,
            #[trigger] next[j],
        ) <= end_of(symbols, #[trigger] next[i]) by {
            let a = if i < p { i } else { i - 1 };
            let b = if j < p { j } else { j - 1 };
            if i == p {
                assert(next[j] == left[b]);
            } else if j == p {
                assert(next[i] == left[a]);
            } else {
                assert(end_of(symbols, left[b]) <= end_of(symbols, left[a]));
            }
        }
        assert forall|i: int, j: int| 0 <= i <= j < next.len() implies reach(
            e,
            #[trigger] next[i],
            #[trigger] next[j],
        ) by {
            let a = if i < p { i } else { i - 1 };
            let b = if j < p { j } else { j - 1 };
            if i == p && j == p {
            } else if i == p {
                assert(next[j] == left[b]);
            } else if j == p {
                assert(next[i] == left[a]);
            } else {
                assert(reach(data_edges(deps), left[a], left[b]));
            }
        }
    }
    assert forall|x: usize|
        start < end_of(symbols, x) && #[trigger] live.contains(x) implies next.contains(x)
        && connected(symbols, more, x, s) by {
        let q = choose|q: int| 0 <= q < live.len() && live[q] == x;
        assert(q < left.len() && left[q] == x) by {
            reveal(live_right);
            lemma_without_ended(symbols, live, start);
            assert(end_of(symbols, live[q]) > start);
        }
        if q < p {
            assert(next[q] == x);
        } else {
            assert(next[q + 1] == x);
        }
    }
}

/// What a piece of data adds is sound.
proof fn lemma_take_sound(
    symbols: Seq<DataSymbol>,
    relocs: Seq<RelocationEntry>,
    base: usize,
    s: usize,
    live: Seq<usize>,
    deps: Seq<DataDependency>,
    all: Seq<DataDependency>,
)
    requires
        s < symbols.len(),
        symbols_in_order(symbols),
        live_right(symbols, deps, s as int, live),
        deps.len() <= all.len(),
        forall|i: int| 0 <= i < deps.len() ==> #[trigger] all[i] == deps[i],
    ensures
        take_symbol(symbols, live, s).1 matches Some(dep) ==> is_sound(
            symbols,
            relocs,
            base,
            all,
            dep,
        ),
{
    let start = start_of(symbols, s);
    let end = end_of(symbols, s);
    let left = without_ended(symbols, live, start);
    let p = reaching(symbols, left, end);
    reveal(live_right);
    lemma_without_ended(symbols, live, start);
    lemma_live_take(symbols, deps, s as int, live, left.len() as int);
    lemma_reaching(symbols, left, end);
    assert forall|i: int| 0 <= i < left.len() implies meets(symbols, #[trigger] left[i], s) by {
        assert(left[i] == live[i]);
        assert(start_of(symbols, left[i]) <= start_of(symbols, s));
    }
    if p > 0 {
        assert(meets(symbols, left[p - 1], s));
    }
    if p < left.len() {
        assert(meets(symbols, left[p], s));
        assert(meets(symbols, left[left.len() - 1], s));
        assert(reach(data_edges(deps), left[p], left[left.len() - 1]));
        lemma_edges_grow(deps, all, left[p], left.last());
    }
}

/// When the pass comes to a relocation, all pieces of data that contain it are live, and all that
/// overlap it are live or to come.
proof fn lemma_live_at_reloc(
    symbols: Seq<DataSymbol>,
    relocs: Seq<RelocationEntry>,
    base: usize,
    s: int,
    r: int,
    live: Seq<usize>,
    deps: Seq<DataDependency>,
)
    requires
        pass_right(symbols, relocs, base, s, r, live, deps),
        r < relocs.len(),
        s == symbols.len() || start_of(symbols, s as usize) > reloc_start(base, relocs[r]),
    ensures
        forall|x: usize| #[trigger]
            contains_reloc(symbols, base, x, relocs[r]) ==> live.contains(x),
        forall|x: usize| #[trigger]
            touches_reloc(symbols, base, x, relocs[r]) ==> live.contains(x) || s <= x,
{
    assert forall|x: usize| x < symbols.len() && reloc_start(base, relocs[r]) < end_of(
        symbols,
        x,
    ) implies #[trigger] live.contains(x) || s <= x by {
        if x < s {
            assert(start_of(symbols, (s - 1) as usize) <= reloc_start(base, relocs[r]));
        }
    }
    assert forall|x: usize| #[trigger] contains_reloc(symbols, base, x, relocs[r]) implies live.contains(
        x,
    ) by {
        if s <= x {
            assert(start_of(symbols, s as usize) <= start_of(symbols, x));
        }
    }
}

/// What a relocation keeps.
proof fn lemma_reloc_step(
    symbols: Seq<DataSymbol>,
    relocs: Seq<RelocationEntry>,
    base: usize,
    s: int,
    r: int,
    live: Seq<usize>,
    deps: Seq<DataDependency>,
    t: usize,
)
    requires
        pass_right(symbols, relocs, base, s, r, live, deps),
        r < relocs.len(),
        fits(relocs[r]),
        s == symbols.len() || start_of(symbols, s as usize) > reloc_start(base, relocs[r]),
        home(symbols, live, reloc_start(base, relocs[r]), reloc_end(base, relocs[r])) == Some(t),
    ensures
        is_smallest(symbols, base, t, relocs[r]),
        pass_right(
            symbols,
            relocs,
            base,
            s,
            r + 1,
            live,
            deps.push(DataDependency::Reloc { symbol: t, reloc: r as usize }),
        ),
{
    let start = reloc_start(base, relocs[r]);
    let end = reloc_end(base, relocs[r]);
    let dep = DataDependency::Reloc { symbol: t, reloc: r as usize };
    let more = deps.push(dep);
    lemma_home(symbols, live, start, end);
    lemma_live_at_reloc(symbols, relocs, base, s, r, live, deps);
    lemma_deps_grow(symbols, relocs, base, deps, dep);
    assert(live_right(symbols, more, s, live)) by {
        reveal(live_right);
    }
    assert(t < symbols.len()) by {
        reveal(live_right);
    }
    assert forall|x: usize| #[trigger]
        contains_reloc(symbols, base, x, relocs[r]) implies !is_tighter(symbols, x, t) by {
        assert(live.contains(x));
        let i = choose|i: int| 0 <= i < live.len() && live[i] == x;
        assert(holds(symbols, live[i], start, end));
    }
    assert(is_smallest(symbols, base, t, relocs[r]));
    assert(more[deps.len() as int] == dep);
    assert(reports(more, t, r as usize));
    assert(assigned(symbols, relocs, base, more, r as usize));
    assert forall|x: usize, y: usize| y < s && #[trigger] overlaps(symbols, x, y) implies connected(
        symbols,
        more,
        x,
        y,
    ) by {
        assert(connected(symbols, deps, x, y));
    }
    assert forall|k: usize| k < r + 1 implies #[trigger] assigned(
        symbols,
        relocs,
        base,
        more,
        k,
    ) by {
        if k < r {
            assert(assigned(symbols, relocs, base, deps, k));
        }
    }
}

/// What a piece of data keeps.
proof fn lemma_symbol_step(
    symbols: Seq<DataSymbol>,
    relocs: Seq<RelocationEntry>,
    base: usize,
    s: int,
    r: int,
    live: Seq<usize>,
    deps: Seq<DataDependency>,
    more: Seq<DataDependency>,
)
    requires
        pass_right(symbols, relocs, base, s, r, live, deps),
        s < symbols.len(),
        r < relocs.len() ==> start_of(symbols, s as usize) <= reloc_start(base, relocs[r]),
        match take_symbol(symbols, live, s as usize).1 {
            Some(dep) => more == deps.push(dep),
            None => more == deps,
        },
    ensures
        pass_right(
            symbols,
            relocs,
            base,
            s + 1,
            r,
            take_symbol(symbols, live, s as usize).0,
            more,
        ),
{
    let at = s as usize;
    let next = take_symbol(symbols, live, at).0;
    lemma_take_symbol(symbols, relocs, base, at, live, deps, more);
    assert forall|x: usize| x < s + 1 implies next.contains(x) || #[trigger] end_of(symbols, x)
        <= start_of(symbols, at) by {
        if x < s && !live.contains(x) {
            assert(start_of(symbols, (s - 1) as usize) <= start_of(symbols, at));
        }
    }
    assert forall|k: int| r <= k < relocs.len() implies start_of(symbols, at) <= reloc_start(
        base,
        #[trigger] relocs[k],
    ) by {
        if r < k {
            assert(relocs[r].offset <= relocs[k].offset);
        }
    }
    assert forall|x: usize, y: usize|
        y < s + 1 && #[trigger] overlaps(symbols, x, y) implies connected(symbols, more, x, y) by {
        if y < s {
            assert(connected(symbols, deps, x, y));
        } else {
            if !live.contains(x) {
                assert(end_of(symbols, x) <= start_of(symbols, (s - 1) as usize));
                assert(start_of(symbols, (s - 1) as usize) <= start_of(symbols, at));
            }
        }
    }
    assert forall|k: usize| k < r implies #[trigger] assigned(
        symbols,
        relocs,
        base,
        more,
        k,
    ) by {
        assert(assigned(symbols, relocs, base, deps, k));
    }
}

/// When a relocation is not inside any live piece of data, the error is the right one.
proof fn lemma_error_right(
    symbols: Seq<DataSymbol>,
    relocs: Seq<RelocationEntry>,
    base: usize,
    s: int,
    r: int,
    live: Seq<usize>,
    deps: Seq<DataDependency>,
    error: SweepError,
)
    requires
        pass_right(symbols, relocs, base, s, r, live, deps),
        symbols_forward(symbols),
        r < relocs.len(),
        sweep(symbols, relocs, base, s, r, live) == (Seq::<DataDependency>::empty(), Some(error)),
        fits(relocs[r]) ==> {
            &&& s == symbols.len() || start_of(symbols, s as usize) > reloc_start(base, relocs[r])
            &&& home(symbols, live, reloc_start(base, relocs[r]), reloc_end(base, relocs[r])) is None
        },
    ensures
        is_right_error(symbols, relocs, base, error),
{
    let start = reloc_start(base, relocs[r]);
    let end = reloc_end(base, relocs[r]);
    assert forall|k: usize| k < r implies has_place(symbols, base, #[trigger] relocs[k as int]) by {
        assert(assigned(symbols, relocs, base, deps, k));
        let t = choose|t: usize| #[trigger]
            reports(deps, t, k) && is_smallest(symbols, base, t, relocs[k as int]);
        assert(contains_reloc(symbols, base, t, relocs[k as int]));
    }
    if fits(relocs[r]) {
        lemma_home(symbols, live, start, end);
        lemma_live_at_reloc(symbols, relocs, base, s, r, live, deps);
        assert forall|x: usize| !contains_reloc(symbols, base, x, relocs[r]) by {
            if contains_reloc(symbols, base, x, relocs[r]) {
                assert(live.contains(x));
                let i = choose|i: int| 0 <= i < live.len() && live[i] == x;
                assert(!holds(symbols, live[i], start, end));
            }
        }
        if some_touch(symbols, live, s, start, end) {
            assert(exists|x: usize| #[trigger] touches_reloc(symbols, base, x, relocs[r])) by {
                if s < symbols.len() && touches(symbols, s as usize, start, end) {
                    assert(touches_reloc(symbols, base, s as usize, relocs[r]));
                } else {
                    let i = choose|i: int|
                        0 <= i < live.len() && touches(symbols, #[trigger] live[i], start, end);
                    reveal(live_right);
                    assert(touches_reloc(symbols, base, live[i], relocs[r]));
                }
            }
        } else {
            assert forall|x: usize| !touches_reloc(symbols, base, x, relocs[r]) by {
                if touches_reloc(symbols, base, x, relocs[r]) {
                    if live.contains(x) {
                        let i = choose|i: int| 0 <= i < live.len() && live[i] == x;
                        assert(touches(symbols, live[i], start, end));
                    } else {
                        assert(start_of(symbols, s as usize) <= start_of(symbols, x));
                        assert(start_of(symbols, s as usize) <= end_of(symbols, s as usize));
                    }
                }
            }
        }
    }
    let at = reloc_of(error);
    assert(at == r);
    assert(error is TooFar <==> !fits(relocs[at as int]));
    assert(error is NoSymbol ==> forall|x: usize|
        !#[trigger] touches_reloc(symbols, base, x, relocs[at as int]));
    assert(error is NotInside ==> exists|x: usize| #[trigger]
        touches_reloc(symbols, base, x, relocs[at as int]));
    assert(error is NotInside ==> forall|x: usize|
        !#[trigger] contains_reloc(symbols, base, x, relocs[at as int]));
}

/// Going on from the middle of a pass, all overlapping pieces of data get connected, and all
/// relocations get reported, unless there is an error.
proof fn lemma_sweep(
    symbols: Seq<DataSymbol>,
    relocs: Seq<RelocationEntry>,
    base: usize,
    s: int,
    r: int,
    live: Seq<usize>,
    deps: Seq<DataDependency>,
)
    requires
        pass_right(symbols, relocs, base, s, r, live, deps),
    ensures
        ({
            let (rest, error) = sweep(symbols, relocs, base, s, r, live);
            let all = deps + rest;
            &&& error is None ==> forall|x: usize, y: usize| #[trigger]
                overlaps(symbols, x, y) ==> connected(symbols, all, x, y)
            &&& error is None ==> forall|k: usize|
                k < relocs.len() ==> #[trigger] assigned(symbols, relocs, base, all, k)
            &&& error is Some && symbols_forward(symbols) ==> is_right_error(
                symbols,
                relocs,
                base,
                error->0,
            )
            &&& forall|i: int|
                deps.len() <= i < all.len() ==> is_sound(
                    symbols,
                    relocs,
                    base,
                    all,
                    #[trigger] all[i],
                )
        }),
    decreases symbols.len() - s + relocs.len() - r,
{
    let (rest, error) = sweep(symbols, relocs, base, s, r, live);
    if r == relocs.len() && s == symbols.len() {
        assert(deps + rest =~= deps);
    } else if r < relocs.len() && !fits(relocs[r]) {
        if symbols_forward(symbols) {
            lemma_error_right(symbols, relocs, base, s, r, live, deps, error->0);
        }
    } else if r < relocs.len() && (s == symbols.len() || start_of(symbols, s as usize)
        > reloc_start(base, relocs[r])) {
        let start = reloc_start(base, relocs[r]);
        let end = reloc_end(base, relocs[r]);
        match home(symbols, live, start, end) {
            Some(t) => {
                let dep = DataDependency::Reloc { symbol: t, reloc: r as usize };
                let more = deps.push(dep);
                let tail = sweep(symbols, relocs, base, s, r + 1, live).0;
                assert(rest == seq![dep] + tail);
                assert(deps + rest =~= more + tail);
                lemma_reloc_step(symbols, relocs, base, s, r, live, deps, t);
                lemma_sweep(symbols, relocs, base, s, r + 1, live, more);
                assert(is_sound(symbols, relocs, base, more + tail, dep));
                assert((more + tail)[deps.len() as int] == dep);
            },
            None => {
                if symbols_forward(symbols) {
                    lemma_error_right(symbols, relocs, base, s, r, live, deps, error->0);
                }
            },
        }
    } else {
        let at = s as usize;
        let (next, dep) = take_symbol(symbols, live, at);
        let more = match dep {
            Some(dep) => deps.push(dep),
            None => deps,
        };
        let tail = sweep(symbols, relocs, base, s + 1, r, next).0;
        assert(deps + rest =~= more + tail);
        lemma_symbol_step(symbols, relocs, base, s, r, live, deps, more);
        lemma_sweep(symbols, relocs, base, s + 1, r, next, more);
        lemma_take_sound(symbols, relocs, base, at, live, deps, more + tail);
    }
}

/// What a whole pass comes to.
proof fn lemma_pass(symbols: Seq<DataSymbol>, relocs: Seq<RelocationEntry>, base: usize)
    requires
        symbols_in_order(symbols),
        relocs.len() <= usize::MAX,
        relocs_in_order(relocs),
    ensures
        ({
            let (all, error) = sweep(symbols, relocs, base, 0, 0, Seq::empty());
            &&& error is None ==> forall|x: usize, y: usize| #[trigger]
                overlaps(symbols, x, y) ==> connected(symbols, all, x, y)
            &&& error is None ==> forall|k: usize|
                k < relocs.len() ==> #[trigger] assigned(symbols, relocs, base, all, k)
            &&& error is Some && symbols_forward(symbols) ==> is_right_error(
                symbols,
                relocs,
                base,
                error->0,
            )
            &&& forall|i: int|
                0 <= i < all.len() ==> is_sound(symbols, relocs, base, all, #[trigger] all[i])
        }),
{
    let none = Seq::<DataDependency>::empty();
    let all = sweep(symbols, relocs, base, 0, 0, Seq::empty()).0;
    assert(pass_right(symbols, relocs, base, 0, 0, Seq::empty(), none)) by {
        reveal(live_right);
    }
    lemma_sweep(symbols, relocs, base, 0, 0, Seq::empty(), none);
    assert(none + all =~= all);
}

/// Overlapping pieces of data depend on each other.
///
/// The one that comes first depends on the other one. If the other one reaches further, it depends
/// on the first one in turn.
pub proof fn lemma_overlaps_connected(
    symbols: Seq<DataSymbol>,
    relocs: Seq<RelocationEntry>,
    base: usize,
    x: usize,
    y: usize,
)
    requires
        symbols_in_order(symbols),
        relocs.len() <= usize::MAX,
        relocs_in_order(relocs),
        sweep(symbols, relocs, base, 0, 0, Seq::empty()).1 is None,
        overlaps(symbols, x, y),
    ensures
        connected(symbols, sweep(symbols, relocs, base, 0, 0, Seq::empty()).0, x, y),
{
    lemma_pass(symbols, relocs, base);
}

/// Every relocation is reported for the smallest piece of data that contains it, and all other
/// pieces of data that contain it depend on that one.
pub proof fn lemma_relocs_reported(
    symbols: Seq<DataSymbol>,
    relocs: Seq<RelocationEntry>,
    base: usize,
    r: usize,
)
    requires
        symbols_in_order(symbols),
        relocs.len() <= usize::MAX,
        relocs_in_order(relocs),
        sweep(symbols, relocs, base, 0, 0, Seq::empty()).1 is None,
        r < relocs.len(),
    ensures
        fits(relocs[r as int]),
        reported(
            symbols,
            relocs,
            base,
            sweep(symbols, relocs, base, 0, 0, Seq::empty()).0,
            r,
        ),
{
    let deps = sweep(symbols, relocs, base, 0, 0, Seq::empty()).0;
    let reloc = relocs[r as int];
    lemma_pass(symbols, relocs, base);
    assert(assigned(symbols, relocs, base, deps, r));
    let t = choose|t: usize| #[trigger]
        reports(deps, t, r) && is_smallest(symbols, base, t, reloc);
    assert forall|x: usize| #[trigger] contains_reloc(symbols, base, x, reloc) implies reach(
        data_edges(deps),
        x,
        t,
    ) by {
        if x == t {
            lemma_reach_refl(data_edges(deps), x);
        } else if x < t {
            assert(overlaps(symbols, x, t));
        } else {
            assert(overlaps(symbols, t, x));
            assert(start_of(symbols, t) <= start_of(symbols, x));
            assert(!is_tighter(symbols, x, t));
        }
    }
}

/// An error is given for the first relocation that is not inside a piece of data, and says what is
/// wrong with it.
pub proof fn lemma_error_found(
    symbols: Seq<DataSymbol>,
    relocs: Seq<RelocationEntry>,
    base: usize,
    error: SweepError,
)
    requires
        symbols_in_order(symbols),
        symbols_forward(symbols),
        relocs.len() <= usize::MAX,
        relocs_in_order(relocs),
        sweep(symbols, relocs, base, 0, 0, Seq::empty()).1 == Some(error),
    ensures
        is_right_error(symbols, relocs, base, error),
{
    lemma_pass(symbols, relocs, base);
}

/// Every dependency is as its kind says.
///
/// A relocation is in the piece of data for which it is reported. A container contains what is in
/// it. In an overlap, `to` overlaps both other pieces of data, reaches further than `back_to`, and
/// `back_to` implies a dependency on `from`.
pub proof fn lemma_dependencies_sound(
    symbols: Seq<DataSymbol>,
    relocs: Seq<RelocationEntry>,
    base: usize,
    i: int,
)
    requires
        symbols_in_order(symbols),
        relocs.len() <= usize::MAX,
        relocs_in_order(relocs),
        0 <= i < sweep(symbols, relocs, base, 0, 0, Seq::empty()).0.len(),
    ensures
        is_sound(
            symbols,
            relocs,
            base,
            sweep(symbols, relocs, base, 0, 0, Seq::empty()).0,
            sweep(symbols, relocs, base, 0, 0, Seq::empty()).0[i],
        ),
{
    lemma_pass(symbols, relocs, base);
}

} // verus!
