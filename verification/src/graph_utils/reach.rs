//! Reachability along a binary relation.
use vstd::prelude::*;

verus! {

/// Each item of `p` is related to the next one.
pub open spec fn chain<T>(r: spec_fn(T, T) -> bool, p: Seq<T>) -> bool {
    &&& p.len() > 0
    &&& forall|i: int| 0 <= i < p.len() - 1 ==> r(#[trigger] p[i], p[i + 1])
}

/// `p` leads from `a` to `b` along `r`.
pub open spec fn leads<T>(r: spec_fn(T, T) -> bool, p: Seq<T>, a: T, b: T) -> bool {
    &&& chain(r, p)
    &&& p[0] == a
    &&& p[p.len() - 1] == b
}

/// `b` can be reached from `a` by following `r` any number of times.
pub open spec fn reach<T>(r: spec_fn(T, T) -> bool, a: T, b: T) -> bool {
    exists|p: Seq<T>| leads(r, p, a, b)
}

/// Everything reaches itself.
pub proof fn lemma_reach_refl<T>(r: spec_fn(T, T) -> bool, a: T)
    ensures
        reach(r, a, a),
{
    assert(leads(r, seq![a], a, a));
}

/// One step is a way to reach.
pub proof fn lemma_reach_step<T>(r: spec_fn(T, T) -> bool, a: T, b: T)
    requires
        r(a, b),
    ensures
        reach(r, a, b),
{
    assert(leads(r, seq![a, b], a, b));
}

/// What is reached from something reached is reached.
pub proof fn lemma_reach_trans<T>(r: spec_fn(T, T) -> bool, a: T, b: T, c: T)
    requires
        reach(r, a, b),
        reach(r, b, c),
    ensures
        reach(r, a, c),
{
    let p = choose|p: Seq<T>| leads(r, p, a, b);
    let q = choose|q: Seq<T>| leads(r, q, b, c);
    let s = p + q.drop_first();
    assert forall|i: int| 0 <= i < s.len() - 1 implies r(#[trigger] s[i], s[i + 1]) by {
        if i < p.len() - 1 {
            assert(r(p[i], p[i + 1]));
        } else {
            assert(s[i] == q[i - p.len() + 1]);
            assert(s[i + 1] == q[i - p.len() + 2]);
        }
    }
    assert(leads(r, s, a, c));
}

/// What a path reaches from inside a closed set is inside that set.
proof fn lemma_path_stays<T>(
    r: spec_fn(T, T) -> bool,
    inside: spec_fn(T) -> bool,
    p: Seq<T>,
    i: int,
)
    requires
        chain(r, p),
        0 <= i < p.len(),
        inside(p[0]),
        forall|u: T, w: T| inside(u) && #[trigger] r(u, w) ==> inside(w),
    ensures
        inside(p[i]),
    decreases i,
{
    if i > 0 {
        lemma_path_stays(r, inside, p, i - 1);
        assert(r(p[i - 1], p[i - 1 + 1]));
    }
}

/// A set that is closed under `r` holds all that is reached from its members.
pub proof fn lemma_reach_stays<T>(
    r: spec_fn(T, T) -> bool,
    inside: spec_fn(T) -> bool,
    a: T,
    b: T,
)
    requires
        reach(r, a, b),
        inside(a),
        forall|u: T, w: T| inside(u) && #[trigger] r(u, w) ==> inside(w),
    ensures
        inside(b),
{
    let p = choose|p: Seq<T>| leads(r, p, a, b);
    lemma_path_stays(r, inside, p, p.len() - 1);
}

/// A larger relation reaches at least as far.
pub proof fn lemma_reach_mono<T>(
    r: spec_fn(T, T) -> bool,
    s: spec_fn(T, T) -> bool,
    a: T,
    b: T,
)
    requires
        reach(r, a, b),
        forall|u: T, w: T| #[trigger] r(u, w) ==> s(u, w),
    ensures
        reach(s, a, b),
{
    let p = choose|p: Seq<T>| leads(r, p, a, b);
    assert forall|i: int| 0 <= i < p.len() - 1 implies s(#[trigger] p[i], p[i + 1]) by {
        assert(r(p[i], p[i + 1]));
    }
    assert(leads(s, p, a, b));
}

/// What is reached is the start itself or one step away from something reached.
pub proof fn lemma_reach_last<T>(r: spec_fn(T, T) -> bool, a: T, c: T)
    requires
        reach(r, a, c),
    ensures
        a == c || exists|b: T| reach(r, a, b) && #[trigger] r(b, c),
{
    let p = choose|p: Seq<T>| leads(r, p, a, c);
    if p.len() > 1 {
        let q = p.drop_last();
        let b = p[p.len() - 2];
        assert forall|i: int| 0 <= i < q.len() - 1 implies r(#[trigger] q[i], q[i + 1]) by {
            assert(r(p[i], p[i + 1]));
        }
        assert(leads(r, q, a, b));
        assert(r(p[p.len() - 2], p[p.len() - 2 + 1]));
        assert(reach(r, a, b) && r(b, c));
    }
}

/// What is reached stays reached when everything is renamed.
pub proof fn lemma_reach_map<T, U>(
    r: spec_fn(T, T) -> bool,
    s: spec_fn(U, U) -> bool,
    f: spec_fn(T) -> U,
    a: T,
    b: T,
)
    requires
        reach(r, a, b),
        forall|u: T, w: T| #[trigger] r(u, w) ==> s(f(u), f(w)),
    ensures
        reach(s, f(a), f(b)),
{
    let p = choose|p: Seq<T>| leads(r, p, a, b);
    let q = Seq::new(p.len(), |i: int| f(p[i]));
    assert forall|i: int| 0 <= i < q.len() - 1 implies s(#[trigger] q[i], q[i + 1]) by {
        assert(r(p[i], p[i + 1]));
    }
    assert(leads(s, q, f(a), f(b)));
}

} // verus!
