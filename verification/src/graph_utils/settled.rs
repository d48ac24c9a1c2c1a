//! What repeated searches of the same graph find together.
use crate::graph_utils::reach::{
    leads, lemma_reach_mono, lemma_reach_refl, lemma_reach_stays, lemma_reach_step,
    lemma_reach_trans, reach,
};
use crate::graph_utils::tarjan_scc::{
    comp_edges, components_wf, edges_avoiding, explores, has_edge, in_prefix, Component, SccId,
};
use crate::keyed::{KeySet, NodeKey};
use vstd::prelude::*;

verus! {

/// The edges of a graph.
pub open spec fn graph_edges<Node: NodeKey>(graph: Map<Node, KeySet<Node>>) -> spec_fn(
    Node,
    Node,
) -> bool {
    |u: Node, w: Node| has_edge(graph, u, w)
}

/// What is known of the components after any number of searches of one graph.
pub open spec fn settled<Node: NodeKey>(
    scc: Map<Node, SccId>,
    comps: Seq<Component<Node>>,
    graph: Map<Node, KeySet<Node>>,
    marks: Set<Node>,
) -> bool {
    &&& components_wf(scc, comps)
    // Edges lead to the same component or to an earlier one.
    &&& forall|k: int, u: Node, w: Node|
        0 <= k < comps.len() && #[trigger] comps[k].members@.contains(u) && #[trigger] has_edge(
            graph,
            u,
            w,
        ) ==> in_prefix(comps, k, w)
    // Two vertices are in the same component if and only if they reach each other.
    &&& forall|u: Node, v: Node|
        #![trigger scc[u], scc[v]]
        scc.contains_key(u) && scc.contains_key(v) ==> (scc[u] == scc[v] <==> reach(
            graph_edges(graph),
            u,
            v,
        ) && reach(graph_edges(graph), v, u))
    // Recorded edges are edges of the graph.
    &&& forall|k: int, t: SccId|
        0 <= k < comps.len() && #[trigger] comps[k].out_edges@.contains(t) ==> exists|
            u: Node,
            w: Node,
        |
            comps[k].members@.contains(u) && #[trigger] has_edge(graph, u, w) && scc.contains_key(w)
                && scc[w] == t
    // Every edge that leaves a component is covered by recorded edges.
    &&& forall|k: int, u: Node, w: Node|
        0 <= k < comps.len() && #[trigger] comps[k].members@.contains(u) && #[trigger] has_edge(
            graph,
            u,
            w,
        ) ==> comps[k].members@.contains(w) || reach(comp_edges(comps), comps[k].this, scc[w])
    // A component is marked if an edge leads from it to a marked vertex.
    &&& forall|k: int|
        0 <= k < comps.len() ==> ((#[trigger] comps[k]).marked_for_main <==> exists|
            u: Node,
            w: Node,
        |
            comps[k].members@.contains(u) && #[trigger] has_edge(graph, u, w) && marks.contains(w))
}

/// Before the first search, everything that there is to know is known.
pub proof fn lemma_settled_empty<Node: NodeKey>(graph: Map<Node, KeySet<Node>>, marks: Set<Node>)
    ensures
        settled(Map::<Node, SccId>::empty(), Seq::empty(), graph, marks),
{
}

/// Edges of explored vertices lead to explored vertices.
pub proof fn lemma_settled_closed<Node: NodeKey>(
    scc: Map<Node, SccId>,
    comps: Seq<Component<Node>>,
    graph: Map<Node, KeySet<Node>>,
    marks: Set<Node>,
)
    requires
        settled(scc, comps, graph, marks),
    ensures
        forall|u: Node, w: Node|
            scc.contains_key(u) && #[trigger] has_edge(graph, u, w) ==> scc.contains_key(w),
{
    assert forall|u: Node, w: Node|
        scc.contains_key(u) && #[trigger] has_edge(graph, u, w) implies scc.contains_key(w) by {
        assert(in_prefix(comps, comps.len() - 1, u));
        let k = choose|k: int|
            0 <= k <= comps.len() - 1 && (#[trigger] comps[k]).members@.contains(u);
        assert(comps[k].members@.contains(u));
        assert(in_prefix(comps, k, w));
        let j = choose|j: int| 0 <= j <= k && (#[trigger] comps[j]).members@.contains(w);
        assert(comps[j].members@.contains(w));
    }
}

/// A path that ends outside a closed set avoids that set.
proof fn lemma_reach_avoids<Node: NodeKey>(
    graph: Map<Node, KeySet<Node>>,
    avoid: Set<Node>,
    u: Node,
    v: Node,
)
    requires
        forall|x: Node, y: Node|
            avoid.contains(x) && #[trigger] has_edge(graph, x, y) ==> avoid.contains(y),
        !avoid.contains(v),
        reach(graph_edges(graph), u, v),
    ensures
        reach(edges_avoiding(graph, avoid), u, v),
{
    let r = graph_edges(graph);
    let e = edges_avoiding(graph, avoid);
    let p = choose|p: Seq<Node>| leads(r, p, u, v);
    let inside = |x: Node| avoid.contains(x);
    assert forall|i: int| 0 <= i < p.len() implies !avoid.contains(#[trigger] p[i]) by {
        if avoid.contains(p[i]) {
            let q = p.skip(i);
            assert forall|j: int| 0 <= j < q.len() - 1 implies r(#[trigger] q[j], q[j + 1]) by {
                assert(r(p[i + j], p[i + j + 1]));
            }
            assert(leads(r, q, p[i], v));
            assert forall|x: Node, y: Node| inside(x) && #[trigger] r(x, y) implies inside(y) by {
                assert(has_edge(graph, x, y));
            }
            lemma_reach_stays(r, inside, p[i], v);
        }
    }
    assert forall|i: int| 0 <= i < p.len() - 1 implies e(#[trigger] p[i], p[i + 1]) by {
        assert(r(p[i], p[i + 1]));
        assert(!avoid.contains(p[i + 1]));
    }
    assert(leads(e, p, u, v));
}

/// After one more search from `roots`, exactly the vertices that are reachable from them have
/// been added, and everything that holds of the components still holds.
pub proof fn lemma_settled_explore<Node: NodeKey>(
    scc: Map<Node, SccId>,
    comps: Seq<Component<Node>>,
    scc2: Map<Node, SccId>,
    comps2: Seq<Component<Node>>,
    roots: Set<Node>,
    graph: Map<Node, KeySet<Node>>,
    marks: Set<Node>,
    found: Set<SccId>,
)
    requires
        settled(scc, comps, graph, marks),
        explores(scc, comps, scc2, comps2, roots, graph, marks, found),
        components_wf(scc2, comps2),
    ensures
        settled(scc2, comps2, graph, marks),
        forall|v: Node| #[trigger]
            scc2.contains_key(v) <==> scc.contains_key(v) || exists|r: Node|
                roots.contains(r) && #[trigger] reach(graph_edges(graph), r, v),
{
    let e = edges_avoiding(graph, scc.dom());
    let r = graph_edges(graph);
    let n = comps.len() as int;
    lemma_settled_closed(scc, comps, graph, marks);
    assert forall|k: int| 0 <= k < n implies #[trigger] comps2[k] == comps[k] by {
        assert(comps2.take(n)[k] == comps[k]);
    }
    assert forall|k: int, u: Node, w: Node|
        0 <= k < comps2.len() && #[trigger] comps2[k].members@.contains(u) && #[trigger] has_edge(
            graph,
            u,
            w,
        ) implies in_prefix(comps2, k, w) by {
        if k < n {
            assert(comps[k].members@.contains(u));
            assert(in_prefix(comps, k, w));
            let j = choose|j: int| 0 <= j <= k && (#[trigger] comps[j]).members@.contains(w);
            assert(comps2[j].members@.contains(w));
        }
    }
    assert forall|u: Node, v: Node|
        scc2.contains_key(u) && scc2.contains_key(v) && scc.contains_key(u) && !scc.contains_key(
            v,
        ) implies scc2[u] != scc2[v] && !reach(r, u, v) by {
        let m = comps2.len() - 1;
        assert(in_prefix(comps, n - 1, u) && in_prefix(comps2, m, v));
        let k = choose|k: int| 0 <= k <= n - 1 && (#[trigger] comps[k]).members@.contains(u);
        let j = choose|j: int| 0 <= j <= m && (#[trigger] comps2[j]).members@.contains(v);
        assert(comps[k].members@.contains(u));
        assert(comps2[j].members@.contains(v));
        assert(comps2[k].members@.contains(u));
        if j < n {
            assert(comps[j].members@.contains(v));
        }
        assert(comps2[k].this != comps2[j].this);
        if reach(r, u, v) {
            let inside = |x: Node| scc.contains_key(x);
            assert forall|x: Node, y: Node| inside(x) && #[trigger] r(x, y) implies inside(y) by {
                assert(has_edge(graph, x, y));
            }
            lemma_reach_stays(r, inside, u, v);
        }
    }
    assert forall|u: Node, v: Node|
        #![trigger scc2[u], scc2[v]]
        scc2.contains_key(u) && scc2.contains_key(v) implies (scc2[u] == scc2[v] <==> reach(
        r,
        u,
        v,
    ) && reach(r, v, u)) by {
        if scc.contains_key(u) && scc.contains_key(v) {
            assert(scc[u] == scc2[u] && scc[v] == scc2[v]);
        } else if !scc.contains_key(u) && !scc.contains_key(v) {
            if reach(r, u, v) {
                lemma_reach_avoids(graph, scc.dom(), u, v);
            }
            if reach(r, v, u) {
                lemma_reach_avoids(graph, scc.dom(), v, u);
            }
            if reach(e, u, v) {
                lemma_reach_mono(e, r, u, v);
            }
            if reach(e, v, u) {
                lemma_reach_mono(e, r, v, u);
            }
        }
    }
    assert forall|k: int, t: SccId|
        0 <= k < comps2.len() && #[trigger] comps2[k].out_edges@.contains(t) implies exists|
        u: Node,
        w: Node,
    |
        comps2[k].members@.contains(u) && #[trigger] has_edge(graph, u, w) && scc2.contains_key(w)
            && scc2[w] == t by {
        if k < n {
            assert(comps[k].out_edges@.contains(t));
            let (u, w) = choose|u: Node, w: Node|
                comps[k].members@.contains(u) && #[trigger] has_edge(graph, u, w)
                    && scc.contains_key(w) && scc[w] == t;
            assert(comps2[k].members@.contains(u) && has_edge(graph, u, w) && scc2.contains_key(w)
                && scc2[w] == t);
        }
    }
    assert forall|k: int, u: Node, w: Node|
        0 <= k < comps2.len() && #[trigger] comps2[k].members@.contains(u) && #[trigger] has_edge(
            graph,
            u,
            w,
        ) implies comps2[k].members@.contains(w) || reach(
        comp_edges(comps2),
        comps2[k].this,
        scc2[w],
    ) by {
        if k < n {
            assert(comps[k].members@.contains(u));
            assert(scc.contains_key(w));
            if !comps[k].members@.contains(w) {
                lemma_reach_comps_grow(comps, comps2, comps[k].this, scc[w]);
            }
        }
    }
    assert forall|k: int| 0 <= k < comps2.len() implies ((
    #[trigger] comps2[k]).marked_for_main <==> exists|u: Node, w: Node|
        comps2[k].members@.contains(u) && #[trigger] has_edge(graph, u, w) && marks.contains(w)) by {
        if k < n {
            assert(comps2[k] == comps[k]);
        }
    }
    assert(settled(scc2, comps2, graph, marks));
    lemma_settled_closed(scc2, comps2, graph, marks);
    assert forall|v: Node| #[trigger] scc2.contains_key(v) <==> scc.contains_key(v) || exists|q: Node|
        roots.contains(q) && #[trigger] reach(r, q, v) by {
        if scc2.contains_key(v) && !scc.contains_key(v) {
            let q = choose|q: Node|
                roots.contains(q) && !scc.contains_key(q) && #[trigger] reach(e, q, v);
            lemma_reach_mono(e, r, q, v);
        }
        if exists|q: Node| roots.contains(q) && #[trigger] reach(r, q, v) {
            let q = choose|q: Node| roots.contains(q) && #[trigger] reach(r, q, v);
            if !scc.contains_key(q) {
                lemma_reach_refl(e, q);
            }
            assert(scc2.contains_key(q));
            let inside = |x: Node| scc2.contains_key(x);
            assert forall|x: Node, y: Node| inside(x) && #[trigger] r(x, y) implies inside(y) by {
                assert(has_edge(graph, x, y));
            }
            lemma_reach_stays(r, inside, q, v);
        }
    }
}

/// More components reach at least as far.
proof fn lemma_reach_comps_grow<Node>(
    comps: Seq<Component<Node>>,
    comps2: Seq<Component<Node>>,
    a: SccId,
    b: SccId,
)
    requires
        comps.len() <= comps2.len(),
        forall|k: int| 0 <= k < comps.len() ==> #[trigger] comps2[k] == comps[k],
        reach(comp_edges(comps), a, b),
    ensures
        reach(comp_edges(comps2), a, b),
{
    let r = comp_edges(comps);
    let s = comp_edges(comps2);
    assert forall|x: SccId, y: SccId| #[trigger] r(x, y) implies s(x, y) by {
        let k = choose|k: int|
            0 <= k < comps.len() && (#[trigger] comps[k]).this == x
                && comps[k].out_edges@.contains(y);
        assert(comps2[k].this == x && comps2[k].out_edges@.contains(y));
    }
    lemma_reach_mono(r, s, a, b);
}

/// The component of `v` is reached along recorded edges from that of `u` if and only if `v` is
/// reached from `u` in the graph.
pub proof fn lemma_settled_reach<Node: NodeKey>(
    scc: Map<Node, SccId>,
    comps: Seq<Component<Node>>,
    graph: Map<Node, KeySet<Node>>,
    marks: Set<Node>,
    u: Node,
    v: Node,
)
    requires
        settled(scc, comps, graph, marks),
        scc.contains_key(u),
        scc.contains_key(v),
    ensures
        reach(comp_edges(comps), scc[u], scc[v]) <==> reach(graph_edges(graph), u, v),
{
    let r = graph_edges(graph);
    let c = comp_edges(comps);
    lemma_settled_closed(scc, comps, graph, marks);
    if reach(r, u, v) {
        let inside = |x: Node| scc.contains_key(x) && reach(c, scc[u], scc[x]);
        assert forall|x: Node, y: Node| inside(x) && #[trigger] r(x, y) implies inside(y) by {
            assert(has_edge(graph, x, y));
            assert(in_prefix(comps, comps.len() - 1, x));
            let k = choose|k: int|
                0 <= k <= comps.len() - 1 && (#[trigger] comps[k]).members@.contains(x);
            assert(comps[k].members@.contains(x));
            if comps[k].members@.contains(y) {
                assert(scc[y] == scc[x]);
            } else {
                lemma_reach_trans(c, scc[u], scc[x], scc[y]);
            }
        }
        lemma_reach_refl(c, scc[u]);
        lemma_reach_stays(r, inside, u, v);
    }
    if reach(c, scc[u], scc[v]) {
        let inside = |t: SccId|
            forall|x: Node| scc.contains_key(x) && #[trigger] scc[x] == t ==> reach(r, u, x);
        assert(inside(scc[u])) by {
            assert forall|x: Node| scc.contains_key(x) && #[trigger] scc[x] == scc[u] implies reach(
                r,
                u,
                x,
            ) by {
                assert(scc[x] == scc[u]);
            }
        }
        assert forall|s: SccId, t: SccId| inside(s) && #[trigger] c(s, t) implies inside(t) by {
            let k = choose|k: int|
                0 <= k < comps.len() && (#[trigger] comps[k]).this == s
                    && comps[k].out_edges@.contains(t);
            let (a, b) = choose|a: Node, b: Node|
                comps[k].members@.contains(a) && #[trigger] has_edge(graph, a, b)
                    && scc.contains_key(b) && scc[b] == t;
            assert(comps[k].members@.contains(a));
            assert(scc[a] == s);
            assert(reach(r, u, a));
            lemma_reach_step(r, a, b);
            lemma_reach_trans(r, u, a, b);
            assert forall|x: Node| scc.contains_key(x) && #[trigger] scc[x] == t implies reach(
                r,
                u,
                x,
            ) by {
                assert(scc[x] == scc[b]);
                lemma_reach_trans(r, u, b, x);
            }
        }
        lemma_reach_stays(c, inside, scc[u], scc[v]);
        assert(inside(scc[v]));
        assert(scc[v] == scc[v]);
    }
}

} // verus!
