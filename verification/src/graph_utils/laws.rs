//! What searches for strongly connected components guarantee.
use crate::graph_utils::reach::{lemma_reach_mono, lemma_reach_refl, reach};
use crate::graph_utils::tarjan_scc::{
    components_wf, edges_avoiding, events_of, explores, has_edge, in_prefix, members_of, Component,
    SccEvent, SccId, TarjanSccResult,
};
use crate::keyed::{KeySet, NodeKey};
use vstd::prelude::*;

verus! {

/// A search returns the components of its roots, whether they were explored just now or before. All
/// roots have a component, and no component has the number zero.
pub proof fn lemma_roots_found<Node: NodeKey>(
    before: &TarjanSccResult<Node>,
    after: &TarjanSccResult<Node>,
    roots: Set<Node>,
    graph: Map<Node, KeySet<Node>>,
    marks: Set<Node>,
    found: Set<SccId>,
)
    requires
        after.wf(),
        explores(
            before.scc(),
            before.comps(),
            after.scc(),
            after.comps(),
            roots,
            graph,
            marks,
            found,
        ),
    ensures
        forall|r: Node| #[trigger] roots.contains(r) ==> after.scc().contains_key(r),
        found == roots.map(|r: Node| after.scc()[r]),
        roots == Set::<Node>::empty() ==> found == Set::<SccId>::empty(),
        !found.contains(0),
{
    after.lemma_wf();
    let id = |r: Node| after.scc()[r];
    assert(found =~= roots.map(id)) by {
        assert forall|c: SccId| #[trigger] found.contains(c) implies roots.map(id).contains(c) by {
            let r = choose|r: Node| #[trigger] roots.contains(r) && after.scc()[r] == c;
            assert(id(r) == c);
        }
        assert forall|c: SccId| #[trigger] roots.map(id).contains(c) implies found.contains(c) by {
            let r = choose|r: Node| #[trigger] roots.contains(r) && id(r) == c;
            assert(after.scc()[r] == c);
        }
    }
    assert forall|r: Node| #[trigger] roots.contains(r) implies after.scc().contains_key(r)
        && after.scc()[r] >= 1 by {
        if !before.scc().contains_key(r) {
            lemma_reach_refl(edges_avoiding(graph, before.scc().dom()), r);
        }
        assert(after.scc().contains_key(r));
        assert(in_prefix(after.comps(), after.comps().len() - 1, r));
        let k = choose|k: int|
            0 <= k <= after.comps().len() - 1 && (#[trigger] after.comps()[k]).members@.contains(r);
        assert(after.scc()[r] == after.comps()[k].this);
    }
    if found.contains(0) {
        let r = choose|r: Node| #[trigger] roots.contains(r) && after.scc()[r] == 0;
        assert(after.scc()[r] >= 1);
    }
}

/// Whether the event at position `i` is that of a vertex of component `this`: only such events
/// follow up to the event of the component itself.
pub open spec fn in_block<Node>(events: Seq<SccEvent<Node>>, i: int, this: SccId) -> bool {
    exists|j: int|
        i < j < events.len() && (#[trigger] events[j] matches SccEvent::Next { this: id, .. } && id
            == this) && forall|k: int| i <= k < j ==> #[trigger] events[k] is Member
}

/// Whether events are those of components: each after its vertices, of which there is at least one,
/// and each vertex once.
pub open spec fn are_blocks<Node>(scc: Map<Node, SccId>, events: Seq<SccEvent<Node>>) -> bool {
    &&& events.len() > 0 ==> events.last() is Next
    &&& forall|i: int|
        0 <= i < events.len() && #[trigger] events[i] is Next ==> i > 0 && events[i - 1] is Member
    &&& forall|i: int, j: int|
        0 <= i < j < events.len() && #[trigger] events[i] is Next && #[trigger] events[j] is Next
            ==> events[i]->this != events[j]->this
    &&& forall|i: int, j: int|
        0 <= i < j < events.len() && #[trigger] events[i] is Member
            && #[trigger] events[j] is Member ==> events[i]->node != events[j]->node
    &&& forall|i: int|
        0 <= i < events.len() && #[trigger] events[i] is Member ==> scc.contains_key(
            events[i]->node,
        ) && in_block(events, i, scc[events[i]->node])
}

/// Whether a vertex is among the events.
pub open spec fn has_member<Node>(events: Seq<SccEvent<Node>>, v: Node) -> bool {
    exists|i: int| 0 <= i < events.len() && #[trigger] events[i] == (SccEvent::Member { node: v })
}

/// Whether a component is among the events.
pub open spec fn has_component<Node>(events: Seq<SccEvent<Node>>, this: SccId) -> bool {
    exists|i: int|
        0 <= i < events.len() && #[trigger] events[i] is Next && events[i]->this == this
}

/// Whether a component with the given number is in a sequence.
spec fn is_listed<Node>(comps: Seq<Component<Node>>, this: SccId) -> bool {
    exists|k: int| 0 <= k < comps.len() && (#[trigger] comps[k]).this == this
}

/// The events of components are those of the components.
proof fn lemma_events<Node>(scc: Map<Node, SccId>, comps: Seq<Component<Node>>)
    requires
        forall|k: int, v: Node|
            0 <= k < comps.len() && #[trigger] comps[k].members@.contains(v) ==> scc.contains_key(v)
                && scc[v] == comps[k].this,
        forall|j: int, k: int|
            0 <= j < k < comps.len() ==> (#[trigger] comps[j]).this != (#[trigger] comps[k]).this,
        forall|k: int|
            0 <= k < comps.len() ==> (#[trigger] comps[k]).members@.no_duplicates()
                && comps[k].members@.len() > 0,
    ensures
        are_blocks(scc, events_of(comps)),
        forall|v: Node| #[trigger]
            has_member(events_of(comps), v) <==> in_prefix(comps, comps.len() - 1, v),
        forall|t: SccId| #[trigger] has_component(events_of(comps), t) <==> is_listed(comps, t),
    decreases comps.len(),
{
    let events = events_of(comps);
    if comps.len() > 0 {
        let rest = comps.drop_last();
        let c = comps.last();
        let n = rest.len() as int;
        assert(comps[n] == c);
        assert forall|k: int| 0 <= k < n implies #[trigger] rest[k] == comps[k] by {}
        assert forall|k: int, v: Node|
            0 <= k < rest.len() && #[trigger] rest[k].members@.contains(v) implies scc.contains_key(
            v,
        ) && scc[v] == rest[k].this by {
            assert(comps[k].members@.contains(v));
        }
        lemma_events(scc, rest);
        let before = events_of(rest);
        let own = members_of(c.members@);
        let m = before.len() as int;
        let end = m + own.len() as int;
        assert forall|i: int| 0 <= i < m implies #[trigger] events[i] == before[i] by {}
        assert forall|i: int| m <= i < end implies #[trigger] events[i] == (SccEvent::Member {
            node: c.members@[i - m],
        }) by {}
        assert(events[end] is Next && events[end]->this == c.this);
        assert(events.len() == end + 1);
        // What the earlier events speak of is in earlier components.
        assert forall|i: int| 0 <= i < m && #[trigger] events[i] is Next implies events[i]->this
            != c.this by {
            assert(before[i] is Next);
            assert(has_component(before, before[i]->this));
            let k = choose|k: int| 0 <= k < n && (#[trigger] rest[k]).this == before[i]->this;
            assert(comps[k].this != comps[n].this);
        }
        assert forall|i: int| 0 <= i < m && #[trigger] events[i] is Member implies (
        scc[events[i]->node] != c.this) by {
            assert(before[i] == (SccEvent::Member { node: before[i]->node }));
            assert(has_member(before, before[i]->node));
            let k = choose|k: int|
                0 <= k <= n - 1 && (#[trigger] rest[k]).members@.contains(before[i]->node);
            assert(comps[k].members@.contains(before[i]->node));
            assert(comps[k].this != comps[n].this);
        }
        assert forall|i: int| m <= i < end implies scc.contains_key((#[trigger] events[i])->node)
            && scc[events[i]->node] == c.this by {
            assert(comps[n].members@.contains(c.members@[i - m]));
        }
        assert forall|i: int|
            0 <= i < events.len() && #[trigger] events[i] is Next implies i > 0 && events[i - 1]
            is Member by {
            if i < m {
                assert(before[i] is Next);
                assert(events[i - 1] == before[i - 1]);
            } else {
                assert(i == end);
                assert(events[end - 1] is Member);
            }
        }
        assert forall|i: int, j: int|
            0 <= i < j < events.len() && #[trigger] events[i] is Next && #[trigger] events[j]
                is Next implies events[i]->this != events[j]->this by {
            if j < m {
                assert(before[i] is Next && before[j] is Next);
            }
        }
        assert forall|i: int, j: int|
            0 <= i < j < events.len() && #[trigger] events[i] is Member && #[trigger] events[j]
                is Member implies events[i]->node != events[j]->node by {
            if j < m {
                assert(before[i] is Member && before[j] is Member);
            }
        }
        assert forall|i: int|
            0 <= i < events.len() && #[trigger] events[i] is Member implies scc.contains_key(
            events[i]->node,
        ) && in_block(events, i, scc[events[i]->node]) by {
            if i < m {
                assert(before[i] is Member);
                assert(in_block(before, i, scc[before[i]->node]));
                let j = choose|j: int|
                    i < j < before.len() && (#[trigger] before[j] matches SccEvent::Next {
                        this: id,
                        ..
                    } && id == scc[before[i]->node]) && forall|k: int|
                        i <= k < j ==> #[trigger] before[k] is Member;
                assert(events[j] == before[j]);
                assert forall|k: int| i <= k < j implies #[trigger] events[k] is Member by {
                    assert(before[k] is Member);
                }
            } else {
                assert(events[end] is Next);
            }
        }
        assert forall|v: Node| #[trigger]
            has_member(events, v) <==> in_prefix(comps, comps.len() - 1, v) by {
            if has_member(events, v) {
                let i = choose|i: int|
                    0 <= i < events.len() && #[trigger] events[i] == (SccEvent::Member { node: v });
                if i < m {
                    assert(before[i] == (SccEvent::Member { node: v }));
                    assert(has_member(before, v));
                    let k = choose|k: int|
                        0 <= k <= n - 1 && (#[trigger] rest[k]).members@.contains(v);
                    assert(comps[k].members@.contains(v));
                } else {
                    assert(comps[n].members@.contains(c.members@[i - m]));
                }
            }
            if in_prefix(comps, comps.len() - 1, v) {
                let k = choose|k: int|
                    0 <= k <= comps.len() - 1 && (#[trigger] comps[k]).members@.contains(v);
                if k < n {
                    assert(rest[k].members@.contains(v));
                    assert(has_member(before, v));
                    let i = choose|i: int|
                        0 <= i < before.len() && #[trigger] before[i] == (SccEvent::Member {
                            node: v,
                        });
                    assert(events[i] == (SccEvent::Member { node: v }));
                } else {
                    let i = choose|i: int| 0 <= i < c.members@.len() && c.members@[i] == v;
                    assert(events[m + i] == (SccEvent::Member { node: v }));
                }
            }
        }
        assert forall|t: SccId| #[trigger] has_component(events, t) <==> is_listed(comps, t) by {
            if has_component(events, t) {
                let i = choose|i: int|
                    0 <= i < events.len() && #[trigger] events[i] is Next && events[i]->this == t;
                if i < m {
                    assert(before[i] is Next);
                    assert(has_component(before, t));
                    let k = choose|k: int| 0 <= k < n && (#[trigger] rest[k]).this == t;
                    assert(comps[k].this == t);
                } else {
                    assert(comps[n].this == t);
                }
            }
            if is_listed(comps, t) {
                let k = choose|k: int| 0 <= k < comps.len() && (#[trigger] comps[k]).this == t;
                if k < n {
                    assert(rest[k].this == t);
                    assert(has_component(before, t));
                    let i = choose|i: int|
                        0 <= i < before.len() && #[trigger] before[i] is Next && before[i]->this
                            == t;
                    assert(events[i] is Next && events[i]->this == t);
                } else {
                    assert(events[end] is Next);
                }
            }
        }
    }
}

/// The events of a search are blocks, one for each component: its vertices, and then the component.
/// The vertices are those that were explored, each once and in the block of its component, and the
/// numbers of the components differ and start at one.
pub proof fn lemma_topsort<Node: NodeKey>(result: &TarjanSccResult<Node>)
    requires
        result.wf(),
    ensures
        are_blocks(result.scc(), events_of(result.comps())),
        forall|v: Node| #[trigger]
            has_member(events_of(result.comps()), v) <==> result.scc().contains_key(v),
        forall|t: SccId| #[trigger] has_component(events_of(result.comps()), t) ==> t >= 1,
{
    result.lemma_wf();
    let comps = result.comps();
    assert(components_wf(result.scc(), comps));
    lemma_events(result.scc(), comps);
    assert forall|v: Node| #[trigger]
        has_member(events_of(comps), v) <==> result.scc().contains_key(v) by {
        if has_member(events_of(comps), v) {
            let k = choose|k: int|
                0 <= k <= comps.len() - 1 && (#[trigger] comps[k]).members@.contains(v);
            assert(comps[k].members@.contains(v));
        }
    }
    assert forall|t: SccId| #[trigger] has_component(events_of(comps), t) implies t >= 1 by {
        let k = choose|k: int| 0 <= k < comps.len() && (#[trigger] comps[k]).this == t;
        assert(comps[k].this >= 1);
    }
}

/// The steps that a graph allows: from each vertex to its neighbors.
pub open spec fn steps<Node: NodeKey>(graph: Map<Node, KeySet<Node>>) -> spec_fn(
    Node,
    Node,
) -> bool {
    |u: Node, w: Node| graph.contains_key(u) && graph[u]@.contains(w)
}

/// A first search explores what can be reached from the roots, and nothing else. Two vertices are
/// in the same component if and only if each can be reached from the other one.
pub proof fn lemma_first_search<Node: NodeKey>(
    before: &TarjanSccResult<Node>,
    after: &TarjanSccResult<Node>,
    roots: Set<Node>,
    graph: Map<Node, KeySet<Node>>,
    marks: Set<Node>,
    found: Set<SccId>,
    u: Node,
    v: Node,
)
    requires
        before.scc() == Map::<Node, SccId>::empty(),
        explores(
            before.scc(),
            before.comps(),
            after.scc(),
            after.comps(),
            roots,
            graph,
            marks,
            found,
        ),
    ensures
        after.scc().contains_key(v) <==> exists|r: Node|
            roots.contains(r) && #[trigger] reach(steps(graph), r, v),
        after.scc().contains_key(u) && after.scc().contains_key(v) ==> (after.scc()[u]
            == after.scc()[v] <==> reach(steps(graph), u, v) && reach(steps(graph), v, u)),
{
    let edges = edges_avoiding(graph, before.scc().dom());
    if after.scc().contains_key(v) {
        let r = choose|r: Node| roots.contains(r) && #[trigger] reach(edges, r, v);
        lemma_same_steps(graph, before.scc(), r, v);
    }
    if exists|r: Node| roots.contains(r) && #[trigger] reach(steps(graph), r, v) {
        let r = choose|r: Node| roots.contains(r) && #[trigger] reach(steps(graph), r, v);
        lemma_same_steps(graph, before.scc(), r, v);
    }
    lemma_same_steps(graph, before.scc(), u, v);
    lemma_same_steps(graph, before.scc(), v, u);
}

/// If nothing is to be avoided, all steps are allowed.
proof fn lemma_same_steps<Node: NodeKey>(
    graph: Map<Node, KeySet<Node>>,
    scc: Map<Node, SccId>,
    a: Node,
    b: Node,
)
    requires
        scc == Map::<Node, SccId>::empty(),
    ensures
        reach(edges_avoiding(graph, scc.dom()), a, b) <==> reach(steps(graph), a, b),
{
    let e = edges_avoiding(graph, scc.dom());
    let s = steps(graph);
    if reach(e, a, b) {
        lemma_reach_mono(e, s, a, b);
    }
    if reach(s, a, b) {
        lemma_reach_mono(s, e, a, b);
    }
}

/// A component that was just found is marked if and only if a step leads from one of its members to
/// a mark. A step from a member leads to the same component, or to one that comes earlier.
pub proof fn lemma_components_told<Node: NodeKey>(
    before: &TarjanSccResult<Node>,
    after: &TarjanSccResult<Node>,
    roots: Set<Node>,
    graph: Map<Node, KeySet<Node>>,
    marks: Set<Node>,
    found: Set<SccId>,
    k: int,
    u: Node,
    w: Node,
)
    requires
        explores(
            before.scc(),
            before.comps(),
            after.scc(),
            after.comps(),
            roots,
            graph,
            marks,
            found,
        ),
        before.comps().len() <= k < after.comps().len(),
    ensures
        after.comps()[k].marked_for_main <==> exists|a: Node, b: Node|
            after.comps()[k].members@.contains(a) && #[trigger] steps(graph)(a, b) && marks.contains(
                b,
            ),
        after.comps()[k].members@.contains(u) && steps(graph)(u, w) ==> exists|j: int|
            0 <= j <= k && (#[trigger] after.comps()[j]).members@.contains(w),
{
    let s = steps(graph);
    if after.comps()[k].marked_for_main {
        let (a, b) = choose|a: Node, b: Node|
            after.comps()[k].members@.contains(a) && #[trigger] has_edge(graph, a, b)
                && marks.contains(b);
        assert(s(a, b));
    }
    if exists|a: Node, b: Node|
        after.comps()[k].members@.contains(a) && #[trigger] s(a, b) && marks.contains(b) {
        let (a, b) = choose|a: Node, b: Node|
            after.comps()[k].members@.contains(a) && #[trigger] s(a, b) && marks.contains(b);
        assert(has_edge(graph, a, b));
    }
    if after.comps()[k].members@.contains(u) && s(u, w) {
        assert(has_edge(graph, u, w));
    }
}

} // verus!
