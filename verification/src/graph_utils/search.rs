//! The state of a depth-first search for strongly connected components, and what each of its
//! steps preserves.
use crate::graph_utils::reach::{
    lemma_reach_mono, lemma_reach_refl, lemma_reach_stays, lemma_reach_step, lemma_reach_trans,
    reach,
};
use crate::graph_utils::tarjan_scc::{
    comp_edges, components_wf, edges_avoiding, has_edge, in_prefix, Component, SccId,
};
use crate::keyed::{KeySet, NodeKey};
use vstd::prelude::*;

verus! {

/// What is known of a vertex while it is on the stack.
pub struct VertexState {
    /// The number under which the vertex was discovered.
    pub link: SccId,
    /// The number of a vertex on the stack that is known to be reachable.
    pub lowlink: SccId,
    /// Components that are complete and that an edge of the vertex leads to.
    pub out_edges: KeySet<SccId>,
    /// Whether an edge of the vertex leads to a marked vertex.
    pub marked_for_main: bool,
}

/// A vertex whose neighbors are being explored.
pub struct WorkItem<Node> {
    /// The vertex.
    pub vertex: Node,
    /// The number under which the vertex was discovered.
    pub link: SccId,
    /// Neighbors that are still to be looked at.
    pub pending: Vec<Node>,
}

/// A snapshot of the search.
#[verifier::reject_recursive_types(Node)]
pub ghost struct Search<Node> {
    /// The graph.
    pub graph: Map<Node, KeySet<Node>>,
    /// The vertices that mark a component if an edge leads from it to one of them.
    pub marks: Set<Node>,
    /// The components of the vertices explored by earlier searches.
    pub earlier: Map<Node, SccId>,
    /// How many components were complete when the search began.
    pub base: int,
    /// The vertices from which the search started.
    pub roots: Set<Node>,
    /// All discovered vertices, in the order of their discovery.
    pub discovered: Seq<Node>,
    /// The components of the explored vertices.
    pub done: Map<Node, SccId>,
    /// The complete components.
    pub comps: Seq<Component<Node>>,
    /// The vertices that are discovered but not explored.
    pub stack: Seq<Node>,
    /// The state of each vertex on the stack.
    pub states: Map<Node, VertexState>,
    /// The current path from a root.
    pub work: Seq<WorkItem<Node>>,
}

impl<Node: NodeKey> Search<Node> {
    /// The edges of the part of the graph that no earlier search has explored.
    pub open spec fn edges(self) -> spec_fn(Node, Node) -> bool {
        edges_avoiding(self.graph, self.earlier.dom())
    }

    /// One more than the largest number in the segment of the stack that belongs to path
    /// position `i`.
    pub open spec fn bound(self, i: int) -> int {
        if i + 1 < self.work.len() {
            self.work[i + 1].link as int
        } else {
            self.discovered.len() as int + 1
        }
    }

    /// Whether `v` is in the segment of the stack that belongs to path position `i`.
    pub open spec fn in_segment(self, i: int, v: Node) -> bool {
        &&& self.states.contains_key(v)
        &&& self.work[i].link <= self.states[v].link < self.bound(i)
    }

    /// Whether the recorded edges lead from the segment of path position `i` to component `t`.
    pub open spec fn leaves_to(self, i: int, t: SccId) -> bool {
        exists|v: Node, s: SccId|
            self.in_segment(i, v) && #[trigger] self.states[v].out_edges@.contains(s) && reach(
                comp_edges(self.comps),
                s,
                t,
            )
    }

    /// How the parts of the state fit together.
    #[verifier::opaque]
    pub open spec fn inv_shape(self) -> bool {
        &&& self.discovered.no_duplicates()
        &&& forall|v: Node| #[trigger]
            self.discovered.contains(v) <==> (self.done.contains_key(v)
                || self.states.contains_key(v))
        &&& forall|v: Node| #[trigger]
            self.states.contains_key(v) ==> !self.done.contains_key(v)
        &&& forall|v: Node| #[trigger]
            self.states.contains_key(v) ==> 1 <= self.states[v].link <= self.discovered.len()
                && self.discovered[self.states[v].link - 1] == v
        &&& forall|v: Node| #[trigger] self.states.contains_key(v) <==> self.stack.contains(v)
        &&& forall|i: int, j: int|
            0 <= i < j < self.stack.len() ==> self.states[#[trigger] self.stack[i]].link
                < self.states[#[trigger] self.stack[j]].link
        &&& forall|i: int|
            0 <= i < self.work.len() ==> self.states.contains_key(
                (#[trigger] self.work[i]).vertex,
            ) && self.states[self.work[i].vertex].link == self.work[i].link
        &&& forall|i: int, j: int|
            0 <= i < j < self.work.len() ==> (#[trigger] self.work[i]).link < (
            #[trigger] self.work[j]).link
        &&& self.work.len() == 0 ==> self.stack.len() == 0
        &&& forall|v: Node| #[trigger]
            self.states.contains_key(v) ==> self.work[0].link <= self.states[v].link
    }

    /// What earlier searches found is kept.
    #[verifier::opaque]
    pub open spec fn inv_earlier(self) -> bool {
        &&& forall|v: Node| #[trigger]
            self.earlier.contains_key(v) ==> self.done.contains_key(v) && self.done[v]
                == self.earlier[v]
        &&& 0 <= self.base <= self.comps.len()
        &&& forall|k: int, v: Node|
            0 <= k < self.base && #[trigger] self.comps[k].members@.contains(v)
                ==> self.earlier.contains_key(v)
        &&& forall|k: int, v: Node|
            self.base <= k < self.comps.len() && #[trigger] self.comps[k].members@.contains(v)
                ==> !self.earlier.contains_key(v)
    }

    /// Who reaches whom on the stack.
    #[verifier::opaque]
    pub open spec fn inv_reach(self) -> bool {
        &&& forall|i: int, v: Node|
            0 <= i < self.work.len() && #[trigger] self.states.contains_key(v)
                && self.states[v].link >= (#[trigger] self.work[i]).link ==> reach(
                self.edges(),
                self.work[i].vertex,
                v,
            )
        &&& forall|i: int, v: Node|
            0 <= i < self.work.len() && #[trigger] self.states.contains_key(v)
                && self.states[v].link < #[trigger] self.bound(i) ==> reach(
                self.edges(),
                v,
                self.work[i].vertex,
            )
        &&& forall|i: int, j: int|
            0 <= i < self.work.len() - 1 && j == i + 1 ==> has_edge(
                self.graph,
                (#[trigger] self.work[i]).vertex,
                (#[trigger] self.work[j]).vertex,
            )
    }

    /// What the lowlink of `v` stands for.
    pub open spec fn low_right(self, v: Node) -> bool {
        self.states.contains_key(v) ==> {
            &&& 1 <= self.states[v].lowlink <= self.states[v].link
            &&& self.states.contains_key(self.discovered[self.states[v].lowlink - 1])
            &&& reach(self.edges(), v, self.discovered[self.states[v].lowlink - 1])
        }
    }

    /// What the lowlinks stand for.
    #[verifier::opaque]
    pub open spec fn inv_low(self) -> bool {
        &&& forall|v: Node| #[trigger] self.low_right(v)
        &&& forall|i: int, v: Node, w: Node|
            0 <= i < self.work.len() && #[trigger] self.in_segment(i, v) && #[trigger] has_edge(
                self.graph,
                v,
                w,
            ) && self.states.contains_key(w) && self.states[w].link < self.work[i].link
                ==> self.states[self.work[i].vertex].lowlink <= self.states[w].link
    }

    /// Where the edges of the vertices on the stack lead.
    #[verifier::opaque]
    pub open spec fn inv_edges(self) -> bool {
        &&& forall|i: int, v: Node, w: Node|
            0 <= i < self.work.len() && #[trigger] self.in_segment(i, v) && v
                != self.work[i].vertex && #[trigger] has_edge(self.graph, v, w)
                ==> self.done.contains_key(w) || (self.states.contains_key(w)
                && self.states[w].link < self.bound(i))
        &&& forall|i: int, w: Node|
            0 <= i < self.work.len() && #[trigger] has_edge(
                self.graph,
                (#[trigger] self.work[i]).vertex,
                w,
            ) ==> self.done.contains_key(w) || self.states.contains_key(w)
                || self.work[i].pending@.contains(w)
        &&& forall|i: int, w: Node|
            0 <= i < self.work.len() && #[trigger] self.work[i].pending@.contains(w) ==> has_edge(
                self.graph,
                self.work[i].vertex,
                w,
            )
    }

    /// What is recorded of the edges that leave the stack.
    #[verifier::opaque]
    pub open spec fn inv_out(self) -> bool {
        &&& forall|v: Node, t: SccId|
            self.states.contains_key(v) && #[trigger] self.states[v].out_edges@.contains(t)
                ==> exists|w: Node| #[trigger]
                has_edge(self.graph, v, w) && self.done.contains_key(w) && self.done[w] == t
        &&& forall|v: Node| #[trigger]
            self.states.contains_key(v) ==> (self.states[v].marked_for_main <==> exists|w: Node|
                 #[trigger]
                has_edge(self.graph, v, w) && self.marks.contains(w))
        &&& forall|i: int, q: int|
            0 <= i < self.work.len() && self.work[i].link <= q < #[trigger] self.bound(i) - 1
                && self.done.contains_key(#[trigger] self.discovered[q]) ==> self.leaves_to(
                i,
                self.done[self.discovered[q]],
            )
        &&& forall|i: int, q: int, v: Node|
            0 <= i < self.work.len() && 0 <= q < self.work[i].link - 1
                && #[trigger] self.in_segment(i, v) && has_edge(
                self.graph,
                v,
                #[trigger] self.discovered[q],
            ) && self.done.contains_key(self.discovered[q]) ==> self.leaves_to(
                i,
                self.done[self.discovered[q]],
            )
    }

    /// What is known of the components that this search completed.
    #[verifier::opaque]
    pub open spec fn inv_comps(self) -> bool {
        &&& components_wf(self.done, self.comps)
        &&& forall|k: int|
            0 <= k < self.comps.len() ==> 1 <= (#[trigger] self.comps[k]).this
                <= self.discovered.len() && self.comps[k].members@.contains(
                self.discovered[self.comps[k].this - 1],
            )
        &&& forall|k: int, u: Node, w: Node|
            self.base <= k < self.comps.len() && #[trigger] self.comps[k].members@.contains(u)
                && #[trigger] has_edge(self.graph, u, w) ==> in_prefix(self.comps, k, w)
        &&& forall|k: int, u: Node, v: Node|
            self.base <= k < self.comps.len() && #[trigger] self.comps[k].members@.contains(u)
                && #[trigger] self.comps[k].members@.contains(v) ==> reach(self.edges(), u, v)
        &&& forall|k: int, t: SccId|
            self.base <= k < self.comps.len() && #[trigger] self.comps[k].out_edges@.contains(t)
                ==> exists|u: Node, w: Node|
                self.comps[k].members@.contains(u) && #[trigger] has_edge(self.graph, u, w)
                    && self.done.contains_key(w) && self.done[w] == t
        &&& forall|k: int, u: Node, w: Node|
            self.base <= k < self.comps.len() && #[trigger] self.comps[k].members@.contains(u)
                && #[trigger] has_edge(self.graph, u, w) ==> self.comps[k].members@.contains(w)
                || reach(comp_edges(self.comps), self.comps[k].this, self.done[w])
        &&& forall|k: int|
            self.base <= k < self.comps.len() ==> ((#[trigger] self.comps[k]).marked_for_main
                <==> exists|u: Node, w: Node|
                self.comps[k].members@.contains(u) && #[trigger] has_edge(self.graph, u, w)
                    && self.marks.contains(w))
    }

    /// Everything that was discovered by this search is reachable from a root.
    #[verifier::opaque]
    pub open spec fn inv_roots(self) -> bool {
        forall|v: Node| #[trigger]
            self.discovered.contains(v) && !self.earlier.contains_key(v) ==> exists|r: Node|
                self.roots.contains(r) && !self.earlier.contains_key(r) && #[trigger] reach(
                    self.edges(),
                    r,
                    v,
                )
    }

    /// The invariant of the search.
    pub open spec fn inv(self) -> bool {
        &&& self.inv_shape()
        &&& self.inv_earlier()
        &&& self.inv_reach()
        &&& self.inv_low()
        &&& self.inv_edges()
        &&& self.inv_out()
        &&& self.inv_comps()
        &&& self.inv_roots()
    }
}

/// What does not change while a search runs.
pub open spec fn same_task<Node: NodeKey>(s: Search<Node>, t: Search<Node>) -> bool {
    &&& t.graph == s.graph
    &&& t.marks == s.marks
    &&& t.earlier == s.earlier
    &&& t.base == s.base
    &&& t.roots == s.roots
}

/// `b` is `a` with fewer neighbors to look at.
pub open spec fn same_item<Node: NodeKey>(a: WorkItem<Node>, b: WorkItem<Node>) -> bool {
    b.vertex == a.vertex && b.link == a.link
}

/// `t` is `s` after the last pending neighbor of the path's end was taken from the list.
pub open spec fn skips<Node: NodeKey>(s: Search<Node>, t: Search<Node>) -> bool {
    &&& same_task(s, t)
    &&& t.discovered == s.discovered
    &&& t.done == s.done
    &&& t.comps == s.comps
    &&& t.stack == s.stack
    &&& t.states == s.states
    &&& s.work.len() > 0
    &&& s.work.last().pending@.len() > 0
    &&& t.work.len() == s.work.len()
    &&& t.work.drop_last() == s.work.drop_last()
    &&& same_item(s.work.last(), t.work.last())
    &&& t.work.last().pending@ == s.work.last().pending@.drop_last()
}

/// Passing over a neighbor that was discovered before preserves the invariant.
pub proof fn lemma_skip<Node: NodeKey>(s: Search<Node>, t: Search<Node>)
    requires
        s.inv(),
        skips(s, t),
        s.discovered.contains(s.work.last().pending@.last()),
    ensures
        t.inv(),
{
    assert forall|i: int| 0 <= i < t.work.len() implies same_item(s.work[i], #[trigger] t.work[i])
        && (i < t.work.len() - 1 ==> t.work[i] == s.work[i]) by {
        if i < t.work.len() - 1 {
            assert(t.work.drop_last()[i] == s.work.drop_last()[i]);
        }
    }
    assert(t.edges() == s.edges());
    assert forall|i: int| 0 <= i < t.work.len() implies #[trigger] t.bound(i) == s.bound(i) by {
        if i + 1 < t.work.len() {
            assert(same_item(s.work[i + 1], t.work[i + 1]));
        }
    }
    assert forall|i: int, v: Node| 0 <= i < t.work.len() implies #[trigger] t.in_segment(i, v)
        == s.in_segment(i, v) by {
        assert(same_item(s.work[i], t.work[i]));
        assert(t.bound(i) == s.bound(i));
    }
    assert forall|i: int, c: SccId| 0 <= i < t.work.len() && #[trigger] s.leaves_to(
        i,
        c,
    ) implies t.leaves_to(i, c) by {
        let (v, o) = choose|v: Node, o: SccId|
            s.in_segment(i, v) && #[trigger] s.states[v].out_edges@.contains(o) && reach(
                comp_edges(s.comps),
                o,
                c,
            );
        assert(t.in_segment(i, v) && t.states[v].out_edges@.contains(o));
    }
    let last = t.work.len() - 1;
    let gone = s.work.last().pending@.last();
    assert(t.inv_shape()) by {
        reveal(Search::inv_shape);
        assert forall|v: Node| #[trigger] t.states.contains_key(v) implies t.work[0].link
            <= t.states[v].link by {
            assert(same_item(s.work[0], t.work[0]));
        }
    }
    assert(t.inv_earlier()) by {
        reveal(Search::inv_earlier);
    }
    assert(t.inv_reach()) by {
        reveal(Search::inv_reach);
        assert forall|i: int, j: int| 0 <= i < t.work.len() - 1 && j == i + 1 implies has_edge(
            t.graph,
            (#[trigger] t.work[i]).vertex,
            (#[trigger] t.work[j]).vertex,
        ) by {
            assert(has_edge(s.graph, s.work[i].vertex, s.work[j].vertex));
        }
    }
    assert(t.inv_low()) by {
        reveal(Search::inv_low);
        assert forall|v: Node| #[trigger] t.low_right(v) by {
            assert(s.low_right(v));
        }
    }
    assert(t.inv_edges()) by {
        reveal(Search::inv_edges);
        reveal(Search::inv_shape);
        assert forall|i: int, w: Node|
            0 <= i < t.work.len() && #[trigger] has_edge(
                t.graph,
                (#[trigger] t.work[i]).vertex,
                w,
            ) implies t.done.contains_key(w) || t.states.contains_key(w)
            || t.work[i].pending@.contains(w) by {
            assert(has_edge(s.graph, s.work[i].vertex, w));
            if i == last && s.work[i].pending@.contains(w) && w != gone {
                let j = choose|j: int|
                    0 <= j < s.work[i].pending@.len() && s.work[i].pending@[j] == w;
                assert(t.work[i].pending@[j] == w);
            }
        }
        assert forall|i: int, w: Node|
            0 <= i < t.work.len() && #[trigger] t.work[i].pending@.contains(w) implies has_edge(
            t.graph,
            t.work[i].vertex,
            w,
        ) by {
            let j = choose|j: int| 0 <= j < t.work[i].pending@.len() && t.work[i].pending@[j] == w;
            assert(s.work[i].pending@[j] == w);
            assert(s.work[i].pending@.contains(w));
        }
    }
    assert(t.inv_out()) by {
        reveal(Search::inv_out);
    }
    assert(t.inv_comps()) by {
        reveal(Search::inv_comps);
    }
    assert(t.inv_roots()) by {
        reveal(Search::inv_roots);
    }
}

/// `t` is `s` after `v`, the last pending neighbor of the path's end or a root, was put on the
/// stack and at the end of the path.
pub open spec fn discovers<Node: NodeKey>(s: Search<Node>, t: Search<Node>, v: Node) -> bool {
    let k = s.work.len() - 1;
    let state = t.states[v];
    &&& same_task(s, t)
    &&& !s.discovered.contains(v)
    &&& t.discovered == s.discovered.push(v)
    &&& t.done == s.done
    &&& t.comps == s.comps
    &&& t.stack == s.stack.push(v)
    &&& t.states == s.states.insert(v, state)
    &&& state.link == t.discovered.len()
    &&& 1 <= state.lowlink <= state.link
    &&& state.lowlink == state.link || exists|w: Node| #[trigger]
        has_edge(s.graph, v, w) && s.states.contains_key(w) && s.states[w].lowlink
            == state.lowlink
    &&& forall|w: Node| #[trigger]
        has_edge(s.graph, v, w) && s.states.contains_key(w) ==> state.lowlink
            <= s.states[w].lowlink
    &&& forall|w: Node| #[trigger]
        has_edge(s.graph, v, w) && s.done.contains_key(w) ==> state.out_edges@.contains(
            s.done[w],
        )
    &&& forall|c: SccId| #[trigger]
        state.out_edges@.contains(c) ==> exists|w: Node| #[trigger]
            has_edge(s.graph, v, w) && s.done.contains_key(w) && s.done[w] == c
    &&& state.marked_for_main <==> exists|w: Node| #[trigger]
        has_edge(s.graph, v, w) && s.marks.contains(w)
    &&& t.work.len() == s.work.len() + 1
    &&& t.work[k + 1].vertex == v
    &&& t.work[k + 1].link == state.link
    &&& forall|w: Node| #[trigger]
        t.work[k + 1].pending@.contains(w) <==> has_edge(s.graph, v, w)
            && !s.discovered.contains(w)
    &&& forall|i: int|
        0 <= i < s.work.len() ==> same_item(s.work[i], #[trigger] t.work[i]) && (i < k
            ==> t.work[i].pending@ == s.work[i].pending@)
    &&& k >= 0 ==> s.work[k].pending@.len() > 0 && s.work[k].pending@.last() == v
        && t.work[k].pending@ == s.work[k].pending@.drop_last()
    &&& k < 0 ==> s.roots.contains(v)
}

/// Where the segments are after a discovery.
proof fn lemma_discover_segments<Node: NodeKey>(s: Search<Node>, t: Search<Node>, v: Node)
    requires
        s.inv_shape(),
        discovers(s, t, v),
    ensures
        t.edges() == s.edges(),
        !s.states.contains_key(v),
        !s.done.contains_key(v),
        forall|i: int| 0 <= i < s.work.len() ==> #[trigger] t.bound(i) == s.bound(i),
        forall|i: int, u: Node|
            0 <= i < s.work.len() ==> #[trigger] t.in_segment(i, u) == s.in_segment(i, u),
        forall|u: Node| #[trigger] t.in_segment(s.work.len() as int, u) <==> u == v,
        t.bound(s.work.len() as int) == t.discovered.len() + 1,
        forall|i: int, c: SccId|
            0 <= i < s.work.len() && #[trigger] s.leaves_to(i, c) ==> t.leaves_to(i, c),
{
    reveal(Search::inv_shape);
    let k = s.work.len() - 1;
    assert forall|i: int| 0 <= i < s.work.len() implies #[trigger] t.bound(i) == s.bound(i) by {
        if i < k {
            assert(same_item(s.work[i + 1], t.work[i + 1]));
        }
    }
    assert forall|i: int, u: Node| 0 <= i < s.work.len() implies #[trigger] t.in_segment(i, u)
        == s.in_segment(i, u) by {
        assert(same_item(s.work[i], t.work[i]));
        assert(t.bound(i) == s.bound(i));
        if i < k {
            assert(s.work[i + 1].link <= s.discovered.len()) by {
                assert(s.states.contains_key(s.work[i + 1].vertex));
            }
        }
    }
    assert forall|u: Node| #[trigger] t.in_segment(s.work.len() as int, u) <==> u == v by {
        if s.states.contains_key(u) {
            assert(t.states[u].link <= s.discovered.len());
        }
    }
    assert forall|i: int, c: SccId| 0 <= i < s.work.len() && #[trigger] s.leaves_to(
        i,
        c,
    ) implies t.leaves_to(i, c) by {
        let (u, o) = choose|u: Node, o: SccId|
            s.in_segment(i, u) && #[trigger] s.states[u].out_edges@.contains(o) && reach(
                comp_edges(s.comps),
                o,
                c,
            );
        assert(t.in_segment(i, u) && t.states[u].out_edges@.contains(o));
    }
}

/// A discovery preserves how the parts fit together.
proof fn lemma_discover_shape<Node: NodeKey>(s: Search<Node>, t: Search<Node>, v: Node)
    requires
        s.inv_shape(),
        discovers(s, t, v),
    ensures
        t.inv_shape(),
{
    reveal(Search::inv_shape);
    let k = s.work.len() - 1;
    assert forall|u: Node| #[trigger] t.discovered.contains(u) <==> (s.discovered.contains(u) || u
        == v) by {
        assert(t.discovered[s.discovered.len() as int] == v);
        if s.discovered.contains(u) {
            let j = choose|j: int| 0 <= j < s.discovered.len() && s.discovered[j] == u;
            assert(t.discovered[j] == u);
        }
    }
    assert forall|u: Node| #[trigger] t.stack.contains(u) <==> (s.stack.contains(u) || u
        == v) by {
        assert(t.stack[s.stack.len() as int] == v);
        if s.stack.contains(u) {
            let j = choose|j: int| 0 <= j < s.stack.len() && s.stack[j] == u;
            assert(t.stack[j] == u);
        }
    }
    assert forall|i: int, j: int| 0 <= i < j < t.stack.len() implies t.states[
    #[trigger] t.stack[i]].link < t.states[#[trigger] t.stack[j]].link by {
        assert(s.stack.contains(s.stack[i]));
        assert(s.states.contains_key(s.stack[i]));
        if j < s.stack.len() {
            assert(s.stack.contains(s.stack[j]));
        }
    }
    assert forall|i: int| 0 <= i < t.work.len() implies t.states.contains_key(
        (#[trigger] t.work[i]).vertex,
    ) && t.states[t.work[i].vertex].link == t.work[i].link by {
        if i <= k {
            assert(same_item(s.work[i], t.work[i]));
        }
    }
    assert forall|i: int, j: int| 0 <= i < j < t.work.len() implies (#[trigger] t.work[i]).link < (
    #[trigger] t.work[j]).link by {
        assert(same_item(s.work[i], t.work[i]));
        if j <= k {
            assert(same_item(s.work[j], t.work[j]));
        } else {
            assert(s.states.contains_key(s.work[i].vertex));
        }
    }
    assert forall|u: Node| #[trigger] t.states.contains_key(u) implies t.work[0].link
        <= t.states[u].link by {
        if k >= 0 {
            assert(same_item(s.work[0], t.work[0]));
            assert(s.states.contains_key(s.work[0].vertex));
        } else if u != v {
            assert(s.stack.contains(u));
        }
    }
}

/// A discovery preserves who reaches whom on the stack.
proof fn lemma_discover_reach<Node: NodeKey>(s: Search<Node>, t: Search<Node>, v: Node)
    requires
        s.inv_shape(),
        s.inv_reach(),
        discovers(s, t, v),
        s.work.len() > 0 ==> has_edge(s.graph, s.work.last().vertex, v) && reach(
            s.edges(),
            s.work.last().vertex,
            v,
        ),
    ensures
        t.inv_reach(),
{
    let k = s.work.len() - 1;
    let edges = s.edges();
    lemma_discover_segments(s, t, v);
    lemma_reach_refl(edges, v);
    reveal(Search::inv_shape);
    reveal(Search::inv_reach);
    assert forall|i: int, u: Node|
        0 <= i < t.work.len() && #[trigger] t.states.contains_key(u) && t.states[u].link >= (
        #[trigger] t.work[i]).link implies reach(t.edges(), t.work[i].vertex, u) by {
        if i <= k {
            assert(same_item(s.work[i], t.work[i]));
            if u == v {
                assert(s.work[i].link <= s.work[k].link);
                assert(reach(edges, s.work[i].vertex, s.work[k].vertex));
                lemma_reach_trans(edges, s.work[i].vertex, s.work[k].vertex, v);
            } else {
                assert(s.states.contains_key(u));
            }
        } else if u != v {
            assert(s.states.contains_key(u));
            assert(s.states[u].link <= s.discovered.len());
        }
    }
    assert forall|i: int, u: Node|
        0 <= i < t.work.len() && #[trigger] t.states.contains_key(u) && t.states[u].link
            < #[trigger] t.bound(i) implies reach(t.edges(), u, t.work[i].vertex) by {
        if i <= k {
            assert(same_item(s.work[i], t.work[i]));
            assert(t.bound(i) == s.bound(i));
            assert(s.bound(i) <= s.discovered.len() + 1) by {
                if i < k {
                    assert(s.states.contains_key(s.work[i + 1].vertex));
                }
            }
            assert(u != v);
            assert(s.states.contains_key(u));
        } else if u != v {
            assert(s.states.contains_key(u));
            assert(s.stack.contains(u));
            assert(s.states[u].link < s.bound(k));
            assert(reach(edges, u, s.work[k].vertex));
            lemma_reach_trans(edges, u, s.work[k].vertex, v);
        }
    }
    assert forall|i: int, j: int| 0 <= i < t.work.len() - 1 && j == i + 1 implies has_edge(
        t.graph,
        (#[trigger] t.work[i]).vertex,
        (#[trigger] t.work[j]).vertex,
    ) by {
        assert(same_item(s.work[i], t.work[i]));
        if j <= k {
            assert(same_item(s.work[j], t.work[j]));
            assert(has_edge(s.graph, s.work[i].vertex, s.work[j].vertex));
        }
    }
}

/// A discovery preserves what the lowlinks stand for.
proof fn lemma_discover_low<Node: NodeKey>(s: Search<Node>, t: Search<Node>, v: Node)
    requires
        s.inv_shape(),
        s.inv_low(),
        discovers(s, t, v),
        !s.earlier.contains_key(v),
        forall|u: Node| #[trigger] s.states.contains_key(u) ==> !s.earlier.contains_key(u),
    ensures
        t.inv_low(),
{
    let k = s.work.len() - 1;
    let state = t.states[v];
    let edges = s.edges();
    lemma_discover_segments(s, t, v);
    lemma_reach_refl(edges, v);
    reveal(Search::inv_low);
    reveal(Search::inv_shape);
    assert forall|u: Node| #[trigger] t.low_right(u) by {
        assert(s.low_right(u));
        if u == v {
            if state.lowlink != state.link {
                let w = choose|w: Node| #[trigger]
                    has_edge(s.graph, v, w) && s.states.contains_key(w) && s.states[w].lowlink
                        == state.lowlink;
                assert(s.low_right(w));
                assert(edges(v, w));
                lemma_reach_step(edges, v, w);
                let x = s.discovered[s.states[w].lowlink - 1];
                assert(t.discovered[state.lowlink - 1] == x);
                lemma_reach_trans(edges, v, w, x);
            }
        } else if t.states.contains_key(u) {
            assert(s.states.contains_key(u));
            assert(t.discovered[t.states[u].lowlink - 1] == s.discovered[s.states[u].lowlink
                - 1]);
        }
    }
    assert forall|i: int, u: Node, w: Node|
        0 <= i < t.work.len() && #[trigger] t.in_segment(i, u) && #[trigger] has_edge(
            t.graph,
            u,
            w,
        ) && t.states.contains_key(w) && t.states[w].link
            < t.work[i].link implies t.states[t.work[i].vertex].lowlink
        <= t.states[w].link by {
        if i <= k {
            assert(same_item(s.work[i], t.work[i]));
            assert(s.in_segment(i, u));
            assert(s.states.contains_key(s.work[i].vertex));
            assert(w != v);
        } else {
            assert(u == v);
            assert(w != v);
            assert(s.states.contains_key(w));
            assert(s.low_right(w));
        }
    }
}

/// A discovery preserves where the edges of the vertices on the stack lead.
proof fn lemma_discover_edges<Node: NodeKey>(s: Search<Node>, t: Search<Node>, v: Node)
    requires
        s.inv_shape(),
        s.inv_edges(),
        discovers(s, t, v),
    ensures
        t.inv_edges(),
{
    let k = s.work.len() - 1;
    lemma_discover_segments(s, t, v);
    reveal(Search::inv_edges);
    reveal(Search::inv_shape);
    assert forall|i: int, u: Node, w: Node|
        0 <= i < t.work.len() && #[trigger] t.in_segment(i, u) && u != t.work[i].vertex
            && #[trigger] has_edge(t.graph, u, w) implies t.done.contains_key(w) || (
    t.states.contains_key(w) && t.states[w].link < t.bound(i)) by {
        if i <= k {
            assert(same_item(s.work[i], t.work[i]));
            assert(s.in_segment(i, u));
            assert(t.bound(i) == s.bound(i));
        }
    }
    assert forall|i: int, w: Node|
        0 <= i < t.work.len() && #[trigger] has_edge(
            t.graph,
            (#[trigger] t.work[i]).vertex,
            w,
        ) implies t.done.contains_key(w) || t.states.contains_key(w)
        || t.work[i].pending@.contains(w) by {
        if i <= k {
            assert(same_item(s.work[i], t.work[i]));
            assert(has_edge(s.graph, s.work[i].vertex, w));
            if i == k && s.work[k].pending@.contains(w) && w != v {
                let j = choose|j: int|
                    0 <= j < s.work[k].pending@.len() && s.work[k].pending@[j] == w;
                assert(t.work[k].pending@[j] == w);
            }
        } else if s.discovered.contains(w) {
        }
    }
    assert forall|i: int, w: Node|
        0 <= i < t.work.len() && #[trigger] t.work[i].pending@.contains(w) implies has_edge(
        t.graph,
        t.work[i].vertex,
        w,
    ) by {
        if i <= k {
            assert(same_item(s.work[i], t.work[i]));
            let j = choose|j: int|
                0 <= j < t.work[i].pending@.len() && t.work[i].pending@[j] == w;
            assert(s.work[i].pending@[j] == w);
            assert(s.work[i].pending@.contains(w));
        }
    }
}

/// Discovering a vertex preserves the invariant.
pub proof fn lemma_discover<Node: NodeKey>(s: Search<Node>, t: Search<Node>, v: Node)
    requires
        s.inv(),
        discovers(s, t, v),
    ensures
        t.inv(),
{
    let k = s.work.len() - 1;
    let state = t.states[v];
    lemma_discover_shape(s, t, v);
    lemma_discover_segments(s, t, v);
    let edges = s.edges();
    assert(t.inv_earlier()) by {
        reveal(Search::inv_earlier);
    }
    assert(!s.earlier.contains_key(v)) by {
        reveal(Search::inv_earlier);
    }
    assert(forall|u: Node| #[trigger] s.states.contains_key(u) ==> !s.earlier.contains_key(u)) by {
        reveal(Search::inv_earlier);
        reveal(Search::inv_shape);
    }
    if k >= 0 {
        assert(has_edge(s.graph, s.work[k].vertex, v)) by {
            reveal(Search::inv_edges);
            assert(s.work[k].pending@.contains(v));
        }
        assert(s.states.contains_key(s.work[k].vertex)) by {
            reveal(Search::inv_shape);
        }
        assert(edges(s.work[k].vertex, v));
        lemma_reach_step(edges, s.work[k].vertex, v);
    }
    lemma_reach_refl(edges, v);
    lemma_discover_reach(s, t, v);
    lemma_discover_low(s, t, v);
    lemma_discover_edges(s, t, v);
    assert(t.inv_out()) by {
        lemma_discover_out(s, t, v);
    }
    assert(t.inv_comps()) by {
        reveal(Search::inv_comps);
        assert forall|i: int| 0 <= i < t.comps.len() implies 1 <= (#[trigger] t.comps[i]).this
            <= t.discovered.len() && t.comps[i].members@.contains(
            t.discovered[t.comps[i].this - 1],
        ) by {
            assert(t.discovered[t.comps[i].this - 1] == s.discovered[s.comps[i].this - 1]);
        }
    }
    assert(t.inv_roots()) by {
        reveal(Search::inv_roots);
        assert forall|u: Node| #[trigger]
            t.discovered.contains(u) && !t.earlier.contains_key(u) implies exists|r: Node|
            t.roots.contains(r) && !t.earlier.contains_key(r) && #[trigger] reach(
                t.edges(),
                r,
                u,
            ) by {
            if u == v {
                if k < 0 {
                    assert(reach(t.edges(), v, v));
                } else {
                    let top = s.work[k].vertex;
                    assert(s.discovered.contains(top)) by {
                        reveal(Search::inv_shape);
                        assert(s.states.contains_key(top));
                    }
                    let r = choose|r: Node|
                        s.roots.contains(r) && !s.earlier.contains_key(r) && #[trigger] reach(
                            edges,
                            r,
                            top,
                        );
                    lemma_reach_trans(edges, r, top, v);
                }
            } else {
                assert(s.discovered.contains(u)) by {
                    let j = choose|j: int| 0 <= j < t.discovered.len() && t.discovered[j] == u;
                    assert(s.discovered[j] == u);
                }
            }
        }
    }
}

/// A discovery preserves what is recorded of edges that leave the stack.
proof fn lemma_discover_out<Node: NodeKey>(s: Search<Node>, t: Search<Node>, v: Node)
    requires
        s.inv_shape(),
        s.inv_out(),
        discovers(s, t, v),
    ensures
        t.inv_out(),
{
    reveal(Search::inv_shape);
    reveal(Search::inv_out);
    lemma_discover_segments(s, t, v);
    let k = s.work.len() - 1;
    let state = t.states[v];
    assert forall|u: Node| #[trigger] t.states.contains_key(u) implies (
    t.states[u].marked_for_main <==> exists|w: Node| #[trigger]
        has_edge(t.graph, u, w) && t.marks.contains(w)) by {
        if u != v {
            assert(s.states.contains_key(u));
        }
    }
    assert forall|u: Node, c: SccId|
        t.states.contains_key(u) && #[trigger] t.states[u].out_edges@.contains(c) implies exists|
        w: Node,
    | #[trigger]
        has_edge(t.graph, u, w) && t.done.contains_key(w) && t.done[w] == c by {
        if u != v {
            assert(s.states.contains_key(u) && s.states[u].out_edges@.contains(c));
        }
    }
    assert forall|i: int, q: int|
        0 <= i < t.work.len() && t.work[i].link <= q < #[trigger] t.bound(i) - 1
            && t.done.contains_key(#[trigger] t.discovered[q]) implies t.leaves_to(
        i,
        t.done[t.discovered[q]],
    ) by {
        if i <= k {
            assert(same_item(s.work[i], t.work[i]));
            assert(t.bound(i) == s.bound(i));
            if q < s.discovered.len() {
                assert(t.discovered[q] == s.discovered[q]);
            } else {
                assert(t.discovered[q] == v);
            }
        }
    }
    assert forall|i: int, q: int, u: Node|
        0 <= i < t.work.len() && 0 <= q < t.work[i].link - 1 && #[trigger] t.in_segment(i, u)
            && has_edge(t.graph, u, #[trigger] t.discovered[q]) && t.done.contains_key(
            t.discovered[q],
        ) implies t.leaves_to(i, t.done[t.discovered[q]]) by {
        assert(q < s.discovered.len()) by {
            if i <= k {
                assert(same_item(s.work[i], t.work[i]));
                assert(s.states.contains_key(s.work[i].vertex));
            }
        }
        assert(t.discovered[q] == s.discovered[q]);
        if i <= k {
            assert(same_item(s.work[i], t.work[i]));
            assert(s.in_segment(i, u));
        } else {
            let c = t.done[t.discovered[q]];
            assert(u == v);
            assert(state.out_edges@.contains(c));
            lemma_reach_refl(comp_edges(t.comps), c);
            assert(t.in_segment(i, v) && t.states[v].out_edges@.contains(c));
        }
    }
}

/// The end of the path has no neighbor left to look at, and reaches a vertex below it.
pub open spec fn can_merge<Node: NodeKey>(s: Search<Node>) -> bool {
    &&& s.work.len() > 0
    &&& s.work.last().pending@.len() == 0
    &&& s.states[s.work.last().vertex].lowlink < s.work.last().link
}

/// `t` is `s` after the end of the path was taken off, leaving its vertices on the stack.
pub open spec fn merges<Node: NodeKey>(s: Search<Node>, t: Search<Node>) -> bool {
    let k = s.work.len() - 1;
    let parent = s.work[k - 1].vertex;
    let low = s.states[s.work[k].vertex].lowlink;
    &&& can_merge(s)
    &&& k >= 1
    &&& same_task(s, t)
    &&& t.discovered == s.discovered
    &&& t.done == s.done
    &&& t.comps == s.comps
    &&& t.stack == s.stack
    &&& t.work.len() == k
    &&& forall|i: int| 0 <= i < k ==> #[trigger] t.work[i] == s.work[i]
    &&& t.states == s.states.insert(parent, t.states[parent])
    &&& t.states[parent].link == s.states[parent].link
    &&& t.states[parent].out_edges@ == s.states[parent].out_edges@
    &&& t.states[parent].marked_for_main == s.states[parent].marked_for_main
    &&& t.states[parent].lowlink == if low < s.states[parent].lowlink {
        low
    } else {
        s.states[parent].lowlink
    }
}

/// A vertex that reaches a vertex below it is not the first of the path.
pub proof fn lemma_merge_has_parent<Node: NodeKey>(s: Search<Node>)
    requires
        s.inv(),
        can_merge(s),
    ensures
        s.work.len() >= 2,
{
    reveal(Search::inv_shape);
    reveal(Search::inv_low);
    let k = s.work.len() - 1;
    let top = s.work[k].vertex;
    assert(s.states.contains_key(top));
    assert(s.low_right(top));
    let x = s.discovered[s.states[top].lowlink - 1];
    assert(s.states.contains_key(x));
    assert(s.discovered[s.states[x].link - 1] == x);
    assert(s.states[x].link == s.states[top].lowlink);
}

/// Taking the end off the path, with its vertices left on the stack, preserves the invariant.
pub proof fn lemma_merge<Node: NodeKey>(s: Search<Node>, t: Search<Node>)
    requires
        s.inv(),
        merges(s, t),
    ensures
        t.inv(),
{
    let k = s.work.len() - 1;
    let parent = s.work[k - 1].vertex;
    let top = s.work[k].vertex;
    let edges = s.edges();
    assert(t.edges() == edges);
    assert(s.states.contains_key(top) && s.states.contains_key(parent)) by {
        reveal(Search::inv_shape);
        assert(s.states.contains_key(s.work[k - 1].vertex));
    }
    assert(s.states[top].link == s.work[k].link && s.states[parent].link == s.work[k - 1].link
        && s.work[k - 1].link < s.work[k].link) by {
        reveal(Search::inv_shape);
    }
    assert forall|u: Node| #[trigger] t.states.contains_key(u) == s.states.contains_key(u) && (
    s.states.contains_key(u) ==> t.states[u].link == s.states[u].link) by {}
    assert forall|i: int| 0 <= i < k - 1 implies #[trigger] t.bound(i) == s.bound(i) by {
        assert(t.work[i + 1] == s.work[i + 1]);
    }
    assert(t.bound(k - 1) == s.discovered.len() + 1);
    assert(s.bound(k - 1) == s.work[k].link);
    assert(s.bound(k) == s.discovered.len() + 1);
    assert forall|i: int, u: Node| 0 <= i < k - 1 implies #[trigger] t.in_segment(i, u)
        == s.in_segment(i, u) by {
        assert(t.work[i] == s.work[i]);
        assert(t.bound(i) == s.bound(i));
    }
    assert forall|u: Node| #[trigger] t.in_segment(k - 1, u) <==> s.in_segment(k - 1, u)
        || s.in_segment(k, u) by {
        reveal(Search::inv_shape);
        assert(t.work[k - 1] == s.work[k - 1]);
    }
    assert forall|i: int, c: SccId| 0 <= i < k && #[trigger] s.leaves_to(
        i,
        c,
    ) implies t.leaves_to(i, c) by {
        let (u, o) = choose|u: Node, o: SccId|
            s.in_segment(i, u) && #[trigger] s.states[u].out_edges@.contains(o) && reach(
                comp_edges(s.comps),
                o,
                c,
            );
        assert(t.in_segment(i, u) && t.states[u].out_edges@.contains(o));
    }
    assert forall|c: SccId| #[trigger] s.leaves_to(k, c) implies t.leaves_to(k - 1, c) by {
        let (u, o) = choose|u: Node, o: SccId|
            s.in_segment(k, u) && #[trigger] s.states[u].out_edges@.contains(o) && reach(
                comp_edges(s.comps),
                o,
                c,
            );
        assert(t.in_segment(k - 1, u) && t.states[u].out_edges@.contains(o));
    }
    assert(t.inv_shape()) by {
        reveal(Search::inv_shape);
        assert forall|i: int, j: int| 0 <= i < j < t.stack.len() implies t.states[
        #[trigger] t.stack[i]].link < t.states[#[trigger] t.stack[j]].link by {
            assert(s.stack.contains(s.stack[i]) && s.stack.contains(s.stack[j]));
            assert(s.states.contains_key(s.stack[i]) && s.states.contains_key(s.stack[j]));
        }
        assert(t.work[0] == s.work[0]);
    }
    assert(t.inv_earlier()) by {
        reveal(Search::inv_earlier);
    }
    let low = s.states[top].lowlink;
    let x = s.discovered[low - 1];
    assert(s.states.contains_key(x) && s.states[x].link == low && reach(edges, top, x) && 1
        <= low) by {
        reveal(Search::inv_shape);
        reveal(Search::inv_low);
        assert(s.low_right(top));
        assert(s.discovered[s.states[x].link - 1] == x);
    }
    assert(reach(edges, x, parent) && reach(edges, parent, top)) by {
        reveal(Search::inv_reach);
        assert(s.states[x].link < s.bound(k - 1));
        assert(s.work[k - 1].vertex == parent);
    }
    lemma_reach_trans(edges, top, x, parent);
    assert(t.inv_reach()) by {
        reveal(Search::inv_shape);
        reveal(Search::inv_reach);
        assert forall|i: int, u: Node|
            0 <= i < t.work.len() && #[trigger] t.states.contains_key(u) && t.states[u].link
                < #[trigger] t.bound(i) implies reach(t.edges(), u, t.work[i].vertex) by {
            assert(s.states.contains_key(u));
            assert(t.work[i] == s.work[i]);
            if i < k - 1 {
                assert(t.bound(i) == s.bound(i));
            } else if s.states[u].link < s.bound(k - 1) {
            } else {
                assert(s.states[u].link < s.bound(k));
                assert(reach(edges, u, top));
                lemma_reach_trans(edges, u, top, parent);
            }
        }
        assert forall|i: int, u: Node|
            0 <= i < t.work.len() && #[trigger] t.states.contains_key(u) && t.states[u].link >= (
            #[trigger] t.work[i]).link implies reach(t.edges(), t.work[i].vertex, u) by {
            assert(s.states.contains_key(u));
            assert(t.work[i] == s.work[i]);
        }
    }
    assert(t.inv_low()) by {
        reveal(Search::inv_low);
        assert forall|u: Node| #[trigger] t.low_right(u) by {
            assert(s.low_right(u));
            if u == parent {
                lemma_reach_trans(edges, parent, top, x);
            }
        }
        assert forall|i: int, u: Node, w: Node|
            0 <= i < t.work.len() && #[trigger] t.in_segment(i, u) && #[trigger] has_edge(
                t.graph,
                u,
                w,
            ) && t.states.contains_key(w) && t.states[w].link
                < t.work[i].link implies t.states[t.work[i].vertex].lowlink
            <= t.states[w].link by {
            assert(t.work[i] == s.work[i]);
            if i == k - 1 && s.in_segment(k, u) {
                assert(s.states[top].lowlink <= s.states[w].link);
            } else {
                assert(s.in_segment(i, u));
                assert(s.states[s.work[i].vertex].lowlink <= s.states[w].link);
            }
        }
    }
    assert(t.inv_edges()) by {
        reveal(Search::inv_shape);
        reveal(Search::inv_edges);
        assert forall|i: int, u: Node, w: Node|
            0 <= i < t.work.len() && #[trigger] t.in_segment(i, u) && u != t.work[i].vertex
                && #[trigger] has_edge(t.graph, u, w) implies t.done.contains_key(w) || (
        t.states.contains_key(w) && t.states[w].link < t.bound(i)) by {
            assert(t.work[i] == s.work[i]);
            if i < k - 1 {
                assert(s.in_segment(i, u));
                assert(t.bound(i) == s.bound(i));
            } else if u == top {
                assert(has_edge(s.graph, s.work[k].vertex, w));
                assert(!s.work[k].pending@.contains(w));
            } else if s.in_segment(k, u) {
                assert(s.done.contains_key(w) || s.states.contains_key(w));
            } else {
                assert(s.in_segment(k - 1, u));
                assert(s.done.contains_key(w) || s.states.contains_key(w));
            }
        }
        assert forall|i: int, w: Node|
            0 <= i < t.work.len() && #[trigger] has_edge(
                t.graph,
                (#[trigger] t.work[i]).vertex,
                w,
            ) implies t.done.contains_key(w) || t.states.contains_key(w)
            || t.work[i].pending@.contains(w) by {
            assert(has_edge(s.graph, s.work[i].vertex, w));
        }
        assert forall|i: int, w: Node|
            0 <= i < t.work.len() && #[trigger] t.work[i].pending@.contains(w) implies has_edge(
            t.graph,
            t.work[i].vertex,
            w,
        ) by {
            assert(s.work[i].pending@.contains(w));
        }
    }
    assert(t.inv_out()) by {
        reveal(Search::inv_shape);
        reveal(Search::inv_out);
        assert forall|u: Node, c: SccId|
            t.states.contains_key(u) && #[trigger] t.states[u].out_edges@.contains(
                c,
            ) implies exists|w: Node| #[trigger]
            has_edge(t.graph, u, w) && t.done.contains_key(w) && t.done[w] == c by {
            assert(s.states.contains_key(u) && s.states[u].out_edges@.contains(c));
        }
        assert forall|u: Node| #[trigger] t.states.contains_key(u) implies (
        t.states[u].marked_for_main <==> exists|w: Node| #[trigger]
            has_edge(t.graph, u, w) && t.marks.contains(w)) by {
            assert(s.states.contains_key(u));
        }
        assert forall|i: int, q: int|
            0 <= i < t.work.len() && t.work[i].link <= q < #[trigger] t.bound(i) - 1
                && t.done.contains_key(#[trigger] t.discovered[q]) implies t.leaves_to(
            i,
            t.done[t.discovered[q]],
        ) by {
            assert(t.work[i] == s.work[i]);
            if i < k - 1 || q < s.work[k].link - 1 {
                assert(q < s.bound(i) - 1);
                assert(s.leaves_to(i, s.done[s.discovered[q]]));
            } else if q == s.work[k].link - 1 {
                assert(s.discovered[q] == top);
            } else {
                assert(s.work[k].link <= q < s.bound(k) - 1);
                assert(s.leaves_to(k, s.done[s.discovered[q]]));
            }
        }
        assert forall|i: int, q: int, u: Node|
            0 <= i < t.work.len() && 0 <= q < t.work[i].link - 1 && #[trigger] t.in_segment(i, u)
                && has_edge(t.graph, u, #[trigger] t.discovered[q]) && t.done.contains_key(
                t.discovered[q],
            ) implies t.leaves_to(i, t.done[t.discovered[q]]) by {
            assert(t.work[i] == s.work[i]);
            if s.in_segment(i, u) {
                assert(s.leaves_to(i, s.done[s.discovered[q]]));
            } else {
                assert(s.in_segment(k, u));
                assert(s.leaves_to(k, s.done[s.discovered[q]]));
            }
        }
    }
    assert(t.inv_comps()) by {
        reveal(Search::inv_comps);
    }
    assert(t.inv_roots()) by {
        reveal(Search::inv_roots);
    }
}

/// The end of the path has no neighbor left to look at, and reaches nothing below it.
pub open spec fn can_complete<Node: NodeKey>(s: Search<Node>) -> bool {
    &&& s.work.len() > 0
    &&& s.work.last().pending@.len() == 0
    &&& s.states[s.work.last().vertex].lowlink == s.work.last().link
}

/// Whether `v` is on the stack at or above the end of the path.
pub open spec fn at_top<Node: NodeKey>(s: Search<Node>, v: Node) -> bool {
    s.states.contains_key(v) && s.states[v].link >= s.work.last().link
}

/// `c` is the component that the top of the stack forms.
pub open spec fn forms<Node: NodeKey>(s: Search<Node>, c: Component<Node>) -> bool {
    &&& c.members@.no_duplicates()
    &&& forall|v: Node| #[trigger] c.members@.contains(v) <==> at_top(s, v)
    &&& c.this == s.work.last().link
    &&& forall|v: Node, o: SccId|
        at_top(s, v) && #[trigger] s.states[v].out_edges@.contains(o) ==> c.out_edges@.contains(o)
    &&& forall|o: SccId| #[trigger]
        c.out_edges@.contains(o) ==> exists|v: Node|
            at_top(s, v) && #[trigger] s.states[v].out_edges@.contains(o)
    &&& c.marked_for_main <==> exists|v: Node| #[trigger]
        at_top(s, v) && s.states[v].marked_for_main
}

/// `t` is `s` after the top of the stack became a component.
pub open spec fn completes<Node: NodeKey>(s: Search<Node>, t: Search<Node>) -> bool {
    let k = s.work.len() - 1;
    let parent = s.work[k - 1].vertex;
    let this = s.work[k].link;
    &&& can_complete(s)
    &&& same_task(s, t)
    &&& t.discovered == s.discovered
    &&& t.comps == s.comps.push(t.comps.last())
    &&& t.comps.len() == s.comps.len() + 1
    &&& forms(s, t.comps.last())
    &&& forall|v: Node| #[trigger]
        t.done.contains_key(v) <==> s.done.contains_key(v) || at_top(s, v)
    &&& forall|v: Node| at_top(s, v) ==> #[trigger] t.done[v] == this
    &&& forall|v: Node| s.done.contains_key(v) && !at_top(s, v) ==> #[trigger] t.done[v] == s.done[v]
    &&& t.stack.len() <= s.stack.len()
    &&& t.stack == s.stack.take(t.stack.len() as int)
    &&& forall|v: Node| #[trigger] t.stack.contains(v) <==> s.stack.contains(v) && !at_top(s, v)
    &&& forall|v: Node| #[trigger]
        t.states.contains_key(v) <==> s.states.contains_key(v) && !at_top(s, v)
    &&& forall|v: Node|
        t.states.contains_key(v) && (k < 1 || v != parent) ==> #[trigger] t.states[v]
            == s.states[v]
    &&& k >= 1 ==> {
        &&& t.states[parent].link == s.states[parent].link
        &&& t.states[parent].lowlink == s.states[parent].lowlink
        &&& t.states[parent].marked_for_main == s.states[parent].marked_for_main
        &&& t.states[parent].out_edges@ == s.states[parent].out_edges@.insert(this)
    }
    &&& t.work.len() == k
    &&& forall|i: int| 0 <= i < k ==> #[trigger] t.work[i] == s.work[i]
}

/// Recorded edges are kept when a component is added.
proof fn lemma_comp_edges_grow<Node>(
    comps: Seq<Component<Node>>,
    c: Component<Node>,
    a: SccId,
    b: SccId,
)
    requires
        reach(comp_edges(comps), a, b),
    ensures
        reach(comp_edges(comps.push(c)), a, b),
{
    let r = comp_edges(comps);
    let t = comp_edges(comps.push(c));
    assert forall|u: SccId, w: SccId| #[trigger] r(u, w) implies t(u, w) by {
        let k = choose|k: int|
            0 <= k < comps.len() && (#[trigger] comps[k]).this == u
                && comps[k].out_edges@.contains(w);
        assert(comps.push(c)[k] == comps[k]);
    }
    lemma_reach_mono(r, t, a, b);
}

/// No edge leads from the top of the stack to the rest of it.
proof fn lemma_top_closed<Node: NodeKey>(s: Search<Node>, u: Node, w: Node)
    requires
        s.inv(),
        can_complete(s),
        at_top(s, u),
        has_edge(s.graph, u, w),
    ensures
        s.done.contains_key(w) || at_top(s, w),
{
    reveal(Search::inv_shape);
    reveal(Search::inv_low);
    reveal(Search::inv_edges);
    let k = s.work.len() - 1;
    assert(s.in_segment(k, u));
    if u == s.work[k].vertex {
        assert(!s.work[k].pending@.contains(w));
        assert(has_edge(s.graph, s.work[k].vertex, w));
    }
    assert(s.done.contains_key(w) || s.states.contains_key(w));
    if s.states.contains_key(w) && !at_top(s, w) {
        assert(s.states[w].link < s.work[k].link);
        assert(s.states[s.work[k].vertex].lowlink <= s.states[w].link);
    }
}

/// What leaves the top of the stack leaves the component that it forms.
proof fn lemma_top_leaves<Node: NodeKey>(s: Search<Node>, t: Search<Node>, c: SccId)
    requires
        s.inv_shape(),
        completes(s, t),
        s.leaves_to(s.work.len() - 1, c),
    ensures
        reach(comp_edges(t.comps), s.work.last().link, c),
{
    reveal(Search::inv_shape);
    let k = s.work.len() - 1;
    let (u, o) = choose|u: Node, o: SccId|
        s.in_segment(k, u) && #[trigger] s.states[u].out_edges@.contains(o) && reach(
            comp_edges(s.comps),
            o,
            c,
        );
    assert(at_top(s, u));
    assert(t.comps.last().out_edges@.contains(o));
    assert(t.comps[t.comps.len() - 1] == t.comps.last());
    let r = comp_edges(t.comps);
    assert(r(s.work.last().link, o));
    lemma_reach_step(r, s.work.last().link, o);
    lemma_comp_edges_grow(s.comps, t.comps.last(), o, c);
    lemma_reach_trans(r, s.work.last().link, o, c);
}

/// What is known of the segments after a component is complete.
proof fn lemma_complete_segments<Node: NodeKey>(s: Search<Node>, t: Search<Node>)
    requires
        s.inv_shape(),
        completes(s, t),
    ensures
        t.edges() == s.edges(),
        forall|i: int| 0 <= i < s.work.len() - 2 ==> #[trigger] t.bound(i) == s.bound(i),
        s.work.len() >= 2 ==> t.bound(s.work.len() - 2) == s.discovered.len() + 1,
        s.work.len() >= 2 ==> s.bound(s.work.len() - 2) == s.work.last().link,
        s.bound(s.work.len() - 1) == s.discovered.len() + 1,
        forall|i: int| 0 <= i < s.work.len() - 1 ==> #[trigger] s.bound(i) <= s.work.last().link,
        forall|v: Node| #[trigger]
            t.states.contains_key(v) ==> s.states.contains_key(v) && t.states[v].link
                == s.states[v].link && t.states[v].lowlink == s.states[v].lowlink
                && t.states[v].marked_for_main == s.states[v].marked_for_main
                && s.states[v].link < s.work.last().link,
        forall|v: Node, o: SccId|
            t.states.contains_key(v) && s.states[v].out_edges@.contains(o)
                ==> #[trigger] t.states[v].out_edges@.contains(o),
        forall|i: int, v: Node|
            0 <= i < s.work.len() - 1 ==> #[trigger] t.in_segment(i, v) == s.in_segment(i, v),
        forall|v: Node| #[trigger] s.in_segment(s.work.len() - 1, v) <==> at_top(s, v),
        s.work.len() >= 2 ==> t.states.contains_key(s.work[s.work.len() - 2].vertex),
        forall|i: int, c: SccId|
            0 <= i < s.work.len() - 1 && #[trigger] s.leaves_to(i, c) ==> t.leaves_to(i, c),
{
    reveal(Search::inv_shape);
    let k = s.work.len() - 1;
    assert forall|i: int| 0 <= i < k - 1 implies #[trigger] t.bound(i) == s.bound(i) by {
        assert(t.work[i + 1] == s.work[i + 1]);
    }
    assert forall|i: int| 0 <= i < k implies #[trigger] s.bound(i) <= s.work[k].link by {
        if i + 1 < k {
            assert(s.work[i + 1].link < s.work[k].link);
        }
    }
    assert forall|i: int, v: Node| 0 <= i < k implies #[trigger] t.in_segment(i, v)
        == s.in_segment(i, v) by {
        assert(t.work[i] == s.work[i]);
        assert(s.bound(i) <= s.work[k].link);
        if i < k - 1 {
            assert(t.bound(i) == s.bound(i));
        }
    }
    if k >= 1 {
        assert(s.states.contains_key(s.work[k - 1].vertex));
        assert(s.work[k - 1].link < s.work[k].link);
    }
    assert forall|i: int, c: SccId| 0 <= i < k && #[trigger] s.leaves_to(
        i,
        c,
    ) implies t.leaves_to(i, c) by {
        let (u, o) = choose|u: Node, o: SccId|
            s.in_segment(i, u) && #[trigger] s.states[u].out_edges@.contains(o) && reach(
                comp_edges(s.comps),
                o,
                c,
            );
        assert(t.in_segment(i, u) && t.states[u].out_edges@.contains(o));
        lemma_comp_edges_grow(s.comps, t.comps.last(), o, c);
    }
}

/// Completing a component preserves how the parts fit together.
proof fn lemma_complete_shape<Node: NodeKey>(s: Search<Node>, t: Search<Node>)
    requires
        s.inv_shape(),
        completes(s, t),
    ensures
        t.inv_shape(),
{
    reveal(Search::inv_shape);
    lemma_complete_segments(s, t);
    let k = s.work.len() - 1;
    assert forall|v: Node| #[trigger] t.discovered.contains(v) <==> (t.done.contains_key(v)
        || t.states.contains_key(v)) by {
        assert(s.discovered.contains(v) <==> s.done.contains_key(v) || s.states.contains_key(v));
    }
    assert forall|i: int, j: int| 0 <= i < j < t.stack.len() implies t.states[
    #[trigger] t.stack[i]].link < t.states[#[trigger] t.stack[j]].link by {
        assert(t.stack.contains(t.stack[i]) && t.stack.contains(t.stack[j]));
        assert(s.stack[i] == t.stack[i] && s.stack[j] == t.stack[j]);
        assert(s.states.contains_key(s.stack[i]) && s.states.contains_key(s.stack[j]));
        assert(t.states.contains_key(t.stack[i]) && t.states.contains_key(t.stack[j]));
    }
    assert forall|i: int| 0 <= i < t.work.len() implies t.states.contains_key(
        (#[trigger] t.work[i]).vertex,
    ) && t.states[t.work[i].vertex].link == t.work[i].link by {
        assert(s.states.contains_key(s.work[i].vertex));
        assert(s.work[i].link < s.work[k].link);
    }
    if k >= 1 {
        assert(t.work[0] == s.work[0]);
    } else if t.stack.len() > 0 {
        let v = t.stack[0];
        assert(t.stack.contains(v));
        assert(s.states.contains_key(v));
        assert(s.work[0].link <= s.states[v].link);
    }
    assert forall|v: Node| #[trigger] t.states.contains_key(v) implies t.work[0].link
        <= t.states[v].link by {
        assert(s.states.contains_key(v));
        if k < 1 {
            assert(at_top(s, v));
        }
    }
}

/// Completing a component preserves what is known of the components.
proof fn lemma_complete_comps<Node: NodeKey>(s: Search<Node>, t: Search<Node>)
    requires
        s.inv(),
        completes(s, t),
    ensures
        t.inv_comps(),
{
    lemma_complete_segments(s, t);
    let k = s.work.len() - 1;
    let n = s.comps.len() as int;
    let this = s.work[k].link;
    let top = s.work[k].vertex;
    let c = t.comps[n];
    let edges = s.edges();
    assert(s.states.contains_key(top) && s.states[top].link == this && 1 <= this
        <= s.discovered.len() && s.discovered[this - 1] == top) by {
        reveal(Search::inv_shape);
    }
    assert(at_top(s, top));
    assert(c.members@.contains(top));
    assert forall|j: int| 0 <= j < n implies #[trigger] t.comps[j] == s.comps[j] by {}
    assert forall|v: Node| #[trigger] s.done.contains_key(v) implies t.done.contains_key(v)
        && t.done[v] == s.done[v] by {
        reveal(Search::inv_shape);
        assert(t.done[v] == s.done[v]);
    }
    assert forall|v: Node| s.done.contains_key(v) implies #[trigger] in_prefix(
        t.comps,
        n - 1,
        v,
    ) by {
        reveal(Search::inv_comps);
        assert(in_prefix(s.comps, n - 1, v));
        let j = choose|j: int| 0 <= j <= n - 1 && (#[trigger] s.comps[j]).members@.contains(v);
        assert(t.comps[j].members@.contains(v));
    }
    assert(components_wf(t.done, t.comps)) by {
        reveal(Search::inv_comps);
        assert forall|j: int, v: Node|
            0 <= j < t.comps.len() && #[trigger] t.comps[j].members@.contains(
                v,
            ) implies t.done.contains_key(v) && t.done[v] == t.comps[j].this by {
            if j < n {
                assert(s.comps[j].members@.contains(v));
            } else {
                assert(at_top(s, v));
                assert(t.done[v] == this);
            }
        }
        assert forall|v: Node| #[trigger] t.done.contains_key(v) implies in_prefix(
            t.comps,
            t.comps.len() - 1,
            v,
        ) by {
            if s.done.contains_key(v) {
                assert(in_prefix(t.comps, n - 1, v));
                let j = choose|j: int|
                    0 <= j <= n - 1 && (#[trigger] t.comps[j]).members@.contains(v);
                assert(t.comps[j].members@.contains(v));
            } else {
                assert(t.comps[n].members@.contains(v));
            }
        }
        assert forall|i: int, j: int| 0 <= i < j < t.comps.len() implies (
        #[trigger] t.comps[i]).this != (#[trigger] t.comps[j]).this by {
            if j == n {
                assert(s.comps[i].members@.contains(s.discovered[s.comps[i].this - 1]));
                if s.comps[i].this == this {
                    reveal(Search::inv_shape);
                    assert(s.done.contains_key(top));
                }
            }
        }
        assert forall|j: int, o: SccId|
            0 <= j < t.comps.len() && #[trigger] t.comps[j].out_edges@.contains(o) implies exists|
            i: int,
        |
            0 <= i < j && (#[trigger] t.comps[i]).this == o by {
            if j < n {
                assert(s.comps[j].out_edges@.contains(o));
                let i = choose|i: int| 0 <= i < j && (#[trigger] s.comps[i]).this == o;
                assert(t.comps[i].this == o);
            } else {
                let v = choose|v: Node|
                    at_top(s, v) && #[trigger] s.states[v].out_edges@.contains(o);
                reveal(Search::inv_out);
                let w = choose|w: Node| #[trigger]
                    has_edge(s.graph, v, w) && s.done.contains_key(w) && s.done[w] == o;
                assert(in_prefix(s.comps, n - 1, w));
                let i = choose|i: int|
                    0 <= i <= n - 1 && (#[trigger] s.comps[i]).members@.contains(w);
                assert(t.comps[i].this == o);
            }
        }
    }
    reveal(Search::inv_comps);
    assert(t.base == s.base && 0 <= s.base <= n) by {
        reveal(Search::inv_earlier);
    }
    assert forall|j: int| 0 <= j < t.comps.len() implies 1 <= (#[trigger] t.comps[j]).this
        <= t.discovered.len() && t.comps[j].members@.contains(
        t.discovered[t.comps[j].this - 1],
    ) by {
        if j < n {
            assert(1 <= s.comps[j].this);
        }
    }
    assert forall|j: int, u: Node, w: Node|
        t.base <= j < t.comps.len() && #[trigger] t.comps[j].members@.contains(u)
            && #[trigger] has_edge(t.graph, u, w) implies in_prefix(t.comps, j, w) by {
        if j < n {
            assert(s.comps[j].members@.contains(u));
            assert(in_prefix(s.comps, j, w));
            let i = choose|i: int| 0 <= i <= j && (#[trigger] s.comps[i]).members@.contains(w);
            assert(t.comps[i].members@.contains(w));
        } else {
            assert(at_top(s, u));
            lemma_top_closed(s, u, w);
            if s.done.contains_key(w) {
                assert(in_prefix(t.comps, n - 1, w));
                let i = choose|i: int|
                    0 <= i <= n - 1 && (#[trigger] t.comps[i]).members@.contains(w);
                assert(t.comps[i].members@.contains(w));
            } else {
                assert(t.comps[n].members@.contains(w));
            }
        }
    }
    assert forall|j: int, u: Node, v: Node|
        t.base <= j < t.comps.len() && #[trigger] t.comps[j].members@.contains(u)
            && #[trigger] t.comps[j].members@.contains(v) implies reach(t.edges(), u, v) by {
        if j < n {
            assert(s.comps[j].members@.contains(u) && s.comps[j].members@.contains(v));
        } else {
            reveal(Search::inv_reach);
            reveal(Search::inv_shape);
            assert(at_top(s, u) && at_top(s, v));
            assert(s.states[u].link < s.bound(k));
            assert(reach(edges, u, top));
            assert(s.work[k].vertex == top);
            assert(reach(edges, top, v));
            lemma_reach_trans(edges, u, top, v);
        }
    }
    assert forall|j: int, o: SccId|
        t.base <= j < t.comps.len() && #[trigger] t.comps[j].out_edges@.contains(
            o,
        ) implies exists|u: Node, w: Node|
        t.comps[j].members@.contains(u) && #[trigger] has_edge(t.graph, u, w)
            && t.done.contains_key(w) && t.done[w] == o by {
        if j < n {
            assert(s.comps[j].out_edges@.contains(o));
            let (u, w) = choose|u: Node, w: Node|
                s.comps[j].members@.contains(u) && #[trigger] has_edge(s.graph, u, w)
                    && s.done.contains_key(w) && s.done[w] == o;
            assert(t.comps[j].members@.contains(u) && has_edge(t.graph, u, w));
        } else {
            let v = choose|v: Node| at_top(s, v) && #[trigger] s.states[v].out_edges@.contains(o);
            reveal(Search::inv_out);
            let w = choose|w: Node| #[trigger]
                has_edge(s.graph, v, w) && s.done.contains_key(w) && s.done[w] == o;
            assert(t.comps[j].members@.contains(v) && has_edge(t.graph, v, w));
        }
    }
    assert forall|j: int, u: Node, w: Node|
        t.base <= j < t.comps.len() && #[trigger] t.comps[j].members@.contains(u)
            && #[trigger] has_edge(t.graph, u, w) implies t.comps[j].members@.contains(w) || reach(
        comp_edges(t.comps),
        t.comps[j].this,
        t.done[w],
    ) by {
        if j < n {
            assert(s.comps[j].members@.contains(u));
            if !s.comps[j].members@.contains(w) {
                lemma_comp_edges_grow(s.comps, t.comps.last(), s.comps[j].this, s.done[w]);
                assert(in_prefix(s.comps, j, w));
            }
        } else if !t.comps[j].members@.contains(w) {
            assert(at_top(s, u));
            lemma_top_closed(s, u, w);
            assert(s.done.contains_key(w));
            assert(s.discovered.contains(w)) by {
                reveal(Search::inv_shape);
            }
            let q = choose|q: int| 0 <= q < s.discovered.len() && s.discovered[q] == w;
            assert(q != this - 1);
            reveal(Search::inv_out);
            assert(s.in_segment(k, u));
            if q < this - 1 {
                assert(s.leaves_to(k, s.done[s.discovered[q]]));
            } else {
                assert(s.work[k].link <= q < s.bound(k) - 1);
                assert(s.leaves_to(k, s.done[s.discovered[q]]));
            }
            lemma_top_leaves(s, t, s.done[w]);
        }
    }
    assert forall|j: int| t.base <= j < t.comps.len() implies ((
    #[trigger] t.comps[j]).marked_for_main <==> exists|u: Node, w: Node|
        t.comps[j].members@.contains(u) && #[trigger] has_edge(t.graph, u, w) && t.marks.contains(
            w,
        )) by {
        if j == n {
            reveal(Search::inv_out);
            if c.marked_for_main {
                let v = choose|v: Node| #[trigger] at_top(s, v) && s.states[v].marked_for_main;
                let w = choose|w: Node| #[trigger]
                    has_edge(s.graph, v, w) && s.marks.contains(w);
                assert(t.comps[j].members@.contains(v) && has_edge(t.graph, v, w));
            }
            if exists|u: Node, w: Node|
                t.comps[j].members@.contains(u) && #[trigger] has_edge(t.graph, u, w)
                    && t.marks.contains(w) {
                let (u, w) = choose|u: Node, w: Node|
                    t.comps[j].members@.contains(u) && #[trigger] has_edge(t.graph, u, w)
                        && t.marks.contains(w);
                assert(at_top(s, u));
                assert(s.states[u].marked_for_main);
            }
        } else {
            assert(s.comps[j] == t.comps[j]);
        }
    }
}

/// Completing a component preserves what is recorded of edges that leave the stack.
proof fn lemma_complete_out<Node: NodeKey>(s: Search<Node>, t: Search<Node>)
    requires
        s.inv(),
        completes(s, t),
    ensures
        t.inv_out(),
{
    reveal(Search::inv_shape);
    reveal(Search::inv_out);
    lemma_complete_segments(s, t);
    let k = s.work.len() - 1;
    let this = s.work[k].link;
    let top = s.work[k].vertex;
    let parent = s.work[k - 1].vertex;
    assert(s.states.contains_key(top) && at_top(s, top));
    assert forall|v: Node| #[trigger] s.done.contains_key(v) implies t.done.contains_key(v)
        && t.done[v] == s.done[v] by {
        assert(t.done[v] == s.done[v]);
    }
    assert forall|u: Node, o: SccId|
        t.states.contains_key(u) && #[trigger] t.states[u].out_edges@.contains(o) implies exists|
        w: Node,
    | #[trigger]
        has_edge(t.graph, u, w) && t.done.contains_key(w) && t.done[w] == o by {
        assert(s.states.contains_key(u));
        if s.states[u].out_edges@.contains(o) {
            let w = choose|w: Node| #[trigger]
                has_edge(s.graph, u, w) && s.done.contains_key(w) && s.done[w] == o;
            assert(has_edge(t.graph, u, w) && t.done.contains_key(w) && t.done[w] == o);
        } else {
            assert(k >= 1 && u == parent && o == this);
            reveal(Search::inv_reach);
            assert(has_edge(s.graph, s.work[k - 1].vertex, s.work[k].vertex));
            assert(t.done[top] == this);
            assert(has_edge(t.graph, u, top) && t.done.contains_key(top) && t.done[top] == o);
        }
    }
    assert forall|u: Node| #[trigger] t.states.contains_key(u) implies (
    t.states[u].marked_for_main <==> exists|w: Node| #[trigger]
        has_edge(t.graph, u, w) && t.marks.contains(w)) by {
        assert(s.states.contains_key(u));
    }
    assert forall|i: int, q: int|
        0 <= i < t.work.len() && t.work[i].link <= q < #[trigger] t.bound(i) - 1
            && t.done.contains_key(#[trigger] t.discovered[q]) implies t.leaves_to(
        i,
        t.done[t.discovered[q]],
    ) by {
        assert(t.work[i] == s.work[i]);
        let d = s.discovered[q];
        if i < k - 1 || q < this - 1 {
            assert(q < s.bound(i) - 1);
            if at_top(s, d) {
                assert(s.discovered[s.states[d].link - 1] == d);
                assert(s.states[d].link - 1 == q);
                assert(s.bound(i) <= this);
            }
            assert(s.leaves_to(i, s.done[d]));
        } else {
            let c = t.done[d];
            let r = comp_edges(t.comps);
            if at_top(s, d) {
                assert(t.done[d] == this);
                lemma_reach_refl(r, this);
            } else {
                assert(s.done.contains_key(d));
                assert(q != this - 1) by {
                    if q == this - 1 {
                        assert(d == top);
                    }
                }
                assert(s.work[k].link <= q < s.bound(k) - 1);
                assert(s.leaves_to(k, s.done[s.discovered[q]]));
                lemma_top_leaves(s, t, s.done[d]);
            }
            assert(t.states.contains_key(parent));
            assert(t.in_segment(i, parent)) by {
                assert(s.states.contains_key(s.work[k - 1].vertex));
                assert(s.work[k - 1].link < s.work[k].link);
                assert(s.in_segment(k - 1, parent));
            }
            assert(t.states[parent].out_edges@.contains(this));
        }
    }
    assert forall|i: int, q: int, u: Node|
        0 <= i < t.work.len() && 0 <= q < t.work[i].link - 1 && #[trigger] t.in_segment(i, u)
            && has_edge(t.graph, u, #[trigger] t.discovered[q]) && t.done.contains_key(
            t.discovered[q],
        ) implies t.leaves_to(i, t.done[t.discovered[q]]) by {
        assert(t.work[i] == s.work[i]);
        let d = s.discovered[q];
        assert(s.in_segment(i, u));
        assert(s.work[i].link < s.work[k].link);
        if at_top(s, d) {
            assert(s.discovered[s.states[d].link - 1] == d);
            assert(s.states[d].link - 1 == q);
        }
        assert(s.leaves_to(i, s.done[s.discovered[q]]));
    }
}

/// Completing a component preserves the invariant.
pub proof fn lemma_complete<Node: NodeKey>(s: Search<Node>, t: Search<Node>)
    requires
        s.inv(),
        completes(s, t),
    ensures
        t.inv(),
{
    lemma_complete_segments(s, t);
    lemma_complete_shape(s, t);
    lemma_complete_comps(s, t);
    lemma_complete_out(s, t);
    let k = s.work.len() - 1;
    let n = s.comps.len() as int;
    let this = s.work[k].link;
    assert(t.inv_earlier()) by {
        reveal(Search::inv_shape);
        reveal(Search::inv_earlier);
        assert forall|v: Node| #[trigger] t.earlier.contains_key(v) implies t.done.contains_key(v)
            && t.done[v] == t.earlier[v] by {
            assert(s.done.contains_key(v));
            assert(t.done[v] == s.done[v]);
        }
        assert forall|j: int, v: Node|
            0 <= j < t.base && #[trigger] t.comps[j].members@.contains(
                v,
            ) implies t.earlier.contains_key(v) by {
            assert(s.comps[j].members@.contains(v));
        }
        assert forall|j: int, v: Node|
            t.base <= j < t.comps.len() && #[trigger] t.comps[j].members@.contains(
                v,
            ) implies !t.earlier.contains_key(v) by {
            if j < n {
                assert(s.comps[j].members@.contains(v));
            } else {
                assert(at_top(s, v));
            }
        }
    }
    assert(t.inv_reach()) by {
        reveal(Search::inv_reach);
        assert forall|i: int, u: Node|
            0 <= i < t.work.len() && #[trigger] t.states.contains_key(u) && t.states[u].link
                < #[trigger] t.bound(i) implies reach(t.edges(), u, t.work[i].vertex) by {
            assert(s.states.contains_key(u));
            assert(t.work[i] == s.work[i]);
            if i < k - 1 {
                assert(t.bound(i) == s.bound(i));
            }
            assert(s.states[u].link < s.bound(i));
        }
        assert forall|i: int, u: Node|
            0 <= i < t.work.len() && #[trigger] t.states.contains_key(u) && t.states[u].link >= (
            #[trigger] t.work[i]).link implies reach(t.edges(), t.work[i].vertex, u) by {
            assert(s.states.contains_key(u));
            assert(t.work[i] == s.work[i]);
        }
    }
    assert(t.inv_low()) by {
        reveal(Search::inv_low);
        reveal(Search::inv_shape);
        assert forall|u: Node| #[trigger] t.low_right(u) by {
            assert(s.low_right(u));
            if t.states.contains_key(u) {
                let x = s.discovered[s.states[u].lowlink - 1];
                assert(s.states.contains_key(x));
                assert(s.discovered[s.states[x].link - 1] == x);
                assert(s.states[x].link == s.states[u].lowlink);
            }
        }
        assert forall|i: int, u: Node, w: Node|
            0 <= i < t.work.len() && #[trigger] t.in_segment(i, u) && #[trigger] has_edge(
                t.graph,
                u,
                w,
            ) && t.states.contains_key(w) && t.states[w].link
                < t.work[i].link implies t.states[t.work[i].vertex].lowlink
            <= t.states[w].link by {
            assert(t.work[i] == s.work[i]);
            assert(s.in_segment(i, u));
            assert(t.states.contains_key(t.work[i].vertex));
        }
    }
    assert(this <= s.discovered.len()) by {
        reveal(Search::inv_shape);
        assert(s.states.contains_key(s.work[k].vertex));
    }
    assert(t.inv_edges()) by {
        reveal(Search::inv_edges);
        assert forall|i: int, u: Node, w: Node|
            0 <= i < t.work.len() && #[trigger] t.in_segment(i, u) && u != t.work[i].vertex
                && #[trigger] has_edge(t.graph, u, w) implies t.done.contains_key(w) || (
        t.states.contains_key(w) && t.states[w].link < t.bound(i)) by {
            assert(t.work[i] == s.work[i]);
            assert(s.in_segment(i, u));
            assert(s.bound(i) <= this);
            if i < k - 1 {
                assert(t.bound(i) == s.bound(i));
            }
            assert(s.done.contains_key(w) || s.states.contains_key(w));
        }
        assert forall|i: int, w: Node|
            0 <= i < t.work.len() && #[trigger] has_edge(
                t.graph,
                (#[trigger] t.work[i]).vertex,
                w,
            ) implies t.done.contains_key(w) || t.states.contains_key(w)
            || t.work[i].pending@.contains(w) by {
            assert(has_edge(s.graph, s.work[i].vertex, w));
        }
        assert forall|i: int, w: Node|
            0 <= i < t.work.len() && #[trigger] t.work[i].pending@.contains(w) implies has_edge(
            t.graph,
            t.work[i].vertex,
            w,
        ) by {
            assert(s.work[i].pending@.contains(w));
        }
    }
    assert(t.inv_roots()) by {
        reveal(Search::inv_roots);
    }
}

/// `t` is `s` after the top of the stack became a component, before the next vertex of the path
/// is told of it.
pub open spec fn formed<Node: NodeKey>(s: Search<Node>, t: Search<Node>) -> bool {
    &&& same_task(s, t)
    &&& t.discovered == s.discovered
    &&& t.comps == s.comps.push(t.comps.last())
    &&& t.comps.len() == s.comps.len() + 1
    &&& forms(s, t.comps.last())
    &&& forall|v: Node| #[trigger]
        t.done.contains_key(v) <==> s.done.contains_key(v) || at_top(s, v)
    &&& forall|v: Node| at_top(s, v) ==> #[trigger] t.done[v] == s.work.last().link
    &&& forall|v: Node| s.done.contains_key(v) && !at_top(s, v) ==> #[trigger] t.done[v] == s.done[v]
    &&& t.stack.len() <= s.stack.len()
    &&& t.stack == s.stack.take(t.stack.len() as int)
    &&& forall|v: Node| #[trigger] t.stack.contains(v) <==> s.stack.contains(v) && !at_top(s, v)
    &&& forall|v: Node| #[trigger]
        t.states.contains_key(v) <==> s.states.contains_key(v) && !at_top(s, v)
    &&& forall|v: Node| #[trigger] t.states.contains_key(v) ==> t.states[v] == s.states[v]
    &&& t.work == s.work.drop_last()
}

/// `t` is `s` after `members` were taken off the stack; `out` holds the components that their
/// recorded edges lead to, and `marked` whether one of them is marked.
#[verifier::opaque]
pub open spec fn pops<Node: NodeKey>(
    s: Search<Node>,
    t: Search<Node>,
    members: Seq<Node>,
    out: Set<SccId>,
    marked: bool,
) -> bool {
    &&& same_task(s, t)
    &&& t.discovered == s.discovered
    &&& t.comps == s.comps
    &&& t.work == s.work.drop_last()
    &&& t.stack.len() <= s.stack.len()
    &&& t.stack == s.stack.take(t.stack.len() as int)
    &&& members.len() == s.stack.len() - t.stack.len()
    &&& forall|i: int|
        0 <= i < members.len() ==> #[trigger] members[i] == s.stack[s.stack.len() - 1 - i]
    &&& forall|v: Node| #[trigger] t.states.contains_key(v) <==> t.stack.contains(v)
    &&& forall|v: Node| #[trigger] t.states.contains_key(v) ==> t.states[v] == s.states[v]
    &&& forall|v: Node| #[trigger]
        t.done.contains_key(v) <==> s.done.contains_key(v) || members.contains(v)
    &&& forall|v: Node| #[trigger] members.contains(v) ==> t.done[v] == s.work.last().link
    &&& forall|v: Node|
        s.done.contains_key(v) && !members.contains(v) ==> #[trigger] t.done[v] == s.done[v]
    &&& forall|v: Node, o: SccId|
        members.contains(v) && #[trigger] s.states[v].out_edges@.contains(o) ==> out.contains(o)
    &&& forall|o: SccId| #[trigger]
        out.contains(o) ==> exists|v: Node|
            members.contains(v) && #[trigger] s.states[v].out_edges@.contains(o)
    &&& marked <==> exists|v: Node| #[trigger] members.contains(v) && s.states[v].marked_for_main
}

/// Nothing was taken off the stack yet.
pub proof fn lemma_pop_start<Node: NodeKey>(s: Search<Node>, t: Search<Node>)
    requires
        s.inv_shape(),
        s.work.len() > 0,
        t == (Search { work: s.work.drop_last(), ..s }),
    ensures
        pops(s, t, Seq::empty(), Set::empty(), false),
{
    reveal(Search::inv_shape);
    reveal(pops);
    assert(t.stack == s.stack.take(t.stack.len() as int));
}

/// The top of the stack has a state.
pub proof fn lemma_pop_state<Node: NodeKey>(
    s: Search<Node>,
    t: Search<Node>,
    members: Seq<Node>,
    out: Set<SccId>,
    marked: bool,
)
    requires
        pops(s, t, members, out, marked),
        t.stack.len() > 0,
    ensures
        t.states.contains_key(t.stack.last()),
{
    reveal(pops);
    assert(t.stack.contains(t.stack.last()));
}

/// Where on the stack the vertex with the link of the path's end is.
pub proof fn lemma_pop_at<Node: NodeKey>(
    s: Search<Node>,
    t: Search<Node>,
    members: Seq<Node>,
    out: Set<SccId>,
    marked: bool,
    at: int,
)
    requires
        s.inv_shape(),
        pops(s, t, members, out, marked),
        0 <= at < t.stack.len(),
    ensures
        at < s.stack.len(),
        t.states[t.stack.last()].link == s.states[s.stack[at]].link <==> t.stack.len() == at + 1,
{
    reveal(Search::inv_shape);
    reveal(pops);
    let p = t.stack.len() - 1;
    assert(t.stack.contains(t.stack.last()));
    assert(t.states.contains_key(t.stack.last()));
    assert(t.stack.last() == s.stack[p]);
    if at < p {
        assert(s.states[s.stack[at]].link < s.states[s.stack[p]].link);
    }
}

/// Taking one more vertex off the stack.
pub proof fn lemma_pop<Node: NodeKey>(
    s: Search<Node>,
    t: Search<Node>,
    t2: Search<Node>,
    members: Seq<Node>,
    out: Set<SccId>,
    marked: bool,
)
    requires
        s.inv_shape(),
        s.work.len() > 0,
        pops(s, t, members, out, marked),
        t.stack.len() > 0,
        t2 == (Search {
            stack: t.stack.drop_last(),
            states: t.states.remove(t.stack.last()),
            done: t.done.insert(t.stack.last(), s.work.last().link),
            ..t
        }),
    ensures
        pops(
            s,
            t2,
            members.push(t.stack.last()),
            out.union(t.states[t.stack.last()].out_edges@),
            marked || t.states[t.stack.last()].marked_for_main,
        ),
{
    reveal(Search::inv_shape);
    reveal(pops);
    let w = t.stack.last();
    let p = t.stack.len() - 1;
    let members2 = members.push(w);
    assert(t.stack.contains(w));
    assert(s.stack[p] == w);
    assert(t2.stack == s.stack.take(t2.stack.len() as int));
    assert forall|v: Node| #[trigger] members2.contains(v) <==> members.contains(v) || v == w by {
        if members.contains(v) {
            let i = choose|i: int| 0 <= i < members.len() && members[i] == v;
            assert(members2[i] == v);
        }
        assert(members2[members.len() as int] == w);
    }
    assert forall|v: Node| #[trigger] t2.states.contains_key(v) <==> t2.stack.contains(v) by {
        if t2.states.contains_key(v) {
            assert(t.stack.contains(v));
            let i = choose|i: int| 0 <= i < t.stack.len() && t.stack[i] == v;
            assert(t2.stack[i] == v);
        }
        if t2.stack.contains(v) {
            let i = choose|i: int| 0 <= i < t2.stack.len() && t2.stack[i] == v;
            assert(t.stack[i] == v);
            assert(t.stack.contains(v));
            assert(s.stack[i] == v);
            assert(s.states[s.stack[i]].link < s.states[s.stack[p]].link);
        }
    }
    let state = t.states[w];
    assert(t.states.contains_key(w));
    assert(state == s.states[w]);
    let marked2 = marked || state.marked_for_main;
    let out2 = out.union(state.out_edges@);
    assert forall|o: SccId| #[trigger] out2.contains(o) implies exists|v: Node|
        members2.contains(v) && #[trigger] s.states[v].out_edges@.contains(o) by {
        if out.contains(o) {
            let v = choose|v: Node|
                members.contains(v) && #[trigger] s.states[v].out_edges@.contains(o);
            assert(members2.contains(v) && s.states[v].out_edges@.contains(o));
        } else {
            assert(members2.contains(w) && s.states[w].out_edges@.contains(o));
        }
    }
    assert forall|v: Node, o: SccId|
        members2.contains(v) && #[trigger] s.states[v].out_edges@.contains(o) implies out2.contains(
        o,
    ) by {
        assert(members2.contains(v) <==> members.contains(v) || v == w);
    }
    if marked2 {
        if marked {
            let v = choose|v: Node| #[trigger]
                members.contains(v) && s.states[v].marked_for_main;
            assert(members2.contains(v) && s.states[v].marked_for_main);
        } else {
            assert(members2.contains(w) && s.states[w].marked_for_main);
        }
    }
    if exists|v: Node| #[trigger] members2.contains(v) && s.states[v].marked_for_main {
        let v = choose|v: Node| #[trigger] members2.contains(v) && s.states[v].marked_for_main;
        assert(members.contains(v) || v == w);
    }
    assert(t2.work == s.work.drop_last());
}

/// All vertices from position `at` on were taken off the stack.
pub proof fn lemma_pop_end<Node: NodeKey>(
    s: Search<Node>,
    t: Search<Node>,
    c: Component<Node>,
    at: int,
)
    requires
        s.inv_shape(),
        s.work.len() > 0,
        pops(s, t, c.members@, c.out_edges@, c.marked_for_main),
        c.this == s.work.last().link,
        t.stack.len() == at,
        0 <= at < s.stack.len(),
        s.states[s.stack[at]].link == s.work.last().link,
    ensures
        formed(s, Search { comps: t.comps.push(c), ..t }),
{
    reveal(Search::inv_shape);
    reveal(pops);
    let members = c.members@;
    assert forall|v: Node| #[trigger] members.contains(v) <==> at_top(s, v) by {
        if members.contains(v) {
            let i = choose|i: int| 0 <= i < members.len() && members[i] == v;
            let p = s.stack.len() - 1 - i;
            assert(s.stack[p] == v && p >= at);
            assert(s.stack.contains(v));
            if at < p {
                assert(s.states[s.stack[at]].link < s.states[s.stack[p]].link);
            }
        }
        if at_top(s, v) {
            assert(s.stack.contains(v));
            let p = choose|p: int| 0 <= p < s.stack.len() && s.stack[p] == v;
            if p < at {
                assert(s.states[s.stack[p]].link < s.states[s.stack[at]].link);
            }
            assert(members[s.stack.len() - 1 - p] == v);
        }
    }
    assert forall|v: Node| #[trigger] t.stack.contains(v) <==> s.stack.contains(v) && !at_top(
        s,
        v,
    ) by {
        if t.stack.contains(v) {
            let p = choose|p: int| 0 <= p < t.stack.len() && t.stack[p] == v;
            assert(s.stack[p] == v);
            assert(s.states[s.stack[p]].link < s.states[s.stack[at]].link);
        }
        if s.stack.contains(v) && !at_top(s, v) {
            let p = choose|p: int| 0 <= p < s.stack.len() && s.stack[p] == v;
            assert(s.states.contains_key(v));
            if p > at {
                assert(s.states[s.stack[at]].link < s.states[s.stack[p]].link);
            }
            assert(t.stack[p] == v);
        }
    }
    assert forall|i: int, j: int|
        0 <= i < members.len() && 0 <= j < members.len() && i != j implies members[i]
        != members[j] by {
        let p = s.stack.len() - 1 - i;
        let q = s.stack.len() - 1 - j;
        if p < q {
            assert(s.states[s.stack[p]].link < s.states[s.stack[q]].link);
        } else {
            assert(s.states[s.stack[q]].link < s.states[s.stack[p]].link);
        }
    }
    assert(forms(s, c)) by {
        assert forall|o: SccId| #[trigger] c.out_edges@.contains(o) implies exists|v: Node|
            at_top(s, v) && #[trigger] s.states[v].out_edges@.contains(o) by {
            let v = choose|v: Node|
                members.contains(v) && #[trigger] s.states[v].out_edges@.contains(o);
            assert(at_top(s, v));
        }
        assert forall|v: Node, o: SccId|
            at_top(s, v) && #[trigger] s.states[v].out_edges@.contains(
                o,
            ) implies c.out_edges@.contains(o) by {
            assert(members.contains(v));
        }
        if c.marked_for_main {
            let v = choose|v: Node| #[trigger] members.contains(v) && s.states[v].marked_for_main;
            assert(at_top(s, v));
        }
        if exists|v: Node| #[trigger] at_top(s, v) && s.states[v].marked_for_main {
            let v = choose|v: Node| #[trigger] at_top(s, v) && s.states[v].marked_for_main;
            assert(members.contains(v));
        }
    }
    let t2 = Search { comps: t.comps.push(c), ..t };
    assert(t2.comps.last() == c);
    assert forall|v: Node| at_top(s, v) implies #[trigger] t2.done[v] == s.work.last().link by {
        assert(members.contains(v));
    }
    assert forall|v: Node| s.done.contains_key(v) && !at_top(s, v) implies #[trigger] t2.done[v]
        == s.done[v] by {
        assert(!members.contains(v));
        assert(t.done[v] == s.done[v]);
    }
    assert forall|v: Node| #[trigger] t2.done.contains_key(v) <==> s.done.contains_key(v) || at_top(
        s,
        v,
    ) by {
        assert(members.contains(v) <==> at_top(s, v));
    }
    assert forall|v: Node| #[trigger] t2.states.contains_key(v) <==> s.states.contains_key(v)
        && !at_top(s, v) by {
        assert(t.states.contains_key(v) <==> t.stack.contains(v));
        assert(s.states.contains_key(v) <==> s.stack.contains(v));
    }
}

/// Adding a root preserves the invariant.
pub proof fn lemma_add_root<Node: NodeKey>(s: Search<Node>, r: Node)
    requires
        s.inv(),
    ensures
        (Search { roots: s.roots.insert(r), ..s }).inv(),
{
    let t = Search { roots: s.roots.insert(r), ..s };
    assert(t.edges() == s.edges());
    assert forall|i: int, v: Node| #[trigger] t.in_segment(i, v) == s.in_segment(i, v) by {}
    assert forall|i: int, c: SccId| #[trigger] s.leaves_to(i, c) implies t.leaves_to(i, c) by {
        let (v, o) = choose|v: Node, o: SccId|
            s.in_segment(i, v) && #[trigger] s.states[v].out_edges@.contains(o) && reach(
                comp_edges(s.comps),
                o,
                c,
            );
        assert(t.in_segment(i, v) && t.states[v].out_edges@.contains(o));
    }
    assert(t.inv_shape()) by {
        reveal(Search::inv_shape);
    }
    assert(t.inv_earlier()) by {
        reveal(Search::inv_earlier);
    }
    assert(t.inv_reach()) by {
        reveal(Search::inv_reach);
        assert forall|i: int| #[trigger] t.bound(i) == s.bound(i) by {}
    }
    assert(t.inv_low()) by {
        reveal(Search::inv_low);
        assert forall|v: Node| #[trigger] t.low_right(v) by {
            assert(s.low_right(v));
        }
    }
    assert(t.inv_edges()) by {
        reveal(Search::inv_edges);
        assert forall|i: int| #[trigger] t.bound(i) == s.bound(i) by {}
    }
    assert(t.inv_out()) by {
        reveal(Search::inv_out);
        assert forall|i: int| #[trigger] t.bound(i) == s.bound(i) by {}
    }
    assert(t.inv_comps()) by {
        reveal(Search::inv_comps);
    }
    assert(t.inv_roots()) by {
        reveal(Search::inv_roots);
        assert forall|v: Node| #[trigger]
            t.discovered.contains(v) && !t.earlier.contains_key(v) implies exists|q: Node|
            t.roots.contains(q) && !t.earlier.contains_key(q) && #[trigger] reach(
                t.edges(),
                q,
                v,
            ) by {
            assert(s.discovered.contains(v));
            let q = choose|q: Node|
                s.roots.contains(q) && !s.earlier.contains_key(q) && #[trigger] reach(
                    s.edges(),
                    q,
                    v,
                );
            assert(t.roots.contains(q));
        }
    }
}

/// What an explored vertex reaches is explored.
pub proof fn lemma_done_closed<Node: NodeKey>(s: Search<Node>, u: Node, v: Node)
    requires
        s.inv_earlier(),
        s.inv_comps(),
        s.done.contains_key(u),
        reach(s.edges(), u, v),
    ensures
        s.done.contains_key(v),
{
    reveal(Search::inv_earlier);
    reveal(Search::inv_comps);
    let inside = |x: Node| s.done.contains_key(x);
    assert forall|x: Node, y: Node| inside(x) && #[trigger] s.edges()(x, y) implies inside(y) by {
        let k = choose|k: int|
            0 <= k <= s.comps.len() - 1 && (#[trigger] s.comps[k]).members@.contains(x);
        assert(has_edge(s.graph, x, y));
        assert(in_prefix(s.comps, k, y));
        let j = choose|j: int| 0 <= j <= k && (#[trigger] s.comps[j]).members@.contains(y);
        assert(s.comps[j].members@.contains(y));
    }
    lemma_reach_stays(s.edges(), inside, u, v);
}

/// What a vertex reaches is in no later component.
proof fn lemma_prefix_closed<Node: NodeKey>(s: Search<Node>, k: int, u: Node, v: Node)
    requires
        s.inv_earlier(),
        s.inv_comps(),
        0 <= k < s.comps.len(),
        s.comps[k].members@.contains(u),
        reach(s.edges(), u, v),
    ensures
        in_prefix(s.comps, k, v),
{
    reveal(Search::inv_earlier);
    reveal(Search::inv_comps);
    let inside = |x: Node| in_prefix(s.comps, k, x);
    assert forall|x: Node, y: Node| inside(x) && #[trigger] s.edges()(x, y) implies inside(y) by {
        let j = choose|j: int| 0 <= j <= k && (#[trigger] s.comps[j]).members@.contains(x);
        assert(has_edge(s.graph, x, y));
        assert(in_prefix(s.comps, j, y));
        let i = choose|i: int| 0 <= i <= j && (#[trigger] s.comps[i]).members@.contains(y);
        assert(s.comps[i].members@.contains(y));
    }
    assert(inside(u));
    lemma_reach_stays(s.edges(), inside, u, v);
}

/// Two vertices that this search explored are in the same component if and only if they reach
/// each other.
pub proof fn lemma_same_component<Node: NodeKey>(s: Search<Node>, u: Node, v: Node)
    requires
        s.inv_earlier(),
        s.inv_comps(),
        s.done.contains_key(u),
        s.done.contains_key(v),
        !s.earlier.contains_key(u),
        !s.earlier.contains_key(v),
    ensures
        s.done[u] == s.done[v] <==> reach(s.edges(), u, v) && reach(s.edges(), v, u),
{
    reveal(Search::inv_earlier);
    reveal(Search::inv_comps);
    let m = s.comps.len() - 1;
    let ku = choose|k: int| 0 <= k <= m && (#[trigger] s.comps[k]).members@.contains(u);
    let kv = choose|k: int| 0 <= k <= m && (#[trigger] s.comps[k]).members@.contains(v);
    assert(in_prefix(s.comps, m, u) && in_prefix(s.comps, m, v));
    assert(s.comps[ku].members@.contains(u) && s.comps[kv].members@.contains(v));
    assert(s.base <= ku && s.base <= kv);
    if s.done[u] == s.done[v] {
        assert(ku == kv) by {
            if ku < kv {
                assert(s.comps[ku].this != s.comps[kv].this);
            }
            if kv < ku {
                assert(s.comps[kv].this != s.comps[ku].this);
            }
        }
    }
    if reach(s.edges(), u, v) && reach(s.edges(), v, u) {
        lemma_prefix_closed(s, ku, u, v);
        lemma_prefix_closed(s, kv, v, u);
        let j = choose|j: int| 0 <= j <= ku && (#[trigger] s.comps[j]).members@.contains(v);
        let i = choose|i: int| 0 <= i <= kv && (#[trigger] s.comps[i]).members@.contains(u);
        assert(s.comps[j].members@.contains(v));
        assert(s.comps[i].members@.contains(u));
        assert(j == kv) by {
            if j < kv {
                assert(s.comps[j].this != s.comps[kv].this);
            }
            if kv < j {
                assert(s.comps[kv].this != s.comps[j].this);
            }
        }
        assert(i == ku) by {
            if i < ku {
                assert(s.comps[i].this != s.comps[ku].this);
            }
            if ku < i {
                assert(s.comps[ku].this != s.comps[i].this);
            }
        }
    }
}

} // verus!
