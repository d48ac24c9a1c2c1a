//! Strongly connected components, in topological order.
use crate::graph_utils::reach::reach;
use crate::graph_utils::search::{
    at_top, can_complete, completes, discovers, formed, lemma_add_root, lemma_complete,
    lemma_discover, lemma_done_closed, lemma_merge, lemma_merge_has_parent, lemma_pop, lemma_pop_at,
    lemma_pop_end, lemma_pop_start, lemma_pop_state, lemma_same_component, lemma_skip, merges, pops,
    same_item, same_task, skips, Search, VertexState, WorkItem,
};
use crate::keyed::{lemma_take_to_set, KeyMap, KeySet, NodeKey};
use vstd::prelude::*;

verus! {

/// The number of a strongly connected component.
pub type SccId = usize;

/// A graph: each vertex with its neighbors.
pub type Graph<Node> = KeyMap<Node, KeySet<Node>>;

/// A strongly connected component.
pub struct Component<Node> {
    /// The vertices of the component.
    pub members: Vec<Node>,
    /// The number of the component.
    pub this: SccId,
    /// Components that edges of the members lead to.
    pub out_edges: KeySet<SccId>,
    /// Whether an edge of a member leads to a marked vertex.
    pub marked_for_main: bool,
}

/// Whether the graph has an edge from `u` to `w`.
pub open spec fn has_edge<Node: NodeKey>(
    graph: Map<Node, KeySet<Node>>,
    u: Node,
    w: Node,
) -> bool {
    graph.contains_key(u) && graph[u]@.contains(w)
}

/// The edges of a graph between vertices that are not in `avoid`.
pub open spec fn edges_avoiding<Node: NodeKey>(
    graph: Map<Node, KeySet<Node>>,
    avoid: Set<Node>,
) -> spec_fn(Node, Node) -> bool {
    |u: Node, w: Node| has_edge(graph, u, w) && !avoid.contains(u) && !avoid.contains(w)
}

/// The recorded edges between components.
pub open spec fn comp_edges<Node>(comps: Seq<Component<Node>>) -> spec_fn(SccId, SccId) -> bool {
    |a: SccId, b: SccId|
        exists|k: int|
            0 <= k < comps.len() && (#[trigger] comps[k]).this == a
                && comps[k].out_edges@.contains(b)
}

/// Whether `v` is in one of the components up to and with number `k` in the sequence.
pub open spec fn in_prefix<Node>(comps: Seq<Component<Node>>, k: int, v: Node) -> bool {
    exists|j: int| 0 <= j <= k && (#[trigger] comps[j]).members@.contains(v)
}

/// The components are the classes of `scc`, and their recorded edges lead to earlier ones.
pub open spec fn components_wf<Node>(
    scc: Map<Node, SccId>,
    comps: Seq<Component<Node>>,
) -> bool {
    &&& forall|k: int, v: Node|
        0 <= k < comps.len() && #[trigger] comps[k].members@.contains(v) ==> scc.contains_key(v)
            && scc[v] == comps[k].this
    &&& forall|v: Node| #[trigger]
        scc.contains_key(v) ==> in_prefix(comps, comps.len() - 1, v)
    &&& forall|j: int, k: int|
        0 <= j < k < comps.len() ==> (#[trigger] comps[j]).this != (#[trigger] comps[k]).this
    &&& forall|k: int|
        0 <= k < comps.len() ==> (#[trigger] comps[k]).members@.no_duplicates()
            && comps[k].members@.len() > 0
    &&& forall|k: int, t: SccId|
        0 <= k < comps.len() && #[trigger] comps[k].out_edges@.contains(t) ==> exists|j: int|
            0 <= j < k && (#[trigger] comps[j]).this == t
}

/// What a search from `roots` finds: `scc` and `comps` are what was known before it, `scc2` and
/// `comps2` what is known after it, and `found` is what it returns.
pub open spec fn explores<Node: NodeKey>(
    scc: Map<Node, SccId>,
    comps: Seq<Component<Node>>,
    scc2: Map<Node, SccId>,
    comps2: Seq<Component<Node>>,
    roots: Set<Node>,
    graph: Map<Node, KeySet<Node>>,
    marks: Set<Node>,
    found: Set<SccId>,
) -> bool {
    let edges = edges_avoiding(graph, scc.dom());
    // What was explored before stays as it was.
    &&& forall|v: Node| #[trigger]
        scc.contains_key(v) ==> scc2.contains_key(v) && scc2[v] == scc[v]
    &&& comps.len() <= comps2.len()
    &&& comps2.take(comps.len() as int) == comps
    // All that is reachable from the roots is explored, and nothing else.
    &&& forall|v: Node| #[trigger]
        scc2.contains_key(v) <==> (scc.contains_key(v) || exists|r: Node|
            roots.contains(r) && !scc.contains_key(r) && #[trigger] reach(edges, r, v))
    // Two vertices are in the same component if and only if they reach each other.
    &&& forall|u: Node, v: Node|
        #![trigger scc2[u], scc2[v]]
        scc2.contains_key(u) && scc2.contains_key(v) && !scc.contains_key(u)
            && !scc.contains_key(v) ==> (scc2[u] == scc2[v] <==> reach(edges, u, v) && reach(
            edges,
            v,
            u,
        ))
    // Edges lead to the same component or to an earlier one.
    &&& forall|k: int, u: Node, w: Node|
        comps.len() <= k < comps2.len() && #[trigger] comps2[k].members@.contains(u)
            && #[trigger] has_edge(graph, u, w) ==> in_prefix(comps2, k, w)
    // Recorded edges are edges of the graph.
    &&& forall|k: int, t: SccId|
        comps.len() <= k < comps2.len() && #[trigger] comps2[k].out_edges@.contains(t)
            ==> exists|u: Node, w: Node|
            comps2[k].members@.contains(u) && #[trigger] has_edge(graph, u, w)
                && scc2.contains_key(w) && scc2[w] == t
    // Every edge that leaves a component is covered by recorded edges.
    &&& forall|k: int, u: Node, w: Node|
        comps.len() <= k < comps2.len() && #[trigger] comps2[k].members@.contains(u)
            && #[trigger] has_edge(graph, u, w) ==> comps2[k].members@.contains(w) || reach(
            comp_edges(comps2),
            comps2[k].this,
            scc2[w],
        )
    // A component is marked if an edge leads from it to a marked vertex.
    &&& forall|k: int|
        comps.len() <= k < comps2.len() ==> ((#[trigger] comps2[k]).marked_for_main <==> exists|
            u: Node,
            w: Node,
        |
            comps2[k].members@.contains(u) && #[trigger] has_edge(graph, u, w) && marks.contains(
                w,
            ))
    // The components of the roots are returned.
    &&& forall|t: SccId| #[trigger]
        found.contains(t) <==> exists|r: Node| #[trigger] roots.contains(r) && scc2[r] == t
}

/// One step through the components in topological order.
pub enum SccEvent<Node> {
    /// The members of this component came before this event.
    Next {
        /// The number of the component.
        this: SccId,
        /// Components that edges of the members lead to.
        out_edges: KeySet<SccId>,
        /// Whether an edge of a member leads to a marked vertex.
        marked_for_main: bool,
    },
    /// A vertex of the component whose event comes next.
    Member {
        /// The vertex.
        node: Node,
    },
}

/// The components that searches have found so far.
pub struct TarjanSccResult<Node> {
    /// All vertices, in the order of their discovery. The component of a vertex has the number of
    /// its first discovered member, counted from one.
    discovered: Vec<Node>,
    /// The component of each explored vertex.
    fully_explored: KeyMap<Node, SccId>,
    /// The components, each after those that its edges lead to.
    topological_sort: Vec<Component<Node>>,
}

impl<Node: NodeKey> TarjanSccResult<Node> {
    /// The component of each explored vertex.
    pub closed spec fn scc(&self) -> Map<Node, SccId> {
        self.fully_explored@
    }

    /// The components in topological order.
    pub closed spec fn comps(&self) -> Seq<Component<Node>> {
        self.topological_sort@
    }

    /// The state is one that searches lead to.
    pub closed spec fn wf(&self) -> bool {
        &&& self.discovered@.no_duplicates()
        &&& forall|v: Node| #[trigger]
            self.discovered@.contains(v) <==> self.scc().contains_key(v)
        &&& components_wf(self.scc(), self.comps())
        &&& forall|k: int|
            0 <= k < self.comps().len() ==> 1 <= (#[trigger] self.comps()[k]).this
                <= self.discovered@.len() && self.comps()[k].members@.contains(
                self.discovered@[self.comps()[k].this - 1],
            )
    }

    /// The components are the classes of the explored vertices, and their numbers start at one.
    pub proof fn lemma_wf(&self)
        requires
            self.wf(),
        ensures
            components_wf(self.scc(), self.comps()),
            forall|k: int| 0 <= k < self.comps().len() ==> 1 <= (#[trigger] self.comps()[k]).this,
    {
    }

    /// Nothing is explored yet.
    pub fn new() -> (result: Self)
        ensures
            result.wf(),
            result.scc() == Map::<Node, SccId>::empty(),
            result.comps() == Seq::<Component<Node>>::empty(),
    {
        TarjanSccResult {
            discovered: Vec::new(),
            fully_explored: KeyMap::new(),
            topological_sort: Vec::new(),
        }
    }

    /// The component of a vertex, if the vertex is explored.
    pub fn scc_of(&self, vertex: &Node) -> (id: Option<SccId>)
        ensures
            match id {
                Some(id) => self.scc().contains_key(*vertex) && id == self.scc()[*vertex],
                None => !self.scc().contains_key(*vertex),
            },
    {
        match self.fully_explored.get(vertex) {
            Some(id) => Some(*id),
            None => None,
        }
    }

    /// All explored vertices, each once, in the order of their discovery.
    pub fn explored(&self) -> (vertices: &Vec<Node>)
        requires
            self.wf(),
        ensures
            vertices@.no_duplicates(),
            forall|v: Node| #[trigger] vertices@.contains(v) <==> self.scc().contains_key(v),
    {
        &self.discovered
    }

    /// Explores all that is reachable from `roots`, and returns the components of the roots.
    ///
    /// What was explored before is left as it is, and edges that lead there are not followed.
    pub fn explore(
        &mut self,
        roots: &[Node],
        graph: &Graph<Node>,
        wbg_in_main: &KeySet<Node>,
    ) -> (found: KeySet<SccId>)
        requires
            old(self).wf(),
        ensures
            final(self).wf(),
            explores(
                old(self).scc(),
                old(self).comps(),
                final(self).scc(),
                final(self).comps(),
                roots@.to_set(),
                graph@,
                wbg_in_main@,
                found@,
            ),
    {
        let ghost scc0 = self.scc();
        let ghost comps0 = self.comps();
        let mut result = TarjanSccResult::new();
        std::mem::swap(self, &mut result);
        let mut state = TarjanState::new(result, graph, wbg_in_main);
        assert(state.search().comps.take(comps0.len() as int) == comps0);
        for i in 0..roots.len()
            invariant
                state.search().inv(),
                state.search().work.len() == 0,
                state.search().graph == graph@,
                state.search().marks == wbg_in_main@,
                state.search().earlier == scc0,
                state.search().base == comps0.len(),
                state.search().roots == roots@.take(i as int).to_set(),
                forall|j: int|
                    0 <= j < i ==> state.search().done.contains_key(#[trigger] roots@[j]),
                comps0.len() <= state.search().comps.len(),
                state.search().comps.take(comps0.len() as int) == comps0,
                forall|t: SccId| #[trigger]
                    state.explore_root.out_edges@.contains(t) <==> exists|j: int|
                        0 <= j < i && state.search().done[#[trigger] roots@[j]] == t,
        {
            let ghost s = state.search();
            let ghost out0 = state.explore_root.out_edges@;
            state.connect(roots[i]);
            proof {
                let t = state.search();
                let s1 = Search { roots: s.roots.insert(roots@[i as int]), ..s };
                lemma_take_to_set(roots@, i as int);
                assert forall|v: Node| #[trigger] s.done.contains_key(v) implies t.done.contains_key(v)
                    && t.done[v] == s.done[v] by {
                    assert(s1.done.contains_key(v));
                }
                assert forall|j: int| 0 <= j < i implies s.done.contains_key(#[trigger] roots@[j])
                    && t.done[roots@[j]] == s.done[roots@[j]] by {}
                assert forall|j: int| 0 <= j < comps0.len() implies t.comps[j] == comps0[j] by {
                    assert(t.comps.take(s.comps.len() as int)[j] == s.comps[j]);
                    assert(s.comps.take(comps0.len() as int)[j] == comps0[j]);
                }
                assert(t.comps.take(comps0.len() as int) =~= comps0);
                assert forall|c: SccId| #[trigger]
                    state.explore_root.out_edges@.contains(c) <==> exists|j: int|
                        0 <= j < i + 1 && t.done[#[trigger] roots@[j]] == c by {
                    if out0.contains(c) {
                        let j = choose|j: int| 0 <= j < i && s.done[#[trigger] roots@[j]] == c;
                        assert(t.done[roots@[j]] == c);
                    }
                    if t.done[roots@[i as int]] == c {
                        assert(state.explore_root.out_edges@.contains(c));
                    }
                    if exists|j: int| 0 <= j < i + 1 && t.done[#[trigger] roots@[j]] == c {
                        let j = choose|j: int| 0 <= j < i + 1 && t.done[#[trigger] roots@[j]] == c;
                        if j < i {
                            assert(s.done[roots@[j]] == c);
                        }
                    }
                }
            }
        }
        let ghost t = state.search();
        let found = state.explore_root.out_edges;
        *self = state.result;
        proof {
            assert(roots@.take(roots@.len() as int) == roots@);
            assert(t.roots == roots@.to_set());
            assert forall|r: Node| t.roots.contains(r) implies #[trigger] t.done.contains_key(r) by {
                let j = choose|j: int| 0 <= j < roots@.len() && roots@[j] == r;
                assert(t.done.contains_key(roots@[j]));
            }
            lemma_explored(t);
            assert forall|c: SccId| #[trigger] found@.contains(c) <==> exists|r: Node| #[trigger]
                roots@.to_set().contains(r) && t.done[r] == c by {
                if found@.contains(c) {
                    let j = choose|j: int| 0 <= j < roots@.len() && t.done[#[trigger] roots@[j]] == c;
                    assert(roots@.to_set().contains(roots@[j]));
                }
                if exists|r: Node| #[trigger] roots@.to_set().contains(r) && t.done[r] == c {
                    let r = choose|r: Node| #[trigger]
                        roots@.to_set().contains(r) && t.done[r] == c;
                    let j = choose|j: int| 0 <= j < roots@.len() && roots@[j] == r;
                    assert(t.done[roots@[j]] == c);
                }
            }
            reveal(Search::inv_shape);
            reveal(Search::inv_earlier);
            reveal(Search::inv_comps);
        }
        found
    }

    /// The components in topological order: the members of each, and what is known of it.
    pub fn into_topsort(self) -> (events: Vec<SccEvent<Node>>)
        ensures
            events@ == events_of(self.comps()),
    {
        let mut events: Vec<SccEvent<Node>> = Vec::new();
        let comps = self.topological_sort;
        let ghost all = comps@;
        for c in it: comps
            invariant
                it.seq() == all,
                events@ == events_of(all.take(it.index())),
        {
            let ghost events0 = events@;
            let ghost members = c.members@;
            for i in 0..c.members.len()
                invariant
                    members == c.members@,
                    events@ == events0 + members_of(members.take(i as int)),
            {
                events.push(SccEvent::Member { node: c.members[i] });
                proof {
                    assert(members_of(members.take(i + 1)) == members_of(
                        members.take(i as int),
                    ).push(SccEvent::Member { node: members[i as int] }));
                }
            }
            assert(members.take(members.len() as int) == members);
            events.push(
                SccEvent::Next {
                    this: c.this,
                    out_edges: c.out_edges,
                    marked_for_main: c.marked_for_main,
                },
            );
            assert(all.take(it.index() + 1).drop_last() == all.take(it.index()));
            assert(all.take(it.index() + 1).last() == c);
        }
        assert(all.take(all.len() as int) == all);
        events
    }
}

/// One event for each vertex.
pub open spec fn members_of<Node>(members: Seq<Node>) -> Seq<SccEvent<Node>> {
    Seq::new(members.len(), |i: int| SccEvent::Member { node: members[i] })
}

/// The events of components in topological order.
pub open spec fn events_of<Node>(comps: Seq<Component<Node>>) -> Seq<SccEvent<Node>>
    decreases comps.len(),
{
    if comps.len() == 0 {
        Seq::empty()
    } else {
        let c = comps.last();
        (events_of(comps.drop_last()) + members_of(c.members@)).push(
            SccEvent::Next {
                this: c.this,
                out_edges: c.out_edges,
                marked_for_main: c.marked_for_main,
            },
        )
    }
}

/// What holds when a search is over.
proof fn lemma_explored<Node: NodeKey>(s: Search<Node>)
    requires
        s.inv(),
        s.work.len() == 0,
        forall|r: Node| s.roots.contains(r) ==> #[trigger] s.done.contains_key(r),
    ensures
        forall|v: Node| #[trigger]
            s.done.contains_key(v) <==> (s.earlier.contains_key(v) || exists|r: Node|
                s.roots.contains(r) && !s.earlier.contains_key(r) && #[trigger] reach(
                    s.edges(),
                    r,
                    v,
                )),
        forall|u: Node, v: Node|
            #![trigger s.done[u], s.done[v]]
            s.done.contains_key(u) && s.done.contains_key(v) && !s.earlier.contains_key(u)
                && !s.earlier.contains_key(v) ==> (s.done[u] == s.done[v] <==> reach(
                s.edges(),
                u,
                v,
            ) && reach(s.edges(), v, u)),
        forall|v: Node| #[trigger] s.discovered.contains(v) <==> s.done.contains_key(v),
{
    assert forall|v: Node| #[trigger] s.discovered.contains(v) <==> s.done.contains_key(v) by {
        reveal(Search::inv_shape);
        assert(s.states.contains_key(v) <==> s.stack.contains(v));
    }
    assert forall|v: Node| #[trigger] s.done.contains_key(v) <==> (s.earlier.contains_key(v)
        || exists|r: Node|
        s.roots.contains(r) && !s.earlier.contains_key(r) && #[trigger] reach(
            s.edges(),
            r,
            v,
        )) by {
        reveal(Search::inv_roots);
        if s.done.contains_key(v) {
            assert(s.discovered.contains(v));
        }
        if s.earlier.contains_key(v) {
            reveal(Search::inv_earlier);
        }
        if exists|r: Node|
            s.roots.contains(r) && !s.earlier.contains_key(r) && #[trigger] reach(
                s.edges(),
                r,
                v,
            ) {
            let r = choose|r: Node|
                s.roots.contains(r) && !s.earlier.contains_key(r) && #[trigger] reach(
                    s.edges(),
                    r,
                    v,
                );
            assert(s.done.contains_key(r));
            lemma_done_closed(s, r, v);
        }
    }
    assert forall|u: Node, v: Node|
        #![trigger s.done[u], s.done[v]]
        s.done.contains_key(u) && s.done.contains_key(v) && !s.earlier.contains_key(u)
            && !s.earlier.contains_key(v) implies (s.done[u] == s.done[v] <==> reach(
        s.edges(),
        u,
        v,
    ) && reach(s.edges(), v, u)) by {
        lemma_same_component(s, u, v);
    }
}

/// A search that is under way.
#[verifier::reject_recursive_types(Node)]
struct TarjanState<'r, Node> {
    result: TarjanSccResult<Node>,
    graph: &'r Graph<Node>,
    wbg_in_main: &'r KeySet<Node>,
    explore_root: VertexState,
    stack: Vec<Node>,
    vertex_state: KeyMap<Node, VertexState>,
    work: Vec<WorkItem<Node>>,
    earlier: Ghost<Map<Node, SccId>>,
    base: Ghost<int>,
    roots: Ghost<Set<Node>>,
}

impl VertexState {
    /// The state of a vertex with the number `link` of which nothing is known yet.
    fn new(link: SccId) -> (state: Self)
        ensures
            state.link == link,
            state.lowlink == link,
            state.out_edges@ == Set::<SccId>::empty(),
            !state.marked_for_main,
    {
        VertexState { link, lowlink: link, out_edges: KeySet::new(), marked_for_main: false }
    }
}

impl<'r, Node: NodeKey> TarjanState<'r, Node> {
    /// A snapshot of this state.
    spec fn search(&self) -> Search<Node> {
        Search {
            graph: self.graph@,
            marks: self.wbg_in_main@,
            earlier: self.earlier@,
            base: self.base@,
            roots: self.roots@,
            discovered: self.result.discovered@,
            done: self.result.fully_explored@,
            comps: self.result.topological_sort@,
            stack: self.stack@,
            states: self.vertex_state@,
            work: self.work@,
        }
    }

    /// Starts a search.
    fn new(
        result: TarjanSccResult<Node>,
        graph: &'r Graph<Node>,
        wbg_in_main: &'r KeySet<Node>,
    ) -> (state: Self)
        requires
            result.wf(),
        ensures
            state.search().inv(),
            state.search().work.len() == 0,
            state.search().graph == graph@,
            state.search().marks == wbg_in_main@,
            state.search().earlier == result.scc(),
            state.search().base == result.comps().len(),
            state.search().roots == Set::<Node>::empty(),
            state.search().done == result.scc(),
            state.search().comps == result.comps(),
            state.explore_root.out_edges@ == Set::<SccId>::empty(),
    {
        let ghost earlier = result.scc();
        let ghost base = result.comps().len() as int;
        let state = TarjanState {
            result,
            graph,
            wbg_in_main,
            explore_root: VertexState::new(0),
            stack: Vec::new(),
            vertex_state: KeyMap::new(),
            work: Vec::new(),
            earlier: Ghost(earlier),
            base: Ghost(base),
            roots: Ghost(Set::empty()),
        };
        proof {
            reveal(Search::inv_shape);
            reveal(Search::inv_earlier);
            reveal(Search::inv_reach);
            reveal(Search::inv_low);
            reveal(Search::inv_edges);
            reveal(Search::inv_out);
            reveal(Search::inv_comps);
            reveal(Search::inv_roots);
        }
        state
    }

    /// Whether a vertex is not discovered yet.
    fn should_explore(&self, vertex: &Node) -> (should: bool)
        ensures
            should == (!self.search().done.contains_key(*vertex)
                && !self.search().states.contains_key(*vertex)),
    {
        self.result.scc_of(vertex).is_none() && !self.vertex_state.contains_key(vertex)
    }

    /// Puts a vertex on the stack and at the end of the path.
    fn explore(&mut self, vertex: Node, before: Ghost<Search<Node>>)
        requires
            before@.inv(),
            !before@.discovered.contains(vertex),
            takes(before@, old(self).search(), vertex),
        ensures
            final(self).search().inv(),
            discovers(before@, final(self).search(), vertex),
            final(self).explore_root == old(self).explore_root,
    {
        let ghost start = self.search();
        self.result.discovered.push(vertex);
        let scc: SccId = self.result.discovered.len();
        let mut v_state = VertexState::new(scc);
        let mut pending: Vec<Node> = Vec::new();
        self.stack.push(vertex);
        if let Some(deps) = self.graph.get(&vertex) {
            if !self.wbg_in_main.is_disjoint(deps) {
                v_state.marked_for_main = true;
            }
            let neighbors = deps.to_vec();
            for i in 0..neighbors.len()
                invariant
                    self.vertex_state@ == start.states,
                    self.result.fully_explored@ == start.done,
                    before@.states == start.states,
                    before@.done == start.done,
                    before@.discovered == start.discovered,
                    before@.inv_low(),
                    before@.inv_shape(),
                    scc == start.discovered.len() + 1,
                    v_state.link == scc,
                    1 <= v_state.lowlink <= scc,
                    v_state.lowlink == scc || exists|j: int|
                        0 <= j < i && start.states.contains_key(#[trigger] neighbors@[j])
                            && start.states[neighbors@[j]].lowlink == v_state.lowlink,
                    forall|j: int|
                        0 <= j < i && start.states.contains_key(#[trigger] neighbors@[j])
                            ==> v_state.lowlink <= start.states[neighbors@[j]].lowlink,
                    forall|j: int|
                        0 <= j < i && start.done.contains_key(#[trigger] neighbors@[j])
                            ==> v_state.out_edges@.contains(start.done[neighbors@[j]]),
                    forall|c: SccId| #[trigger]
                        v_state.out_edges@.contains(c) ==> exists|j: int|
                            0 <= j < i && start.done.contains_key(#[trigger] neighbors@[j])
                                && start.done[neighbors@[j]] == c,
                    v_state.marked_for_main == !self.wbg_in_main@.disjoint(deps@),
                    forall|j: int|
                        0 <= j < i && !start.done.contains_key(#[trigger] neighbors@[j])
                            && !start.states.contains_key(neighbors@[j]) ==> pending@.contains(
                            neighbors@[j],
                        ),
                    forall|k: int|
                        0 <= k < pending@.len() ==> neighbors@.contains(#[trigger] pending@[k])
                            && !start.done.contains_key(pending@[k])
                            && !start.states.contains_key(pending@[k]),
            {
                let neighbor = neighbors[i];
                let ghost pending0 = pending@;
                proof {
                    reveal(Search::inv_low);
                    reveal(Search::inv_shape);
                    assert(before@.low_right(neighbor));
                }
                if let Some(state) = self.vertex_state.get(&neighbor) {
                    if state.lowlink < v_state.lowlink {
                        v_state.lowlink = state.lowlink;
                    }
                } else if let Some(to_scc) = self.result.scc_of(&neighbor) {
                    v_state.out_edges.insert(to_scc);
                } else {
                    pending.push(neighbor);
                    proof {
                        assert(pending@.last() == neighbor);
                        assert forall|j: int|
                            0 <= j < i && !start.done.contains_key(#[trigger] neighbors@[j])
                                && !start.states.contains_key(
                                neighbors@[j],
                            ) implies pending@.contains(neighbors@[j]) by {
                            let k = choose|k: int|
                                0 <= k < pending0.len() && pending0[k] == neighbors@[j];
                            assert(pending@[k] == neighbors@[j]);
                        }
                    }
                }
            }
            proof {
                assert forall|w: Node| #[trigger] has_edge(self.graph@, vertex, w) implies exists|
                    j: int,
                | 0 <= j < neighbors@.len() && neighbors@[j] == w by {
                    assert(neighbors@.to_set().contains(w));
                }
                assert forall|j: int| 0 <= j < neighbors@.len() implies has_edge(
                    self.graph@,
                    vertex,
                    #[trigger] neighbors@[j],
                ) by {
                    assert(neighbors@.to_set().contains(neighbors@[j]));
                }
                assert forall|k: int| 0 <= k < pending@.len() implies has_edge(
                    self.graph@,
                    vertex,
                    #[trigger] pending@[k],
                ) by {
                    let j = choose|j: int| 0 <= j < neighbors@.len() && neighbors@[j] == pending@[k];
                    assert(neighbors@[j] == pending@[k]);
                }
            }
        }
        self.vertex_state.insert(vertex, v_state);
        self.work.push(WorkItem { vertex, link: scc, pending });
        proof {
            let after = self.search();
            reveal(Search::inv_shape);
            assert(after.work.drop_last() == start.work);
            assert forall|i: int| 0 <= i < start.work.len() implies same_item(
                before@.work[i],
                #[trigger] after.work[i],
            ) && (i < start.work.len() - 1 ==> after.work[i].pending@
                == before@.work[i].pending@) by {
                assert(after.work[i] == start.work[i]);
                if i < start.work.len() - 1 && before@.work.len() > 0 {
                    assert(start.work.drop_last()[i] == before@.work.drop_last()[i]);
                }
            }
            assert(after.states == before@.states.insert(vertex, after.states[vertex]));
            assert forall|w: Node| #[trigger]
                after.work[start.work.len() as int].pending@.contains(w) <==> has_edge(
                    before@.graph,
                    vertex,
                    w,
                ) && !before@.discovered.contains(w) by {
                assert(before@.discovered.contains(w) <==> (before@.done.contains_key(w)
                    || before@.states.contains_key(w)));
            }
            assert(discovers(before@, after, vertex));
            lemma_discover(before@, after, vertex);
        }
    }

    /// Takes the vertices from `vertex` on off the stack and makes them a component.
    fn form(&mut self, vertex: Node, link: SccId, before: Ghost<Search<Node>>)
        requires
            before@.inv(),
            can_complete(before@),
            before@ == with_end(old(self).search(), before@.work.last()),
            vertex == before@.work.last().vertex,
            link == before@.work.last().link,
        ensures
            formed(before@, final(self).search()),
            final(self).explore_root == old(self).explore_root,
    {
        let ghost s = before@;
        let ghost at: int = arbitrary();
        proof {
            reveal(Search::inv_shape);
            assert(s.states.contains_key(s.work[s.work.len() - 1].vertex));
            at = choose|i: int| 0 <= i < s.stack.len() && s.stack[i] == vertex;
            assert(s.work.drop_last() == self.work@);
            lemma_pop_start(s, self.search());
        }
        let mut members: Vec<Node> = Vec::new();
        let mut out_edges: KeySet<SccId> = KeySet::new();
        let mut marked_for_main = false;
        let mut finished = false;
        while !finished
            invariant
                s.inv_shape(),
                s.work.len() > 0,
                self.explore_root == old(self).explore_root,
                0 <= at < s.stack.len(),
                s.states[s.stack[at]].link == link,
                link == s.work.last().link,
                finished ==> self.stack@.len() == at,
                !finished ==> at < self.stack@.len(),
                pops(s, self.search(), members@, out_edges@, marked_for_main),
            decreases self.stack@.len(),
        {
            let ghost t = self.search();
            if let Some(w) = self.stack.pop() {
                proof {
                    lemma_pop_state(s, t, members@, out_edges@, marked_for_main);
                }
                if let Some(stack_state) = self.vertex_state.remove(&w) {
                    let ghost members0 = members@;
                    let ghost out0 = out_edges@;
                    let ghost marked0 = marked_for_main;
                    out_edges.extend(&stack_state.out_edges);
                    marked_for_main = marked_for_main || stack_state.marked_for_main;
                    members.push(w);
                    self.result.fully_explored.insert(w, link);
                    finished = stack_state.link == link;
                    proof {
                        lemma_pop(s, t, self.search(), members0, out0, marked0);
                        lemma_pop_at(s, t, members0, out0, marked0, at);
                    }
                }
            }
        }
        let component = Component { members, this: link, out_edges, marked_for_main };
        proof {
            lemma_pop_end(s, self.search(), component, at);
        }
        self.result.topological_sort.push(component);
    }

    /// Ends the work on the vertex that was at the end of the path.
    fn pop(&mut self, item: WorkItem<Node>)
        requires
            with_end(old(self).search(), item).inv(),
            item.pending@.len() == 0,
        ensures
            final(self).search().inv(),
            grows(old(self).search(), final(self).search()),
            final(self).search().discovered == old(self).search().discovered,
            final(self).search().work == old(self).search().work,
            old(self).search().work.len() > 0 ==> final(self).explore_root.out_edges@
                == old(self).explore_root.out_edges@,
            old(self).search().work.len() == 0 ==> {
                &&& final(self).search().done.contains_key(item.vertex)
                &&& final(self).explore_root.out_edges@ == old(self).explore_root.out_edges@.insert(
                    final(self).search().done[item.vertex],
                )
            },
    {
        let ghost s = with_end(self.search(), item);
        let ghost k = s.work.len() - 1;
        let vertex = item.vertex;
        let link: SccId = item.link;
        proof {
            reveal(Search::inv_shape);
            reveal(Search::inv_low);
            assert(s.low_right(item.vertex));
            assert(s.work.last() == item);
            assert(s.states.contains_key(s.work[k].vertex));
            assert(s.work.drop_last() == self.search().work);
        }
        let lowlink: SccId = match self.vertex_state.get(&vertex) {
            Some(state) => state.lowlink,
            None => link,
        };
        let defines_new_scc = link == lowlink;
        if defines_new_scc {
            self.form(vertex, link, Ghost(s));
        }
        let ghost mid = self.search();
        let path: usize = self.work.len();
        if path > 0 {
            let parent = self.work[path - 1].vertex;
            proof {
                reveal(Search::inv_shape);
                assert(s.work[k - 1] == self.work@[k - 1]);
                assert(s.states.contains_key(s.work[k - 1].vertex));
                assert(s.work[k - 1].link < s.work[k].link);
                assert(!at_top(s, parent));
                assert(mid.states.contains_key(parent));
                assert(mid.states[parent] == s.states[parent]);
            }
            if let Some(mut par_state) = self.vertex_state.remove(&parent) {
                if defines_new_scc {
                    par_state.out_edges.insert(lowlink);
                } else if lowlink < par_state.lowlink {
                    par_state.lowlink = lowlink;
                }
                self.vertex_state.insert(parent, par_state);
            }
        } else if defines_new_scc {
            self.explore_root.out_edges.insert(lowlink);
        }
        proof {
            let t = self.search();
            if defines_new_scc {
                assert(t.done == mid.done && t.stack == mid.stack && t.comps == mid.comps);
                assert(path > 0 ==> t.states == mid.states.insert(
                    s.work[k - 1].vertex,
                    t.states[s.work[k - 1].vertex],
                ));
                assert(completes(s, t));
                lemma_complete(s, t);
                assert(grows(s, t)) by {
                    reveal(Search::inv_shape);
                    assert(t.comps.take(s.comps.len() as int) == s.comps);
                }
                assert(at_top(s, vertex));
            } else {
                lemma_merge_has_parent(s);
                assert(t.states == s.states.insert(
                    s.work[k - 1].vertex,
                    t.states[s.work[k - 1].vertex],
                ));
                assert(merges(s, t));
                lemma_merge(s, t);
                assert(t.comps.take(s.comps.len() as int) == s.comps);
            }
        }
    }

    /// Explores what is reachable from the root at which the path starts.
    fn drain_work(&mut self)
        requires
            old(self).search().inv(),
            old(self).search().work.len() == 1,
        ensures
            final(self).search().inv(),
            final(self).search().work.len() == 0,
            grows(old(self).search(), final(self).search()),
            final(self).search().done.contains_key(old(self).search().work[0].vertex),
            final(self).explore_root.out_edges@ == old(self).explore_root.out_edges@.insert(
                final(self).search().done[old(self).search().work[0].vertex],
            ),
    {
        let ghost start = self.search();
        let ghost root = start.work[0].vertex;
        assert(start.comps.take(start.comps.len() as int) == start.comps);
        while self.work.len() > 0
            invariant
                start == old(self).search(),
                self.search().inv(),
                grows(start, self.search()),
                self.search().work.len() > 0 ==> self.search().work[0].vertex == root
                    && self.explore_root.out_edges@ == old(self).explore_root.out_edges@,
                self.search().work.len() == 0 ==> self.search().done.contains_key(root)
                    && self.explore_root.out_edges@ == old(self).explore_root.out_edges@.insert(
                    self.search().done[root],
                ),
            decreases usize::MAX - self.search().discovered.len(), todo(self.search().work),
        {
            let ghost s = self.search();
            if let Some(mut item) = self.work.pop() {
                assert(self.work@ == s.work.drop_last());
                if item.pending.len() == 0 {
                    assert(with_end(self.search(), item).work == s.work);
                    self.pop(item);
                    proof {
                        let t = self.search();
                        assert(t.comps.take(start.comps.len() as int) =~= start.comps) by {
                            assert(s.comps.take(start.comps.len() as int) == start.comps);
                            assert forall|i: int| 0 <= i < start.comps.len() implies t.comps[i]
                                == start.comps[i] by {
                                assert(t.comps.take(s.comps.len() as int)[i] == s.comps[i]);
                                assert(s.comps.take(start.comps.len() as int)[i] == start.comps[i]);
                            }
                        }
                        assert(s.work.len() > 1 ==> t.work[0] == s.work[0]);
                    }
                } else if let Some(neighbor) = item.pending.pop() {
                    self.work.push(item);
                    let ghost t = self.search();
                    assert(t.work.drop_last() == s.work.drop_last());
                    assert(skips(s, t));
                    proof {
                        reveal(Search::inv_shape);
                        assert(s.discovered.contains(neighbor) <==> (s.done.contains_key(neighbor)
                            || s.states.contains_key(neighbor)));
                    }
                    if self.should_explore(&neighbor) {
                        self.explore(neighbor, Ghost(s));
                        assert(self.result.discovered.len() <= usize::MAX);
                        assert(same_item(s.work[0], self.search().work[0]));
                    } else {
                        proof {
                            lemma_skip(s, t);
                            if s.work.len() > 1 {
                                assert(t.work.drop_last()[0] == s.work.drop_last()[0]);
                            }
                        }
                    }
                }
            }
        }
    }

    /// Explores what is reachable from a root.
    fn connect(&mut self, vertex: Node)
        requires
            old(self).search().inv(),
            old(self).search().work.len() == 0,
        ensures
            final(self).search().inv(),
            final(self).search().work.len() == 0,
            grows(
                Search {
                    roots: old(self).search().roots.insert(vertex),
                    ..old(self).search()
                },
                final(self).search(),
            ),
            final(self).search().done.contains_key(vertex),
            final(self).explore_root.out_edges@ == old(self).explore_root.out_edges@.insert(
                final(self).search().done[vertex],
            ),
    {
        proof {
            lemma_add_root(self.search(), vertex);
        }
        self.roots = Ghost(self.roots@.insert(vertex));
        let ghost s = self.search();
        assert(s.comps.take(s.comps.len() as int) == s.comps);
        if let Some(scc) = self.result.scc_of(&vertex) {
            self.explore_root.out_edges.insert(scc);
            return;
        }
        proof {
            reveal(Search::inv_shape);
            assert(s.discovered.contains(vertex) <==> (s.done.contains_key(vertex)
                || s.states.contains_key(vertex)));
            assert(s.states.contains_key(vertex) <==> s.stack.contains(vertex));
        }
        self.explore(vertex, Ghost(s));
        self.drain_work();
    }
}

/// How many steps are left on a path.
spec fn todo<Node: NodeKey>(work: Seq<WorkItem<Node>>) -> nat
    decreases work.len(),
{
    if work.len() == 0 {
        0
    } else {
        todo(work.drop_last()) + work.last().pending@.len() + 1
    }
}

/// `t` comes after `s` in a search: what is explored stays as it is.
spec fn grows<Node: NodeKey>(s: Search<Node>, t: Search<Node>) -> bool {
    &&& same_task(s, t)
    &&& forall|v: Node| #[trigger]
        s.done.contains_key(v) ==> t.done.contains_key(v) && t.done[v] == s.done[v]
    &&& s.comps.len() <= t.comps.len()
    &&& t.comps.take(s.comps.len() as int) == s.comps
}

/// The search `t` with `item` put at the end of its path.
spec fn with_end<Node: NodeKey>(t: Search<Node>, item: WorkItem<Node>) -> Search<Node> {
    Search { work: t.work.push(item), ..t }
}

/// `t` is ready for the discovery of `v`, which is the last pending neighbor of the path's end in
/// `s`, or a root.
spec fn takes<Node: NodeKey>(s: Search<Node>, t: Search<Node>, v: Node) -> bool {
    if s.work.len() == 0 {
        t == s && s.roots.contains(v)
    } else {
        skips(s, t) && s.work.last().pending@.last() == v
    }
}

} // verus!
