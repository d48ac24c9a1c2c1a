//! Exploring the dependency graph from the roots of all modules.
use crate::dep_graph::{DepGraph, DepNode};
use crate::graph_utils::reach::{lemma_reach_refl, reach};
use crate::graph_utils::settled::{
    graph_edges, lemma_settled_empty, lemma_settled_explore, lemma_settled_reach, settled,
};
use crate::graph_utils::tarjan_scc::{
    comp_edges, components_wf, has_edge, in_prefix, Component, SccId, TarjanSccResult,
};
use crate::keyed::{KeyMap, KeySet};
use crate::split_point::coloring::Coloring;
use crate::split_point::identifier::{lemma_module_for_one, ModuleId, SplitModuleIdentifier};
use crate::split_point::painter::{
    all_wf, color_all, colored, entry, has_start, in_main, joined, marked, needed_by, nodes_of,
    paint, rooted, stands_for, starts_main, starts_name, DepGraphPainter,
};
use vstd::prelude::*;

verus! {

/// The exploration of the dependency graph, with the colors of the roots.
pub struct DepGraphAnalysis<'g> {
    dep_graph: &'g DepGraph,
    wbg_rooting_deps: &'g KeySet<DepNode>,
    scc_searcher: TarjanSccResult<DepNode>,
    scc_root_colors: KeyMap<SccId, SplitModuleIdentifier>,
    main_roots: Ghost<Set<DepNode>>,
    split_roots: Ghost<Set<(Seq<char>, DepNode)>>,
}

/// Whether component `t` holds a root of the main module.
spec fn main_root_in(c: Coloring, scc: Map<DepNode, SccId>, t: SccId) -> bool {
    exists|r: DepNode| #[trigger] c.main_roots.contains(r) && scc[r] == t
}

/// The declared modules that have a root in component `t`.
spec fn names_in(c: Coloring, scc: Map<DepNode, SccId>, t: SccId) -> Set<Seq<char>> {
    Set::new(
        |name: Seq<char>|
            exists|r: DepNode| #[trigger] c.split_roots.contains((name, r)) && scc[r] == t,
    )
}

/// Whether component `t` holds a root.
spec fn root_in(c: Coloring, scc: Map<DepNode, SccId>, t: SccId) -> bool {
    exists|r: DepNode| #[trigger] c.is_root(r) && scc[r] == t
}

/// The colors are those of the roots.
#[verifier::opaque]
spec fn colors_of_roots(
    c: Coloring,
    scc: Map<DepNode, SccId>,
    colors: Map<SccId, SplitModuleIdentifier>,
) -> bool {
    &&& forall|t: SccId| #[trigger] colors.contains_key(t) <==> root_in(c, scc, t)
    &&& forall|t: SccId| #[trigger]
        colors.contains_key(t) ==> stands_for(
            colors[t]@,
            main_root_in(c, scc, t),
            names_in(c, scc, t),
        )
}

/// What is reachable from the roots is explored.
spec fn explored(c: Coloring, scc: Map<DepNode, SccId>) -> bool {
    forall|v: DepNode| #[trigger] scc.contains_key(v) <==> c.reached(v)
}

/// The coloring with more roots for the module `id`.
pub open spec fn with_roots(c: Coloring, roots: Set<DepNode>, id: ModuleId) -> Coloring {
    match id {
        ModuleId::Main => Coloring { main_roots: c.main_roots.union(roots), ..c },
        ModuleId::Split(name) => Coloring {
            split_roots: c.split_roots.union(
                Set::new(|p: (Seq<char>, DepNode)| p.0 == name && roots.contains(p.1)),
            ),
            ..c
        },
        ModuleId::Chunk(_) => c,
    }
}

/// More roots reach what the old ones reach, and what the new ones reach.
proof fn lemma_more_reached(c: Coloring, roots: Set<DepNode>, id: ModuleId, v: DepNode)
    requires
        !(id is Chunk),
    ensures
        with_roots(c, roots, id).reached(v) <==> c.reached(v) || exists|r: DepNode|
            roots.contains(r) && #[trigger] reach(graph_edges(c.graph), r, v),
{
    let d = with_roots(c, roots, id);
    assert forall|r: DepNode| #[trigger] d.is_root(r) <==> c.is_root(r) || roots.contains(r) by {
        if c.is_root(r) && !c.main_roots.contains(r) {
            let n = choose|n: Seq<char>| #[trigger] c.split_roots.contains((n, r));
            assert(d.split_roots.contains((n, r)));
        }
        if let ModuleId::Split(name) = id {
            if roots.contains(r) {
                assert(d.split_roots.contains((name, r)));
            }
        }
        if d.is_root(r) && !d.main_roots.contains(r) {
            let n = choose|n: Seq<char>| #[trigger] d.split_roots.contains((n, r));
            assert(c.split_roots.contains((n, r)) || roots.contains(r));
        }
    }
    if d.reached(v) {
        let r = choose|r: DepNode| d.is_root(r) && #[trigger] d.depends(r, v);
        if c.is_root(r) {
            assert(c.depends(r, v));
        } else {
            assert(reach(graph_edges(c.graph), r, v));
        }
    }
    if c.reached(v) {
        let r = choose|r: DepNode| c.is_root(r) && #[trigger] c.depends(r, v);
        assert(d.is_root(r) && d.depends(r, v));
    }
    if exists|r: DepNode| roots.contains(r) && #[trigger] reach(graph_edges(c.graph), r, v) {
        let r = choose|r: DepNode|
            roots.contains(r) && #[trigger] reach(graph_edges(c.graph), r, v);
        assert(d.is_root(r) && d.depends(r, v));
    }
}

/// Coloring the components of new roots keeps the colors right.
proof fn lemma_color_roots(
    c: Coloring,
    scc: Map<DepNode, SccId>,
    colors: Map<SccId, SplitModuleIdentifier>,
    roots: Set<DepNode>,
    id: ModuleId,
    scc2: Map<DepNode, SccId>,
    colors2: Map<SccId, SplitModuleIdentifier>,
    found: Set<SccId>,
)
    requires
        !(id is Chunk),
        explored(c, scc),
        colors_of_roots(c, scc, colors),
        forall|v: DepNode| #[trigger]
            scc.contains_key(v) ==> scc2.contains_key(v) && scc2[v] == scc[v],
        forall|t: SccId| #[trigger]
            found.contains(t) <==> exists|r: DepNode| #[trigger]
                roots.contains(r) && scc2[r] == t,
        colored(colors, found, id, colors2),
    ensures
        colors_of_roots(with_roots(c, roots, id), scc2, colors2),
{
    reveal(colors_of_roots);
    let d = with_roots(c, roots, id);
    assert forall|r: DepNode| #[trigger] c.is_root(r) implies scc.contains_key(r) by {
        lemma_reach_refl(graph_edges(c.graph), r);
        assert(c.depends(r, r));
        assert(c.reached(r));
    }
    assert forall|t: SccId| #[trigger] root_in(d, scc2, t) <==> root_in(c, scc, t)
        || found.contains(t) by {
        if root_in(c, scc, t) {
            let r = choose|r: DepNode| #[trigger] c.is_root(r) && scc[r] == t;
            assert(scc.contains_key(r));
            if !c.main_roots.contains(r) {
                let n = choose|n: Seq<char>| #[trigger] c.split_roots.contains((n, r));
                assert(d.split_roots.contains((n, r)));
            }
            assert(d.is_root(r) && scc2[r] == t);
        }
        if found.contains(t) {
            let r = choose|r: DepNode| #[trigger] roots.contains(r) && scc2[r] == t;
            if let ModuleId::Split(name) = id {
                assert(d.split_roots.contains((name, r)));
            }
            assert(d.is_root(r) && scc2[r] == t);
        }
        if root_in(d, scc2, t) {
            let r = choose|r: DepNode| #[trigger] d.is_root(r) && scc2[r] == t;
            if roots.contains(r) {
                assert(found.contains(t));
            } else {
                if !d.main_roots.contains(r) {
                    let n = choose|n: Seq<char>| #[trigger] d.split_roots.contains((n, r));
                    assert(c.split_roots.contains((n, r)));
                }
                assert(c.is_root(r));
                assert(scc.contains_key(r));
            }
        }
    }
    assert forall|t: SccId| #[trigger] main_root_in(d, scc2, t) <==> main_root_in(c, scc, t) || (
    id is Main && found.contains(t)) by {
        if main_root_in(c, scc, t) {
            let r = choose|r: DepNode| #[trigger] c.main_roots.contains(r) && scc[r] == t;
            assert(c.is_root(r));
            assert(scc.contains_key(r));
            assert(d.main_roots.contains(r));
        }
        if id is Main && found.contains(t) {
            let r = choose|r: DepNode| #[trigger] roots.contains(r) && scc2[r] == t;
            assert(d.main_roots.contains(r));
        }
        if main_root_in(d, scc2, t) {
            let r = choose|r: DepNode| #[trigger] d.main_roots.contains(r) && scc2[r] == t;
            if c.main_roots.contains(r) {
                assert(c.is_root(r));
                assert(scc.contains_key(r));
            } else {
                assert(roots.contains(r));
            }
        }
    }
    assert forall|t: SccId, n: Seq<char>| #[trigger]
        names_in(d, scc2, t).contains(n) <==> names_in(c, scc, t).contains(n) || (id
            == ModuleId::Split(n) && found.contains(t)) by {
        if names_in(c, scc, t).contains(n) {
            let r = choose|r: DepNode| #[trigger] c.split_roots.contains((n, r)) && scc[r] == t;
            assert(c.is_root(r));
            assert(scc.contains_key(r));
            assert(d.split_roots.contains((n, r)));
        }
        if id == ModuleId::Split(n) && found.contains(t) {
            let r = choose|r: DepNode| #[trigger] roots.contains(r) && scc2[r] == t;
            assert(d.split_roots.contains((n, r)));
        }
        if names_in(d, scc2, t).contains(n) {
            let r = choose|r: DepNode| #[trigger] d.split_roots.contains((n, r)) && scc2[r] == t;
            if c.split_roots.contains((n, r)) {
                assert(c.is_root(r));
                assert(scc.contains_key(r));
            } else {
                assert(roots.contains(r));
            }
        }
    }
    assert forall|t: SccId| #[trigger] colors2.contains_key(t) implies stands_for(
        colors2[t]@,
        main_root_in(d, scc2, t),
        names_in(d, scc2, t),
    ) by {
        assert(root_in(d, scc2, t) <==> root_in(c, scc, t) || found.contains(t));
        if found.contains(t) {
            assert(joined(entry(colors, t), id, colors2[t]@));
            if colors.contains_key(t) {
                assert(names_in(d, scc2, t) =~= names_in(c, scc, t).union(id.names()));
            } else {
                assert(!root_in(c, scc, t));
                assert(names_in(c, scc, t) =~= Set::empty()) by {
                    assert forall|n: Seq<char>| !names_in(c, scc, t).contains(n) by {
                        if names_in(c, scc, t).contains(n) {
                            let r = choose|r: DepNode| #[trigger]
                                c.split_roots.contains((n, r)) && scc[r] == t;
                            assert(c.is_root(r));
                        }
                    }
                }
                assert(!main_root_in(c, scc, t)) by {
                    if main_root_in(c, scc, t) {
                        let r = choose|r: DepNode| #[trigger]
                            c.main_roots.contains(r) && scc[r] == t;
                        assert(c.is_root(r));
                    }
                }
                assert(names_in(d, scc2, t) =~= id.names());
                if let ModuleId::Split(name) = id {
                    lemma_module_for_one(name);
                }
            }
        } else {
            assert(colors2[t]@ == colors[t]@);
            assert(names_in(d, scc2, t) =~= names_in(c, scc, t));
        }
    }
    assert forall|t: SccId| #[trigger] colors2.contains_key(t) <==> root_in(d, scc2, t) by {
        assert(root_in(d, scc2, t) <==> root_in(c, scc, t) || found.contains(t));
    }
}

impl<'g> DepGraphAnalysis<'g> {
    /// What was asked for so far.
    pub closed spec fn coloring(&self) -> Coloring {
        Coloring {
            graph: self.dep_graph@,
            marks: self.wbg_rooting_deps@,
            main_roots: self.main_roots@,
            split_roots: self.split_roots@,
        }
    }

    /// The state is one that exploration leads to.
    pub closed spec fn wf(&self) -> bool {
        let scc = self.scc_searcher.scc();
        &&& self.scc_searcher.wf()
        &&& settled(scc, self.scc_searcher.comps(), self.dep_graph@, self.wbg_rooting_deps@)
        &&& all_wf(self.scc_root_colors@)
        &&& explored(self.coloring(), scc)
        &&& colors_of_roots(self.coloring(), scc, self.scc_root_colors@)
    }

    /// Nothing is explored yet.
    pub fn new(dep_graph: &'g DepGraph, wbg_rooting_deps: &'g KeySet<DepNode>) -> (analysis: Self)
        ensures
            analysis.wf(),
            analysis.coloring() == (Coloring {
                graph: dep_graph@,
                marks: wbg_rooting_deps@,
                main_roots: Set::empty(),
                split_roots: Set::empty(),
            }),
    {
        let analysis = DepGraphAnalysis {
            dep_graph,
            wbg_rooting_deps,
            scc_searcher: TarjanSccResult::new(),
            scc_root_colors: KeyMap::new(),
            main_roots: Ghost(Set::empty()),
            split_roots: Ghost(Set::empty()),
        };
        proof {
            lemma_settled_empty::<DepNode>(dep_graph@, wbg_rooting_deps@);
            reveal(colors_of_roots);
        }
        analysis
    }

    /// Explores all that the module with the given roots needs.
    pub fn explore(&mut self, roots: &KeySet<DepNode>, color: &SplitModuleIdentifier)
        requires
            old(self).wf(),
            !(color is Chunk),
        ensures
            final(self).wf(),
            final(self).coloring() == with_roots(old(self).coloring(), roots@, color@),
    {
        let ghost scc = self.scc_searcher.scc();
        let ghost comps = self.scc_searcher.comps();
        let ghost c = self.coloring();
        let ghost colors = self.scc_root_colors@;
        let list = roots.to_vec();
        let scc_roots = self.scc_searcher.explore(
            list.as_slice(),
            self.dep_graph,
            self.wbg_rooting_deps,
        );
        color_all(&mut self.scc_root_colors, &scc_roots, color);
        proof {
            let scc2 = self.scc_searcher.scc();
            let comps2 = self.scc_searcher.comps();
            let d = with_roots(c, roots@, color@);
            self.main_roots@ = d.main_roots;
            self.split_roots@ = d.split_roots;
            self.scc_searcher.lemma_wf();
            lemma_settled_explore(
                scc,
                comps,
                scc2,
                comps2,
                roots@,
                self.dep_graph@,
                self.wbg_rooting_deps@,
                scc_roots@,
            );
            assert forall|v: DepNode| #[trigger] scc2.contains_key(v) <==> d.reached(v) by {
                lemma_more_reached(c, roots@, color@, v);
                assert(scc.contains_key(v) <==> c.reached(v));
            }
            lemma_color_roots(
                c,
                scc,
                colors,
                roots@,
                color@,
                scc2,
                self.scc_root_colors@,
                scc_roots@,
            );
        }
    }

    /// Starts painting.
    pub fn into_painter(self) -> (painter: DepGraphPainter)
        requires
            self.wf(),
        ensures
            painter.wf(),
            painter.remaining().no_duplicates(),
            forall|v: DepNode| #[trigger]
                painter.remaining().contains(v) <==> self.coloring().reached(v),
            forall|v: DepNode| #[trigger]
                painter.scc().contains_key(v) ==> paint(
                    painter.start(),
                    painter.comps(),
                    painter.scc()[v],
                ) == self.coloring().module_of(v),
    {
        let ghost c = self.coloring();
        let ghost scc = self.scc_searcher.scc();
        let ghost comps = self.scc_searcher.comps();
        let ghost colors = self.scc_root_colors@;
        proof {
            self.scc_searcher.lemma_wf();
            lemma_rooted(c, scc, comps, colors);
            reveal(colors_of_roots);
            lemma_nodes(scc, comps);
            assert forall|v: DepNode| #[trigger] scc.contains_key(v) implies paint(
                colors,
                comps,
                scc[v],
            ) == c.module_of(v) by {
                lemma_paint(c, scc, comps, colors, v);
            }
        }
        let topsort = self.scc_searcher.into_topsort();
        DepGraphPainter::new(topsort, self.scc_root_colors, Ghost(scc), Ghost(comps))
    }
}

/// Every component can be reached from one with a root.
proof fn lemma_rooted(
    c: Coloring,
    scc: Map<DepNode, SccId>,
    comps: Seq<Component<DepNode>>,
    colors: Map<SccId, SplitModuleIdentifier>,
)
    requires
        settled(scc, comps, c.graph, c.marks),
        explored(c, scc),
        colors_of_roots(c, scc, colors),
    ensures
        rooted(colors, comps),
{
    reveal(colors_of_roots);
    assert forall|k: int| 0 <= k < comps.len() implies has_start(
        colors,
        comps,
        (#[trigger] comps[k]).this,
    ) by {
        let v = comps[k].members@[0];
        assert(comps[k].members@.contains(v));
        assert(scc.contains_key(v));
        let r = choose|r: DepNode| c.is_root(r) && #[trigger] c.depends(r, v);
        lemma_root_explored(c, scc, r);
        lemma_settled_reach(scc, comps, c.graph, c.marks, r, v);
        assert(root_in(c, scc, scc[r]));
        assert(colors.contains_key(scc[r]));
    }
}

/// Roots are explored.
proof fn lemma_root_explored(c: Coloring, scc: Map<DepNode, SccId>, r: DepNode)
    requires
        explored(c, scc),
        c.is_root(r),
    ensures
        scc.contains_key(r),
{
    lemma_reach_refl(graph_edges(c.graph), r);
    assert(c.depends(r, r));
    assert(c.reached(r));
}

/// The vertices of all components are the explored vertices, each once.
proof fn lemma_nodes(scc: Map<DepNode, SccId>, comps: Seq<Component<DepNode>>)
    requires
        components_wf(scc, comps),
    ensures
        nodes_of(comps).no_duplicates(),
        forall|v: DepNode| #[trigger] nodes_of(comps).contains(v) <==> scc.contains_key(v),
{
    lemma_nodes_prefix(scc, comps, comps.len() as int);
    assert(comps.take(comps.len() as int) =~= comps);
    assert forall|v: DepNode| #[trigger] nodes_of(comps).contains(v) <==> scc.contains_key(v) by {
        if scc.contains_key(v) {
            assert(in_prefix(comps, comps.len() - 1, v));
            let k = choose|k: int|
                0 <= k <= comps.len() - 1 && (#[trigger] comps[k]).members@.contains(v);
            assert(comps[k].members@.contains(v));
        }
        if nodes_of(comps).contains(v) {
            let k = choose|k: int|
                0 <= k < comps.len() && (#[trigger] comps[k]).members@.contains(v);
            assert(comps[k].members@.contains(v));
        }
    }
}

proof fn lemma_nodes_prefix(scc: Map<DepNode, SccId>, comps: Seq<Component<DepNode>>, n: int)
    requires
        components_wf(scc, comps),
        0 <= n <= comps.len(),
    ensures
        nodes_of(comps.take(n)).no_duplicates(),
        forall|v: DepNode| #[trigger]
            nodes_of(comps.take(n)).contains(v) <==> exists|k: int|
                0 <= k < n && (#[trigger] comps[k]).members@.contains(v),
    decreases n,
{
    if n > 0 {
        lemma_nodes_prefix(scc, comps, n - 1);
        let before = nodes_of(comps.take(n - 1));
        let last = comps[n - 1].members@;
        assert(comps.take(n).drop_last() =~= comps.take(n - 1));
        assert(comps.take(n).last() == comps[n - 1]);
        let all = nodes_of(comps.take(n));
        assert(all == before + last);
        assert forall|v: DepNode| #[trigger] all.contains(v) <==> before.contains(v)
            || last.contains(v) by {
            if before.contains(v) {
                let i = choose|i: int| 0 <= i < before.len() && before[i] == v;
                assert(all[i] == v);
            }
            if last.contains(v) {
                let i = choose|i: int| 0 <= i < last.len() && last[i] == v;
                assert(all[before.len() + i] == v);
            }
        }
        assert forall|v: DepNode| before.contains(v) && last.contains(v) implies false by {
            let k = choose|k: int|
                0 <= k < n - 1 && (#[trigger] comps[k]).members@.contains(v);
            assert(comps[k].members@.contains(v));
            assert(comps[n - 1].members@.contains(v));
            assert(comps[k].this != comps[n - 1].this);
        }
        assert(last.no_duplicates());
        assert forall|i: int, j: int|
            0 <= i < all.len() && 0 <= j < all.len() && i != j implies all[i] != all[j] by {
            let m = before.len() as int;
            if i < m && j < m {
                assert(before[i] != before[j]);
            } else if i >= m && j >= m {
                assert(last[i - m] != last[j - m]);
            } else if i < m {
                assert(before.contains(before[i]));
                assert(last.contains(last[j - m]));
            } else {
                assert(before.contains(before[j]));
                assert(last.contains(last[i - m]));
            }
        }
        assert forall|v: DepNode| #[trigger] all.contains(v) <==> exists|k: int|
            0 <= k < n && (#[trigger] comps[k]).members@.contains(v) by {
            if before.contains(v) {
                let k = choose|k: int|
                    0 <= k < n - 1 && (#[trigger] comps[k]).members@.contains(v);
                assert(comps[k].members@.contains(v));
            }
            if last.contains(v) {
                assert(comps[n - 1].members@.contains(v));
            }
            if exists|k: int| 0 <= k < n && (#[trigger] comps[k]).members@.contains(v) {
                let k = choose|k: int| 0 <= k < n && (#[trigger] comps[k]).members@.contains(v);
                if k < n - 1 {
                    assert(comps[k].members@.contains(v));
                    assert(before.contains(v));
                }
            }
        }
    }
}

/// The color of a component is the module of its members.
proof fn lemma_paint(
    c: Coloring,
    scc: Map<DepNode, SccId>,
    comps: Seq<Component<DepNode>>,
    colors: Map<SccId, SplitModuleIdentifier>,
    v: DepNode,
)
    requires
        settled(scc, comps, c.graph, c.marks),
        explored(c, scc),
        colors_of_roots(c, scc, colors),
        scc.contains_key(v),
    ensures
        paint(colors, comps, scc[v]) == c.module_of(v),
{
    reveal(colors_of_roots);
    let t = scc[v];
    let e = comp_edges(comps);
    assert(in_main(colors, comps, t) ==> c.in_main(v)) by {
        if in_main(colors, comps, t) {
            let s = choose|s: SccId|
                (starts_main(colors, s) || marked(comps, s)) && #[trigger] reach(e, s, t);
            if starts_main(colors, s) {
                let r = choose|r: DepNode| #[trigger] c.main_roots.contains(r) && scc[r] == s;
                assert(c.is_root(r));
                lemma_root_explored(c, scc, r);
                lemma_settled_reach(scc, comps, c.graph, c.marks, r, v);
                assert(c.depends(r, v));
            } else {
                let k = choose|k: int|
                    0 <= k < comps.len() && (#[trigger] comps[k]).this == s
                        && comps[k].marked_for_main;
                let (u, w) = choose|u: DepNode, w: DepNode|
                    comps[k].members@.contains(u) && #[trigger] has_edge(c.graph, u, w)
                        && c.marks.contains(w);
                assert(comps[k].members@.contains(u));
                assert(scc[u] == s);
                lemma_settled_reach(scc, comps, c.graph, c.marks, u, v);
                assert(c.touches_mark(u));
                assert(c.depends(u, v));
            }
        }
    }
    assert(c.in_main(v) ==> in_main(colors, comps, t)) by {
        if c.in_main(v) {
            let u = choose|u: DepNode|
                (c.main_roots.contains(u) || (c.reached(u) && c.touches_mark(u)))
                    && #[trigger] c.depends(u, v);
            if c.main_roots.contains(u) {
                assert(c.is_root(u));
                lemma_root_explored(c, scc, u);
                assert(main_root_in(c, scc, scc[u]));
                assert(root_in(c, scc, scc[u]));
                assert(colors.contains_key(scc[u]));
                assert(starts_main(colors, scc[u]));
            } else {
                assert(scc.contains_key(u));
                let w = choose|w: DepNode| #[trigger]
                    has_edge(c.graph, u, w) && c.marks.contains(w);
                assert(in_prefix(comps, comps.len() - 1, u));
                let k = choose|k: int|
                    0 <= k <= comps.len() - 1 && (#[trigger] comps[k]).members@.contains(u);
                assert(comps[k].members@.contains(u));
                assert(comps[k].marked_for_main);
                assert(marked(comps, scc[u]));
            }
            lemma_settled_reach(scc, comps, c.graph, c.marks, u, v);
            assert(reach(e, scc[u], t));
        }
    }
    if !c.in_main(v) {
        let a = Set::new(|name: Seq<char>| needed_by(colors, comps, t, name));
        let b = Set::new(|name: Seq<char>| c.needed_by(v, name));
        assert forall|n: Seq<char>| a.contains(n) implies b.contains(n) by {
            let s = choose|s: SccId| starts_name(colors, s, n) && #[trigger] reach(e, s, t);
            assert(colors.contains_key(s));
            assert(names_in(c, scc, s).contains(n));
            let r = choose|r: DepNode| #[trigger] c.split_roots.contains((n, r)) && scc[r] == s;
            assert(c.is_root(r));
            lemma_root_explored(c, scc, r);
            lemma_settled_reach(scc, comps, c.graph, c.marks, r, v);
            assert(c.depends(r, v));
        }
        assert forall|n: Seq<char>| b.contains(n) implies a.contains(n) by {
            let r = choose|r: DepNode|
                c.split_roots.contains((n, r)) && #[trigger] c.depends(r, v);
            assert(c.split_roots.contains((n, r)));
            assert(c.is_root(r));
            lemma_root_explored(c, scc, r);
            lemma_settled_reach(scc, comps, c.graph, c.marks, r, v);
            let s = scc[r];
            assert(root_in(c, scc, s));
            assert(colors.contains_key(s));
            assert(reach(e, s, t));
            assert(!starts_main(colors, s));
            assert(names_in(c, scc, s).contains(n));
            assert(starts_name(colors, s, n));
        }
        assert(a =~= b);
    }
}

} // verus!
