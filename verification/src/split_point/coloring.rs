//! Which module each part of a program belongs into.
use crate::dep_graph::DepNode;
use crate::graph_utils::reach::reach;
use crate::graph_utils::settled::graph_edges;
use crate::graph_utils::tarjan_scc::has_edge;
use crate::keyed::KeySet;
use crate::split_point::identifier::{module_for, ModuleId};
use vstd::prelude::*;

verus! {

/// What decides into which module a part of the program goes.
pub ghost struct Coloring {
    /// The dependency graph.
    pub graph: Map<DepNode, KeySet<DepNode>>,
    /// Everything that depends on one of these goes into the main module.
    pub marks: Set<DepNode>,
    /// What the main module starts from.
    pub main_roots: Set<DepNode>,
    /// What the declared modules start from.
    pub split_roots: Set<(Seq<char>, DepNode)>,
}

impl Coloring {
    /// Whether `v` is needed, directly or not, for `u`.
    pub open spec fn depends(self, u: DepNode, v: DepNode) -> bool {
        reach(graph_edges(self.graph), u, v)
    }

    /// Whether some module starts from `r`.
    pub open spec fn is_root(self, r: DepNode) -> bool {
        self.main_roots.contains(r) || exists|name: Seq<char>| #[trigger]
            self.split_roots.contains((name, r))
    }

    /// Whether some module needs `v`.
    pub open spec fn reached(self, v: DepNode) -> bool {
        exists|r: DepNode| self.is_root(r) && #[trigger] self.depends(r, v)
    }

    /// Whether `u` depends directly on something marked.
    pub open spec fn touches_mark(self, u: DepNode) -> bool {
        exists|w: DepNode| #[trigger] has_edge(self.graph, u, w) && self.marks.contains(w)
    }

    /// Whether `v` goes into the main module: because the main module needs it, or because
    /// something that goes there for depending on a mark needs it.
    pub open spec fn in_main(self, v: DepNode) -> bool {
        exists|u: DepNode|
            (self.main_roots.contains(u) || (self.reached(u) && self.touches_mark(u)))
                && #[trigger] self.depends(u, v)
    }

    /// Whether the declared module `name` needs `v`.
    pub open spec fn needed_by(self, v: DepNode, name: Seq<char>) -> bool {
        exists|r: DepNode| self.split_roots.contains((name, r)) && #[trigger] self.depends(r, v)
    }

    /// The module that `v` goes into.
    pub open spec fn module_of(self, v: DepNode) -> ModuleId {
        if self.in_main(v) {
            ModuleId::Main
        } else {
            module_for(Set::new(|name: Seq<char>| self.needed_by(v, name)))
        }
    }
}

} // verus!
