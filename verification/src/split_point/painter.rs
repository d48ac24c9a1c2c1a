//! Painting the components of the dependency graph with the modules that need them.
use crate::dep_graph::DepNode;
use crate::graph_utils::reach::{
    lemma_reach_last, lemma_reach_refl, lemma_reach_step, lemma_reach_trans, reach,
};
use crate::graph_utils::tarjan_scc::{
    comp_edges, components_wf, events_of, members_of, Component, SccEvent, SccId,
};
use crate::keyed::{lemma_take_to_set, KeyMap, KeySet, NodeKey};
use crate::split_point::identifier::{join, module_for, ModuleId, SplitModuleIdentifier};
use vstd::prelude::*;

verus! {

/// All identifiers in a map have their names in order.
pub open spec fn all_wf<T>(colors: Map<T, SplitModuleIdentifier>) -> bool {
    forall|t: T| #[trigger] colors.contains_key(t) ==> colors[t].wf()
}

/// `after` is the identifier for what `before`, if there is one, and `color` need.
pub open spec fn joined(
    before: Option<ModuleId>,
    color: ModuleId,
    after: ModuleId,
) -> bool {
    match before {
        None => after == color,
        Some(id) => {
            &&& after == join(id, color)
            &&& !(after is Main) ==> after.names() == id.names().union(color.names())
        },
    }
}

/// What a map says of a key.
pub open spec fn entry<T>(colors: Map<T, SplitModuleIdentifier>, t: T) -> Option<ModuleId> {
    if colors.contains_key(t) {
        Some(colors[t]@)
    } else {
        None
    }
}

/// `after` is `before` with `color` added to all of `roots`.
pub open spec fn colored<T>(
    before: Map<T, SplitModuleIdentifier>,
    roots: Set<T>,
    color: ModuleId,
    after: Map<T, SplitModuleIdentifier>,
) -> bool {
    &&& forall|t: T| #[trigger]
        after.contains_key(t) <==> before.contains_key(t) || roots.contains(t)
    &&& forall|t: T|
        !roots.contains(t) && before.contains_key(t) ==> #[trigger] after[t]@ == before[t]@
    &&& forall|t: T|
        roots.contains(t) ==> joined(entry(before, t), color, #[trigger] after[t]@)
}

/// Adds a color to all of `roots`.
pub fn color_all<T: NodeKey>(
    color_map: &mut KeyMap<T, SplitModuleIdentifier>,
    roots: &KeySet<T>,
    color: &SplitModuleIdentifier,
)
    requires
        all_wf(old(color_map)@),
        color.wf(),
    ensures
        all_wf(final(color_map)@),
        colored(old(color_map)@, roots@, color@, final(color_map)@),
{
    let items = roots.to_vec();
    let ghost start = color_map@;
    for i in 0..items.len()
        invariant
            start == old(color_map)@,
            items@.no_duplicates(),
            color.wf(),
            all_wf(color_map@),
            colored(start, items@.take(i as int).to_set(), color@, color_map@),
    {
        let root = items[i];
        let ghost before = color_map@;
        let ghost done = items@.take(i as int).to_set();
        proof {
            lemma_take_to_set(items@, i as int);
            assert(!done.contains(root)) by {
                if done.contains(root) {
                    let j = choose|j: int|
                        0 <= j < items@.take(i as int).len() && items@.take(i as int)[j] == root;
                    assert(items@[j] == items@[i as int]);
                }
            }
        }
        match color_map.remove(&root) {
            Some(mut module) => {
                module.also_in(color);
                color_map.insert(root, module);
            },
            None => {
                color_map.insert(root, color.duplicate());
            },
        }
        proof {
            assert forall|t: T| t != root implies (#[trigger] color_map@.contains_key(t)
                <==> before.contains_key(t)) && (before.contains_key(t) ==> color_map@[t]
                == before[t]) by {}
        }
    }
    proof {
        assert(items@.take(items@.len() as int) =~= items@);
    }
}

/// Whether component `s` starts out with the color of the main module.
pub open spec fn starts_main(start: Map<SccId, SplitModuleIdentifier>, s: SccId) -> bool {
    start.contains_key(s) && start[s]@ is Main
}

/// Whether component `s` starts out with the color of the declared module `name`.
pub open spec fn starts_name(
    start: Map<SccId, SplitModuleIdentifier>,
    s: SccId,
    name: Seq<char>,
) -> bool {
    start.contains_key(s) && !(start[s]@ is Main) && start[s]@.names().contains(name)
}

/// Whether component `s` is marked for the main module.
pub open spec fn marked(comps: Seq<Component<DepNode>>, s: SccId) -> bool {
    exists|k: int|
        0 <= k < comps.len() && (#[trigger] comps[k]).this == s && comps[k].marked_for_main
}

/// Whether component `t` belongs into the main module.
pub open spec fn in_main(
    start: Map<SccId, SplitModuleIdentifier>,
    comps: Seq<Component<DepNode>>,
    t: SccId,
) -> bool {
    exists|s: SccId|
        (starts_main(start, s) || marked(comps, s)) && #[trigger] reach(comp_edges(comps), s, t)
}

/// Whether component `t` is needed by the declared module `name`.
pub open spec fn needed_by(
    start: Map<SccId, SplitModuleIdentifier>,
    comps: Seq<Component<DepNode>>,
    t: SccId,
    name: Seq<char>,
) -> bool {
    exists|s: SccId|
        starts_name(start, s, name) && #[trigger] reach(comp_edges(comps), s, t)
}

/// The module that component `t` belongs into.
pub open spec fn paint(
    start: Map<SccId, SplitModuleIdentifier>,
    comps: Seq<Component<DepNode>>,
    t: SccId,
) -> ModuleId {
    if in_main(start, comps, t) {
        ModuleId::Main
    } else {
        module_for(Set::new(|name: Seq<char>| needed_by(start, comps, t, name)))
    }
}

/// All vertices of components.
pub open spec fn nodes_of(comps: Seq<Component<DepNode>>) -> Seq<DepNode>
    decreases comps.len(),
{
    if comps.len() == 0 {
        Seq::empty()
    } else {
        nodes_of(comps.drop_last()) + comps.last().members@
    }
}

/// What is known of component `t` from the start and from components `k` and later ones.
spec fn known_any(
    start: Map<SccId, SplitModuleIdentifier>,
    comps: Seq<Component<DepNode>>,
    k: int,
    t: SccId,
) -> bool {
    start.contains_key(t) || exists|j: int|
        k <= j < comps.len() && (#[trigger] comps[j]).out_edges@.contains(t)
}

spec fn known_main(
    start: Map<SccId, SplitModuleIdentifier>,
    comps: Seq<Component<DepNode>>,
    k: int,
    t: SccId,
) -> bool {
    starts_main(start, t) || exists|j: int|
        k <= j < comps.len() && (#[trigger] comps[j]).out_edges@.contains(t) && in_main(
            start,
            comps,
            comps[j].this,
        )
}

spec fn known_name(
    start: Map<SccId, SplitModuleIdentifier>,
    comps: Seq<Component<DepNode>>,
    k: int,
    t: SccId,
    name: Seq<char>,
) -> bool {
    starts_name(start, t, name) || exists|j: int|
        k <= j < comps.len() && (#[trigger] comps[j]).out_edges@.contains(t) && needed_by(
            start,
            comps,
            comps[j].this,
            name,
        )
}

/// `id` is the main module if `main` holds, or else the module for what `names` need.
pub open spec fn stands_for(id: ModuleId, main: bool, names: Set<Seq<char>>) -> bool {
    &&& id is Main <==> main
    &&& !main ==> id.names() == names && id == module_for(names)
}

/// The colors hold what is known of the components before `k`.
#[verifier::opaque]
spec fn colors_known(
    start: Map<SccId, SplitModuleIdentifier>,
    comps: Seq<Component<DepNode>>,
    k: int,
    colors: Map<SccId, SplitModuleIdentifier>,
) -> bool {
    forall|i: int|
        #![trigger comps[i]]
        0 <= i < k ==> {
            let t = comps[i].this;
            &&& colors.contains_key(t) <==> known_any(start, comps, k, t)
            &&& colors.contains_key(t) ==> stands_for(
                colors[t]@,
                known_main(start, comps, k, t),
                Set::new(|name: Seq<char>| known_name(start, comps, k, t, name)),
            )
        }
}

/// A way along recorded edges to the component at position `k - 1` that does not start there goes
/// through one of the components from `k` on.
proof fn lemma_last_edge(
    scc: Map<DepNode, SccId>,
    comps: Seq<Component<DepNode>>,
    k: int,
    s: SccId,
)
    requires
        components_wf(scc, comps),
        0 < k <= comps.len(),
        reach(comp_edges(comps), s, comps[k - 1].this),
    ensures
        s == comps[k - 1].this || exists|j: int|
            k <= j < comps.len() && (#[trigger] comps[j]).out_edges@.contains(comps[k - 1].this)
                && reach(comp_edges(comps), s, comps[j].this),
{
    let c = comp_edges(comps);
    let t = comps[k - 1].this;
    lemma_reach_last(c, s, t);
    if s != t {
        let b = choose|b: SccId| reach(c, s, b) && #[trigger] c(b, t);
        let j = choose|j: int|
            0 <= j < comps.len() && (#[trigger] comps[j]).this == b && comps[j].out_edges@.contains(
                t,
            );
        let i = choose|i: int| 0 <= i < j && (#[trigger] comps[i]).this == t;
        assert(comps[j].out_edges@.contains(t));
        assert(i == k - 1) by {
            if i < k - 1 {
                assert(comps[i].this != comps[k - 1].this);
            }
            if k - 1 < i {
                assert(comps[k - 1].this != comps[i].this);
            }
        }
        assert(k <= j && reach(c, s, comps[j].this));
    }
}

/// Everything is known of the last component that was not looked at.
proof fn lemma_all_known(
    start: Map<SccId, SplitModuleIdentifier>,
    scc: Map<DepNode, SccId>,
    comps: Seq<Component<DepNode>>,
    k: int,
)
    requires
        components_wf(scc, comps),
        0 < k <= comps.len(),
    ensures
        in_main(start, comps, comps[k - 1].this) <==> known_main(start, comps, k, comps[k - 1].this)
            || comps[k - 1].marked_for_main,
        forall|name: Seq<char>|
            needed_by(start, comps, comps[k - 1].this, name) <==> #[trigger] known_name(
                start,
                comps,
                k,
                comps[k - 1].this,
                name,
            ),
        has_start(start, comps, comps[k - 1].this) ==> known_any(start, comps, k, comps[k - 1].this),
{
    let c = comp_edges(comps);
    let t = comps[k - 1].this;
    lemma_reach_refl(c, t);
    assert forall|j: int, s: SccId|
        k <= j < comps.len() && (#[trigger] comps[j]).out_edges@.contains(t) && #[trigger] reach(
            c,
            s,
            comps[j].this,
        ) implies reach(c, s, t) by {
        assert(c(comps[j].this, t));
        lemma_reach_step(c, comps[j].this, t);
        lemma_reach_trans(c, s, comps[j].this, t);
    }
    assert(marked(comps, t) <==> comps[k - 1].marked_for_main) by {
        if marked(comps, t) {
            let i = choose|i: int|
                0 <= i < comps.len() && (#[trigger] comps[i]).this == t && comps[i].marked_for_main;
            if i < k - 1 {
                assert(comps[i].this != comps[k - 1].this);
            }
            if k - 1 < i {
                assert(comps[k - 1].this != comps[i].this);
            }
        }
    }
    if in_main(start, comps, t) {
        let s = choose|s: SccId|
            (starts_main(start, s) || marked(comps, s)) && #[trigger] reach(c, s, t);
        lemma_last_edge(scc, comps, k, s);
        if s != t {
            let j = choose|j: int|
                k <= j < comps.len() && (#[trigger] comps[j]).out_edges@.contains(t) && reach(
                    c,
                    s,
                    comps[j].this,
                );
            assert(in_main(start, comps, comps[j].this));
        }
    }
    if known_main(start, comps, k, t) && !starts_main(start, t) {
        let j = choose|j: int|
            k <= j < comps.len() && (#[trigger] comps[j]).out_edges@.contains(t) && in_main(
                start,
                comps,
                comps[j].this,
            );
        let s = choose|s: SccId|
            (starts_main(start, s) || marked(comps, s)) && #[trigger] reach(c, s, comps[j].this);
        assert(reach(c, s, t));
    }
    assert forall|name: Seq<char>| needed_by(start, comps, t, name) <==> #[trigger] known_name(
        start,
        comps,
        k,
        t,
        name,
    ) by {
        if needed_by(start, comps, t, name) {
            let s = choose|s: SccId| starts_name(start, s, name) && #[trigger] reach(c, s, t);
            lemma_last_edge(scc, comps, k, s);
            if s != t {
                let j = choose|j: int|
                    k <= j < comps.len() && (#[trigger] comps[j]).out_edges@.contains(t) && reach(
                        c,
                        s,
                        comps[j].this,
                    );
                assert(needed_by(start, comps, comps[j].this, name));
            }
        }
        if known_name(start, comps, k, t, name) && !starts_name(start, t, name) {
            let j = choose|j: int|
                k <= j < comps.len() && (#[trigger] comps[j]).out_edges@.contains(t) && needed_by(
                    start,
                    comps,
                    comps[j].this,
                    name,
                );
            let s = choose|s: SccId|
                starts_name(start, s, name) && #[trigger] reach(c, s, comps[j].this);
            assert(reach(c, s, t));
        }
    }
    if has_start(start, comps, t) {
        let s = choose|s: SccId| start.contains_key(s) && #[trigger] reach(c, s, t);
        lemma_last_edge(scc, comps, k, s);
    }
}

/// Handing the color of a component on along its recorded edges keeps what is known.
proof fn lemma_hand_on(
    start: Map<SccId, SplitModuleIdentifier>,
    scc: Map<DepNode, SccId>,
    comps: Seq<Component<DepNode>>,
    k: int,
    colors: Map<SccId, SplitModuleIdentifier>,
    color: ModuleId,
    after: Map<SccId, SplitModuleIdentifier>,
)
    requires
        components_wf(scc, comps),
        0 < k <= comps.len(),
        colors_known(start, comps, k, colors),
        stands_for(
            color,
            in_main(start, comps, comps[k - 1].this),
            Set::new(|name: Seq<char>| needed_by(start, comps, comps[k - 1].this, name)),
        ),
        colored(colors.remove(comps[k - 1].this), comps[k - 1].out_edges@, color, after),
    ensures
        colors_known(start, comps, k - 1, after),
{
    reveal(colors_known);
    let s = comps[k - 1].this;
    let out = comps[k - 1].out_edges@;
    assert forall|i: int|
        #![trigger comps[i]]
        0 <= i < k - 1 implies ({
        let t = comps[i].this;
        &&& after.contains_key(t) <==> known_any(start, comps, k - 1, t)
        &&& after.contains_key(t) ==> stands_for(
            after[t]@,
            known_main(start, comps, k - 1, t),
            Set::new(|name: Seq<char>| known_name(start, comps, k - 1, t, name)),
        )
    }) by {
        let t = comps[i].this;
        assert(comps[i].this != comps[k - 1].this);
        let before = colors.remove(s);
        let names0 = Set::new(|name: Seq<char>| known_name(start, comps, k, t, name));
        let names1 = Set::new(|name: Seq<char>| known_name(start, comps, k - 1, t, name));
        let given = Set::new(|name: Seq<char>| needed_by(start, comps, s, name));
        assert(known_any(start, comps, k - 1, t) <==> known_any(start, comps, k, t)
            || out.contains(t)) by {
            if out.contains(t) {
                assert(comps[k - 1].out_edges@.contains(t));
            }
            if known_any(start, comps, k - 1, t) && !start.contains_key(t) {
                let j = choose|j: int|
                    k - 1 <= j < comps.len() && (#[trigger] comps[j]).out_edges@.contains(t);
                assert(j == k - 1 || comps[j].out_edges@.contains(t));
            }
        }
        assert(known_main(start, comps, k - 1, t) <==> known_main(start, comps, k, t) || (
        out.contains(t) && in_main(start, comps, s))) by {
            if out.contains(t) && in_main(start, comps, s) {
                assert(comps[k - 1].out_edges@.contains(t));
            }
            if known_main(start, comps, k - 1, t) && !starts_main(start, t) {
                let j = choose|j: int|
                    k - 1 <= j < comps.len() && (#[trigger] comps[j]).out_edges@.contains(t)
                        && in_main(start, comps, comps[j].this);
                assert(j == k - 1 || comps[j].out_edges@.contains(t));
            }
        }
        assert forall|name: Seq<char>| #[trigger]
            known_name(start, comps, k - 1, t, name) <==> known_name(start, comps, k, t, name) || (
            out.contains(t) && needed_by(start, comps, s, name)) by {
            if out.contains(t) && needed_by(start, comps, s, name) {
                assert(comps[k - 1].out_edges@.contains(t));
            }
            if known_name(start, comps, k - 1, t, name) && !starts_name(start, t, name) {
                let j = choose|j: int|
                    k - 1 <= j < comps.len() && (#[trigger] comps[j]).out_edges@.contains(t)
                        && needed_by(start, comps, comps[j].this, name);
                assert(j == k - 1 || comps[j].out_edges@.contains(t));
            }
        }
        assert(before.contains_key(t) <==> colors.contains_key(t));
        if out.contains(t) {
            assert(joined(entry(before, t), color, after[t]@));
            if colors.contains_key(t) {
                assert(before[t] == colors[t]);
                assert(names1 =~= names0.union(given));
            } else {
                assert(!known_main(start, comps, k, t));
                assert(forall|name: Seq<char>| !#[trigger] known_name(start, comps, k, t, name));
                assert(names1 =~= given);
            }
        } else {
            if colors.contains_key(t) {
                assert(after[t]@ == before[t]@);
            }
            assert(names1 =~= names0);
        }
    }
}

/// Component `t` can be reached from one that starts out with a color.
pub open spec fn has_start(
    start: Map<SccId, SplitModuleIdentifier>,
    comps: Seq<Component<DepNode>>,
    t: SccId,
) -> bool {
    exists|s: SccId| start.contains_key(s) && #[trigger] reach(comp_edges(comps), s, t)
}

/// Every component can be reached from one that starts out with a color.
pub open spec fn rooted(
    start: Map<SccId, SplitModuleIdentifier>,
    comps: Seq<Component<DepNode>>,
) -> bool {
    forall|k: int| 0 <= k < comps.len() ==> has_start(start, comps, (#[trigger] comps[k]).this)
}

/// The members of the component at position `at` that are still to be handed out.
spec fn current(comps: Seq<Component<DepNode>>, at: int, left: int) -> Seq<DepNode> {
    if left > 0 {
        comps[at].members@.take(left)
    } else {
        Seq::empty()
    }
}

/// The events that are still to come.
spec fn events_left(comps: Seq<Component<DepNode>>, at: int, left: int) -> Seq<SccEvent<DepNode>> {
    events_of(comps.take(at)) + members_of(current(comps, at, left))
}

/// The vertices that are still to be handed out.
spec fn nodes_left(comps: Seq<Component<DepNode>>, at: int, left: int) -> Seq<DepNode> {
    nodes_of(comps.take(at)) + current(comps, at, left)
}

/// Which event comes next.
proof fn lemma_next_event(comps: Seq<Component<DepNode>>, at: int, left: int)
    requires
        0 <= at <= comps.len(),
        left > 0 ==> at < comps.len() && left <= comps[at].members@.len(),
        left >= 0,
    ensures
        at == 0 && left == 0 ==> events_left(comps, at, left).len() == 0 && nodes_left(
            comps,
            at,
            left,
        ).len() == 0,
        left > 0 ==> {
            let node = comps[at].members@[left - 1];
            &&& events_left(comps, at, left) == events_left(comps, at, left - 1).push(
                SccEvent::Member { node },
            )
            &&& nodes_left(comps, at, left) == nodes_left(comps, at, left - 1).push(node)
        },
        at > 0 && left == 0 ==> {
            let c = comps[at - 1];
            let n = c.members@.len() as int;
            &&& events_left(comps, at, left) == events_left(comps, at - 1, n).push(
                SccEvent::Next {
                    this: c.this,
                    out_edges: c.out_edges,
                    marked_for_main: c.marked_for_main,
                },
            )
            &&& nodes_left(comps, at, left) == nodes_left(comps, at - 1, n)
        },
{
    if left > 0 {
        let members = comps[at].members@;
        assert(members.take(left) =~= members.take(left - 1).push(members[left - 1]));
        assert(current(comps, at, left - 1) =~= members.take(left - 1));
        assert(events_left(comps, at, left) =~= events_left(comps, at, left - 1).push(
            SccEvent::Member { node: members[left - 1] },
        ));
        assert(nodes_left(comps, at, left) =~= nodes_left(comps, at, left - 1).push(
            members[left - 1],
        ));
    } else if at > 0 {
        let c = comps[at - 1];
        let n = c.members@.len() as int;
        assert(comps.take(at).last() == c);
        assert(comps.take(at).drop_last() =~= comps.take(at - 1));
        assert(current(comps, at - 1, n) =~= c.members@);
        assert(events_left(comps, at, left) =~= events_of(comps.take(at)));
        assert(nodes_left(comps, at, left) =~= nodes_of(comps.take(at)));
    } else {
        assert(comps.take(0) =~= Seq::empty());
    }
}

/// Hands out the vertices of the dependency graph, each with the module that it belongs into.
pub struct DepGraphPainter {
    scc_events: Vec<SccEvent<DepNode>>,
    scc_colors: KeyMap<SccId, SplitModuleIdentifier>,
    color: SplitModuleIdentifier,
    start: Ghost<Map<SccId, SplitModuleIdentifier>>,
    scc: Ghost<Map<DepNode, SccId>>,
    comps: Ghost<Seq<Component<DepNode>>>,
    // How many components were not looked at yet.
    at: Ghost<int>,
    // How many members of the current component are still to be handed out.
    left: Ghost<int>,
}

impl DepGraphPainter {
    /// The colors from which the painting started.
    pub closed spec fn start(&self) -> Map<SccId, SplitModuleIdentifier> {
        self.start@
    }

    /// The component of each vertex.
    pub closed spec fn scc(&self) -> Map<DepNode, SccId> {
        self.scc@
    }

    /// The components.
    pub closed spec fn comps(&self) -> Seq<Component<DepNode>> {
        self.comps@
    }

    /// The vertices that are still to be handed out, the next one last.
    pub closed spec fn remaining(&self) -> Seq<DepNode> {
        nodes_left(self.comps@, self.at@, self.left@)
    }

    /// The module of the vertex that was handed out last.
    pub closed spec fn painted(&self) -> ModuleId {
        self.color@
    }

    /// The state is one that painting leads to.
    pub closed spec fn wf(&self) -> bool {
        let comps = self.comps@;
        &&& components_wf(self.scc@, comps)
        &&& rooted(self.start@, comps)
        &&& 0 <= self.at@ <= comps.len()
        &&& 0 <= self.left@
        &&& self.left@ > 0 ==> {
            &&& self.at@ < comps.len()
            &&& self.left@ <= comps[self.at@].members@.len()
            &&& self.color@ == paint(self.start@, comps, comps[self.at@].this)
        }
        &&& self.color.wf()
        &&& all_wf(self.scc_colors@)
        &&& colors_known(self.start@, comps, self.at@, self.scc_colors@)
        &&& self.scc_events@ == events_left(comps, self.at@, self.left@)
    }

    /// The module of the vertex that was handed out last.
    pub fn color(&self) -> (color: &SplitModuleIdentifier)
        requires
            self.wf(),
        ensures
            color@ == self.painted(),
            color.wf(),
    {
        &self.color
    }

    /// Starts painting.
    pub(crate) fn new(
        scc_events: Vec<SccEvent<DepNode>>,
        scc_colors: KeyMap<SccId, SplitModuleIdentifier>,
        scc: Ghost<Map<DepNode, SccId>>,
        comps: Ghost<Seq<Component<DepNode>>>,
    ) -> (painter: Self)
        requires
            scc_events@ == events_of(comps@),
            components_wf(scc@, comps@),
            all_wf(scc_colors@),
            forall|t: SccId| #[trigger]
                scc_colors@.contains_key(t) ==> scc_colors@[t]@ is Main || scc_colors@[t]@
                    == module_for(scc_colors@[t]@.names()),
            rooted(scc_colors@, comps@),
        ensures
            painter.wf(),
            painter.start() == scc_colors@,
            painter.scc() == scc@,
            painter.comps() == comps@,
            painter.remaining() == nodes_of(comps@),
    {
        let ghost start = scc_colors@;
        let ghost n = comps@.len() as int;
        let painter = DepGraphPainter {
            scc_events,
            scc_colors,
            color: SplitModuleIdentifier::Main,
            start: Ghost(start),
            scc,
            comps,
            at: Ghost(n),
            left: Ghost(0),
        };
        proof {
            assert(comps@.take(n) =~= comps@);
            assert(painter.remaining() =~= nodes_of(comps@));
            assert(painter.scc_events@ =~= events_left(comps@, n, 0));
            reveal(colors_known);
            assert forall|i: int|
                #![trigger comps@[i]]
                0 <= i < n implies ({
                let t = comps@[i].this;
                &&& start.contains_key(t) <==> known_any(start, comps@, n, t)
                &&& start.contains_key(t) ==> stands_for(
                    start[t]@,
                    known_main(start, comps@, n, t),
                    Set::new(|name: Seq<char>| known_name(start, comps@, n, t, name)),
                )
            }) by {
                let t = comps@[i].this;
                let names = Set::new(|name: Seq<char>| known_name(start, comps@, n, t, name));
                if start.contains_key(t) && !(start[t]@ is Main) {
                    assert(names =~= start[t]@.names());
                }
            }
        }
        painter
    }

    /// Hands out the next vertex.
    pub fn next(&mut self) -> (node: Option<DepNode>)
        requires
            old(self).wf(),
        ensures
            final(self).wf(),
            final(self).start() == old(self).start(),
            final(self).scc() == old(self).scc(),
            final(self).comps() == old(self).comps(),
            match node {
                Some(node) => {
                    &&& old(self).remaining() == final(self).remaining().push(node)
                    &&& final(self).scc().contains_key(node)
                    &&& final(self).painted() == paint(
                        final(self).start(),
                        final(self).comps(),
                        final(self).scc()[node],
                    )
                },
                None => old(self).remaining().len() == 0 && final(self).remaining() == old(self).remaining(),
            },
    {
        let ghost all = self.comps@;
        loop
            invariant
                self.wf(),
                all == self.comps@,
                self.start@ == old(self).start@,
                self.scc@ == old(self).scc@,
                self.comps@ == old(self).comps@,
                self.remaining() == old(self).remaining(),
            decreases self.scc_events@.len(),
        {
            let ghost before = *self;
            let ghost at = self.at@;
            let ghost left = self.left@;
            let ghost events = self.scc_events@;
            proof {
                lemma_next_event(all, at, left);
            }
            match self.scc_events.pop() {
                None => {
                    return None;
                },
                Some(SccEvent::Member { node }) => {
                    proof {
                        self.left@ = left - 1;
                        assert(events.drop_last() =~= events_left(all, at, left - 1));
                        assert(all[at].members@.contains(node));
                    }
                    return Some(node);
                },
                Some(SccEvent::Next { this, out_edges, marked_for_main }) => {
                    assert(events.drop_last() =~= events_left(
                        all,
                        at - 1,
                        all[at - 1].members@.len() as int,
                    ));
                    self.enter(this, &out_edges, marked_for_main);
                },
            }
        }
    }

    /// Finds the color of the last component that was not looked at, and hands it on.
    fn enter(&mut self, this: SccId, out_edges: &KeySet<SccId>, marked_for_main: bool)
        requires
            old(self).ready(),
            old(self).at@ > 0,
            old(self).left@ == 0,
            this == old(self).comps@[old(self).at@ - 1].this,
            out_edges@ == old(self).comps@[old(self).at@ - 1].out_edges@,
            marked_for_main == old(self).comps@[old(self).at@ - 1].marked_for_main,
            old(self).scc_events@ == events_left(
                old(self).comps@,
                old(self).at@ - 1,
                old(self).comps@[old(self).at@ - 1].members@.len() as int,
            ),
        ensures
            final(self).wf(),
            final(self).start@ == old(self).start@,
            final(self).scc@ == old(self).scc@,
            final(self).comps@ == old(self).comps@,
            final(self).at@ == old(self).at@ - 1,
            final(self).left@ == old(self).comps@[old(self).at@ - 1].members@.len(),
            final(self).scc_events@ == old(self).scc_events@,
    {
        let ghost all = self.comps@;
        let ghost at = self.at@;
        let ghost colors = self.scc_colors@;
        proof {
            lemma_all_known(self.start@, self.scc@, all, at);
            assert(colors.contains_key(this)) by {
                reveal(colors_known);
                assert(all[at - 1].this == this);
            }
        }
        if let Some(color) = self.scc_colors.remove(&this) {
            self.color = color;
        }
        if marked_for_main {
            self.color = SplitModuleIdentifier::Main;
        }
        let ghost needed = Set::new(|name: Seq<char>| needed_by(self.start@, all, this, name));
        proof {
            let names = Set::new(|name: Seq<char>| known_name(self.start@, all, at, this, name));
            assert(names =~= needed);
            assert(stands_for(self.color@, in_main(self.start@, all, this), needed)) by {
                reveal(colors_known);
                assert(all[at - 1].this == this);
            }
        }
        let color = self.color.duplicate();
        color_all(&mut self.scc_colors, out_edges, &color);
        proof {
            lemma_hand_on(self.start@, self.scc@, all, at, colors, self.color@, self.scc_colors@);
            self.at@ = at - 1;
            self.left@ = all[at - 1].members@.len() as int;
        }
    }

    /// What holds while a component is looked at.
    spec fn ready(&self) -> bool {
        &&& components_wf(self.scc@, self.comps@)
        &&& rooted(self.start@, self.comps@)
        &&& 0 <= self.at@ <= self.comps@.len()
        &&& self.color.wf()
        &&& all_wf(self.scc_colors@)
        &&& colors_known(self.start@, self.comps@, self.at@, self.scc_colors@)
    }
}

} // verus!
