//! Strongly connected components.
use std::collections::{HashMap, HashSet};
use wasm_split::graph_utils::tarjan_scc::{Graph, SccEvent, TarjanSccResult};
use wasm_split::keyed::{KeyMap, KeySet};

fn set_of(items: &[usize]) -> KeySet<usize> {
    let mut set = KeySet::new();
    for &item in items {
        set.insert(item);
    }
    set
}

fn graph_of(edges: &[(usize, &[usize])]) -> Graph<usize> {
    let mut graph = KeyMap::new();
    for &(from, to) in edges {
        graph.insert(from, set_of(to));
    }
    graph
}

fn members(set: &KeySet<usize>) -> HashSet<usize> {
    set.to_vec().into_iter().collect()
}

#[test]
fn test_small_graph() {
    let mut searcher = TarjanSccResult::new();
    let graph = graph_of(&[
        (0, &[1, 2]),
        (1, &[2]),
        (2, &[1, 5]),
        (3, &[5]),
        (5, &[6]),
        (6, &[7]),
        (7, &[5]),
        (99, &[100]),
        (100, &[99]),
    ]);
    let roots = searcher.explore(&[0, 3], &graph, &KeySet::new());

    assert_eq!(
        HashSet::from([0, 1, 2, 3, 5, 6, 7]),
        searcher
            .explored()
            .iter()
            .cloned()
            .collect::<HashSet<usize>>(),
    );
    let mut scc_graph = HashMap::new();
    let it = searcher.into_topsort();
    let mut it = it.iter();
    'graph: loop {
        let mut component = vec![];
        loop {
            match it.next() {
                None => break 'graph,
                Some(SccEvent::Member { node: _node }) => {
                    component.push(*_node);
                }
                Some(SccEvent::Next {
                    this, out_edges, ..
                }) => {
                    component.sort();
                    scc_graph.insert(component, (*this, members(out_edges)));
                    break;
                }
            }
        }
    }
    let root_scc = scc_graph
        .get(&[0][..])
        .expect("to find a component for [0]");
    let inner_12 = scc_graph
        .get(&[1, 2][..])
        .expect("to find a component for [1, 2]");
    let inner_567 = scc_graph
        .get(&[5, 6, 7][..])
        .expect("to find a component for [5, 6, 7]");
    let inner_3 = scc_graph
        .get(&[3][..])
        .expect("to find a component for [3]");
    assert!(root_scc.1.contains(&inner_12.0));
    assert!(!root_scc.1.contains(&inner_567.0));
    assert!(inner_12.1.contains(&inner_567.0));
    assert!(inner_3.1.contains(&inner_567.0));

    assert_eq!(HashSet::from([root_scc.0, inner_3.0]), members(&roots));
}

#[test]
fn vertices_that_reach_each_other_share_a_component() {
    let mut searcher = TarjanSccResult::new();
    let graph = graph_of(&[(1, &[2]), (2, &[3]), (3, &[1, 4]), (4, &[4])]);
    searcher.explore(&[1], &graph, &KeySet::new());
    let first = searcher.scc_of(&1);
    assert!(first.is_some());
    assert_eq!(searcher.scc_of(&2), first);
    assert_eq!(searcher.scc_of(&3), first);
    assert_ne!(searcher.scc_of(&4), first);
    assert!(searcher.scc_of(&4).is_some());
    assert_eq!(searcher.scc_of(&5), None);
}

#[test]
fn later_searches_keep_what_was_found() {
    let mut searcher = TarjanSccResult::new();
    let graph = graph_of(&[(1, &[2]), (2, &[1]), (3, &[2, 4]), (4, &[])]);
    let first = searcher.explore(&[1], &graph, &KeySet::new());
    let one = searcher.scc_of(&1).unwrap();
    assert_eq!(members(&first), HashSet::from([one]));
    assert_eq!(searcher.scc_of(&3), None);
    let second = searcher.explore(&[3, 1], &graph, &KeySet::new());
    assert_eq!(searcher.scc_of(&1), Some(one));
    let three = searcher.scc_of(&3).unwrap();
    assert_eq!(members(&second), HashSet::from([one, three]));
}

#[test]
fn components_that_touch_a_mark_are_marked() {
    let mut searcher = TarjanSccResult::new();
    let graph = graph_of(&[(1, &[2]), (2, &[9]), (3, &[2])]);
    searcher.explore(&[3, 1], &graph, &set_of(&[9]));
    let mut members = Vec::new();
    let mut marked = Vec::new();
    for event in searcher.into_topsort() {
        match event {
            SccEvent::Member { node } => members.push(node),
            SccEvent::Next {
                marked_for_main, ..
            } => {
                if marked_for_main {
                    marked.append(&mut members);
                }
                members.clear();
            }
        }
    }
    assert_eq!(marked, vec![2]);
}

#[test]
fn components_come_after_what_they_lead_to() {
    let mut searcher = TarjanSccResult::new();
    let graph = graph_of(&[(1, &[2, 3]), (2, &[3]), (3, &[])]);
    searcher.explore(&[1], &graph, &KeySet::new());
    let order: Vec<usize> = searcher
        .into_topsort()
        .into_iter()
        .filter_map(|event| match event {
            SccEvent::Member { node } => Some(node),
            SccEvent::Next { .. } => None,
        })
        .collect();
    assert_eq!(order, vec![3, 2, 1]);
}

#[test]
fn numbers_of_components_start_at_one() {
    let mut searcher = TarjanSccResult::new();
    let graph = graph_of(&[(1, &[2]), (2, &[1, 3])]);
    let none = searcher.explore(&[], &graph, &KeySet::new());
    assert!(members(&none).is_empty());
    let found = searcher.explore(&[1, 3], &graph, &KeySet::new());
    let again = searcher.explore(&[3, 2], &graph, &KeySet::new());
    assert_eq!(members(&found), members(&again));
    assert!(!members(&found).contains(&0));
    let mut numbers = HashSet::new();
    for event in searcher.into_topsort() {
        if let SccEvent::Next { this, .. } = event {
            assert!(this >= 1);
            assert!(numbers.insert(this));
        }
    }
    assert_eq!(numbers, members(&found));
}
