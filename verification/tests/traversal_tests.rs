use depq::bfs::{bfs, bfs_path};
use depq::dfs::dfs;
use depq::graph::{Edge, Graph};
use depq::traverse::{PathStep, Step, Visit};
use std::cell::RefCell;

fn graph(pairs: &[(&str, &str)]) -> Graph {
    Graph::from_iter(pairs.iter().map(|(a, b)| Edge(a.to_string(), b.to_string())).collect())
}

fn step(depth: usize, node: usize, pred: Option<usize>, expanded: bool) -> Step {
    Step { visit: Visit { depth, node, pred }, expanded }
}

fn visits(trace: &[Step]) -> Vec<(usize, usize, Option<usize>)> {
    trace.iter().map(|s| (s.visit.depth, s.visit.node, s.visit.pred)).collect()
}

#[test]
fn bfs_visits_in_queue_order_once_per_path() {
    // a0 b1 c2 d3
    let g = graph(&[("a", "b"), ("a", "c"), ("b", "d"), ("c", "d")]);
    let trace = bfs(&g, &[0], usize::MAX, |_, _, _| true).unwrap();
    assert_eq!(
        visits(&trace),
        vec![
            (0, 0, None),
            (1, 1, Some(0)),
            (1, 2, Some(0)),
            (2, 3, Some(1)),
            (2, 3, Some(2)),
        ]
    );
    assert!(trace.iter().all(|s| s.expanded));
}

#[test]
fn dfs_visits_in_preorder() {
    // a0 b1 c2 d3
    let g = graph(&[("a", "b"), ("a", "c"), ("b", "d")]);
    let trace = dfs(&g, &[0], usize::MAX, |_, _, _| true).unwrap();
    assert_eq!(
        visits(&trace),
        vec![(0, 0, None), (1, 1, Some(0)), (2, 3, Some(1)), (1, 2, Some(0))]
    );
}

#[test]
fn the_callback_sees_every_visit_in_order() {
    let g = graph(&[("a", "b"), ("a", "c"), ("b", "d"), ("c", "d")]);
    let seen = RefCell::new(Vec::new());
    let trace = bfs(&g, &[0], usize::MAX, |depth, node, pred| {
        seen.borrow_mut().push((depth, node, pred));
        true
    })
    .unwrap();
    assert_eq!(*seen.borrow(), visits(&trace));
    let seen = RefCell::new(Vec::new());
    let trace = dfs(&g, &[0], usize::MAX, |depth, node, pred| {
        seen.borrow_mut().push((depth, node, pred));
        node != 1
    })
    .unwrap();
    assert_eq!(*seen.borrow(), visits(&trace));
    assert_eq!(
        trace,
        vec![
            step(0, 0, None, true),
            step(1, 1, Some(0), false),
            step(1, 2, Some(0), true),
            step(2, 3, Some(2), true),
        ]
    );
}

#[test]
fn a_refusal_prunes_one_subtree_and_nothing_else() {
    // a0 b1 c2 d3 e4
    let g = graph(&[("a", "b"), ("a", "c"), ("b", "d"), ("c", "e")]);
    let trace = bfs(&g, &[0], usize::MAX, |_, node, _| node != 1).unwrap();
    assert_eq!(
        trace,
        vec![
            step(0, 0, None, true),
            step(1, 1, Some(0), false),
            step(1, 2, Some(0), true),
            step(2, 4, Some(2), true),
        ]
    );
    let trace = dfs(&g, &[0], usize::MAX, |_, node, _| node != 1).unwrap();
    assert_eq!(
        trace,
        vec![
            step(0, 0, None, true),
            step(1, 1, Some(0), false),
            step(1, 2, Some(0), true),
            step(2, 4, Some(2), true),
        ]
    );
    let nothing = bfs(&g, &[0], usize::MAX, |_, _, _| false).unwrap();
    assert_eq!(nothing, vec![step(0, 0, None, false)]);
}

#[test]
fn start_nodes_outside_the_graph_are_dropped() {
    let g = graph(&[("a", "b")]);
    let trace = bfs(&g, &[7, 1, 2, 0, usize::MAX], usize::MAX, |_, _, _| true).unwrap();
    assert_eq!(visits(&trace), vec![(0, 1, None), (0, 0, None), (1, 1, Some(0))]);
    let trace = dfs(&g, &[7, 1, 2, 0, usize::MAX], usize::MAX, |_, _, _| true).unwrap();
    assert_eq!(visits(&trace), vec![(0, 1, None), (0, 0, None), (1, 1, Some(0))]);
    assert!(bfs(&g, &[2], usize::MAX, |_, _, _| true).unwrap().is_empty());
    assert!(dfs(&g, &[], usize::MAX, |_, _, _| true).unwrap().is_empty());
    assert!(bfs(&Graph::new(), &[0], usize::MAX, |_, _, _| true).unwrap().is_empty());
}

#[test]
fn several_start_nodes_are_served_in_the_order_given() {
    // a0 b1 c2 d3
    let g = graph(&[("a", "b"), ("c", "d")]);
    let trace = bfs(&g, &[2, 0], usize::MAX, |_, _, _| true).unwrap();
    assert_eq!(
        visits(&trace),
        vec![(0, 2, None), (0, 0, None), (1, 3, Some(2)), (1, 1, Some(0))]
    );
    let trace = dfs(&g, &[2, 0, 2], usize::MAX, |_, _, _| true).unwrap();
    assert_eq!(
        visits(&trace),
        vec![
            (0, 2, None),
            (1, 3, Some(2)),
            (0, 0, None),
            (1, 1, Some(0)),
            (0, 2, None),
            (1, 3, Some(2)),
        ]
    );
}

#[test]
fn a_cycle_is_walked_until_the_callback_stops() {
    let g = graph(&[("a", "b"), ("b", "a")]);
    let trace = bfs(&g, &[0], usize::MAX, |depth, _, _| depth < 3).unwrap();
    assert_eq!(
        trace,
        vec![
            step(0, 0, None, true),
            step(1, 1, Some(0), true),
            step(2, 0, Some(1), true),
            step(3, 1, Some(0), false),
        ]
    );
    let trace = dfs(&g, &[0], usize::MAX, |depth, _, _| depth < 2).unwrap();
    assert_eq!(
        trace,
        vec![
            step(0, 0, None, true),
            step(1, 1, Some(0), true),
            step(2, 0, Some(1), false),
        ]
    );
}

#[test]
fn a_traversal_that_reaches_the_depth_limit_fails_with_its_trace() {
    let g = graph(&[("a", "b"), ("b", "a")]);
    let err = bfs(&g, &[0], 3, |_, _, _| true).unwrap_err();
    assert_eq!(
        err.trace,
        vec![
            step(0, 0, None, true),
            step(1, 1, Some(0), true),
            step(2, 0, Some(1), true),
        ]
    );
    let err = dfs(&g, &[0], 1, |_, _, _| true).unwrap_err();
    assert_eq!(err.trace, vec![step(0, 0, None, true)]);
    let err = dfs(&g, &[0], 0, |_, _, _| true).unwrap_err();
    assert_eq!(err.trace, vec![step(0, 0, None, true)]);
    // a node that is not expanded may stand at the limit
    let ok = bfs(&g, &[0], 2, |depth, _, _| depth < 1).unwrap();
    assert_eq!(ok, vec![step(0, 0, None, true), step(1, 1, Some(0), false)]);
    let acyclic = graph(&[("a", "b")]);
    assert!(bfs(&acyclic, &[0], 2, |_, _, _| true).is_err());
    assert!(bfs(&acyclic, &[0], 3, |_, _, _| true).is_ok());
}

#[test]
fn bfs_path_hands_out_the_whole_path() {
    // a0 b1 c2 d3
    let g = graph(&[("a", "b"), ("a", "c"), ("b", "d"), ("c", "d")]);
    let seen = RefCell::new(Vec::new());
    let trace = bfs_path(&g, &[0, 9], usize::MAX, |path| {
        seen.borrow_mut().push(path.to_vec());
        true
    })
    .unwrap();
    let paths: Vec<Vec<usize>> = trace.iter().map(|s| s.path.clone()).collect();
    assert_eq!(
        paths,
        vec![vec![0], vec![0, 1], vec![0, 2], vec![0, 1, 3], vec![0, 2, 3]]
    );
    assert_eq!(*seen.borrow(), paths);
    let pruned = bfs_path(&g, &[0], usize::MAX, |path| path.len() < 2).unwrap();
    assert_eq!(
        pruned,
        vec![
            PathStep { path: vec![0], expanded: true },
            PathStep { path: vec![0, 1], expanded: false },
            PathStep { path: vec![0, 2], expanded: false },
        ]
    );
}

#[test]
fn bfs_path_fails_when_a_path_reaches_the_limit() {
    let g = graph(&[("a", "b"), ("b", "a")]);
    let err = bfs_path(&g, &[0], 2, |_| true).unwrap_err();
    assert_eq!(
        err.trace,
        vec![
            PathStep { path: vec![0], expanded: true },
            PathStep { path: vec![0, 1], expanded: true },
        ]
    );
    let ok = bfs_path(&g, &[0], 2, |path| path.len() < 2).unwrap();
    assert_eq!(ok.len(), 2);
}
