use depq::graph::{Edge, Graph};
use depq::tsort::tsort;
use std::cell::RefCell;
use std::collections::HashSet;

fn graph(pairs: &[(&str, &str)]) -> Graph {
    Graph::from_iter(pairs.iter().map(|(a, b)| Edge(a.to_string(), b.to_string())).collect())
}

fn set(nodes: &[usize]) -> HashSet<usize> {
    nodes.iter().copied().collect()
}

#[test]
fn a_chain_with_a_shortcut_is_sorted() {
    let g = graph(&[("a", "b"), ("b", "c"), ("a", "c")]);
    assert_eq!(tsort(&g, |_| ()).unwrap(), vec![0, 1, 2]);
}

#[test]
fn a_cycle_of_two_nodes_emits_nothing() {
    let g = graph(&[("a", "b"), ("b", "a")]);
    let cycle = tsort(&g, |_| ()).unwrap_err();
    assert!(cycle.emitted.is_empty());
    assert_eq!(cycle.residual, set(&[0, 1]));
}

#[test]
fn the_callback_sees_the_nodes_in_the_order_of_the_result() {
    let g = graph(&[("a", "b"), ("c", "b"), ("b", "d")]);
    let seen = RefCell::new(Vec::new());
    let order = tsort(&g, |node| seen.borrow_mut().push(node)).unwrap();
    assert_eq!(*seen.borrow(), order);
}

#[test]
fn roots_are_emitted_in_ascending_order() {
    // a0 x1 b2 y3 c4 z5
    let g = graph(&[("a", "x"), ("b", "y"), ("c", "z")]);
    assert_eq!(tsort(&g, |_| ()).unwrap(), vec![0, 1, 2, 3, 4, 5]);
}

#[test]
fn freed_nodes_are_emitted_before_older_ready_nodes() {
    // a0 b1 c2 d3 e4
    let g = graph(&[("a", "b"), ("a", "c"), ("d", "e")]);
    // roots a and d; b and c are freed by a and come before d
    assert_eq!(tsort(&g, |_| ()).unwrap(), vec![0, 1, 2, 3, 4]);
    // a0 c1 b2: the destinations of a are freed first to last
    let h = graph(&[("a", "c"), ("a", "b")]);
    assert_eq!(tsort(&h, |_| ()).unwrap(), vec![0, 1, 2]);
}

#[test]
fn a_node_waits_for_all_its_sources() {
    // a0 d1 b2 c3
    let g = graph(&[("a", "d"), ("b", "d"), ("c", "d"), ("a", "b")]);
    // roots a and c; a frees b (d still waits), b frees nothing, c frees d
    assert_eq!(tsort(&g, |_| ()).unwrap(), vec![0, 2, 3, 1]);
}

#[test]
fn repeated_edges_count_once() {
    let g = graph(&[("a", "b"), ("a", "b"), ("b", "c"), ("a", "b")]);
    assert_eq!(tsort(&g, |_| ()).unwrap(), vec![0, 1, 2]);
}

#[test]
fn the_order_puts_every_source_before_its_destination() {
    let pairs = [
        ("e", "f"),
        ("a", "d"),
        ("b", "d"),
        ("d", "e"),
        ("c", "f"),
        ("a", "c"),
        ("b", "e"),
    ];
    let g = graph(&pairs);
    let order = tsort(&g, |_| ()).unwrap();
    let mut sorted = order.clone();
    sorted.sort();
    assert_eq!(sorted, (0..g.len()).collect::<Vec<usize>>());
    for (from, to) in g.to_index_edges() {
        let i = order.iter().position(|n| *n == from).unwrap();
        let j = order.iter().position(|n| *n == to).unwrap();
        assert!(i < j);
    }
}

#[test]
fn a_self_loop_is_a_cycle() {
    let g = graph(&[("a", "a")]);
    let cycle = tsort(&g, |_| ()).unwrap_err();
    assert!(cycle.emitted.is_empty());
    assert_eq!(cycle.residual, set(&[0]));
}

#[test]
fn a_cycle_leaves_what_comes_before_it_in_order() {
    // r0 a1 b2 c3 s4 t5
    let g = graph(&[("r", "a"), ("a", "b"), ("b", "c"), ("c", "a"), ("c", "s"), ("r", "t")]);
    let cycle = tsort(&g, |_| ()).unwrap_err();
    assert_eq!(cycle.emitted, vec![0, 5]);
    // the nodes of the cycle, and the node that is reached only through it
    assert_eq!(cycle.residual, set(&[1, 2, 3, 4]));
    for (from, to) in g.to_index_edges() {
        if let Some(j) = cycle.emitted.iter().position(|n| *n == to) {
            let i = cycle.emitted.iter().position(|n| *n == from).unwrap();
            assert!(i < j);
        }
    }
}

#[test]
fn a_sink_behind_a_cycle_is_residual() {
    // a0 b1 c2
    let g = graph(&[("a", "b"), ("b", "a"), ("b", "c")]);
    let seen = RefCell::new(Vec::new());
    let cycle = tsort(&g, |node| seen.borrow_mut().push(node)).unwrap_err();
    assert!(seen.borrow().is_empty());
    assert!(cycle.emitted.is_empty());
    assert_eq!(cycle.residual, set(&[0, 1, 2]));
}

#[test]
fn the_residual_is_what_was_not_emitted() {
    // r0 s1 a2 b3 c4 d5 e6
    let g = graph(&[
        ("r", "s"),
        ("a", "b"),
        ("b", "a"),
        ("b", "c"),
        ("c", "d"),
        ("r", "c"),
        ("e", "e"),
    ]);
    let cycle = tsort(&g, |_| ()).unwrap_err();
    assert_eq!(cycle.emitted, vec![0, 1]);
    assert_eq!(cycle.residual, set(&[2, 3, 4, 5, 6]));
}

#[test]
fn the_empty_graph_is_sorted() {
    assert_eq!(tsort(&Graph::new(), |_| ()).unwrap(), Vec::<usize>::new());
}
