use depq::graph::{Edge, Graph, RemapError};

fn edge(from: &str, to: &str) -> Edge {
    Edge(from.to_string(), to.to_string())
}

fn graph(pairs: &[(&str, &str)]) -> Graph {
    Graph::from_iter(pairs.iter().map(|(a, b)| edge(a, b)).collect())
}

fn names(values: &[&str]) -> Vec<String> {
    values.iter().map(|s| s.to_string()).collect()
}

fn pairs_of(edges: &[Edge]) -> Vec<(String, String)> {
    edges.iter().map(|e| (e.0.clone(), e.1.clone())).collect()
}

fn sorted_pairs(edges: &[Edge]) -> Vec<(String, String)> {
    let mut pairs = pairs_of(edges);
    pairs.sort();
    pairs
}

#[test]
fn an_edge_inverts_to_its_reverse() {
    assert_eq!(edge("a", "b").invert(), edge("b", "a"));
    assert_eq!(edge("a", "a").invert(), edge("a", "a"));
}

#[test]
fn the_empty_graph_holds_nothing() {
    let g = Graph::default();
    assert_eq!(g.len(), 0);
    assert!(g.values().is_empty());
    assert!(g.to_edges().is_empty());
    assert!(g.find_roots().is_empty());
    let built = Graph::from_iter(Vec::new());
    assert_eq!(built.len(), 0);
    assert_eq!(Graph::new().len(), 0);
}

#[test]
fn values_are_interned_in_first_seen_order() {
    let g = graph(&[("c", "a"), ("b", "a"), ("a", "c"), ("d", "b")]);
    assert_eq!(g.values(), &names(&["c", "a", "b", "d"]));
    assert_eq!(g.len(), 4);
    assert_eq!(g.index_of("c"), Some(0));
    assert_eq!(g.index_of("a"), Some(1));
    assert_eq!(g.index_of("b"), Some(2));
    assert_eq!(g.index_of("d"), Some(3));
    assert_eq!(g.index_of("e"), None);
    assert_eq!(g.index_of(""), None);
}

#[test]
fn the_source_of_an_edge_is_interned_before_its_destination() {
    let g = graph(&[("x", "y")]);
    assert_eq!(g.values(), &names(&["x", "y"]));
    let h = graph(&[("x", "x")]);
    assert_eq!(h.values(), &names(&["x"]));
    assert_eq!(h.to_index_edges(), vec![(0, 0)]);
}

#[test]
fn destinations_keep_insertion_order_with_duplicates_and_self_loops() {
    let g = graph(&[("a", "b"), ("a", "a"), ("a", "b"), ("b", "a"), ("a", "c")]);
    assert_eq!(g.successors(0), Some(&vec![1, 0, 1, 2]));
    assert_eq!(g.successors(1), Some(&vec![0]));
    assert_eq!(g.successors(2), None);
    assert_eq!(g.successors(3), None);
    assert_eq!(g.successors(usize::MAX), None);
    let deps = g.forward_deps();
    assert_eq!(deps.len(), 2);
    assert_eq!(deps.get(&0), Some(&vec![1, 0, 1, 2]));
    assert_eq!(deps.get(&1), Some(&vec![0]));
}

#[test]
fn edges_come_out_by_source_index_then_insertion_order() {
    let g = graph(&[("a", "p"), ("b", "q"), ("a", "c"), ("c", "r")]);
    assert_eq!(g.values(), &names(&["a", "p", "b", "q", "c", "r"]));
    assert_eq!(g.to_index_edges(), vec![(0, 1), (0, 4), (2, 3), (4, 5)]);
    assert_eq!(
        g.to_edges(),
        vec![edge("a", "p"), edge("a", "c"), edge("b", "q"), edge("c", "r")]
    );
}

#[test]
fn listing_the_edges_of_a_built_graph_regroups_the_stream_by_source() {
    let stream = vec![
        edge("b", "x"),
        edge("a", "y"),
        edge("b", "y"),
        edge("a", "x"),
        edge("b", "x"),
        edge("c", "c"),
    ];
    let g = Graph::from_iter(stream.clone());
    let listed = g.to_edges();
    // every edge as often as before
    assert_eq!(sorted_pairs(&listed), sorted_pairs(&stream));
    // the edges of each source in their old order
    for source in ["a", "b", "c", "x", "y"] {
        let old: Vec<&Edge> = stream.iter().filter(|e| e.0 == source).collect();
        let new: Vec<&Edge> = listed.iter().filter(|e| e.0 == source).collect();
        assert_eq!(old, new);
    }
    assert_eq!(
        listed,
        vec![
            edge("b", "x"),
            edge("b", "y"),
            edge("b", "x"),
            edge("a", "y"),
            edge("a", "x"),
            edge("c", "c"),
        ]
    );
}

#[test]
fn roots_are_the_indices_without_incoming_edge_in_ascending_order() {
    let g = graph(&[("d", "b"), ("c", "b"), ("a", "c"), ("e", "e")]);
    // d0 b1 c2 a3 e4
    assert_eq!(g.values(), &names(&["d", "b", "c", "a", "e"]));
    assert_eq!(g.find_roots(), vec![0, 3]);
}

#[test]
fn a_graph_covered_by_cycles_has_no_root() {
    assert!(graph(&[("a", "b"), ("b", "a")]).find_roots().is_empty());
    assert!(graph(&[("a", "a")]).find_roots().is_empty());
    assert!(graph(&[("a", "b"), ("b", "c"), ("c", "a"), ("c", "c")]).find_roots().is_empty());
    assert_eq!(graph(&[("a", "b"), ("b", "b")]).find_roots(), vec![0]);
}

#[test]
fn inverting_reinterns_the_values_of_the_reversed_stream() {
    let g = graph(&[("a", "b"), ("b", "c"), ("a", "c")]);
    let inv = g.invert();
    // the reversed canonical stream is b a, c a, c b
    assert_eq!(inv.values(), &names(&["b", "a", "c"]));
    assert_eq!(inv.to_edges(), vec![edge("b", "a"), edge("c", "a"), edge("c", "b")]);
    assert_eq!(inv.to_index_edges(), vec![(0, 1), (2, 1), (2, 0)]);
    // the source graph is untouched
    assert_eq!(g.values(), &names(&["a", "b", "c"]));
    assert_eq!(g.to_index_edges(), vec![(0, 1), (0, 2), (1, 2)]);
}

#[test]
fn the_inverted_graph_remapped_onto_the_old_values_has_the_reversed_edges() {
    let g = graph(&[("a", "b"), ("b", "c"), ("a", "c")]);
    let back = g.invert().remap(names(&["a", "b", "c"])).unwrap();
    assert_eq!(back.values(), &names(&["a", "b", "c"]));
    assert_eq!(back.find_roots(), vec![2]);
    assert_eq!(back.to_edges(), vec![edge("b", "a"), edge("c", "a"), edge("c", "b")]);
    assert_eq!(back.to_index_edges(), vec![(1, 0), (2, 0), (2, 1)]);
    let reversed = g.reversed();
    assert_eq!(reversed.values(), g.values());
    assert_eq!(reversed.to_index_edges(), vec![(1, 0), (2, 0), (2, 1)]);
    assert_eq!(reversed.find_roots(), vec![2]);
}

#[test]
fn remapping_reindexes_the_edges_onto_the_given_values() {
    let g = graph(&[("a", "b"), ("a", "c"), ("c", "b")]);
    let r = g.remap(names(&["z", "c", "b", "a"])).unwrap();
    assert_eq!(r.values(), &names(&["z", "c", "b", "a"]));
    assert_eq!(r.index_of("a"), Some(3));
    assert_eq!(r.index_of("z"), Some(0));
    assert_eq!(r.successors(3), Some(&vec![2, 1]));
    assert_eq!(r.successors(1), Some(&vec![2]));
    assert_eq!(r.successors(0), None);
    assert_eq!(r.successors(2), None);
    assert_eq!(r.to_edges(), vec![edge("c", "b"), edge("a", "b"), edge("a", "c")]);
    assert_eq!(r.find_roots(), vec![0, 3]);
}

#[test]
fn remapping_onto_values_that_lack_an_end_of_an_edge_fails() {
    let g = graph(&[("a", "b"), ("b", "c")]);
    assert_eq!(g.remap(names(&["a", "b"])).err(), Some(RemapError::MissingValue));
    assert_eq!(g.remap(names(&["b", "c"])).err(), Some(RemapError::MissingValue));
    assert_eq!(g.remap(Vec::new()).err(), Some(RemapError::MissingValue));
    assert!(Graph::new().remap(Vec::new()).is_ok());
    assert!(Graph::new().remap(names(&["x"])).is_ok());
}

#[test]
fn remapping_onto_values_with_a_repetition_fails() {
    let g = graph(&[("a", "b")]);
    assert_eq!(g.remap(names(&["a", "b", "a"])).err(), Some(RemapError::DuplicateValue));
    assert_eq!(Graph::new().remap(names(&["x", "x"])).err(), Some(RemapError::DuplicateValue));
}

#[test]
fn inverting_twice_and_remapping_gives_the_edges_back() {
    let g = graph(&[
        ("a", "p"),
        ("b", "q"),
        ("a", "c"),
        ("c", "r"),
        ("a", "p"),
        ("r", "r"),
        ("q", "a"),
    ]);
    let twice = g.invert().invert();
    let back = twice.remap(g.values().clone()).unwrap();
    assert_eq!(back.values(), g.values());
    let mut old = g.to_index_edges();
    let mut new = back.to_index_edges();
    old.sort();
    new.sort();
    assert_eq!(old, new);
    assert_eq!(sorted_pairs(&back.to_edges()), sorted_pairs(&g.to_edges()));
}

#[test]
fn adjacency_entries_list_each_source_with_its_destinations() {
    let g = graph(&[("b", "x"), ("a", "y"), ("b", "y")]);
    assert_eq!(
        g.to_adjacency(),
        vec![
            ("b".to_string(), names(&["x", "y"])),
            ("a".to_string(), names(&["y"])),
        ]
    );
    let entries = vec![
        ("a".to_string(), names(&["b", "c"])),
        ("k".to_string(), Vec::new()),
        ("b".to_string(), names(&["a"])),
    ];
    let h = Graph::from_adjacency(&entries);
    assert_eq!(h.values(), &names(&["a", "b", "c"]));
    assert_eq!(h.to_edges(), vec![edge("a", "b"), edge("a", "c"), edge("b", "a")]);
}
