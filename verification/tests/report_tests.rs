use depq::graph::{Edge, Graph};
use depq::report::{bfs_paths, dfs_paths, edges, join, start_nodes, tree, tsort, ReportError};
use depq::traverse::Discipline;

fn graph(pairs: &[(&str, &str)]) -> Graph {
    Graph::from_iter(pairs.iter().map(|(a, b)| Edge(a.to_string(), b.to_string())).collect())
}

fn lines(text: &[&str]) -> Vec<String> {
    text.iter().map(|s| s.to_string()).collect()
}

#[test]
fn a_traversal_starts_from_the_start_value_or_the_roots() {
    let g = graph(&[("a", "b"), ("c", "b")]);
    assert_eq!(start_nodes(&g, Some("b")), Ok(vec![1]));
    assert_eq!(start_nodes(&g, Some("c")), Ok(vec![2]));
    assert_eq!(start_nodes(&g, None), Ok(vec![0, 2]));
    assert_eq!(start_nodes(&g, Some("x")), Err(ReportError::UnknownStartNode));
    assert_eq!(start_nodes(&Graph::new(), None), Ok(Vec::new()));
}

#[test]
fn parts_are_joined_by_single_spaces() {
    assert_eq!(join(&Vec::new()), "");
    assert_eq!(join(&lines(&["a"])), "a");
    assert_eq!(join(&lines(&["a", "b", "c"])), "a b c");
    assert_eq!(join(&lines(&["", "b", ""])), " b ");
}

#[test]
fn edge_reports_name_predecessor_node_and_depth() {
    let g = graph(&[("a", "b"), ("a", "c"), ("b", "d"), ("c", "d")]);
    assert_eq!(
        edges(&g, Discipline::Fifo, &vec![0], None),
        Ok(lines(&["a b 1", "a c 1", "b d 2", "c d 2"]))
    );
    assert_eq!(
        edges(&g, Discipline::Lifo, &vec![0], None),
        Ok(lines(&["a b 1", "b d 2", "a c 1", "c d 2"]))
    );
    assert_eq!(edges(&g, Discipline::Fifo, &vec![3], None), Ok(Vec::new()));
    assert_eq!(edges(&g, Discipline::Fifo, &vec![], None), Ok(Vec::new()));
}

#[test]
fn depths_beyond_nine_are_written_in_full() {
    let mut pairs = Vec::new();
    let labels: Vec<String> = (0..13).map(|i| format!("v{}", i)).collect();
    for i in 0..12 {
        pairs.push((labels[i].as_str(), labels[i + 1].as_str()));
    }
    let g = graph(&pairs);
    let out = edges(&g, Discipline::Lifo, &vec![0], None).unwrap();
    assert_eq!(out[9], "v9 v10 10");
    assert_eq!(out[11], "v11 v12 12");
}

#[test]
fn a_named_bound_cuts_the_report() {
    let g = graph(&[("a", "b"), ("b", "c"), ("c", "d")]);
    assert_eq!(edges(&g, Discipline::Fifo, &vec![0], Some(2)), Ok(lines(&["a b 1"])));
    assert_eq!(edges(&g, Discipline::Fifo, &vec![0], Some(3)), Ok(lines(&["a b 1", "b c 2"])));
    assert_eq!(tree(&g, &vec![0], Some(2)), Ok(lines(&["* a", "    * b"])));
    assert_eq!(tree(&g, &vec![0], Some(0)), Ok(lines(&["* a"])));
    assert_eq!(dfs_paths(&g, &vec![0], Some(3)), Ok(lines(&["a", "a b", "a b c"])));
    assert_eq!(bfs_paths(&g, &vec![0], Some(3)), Ok(lines(&["a", "a b", "a b c"])));
    assert_eq!(bfs_paths(&g, &vec![0], Some(0)), Ok(lines(&["a"])));
}

#[test]
fn the_default_bound_fails_a_traversal_without_bound() {
    let g = graph(&[("a", "a")]);
    assert_eq!(edges(&g, Discipline::Fifo, &vec![0], None), Err(ReportError::DepthLimitExceeded));
    assert_eq!(edges(&g, Discipline::Lifo, &vec![0], None), Err(ReportError::DepthLimitExceeded));
    assert_eq!(tree(&g, &vec![0], None), Err(ReportError::DepthLimitExceeded));
    assert_eq!(dfs_paths(&g, &vec![0], None), Err(ReportError::DepthLimitExceeded));
    assert_eq!(bfs_paths(&g, &vec![0], None), Err(ReportError::DepthLimitExceeded));
    assert_eq!(edges(&g, Discipline::Fifo, &vec![0], Some(1000)).map(|l| l.len()), Ok(999));
}

#[test]
fn the_path_report_of_a_depth_first_traversal_follows_the_stack() {
    let g = graph(&[("a", "b"), ("b", "c"), ("a", "d"), ("x", "y")]);
    assert_eq!(
        dfs_paths(&g, &vec![0, 4], None),
        Ok(lines(&["a", "a b", "a b c", "a d", "x", "x y"]))
    );
}

#[test]
fn the_sort_report_names_the_values() {
    let g = graph(&[("b", "c"), ("a", "b")]);
    let report = tsort(&g);
    assert_eq!(report.sorted, lines(&["a", "b", "c"]));
    assert!(report.looped.is_empty());
}

#[test]
fn the_sort_report_lists_the_residual_values_by_ascending_index() {
    let mut pairs = vec![("r", "s")];
    let labels: Vec<String> = (0..40).map(|i| format!("n{:02}", i)).collect();
    for i in 0..40 {
        pairs.push((labels[i].as_str(), labels[(i + 1) % 40].as_str()));
    }
    let g = graph(&pairs);
    let report = tsort(&g);
    assert_eq!(report.sorted, lines(&["r", "s"]));
    assert_eq!(report.looped, labels);
}

#[test]
fn the_sort_report_lists_what_is_reached_only_through_a_cycle() {
    let g = graph(&[("a", "b"), ("b", "a"), ("b", "c"), ("c", "d"), ("r", "d")]);
    let report = tsort(&g);
    assert_eq!(report.sorted, lines(&["r"]));
    assert_eq!(report.looped, lines(&["a", "b", "c", "d"]));
}
