use depq::format::{show, InputFormat, LoadError, OutputFormat, ShowError};
use depq::graph::Graph;
use depq::report::{bfs, dfs, tsort, ReportError};
use depq::text::load_text;

const EXAMPLE: &str = "a b\na c\nb d\nc d\nd e\nf g\n";

const EXAMPLE_PATH: &str = "tests/fixtures/example.txt";

const EXAMPLE_INVERTED: &str = "b a\nc a\nd b\nd c\ne d\ng f\n";

const EXAMPLE_JSON: &str = "{\"a\":[\"b\",\"c\"],\"b\":[\"d\"],\"c\":[\"d\"],\"d\":[\"e\"],\"f\":[\"g\"]}\n";

const EXAMPLE_JSON_PATH: &str = "tests/fixtures/example.json";

const EXAMPLE_DOT: &str = "digraph {\n    n0 [label=\"a\"];\n    n1 [label=\"b\"];\n    n2 [label=\"c\"];\n    n3 [label=\"d\"];\n    n4 [label=\"e\"];\n    n5 [label=\"f\"];\n    n6 [label=\"g\"];\n\n    n0 -> n1;\n    n0 -> n2;\n    n1 -> n3;\n    n2 -> n3;\n    n3 -> n4;\n    n5 -> n6;\n}\n";

const HAS_LOOP: &str = "a b\nb c\nc a\nc d\n";

fn example() -> Graph {
    load_text(EXAMPLE).unwrap()
}

fn lines(text: &[&str]) -> Vec<String> {
    text.iter().map(|s| s.to_string()).collect()
}

#[test]
fn test_show_as_text() {
    let out = show(EXAMPLE, InputFormat::Text, false, OutputFormat::Text);
    assert_eq!(out, Ok(EXAMPLE.to_string()));
}

#[test]
fn test_show_as_text_with_file() {
    let from = InputFormat::assume_from_path(EXAMPLE_PATH);
    assert_eq!(from, InputFormat::Text);
    let to = OutputFormat::assume_from_path("-");
    assert_eq!(to, OutputFormat::Text);
    let out = show(EXAMPLE, from, false, to);
    assert_eq!(out, Ok(EXAMPLE.to_string()));
}

#[test]
fn test_show_as_text_inverted() {
    let out = show(EXAMPLE, InputFormat::Text, true, OutputFormat::Text);
    assert_eq!(out, Ok(EXAMPLE_INVERTED.to_string()));
}

#[test]
fn test_show_as_json() {
    let out = show(EXAMPLE, InputFormat::Text, false, OutputFormat::Json);
    assert_eq!(out, Ok(EXAMPLE_JSON.to_string()));
}

#[test]
fn test_show_as_json_with_json() {
    let from = InputFormat::assume_from_path(EXAMPLE_JSON_PATH);
    assert_eq!(from, InputFormat::Json);
    let out = show(EXAMPLE_JSON, from, false, OutputFormat::Json);
    assert_eq!(out, Ok(EXAMPLE_JSON.to_string()));
}

#[test]
fn test_show_as_dot() {
    let out = show(EXAMPLE, InputFormat::Text, false, OutputFormat::Dot);
    assert_eq!(out, Ok(EXAMPLE_DOT.to_string()));
}

#[test]
fn test_dfs() {
    let out = dfs(&example(), None, false, false, None);
    assert_eq!(
        out,
        Ok(lines(&["a b 1", "b d 2", "d e 3", "a c 1", "c d 2", "d e 3", "f g 1"]))
    );
}

#[test]
fn test_dfs_with_file() {
    let from = InputFormat::assume_from_path(EXAMPLE_PATH);
    let graph = depq::format::load(EXAMPLE, from).unwrap();
    let out = dfs(&graph, None, false, false, None);
    assert_eq!(
        out,
        Ok(lines(&["a b 1", "b d 2", "d e 3", "a c 1", "c d 2", "d e 3", "f g 1"]))
    );
}

#[test]
fn test_dfs_tree() {
    let out = dfs(&example(), None, false, true, None);
    assert_eq!(
        out,
        Ok(lines(&[
            "* a",
            "    * b",
            "        * d",
            "            * e",
            "    * c",
            "        * d",
            "            * e",
            "* f",
            "    * g",
        ]))
    );
}

#[test]
fn test_dfs_path() {
    let out = dfs(&example(), None, true, false, None);
    assert_eq!(
        out,
        Ok(lines(&[
            "a", "a b", "a b d", "a b d e", "a c", "a c d", "a c d e", "f", "f g",
        ]))
    );
}

#[test]
fn test_bfs() {
    let out = bfs(&example(), None, false, None);
    assert_eq!(
        out,
        Ok(lines(&["a b 1", "a c 1", "f g 1", "b d 2", "c d 2", "d e 3", "d e 3"]))
    );
}

#[test]
fn test_bfs_with_file() {
    let from = InputFormat::assume_from_path(EXAMPLE_PATH);
    let graph = depq::format::load(EXAMPLE, from).unwrap();
    let out = bfs(&graph, None, false, None);
    assert_eq!(
        out,
        Ok(lines(&["a b 1", "a c 1", "f g 1", "b d 2", "c d 2", "d e 3", "d e 3"]))
    );
}

#[test]
fn test_bfs_path() {
    let out = bfs(&example(), None, true, None);
    assert_eq!(
        out,
        Ok(lines(&[
            "a", "f", "a b", "a c", "f g", "a b d", "a c d", "a b d e", "a c d e",
        ]))
    );
}

#[test]
fn test_tsort() {
    let report = tsort(&example());
    assert_eq!(report.sorted, lines(&["a", "b", "c", "d", "e", "f", "g"]));
    assert!(report.looped.is_empty());
}

#[test]
fn test_tsort_with_file() {
    let from = InputFormat::assume_from_path(EXAMPLE_PATH);
    let graph = depq::format::load(EXAMPLE, from).unwrap();
    let report = tsort(&graph);
    assert_eq!(report.sorted, lines(&["a", "b", "c", "d", "e", "f", "g"]));
    assert!(report.looped.is_empty());
}

#[test]
fn test_tsort_has_loop() {
    let graph = load_text(HAS_LOOP).unwrap();
    let report = tsort(&graph);
    assert!(!report.looped.is_empty());
    assert_eq!(report.sorted, Vec::<String>::new());
    assert_eq!(report.looped, lines(&["a", "b", "c", "d"]));
}

#[test]
fn show_fails_on_a_line_without_space() {
    let out = show("a b\nc\n", InputFormat::Text, false, OutputFormat::Text);
    match out {
        Err(ShowError::Load(LoadError::Text(e))) => assert_eq!(e.line, 1),
        _ => panic!("a malformed line must fail with its position"),
    }
}

#[test]
fn show_fails_on_malformed_json() {
    let out = show("{\"a\": [\"b\"", InputFormat::Json, false, OutputFormat::Text);
    assert!(matches!(out, Err(ShowError::Load(LoadError::Json(_)))));
}

#[test]
fn traversal_from_an_unknown_start_fails() {
    assert_eq!(bfs(&example(), Some("z"), false, None), Err(ReportError::UnknownStartNode));
    assert_eq!(dfs(&example(), Some("z"), false, false, None), Err(ReportError::UnknownStartNode));
}

#[test]
fn traversal_of_a_cycle_without_bound_fails() {
    let graph = load_text("a b\nb a\n").unwrap();
    assert_eq!(bfs(&graph, Some("a"), false, None), Err(ReportError::DepthLimitExceeded));
    assert_eq!(bfs(&graph, Some("a"), true, None), Err(ReportError::DepthLimitExceeded));
    assert_eq!(dfs(&graph, Some("a"), false, false, None), Err(ReportError::DepthLimitExceeded));
    assert_eq!(dfs(&graph, Some("a"), false, true, None), Err(ReportError::DepthLimitExceeded));
    assert_eq!(dfs(&graph, Some("a"), true, false, None), Err(ReportError::DepthLimitExceeded));
}

#[test]
fn traversal_of_a_cycle_stops_at_the_bound() {
    let graph = load_text("a b\nb a\n").unwrap();
    assert_eq!(
        bfs(&graph, Some("a"), false, Some(3)),
        Ok(lines(&["a b 1", "b a 2"]))
    );
    assert_eq!(
        dfs(&graph, Some("a"), false, true, Some(3)),
        Ok(lines(&["* a", "    * b", "        * a"]))
    );
    assert_eq!(
        dfs(&graph, Some("a"), true, false, Some(2)),
        Ok(lines(&["a", "a b"]))
    );
    assert_eq!(
        bfs(&graph, Some("a"), true, Some(2)),
        Ok(lines(&["a", "a b"]))
    );
}

#[test]
fn start_nodes_are_always_expanded_in_edge_reports() {
    let graph = example();
    assert_eq!(bfs(&graph, Some("a"), false, Some(0)), Ok(lines(&["a b 1", "a c 1"])));
    assert_eq!(bfs(&graph, Some("a"), false, Some(1)), Ok(lines(&["a b 1", "a c 1"])));
    assert_eq!(dfs(&graph, Some("a"), false, false, Some(2)), Ok(lines(&["a b 1", "a c 1"])));
    assert_eq!(dfs(&graph, Some("a"), false, true, Some(1)), Ok(lines(&["* a"])));
}
