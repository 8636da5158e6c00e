use depq::depth::{check_max_depth, failing_depth, should_expand, DepthCheck, DEFAULT_MAX_DEPTH};
use depq::dot::{dump_dot, push_decimal, push_escaped};
use depq::format::{dump, load, to_ascii_lower, InputFormat, LoadError, OutputFormat};
use depq::graph::{Edge, Graph};
use depq::json::{dump_json, finish_json, load_json, JsonFailure};
use depq::text::{dump_text, load_text, read_edges, read_line, split_lines, write_edges, MalformedLine};

fn edge(from: &str, to: &str) -> Edge {
    Edge(from.to_string(), to.to_string())
}

fn names(values: &[&str]) -> Vec<String> {
    values.iter().map(|s| s.to_string()).collect()
}

fn decimal(n: usize) -> String {
    let mut out = String::new();
    push_decimal(&mut out, n);
    out
}

fn escaped(value: &str) -> String {
    let mut out = String::new();
    push_escaped(&mut out, value);
    out
}

#[test]
fn lines_end_at_line_feeds() {
    assert_eq!(split_lines(""), Vec::<String>::new());
    assert_eq!(split_lines("a b"), names(&["a b"]));
    assert_eq!(split_lines("a b\n"), names(&["a b"]));
    assert_eq!(split_lines("a b\nc d"), names(&["a b", "c d"]));
    assert_eq!(split_lines("a b\n\nc d\n"), names(&["a b", "", "c d"]));
    assert_eq!(split_lines("\n"), names(&[""]));
    assert_eq!(split_lines("\n\n"), names(&["", ""]));
}

#[test]
fn a_carriage_return_before_the_line_feed_belongs_to_the_line_ending() {
    assert_eq!(split_lines("a b\r\nc d\r\n"), names(&["a b", "c d"]));
    assert_eq!(split_lines("a b\r\r\n"), names(&["a b\r"]));
    assert_eq!(split_lines("a\rb\n"), names(&["a\rb"]));
    assert_eq!(split_lines("a b\r"), names(&["a b\r"]));
    assert_eq!(split_lines("\r\n"), names(&[""]));
    assert_eq!(split_lines("\r"), names(&["\r"]));
    assert_eq!(split_lines("\r\r"), names(&["\r\r"]));
    assert_eq!(split_lines("x\r\ny"), names(&["x", "y"]));
}

#[test]
fn a_line_splits_at_its_first_space() {
    assert_eq!(read_line("a b"), Some(edge("a", "b")));
    assert_eq!(read_line("a b c"), Some(edge("a", "b c")));
    assert_eq!(read_line("a  b"), Some(edge("a", " b")));
    assert_eq!(read_line(" b"), Some(edge("", "b")));
    assert_eq!(read_line("a "), Some(edge("a", "")));
    assert_eq!(read_line(" "), Some(edge("", "")));
    assert_eq!(read_line("\u{e9}t\u{e9} hiver"), Some(edge("\u{e9}t\u{e9}", "hiver")));
    assert_eq!(read_line("ab"), None);
    assert_eq!(read_line(""), None);
    assert_eq!(read_line("a\tb"), None);
}

#[test]
fn a_text_stands_for_its_edges_in_order() {
    assert_eq!(read_edges(""), Ok(Vec::new()));
    assert_eq!(
        read_edges("a b\r\nb c\na b"),
        Ok(vec![edge("a", "b"), edge("b", "c"), edge("a", "b")])
    );
}

#[test]
fn the_first_line_without_space_fails_the_text() {
    assert_eq!(read_edges("a b\nc\nd\n"), Err(MalformedLine { line: 1 }));
    assert_eq!(read_edges("x"), Err(MalformedLine { line: 0 }));
    assert_eq!(read_edges("a b\n\n"), Err(MalformedLine { line: 1 }));
    assert_eq!(read_edges("\r\n"), Err(MalformedLine { line: 0 }));
    assert_eq!(load_text("a b\nc").err(), Some(MalformedLine { line: 1 }));
    match load("a b\nc", InputFormat::Text) {
        Err(LoadError::Text(e)) => assert_eq!(e.line, 1),
        _ => panic!("a malformed line must fail the load"),
    }
}

#[test]
fn the_text_of_a_graph_lists_its_edges_in_canonical_order() {
    let g = load_text("b x\na y\nb y\n").unwrap();
    assert_eq!(dump_text(&g), "b x\nb y\na y\n");
    assert_eq!(dump_text(&Graph::new()), "");
    assert_eq!(write_edges(&vec![edge("a", "b c"), edge("", "")]), "a b c\n \n");
}

#[test]
fn written_edges_read_back() {
    let edges = vec![edge("a", "b"), edge("a", "b c"), edge("", "x"), edge("y", ""), edge("a\r", "b")];
    assert_eq!(read_edges(&write_edges(&edges)), Ok(edges));
}

#[test]
fn a_dump_of_a_loaded_dump_may_regroup_the_edges() {
    let first = dump_text(&load_text("a p\nb q\na c\nc r\n").unwrap());
    assert_eq!(first, "a p\na c\nb q\nc r\n");
    let second = dump_text(&load_text(&first).unwrap());
    assert_eq!(second, "a p\na c\nc r\nb q\n");
    // a graph whose canonical edges build a graph with the same canonical edges
    let stable = dump_text(&load_text(&second).unwrap());
    assert_eq!(stable, second);
}

#[test]
fn numerals_are_decimal_without_leading_zeros() {
    assert_eq!(decimal(0), "0");
    assert_eq!(decimal(7), "7");
    assert_eq!(decimal(10), "10");
    assert_eq!(decimal(1205), "1205");
    assert_eq!(decimal(usize::MAX), usize::MAX.to_string());
}

#[test]
fn labels_escape_backslash_quote_and_line_feed() {
    assert_eq!(escaped("plain"), "plain");
    assert_eq!(escaped("a\\b"), "a\\\\b");
    assert_eq!(escaped("say \"hi\""), "say \\\"hi\\\"");
    assert_eq!(escaped("two\nlines"), "two\\nlines");
    assert_eq!(escaped("\\\"\n"), "\\\\\\\"\\n");
    assert_eq!(escaped(""), "");
}

#[test]
fn the_dot_text_declares_nodes_then_edges() {
    let g = Graph::from_iter(vec![edge("a\"b", "c\\d"), edge("c\\d", "a\"b")]);
    assert_eq!(
        dump_dot(&g),
        "digraph {\n    n0 [label=\"a\\\"b\"];\n    n1 [label=\"c\\\\d\"];\n\n    n0 -> n1;\n    n1 -> n0;\n}\n"
    );
    assert_eq!(dump_dot(&Graph::new()), "digraph {\n\n}\n");
    let mut edges = Vec::new();
    for i in 0..11 {
        edges.push(edge(&format!("v{}", i), &format!("v{}", i + 1)));
    }
    let long = dump_dot(&Graph::from_iter(edges));
    assert!(long.contains("    n10 [label=\"v10\"];\n"));
    assert!(long.contains("    n10 -> n11;\n"));
}

#[test]
fn json_loads_the_entries_by_ascending_source() {
    let g = load_json("{\"b\": [\"x\", \"y\"], \"a\": [\"y\"], \"c\": []}").unwrap();
    assert_eq!(g.values(), &names(&["a", "y", "b", "x"]));
    assert_eq!(g.to_edges(), vec![edge("a", "y"), edge("b", "x"), edge("b", "y")]);
    assert_eq!(load_json("{}").unwrap().len(), 0);
}

#[test]
fn json_that_is_no_map_of_lists_fails() {
    for text in ["", "[", "[1, 2]", "{\"a\": \"b\"}", "{\"a\": [1]}", "{\"a\": [\"b\"]} x", "null"] {
        let err = load_json(text).err().unwrap();
        assert!(!err.message.is_empty());
        assert!(matches!(load(text, InputFormat::Json), Err(LoadError::Json(_))));
    }
}

#[test]
fn json_dumps_a_map_from_each_source_to_its_destinations() {
    let g = load_text("b x\na y\nb y\nq \"z\"\n").unwrap();
    assert_eq!(
        dump_json(&g),
        Ok("{\"a\":[\"y\"],\"b\":[\"x\",\"y\"],\"q\":[\"\\\"z\\\"\"]}\n".to_string())
    );
    assert_eq!(dump_json(&Graph::new()), Ok("{}\n".to_string()));
    let text = dump_json(&g).unwrap();
    let back = load_json(&text).unwrap();
    assert_eq!(dump_json(&back), Ok(text));
}

#[test]
fn a_written_text_gets_a_line_feed_and_a_failure_keeps_what_was_said() {
    assert_eq!(finish_json(Ok("{}".to_string())), Ok("{}\n".to_string()));
    assert_eq!(finish_json(Ok(String::new())), Ok("\n".to_string()));
    let failure = serde_json::from_str::<Vec<String>>("[").unwrap_err();
    let said = failure.to_string();
    assert!(!said.is_empty());
    assert_eq!(finish_json(Err(failure)), Err(JsonFailure { message: said }));
}

#[test]
fn a_dump_is_in_the_format_asked_for() {
    let g = load_text("a b\n").unwrap();
    assert_eq!(dump(&g, OutputFormat::Text), Ok("a b\n".to_string()));
    assert_eq!(dump(&g, OutputFormat::Json), Ok("{\"a\":[\"b\"]}\n".to_string()));
    assert_eq!(
        dump(&g, OutputFormat::Dot),
        Ok("digraph {\n    n0 [label=\"a\"];\n    n1 [label=\"b\"];\n\n    n0 -> n1;\n}\n".to_string())
    );
    let loaded = load("{\"a\": [\"b\"]}", InputFormat::Json).unwrap();
    assert_eq!(dump(&loaded, OutputFormat::Text), Ok("a b\n".to_string()));
}

#[test]
fn ascii_capitals_become_small() {
    assert_eq!(to_ascii_lower("JSON"), "json");
    assert_eq!(to_ascii_lower("AZaz09@[`{"), "azaz09@[`{");
    assert_eq!(to_ascii_lower("\u{c9}T\u{c9}"), "\u{c9}t\u{c9}");
    assert_eq!(to_ascii_lower(""), "");
}

#[test]
fn an_extension_names_the_format_in_any_case() {
    assert_eq!(InputFormat::of_extension(Some("json")), InputFormat::Json);
    assert_eq!(InputFormat::of_extension(Some("JsOn")), InputFormat::Json);
    assert_eq!(InputFormat::of_extension(Some("txt")), InputFormat::Text);
    assert_eq!(InputFormat::of_extension(Some("dot")), InputFormat::Text);
    assert_eq!(InputFormat::of_extension(Some("jsonx")), InputFormat::Text);
    assert_eq!(InputFormat::of_extension(Some("")), InputFormat::Text);
    assert_eq!(InputFormat::of_extension(None), InputFormat::Text);
    assert_eq!(OutputFormat::of_extension(Some("json")), OutputFormat::Json);
    assert_eq!(OutputFormat::of_extension(Some("JSON")), OutputFormat::Json);
    assert_eq!(OutputFormat::of_extension(Some("dot")), OutputFormat::Dot);
    assert_eq!(OutputFormat::of_extension(Some("DOT")), OutputFormat::Dot);
    assert_eq!(OutputFormat::of_extension(Some("do")), OutputFormat::Text);
    assert_eq!(OutputFormat::of_extension(None), OutputFormat::Text);
}

#[test]
fn the_extension_of_a_path_names_the_format() {
    assert_eq!(InputFormat::assume_from_path("deps.json"), InputFormat::Json);
    assert_eq!(InputFormat::assume_from_path("dir.d/deps.JSON"), InputFormat::Json);
    assert_eq!(InputFormat::assume_from_path("deps.json.txt"), InputFormat::Text);
    assert_eq!(InputFormat::assume_from_path("json"), InputFormat::Text);
    assert_eq!(InputFormat::assume_from_path(".json"), InputFormat::Text);
    assert_eq!(InputFormat::assume_from_path("-"), InputFormat::Text);
    assert_eq!(InputFormat::assume_from_path(""), InputFormat::Text);
    assert_eq!(OutputFormat::assume_from_path("out.dot"), OutputFormat::Dot);
    assert_eq!(OutputFormat::assume_from_path("out.Json"), OutputFormat::Json);
    assert_eq!(OutputFormat::assume_from_path("out.dot/plain"), OutputFormat::Text);
    assert_eq!(OutputFormat::assume_from_path("-"), OutputFormat::Text);
}

#[test]
fn the_depth_check_stops_at_a_named_bound_and_fails_at_the_default_one() {
    assert_eq!(check_max_depth(2, Some(3), 10), DepthCheck::Continue);
    assert_eq!(check_max_depth(3, Some(3), 10), DepthCheck::Stop);
    assert_eq!(check_max_depth(4, Some(3), 10), DepthCheck::Stop);
    assert_eq!(check_max_depth(0, Some(0), 10), DepthCheck::Stop);
    assert_eq!(check_max_depth(50, Some(100), 10), DepthCheck::Continue);
    assert_eq!(check_max_depth(9, None, 10), DepthCheck::Continue);
    assert_eq!(check_max_depth(10, None, 10), DepthCheck::Exceeded);
    assert_eq!(check_max_depth(usize::MAX, None, 10), DepthCheck::Exceeded);
    assert_eq!(check_max_depth(0, None, 0), DepthCheck::Exceeded);
}

#[test]
fn a_node_is_expanded_unless_the_check_stops() {
    assert!(should_expand(1, Some(3)));
    assert!(!should_expand(2, Some(3)));
    assert!(!should_expand(0, Some(0)));
    assert!(!should_expand(usize::MAX, Some(usize::MAX)));
    assert!(should_expand(0, None));
    assert!(should_expand(DEFAULT_MAX_DEPTH, None));
    assert!(should_expand(usize::MAX, None));
    assert_eq!(failing_depth(None), DEFAULT_MAX_DEPTH);
    assert_eq!(failing_depth(Some(5)), usize::MAX);
    assert_eq!(DEFAULT_MAX_DEPTH, 1000);
}
