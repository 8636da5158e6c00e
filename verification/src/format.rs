use crate::dot::{dot_text, dump_dot};
use crate::graph::{flat_edges, Graph, GraphView};
use crate::json::{dump_json, json_object, json_text, load_json, JsonFailure, MalformedJson};
use crate::text::{dump_text, load_text, parse_text, render, MalformedLine};
use vstd::prelude::*;

verus! {

broadcast use vstd::string::group_string_axioms;

/// The formats that a graph can be loaded from.
#[derive(Debug, Clone, Copy, PartialEq, Eq)]
pub enum InputFormat {
    /// One edge per line: source, space, destination.
    Text,
    /// A JSON map from each source to the list of its destinations.
    Json,
}

/// The formats that a graph can be dumped in.
#[derive(Debug, Clone, Copy, PartialEq, Eq)]
pub enum OutputFormat {
    /// One edge per line: source, space, destination.
    Text,
    /// A JSON map from each source to the list of its destinations.
    Json,
    /// DOT text for graph visualization.
    Dot,
}

/// Why a graph could not be loaded.
#[derive(Debug, Clone, PartialEq, Eq)]
pub enum LoadError {
    Text(MalformedLine),
    Json(MalformedJson),
}

/// Why a graph could not be shown.
#[derive(Debug, Clone, PartialEq, Eq)]
pub enum ShowError {
    Load(LoadError),
    Dump(JsonFailure),
}

/// An ASCII capital letter as the small letter, every other character as
/// it is.
pub open spec fn ascii_lower(c: char) -> char {
    if 'A' <= c && c <= 'Z' {
        ((c as u8) + 32) as char
    } else {
        c
    }
}

/// A text with its ASCII capital letters made small.
pub open spec fn lowered(s: Seq<char>) -> Seq<char> {
    s.map_values(|c: char| ascii_lower(c))
}

/// The input format that a file extension stands for: JSON for `json` in
/// small or capital letters, the line format for everything else.
pub open spec fn input_format_of(ext: Option<Seq<char>>) -> InputFormat {
    match ext {
        Some(e) => if lowered(e) == "json"@ {
            InputFormat::Json
        } else {
            InputFormat::Text
        },
        None => InputFormat::Text,
    }
}

/// The output format that a file extension stands for: JSON for `json` and
/// DOT for `dot`, in small or capital letters, the line format for
/// everything else.
pub open spec fn output_format_of(ext: Option<Seq<char>>) -> OutputFormat {
    match ext {
        Some(e) => if lowered(e) == "json"@ {
            OutputFormat::Json
        } else if lowered(e) == "dot"@ {
            OutputFormat::Dot
        } else {
            OutputFormat::Text
        },
        None => OutputFormat::Text,
    }
}

/// The graph that a text stands for in a format, if it stands for one.
pub open spec fn loaded(text: Seq<char>, format: InputFormat) -> Option<GraphView> {
    match format {
        InputFormat::Text => match parse_text(text) {
            Ok(edges) => Some(GraphView::build(edges)),
            Err(_) => None,
        },
        InputFormat::Json => match json_object(text) {
            Some(entries) => Some(GraphView::build(flat_edges(entries))),
            None => None,
        },
    }
}

/// The text of a graph in a format, or `None` where the JSON writer gives
/// none.
pub open spec fn dumped(g: GraphView, format: OutputFormat) -> Option<Seq<char>> {
    match format {
        OutputFormat::Text => Some(render(g.edges())),
        OutputFormat::Json => match json_text(g.adjacency()) {
            Some(json) => Some(json.push('\n')),
            None => None,
        },
        OutputFormat::Dot => Some(dot_text(g)),
    }
}

/// Calls `std::path::Path::extension` on `path` and hands out the extension
/// as a string. Nothing is claimed of the result: which part of a path is
/// its extension is for the standard library of the platform to say.
#[verifier::external_body]
fn path_extension(path: &str) -> Option<String> {
    std::path::Path::new(path).extension().map(|e| e.to_string_lossy().into_owned())
}

/// Makes the ASCII capital letters of `s` small.
pub fn to_ascii_lower(s: &str) -> (r: String)
    ensures
        r@ == lowered(s@),
{
    let mut out = String::new();
    proof {
        assert(out@ =~= lowered(s@).take(0));
    }
    for c in it: s.chars()
        invariant
            it.seq() == s@,
            out@ == lowered(s@).take(it.index() as int),
    {
        let ghost i = it.index() as int;
        let l = if 'A' <= c && c <= 'Z' {
            ((c as u8) + 32) as char
        } else {
            c
        };
        out.push(l);
        proof {
            assert(lowered(s@).take(i + 1) =~= lowered(s@).take(i).push(ascii_lower(c)));
        }
    }
    proof {
        assert(lowered(s@).take(s@.len() as int) =~= lowered(s@));
    }
    out
}

/// Whether two strings hold the same characters.
fn same(a: &String, b: &str) -> (r: bool)
    ensures
        r == (a@ == b@),
{
    let other = b.to_string();
    *a == other
}

impl InputFormat {
    /// The input format that a file extension stands for.
    pub fn of_extension(ext: Option<&str>) -> (r: InputFormat)
        ensures
            r == input_format_of(
                match ext {
                    Some(e) => Some(e@),
                    None => None,
                },
            ),
    {
        match ext {
            Some(e) => {
                let low = to_ascii_lower(e);
                if same(&low, "json") {
                    InputFormat::Json
                } else {
                    InputFormat::Text
                }
            },
            None => InputFormat::Text,
        }
    }

    /// The input format that the extension of `path` stands for, where the
    /// caller names none.
    pub fn assume_from_path(path: &str) -> (r: InputFormat)
        ensures
            exists|ext: Option<Seq<char>>| r == input_format_of(ext),
    {
        let r = match path_extension(path) {
            Some(e) => InputFormat::of_extension(Some(e.as_str())),
            None => InputFormat::of_extension(None),
        };
        proof {
            if r == InputFormat::Text {
                assert(r == input_format_of(None));
            }
        }
        r
    }
}

impl OutputFormat {
    /// The output format that a file extension stands for.
    pub fn of_extension(ext: Option<&str>) -> (r: OutputFormat)
        ensures
            r == output_format_of(
                match ext {
                    Some(e) => Some(e@),
                    None => None,
                },
            ),
    {
        match ext {
            Some(e) => {
                let low = to_ascii_lower(e);
                if same(&low, "json") {
                    OutputFormat::Json
                } else if same(&low, "dot") {
                    OutputFormat::Dot
                } else {
                    OutputFormat::Text
                }
            },
            None => OutputFormat::Text,
        }
    }

    /// The output format that the extension of `path` stands for, where the
    /// caller names none.
    pub fn assume_from_path(path: &str) -> (r: OutputFormat)
        ensures
            exists|ext: Option<Seq<char>>| r == output_format_of(ext),
    {
        let r = match path_extension(path) {
            Some(e) => OutputFormat::of_extension(Some(e.as_str())),
            None => OutputFormat::of_extension(None),
        };
        proof {
            if r == OutputFormat::Text {
                assert(r == output_format_of(None));
            }
        }
        r
    }
}

/// Loads a graph from a text in the given format.
pub fn load(text: &str, format: InputFormat) -> (r: Result<Graph, LoadError>)
    ensures
        match r {
            Ok(g) => loaded(text@, format) == Some(g@) && g@.wf(),
            Err(LoadError::Text(e)) => format == InputFormat::Text && parse_text(text@) == Err::<
                Seq<crate::graph::EdgeView>,
                int,
            >(e.line as int),
            Err(LoadError::Json(_)) => format == InputFormat::Json && json_object(
                text@,
            ).is_none(),
        },
{
    match format {
        InputFormat::Text => match load_text(text) {
            Ok(g) => Ok(g),
            Err(e) => Err(LoadError::Text(e)),
        },
        InputFormat::Json => match load_json(text) {
            Ok(g) => Ok(g),
            Err(e) => Err(LoadError::Json(e)),
        },
    }
}

/// Dumps a graph in the given format. Only the JSON writer can fail.
pub fn dump(graph: &Graph, format: OutputFormat) -> (r: Result<String, JsonFailure>)
    ensures
        match r {
            Ok(text) => dumped(graph@, format) == Some(text@),
            Err(_) => dumped(graph@, format).is_none(),
        },
        format != OutputFormat::Json ==> r is Ok,
{
    match format {
        OutputFormat::Text => Ok(dump_text(graph)),
        OutputFormat::Json => dump_json(graph),
        OutputFormat::Dot => Ok(dump_dot(graph)),
    }
}

/// Converts a graph from one format to another: loads it from `text`,
/// inverts it where `inverted` is set, and dumps it.
pub fn show(text: &str, from: InputFormat, inverted: bool, to: OutputFormat) -> (r: Result<
    String,
    ShowError,
>)
    ensures
        loaded(text@, from).is_none() <==> r matches Err(ShowError::Load(_)),
        loaded(text@, from) matches Some(g) ==> {
            let shown = if inverted {
                g.inverted()
            } else {
                g
            };
            &&& r matches Ok(out) ==> dumped(shown, to) == Some(out@)
            &&& r is Err ==> dumped(shown, to).is_none()
            &&& to != OutputFormat::Json ==> r is Ok
        },
{
    let graph = match load(text, from) {
        Ok(g) => g,
        Err(e) => {
            return Err(ShowError::Load(e));
        },
    };
    let result = if inverted {
        dump(&graph.invert(), to)
    } else {
        dump(&graph, to)
    };
    match result {
        Ok(out) => Ok(out),
        Err(e) => Err(ShowError::Dump(e)),
    }
}

} // verus!
