use crate::graph::{entry_views, flat_edges, EntryView, Graph, GraphView};
use std::collections::BTreeMap;
use vstd::prelude::*;

verus! {

/// `serde_json::Error`, the error of the JSON reader and writer: an opaque
/// value that is handed on and asked for its text, no more.
#[verifier::external_type_specification]
#[verifier::external_body]
pub struct ExJsonError(serde_json::Error);

/// What `serde_json` reads from a text as a map from strings to lists of
/// strings: the entries of the map in the order in which it hands them
/// out, or `None` where the text is not the JSON of such a map.
pub uninterp spec fn json_object(text: Seq<char>) -> Option<Seq<EntryView>>;

/// The JSON text that `serde_json` writes for the map that holds `entries`,
/// or `None` where it writes none.
pub uninterp spec fn json_text(entries: Seq<EntryView>) -> Option<Seq<char>>;

/// A text that is not the JSON of a map from strings to lists of strings,
/// with what the parser said of it.
#[derive(Debug, Clone, PartialEq, Eq)]
pub struct MalformedJson {
    pub message: String,
}

/// The JSON writer failed, with what it said.
#[derive(Debug, Clone, PartialEq, Eq)]
pub struct JsonFailure {
    pub message: String,
}

/// Calls `serde_json::from_reader` on the bytes of `text`, for a
/// `BTreeMap<String, Vec<String>>`, and hands out the entries of the map in
/// its order. The contract names the result: the entries are those that
/// `json_object` gives for the text, and the call fails where it gives none.
#[verifier::external_body]
fn json_read(text: &str) -> (r: Result<Vec<(String, Vec<String>)>, serde_json::Error>)
    ensures
        match r {
            Ok(entries) => json_object(text@) == Some(entry_views(entries@)),
            Err(_) => json_object(text@).is_none(),
        },
{
    let map: BTreeMap<String, Vec<String>> = serde_json::from_reader(text.as_bytes())?;
    Ok(map.into_iter().collect())
}

/// Calls `serde_json::to_string` on the `BTreeMap<String, Vec<String>>` that
/// holds `entries`. The contract names the result, which depends on the
/// entries alone: the text is the one that `json_text` gives for them, and
/// the call fails where it gives none.
#[verifier::external_body]
fn json_write(entries: Vec<(String, Vec<String>)>) -> (r: Result<String, serde_json::Error>)
    requires
        forall|a: int, b: int|
            0 <= a < b < entries.len() ==> entry_views(entries@)[a].0 != entry_views(entries@)[b].0,
    ensures
        match r {
            Ok(text) => json_text(entry_views(entries@)) == Some(text@),
            Err(_) => json_text(entry_views(entries@)).is_none(),
        },
{
    let map: BTreeMap<String, Vec<String>> = entries.into_iter().collect();
    serde_json::to_string(&map)
}

/// Calls `to_string` on a `serde_json::Error`: the text that the error
/// displays. Nothing is claimed of it.
#[verifier::external_body]
fn json_error_text(e: &serde_json::Error) -> String {
    e.to_string()
}

/// Loads a graph from the JSON of a map from each source to the list of its
/// destinations: the edges of the entries by ascending source, each entry's
/// in the order of its list.
pub fn load_json(text: &str) -> (r: Result<Graph, MalformedJson>)
    ensures
        match r {
            Ok(g) => json_object(text@) is Some && g@ == GraphView::build(
                flat_edges(json_object(text@)->Some_0),
            ) && g@.wf(),
            Err(_) => json_object(text@).is_none(),
        },
{
    match json_read(text) {
        Ok(entries) => Ok(Graph::from_adjacency(&entries)),
        Err(e) => Err(MalformedJson { message: json_error_text(&e) }),
    }
}

/// What a dump makes of what the JSON writer hands back: its text with a
/// line feed behind it, or its failure with what it said.
pub fn finish_json(written: Result<String, serde_json::Error>) -> (r: Result<String, JsonFailure>)
    ensures
        match written {
            Ok(text) => r matches Ok(line) && line@ == text@.push('\n'),
            Err(_) => r is Err,
        },
{
    match written {
        Ok(text) => {
            let mut line = text;
            line.push('\n');
            Ok(line)
        },
        Err(e) => Err(JsonFailure { message: json_error_text(&e) }),
    }
}

/// Dumps a graph as the JSON of a map from each source to the list of its
/// destinations, followed by a line feed. The dump fails exactly where the
/// JSON writer gives no text for the entries of the graph.
pub fn dump_json(graph: &Graph) -> (r: Result<String, JsonFailure>)
    ensures
        match r {
            Ok(text) => json_text(graph@.adjacency()) matches Some(json) && text@ == json.push(
                '\n',
            ),
            Err(_) => json_text(graph@.adjacency()).is_none(),
        },
{
    finish_json(json_write(graph.to_adjacency()))
}

} // verus!
