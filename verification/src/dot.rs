use crate::graph::{names, Graph, GraphView};
use vstd::prelude::*;
use vstd::string::StringExecFns;

verus! {

broadcast use vstd::string::group_string_axioms;

/// The character of a decimal digit.
pub open spec fn digit_char(d: int) -> char {
    (48u8 + d) as char
}

/// The decimal numeral of `n`, without leading zeros.
pub open spec fn decimal(n: nat) -> Seq<char>
    decreases n,
{
    if n < 10 {
        seq![digit_char(n as int)]
    } else {
        decimal(n / 10).push(digit_char((n % 10) as int))
    }
}

/// What a label shows for one character of a value: a backslash, a double
/// quote and a line feed are written as a backslash followed by a backslash,
/// a double quote and the letter n.
pub open spec fn escape_char(c: char) -> Seq<char> {
    if c == '\\' {
        seq!['\\', '\\']
    } else if c == '"' {
        seq!['\\', '"']
    } else if c == '\n' {
        seq!['\\', 'n']
    } else {
        seq![c]
    }
}

/// The label of a value: its characters, each escaped.
pub open spec fn escape(s: Seq<char>) -> Seq<char>
    decreases s.len(),
{
    if s.len() == 0 {
        Seq::empty()
    } else {
        escape(s.drop_last()) + escape_char(s.last())
    }
}

/// The line that declares node `i` with its label.
pub open spec fn node_line(i: nat, value: Seq<char>) -> Seq<char> {
    "    n"@ + decimal(i) + " [label=\""@ + escape(value) + "\"];\n"@
}

/// The lines that declare the first `k` nodes.
pub open spec fn node_lines(values: Seq<Seq<char>>, k: int) -> Seq<char>
    decreases k,
{
    if k <= 0 {
        Seq::empty()
    } else {
        node_lines(values, k - 1) + node_line((k - 1) as nat, values[k - 1])
    }
}

/// The line of an edge between two nodes.
pub open spec fn edge_line(e: (usize, usize)) -> Seq<char> {
    "    n"@ + decimal(e.0 as nat) + " -> n"@ + decimal(e.1 as nat) + ";\n"@
}

/// The lines of the first `k` edges.
pub open spec fn edge_lines(edges: Seq<(usize, usize)>, k: int) -> Seq<char>
    decreases k,
{
    if k <= 0 {
        Seq::empty()
    } else {
        edge_lines(edges, k - 1) + edge_line(edges[k - 1])
    }
}

/// The DOT text of a graph: a node per value, named by its index and
/// labelled with the value, then the edges in canonical order.
pub open spec fn dot_text(g: GraphView) -> Seq<char> {
    "digraph {\n"@ + node_lines(g.values, g.values.len() as int) + "\n"@ + edge_lines(
        g.index_edges(),
        g.index_edges().len() as int,
    ) + "}\n"@
}

/// Appends the decimal numeral of `n`.
pub fn push_decimal(out: &mut String, n: usize)
    ensures
        final(out)@ == old(out)@ + decimal(n as nat),
    decreases n,
{
    if n >= 10 {
        push_decimal(out, n / 10);
    }
    let d: u8 = (n % 10) as u8;
    let ghost before = out@;
    out.push((48u8 + d) as char);
    proof {
        if n >= 10 {
            assert(out@ =~= old(out)@ + decimal(n as nat));
        } else {
            assert(out@ =~= old(out)@ + decimal(n as nat));
        }
    }
}

/// Appends the label of `value`.
pub fn push_escaped(out: &mut String, value: &str)
    ensures
        final(out)@ == old(out)@ + escape(value@),
{
    proof {
        assert(value@.take(0) =~= Seq::<char>::empty());
        assert(out@ =~= old(out)@ + escape(value@.take(0)));
    }
    for c in it: value.chars()
        invariant
            it.seq() == value@,
            out@ == old(out)@ + escape(value@.take(it.index() as int)),
    {
        let ghost i = it.index() as int;
        let ghost before = out@;
        if c == '\\' {
            out.push('\\');
            out.push('\\');
        } else if c == '"' {
            out.push('\\');
            out.push('"');
        } else if c == '\n' {
            out.push('\\');
            out.push('n');
        } else {
            out.push(c);
        }
        proof {
            assert(value@.take(i + 1).drop_last() =~= value@.take(i));
            assert(value@.take(i + 1).last() == c);
            assert(out@ =~= before + escape_char(c));
            assert(out@ =~= old(out)@ + escape(value@.take(i + 1)));
        }
    }
    proof {
        assert(value@.take(value@.len() as int) =~= value@);
    }
}

/// Dumps a graph as DOT text.
pub fn dump_dot(graph: &Graph) -> (r: String)
    ensures
        r@ == dot_text(graph@),
{
    let values = graph.values();
    let edges = graph.to_index_edges();
    let ghost g = graph@;
    let mut out = String::new();
    out.append("digraph {\n");
    let mut i: usize = 0;
    proof {
        assert(out@ =~= "digraph {\n"@ + node_lines(g.values, 0));
    }
    while i < values.len()
        invariant
            i <= values.len(),
            names(values@) == g.values,
            out@ == "digraph {\n"@ + node_lines(g.values, i as int),
        decreases values.len() - i,
    {
        let ghost before = out@;
        out.append("    n");
        push_decimal(&mut out, i);
        out.append(" [label=\"");
        push_escaped(&mut out, values[i].as_str());
        out.append("\"];\n");
        proof {
            assert(g.values[i as int] == values@[i as int]@);
            assert(out@ =~= before + node_line(i as nat, g.values[i as int]));
            assert(out@ =~= "digraph {\n"@ + node_lines(g.values, i + 1));
        }
        i = i + 1;
    }
    out.append("\n");
    let ghost head = out@;
    let mut k: usize = 0;
    proof {
        assert(names(values@).len() == values@.len());
        assert(out@ =~= head + edge_lines(edges@, 0));
    }
    while k < edges.len()
        invariant
            k <= edges.len(),
            out@ == head + edge_lines(edges@, k as int),
        decreases edges.len() - k,
    {
        let ghost before = out@;
        out.append("    n");
        push_decimal(&mut out, edges[k].0);
        out.append(" -> n");
        push_decimal(&mut out, edges[k].1);
        out.append(";\n");
        proof {
            assert(out@ =~= before + edge_line(edges@[k as int]));
            assert(out@ =~= head + edge_lines(edges@, k + 1));
        }
        k = k + 1;
    }
    out.append("}\n");
    out
}

} // verus!
