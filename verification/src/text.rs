use crate::graph::{edge_views, names, Edge, EdgeView, Graph, GraphView};
use vstd::prelude::*;
use vstd::string::StringExecFns;

verus! {

broadcast use vstd::string::group_string_axioms;

/// A line of the text format that holds no space, and so no edge. `line` is
/// its position among the lines of the text, counted from 0.
#[derive(Debug, Clone, Copy, PartialEq, Eq)]
pub struct MalformedLine {
    pub line: usize,
}

/// A line without the carriage return that ends it, if one does.
pub open spec fn strip_cr(line: Seq<char>) -> Seq<char> {
    if line.len() > 0 && line.last() == '\r' {
        line.drop_last()
    } else {
        line
    }
}

/// The lines that `text` has completed, and what it holds of the line after
/// them. A line is complete at a line feed; a carriage return right before
/// the line feed belongs to the line ending.
pub open spec fn split(text: Seq<char>) -> (Seq<Seq<char>>, Seq<char>)
    decreases text.len(),
{
    if text.len() == 0 {
        (Seq::empty(), Seq::empty())
    } else {
        let (done, rest) = split(text.drop_last());
        if text.last() == '\n' {
            (done.push(strip_cr(rest)), Seq::empty())
        } else {
            (done, rest.push(text.last()))
        }
    }
}

/// The lines of `text`: the complete ones, and the one after them where
/// the text does not end with a line ending.
pub open spec fn lines(text: Seq<char>) -> Seq<Seq<char>> {
    let (done, rest) = split(text);
    if rest.len() > 0 {
        done.push(rest)
    } else {
        done
    }
}

/// The first space of `line` stands at `i`.
pub open spec fn space_at(line: Seq<char>, i: int) -> bool {
    &&& 0 <= i < line.len()
    &&& line[i] == ' '
    &&& forall|j: int| 0 <= j < i ==> line[j] != ' '
}

/// The edge that a line stands for: the source before the first space, the
/// destination behind it. A line without a space stands for none.
pub open spec fn parse_line(line: Seq<char>) -> Option<EdgeView> {
    if exists|i: int| space_at(line, i) {
        let i = choose|i: int| space_at(line, i);
        Some((line.take(i), line.skip(i + 1)))
    } else {
        None
    }
}

/// The edges that a sequence of lines stands for, or the position of the
/// first line that stands for none.
pub open spec fn parse_lines(lines: Seq<Seq<char>>) -> Result<Seq<EdgeView>, int>
    decreases lines.len(),
{
    if lines.len() == 0 {
        Ok(Seq::empty())
    } else {
        match parse_lines(lines.drop_last()) {
            Err(at) => Err(at),
            Ok(edges) => match parse_line(lines.last()) {
                Some(e) => Ok(edges.push(e)),
                None => Err(lines.len() - 1),
            },
        }
    }
}

/// The edges that a text stands for, line by line.
pub open spec fn parse_text(text: Seq<char>) -> Result<Seq<EdgeView>, int> {
    parse_lines(lines(text))
}

/// The line of an edge: source, space, destination, line feed.
pub open spec fn render_edge(e: EdgeView) -> Seq<char> {
    e.0 + seq![' '] + e.1 + seq!['\n']
}

/// The text of a sequence of edges: their lines, one after the other.
pub open spec fn render(edges: Seq<EdgeView>) -> Seq<char>
    decreases edges.len(),
{
    if edges.len() == 0 {
        Seq::empty()
    } else {
        render(edges.drop_last()) + render_edge(edges.last())
    }
}

/// The pending carriage return, as text.
pub open spec fn held(pending: bool) -> Seq<char> {
    if pending {
        seq!['\r']
    } else {
        Seq::empty()
    }
}

/// Splits `text` into its lines, without their line endings.
pub fn split_lines(text: &str) -> (r: Vec<String>)
    ensures
        names(r@) == lines(text@),
{
    let mut done: Vec<String> = Vec::new();
    let mut cur = String::new();
    // a carriage return is held back until the next character shows whether
    // it belongs to a line ending
    let mut pending = false;
    proof {
        assert(text@.take(0) =~= Seq::empty());
        assert(names(done@) =~= Seq::empty());
        assert(cur@ + held(pending) =~= Seq::empty());
    }
    for c in it: text.chars()
        invariant
            it.seq() == text@,
            split(text@.take(it.index() as int)) == (names(done@), cur@ + held(pending)),
            !pending ==> cur@.len() == 0 || cur@.last() != '\r',
    {
        let ghost i = it.index() as int;
        let ghost before = text@.take(i);
        let ghost now = text@.take(i + 1);
        let ghost raw = cur@ + held(pending);
        let ghost lines_before = names(done@);
        proof {
            assert(now.drop_last() =~= before);
            assert(now.last() == c);
        }
        if c == '\n' {
            proof {
                assert(strip_cr(raw) =~= cur@);
            }
            let ghost whole = cur@;
            done.push(cur);
            cur = String::new();
            pending = false;
            proof {
                assert(names(done@) =~= lines_before.push(whole));
                assert(cur@ + held(pending) =~= Seq::empty());
            }
        } else if c == '\r' {
            if pending {
                cur.push('\r');
            }
            pending = true;
            proof {
                assert(cur@ + held(pending) =~= raw.push(c));
            }
        } else {
            if pending {
                cur.push('\r');
                pending = false;
            }
            cur.push(c);
            proof {
                assert(cur@ + held(pending) =~= raw.push(c));
            }
        }
    }
    proof {
        assert(text@.take(text@.len() as int) =~= text@);
    }
    let ghost lines_before = names(done@);
    let ghost raw = cur@ + held(pending);
    if pending {
        cur.push('\r');
    }
    proof {
        assert(cur@ =~= raw);
    }
    if !cur.as_str().is_empty() {
        done.push(cur);
        proof {
            assert(names(done@) =~= lines_before.push(raw));
        }
    }
    done
}

/// The first space of a line stands at one place only.
proof fn lemma_space_at(line: Seq<char>, i: int)
    requires
        space_at(line, i),
    ensures
        parse_line(line) == Some((line.take(i), line.skip(i + 1))),
{
    let k = choose|k: int| space_at(line, k);
    assert(space_at(line, k));
    if k < i {
        assert(line[k] != ' ');
    }
    if i < k {
        assert(line[i] != ' ');
    }
}

/// Reads the edge of one line: the source before the first space, the
/// destination behind it; `None` where the line holds no space.
pub fn read_line(line: &str) -> (r: Option<Edge>)
    ensures
        match r {
            Some(e) => parse_line(line@) == Some(e@),
            None => parse_line(line@).is_none(),
        },
{
    let mut from = String::new();
    let mut to = String::new();
    let mut split = false;
    proof {
        assert(line@.take(0) =~= Seq::empty());
    }
    for c in it: line.chars()
        invariant
            it.seq() == line@,
            !split ==> from@ == line@.take(it.index() as int) && to@.len() == 0 && forall|j: int|
                0 <= j < it.index() ==> line@[j] != ' ',
            split ==> space_at(line@, from@.len() as int) && from@.len() + 1 <= it.index()
                && from@ == line@.take(from@.len() as int) && to@ == line@.subrange(
                from@.len() as int + 1,
                it.index() as int,
            ),
    {
        let ghost i = it.index() as int;
        if split {
            to.push(c);
            proof {
                assert(to@ =~= line@.subrange(from@.len() as int + 1, i + 1));
            }
        } else if c == ' ' {
            split = true;
            proof {
                assert(to@ =~= line@.subrange(from@.len() as int + 1, i + 1));
            }
        } else {
            from.push(c);
            proof {
                assert(from@ =~= line@.take(i + 1));
            }
        }
    }
    if split {
        proof {
            lemma_space_at(line@, from@.len() as int);
            assert(to@ =~= line@.skip(from@.len() as int + 1));
        }
        Some(Edge(from, to))
    } else {
        proof {
            assert(forall|i: int| !space_at(line@, i));
        }
        None
    }
}

/// Reads the edges of a text in the line format: one edge per line, the
/// source before the first space of the line and the destination behind it.
/// Fails at the first line without a space.
pub fn read_edges(text: &str) -> (r: Result<Vec<Edge>, MalformedLine>)
    ensures
        match r {
            Ok(edges) => parse_text(text@) == Ok::<Seq<EdgeView>, int>(edge_views(edges@)),
            Err(e) => parse_text(text@) == Err::<Seq<EdgeView>, int>(e.line as int),
        },
{
    let all = split_lines(text);
    let ghost ls = names(all@);
    let mut edges: Vec<Edge> = Vec::new();
    let mut i: usize = 0;
    proof {
        assert(ls.take(0) =~= Seq::empty());
        assert(edge_views(edges@) =~= Seq::empty());
    }
    while i < all.len()
        invariant
            i <= all.len(),
            ls == names(all@),
            ls == lines(text@),
            parse_lines(ls.take(i as int)) == Ok::<Seq<EdgeView>, int>(edge_views(edges@)),
        decreases all.len() - i,
    {
        let ghost before = edge_views(edges@);
        proof {
            assert(ls.take(i + 1).drop_last() =~= ls.take(i as int));
            assert(ls.take(i + 1).last() == all@[i as int]@);
        }
        match read_line(all[i].as_str()) {
            Some(e) => {
                edges.push(e);
                proof {
                    assert(edge_views(edges@) =~= before.push(e@));
                }
            },
            None => {
                proof {
                    lemma_parse_lines_fails(ls, i as int + 1);
                    assert(ls.take(ls.len() as int) =~= ls);
                }
                return Err(MalformedLine { line: i });
            },
        }
        i = i + 1;
    }
    proof {
        assert(ls.take(i as int) =~= ls);
    }
    Ok(edges)
}

/// Lines that fail up to some line fail as a whole, at the same line.
proof fn lemma_parse_lines_fails(ls: Seq<Seq<char>>, k: int)
    requires
        0 <= k <= ls.len(),
        parse_lines(ls.take(k)) is Err,
    ensures
        parse_lines(ls) == parse_lines(ls.take(k)),
    decreases ls.len() - k,
{
    if k < ls.len() {
        assert(ls.take(k + 1).drop_last() =~= ls.take(k));
        lemma_parse_lines_fails(ls, k + 1);
    } else {
        assert(ls.take(k) =~= ls);
    }
}

/// Loads a graph from a text in the line format.
pub fn load_text(text: &str) -> (r: Result<Graph, MalformedLine>)
    ensures
        match r {
            Ok(g) => parse_text(text@) is Ok && g@ == GraphView::build(parse_text(text@)->Ok_0)
                && g@.wf(),
            Err(e) => parse_text(text@) == Err::<Seq<EdgeView>, int>(e.line as int),
        },
{
    match read_edges(text) {
        Ok(edges) => Ok(Graph::from_iter(edges)),
        Err(e) => Err(e),
    }
}

/// Writes the edges one per line: source, space, destination, line feed.
pub fn write_edges(edges: &Vec<Edge>) -> (r: String)
    ensures
        r@ == render(edge_views(edges@)),
{
    let mut out = String::new();
    let ghost all = edge_views(edges@);
    let mut i: usize = 0;
    proof {
        assert(all.take(0) =~= Seq::empty());
    }
    while i < edges.len()
        invariant
            i <= edges.len(),
            all == edge_views(edges@),
            out@ == render(all.take(i as int)),
        decreases edges.len() - i,
    {
        let ghost before = out@;
        out.append(edges[i].0.as_str());
        out.push(' ');
        out.append(edges[i].1.as_str());
        out.push('\n');
        proof {
            assert(all.take(i + 1).drop_last() =~= all.take(i as int));
            assert(all.take(i + 1).last() == edges@[i as int]@);
            assert(out@ =~= before + render_edge(edges@[i as int]@));
        }
        i = i + 1;
    }
    proof {
        assert(all.take(i as int) =~= all);
    }
    out
}

/// Dumps a graph in the line format: its edges in canonical order, one per
/// line.
pub fn dump_text(graph: &Graph) -> (r: String)
    ensures
        r@ == render(graph@.edges()),
{
    let edges = graph.to_edges();
    write_edges(&edges)
}

/// The part of an edge's line before the line feed.
pub open spec fn line_of(e: EdgeView) -> Seq<char> {
    e.0 + seq![' '] + e.1
}

/// An edge that its line gives back: no space in the source, no line feed
/// in either end, and no carriage return at the end of the destination.
pub open spec fn plain(e: EdgeView) -> bool {
    &&& !e.0.contains(' ')
    &&& !e.0.contains('\n')
    &&& !e.1.contains('\n')
    &&& e.1.len() == 0 || e.1.last() != '\r'
}

/// Every edge of the sequence is plain.
pub open spec fn all_plain(edges: Seq<EdgeView>) -> bool {
    forall|k: int| 0 <= k < edges.len() ==> plain(#[trigger] edges[k])
}

/// A text without line feed completes no line.
proof fn lemma_split_no_feed(text: Seq<char>)
    requires
        !text.contains('\n'),
    ensures
        split(text) == (Seq::<Seq<char>>::empty(), text),
    decreases text.len(),
{
    if text.len() > 0 {
        assert forall|i: int| 0 <= i < text.drop_last().len() implies text.drop_last()[i]
            != '\n' by {
            assert(text[i] != '\n');
        }
        lemma_split_no_feed(text.drop_last());
        assert(text[text.len() - 1] != '\n');
        assert(text.drop_last().push(text.last()) =~= text);
    } else {
        assert(text =~= Seq::<char>::empty());
    }
}

/// Behind a text that ends a line, the lines of what follows come after its
/// own.
proof fn lemma_split_add(a: Seq<char>, b: Seq<char>)
    requires
        split(a).1.len() == 0,
    ensures
        split(a + b) == (split(a).0 + split(b).0, split(b).1),
    decreases b.len(),
{
    if b.len() == 0 {
        assert(a + b =~= a);
        assert(split(a).0 + split(b).0 =~= split(a).0);
        assert(split(a).1 =~= split(b).1);
    } else {
        lemma_split_add(a, b.drop_last());
        assert((a + b).drop_last() =~= a + b.drop_last());
        assert((a + b).last() == b.last());
        let (done, rest) = split(b.drop_last());
        if b.last() == '\n' {
            assert(split(a).0 + done.push(strip_cr(rest)) =~= (split(a).0 + done).push(
                strip_cr(rest),
            ));
        }
    }
}

/// The text of plain edges splits into their lines, and nothing is left.
proof fn lemma_split_render(edges: Seq<EdgeView>)
    requires
        all_plain(edges),
    ensures
        split(render(edges)) == (edges.map_values(|e: EdgeView| line_of(e)), Seq::<char>::empty()),
    decreases edges.len(),
{
    let body = |e: EdgeView| line_of(e);
    if edges.len() == 0 {
        assert(edges.map_values(body) =~= Seq::<Seq<char>>::empty());
    } else {
        let front = edges.drop_last();
        let e = edges.last();
        assert forall|k: int| 0 <= k < front.len() implies plain(#[trigger] front[k]) by {
            assert(front[k] == edges[k]);
        }
        lemma_split_render(front);
        let line = line_of(e);
        assert(plain(edges[edges.len() - 1]));
        assert(!line.contains('\n')) by {
            if line.contains('\n') {
                let i = choose|i: int| 0 <= i < line.len() && line[i] == '\n';
                if i < e.0.len() {
                    assert(e.0[i] == '\n');
                } else if i > e.0.len() {
                    assert(e.1[i - e.0.len() - 1] == '\n');
                }
            }
        }
        lemma_split_no_feed(line);
        let whole = line.push('\n');
        assert(whole.drop_last() =~= line);
        assert(render_edge(e) =~= whole);
        assert(strip_cr(line) == line) by {
            if e.1.len() > 0 {
                assert(line.last() == e.1.last());
            } else {
                assert(line.last() == ' ');
            }
        }
        assert(split(whole) == (Seq::<Seq<char>>::empty().push(line), Seq::<char>::empty()));
        lemma_split_add(render(front), whole);
        assert(front.map_values(body) + Seq::<Seq<char>>::empty().push(line) =~= edges.map_values(
            body,
        ));
    }
}

/// The lines of plain edges stand for these edges.
proof fn lemma_parse_lines_of(edges: Seq<EdgeView>)
    requires
        all_plain(edges),
    ensures
        parse_lines(edges.map_values(|e: EdgeView| line_of(e))) == Ok::<Seq<EdgeView>, int>(edges),
    decreases edges.len(),
{
    let body = |e: EdgeView| line_of(e);
    if edges.len() == 0 {
        assert(edges =~= Seq::<EdgeView>::empty());
    } else {
        let front = edges.drop_last();
        let e = edges.last();
        assert forall|k: int| 0 <= k < front.len() implies plain(#[trigger] front[k]) by {
            assert(front[k] == edges[k]);
        }
        lemma_parse_lines_of(front);
        assert(edges.map_values(body).drop_last() =~= front.map_values(body));
        assert(plain(edges[edges.len() - 1]));
        let line = line_of(e);
        assert(space_at(line, e.0.len() as int)) by {
            assert forall|j: int| 0 <= j < e.0.len() implies line[j] != ' ' by {
                assert(e.0[j] != ' ');
            }
        }
        lemma_space_at(line, e.0.len() as int);
        assert(line.take(e.0.len() as int) =~= e.0);
        assert(line.skip(e.0.len() as int + 1) =~= e.1);
        assert(front.push(e) =~= edges);
    }
}

/// Reading back what was written: the text of plain edges stands for these
/// edges, in their order.
pub proof fn lemma_parse_render(edges: Seq<EdgeView>)
    requires
        all_plain(edges),
    ensures
        parse_text(render(edges)) == Ok::<Seq<EdgeView>, int>(edges),
{
    lemma_split_render(edges);
    lemma_parse_lines_of(edges);
}

/// Dumping, loading and dumping again gives the first dump, for a graph
/// with plain edges whose canonical edge stream builds a graph with the same
/// canonical edge stream.
pub proof fn lemma_dump_load_dump(g: GraphView)
    requires
        all_plain(g.edges()),
        GraphView::build(g.edges()).edges() == g.edges(),
    ensures
        parse_text(render(g.edges())) is Ok,
        render(GraphView::build(parse_text(render(g.edges()))->Ok_0).edges()) == render(g.edges()),
{
    lemma_parse_render(g.edges());
}

} // verus!
