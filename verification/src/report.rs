use crate::depth::{
    check_max_depth, depth_check, expands, failing_depth, limit_for, should_expand,
    DEFAULT_MAX_DEPTH, DepthCheck,
};
use crate::dot::{decimal, push_decimal};
use crate::graph::{names, Graph, GraphView};
use crate::levels::{lemma_visit_order, visit_order};
use crate::order::residual;
use crate::traverse::{
    follows, is_complete_run, is_cut_run, is_path_run, lemma_seeds_depth, path_follows, path_seeds,
    path_steps, paths_at, paths_within_limit, placed, seeds, steps_placed, within_limit, Discipline,
    PathStep, Step, Visit,
};
use crate::tsort::sorted;
use itertools::Itertools;
use std::collections::HashSet;
use vstd::prelude::*;
use vstd::string::StringExecFns;

verus! {

broadcast use vstd::string::group_string_axioms;

/// Why a report could not be made.
#[derive(Debug, Clone, Copy, PartialEq, Eq)]
pub enum ReportError {
    /// The start value is not a value of the graph.
    UnknownStartNode,
    /// The traversal reached the default depth bound, and the caller had
    /// named none.
    DepthLimitExceeded,
}

/// The nodes that a traversal starts from: the index of the start value
/// where one is given, the roots where none is.
pub fn start_nodes(graph: &Graph, start: Option<&str>) -> (r: Result<Vec<usize>, ReportError>)
    ensures
        match start {
            Some(value) => match r {
                Ok(nodes) => nodes@.len() == 1 && nodes@[0] < graph@.values.len()
                    && graph@.values[nodes@[0] as int] == value@,
                Err(e) => e == ReportError::UnknownStartNode && !graph@.values.contains(value@),
            },
            None => r matches Ok(nodes) && nodes@ == graph@.roots(),
        },
{
    match start {
        Some(value) => match graph.index_of(value) {
            Some(i) => {
                let mut nodes: Vec<usize> = Vec::new();
                nodes.push(i);
                Ok(nodes)
            },
            None => Err(ReportError::UnknownStartNode),
        },
        None => Ok(graph.find_roots()),
    }
}

/// The parts with a space between each two.
pub open spec fn joined(parts: Seq<Seq<char>>) -> Seq<char>
    decreases parts.len(),
{
    if parts.len() == 0 {
        Seq::empty()
    } else if parts.len() == 1 {
        parts[0]
    } else {
        joined(parts.drop_last()) + seq![' '] + parts.last()
    }
}

/// Joins the parts with a space between each two.
pub fn join(parts: &Vec<String>) -> (r: String)
    ensures
        r@ == joined(names(parts@)),
{
    let mut out = String::new();
    let ghost all = names(parts@);
    let mut i: usize = 0;
    proof {
        assert(all.take(0) =~= Seq::<Seq<char>>::empty());
    }
    while i < parts.len()
        invariant
            i <= parts.len(),
            all == names(parts@),
            out@ == joined(all.take(i as int)),
        decreases parts.len() - i,
    {
        if i > 0 {
            out.push(' ');
        }
        out.append(parts[i].as_str());
        proof {
            assert(all.take(i + 1).drop_last() =~= all.take(i as int));
            assert(all.take(i + 1).last() == parts@[i as int]@);
            if i == 0 {
                assert(all.take(1)[0] == parts@[0]@);
                assert(out@ =~= parts@[0]@);
            }
        }
        i = i + 1;
    }
    proof {
        assert(all.take(i as int) =~= all);
    }
    out
}

/// The rule of the edge reports: a start node is always expanded, every
/// other node unless the depth check says to stop.
pub open spec fn edge_rule(max_depth: Option<usize>) -> spec_fn(Visit) -> bool {
    |v: Visit| v.pred is None || expands(v.depth, max_depth)
}

/// The rule of the tree and path reports: a node is expanded unless the
/// depth check says to stop.
pub open spec fn depth_rule(max_depth: Option<usize>) -> spec_fn(Visit) -> bool {
    |v: Visit| expands(v.depth, max_depth)
}

/// The line of an edge report for a visit with a predecessor: the value of
/// the predecessor, the value of the node, and the depth.
pub open spec fn edge_line(g: GraphView, v: Visit) -> Seq<char> {
    g.values[v.pred->0 as int] + seq![' '] + g.values[v.node as int] + seq![' '] + decimal(
        v.depth as nat,
    )
}

/// The lines of an edge report: one for each visit that has a predecessor,
/// in the order of the visits.
pub open spec fn edge_lines(g: GraphView, trace: Seq<Step>) -> Seq<Seq<char>>
    decreases trace.len(),
{
    if trace.len() == 0 {
        Seq::empty()
    } else if trace.last().visit.pred is Some {
        edge_lines(g, trace.drop_last()).push(edge_line(g, trace.last().visit))
    } else {
        edge_lines(g, trace.drop_last())
    }
}

/// Writes the lines of an edge report.
fn write_edge_lines(graph: &Graph, trace: &Vec<Step>) -> (lines: Vec<String>)
    requires
        steps_placed(graph@.values.len(), trace@),
    ensures
        names(lines@) == edge_lines(graph@, trace@),
{
    let values = graph.values();
    let ghost g = graph@;
    let mut lines: Vec<String> = Vec::new();
    let mut i: usize = 0;
    proof {
        assert(trace@.take(0) =~= Seq::<Step>::empty());
        assert(names(lines@) =~= Seq::<Seq<char>>::empty());
    }
    while i < trace.len()
        invariant
            i <= trace.len(),
            names(values@) == g.values,
            steps_placed(g.values.len(), trace@),
            names(lines@) == edge_lines(g, trace@.take(i as int)),
        decreases trace.len() - i,
    {
        let v = trace[i].visit;
        proof {
            assert(trace@.take(i + 1).drop_last() =~= trace@.take(i as int));
            assert(trace@.take(i + 1).last() == trace@[i as int]);
            assert(placed(g.values.len(), trace@[i as int].visit));
            assert(names(values@).len() == values@.len());
        }
        match v.pred {
            Some(p) => {
                let ghost before = names(lines@);
                let mut line = values[p].clone();
                line.push(' ');
                line.append(values[v.node].as_str());
                line.push(' ');
                push_decimal(&mut line, v.depth);
                proof {
                    assert(g.values[p as int] == values@[p as int]@);
                    assert(g.values[v.node as int] == values@[v.node as int]@);
                    assert(line@ =~= edge_line(g, v));
                }
                lines.push(line);
                proof {
                    assert(names(lines@) =~= before.push(edge_line(g, v)));
                }
            },
            None => {},
        }
        i = i + 1;
    }
    proof {
        assert(trace@.take(i as int) =~= trace@);
    }
    lines
}

/// Runs the traversal of the given discipline.
fn traverse<F: Fn(usize, usize, Option<usize>) -> bool>(
    graph: &Graph,
    d: Discipline,
    starts: &Vec<usize>,
    limit: usize,
    f: F,
) -> (r: Result<Vec<Step>, crate::traverse::DepthLimitExceeded>)
    requires
        forall|depth: usize, node: usize, pred: Option<usize>|
            placed(graph@.adj.len(), Visit { depth, node, pred }) ==> call_requires(
                f,
                (depth, node, pred),
            ),
    ensures
        match r {
            Ok(trace) => is_complete_run(d, graph@.adj, seeds(graph@.adj.len(), starts@), trace@)
                && within_limit(trace@, limit) && crate::traverse::permitted(f, trace@)
                && steps_placed(graph@.adj.len(), trace@),
            Err(e) => is_cut_run(d, graph@.adj, seeds(graph@.adj.len(), starts@), e.trace@, limit)
                && crate::traverse::permitted(f, e.trace@) && steps_placed(
                graph@.adj.len(),
                e.trace@,
            ),
        },
        graph@.wf(),
{
    match d {
        Discipline::Fifo => crate::bfs::bfs(graph, starts.as_slice(), limit, f),
        Discipline::Lifo => crate::dfs::dfs(graph, starts.as_slice(), limit, f),
    }
}

/// What a report says: `Ok` with the lines of the steps that the traversal
/// takes under `rule`, which are a complete run within the limit; and an
/// error for a run that follows `rule` up to a node that it was to expand
/// at the default depth bound, which can happen only where the caller named
/// no bound.
pub open spec fn reports(
    r: Result<Seq<Seq<char>>, ReportError>,
    d: Discipline,
    g: GraphView,
    starts: Seq<usize>,
    rule: spec_fn(Visit) -> bool,
    max_depth: Option<usize>,
    lines: spec_fn(Seq<Step>) -> Seq<Seq<char>>,
) -> bool {
    let start = seeds(g.adj.len(), starts);
    let order = visit_order(d, g.adj, rule, start, limit_for(max_depth));
    match r {
        Ok(text) => is_complete_run(d, g.adj, start, order) && within_limit(
            order,
            limit_for(max_depth),
        ) && text == lines(order),
        Err(e) => e == ReportError::DepthLimitExceeded && max_depth is None && exists|
            trace: Seq<Step>,
        |
            is_cut_run(d, g.adj, start, trace, DEFAULT_MAX_DEPTH) && follows(rule, trace),
    }
}

/// The result of a report, with the lines as text.
pub open spec fn report_view(r: Result<Vec<String>, ReportError>) -> Result<
    Seq<Seq<char>>,
    ReportError,
> {
    match r {
        Ok(lines) => Ok(names(lines@)),
        Err(e) => Err(e),
    }
}

/// The edge report of a traversal from `starts`: a line for every visit
/// with a predecessor, in the order of the visits, with the value of the
/// predecessor, the value of the node and the depth. A start node is always
/// expanded; another node is expanded unless its successors would be at the
/// depth bound. Where no bound is named, the traversal fails when it reaches
/// the default bound.
pub fn edges(graph: &Graph, d: Discipline, starts: &Vec<usize>, max_depth: Option<usize>) -> (r:
    Result<Vec<String>, ReportError>)
    ensures
        reports(
            report_view(r),
            d,
            graph@,
            starts@,
            edge_rule(max_depth),
            max_depth,
            |trace: Seq<Step>| edge_lines(graph@, trace),
        ),
{
    let rule = |depth: usize, node: usize, pred: Option<usize>| -> (go: bool)
        ensures
            go == (pred is None || expands(depth, max_depth)),
        { pred.is_none() || should_expand(depth, max_depth) };
    match traverse(graph, d, starts, failing_depth(max_depth), rule) {
        Ok(trace) => {
            proof {
                assert(follows(edge_rule(max_depth), trace@));
                lemma_seeds_depth(graph@.adj.len(), starts@);
                lemma_visit_order(
                    d,
                    graph@.adj,
                    edge_rule(max_depth),
                    seeds(graph@.adj.len(), starts@),
                    trace@,
                    limit_for(max_depth),
                );
            }
            Ok(write_edge_lines(graph, &trace))
        },
        Err(e) => {
            proof {
                assert(follows(edge_rule(max_depth), e.trace@));
                let last = e.trace@.last().visit;
                assert(placed(graph@.adj.len(), e.trace@[e.trace@.len() - 1].visit));
                assert(e.trace@[e.trace@.len() - 1].expanded == edge_rule(max_depth)(last));
            }
            Err(ReportError::DepthLimitExceeded)
        },
    }
}

/// Four spaces for each level of depth.
pub open spec fn indent(depth: nat) -> Seq<char>
    decreases depth,
{
    if depth == 0 {
        Seq::empty()
    } else {
        indent((depth - 1) as nat) + seq![' ', ' ', ' ', ' ']
    }
}

/// The line of a tree report for a visit: the indentation of its depth, a
/// star, a space, and the value of the node.
pub open spec fn tree_line(g: GraphView, v: Visit) -> Seq<char> {
    indent(v.depth as nat) + seq!['*', ' '] + g.values[v.node as int]
}

/// The lines of a tree report: one for each visit, in the order of the
/// visits.
pub open spec fn tree_lines(g: GraphView, trace: Seq<Step>) -> Seq<Seq<char>> {
    trace.map_values(|s: Step| tree_line(g, s.visit))
}

/// Writes the lines of a tree report.
fn write_tree_lines(graph: &Graph, trace: &Vec<Step>) -> (lines: Vec<String>)
    requires
        steps_placed(graph@.values.len(), trace@),
    ensures
        names(lines@) == tree_lines(graph@, trace@),
{
    let values = graph.values();
    let ghost g = graph@;
    let mut lines: Vec<String> = Vec::new();
    let mut i: usize = 0;
    proof {
        assert(names(lines@) =~= tree_lines(g, trace@).take(0));
    }
    while i < trace.len()
        invariant
            i <= trace.len(),
            names(values@) == g.values,
            steps_placed(g.values.len(), trace@),
            names(lines@) == tree_lines(g, trace@).take(i as int),
        decreases trace.len() - i,
    {
        let v = trace[i].visit;
        proof {
            assert(placed(g.values.len(), trace@[i as int].visit));
            assert(names(values@).len() == values@.len());
        }
        let mut line = String::new();
        let mut level: usize = 0;
        while level < v.depth
            invariant
                level <= v.depth,
                line@ == indent(level as nat),
            decreases v.depth - level,
        {
            line.push(' ');
            line.push(' ');
            line.push(' ');
            line.push(' ');
            level = level + 1;
            proof {
                assert(line@ =~= indent(level as nat));
            }
        }
        line.push('*');
        line.push(' ');
        line.append(values[v.node].as_str());
        let ghost before = names(lines@);
        proof {
            assert(g.values[v.node as int] == values@[v.node as int]@);
            assert(line@ =~= tree_line(g, v));
        }
        lines.push(line);
        proof {
            let all = tree_lines(g, trace@);
            assert(all.take(i + 1) =~= all.take(i as int).push(all[i as int]));
            assert(names(lines@) =~= before.push(tree_line(g, v)));
        }
        i = i + 1;
    }
    proof {
        assert(tree_lines(g, trace@).take(i as int) =~= tree_lines(g, trace@));
    }
    lines
}

/// The tree report of a depth-first traversal from `starts`: a line for
/// every visit, the value of the node indented by its depth. A node is
/// expanded unless its successors would be at the depth bound. Where no
/// bound is named, the traversal fails when it reaches the default bound.
pub fn tree(graph: &Graph, starts: &Vec<usize>, max_depth: Option<usize>) -> (r: Result<
    Vec<String>,
    ReportError,
>)
    ensures
        reports(
            report_view(r),
            Discipline::Lifo,
            graph@,
            starts@,
            depth_rule(max_depth),
            max_depth,
            |trace: Seq<Step>| tree_lines(graph@, trace),
        ),
{
    let rule = |depth: usize, node: usize, pred: Option<usize>| -> (go: bool)
        ensures
            go == expands(depth, max_depth),
        { should_expand(depth, max_depth) };
    match traverse(graph, Discipline::Lifo, starts, failing_depth(max_depth), rule) {
        Ok(trace) => {
            proof {
                assert(follows(depth_rule(max_depth), trace@));
                lemma_seeds_depth(graph@.adj.len(), starts@);
                lemma_visit_order(
                    Discipline::Lifo,
                    graph@.adj,
                    depth_rule(max_depth),
                    seeds(graph@.adj.len(), starts@),
                    trace@,
                    limit_for(max_depth),
                );
            }
            Ok(write_tree_lines(graph, &trace))
        },
        Err(e) => {
            proof {
                assert(follows(depth_rule(max_depth), e.trace@));
                let last = e.trace@.last().visit;
                assert(e.trace@[e.trace@.len() - 1].expanded == depth_rule(max_depth)(last));
            }
            Err(ReportError::DepthLimitExceeded)
        },
    }
}

/// The path so far, cut or filled with empty values to `depth` entries.
pub open spec fn padded(path: Seq<Seq<char>>, depth: nat) -> Seq<Seq<char>> {
    if path.len() >= depth {
        path.take(depth as int)
    } else {
        path + Seq::new((depth - path.len()) as nat, |i: int| Seq::<char>::empty())
    }
}

/// The path of values after the visits of `trace`: each visit keeps what
/// lies above its depth and puts the value of its node behind it.
pub open spec fn path_at(g: GraphView, trace: Seq<Step>) -> Seq<Seq<char>>
    decreases trace.len(),
{
    if trace.len() == 0 {
        Seq::empty()
    } else {
        padded(path_at(g, trace.drop_last()), trace.last().visit.depth as nat).push(
            g.values[trace.last().visit.node as int],
        )
    }
}

/// The lines of a path report of a depth-first traversal: for each visit
/// the path of values that leads to it, joined by spaces.
pub open spec fn path_lines(g: GraphView, trace: Seq<Step>) -> Seq<Seq<char>>
    decreases trace.len(),
{
    if trace.len() == 0 {
        Seq::empty()
    } else {
        path_lines(g, trace.drop_last()).push(joined(path_at(g, trace)))
    }
}

/// Writes the lines of a path report of a depth-first traversal.
fn write_path_lines(graph: &Graph, trace: &Vec<Step>) -> (lines: Vec<String>)
    requires
        steps_placed(graph@.values.len(), trace@),
    ensures
        names(lines@) == path_lines(graph@, trace@),
{
    let values = graph.values();
    let ghost g = graph@;
    let mut lines: Vec<String> = Vec::new();
    let mut path: Vec<String> = Vec::new();
    let mut i: usize = 0;
    proof {
        assert(trace@.take(0) =~= Seq::<Step>::empty());
        assert(names(lines@) =~= Seq::<Seq<char>>::empty());
        assert(names(path@) =~= Seq::<Seq<char>>::empty());
    }
    while i < trace.len()
        invariant
            i <= trace.len(),
            names(values@) == g.values,
            steps_placed(g.values.len(), trace@),
            names(lines@) == path_lines(g, trace@.take(i as int)),
            names(path@) == path_at(g, trace@.take(i as int)),
        decreases trace.len() - i,
    {
        let v = trace[i].visit;
        let ghost old_path = names(path@);
        proof {
            assert(trace@.take(i + 1).drop_last() =~= trace@.take(i as int));
            assert(trace@.take(i + 1).last() == trace@[i as int]);
            assert(placed(g.values.len(), trace@[i as int].visit));
            assert(names(values@).len() == values@.len());
            assert(names(path@).len() == path@.len());
        }
        if path.len() >= v.depth {
            path.truncate(v.depth);
            proof {
                assert(names(path@) =~= padded(old_path, v.depth as nat));
            }
        } else {
            while path.len() < v.depth
                invariant
                    path.len() <= v.depth,
                    old_path.len() <= path.len(),
                    names(path@) == old_path + Seq::new(
                        (path.len() - old_path.len()) as nat,
                        |i: int| Seq::<char>::empty(),
                    ),
                decreases v.depth - path.len(),
            {
                let ghost here = names(path@);
                path.push(String::new());
                proof {
                    assert(names(path@) =~= here.push(Seq::<char>::empty()));
                    assert(names(path@) =~= old_path + Seq::new(
                        (path.len() - old_path.len()) as nat,
                        |i: int| Seq::<char>::empty(),
                    ));
                }
            }
        }
        let ghost cut = names(path@);
        path.push(values[v.node].clone());
        proof {
            assert(g.values[v.node as int] == values@[v.node as int]@);
            assert(names(path@) =~= cut.push(g.values[v.node as int]));
        }
        let ghost before = names(lines@);
        lines.push(join(&path));
        proof {
            assert(names(lines@) =~= before.push(joined(names(path@))));
        }
        i = i + 1;
    }
    proof {
        assert(trace@.take(i as int) =~= trace@);
    }
    lines
}

/// The path report of a depth-first traversal from `starts`: a line for
/// every visit, the values on the path that leads to it. A node is expanded
/// unless its successors would be at the depth bound. Where no bound is
/// named, the traversal fails when it reaches the default bound.
pub fn dfs_paths(graph: &Graph, starts: &Vec<usize>, max_depth: Option<usize>) -> (r: Result<
    Vec<String>,
    ReportError,
>)
    ensures
        reports(
            report_view(r),
            Discipline::Lifo,
            graph@,
            starts@,
            depth_rule(max_depth),
            max_depth,
            |trace: Seq<Step>| path_lines(graph@, trace),
        ),
{
    let rule = |depth: usize, node: usize, pred: Option<usize>| -> (go: bool)
        ensures
            go == expands(depth, max_depth),
        { should_expand(depth, max_depth) };
    match traverse(graph, Discipline::Lifo, starts, failing_depth(max_depth), rule) {
        Ok(trace) => {
            proof {
                assert(follows(depth_rule(max_depth), trace@));
                lemma_seeds_depth(graph@.adj.len(), starts@);
                lemma_visit_order(
                    Discipline::Lifo,
                    graph@.adj,
                    depth_rule(max_depth),
                    seeds(graph@.adj.len(), starts@),
                    trace@,
                    limit_for(max_depth),
                );
            }
            Ok(write_path_lines(graph, &trace))
        },
        Err(e) => {
            proof {
                assert(follows(depth_rule(max_depth), e.trace@));
                let last = e.trace@.last().visit;
                assert(e.trace@[e.trace@.len() - 1].expanded == depth_rule(max_depth)(last));
            }
            Err(ReportError::DepthLimitExceeded)
        },
    }
}

/// The rule of the path report of a breadth-first traversal: a path is
/// extended unless the depth check on its length says to stop.
pub open spec fn length_rule(max_depth: Option<usize>) -> spec_fn(Seq<usize>) -> bool {
    |path: Seq<usize>|
        depth_check(path.len() as int, max_depth, DEFAULT_MAX_DEPTH) != DepthCheck::Stop
}

/// The values of the nodes of a path.
pub open spec fn value_path(g: GraphView, path: Seq<usize>) -> Seq<Seq<char>> {
    path.map_values(|i: usize| g.values[i as int])
}

/// The lines of a path report of a breadth-first traversal: for each step
/// the values on its path, joined by spaces.
pub open spec fn walk_lines(g: GraphView, trace: Seq<(Seq<usize>, bool)>) -> Seq<Seq<char>> {
    trace.map_values(|s: (Seq<usize>, bool)| joined(value_path(g, s.0)))
}

/// What a path report of a breadth-first traversal says of the run it was
/// made from: `Ok` for the complete run that follows the length rule, and an
/// error for a run that follows it up to a path that it was to extend at the
/// default depth bound; that can happen only where the caller named no
/// bound.
pub open spec fn walk_reports(
    r: Result<Seq<Seq<char>>, ReportError>,
    g: GraphView,
    starts: Seq<usize>,
    max_depth: Option<usize>,
) -> bool {
    match r {
        Ok(text) => exists|trace: Seq<(Seq<usize>, bool)>|
            is_path_run(g.adj, path_seeds(g.adj.len(), starts), trace) && paths_at(
                g.adj,
                path_seeds(g.adj.len(), starts),
                trace,
            ).len() == 0 && path_follows(length_rule(max_depth), trace) && paths_within_limit(
                trace,
                limit_for(max_depth),
            ) && text == walk_lines(g, trace),
        Err(e) => e == ReportError::DepthLimitExceeded && max_depth is None && exists|
            trace: Seq<(Seq<usize>, bool)>,
        |
            trace.len() > 0 && is_path_run(g.adj, path_seeds(g.adj.len(), starts), trace)
                && path_follows(length_rule(max_depth), trace) && paths_within_limit(
                trace.drop_last(),
                DEFAULT_MAX_DEPTH,
            ) && trace.last().0.len() >= DEFAULT_MAX_DEPTH,
    }
}

/// Writes the lines of a path report of a breadth-first traversal.
fn write_walk_lines(graph: &Graph, trace: &Vec<PathStep>) -> (lines: Vec<String>)
    requires
        crate::traverse::path_steps_ok(graph@.values.len(), path_steps(trace@)),
    ensures
        names(lines@) == walk_lines(graph@, path_steps(trace@)),
{
    let values = graph.values();
    let ghost g = graph@;
    let ghost steps = path_steps(trace@);
    let mut lines: Vec<String> = Vec::new();
    let mut i: usize = 0;
    proof {
        assert(names(lines@) =~= walk_lines(g, steps).take(0));
    }
    while i < trace.len()
        invariant
            i <= trace.len(),
            names(values@) == g.values,
            steps == path_steps(trace@),
            crate::traverse::path_steps_ok(g.values.len(), steps),
            names(lines@) == walk_lines(g, steps).take(i as int),
        decreases trace.len() - i,
    {
        let ghost nodes = steps[i as int].0;
        proof {
            assert(crate::traverse::path_ok(g.values.len(), steps[i as int].0));
            assert(names(values@).len() == values@.len());
            assert(nodes == trace@[i as int].path@);
        }
        let mut parts: Vec<String> = Vec::new();
        let mut k: usize = 0;
        proof {
            assert(names(parts@) =~= value_path(g, nodes).take(0));
        }
        while k < trace[i].path.len()
            invariant
                i < trace.len(),
                k <= trace@[i as int].path@.len(),
                names(values@) == g.values,
                names(values@).len() == values@.len(),
                nodes == trace@[i as int].path@,
                crate::traverse::path_ok(g.values.len(), nodes),
                names(parts@) == value_path(g, nodes).take(k as int),
            decreases trace@[i as int].path@.len() - k,
        {
            let node = trace[i].path[k];
            assert(nodes[k as int] < g.values.len());
            let ghost so_far = names(parts@);
            parts.push(values[node].clone());
            proof {
                let all = value_path(g, nodes);
                assert(g.values[node as int] == values@[node as int]@);
                assert(all.take(k + 1) =~= all.take(k as int).push(all[k as int]));
                assert(names(parts@) =~= so_far.push(all[k as int]));
            }
            k = k + 1;
        }
        let ghost before = names(lines@);
        lines.push(join(&parts));
        proof {
            let all = walk_lines(g, steps);
            assert(value_path(g, nodes).take(k as int) =~= value_path(g, nodes));
            assert(all.take(i + 1) =~= all.take(i as int).push(all[i as int]));
            assert(names(lines@) =~= before.push(all[i as int]));
        }
        i = i + 1;
    }
    proof {
        assert(walk_lines(g, steps).take(i as int) =~= walk_lines(g, steps));
    }
    lines
}

/// The path report of a breadth-first traversal from `starts`: a line for
/// every step, the values on its path from a start node. A path is extended
/// unless it is as long as the depth bound. Where no bound is named, the
/// traversal fails when a path reaches the default bound.
pub fn bfs_paths(graph: &Graph, starts: &Vec<usize>, max_depth: Option<usize>) -> (r: Result<
    Vec<String>,
    ReportError,
>)
    ensures
        walk_reports(report_view(r), graph@, starts@, max_depth),
{
    let rule = |path: &[usize]| -> (go: bool)
        ensures
            go == (depth_check(path@.len() as int, max_depth, DEFAULT_MAX_DEPTH)
                != DepthCheck::Stop),
        {
            match check_max_depth(path.len(), max_depth, DEFAULT_MAX_DEPTH) {
                DepthCheck::Stop => false,
                _ => true,
            }
        };
    match crate::bfs::bfs_path(graph, starts.as_slice(), failing_depth(max_depth), rule) {
        Ok(trace) => {
            proof {
                let steps = path_steps(trace@);
                assert forall|k: int| 0 <= k < steps.len() implies (#[trigger] steps[k]).1
                    == length_rule(max_depth)(steps[k].0) by {
                    let s = choose|s: &[usize]| s@ == steps[k].0 && call_ensures(rule, (s,), steps[k].1);
                }
                assert(path_follows(length_rule(max_depth), steps));
                assert(is_path_run(graph@.adj, path_seeds(graph@.adj.len(), starts@), steps));
                assert(paths_within_limit(steps, limit_for(max_depth)));
            }
            let lines = write_walk_lines(graph, &trace);
            proof {
                assert(names(lines@) == walk_lines(graph@, path_steps(trace@)));
            }
            Ok(lines)
        },
        Err(e) => {
            proof {
                let steps = path_steps(e.trace@);
                assert forall|k: int| 0 <= k < steps.len() implies (#[trigger] steps[k]).1
                    == length_rule(max_depth)(steps[k].0) by {
                    let s = choose|s: &[usize]| s@ == steps[k].0 && call_ensures(rule, (s,), steps[k].1);
                }
                assert(steps[steps.len() - 1].1 == length_rule(max_depth)(steps.last().0));
                assert(path_follows(length_rule(max_depth), steps));
                assert(max_depth is None);
                assert(steps.len() > 0 && is_path_run(
                    graph@.adj,
                    path_seeds(graph@.adj.len(), starts@),
                    steps,
                ) && paths_within_limit(steps.drop_last(), DEFAULT_MAX_DEPTH) && steps.last().0.len()
                    >= DEFAULT_MAX_DEPTH);
            }
            Err(ReportError::DepthLimitExceeded)
        },
    }
}

/// The nodes that a traversal starts from: the index of the start value
/// where one is given, if it is a value of the graph; the roots where none
/// is.
pub open spec fn starts_of(g: GraphView, start: Option<Seq<char>>) -> Option<Seq<usize>> {
    match start {
        Some(value) => if g.values.contains(value) {
            Some(seq![g.values.index_of(value) as usize])
        } else {
            None
        },
        None => Some(g.roots()),
    }
}

/// The view of an optional string.
pub open spec fn text_of(s: Option<&str>) -> Option<Seq<char>> {
    match s {
        Some(t) => Some(t@),
        None => None,
    }
}

/// The report of a breadth-first traversal from the start value, or from
/// the roots where none is given: the path report where `path` is set, the
/// edge report where it is not. Fails where the start value is not a value
/// of the graph, and where the traversal reaches the default depth bound
/// without a bound of the caller's.
pub fn bfs(graph: &Graph, start: Option<&str>, path: bool, max_depth: Option<usize>) -> (r: Result<
    Vec<String>,
    ReportError,
>)
    ensures
        match starts_of(graph@, text_of(start)) {
            None => report_view(r) == Err::<Seq<Seq<char>>, ReportError>(
                ReportError::UnknownStartNode,
            ),
            Some(starts) => if path {
                walk_reports(report_view(r), graph@, starts, max_depth)
            } else {
                reports(
                    report_view(r),
                    Discipline::Fifo,
                    graph@,
                    starts,
                    edge_rule(max_depth),
                    max_depth,
                    |trace: Seq<Step>| edge_lines(graph@, trace),
                )
            },
        },
{
    let n = graph.len();
    let starts = match start_nodes(graph, start) {
        Ok(nodes) => nodes,
        Err(e) => {
            return Err(e);
        },
    };
    proof {
        lemma_starts(graph@, text_of(start), starts@);
    }
    if path {
        bfs_paths(graph, &starts, max_depth)
    } else {
        edges(graph, Discipline::Fifo, &starts, max_depth)
    }
}

/// The report of a depth-first traversal from the start value, or from the
/// roots where none is given: the path report where `path` is set, else the
/// tree report where `tree` is set, else the edge report. Fails where the
/// start value is not a value of the graph, and where the traversal reaches
/// the default depth bound without a bound of the caller's.
pub fn dfs(
    graph: &Graph,
    start: Option<&str>,
    path: bool,
    tree: bool,
    max_depth: Option<usize>,
) -> (r: Result<Vec<String>, ReportError>)
    ensures
        match starts_of(graph@, text_of(start)) {
            None => report_view(r) == Err::<Seq<Seq<char>>, ReportError>(
                ReportError::UnknownStartNode,
            ),
            Some(starts) => if path {
                reports(
                    report_view(r),
                    Discipline::Lifo,
                    graph@,
                    starts,
                    depth_rule(max_depth),
                    max_depth,
                    |trace: Seq<Step>| path_lines(graph@, trace),
                )
            } else if tree {
                reports(
                    report_view(r),
                    Discipline::Lifo,
                    graph@,
                    starts,
                    depth_rule(max_depth),
                    max_depth,
                    |trace: Seq<Step>| tree_lines(graph@, trace),
                )
            } else {
                reports(
                    report_view(r),
                    Discipline::Lifo,
                    graph@,
                    starts,
                    edge_rule(max_depth),
                    max_depth,
                    |trace: Seq<Step>| edge_lines(graph@, trace),
                )
            },
        },
{
    let n = graph.len();
    let starts = match start_nodes(graph, start) {
        Ok(nodes) => nodes,
        Err(e) => {
            return Err(e);
        },
    };
    proof {
        lemma_starts(graph@, text_of(start), starts@);
    }
    if path {
        dfs_paths(graph, &starts, max_depth)
    } else if tree {
        self::tree(graph, &starts, max_depth)
    } else {
        edges(graph, Discipline::Lifo, &starts, max_depth)
    }
}

/// The start nodes that `start_nodes` finds are those of `starts_of`.
proof fn lemma_starts(g: GraphView, start: Option<Seq<char>>, nodes: Seq<usize>)
    requires
        g.wf(),
        g.values.len() <= usize::MAX,
        match start {
            Some(value) => nodes.len() == 1 && nodes[0] < g.values.len() && g.values[nodes[0] as int]
                == value,
            None => nodes == g.roots(),
        },
    ensures
        starts_of(g, start) == Some(nodes),
{
    match start {
        Some(value) => {
            crate::graph::lemma_index_of_unique(g.values, nodes[0] as int);
            assert(nodes =~= seq![g.values.index_of(value) as usize]);
        },
        None => {},
    }
}

/// The outcome of a topological sort, as values: those in order, and those
/// that the sort did not reach, the values in a cycle and behind one, by
/// ascending index. Nothing is left over exactly when the graph has no
/// cycle.
#[derive(Debug, Clone, PartialEq, Eq)]
pub struct SortReport {
    pub sorted: Vec<String>,
    pub looped: Vec<String>,
}

/// `list` holds the elements of `set`, ascending.
pub open spec fn ascending(set: Set<usize>, list: Seq<usize>) -> bool {
    &&& forall|a: int, b: int| 0 <= a < b < list.len() ==> list[a] < list[b]
    &&& forall|x: usize| list.contains(x) <==> set.contains(x)
}

/// Calls `Itertools::sorted` on the elements of `set` and collects what it
/// hands out. The contract says what the method documents, sorting in
/// ascending order, of the elements of a set, of which none occurs twice.
#[verifier::external_body]
fn sorted_indices(set: &HashSet<usize>) -> (r: Vec<usize>)
    ensures
        ascending(set@, r@),
{
    set.iter().copied().sorted().collect()
}

/// The values of the nodes of `nodes`.
fn values_of(graph: &Graph, nodes: &Vec<usize>) -> (r: Vec<String>)
    requires
        forall|i: int| 0 <= i < nodes.len() ==> (#[trigger] nodes[i]) < graph@.values.len(),
    ensures
        names(r@) == value_path(graph@, nodes@),
{
    let values = graph.values();
    let ghost g = graph@;
    let mut out: Vec<String> = Vec::new();
    let mut i: usize = 0;
    proof {
        assert(names(out@) =~= value_path(g, nodes@).take(0));
    }
    while i < nodes.len()
        invariant
            i <= nodes.len(),
            names(values@) == g.values,
            forall|i: int| 0 <= i < nodes.len() ==> (#[trigger] nodes[i]) < g.values.len(),
            names(out@) == value_path(g, nodes@).take(i as int),
        decreases nodes.len() - i,
    {
        let node = nodes[i];
        let ghost before = names(out@);
        proof {
            assert(names(values@).len() == values@.len());
        }
        out.push(values[node].clone());
        proof {
            let all = value_path(g, nodes@);
            assert(g.values[node as int] == values@[node as int]@);
            assert(all.take(i + 1) =~= all.take(i as int).push(all[i as int]));
            assert(names(out@) =~= before.push(all[i as int]));
        }
        i = i + 1;
    }
    proof {
        assert(value_path(g, nodes@).take(i as int) =~= value_path(g, nodes@));
    }
    out
}

/// The report of a topological sort: the values in the order in which the
/// sort emits their nodes, and the values of the residual nodes by
/// ascending index. The residual is empty exactly when the graph has no
/// cycle.
pub fn tsort(graph: &Graph) -> (r: SortReport)
    ensures
        names(r.sorted@) == value_path(graph@, sorted(graph@).emitted),
        exists|left: Seq<usize>|
            ascending(residual(graph@, sorted(graph@).emitted), left) && names(r.looped@)
                == value_path(graph@, left),
        r.looped@.len() == 0 <==> !crate::order::has_cycle(graph@),
{
    let n = graph.len();
    let emit = |node: usize| {  };
    match crate::tsort::tsort(graph, emit) {
        Ok(order) => {
            proof {
                crate::order::lemma_sorted_order(graph@);
                assert(residual(graph@, order@) =~= Set::<usize>::empty()) by {
                    crate::order::lemma_sorted_acyclic(graph@);
                }
            }
            let sorted = values_of(graph, &order);
            let looped: Vec<String> = Vec::new();
            proof {
                let none = Seq::<usize>::empty();
                assert(ascending(residual(graph@, order@), none));
                assert(names(looped@) =~= value_path(graph@, none));
            }
            SortReport { sorted, looped }
        },
        Err(cycle) => {
            proof {
                crate::order::lemma_sorted_order(graph@);
            }
            let sorted = values_of(graph, &cycle.emitted);
            let left = sorted_indices(&cycle.residual);
            proof {
                assert forall|i: int| 0 <= i < left.len() implies (#[trigger] left[i])
                    < graph@.values.len() by {
                    assert(left@.contains(left[i]));
                }
                if left@.len() == 0 {
                    assert(cycle.residual@ =~= Set::<usize>::empty()) by {
                        assert forall|x: usize| !cycle.residual@.contains(x) by {
                            if cycle.residual@.contains(x) {
                                assert(left@.contains(x));
                            }
                        }
                    }
                }
            }
            let looped = values_of(graph, &left);
            proof {
                assert(names(looped@).len() == left@.len());
            }
            SortReport { sorted, looped }
        },
    }
}

} // verus!
