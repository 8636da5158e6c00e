use crate::graph::Graph;
use crate::levels::{lemma_visit_order, visit_order};
use crate::traverse::{
    child, children, follows, is_complete_run, is_cut_run, is_path_from, is_path_run, is_run,
    lemma_path_run_paths, lemma_path_run_step, lemma_path_seeds_push, lemma_path_step_decreases,
    lemma_path_step_ok, lemma_run_step, lemma_seeds_depth, lemma_seeds_push, lemma_step_decreases,
    lemma_step_visits_ok, path_children, path_ok, path_permitted, path_seeds, path_steps,
    path_steps_ok, path_views, paths_at, paths_ok, paths_size, paths_within_limit, pending_at,
    pending_size, permitted, placed, seeds, steps_placed, visits_ok, within_limit,
    DepthLimitExceeded, Discipline, PathLimitExceeded, PathStep, Step, Visit,
};
use std::collections::VecDeque;
use vstd::prelude::*;

verus! {

/// Breadth-first traversal from the start indices `starts`, in strict FIFO
/// order and without a visited set: a node is visited once for every path
/// that reaches it.
///
/// Start indices that are not indices of the graph are dropped; the others
/// are seeded at depth 0 without predecessor. Each visit is handed to `f` as
/// `(depth, node, predecessor)`. Where `f` answers `true` the successors of
/// the node are enqueued at the next depth, in adjacency order; where it
/// answers `false` they are not, and the rest of the queue is unaffected.
///
/// `max_depth` is the bound that keeps the traversal finite on a cyclic
/// graph: when `f` asks for the successors of a visit at `depth` with
/// `depth + 1 >= max_depth`, the traversal ends with `DepthLimitExceeded`.
///
/// The result is the trace: every visit in the order in which it was handed
/// to `f`, each with the answer of `f`. Where the answers follow a rule, the
/// trace is the level order under that rule: the start nodes, then the
/// successors of those that were expanded, and so on.
pub fn bfs<F: Fn(usize, usize, Option<usize>) -> bool>(
    graph: &Graph,
    starts: &[usize],
    max_depth: usize,
    f: F,
) -> (r: Result<Vec<Step>, DepthLimitExceeded>)
    requires
        forall|depth: usize, node: usize, pred: Option<usize>|
            placed(graph@.adj.len(), Visit { depth, node, pred }) ==> call_requires(
                f,
                (depth, node, pred),
            ),
    ensures
        match r {
            Ok(trace) => is_complete_run(
                Discipline::Fifo,
                graph@.adj,
                seeds(graph@.adj.len(), starts@),
                trace@,
            ) && within_limit(trace@, max_depth) && permitted(f, trace@) && steps_placed(
                graph@.adj.len(),
                trace@,
            ) && forall|rule: spec_fn(Visit) -> bool| #[trigger]
                follows(rule, trace@) ==> trace@ == visit_order(
                    Discipline::Fifo,
                    graph@.adj,
                    rule,
                    seeds(graph@.adj.len(), starts@),
                    max_depth,
                ),
            Err(e) => is_cut_run(
                Discipline::Fifo,
                graph@.adj,
                seeds(graph@.adj.len(), starts@),
                e.trace@,
                max_depth,
            ) && permitted(f, e.trace@) && steps_placed(graph@.adj.len(), e.trace@),
        },
        graph@.wf(),
{
    broadcast use vstd::std_specs::vecdeque::axiom_spec_len;

    let n = graph.len();
    let ghost adj = graph@.adj;
    let ghost start = seeds(n as nat, starts@);
    let mut queue: VecDeque<Visit> = VecDeque::new();
    let mut i: usize = 0;
    proof {
        lemma_seeds_push(n as nat, Seq::empty(), 0);
        assert(starts@.take(0) =~= Seq::empty());
    }
    while i < starts.len()
        invariant
            i <= starts.len(),
            queue@ == seeds(n as nat, starts@.take(i as int)),
            visits_ok(n as nat, queue@),
        decreases starts.len() - i,
    {
        let s = starts[i];
        proof {
            lemma_seeds_push(n as nat, starts@.take(i as int), s);
            assert(starts@.take(i + 1) =~= starts@.take(i as int).push(s));
        }
        if s < n {
            queue.push_back(Visit { depth: 0, node: s, pred: None });
        }
        i = i + 1;
    }
    proof {
        assert(starts@.take(i as int) =~= starts@);
    }
    let mut trace: Vec<Step> = Vec::new();
    while queue.len() > 0
        invariant
            adj == graph@.adj,
            graph@.wf(),
            n == adj.len(),
            start == seeds(n as nat, starts@),
            forall|depth: usize, node: usize, pred: Option<usize>|
                placed(n as nat, Visit { depth, node, pred }) ==> call_requires(
                    f,
                    (depth, node, pred),
                ),
            is_run(Discipline::Fifo, adj, start, trace@),
            queue@ == pending_at(Discipline::Fifo, adj, start, trace@),
            visits_ok(n as nat, queue@),
            permitted(f, trace@),
            within_limit(trace@, max_depth),
            steps_placed(n as nat, trace@),
        decreases pending_size(adj, queue@, max_depth as nat),
    {
        let ghost pending = queue@;
        let ghost before = trace@;
        let v = queue.pop_front().unwrap();
        let go = f(v.depth, v.node, v.pred);
        let step = Step { visit: v, expanded: go };
        trace.push(step);
        proof {
            lemma_run_step(Discipline::Fifo, adj, start, before, step);
            assert(queue@ =~= pending.drop_first());
            assert(trace@.drop_last() =~= before);
        }
        if go {
            if max_depth == 0 || v.depth >= max_depth - 1 {
                return Err(DepthLimitExceeded { trace });
            }
            proof {
                lemma_step_decreases(Discipline::Fifo, adj, pending, true, max_depth as nat);
                lemma_step_visits_ok(Discipline::Fifo, adj, pending, true);
            }
            match graph.successors(v.node) {
                Some(list) => {
                    let mut k: usize = 0;
                    while k < list.len()
                        invariant
                            k <= list.len(),
                            v.node < adj.len(),
                            v.depth + 1 < max_depth,
                            list@ == adj[v.node as int],
                            queue@ == pending.drop_first() + children(adj, v).take(k as int),
                        decreases list.len() - k,
                    {
                        queue.push_back(Visit { depth: v.depth + 1, node: list[k], pred: Some(v.node) });
                        proof {
                            let kids = children(adj, v);
                            assert(kids[k as int] == child(v, list@[k as int]));
                            assert(kids.take(k + 1) =~= kids.take(k as int).push(kids[k as int]));
                            assert(queue@ =~= pending.drop_first() + kids.take(k + 1));
                        }
                        k = k + 1;
                    }
                    proof {
                        assert(children(adj, v).take(k as int) =~= children(adj, v));
                    }
                },
                None => {
                    proof {
                        assert(children(adj, v) =~= Seq::empty());
                        assert(queue@ =~= pending.drop_first() + children(adj, v));
                    }
                },
            }
        } else {
            proof {
                lemma_step_decreases(Discipline::Fifo, adj, pending, false, max_depth as nat);
                lemma_step_visits_ok(Discipline::Fifo, adj, pending, false);
            }
        }
    }
    proof {
        assert forall|rule: spec_fn(Visit) -> bool| #[trigger]
            follows(rule, trace@) implies trace@ == visit_order(
            Discipline::Fifo,
            adj,
            rule,
            start,
            max_depth,
        ) by {
            lemma_seeds_depth(n as nat, starts@);
            lemma_visit_order(Discipline::Fifo, adj, rule, start, trace@, max_depth);
        }
    }
    Ok(trace)
}

/// Breadth-first traversal that hands `f` the whole path from a start node
/// to the visited node, in place of depth and predecessor. The order of the
/// visits is that of `bfs`.
///
/// Start indices that are not indices of the graph are dropped. Where `f`
/// answers `true` to a path, its extensions by each successor of its last
/// node are enqueued, in adjacency order. When `f` asks for the extensions of
/// a path of `max_depth` nodes or more, the traversal ends with
/// `PathLimitExceeded`.
///
/// The result is the trace: every path in the order in which it was handed
/// to `f`, each with the answer of `f`. Every one of them is a path of the
/// graph from one of the start indices.
pub fn bfs_path<F: Fn(&[usize]) -> bool>(
    graph: &Graph,
    starts: &[usize],
    max_depth: usize,
    f: F,
) -> (r: Result<Vec<PathStep>, PathLimitExceeded>)
    requires
        forall|path: &[usize]| path_ok(graph@.adj.len(), path@) ==> call_requires(f, (path,)),
    ensures
        match r {
            Ok(trace) => {
                let steps = path_steps(trace@);
                let start = path_seeds(graph@.adj.len(), starts@);
                &&& is_path_run(graph@.adj, start, steps)
                &&& paths_at(graph@.adj, start, steps).len() == 0
                &&& paths_within_limit(steps, max_depth)
                &&& path_permitted(f, steps)
                &&& path_steps_ok(graph@.adj.len(), steps)
                &&& forall|k: int|
                    0 <= k < steps.len() ==> is_path_from(
                        graph@.adj,
                        starts@,
                        (#[trigger] steps[k]).0,
                    )
            },
            Err(e) => {
                let steps = path_steps(e.trace@);
                let start = path_seeds(graph@.adj.len(), starts@);
                &&& steps.len() > 0
                &&& is_path_run(graph@.adj, start, steps)
                &&& paths_within_limit(steps.drop_last(), max_depth)
                &&& steps.last().1
                &&& steps.last().0.len() >= max_depth
                &&& path_permitted(f, steps)
                &&& path_steps_ok(graph@.adj.len(), steps)
                &&& forall|k: int|
                    0 <= k < steps.len() ==> is_path_from(
                        graph@.adj,
                        starts@,
                        (#[trigger] steps[k]).0,
                    )
            },
        },
        graph@.wf(),
{
    broadcast use vstd::std_specs::vecdeque::axiom_spec_len;
    broadcast use vstd::slice::group_slice_axioms;

    let n = graph.len();
    let ghost adj = graph@.adj;
    let ghost start = path_seeds(n as nat, starts@);
    let mut queue: VecDeque<Vec<usize>> = VecDeque::new();
    let mut i: usize = 0;
    proof {
        lemma_path_seeds_push(n as nat, Seq::empty(), 0);
        assert(starts@.take(0) =~= Seq::empty());
        assert(path_views(queue@) =~= Seq::empty());
    }
    while i < starts.len()
        invariant
            i <= starts.len(),
            path_views(queue@) == path_seeds(n as nat, starts@.take(i as int)),
            paths_ok(n as nat, path_views(queue@)),
        decreases starts.len() - i,
    {
        let s = starts[i];
        proof {
            lemma_path_seeds_push(n as nat, starts@.take(i as int), s);
            assert(starts@.take(i + 1) =~= starts@.take(i as int).push(s));
        }
        if s < n {
            let mut path: Vec<usize> = Vec::new();
            path.push(s);
            let ghost before = queue@;
            queue.push_back(path);
            proof {
                assert(path@ =~= seq![s]);
                assert(path_views(queue@) =~= path_views(before).push(seq![s]));
            }
        }
        i = i + 1;
    }
    proof {
        assert(starts@.take(i as int) =~= starts@);
    }
    let mut trace: Vec<PathStep> = Vec::new();
    proof {
        assert(path_steps(trace@) =~= Seq::empty());
    }
    while queue.len() > 0
        invariant
            adj == graph@.adj,
            graph@.wf(),
            n == adj.len(),
            start == path_seeds(n as nat, starts@),
            forall|path: &[usize]| path_ok(n as nat, path@) ==> call_requires(f, (path,)),
            is_path_run(adj, start, path_steps(trace@)),
            path_views(queue@) == paths_at(adj, start, path_steps(trace@)),
            paths_ok(n as nat, path_views(queue@)),
            path_permitted(f, path_steps(trace@)),
            paths_within_limit(path_steps(trace@), max_depth),
            path_steps_ok(n as nat, path_steps(trace@)),
        decreases paths_size(adj, path_views(queue@), max_depth as nat),
    {
        let ghost pending = path_views(queue@);
        let ghost before = path_steps(trace@);
        let path = queue.pop_front().unwrap();
        assert(path@ == pending[0]);
        assert(path_ok(n as nat, pending[0]));
        assert(path@.len() > 0 && path@.last() < n);
        let slice = path.as_slice();
        let go = f(slice);
        let ghost step = (path@, go);
        let len = path.len();
        let last = path[len - 1];
        trace.push(PathStep { path: path.clone(), expanded: go });
        proof {
            lemma_path_run_step(adj, start, before, step);
            assert(path_views(queue@) =~= pending.drop_first());
            assert(trace@.last().path@ =~= path@);
            assert(path_steps(trace@) =~= before.push(step));
            assert(path_steps(trace@).drop_last() =~= before);
            assert forall|k: int| 0 <= k < path_steps(trace@).len() implies exists|s: &[usize]|
                s@ == (#[trigger] path_steps(trace@)[k]).0 && call_ensures(
                    f,
                    (s,),
                    path_steps(trace@)[k].1,
                ) by {
                if k < before.len() {
                    assert(path_steps(trace@)[k] == before[k]);
                    let s = choose|s: &[usize]|
                        s@ == before[k].0 && call_ensures(f, (s,), before[k].1);
                    assert(s@ == path_steps(trace@)[k].0 && call_ensures(
                        f,
                        (s,),
                        path_steps(trace@)[k].1,
                    ));
                } else {
                    assert(slice@ == path_steps(trace@)[k].0 && call_ensures(
                        f,
                        (slice,),
                        path_steps(trace@)[k].1,
                    ));
                }
            }
        }
        if go {
            if len >= max_depth {
                proof {
                    lemma_path_run_paths(adj, starts@, path_steps(trace@));
                }
                return Err(PathLimitExceeded { trace });
            }
            proof {
                lemma_path_step_decreases(adj, pending, true, max_depth as nat);
                lemma_path_step_ok(adj, pending, true);
            }
            match graph.successors(last) {
                Some(list) => {
                    let mut k: usize = 0;
                    while k < list.len()
                        invariant
                            k <= list.len(),
                            path@.len() > 0,
                            path@.last() < adj.len(),
                            list@ == adj[path@.last() as int],
                            path_views(queue@) == pending.drop_first() + path_children(
                                adj,
                                path@,
                            ).take(k as int),
                        decreases list.len() - k,
                    {
                        let mut next = path.clone();
                        next.push(list[k]);
                        let ghost below = queue@;
                        queue.push_back(next);
                        proof {
                            let kids = path_children(adj, path@);
                            assert(next@ =~= path@.push(list@[k as int]));
                            assert(kids[k as int] == path@.push(list@[k as int]));
                            assert(kids.take(k + 1) =~= kids.take(k as int).push(kids[k as int]));
                            assert(path_views(queue@) =~= path_views(below).push(next@));
                            assert(path_views(queue@) =~= pending.drop_first() + kids.take(k + 1));
                        }
                        k = k + 1;
                    }
                    proof {
                        assert(path_children(adj, path@).take(k as int) =~= path_children(
                            adj,
                            path@,
                        ));
                    }
                },
                None => {
                    proof {
                        assert(path_children(adj, path@) =~= Seq::empty());
                        assert(path_views(queue@) =~= pending.drop_first() + path_children(
                            adj,
                            path@,
                        ));
                    }
                },
            }
        } else {
            proof {
                lemma_path_step_decreases(adj, pending, false, max_depth as nat);
                lemma_path_step_ok(adj, pending, false);
            }
        }
    }
    proof {
        lemma_path_run_paths(adj, starts@, path_steps(trace@));
    }
    Ok(trace)
}

} // verus!
