use crate::graph::Graph;
use crate::levels::{lemma_visit_order, visit_order};
use crate::traverse::{
    child, children, follows, is_complete_run, is_cut_run, is_run, lemma_run_step,
    lemma_seeds_depth, lemma_seeds_push, lemma_step_decreases, lemma_step_visits_ok, pending_at,
    pending_size, permitted, placed, seeds, steps_placed, visits_ok, within_limit,
    DepthLimitExceeded, Discipline, Step, Visit,
};
use vstd::prelude::*;

verus! {

/// Depth-first traversal from the start indices `starts`, in preorder and
/// without a visited set: the first start node, then its successors in
/// adjacency order, each followed by its own, before the next start node.
///
/// Start indices that are not indices of the graph are dropped; the others
/// are seeded at depth 0 without predecessor. Each visit is handed to `f` as
/// `(depth, node, predecessor)`. Where `f` answers `true` the successors of
/// the node are visited next, at the next depth; where it answers `false`
/// they are not, and whatever else is pending is unaffected.
///
/// `max_depth` is the bound that keeps the traversal finite on a cyclic
/// graph: when `f` asks for the successors of a visit at `depth` with
/// `depth + 1 >= max_depth`, the traversal ends with `DepthLimitExceeded`.
///
/// The result is the trace: every visit in the order in which it was handed
/// to `f`, each with the answer of `f`. Where the answers follow a rule, the
/// trace is the preorder under that rule.
pub fn dfs<F: Fn(usize, usize, Option<usize>) -> bool>(
    graph: &Graph,
    starts: &[usize],
    max_depth: usize,
    f: F,
) -> (r: Result<Vec<Step>, DepthLimitExceeded>)
    requires
        forall|depth: usize, node: usize, pred: Option<usize>|
            placed(graph@.adj.len(), Visit { depth, node, pred }) ==> call_requires(
                f,
                (depth, node, pred),
            ),
    ensures
        match r {
            Ok(trace) => is_complete_run(
                Discipline::Lifo,
                graph@.adj,
                seeds(graph@.adj.len(), starts@),
                trace@,
            ) && within_limit(trace@, max_depth) && permitted(f, trace@) && steps_placed(
                graph@.adj.len(),
                trace@,
            ) && forall|rule: spec_fn(Visit) -> bool| #[trigger]
                follows(rule, trace@) ==> trace@ == visit_order(
                    Discipline::Lifo,
                    graph@.adj,
                    rule,
                    seeds(graph@.adj.len(), starts@),
                    max_depth,
                ),
            Err(e) => is_cut_run(
                Discipline::Lifo,
                graph@.adj,
                seeds(graph@.adj.len(), starts@),
                e.trace@,
                max_depth,
            ) && permitted(f, e.trace@) && steps_placed(graph@.adj.len(), e.trace@),
        },
        graph@.wf(),
{
    let n = graph.len();
    let ghost adj = graph@.adj;
    let ghost start = seeds(n as nat, starts@);
    // The stack holds what is pending with the next visit on top, so the
    // start nodes go in from the last to the first.
    let mut stack: Vec<Visit> = Vec::new();
    let mut i: usize = starts.len();
    proof {
        lemma_seeds_suffix(n as nat, starts@, starts@.len() as int);
    }
    while i > 0
        invariant
            i <= starts.len(),
            stack@.reverse() == seeds(n as nat, starts@.skip(i as int)),
        decreases i,
    {
        i = i - 1;
        let s = starts[i];
        proof {
            lemma_seeds_suffix(n as nat, starts@, i as int);
        }
        if s < n {
            let ghost below = stack@;
            stack.push(Visit { depth: 0, node: s, pred: None });
            proof {
                assert(stack@.reverse() =~= seq![stack@.last()] + below.reverse());
            }
        }
    }
    proof {
        assert(starts@.skip(0) =~= starts@);
        lemma_seeds_nodes(n as nat, starts@);
    }
    let mut trace: Vec<Step> = Vec::new();
    while stack.len() > 0
        invariant
            adj == graph@.adj,
            graph@.wf(),
            n == adj.len(),
            start == seeds(n as nat, starts@),
            forall|depth: usize, node: usize, pred: Option<usize>|
                placed(n as nat, Visit { depth, node, pred }) ==> call_requires(
                    f,
                    (depth, node, pred),
                ),
            is_run(Discipline::Lifo, adj, start, trace@),
            stack@.reverse() == pending_at(Discipline::Lifo, adj, start, trace@),
            visits_ok(n as nat, stack@.reverse()),
            permitted(f, trace@),
            within_limit(trace@, max_depth),
            steps_placed(n as nat, trace@),
        decreases pending_size(adj, stack@.reverse(), max_depth as nat),
    {
        let ghost pending = stack@.reverse();
        let ghost before = trace@;
        let v = stack.pop().unwrap();
        let ghost rest = stack@;
        assert(v == pending[0]);
        assert(placed(n as nat, pending[0]));
        let go = f(v.depth, v.node, v.pred);
        let step = Step { visit: v, expanded: go };
        trace.push(step);
        proof {
            lemma_run_step(Discipline::Lifo, adj, start, before, step);
            assert(rest.reverse() =~= pending.drop_first());
            assert(trace@.drop_last() =~= before);
        }
        if go {
            if max_depth == 0 || v.depth >= max_depth - 1 {
                return Err(DepthLimitExceeded { trace });
            }
            proof {
                lemma_step_decreases(Discipline::Lifo, adj, pending, true, max_depth as nat);
                lemma_step_visits_ok(Discipline::Lifo, adj, pending, true);
            }
            match graph.successors(v.node) {
                Some(list) => {
                    let mut k: usize = list.len();
                    proof {
                        assert(children(adj, v).skip(k as int) =~= Seq::empty());
                        assert(stack@.reverse() =~= children(adj, v).skip(k as int)
                            + pending.drop_first());
                    }
                    while k > 0
                        invariant
                            k <= list.len(),
                            v.node < adj.len(),
                            v.depth + 1 < max_depth,
                            list@ == adj[v.node as int],
                            stack@.reverse() == children(adj, v).skip(k as int)
                                + pending.drop_first(),
                        decreases k,
                    {
                        k = k - 1;
                        let ghost below = stack@;
                        stack.push(Visit { depth: v.depth + 1, node: list[k], pred: Some(v.node) });
                        proof {
                            let kids = children(adj, v);
                            assert(kids[k as int] == child(v, list@[k as int]));
                            assert(stack@.reverse() =~= seq![kids[k as int]] + below.reverse());
                            assert(kids.skip(k as int) =~= seq![kids[k as int]] + kids.skip(k + 1));
                            assert(stack@.reverse() =~= kids.skip(k as int) + pending.drop_first());
                        }
                    }
                    proof {
                        assert(children(adj, v).skip(0) =~= children(adj, v));
                    }
                },
                None => {
                    proof {
                        assert(children(adj, v) =~= Seq::empty());
                        assert(stack@.reverse() =~= children(adj, v) + pending.drop_first());
                    }
                },
            }
        } else {
            proof {
                lemma_step_decreases(Discipline::Lifo, adj, pending, false, max_depth as nat);
                lemma_step_visits_ok(Discipline::Lifo, adj, pending, false);
            }
        }
    }
    proof {
        assert(stack@.reverse().len() == stack@.len());
        assert forall|rule: spec_fn(Visit) -> bool| #[trigger]
            follows(rule, trace@) implies trace@ == visit_order(
            Discipline::Lifo,
            adj,
            rule,
            start,
            max_depth,
        ) by {
            lemma_seeds_depth(n as nat, starts@);
            lemma_visit_order(Discipline::Lifo, adj, rule, start, trace@, max_depth);
        }
    }
    Ok(trace)
}

/// Seeding the start indices from position `i` on: the seed of the one at
/// `i`, if it is kept, before the seeds of those behind it.
proof fn lemma_seeds_suffix(n: nat, starts: Seq<usize>, i: int)
    requires
        0 <= i <= starts.len(),
    ensures
        i == starts.len() ==> seeds(n, starts.skip(i)) == Seq::<Visit>::empty(),
        i < starts.len() ==> seeds(n, starts.skip(i)) == if starts[i] < n {
            seq![crate::traverse::seed(starts[i])] + seeds(n, starts.skip(i + 1))
        } else {
            seeds(n, starts.skip(i + 1))
        },
{
    let p = |s: usize| s < n;
    if i == starts.len() {
        lemma_seeds_push(n, Seq::empty(), 0);
        assert(starts.skip(i) =~= Seq::empty());
    } else {
        let head = seq![starts[i]];
        let tail = starts.skip(i + 1);
        assert(starts.skip(i) =~= head + tail);
        Seq::filter_distributes_over_add(head, tail, p);
        lemma_seeds_push(n, Seq::empty(), starts[i]);
        assert(Seq::<usize>::empty().push(starts[i]) =~= head);
        assert(seeds(n, head + tail) =~= seeds(n, head) + seeds(n, tail));
        assert(seeds(n, head) =~= if starts[i] < n {
            seq![crate::traverse::seed(starts[i])]
        } else {
            Seq::empty()
        });
    }
}

/// Every seed is a visit of a node of the graph.
proof fn lemma_seeds_nodes(n: nat, starts: Seq<usize>)
    ensures
        visits_ok(n, seeds(n, starts)),
    decreases starts.len(),
{
    if starts.len() == 0 {
        lemma_seeds_push(n, Seq::empty(), 0);
        assert(starts =~= Seq::empty());
    } else {
        lemma_seeds_nodes(n, starts.drop_last());
        lemma_seeds_push(n, starts.drop_last(), starts.last());
        assert(starts.drop_last().push(starts.last()) =~= starts);
    }
}

} // verus!
