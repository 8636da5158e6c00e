use crate::traverse::{
    children, follows, is_complete_run, lemma_run_shift, pending_after, within_limit, Discipline,
    Step, Visit,
};
use vstd::prelude::*;

verus! {

/// The steps of a depth-first traversal from the visit `v` that may go
/// `fuel` levels below it: the step of `v`, with the answer of `rule`, and,
/// where `v` is expanded, the steps from each of its successors in turn.
pub open spec fn preorder(
    adj: Seq<Seq<usize>>,
    rule: spec_fn(Visit) -> bool,
    v: Visit,
    fuel: nat,
) -> Seq<Step>
    decreases fuel, 0nat,
{
    let step = Step { visit: v, expanded: rule(v) };
    if rule(v) && fuel > 0 {
        seq![step] + preorder_all(adj, rule, children(adj, v), (fuel - 1) as nat)
    } else {
        seq![step]
    }
}

/// The steps of a depth-first traversal from each of the visits `vs` in
/// turn.
pub open spec fn preorder_all(
    adj: Seq<Seq<usize>>,
    rule: spec_fn(Visit) -> bool,
    vs: Seq<Visit>,
    fuel: nat,
) -> Seq<Step>
    decreases fuel, vs.len() + 1,
{
    if vs.len() == 0 {
        Seq::empty()
    } else {
        preorder(adj, rule, vs[0], fuel) + preorder_all(adj, rule, vs.drop_first(), fuel)
    }
}

/// The levels that a traversal with the limit `limit` may go below a visit
/// at `depth`.
pub open spec fn levels_below(limit: nat, depth: nat) -> nat {
    if depth + 1 < limit {
        (limit - 1 - depth) as nat
    } else {
        0
    }
}

/// The steps of a depth-first traversal from each of the pending visits in
/// turn, each with the levels that the limit leaves below it.
spec fn flat(
    adj: Seq<Seq<usize>>,
    rule: spec_fn(Visit) -> bool,
    pending: Seq<Visit>,
    limit: nat,
) -> Seq<Step>
    decreases pending.len(),
{
    if pending.len() == 0 {
        Seq::empty()
    } else {
        preorder(adj, rule, pending[0], levels_below(limit, pending[0].depth as nat)) + flat(
            adj,
            rule,
            pending.drop_first(),
            limit,
        )
    }
}

/// The steps from two sequences of pending visits, one after the other.
proof fn lemma_flat_add(
    adj: Seq<Seq<usize>>,
    rule: spec_fn(Visit) -> bool,
    a: Seq<Visit>,
    b: Seq<Visit>,
    limit: nat,
)
    ensures
        flat(adj, rule, a + b, limit) == flat(adj, rule, a, limit) + flat(adj, rule, b, limit),
    decreases a.len(),
{
    if a.len() == 0 {
        assert(a + b =~= b);
        assert(flat(adj, rule, a, limit) + flat(adj, rule, b, limit) =~= flat(adj, rule, b, limit));
    } else {
        lemma_flat_add(adj, rule, a.drop_first(), b, limit);
        assert((a + b).drop_first() =~= a.drop_first() + b);
        assert((a + b)[0] == a[0]);
        let head = preorder(adj, rule, a[0], levels_below(limit, a[0].depth as nat));
        assert(head + (flat(adj, rule, a.drop_first(), limit) + flat(adj, rule, b, limit)) =~= (head
            + flat(adj, rule, a.drop_first(), limit)) + flat(adj, rule, b, limit));
    }
}

/// The steps from visits that are all at one depth.
proof fn lemma_flat_level(
    adj: Seq<Seq<usize>>,
    rule: spec_fn(Visit) -> bool,
    vs: Seq<Visit>,
    depth: nat,
    limit: nat,
)
    requires
        forall|k: int| 0 <= k < vs.len() ==> (#[trigger] vs[k]).depth == depth,
    ensures
        flat(adj, rule, vs, limit) == preorder_all(adj, rule, vs, levels_below(limit, depth)),
    decreases vs.len(),
{
    if vs.len() > 0 {
        assert forall|k: int| 0 <= k < vs.drop_first().len() implies (
        #[trigger] vs.drop_first()[k]).depth == depth by {
            assert(vs.drop_first()[k] == vs[k + 1]);
        }
        lemma_flat_level(adj, rule, vs.drop_first(), depth, limit);
        assert(vs[0].depth == depth);
    }
}

/// A complete depth-first run that follows a rule, from any pending visits,
/// takes the steps of the traversal from each of them in turn.
proof fn lemma_run_flat(
    adj: Seq<Seq<usize>>,
    rule: spec_fn(Visit) -> bool,
    pending: Seq<Visit>,
    trace: Seq<Step>,
    limit: usize,
)
    requires
        is_complete_run(Discipline::Lifo, adj, pending, trace),
        follows(rule, trace),
        within_limit(trace, limit),
    ensures
        trace == flat(adj, rule, pending, limit as nat),
    decreases trace.len(),
{
    if trace.len() == 0 {
        assert(pending.len() == 0);
    } else {
        let first = trace[0];
        let v = first.visit;
        let rest = pending.drop_first();
        let next = pending_after(Discipline::Lifo, adj, pending, first.expanded);
        let tail = trace.drop_first();
        lemma_run_shift(Discipline::Lifo, adj, pending, trace);
        assert forall|k: int| 0 <= k < tail.len() implies (#[trigger] tail[k]).expanded == rule(
            tail[k].visit,
        ) by {
            assert(tail[k] == trace[k + 1]);
        }
        assert forall|k: int| 0 <= k < tail.len() && (#[trigger] tail[k]).expanded implies tail[k].visit.depth
            + 1 < limit by {
            assert(tail[k] == trace[k + 1]);
        }
        lemma_run_flat(adj, rule, next, tail, limit);
        assert(trace =~= seq![first] + tail);
        assert(first.expanded == rule(v));
        let fuel = levels_below(limit as nat, v.depth as nat);
        if first.expanded {
            let kids = children(adj, v);
            assert(v.depth + 1 < limit);
            assert(fuel > 0);
            lemma_flat_add(adj, rule, kids, rest, limit as nat);
            assert forall|k: int| 0 <= k < kids.len() implies (#[trigger] kids[k]).depth == v.depth
                + 1 by {}
            lemma_flat_level(adj, rule, kids, (v.depth + 1) as nat, limit as nat);
            assert(levels_below(limit as nat, (v.depth + 1) as nat) == fuel - 1);
            assert(trace =~= preorder(adj, rule, v, fuel) + flat(adj, rule, rest, limit as nat));
        } else {
            assert(preorder(adj, rule, v, fuel) =~= seq![first]);
        }
    }
}

/// A complete run that follows a rule, of either discipline and from any
/// pending visits, takes the steps of the traversal from each of them, each
/// as often as the depth-first traversal takes it.
proof fn lemma_run_records(
    d: Discipline,
    adj: Seq<Seq<usize>>,
    rule: spec_fn(Visit) -> bool,
    pending: Seq<Visit>,
    trace: Seq<Step>,
    limit: usize,
)
    requires
        is_complete_run(d, adj, pending, trace),
        follows(rule, trace),
        within_limit(trace, limit),
    ensures
        trace.to_multiset() == flat(adj, rule, pending, limit as nat).to_multiset(),
    decreases trace.len(),
{
    broadcast use vstd::seq_lib::lemma_multiset_commutative;

    if trace.len() == 0 {
        assert(pending.len() == 0);
        assert(trace =~= flat(adj, rule, pending, limit as nat));
    } else {
        let first = trace[0];
        let v = first.visit;
        let rest = pending.drop_first();
        let next = pending_after(d, adj, pending, first.expanded);
        let tail = trace.drop_first();
        lemma_run_shift(d, adj, pending, trace);
        assert forall|k: int| 0 <= k < tail.len() implies (#[trigger] tail[k]).expanded == rule(
            tail[k].visit,
        ) by {
            assert(tail[k] == trace[k + 1]);
        }
        assert forall|k: int| 0 <= k < tail.len() && (#[trigger] tail[k]).expanded implies tail[k].visit.depth
            + 1 < limit by {
            assert(tail[k] == trace[k + 1]);
        }
        lemma_run_records(d, adj, rule, next, tail, limit);
        assert(trace =~= seq![first] + tail);
        assert(first.expanded == rule(v));
        let fuel = levels_below(limit as nat, v.depth as nat);
        let below = flat(adj, rule, rest, limit as nat);
        if first.expanded {
            let kids = children(adj, v);
            assert(v.depth + 1 < limit);
            lemma_flat_add(adj, rule, kids, rest, limit as nat);
            lemma_flat_add(adj, rule, rest, kids, limit as nat);
            assert forall|k: int| 0 <= k < kids.len() implies (#[trigger] kids[k]).depth == v.depth
                + 1 by {}
            lemma_flat_level(adj, rule, kids, (v.depth + 1) as nat, limit as nat);
            assert(levels_below(limit as nat, (v.depth + 1) as nat) == fuel - 1);
            let under = flat(adj, rule, kids, limit as nat);
            assert(flat(adj, rule, pending, limit as nat) =~= seq![first] + (under + below));
            assert((under + below).to_multiset() =~= (below + under).to_multiset());
            match d {
                Discipline::Fifo => {
                    assert(next == rest + kids);
                },
                Discipline::Lifo => {
                    assert(next == kids + rest);
                },
            }
            assert(tail.to_multiset() =~= (under + below).to_multiset());
            assert(trace.to_multiset() =~= (seq![first] + (under + below)).to_multiset());
        } else {
            assert(preorder(adj, rule, v, fuel) =~= seq![first]);
            assert(flat(adj, rule, pending, limit as nat) =~= seq![first] + below);
            assert(trace.to_multiset() =~= (seq![first] + below).to_multiset());
        }
    }
}

/// Breadth first and depth first hand out the same records: complete runs
/// of the two that follow the same rule from the same start take the same
/// steps, each as often as the other; only the order differs.
pub proof fn lemma_same_records(
    adj: Seq<Seq<usize>>,
    rule: spec_fn(Visit) -> bool,
    start: Seq<Visit>,
    breadth_first: Seq<Step>,
    depth_first: Seq<Step>,
    limit: usize,
)
    requires
        is_complete_run(Discipline::Fifo, adj, start, breadth_first),
        follows(rule, breadth_first),
        within_limit(breadth_first, limit),
        is_complete_run(Discipline::Lifo, adj, start, depth_first),
        follows(rule, depth_first),
        within_limit(depth_first, limit),
    ensures
        breadth_first.to_multiset() == depth_first.to_multiset(),
        breadth_first.len() == depth_first.len(),
{
    lemma_run_records(Discipline::Fifo, adj, rule, start, breadth_first, limit);
    lemma_run_records(Discipline::Lifo, adj, rule, start, depth_first, limit);
    vstd::seq_lib::to_multiset_len(breadth_first);
    vstd::seq_lib::to_multiset_len(depth_first);
}

/// Depth first is preorder: a complete depth-first run that follows a rule
/// visits the first start node, then everything below it, successor by
/// successor in adjacency order and each with everything below it, and then
/// the next start node in the same way.
pub proof fn lemma_dfs_preorder(
    adj: Seq<Seq<usize>>,
    rule: spec_fn(Visit) -> bool,
    start: Seq<Visit>,
    trace: Seq<Step>,
    limit: usize,
)
    requires
        forall|k: int| 0 <= k < start.len() ==> (#[trigger] start[k]).depth == 0,
        is_complete_run(Discipline::Lifo, adj, start, trace),
        follows(rule, trace),
        within_limit(trace, limit),
    ensures
        trace == preorder_all(adj, rule, start, levels_below(limit as nat, 0)),
{
    lemma_run_flat(adj, rule, start, trace, limit);
    lemma_flat_level(adj, rule, start, 0, limit as nat);
}

} // verus!
