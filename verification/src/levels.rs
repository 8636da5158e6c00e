use crate::preorder::levels_below;
use crate::traverse::{
    children, follows, is_complete_run, lemma_run_shift, pending_after, pending_at, within_limit,
    Discipline, Step, Visit,
};
use vstd::prelude::*;

verus! {

/// The steps of the visits `vs`, each with the answer of `rule`.
pub open spec fn steps_of(rule: spec_fn(Visit) -> bool, vs: Seq<Visit>) -> Seq<Step> {
    vs.map_values(|v: Visit| Step { visit: v, expanded: rule(v) })
}

/// The level below the visits `vs`: the successors of those that `rule`
/// expands above the limit, in the order of `vs` and then of adjacency.
pub open spec fn next_level(
    adj: Seq<Seq<usize>>,
    rule: spec_fn(Visit) -> bool,
    vs: Seq<Visit>,
    limit: nat,
) -> Seq<Visit>
    decreases vs.len(),
{
    if vs.len() == 0 {
        Seq::empty()
    } else if rule(vs[0]) && vs[0].depth + 1 < limit {
        children(adj, vs[0]) + next_level(adj, rule, vs.drop_first(), limit)
    } else {
        next_level(adj, rule, vs.drop_first(), limit)
    }
}

/// The steps of a breadth-first traversal from the level `vs`, over at most
/// `fuel` levels below it: the steps of the level, then those from the next.
pub open spec fn level_order(
    adj: Seq<Seq<usize>>,
    rule: spec_fn(Visit) -> bool,
    vs: Seq<Visit>,
    limit: nat,
    fuel: nat,
) -> Seq<Step>
    decreases fuel,
{
    if fuel == 0 {
        steps_of(rule, vs)
    } else {
        steps_of(rule, vs) + level_order(
            adj,
            rule,
            next_level(adj, rule, vs, limit),
            limit,
            (fuel - 1) as nat,
        )
    }
}

/// The level below an empty level is empty, and so are all its steps.
proof fn lemma_level_order_empty(
    adj: Seq<Seq<usize>>,
    rule: spec_fn(Visit) -> bool,
    limit: nat,
    fuel: nat,
)
    ensures
        level_order(adj, rule, Seq::empty(), limit, fuel) == Seq::<Step>::empty(),
    decreases fuel,
{
    assert(steps_of(rule, Seq::empty()) =~= Seq::<Step>::empty());
    if fuel > 0 {
        lemma_level_order_empty(adj, rule, limit, (fuel - 1) as nat);
        assert(next_level(adj, rule, Seq::empty(), limit) =~= Seq::<Visit>::empty());
        assert(Seq::<Step>::empty() + Seq::<Step>::empty() =~= Seq::<Step>::empty());
    }
}

/// Visits at a depth that leaves no level below have no next level.
proof fn lemma_no_next_level(
    adj: Seq<Seq<usize>>,
    rule: spec_fn(Visit) -> bool,
    vs: Seq<Visit>,
    limit: nat,
    depth: nat,
)
    requires
        forall|k: int| 0 <= k < vs.len() ==> (#[trigger] vs[k]).depth == depth,
        depth + 1 >= limit,
    ensures
        next_level(adj, rule, vs, limit) == Seq::<Visit>::empty(),
    decreases vs.len(),
{
    if vs.len() > 0 {
        assert forall|k: int| 0 <= k < vs.drop_first().len() implies (
        #[trigger] vs.drop_first()[k]).depth == depth by {
            assert(vs.drop_first()[k] == vs[k + 1]);
        }
        lemma_no_next_level(adj, rule, vs.drop_first(), limit, depth);
        assert(vs[0].depth == depth);
    }
}

/// A complete breadth-first run that follows a rule, from the rest `a` of
/// one level and the part `b` of the next level that is queued behind it,
/// takes the steps of `a` and then those from the whole next level.
proof fn lemma_run_levels(
    adj: Seq<Seq<usize>>,
    rule: spec_fn(Visit) -> bool,
    a: Seq<Visit>,
    b: Seq<Visit>,
    trace: Seq<Step>,
    limit: usize,
    depth: nat,
)
    requires
        forall|k: int| 0 <= k < a.len() ==> (#[trigger] a[k]).depth == depth,
        forall|k: int| 0 <= k < b.len() ==> (#[trigger] b[k]).depth == depth + 1,
        is_complete_run(Discipline::Fifo, adj, a + b, trace),
        follows(rule, trace),
        within_limit(trace, limit),
    ensures
        trace == steps_of(rule, a) + level_order(
            adj,
            rule,
            b + next_level(adj, rule, a, limit as nat),
            limit as nat,
            levels_below(limit as nat, depth),
        ),
    decreases trace.len(),
        (if a.len() == 0 {
            2nat
        } else {
            0nat
        }),
{
    let fuel = levels_below(limit as nat, depth);
    if a.len() == 0 {
        assert(a + b =~= b);
        assert(steps_of(rule, a) =~= Seq::<Step>::empty());
        assert(b + next_level(adj, rule, a, limit as nat) =~= b);
        if b.len() == 0 {
            assert(trace.len() == 0) by {
                if trace.len() > 0 {
                    lemma_run_shift(Discipline::Fifo, adj, b, trace);
                }
            }
            lemma_level_order_empty(adj, rule, limit as nat, fuel);
            assert(trace =~= Seq::<Step>::empty() + Seq::<Step>::empty());
        } else {
            assert(trace.len() > 0) by {
                if trace.len() == 0 {
                    assert(pending_at(Discipline::Fifo, adj, b, trace) == b);
                }
            }
            assert(b + Seq::<Visit>::empty() =~= b);
            // the queued part of the next level is a level of its own
            lemma_run_levels_from(adj, rule, b, trace, limit, depth + 1);
            let below = next_level(adj, rule, b, limit as nat);
            if fuel == 0 {
                lemma_no_next_level(adj, rule, b, limit as nat, depth + 1);
                lemma_level_order_empty(
                    adj,
                    rule,
                    limit as nat,
                    levels_below(limit as nat, depth + 1),
                );
                assert(trace =~= steps_of(rule, b));
            } else {
                assert(levels_below(limit as nat, depth + 1) == fuel - 1);
            }
            assert(trace =~= Seq::<Step>::empty() + level_order(adj, rule, b, limit as nat, fuel));
        }
    } else {
        assert(trace.len() > 0) by {
            if trace.len() == 0 {
                assert(pending_at(Discipline::Fifo, adj, a + b, trace) == a + b);
            }
        }
        let first = trace[0];
        let v = a[0];
        let tail = trace.drop_first();
        lemma_run_shift(Discipline::Fifo, adj, a + b, trace);
        assert((a + b)[0] == v);
        assert(first.expanded == rule(v));
        assert forall|k: int| 0 <= k < tail.len() implies (#[trigger] tail[k]).expanded == rule(
            tail[k].visit,
        ) by {
            assert(tail[k] == trace[k + 1]);
        }
        assert forall|k: int| 0 <= k < tail.len() && (#[trigger] tail[k]).expanded implies tail[k].visit.depth
            + 1 < limit by {
            assert(tail[k] == trace[k + 1]);
        }
        let rest = a.drop_first();
        assert forall|k: int| 0 <= k < rest.len() implies (#[trigger] rest[k]).depth == depth by {
            assert(rest[k] == a[k + 1]);
        }
        assert((a + b).drop_first() =~= rest + b);
        let kids = children(adj, v);
        let queued = if first.expanded {
            b + kids
        } else {
            b
        };
        assert(pending_after(Discipline::Fifo, adj, a + b, first.expanded) =~= rest + queued);
        assert forall|k: int| 0 <= k < queued.len() implies (#[trigger] queued[k]).depth == depth
            + 1 by {
            if k < b.len() {
                assert(queued[k] == b[k]);
            } else {
                assert(first.expanded);
                assert(v.depth + 1 < limit);
                assert(queued[k] == kids[k - b.len()]);
            }
        }
        lemma_run_levels(adj, rule, rest, queued, tail, limit, depth);
        assert(queued + next_level(adj, rule, rest, limit as nat) =~= b + next_level(
            adj,
            rule,
            a,
            limit as nat,
        )) by {
            if first.expanded {
                assert(v.depth + 1 < limit);
            }
        }
        assert(steps_of(rule, a) =~= seq![first] + steps_of(rule, rest));
        assert(trace =~= seq![first] + tail);
        assert(trace =~= steps_of(rule, a) + level_order(
            adj,
            rule,
            b + next_level(adj, rule, a, limit as nat),
            limit as nat,
            fuel,
        ));
    }
}

/// A complete breadth-first run that follows a rule, from a whole level,
/// takes the steps of that level and then those from the next.
proof fn lemma_run_levels_from(
    adj: Seq<Seq<usize>>,
    rule: spec_fn(Visit) -> bool,
    level: Seq<Visit>,
    trace: Seq<Step>,
    limit: usize,
    depth: nat,
)
    requires
        level.len() > 0,
        forall|k: int| 0 <= k < level.len() ==> (#[trigger] level[k]).depth == depth,
        is_complete_run(Discipline::Fifo, adj, level, trace),
        follows(rule, trace),
        within_limit(trace, limit),
    ensures
        trace == steps_of(rule, level) + level_order(
            adj,
            rule,
            next_level(adj, rule, level, limit as nat),
            limit as nat,
            levels_below(limit as nat, depth),
        ),
    decreases trace.len(), 1nat,
{
    let none = Seq::<Visit>::empty();
    assert(level + none =~= level);
    assert(none + next_level(adj, rule, level, limit as nat) =~= next_level(
        adj,
        rule,
        level,
        limit as nat,
    ));
    lemma_run_levels(adj, rule, level, none, trace, limit, depth);
}

/// Breadth first is level by level: a complete breadth-first run that
/// follows a rule visits the start nodes in their order, then the successors
/// of those that were expanded, in the order of their predecessors and of
/// adjacency, and so on, level after level.
pub proof fn lemma_bfs_levels(
    adj: Seq<Seq<usize>>,
    rule: spec_fn(Visit) -> bool,
    start: Seq<Visit>,
    trace: Seq<Step>,
    limit: usize,
)
    requires
        forall|k: int| 0 <= k < start.len() ==> (#[trigger] start[k]).depth == 0,
        is_complete_run(Discipline::Fifo, adj, start, trace),
        follows(rule, trace),
        within_limit(trace, limit),
    ensures
        trace == level_order(adj, rule, start, limit as nat, levels_below(limit as nat, 0) + 1),
{
    let none = Seq::<Visit>::empty();
    assert(start + none =~= start);
    assert(none + next_level(adj, rule, start, limit as nat) =~= next_level(
        adj,
        rule,
        start,
        limit as nat,
    ));
    lemma_run_levels(adj, rule, start, none, trace, limit, 0);
}

/// The steps of a traversal that follows a rule: level by level for
/// breadth first, in preorder for depth first.
pub open spec fn visit_order(
    d: Discipline,
    adj: Seq<Seq<usize>>,
    rule: spec_fn(Visit) -> bool,
    start: Seq<Visit>,
    limit: usize,
) -> Seq<Step> {
    match d {
        Discipline::Fifo => level_order(
            adj,
            rule,
            start,
            limit as nat,
            levels_below(limit as nat, 0) + 1,
        ),
        Discipline::Lifo => crate::preorder::preorder_all(
            adj,
            rule,
            start,
            levels_below(limit as nat, 0),
        ),
    }
}

/// A complete run that follows a rule takes the steps of the traversal in
/// its order, whichever the discipline.
pub proof fn lemma_visit_order(
    d: Discipline,
    adj: Seq<Seq<usize>>,
    rule: spec_fn(Visit) -> bool,
    start: Seq<Visit>,
    trace: Seq<Step>,
    limit: usize,
)
    requires
        forall|k: int| 0 <= k < start.len() ==> (#[trigger] start[k]).depth == 0,
        is_complete_run(d, adj, start, trace),
        follows(rule, trace),
        within_limit(trace, limit),
    ensures
        trace == visit_order(d, adj, rule, start, limit),
{
    match d {
        Discipline::Fifo => lemma_bfs_levels(adj, rule, start, trace, limit),
        Discipline::Lifo => crate::preorder::lemma_dfs_preorder(adj, rule, start, trace, limit),
    }
}

} // verus!
