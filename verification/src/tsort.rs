use crate::graph::{Graph, GraphView};
use crate::order::{
    covers, has_cycle, lemma_sorted_acyclic, lemma_sorted_cyclic, lemma_sorted_order, residual,
    respects,
};
use crate::roundtrip::lemma_reversed_lists;
use std::collections::HashSet;
use vstd::prelude::*;

verus! {

/// The state of a topological sort: the nodes that are ready, the next one
/// on top (at the end); for each node with edges still to resolve, its
/// destinations; for each node that still waits, the sources it waits for;
/// and the nodes emitted so far, in order.
pub struct Kahn {
    pub stack: Seq<usize>,
    pub outgoing: Map<usize, Seq<usize>>,
    pub incoming: Map<usize, Set<usize>>,
    pub emitted: Seq<usize>,
}

/// A topological sort that found a cycle: the nodes emitted before it got
/// stuck, in order, and the residual nodes, those that were not emitted:
/// the nodes of the cycles and everything that can be reached only through
/// them.
#[derive(Debug)]
pub struct Cycle {
    pub emitted: Vec<usize>,
    pub residual: HashSet<usize>,
}

/// The state before the first step: the roots are ready, the lowest on top;
/// every node with outgoing edges has them to resolve; every node with
/// incoming edges waits for all their sources.
pub open spec fn initial(g: GraphView) -> Kahn {
    Kahn {
        stack: g.roots().reverse(),
        outgoing: Map::new(
            |i: usize| i < g.adj.len() && g.adj[i as int].len() > 0,
            |i: usize| g.adj[i as int],
        ),
        incoming: Map::new(
            |t: usize| t < g.adj.len() && g.has_incoming(t),
            |t: usize| g.sources(t),
        ),
        emitted: Seq::empty(),
    }
}

/// The state after the emitted node `n` has been taken off the sources that
/// `t` waits for: when `t` waits for nothing more, it becomes ready.
pub open spec fn resolve(k: Kahn, n: usize, t: usize) -> Kahn {
    if k.incoming.contains_key(t) {
        let left = k.incoming[t].remove(n);
        if left == Set::<usize>::empty() {
            Kahn { stack: k.stack.push(t), incoming: k.incoming.remove(t), ..k }
        } else {
            Kahn { incoming: k.incoming.insert(t, left), ..k }
        }
    } else {
        k
    }
}

/// The state after `n` has been resolved for each destination in `ts`, from
/// the last to the first.
pub open spec fn resolve_all(k: Kahn, n: usize, ts: Seq<usize>) -> Kahn
    decreases ts.len(),
{
    if ts.len() == 0 {
        k
    } else {
        resolve_all(resolve(k, n, ts.last()), n, ts.drop_last())
    }
}

/// One step: the node on top of the stack is emitted, its outgoing edges
/// leave the map, and it is resolved for each of their destinations.
pub open spec fn step(k: Kahn) -> Kahn {
    let n = k.stack.last();
    let popped = Kahn {
        stack: k.stack.drop_last(),
        outgoing: k.outgoing.remove(n),
        incoming: k.incoming,
        emitted: k.emitted.push(n),
    };
    if k.outgoing.contains_key(n) {
        resolve_all(popped, n, k.outgoing[n])
    } else {
        popped
    }
}

/// The state after as many steps as the stack allows, at most `fuel`.
pub open spec fn run(k: Kahn, fuel: nat) -> Kahn
    decreases fuel,
{
    if fuel == 0 || k.stack.len() == 0 {
        k
    } else {
        run(step(k), (fuel - 1) as nat)
    }
}

/// The number of steps that a state can still take at most: every step takes
/// a node off the stack, and a node gets there only by leaving the waiting.
pub open spec fn steps_left(k: Kahn) -> nat {
    k.stack.len() + k.incoming.dom().len()
}

/// The final state of the topological sort of `g`.
pub open spec fn sorted(g: GraphView) -> Kahn {
    run(initial(g), steps_left(initial(g)))
}

/// The state that the variables of the sort stand for.
spec fn state_of(
    stack: Seq<usize>,
    deps: Map<usize, Vec<usize>>,
    rdeps: Map<usize, Vec<usize>>,
    emitted: Seq<usize>,
) -> Kahn {
    Kahn {
        stack,
        outgoing: deps.map_values(|v: Vec<usize>| v@),
        incoming: rdeps.map_values(|v: Vec<usize>| v@.to_set()),
        emitted,
    }
}

/// The elements of `list` other than `n`, in order.
fn without(list: &Vec<usize>, n: usize) -> (kept: Vec<usize>)
    ensures
        kept@.to_set() == list@.to_set().remove(n),
{
    let mut kept: Vec<usize> = Vec::new();
    let mut i: usize = 0;
    while i < list.len()
        invariant
            i <= list.len(),
            kept@.to_set() == list@.take(i as int).to_set().remove(n),
        decreases list.len() - i,
    {
        let ghost before = kept@;
        let v = list[i];
        if v != n {
            kept.push(v);
        }
        proof {
            let head = list@.take(i as int);
            let next = list@.take(i + 1);
            assert(next =~= head.push(v));
            assert(next.to_set() =~= head.to_set().insert(v)) by {
                assert forall|x: usize| next.to_set().contains(x) <==> head.to_set().insert(
                    v,
                ).contains(x) by {
                    if next.contains(x) {
                        let j = choose|j: int| 0 <= j < next.len() && next[j] == x;
                        if j < i {
                            assert(head[j] == x);
                        }
                    }
                    if head.contains(x) {
                        let j = choose|j: int| 0 <= j < head.len() && head[j] == x;
                        assert(next[j] == x);
                    }
                    if x == v {
                        assert(next[i as int] == x);
                    }
                }
            }
            if v != n {
                assert(kept@.to_set() =~= before.to_set().insert(v)) by {
                    assert forall|x: usize| kept@.to_set().contains(x) <==> before.to_set().insert(
                        v,
                    ).contains(x) by {
                        if kept@.contains(x) {
                            let j = choose|j: int| 0 <= j < kept@.len() && kept@[j] == x;
                            if j < before.len() {
                                assert(before[j] == x);
                            }
                        }
                        if before.contains(x) {
                            let j = choose|j: int| 0 <= j < before.len() && before[j] == x;
                            assert(kept@[j] == x);
                        }
                        if x == v {
                            assert(kept@[before.len() as int] == x);
                        }
                    }
                }
            }
            assert(kept@.to_set() =~= next.to_set().remove(n));
        }
        i = i + 1;
    }
    proof {
        assert(list@.take(i as int) =~= list@);
    }
    kept
}

/// The variables of the sort, as they are before the first step, stand for
/// the initial state.
proof fn lemma_initial_state(
    g: GraphView,
    stack: Seq<usize>,
    deps: Map<usize, Vec<usize>>,
    rdeps: Map<usize, Vec<usize>>,
)
    requires
        g.wf(),
        g.values.len() <= usize::MAX,
        stack == g.roots().reverse(),
        forall|k: usize| #[trigger]
            deps.contains_key(k) <==> k < g.adj.len() && g.adj[k as int].len() > 0,
        forall|k: usize| #[trigger] deps.contains_key(k) ==> deps[k]@ == g.adj[k as int],
        forall|k: usize| #[trigger]
            rdeps.contains_key(k) <==> k < g.adj.len() && g.reversed().adj[k as int].len() > 0,
        forall|k: usize| #[trigger]
            rdeps.contains_key(k) ==> rdeps[k]@ == g.reversed().adj[k as int],
    ensures
        state_of(stack, deps, rdeps, Seq::empty()) == initial(g),
{
    let k = state_of(stack, deps, rdeps, Seq::empty());
    let h = g.reversed();
    lemma_reversed_lists(g);
    assert(k.outgoing =~= initial(g).outgoing);
    assert forall|t: usize| t < g.adj.len() implies (h.adj[t as int].len() > 0 <==> g.has_incoming(
        t,
    )) by {
        if h.adj[t as int].len() > 0 {
            let s = h.adj[t as int][0];
            assert(h.adj[t as int].contains(s));
            let w = choose|w: int| 0 <= w < g.adj[s as int].len() && g.adj[s as int][w] == t;
            assert(g.adj[s as int][w] == t);
        }
        if g.has_incoming(t) {
            let (i, w) = choose|i: int, w: int|
                0 <= i < g.adj.len() && i < g.adj.len() && 0 <= w < g.adj[i].len()
                    && #[trigger] g.adj[i][w] == t;
            assert(g.adj[i].contains(t));
            assert(h.adj[t as int].contains(i as usize));
        }
    }
    assert forall|t: usize| t < g.adj.len() implies h.adj[t as int].to_set() == g.sources(t) by {
        assert(h.adj[t as int].to_set() =~= g.sources(t));
    }
    assert(k.incoming =~= initial(g).incoming);
}

/// Topological sort: Kahn's algorithm with one stack for the ready nodes.
///
/// The roots are ready at the start, the lowest index on top. The node on
/// top is emitted: it is handed to `f` and joins the result. Then it is taken
/// off the sources that each of its destinations waits for, the last
/// destination first, and a destination that waits for nothing more goes on
/// top of the same stack, so that it is emitted before the nodes that were
/// ready earlier. The sort ends when no node is ready.
///
/// The result is the order of emission. It is `Ok` when the outgoing edges
/// of every node were resolved, which is the case exactly when the graph has
/// no cycle; the order then holds every node once, the source of each edge
/// before its destination. Otherwise it is a `Cycle`, which also holds the
/// residual nodes: every node that was not emitted. What was emitted is in
/// order even then.
pub fn tsort<F: Fn(usize)>(graph: &Graph, f: F) -> (r: Result<Vec<usize>, Cycle>)
    requires
        forall|n: usize| n < graph@.values.len() ==> call_requires(f, (n,)),
    ensures
        r is Ok <==> !has_cycle(graph@),
        match r {
            Ok(order) => {
                &&& order@ == sorted(graph@).emitted
                &&& respects(graph@, order@)
                &&& covers(graph@, order@)
                &&& order@.len() == graph@.values.len()
            },
            Err(c) => {
                &&& c.emitted@ == sorted(graph@).emitted
                &&& respects(graph@, c.emitted@)
                &&& c.residual@ == residual(graph@, c.emitted@)
                &&& c.residual@ != Set::<usize>::empty()
            },
        },
        graph@.wf(),
{
    broadcast use vstd::std_specs::hash::group_hash_axioms;
    broadcast use vstd::set::group_set_axioms;
    broadcast use vstd::map::group_map_axioms;

    let n = graph.len();
    let ghost g = graph@;
    let mut deps = graph.forward_deps();
    let reversed = graph.reversed();
    let mut rdeps = reversed.forward_deps();
    let roots = graph.find_roots();
    proof {
        assert forall|j: int| 0 <= j < roots.len() implies (#[trigger] roots[j]) < n by {
            assert(roots@.contains(roots[j]));
        }
    }
    let mut stack: Vec<usize> = Vec::new();
    let mut i: usize = roots.len();
    proof {
        assert(roots@.skip(i as int).reverse() =~= Seq::<usize>::empty());
    }
    while i > 0
        invariant
            i <= roots.len(),
            stack@ == roots@.skip(i as int).reverse(),
            forall|j: int| 0 <= j < roots.len() ==> (#[trigger] roots[j]) < n,
            forall|j: int| 0 <= j < stack.len() ==> (#[trigger] stack[j]) < n,
        decreases i,
    {
        i = i - 1;
        stack.push(roots[i]);
        proof {
            assert(stack@ =~= roots@.skip(i as int).reverse());
        }
    }
    let mut emitted: Vec<usize> = Vec::new();
    proof {
        assert(roots@.skip(0) =~= roots@);
        lemma_initial_state(g, stack@, deps@, rdeps@);
    }
    while stack.len() > 0
        invariant
            forall|n: usize| n < g.values.len() ==> call_requires(f, (n,)),
            n == g.values.len(),
            g.wf(),
            forall|j: int| 0 <= j < stack.len() ==> (#[trigger] stack[j]) < n,
            forall|k: usize| #[trigger]
                deps@.contains_key(k) ==> k < n && deps@[k]@ == g.adj[k as int],
            sorted(g) == run(
                state_of(stack@, deps@, rdeps@, emitted@),
                steps_left(state_of(stack@, deps@, rdeps@, emitted@)),
            ),
        decreases stack.len() + rdeps@.dom().len(),
    {
        let ghost k0 = state_of(stack@, deps@, rdeps@, emitted@);
        let ghost m0 = stack.len() + rdeps@.dom().len();
        proof {
            assert(k0.incoming.dom() =~= rdeps@.dom());
            assert(steps_left(k0) == m0);
        }
        let node = stack.pop().unwrap();
        f(node);
        emitted.push(node);
        let ghost deps0 = deps@;
        match deps.remove(&node) {
            Some(ts) => {
                let ghost popped = state_of(stack@, deps@, rdeps@, emitted@);
                proof {
                    assert(popped.outgoing =~= k0.outgoing.remove(node));
                    assert(k0.outgoing[node] == ts@);
                    assert(ts@ == g.adj[node as int]);
                    assert forall|x: int| 0 <= x < ts.len() implies (#[trigger] ts[x]) < n by {
                        assert(g.adj[node as int][x] < n);
                    }
                    assert(step(k0) == resolve_all(popped, node, ts@));
                    assert(ts@.take(ts@.len() as int) =~= ts@);
                }
                let mut j: usize = ts.len();
                while j > 0
                    invariant
                        j <= ts.len(),
                        forall|x: int| 0 <= x < ts.len() ==> (#[trigger] ts[x]) < n,
                        forall|x: int| 0 <= x < stack.len() ==> (#[trigger] stack[x]) < n,
                        rdeps@.dom().finite(),
                        stack.len() + rdeps@.dom().len() == m0 - 1,
                        resolve_all(
                            state_of(stack@, deps@, rdeps@, emitted@),
                            node,
                            ts@.take(j as int),
                        ) == step(k0),
                    decreases j,
                {
                    let ghost here = state_of(stack@, deps@, rdeps@, emitted@);
                    let ghost rdeps0 = rdeps@;
                    j = j - 1;
                    let t = ts[j];
                    proof {
                        assert(ts@.take(j + 1).last() == t);
                        assert(ts@.take(j + 1).drop_last() =~= ts@.take(j as int));
                    }
                    match rdeps.remove(&t) {
                        Some(fs) => {
                            let kept = without(&fs, node);
                            proof {
                                assert(here.incoming[t] == fs@.to_set());
                                if kept@.len() > 0 {
                                    assert(kept@.to_set().contains(kept@[0]));
                                } else {
                                    assert(kept@.to_set() =~= Set::<usize>::empty());
                                }
                            }
                            if kept.len() == 0 {
                                stack.push(t);
                                proof {
                                    let now = state_of(stack@, deps@, rdeps@, emitted@);
                                    assert(now.incoming =~= here.incoming.remove(t));
                                    assert(now == resolve(here, node, t));
                                }
                            } else {
                                rdeps.insert(t, kept);
                                proof {
                                    let now = state_of(stack@, deps@, rdeps@, emitted@);
                                    assert(now.incoming =~= here.incoming.insert(
                                        t,
                                        here.incoming[t].remove(node),
                                    ));
                                    assert(now == resolve(here, node, t));
                                    assert(rdeps@.dom() =~= rdeps0.dom());
                                }
                            }
                        },
                        None => {
                            proof {
                                assert(rdeps@ =~= rdeps0);
                                assert(!here.incoming.contains_key(t));
                            }
                        },
                    }
                }
            },
            None => {
                proof {
                    let popped = state_of(stack@, deps@, rdeps@, emitted@);
                    assert(deps@ =~= deps0);
                    assert(popped.outgoing =~= k0.outgoing.remove(node));
                    assert(step(k0) == popped);
                }
            },
        }
        proof {
            let k1 = state_of(stack@, deps@, rdeps@, emitted@);
            assert(k1 == step(k0));
            assert(k1.incoming.dom() =~= rdeps@.dom());
            assert(steps_left(k1) == m0 - 1);
        }
    }
    let ghost last = state_of(stack@, deps@, rdeps@, emitted@);
    proof {
        assert(sorted(g) == last);
        assert(last.outgoing.dom() =~= deps@.dom());
        lemma_sorted_order(g);
        if has_cycle(g) {
            lemma_sorted_cyclic(g);
        } else {
            lemma_sorted_acyclic(g);
        }
    }
    // the residual is what was not emitted
    let mut done: Vec<bool> = Vec::new();
    while done.len() < n
        invariant
            done.len() <= n,
            forall|x: int| 0 <= x < done.len() ==> !done[x],
        decreases n - done.len(),
    {
        done.push(false);
    }
    let mut i: usize = 0;
    proof {
        assert(emitted@.take(0) =~= Seq::<usize>::empty());
    }
    while i < emitted.len()
        invariant
            i <= emitted.len(),
            done.len() == n,
            n == g.values.len(),
            forall|j: int| 0 <= j < emitted.len() ==> (#[trigger] emitted[j]) < n,
            forall|x: usize|
                x < n ==> (#[trigger] done[x as int] <==> emitted@.take(i as int).contains(x)),
        decreases emitted.len() - i,
    {
        let node = emitted[i];
        done.set(node, true);
        proof {
            let before = emitted@.take(i as int);
            let now = emitted@.take(i + 1);
            assert(now =~= before.push(node));
            assert forall|x: usize| x < n implies (#[trigger] done[x as int] <==> now.contains(
                x,
            )) by {
                if now.contains(x) {
                    let j = choose|j: int| 0 <= j < now.len() && now[j] == x;
                    if j < i {
                        assert(before[j] == x);
                    }
                }
                if before.contains(x) {
                    let j = choose|j: int| 0 <= j < before.len() && before[j] == x;
                    assert(now[j] == x);
                }
                if x == node {
                    assert(now[i as int] == x);
                }
            }
        }
        i = i + 1;
    }
    proof {
        assert(emitted@.take(i as int) =~= emitted@);
    }
    let mut left: HashSet<usize> = HashSet::new();
    let mut k: usize = 0;
    while k < n
        invariant
            k <= n,
            done.len() == n,
            forall|x: usize| left@.contains(x) <==> x < k && !done[x as int],
        decreases n - k,
    {
        if !done[k] {
            left.insert(k);
        }
        k = k + 1;
    }
    proof {
        assert(left@ =~= residual(g, emitted@));
    }
    if deps.is_empty() {
        proof {
            assert(deps@.dom() =~= Set::<usize>::empty());
        }
        Ok(emitted)
    } else {
        Err(Cycle { emitted, residual: left })
    }
}

} // verus!
