use crate::graph::GraphView;
use crate::tsort::{initial, resolve, resolve_all, run, sorted, step, steps_left, Kahn};
use vstd::prelude::*;

verus! {

/// `w` is a walk of `g`: a non-empty sequence of nodes, each joined to the
/// next by an edge.
pub open spec fn is_walk(g: GraphView, w: Seq<usize>) -> bool {
    &&& w.len() >= 1
    &&& forall|i: int| 0 <= i < w.len() ==> (#[trigger] w[i]) < g.adj.len()
    &&& forall|i: int| 0 <= i < w.len() - 1 ==> g.adj[(#[trigger] w[i]) as int].contains(w[i + 1])
}

/// `w` is a cycle of `g`: a walk of at least one edge that ends where it
/// starts.
pub open spec fn is_cycle(g: GraphView, w: Seq<usize>) -> bool {
    is_walk(g, w) && w.len() >= 2 && w.first() == w.last()
}

/// `g` has a cycle.
pub open spec fn has_cycle(g: GraphView) -> bool {
    exists|w: Seq<usize>| is_cycle(g, w)
}

/// `u` stands before `v` in `order`.
pub open spec fn precedes(order: Seq<usize>, u: usize, v: usize) -> bool {
    exists|i: int, j: int| 0 <= i < j < order.len() && order[i] == u && order[j] == v
}

/// `order` respects the edges of `g`: it holds no node twice, and with each
/// node it holds, before it, the source of every edge that ends at it.
pub open spec fn respects(g: GraphView, order: Seq<usize>) -> bool {
    &&& order.no_duplicates()
    &&& forall|u: usize, v: usize|
        u < g.adj.len() && #[trigger] g.adj[u as int].contains(v) && order.contains(v)
            ==> precedes(order, u, v)
}

/// `order` holds the indices of `g`, all of them and nothing else.
pub open spec fn covers(g: GraphView, order: Seq<usize>) -> bool {
    forall|v: usize| #[trigger] order.contains(v) <==> v < g.values.len()
}

/// The residual of `order`: the nodes of `g` that are not in it.
pub open spec fn residual(g: GraphView, order: Seq<usize>) -> Set<usize> {
    Set::new(|i: usize| i < g.values.len() && !order.contains(i))
}

/// The nodes of `g` with outgoing edges that are not in `order`.
pub open spec fn unresolved(g: GraphView, order: Seq<usize>) -> Set<usize> {
    Set::new(|i: usize| i < g.adj.len() && g.adj[i as int].len() > 0 && !order.contains(i))
}

/// What holds of the state of the sort at every moment: the stack and the
/// emitted nodes hold nodes of the graph, none twice; every node is waiting,
/// ready or emitted, and only one of these; a waiting node waits for
/// something; the sources of a ready node are emitted, those of an emitted
/// node before it; and the nodes with edges to resolve are those with
/// outgoing edges that are not emitted.
spec fn sound(g: GraphView, k: Kahn) -> bool {
    &&& forall|i: int| 0 <= i < k.stack.len() ==> (#[trigger] k.stack[i]) < g.adj.len()
    &&& forall|i: int| 0 <= i < k.emitted.len() ==> (#[trigger] k.emitted[i]) < g.adj.len()
    &&& k.stack.no_duplicates()
    &&& k.emitted.no_duplicates()
    &&& k.incoming.dom().finite()
    &&& forall|t: usize| #[trigger]
        k.incoming.contains_key(t) ==> t < g.adj.len() && !k.stack.contains(t)
            && !k.emitted.contains(t) && k.incoming[t] != Set::<usize>::empty()
    &&& forall|t: usize| #[trigger] k.stack.contains(t) ==> !k.emitted.contains(t)
    &&& forall|t: usize|
        t < g.adj.len() ==> #[trigger] k.incoming.contains_key(t) || k.stack.contains(t)
            || k.emitted.contains(t)
    &&& forall|t: usize, s: usize|
        k.stack.contains(t) && #[trigger] g.adj[s as int].contains(t) && s < g.adj.len()
            ==> k.emitted.contains(s)
    &&& forall|j: int, s: usize|
        0 <= j < k.emitted.len() && s < g.adj.len() && #[trigger] g.adj[s as int].contains(
            k.emitted[j],
        ) ==> exists|i: int| 0 <= i < j && k.emitted[i] == s
    &&& forall|i: usize| #[trigger]
        k.outgoing.contains_key(i) <==> i < g.adj.len() && g.adj[i as int].len() > 0
            && !k.emitted.contains(i)
    &&& forall|i: usize| #[trigger] k.outgoing.contains_key(i) ==> k.outgoing[i] == g.adj[i as int]
}

/// What a waiting node waits for while the last emitted node `n` is being
/// resolved: its sources that are not emitted, and `n` itself as long as the
/// node is not among `done`, the destinations that `n` was resolved for.
spec fn waits(g: GraphView, k: Kahn, n: usize, done: Set<usize>) -> bool {
    forall|t: usize, s: usize|
        k.incoming.contains_key(t) ==> (#[trigger] k.incoming[t].contains(s) <==> s < g.adj.len()
            && g.adj[s as int].contains(t) && if s == n {
            !done.contains(t)
        } else {
            !k.emitted.contains(s)
        })
}

/// Between two steps a waiting node waits for its sources that are not
/// emitted.
spec fn settled(g: GraphView, k: Kahn) -> bool {
    forall|t: usize, s: usize|
        k.incoming.contains_key(t) ==> (#[trigger] k.incoming[t].contains(s) <==> s < g.adj.len()
            && g.adj[s as int].contains(t) && !k.emitted.contains(s))
}

/// The roots below `k` are the roots with an index below `k`, ascending.
proof fn lemma_roots_below(g: GraphView, k: int)
    requires
        0 <= k <= g.values.len(),
        g.values.len() <= usize::MAX,
    ensures
        forall|t: usize| #[trigger] g.roots_below(k).contains(t) <==> t < k && g.is_root(t),
        forall|a: int, b: int|
            0 <= a < b < g.roots_below(k).len() ==> (#[trigger] g.roots_below(k)[a])
                < #[trigger] g.roots_below(k)[b],
        g.roots_below(k).no_duplicates(),
    decreases k,
{
    if k > 0 {
        lemma_roots_below(g, k - 1);
        let before = g.roots_below(k - 1);
        let now = g.roots_below(k);
        let top = (k - 1) as usize;
        if g.is_root(top) {
            assert(now == before.push(top));
            assert(now[before.len() as int] == top);
        } else {
            assert(now == before);
        }
        assert forall|t: usize| now.contains(t) implies t < k && g.is_root(t) by {
            let a = choose|a: int| 0 <= a < now.len() && now[a] == t;
            if a < before.len() {
                assert(before[a] == t);
                assert(before.contains(t));
            } else {
                assert(t == top);
            }
        }
        assert forall|t: usize| t < k && g.is_root(t) implies now.contains(t) by {
            if t < k - 1 {
                assert(before.contains(t));
                let a = choose|a: int| 0 <= a < before.len() && before[a] == t;
                assert(now[a] == t);
            } else {
                assert(t == top);
                assert(now[before.len() as int] == t);
            }
        }
        assert forall|a: int, b: int| 0 <= a < b < now.len() implies now[a] < now[b] by {
            if b == before.len() {
                assert(before.contains(before[a]));
            }
        }
        assert forall|a: int, b: int| 0 <= a < now.len() && 0 <= b < now.len() && a
            != b implies now[a] != now[b] by {
            if a < b {
                assert(now[a] < now[b]);
            } else {
                assert(now[b] < now[a]);
            }
        }
    }
}

/// The state before the first step is sound and settled.
proof fn lemma_initial_sound(g: GraphView)
    requires
        g.wf(),
        g.values.len() <= usize::MAX,
    ensures
        sound(g, initial(g)),
        settled(g, initial(g)),
{
    let k = initial(g);
    let n = g.values.len();
    let roots = g.roots();
    lemma_roots_below(g, n as int);
    assert forall|t: usize| #[trigger] k.stack.contains(t) <==> roots.contains(t) by {
        if k.stack.contains(t) {
            let a = choose|a: int| 0 <= a < k.stack.len() && k.stack[a] == t;
            assert(roots[roots.len() - 1 - a] == t);
        }
        if roots.contains(t) {
            let a = choose|a: int| 0 <= a < roots.len() && roots[a] == t;
            assert(k.stack[roots.len() - 1 - a] == t);
        }
    }
    assert forall|i: int| 0 <= i < k.stack.len() implies (#[trigger] k.stack[i]) < g.adj.len() by {
        assert(k.stack.contains(k.stack[i]));
    }
    assert(k.stack.no_duplicates()) by {
        assert forall|a: int, b: int| 0 <= a < k.stack.len() && 0 <= b < k.stack.len() && a
            != b implies k.stack[a] != k.stack[b] by {
            assert(k.stack[a] == roots[roots.len() - 1 - a]);
            assert(k.stack[b] == roots[roots.len() - 1 - b]);
        }
    }
    let upto = Set::new(|t: usize| t < n);
    lemma_below_finite(n);
    assert(k.incoming.dom().subset_of(upto));
    vstd::set_lib::lemma_len_subset(k.incoming.dom(), upto);
    assert forall|t: usize| #[trigger] k.incoming.contains_key(t) implies t < g.adj.len()
        && !k.stack.contains(t) && !k.emitted.contains(t) && k.incoming[t] != Set::<
        usize,
    >::empty() by {
        let (i, w) = choose|i: int, w: int|
            0 <= i < g.adj.len() && i < g.adj.len() && 0 <= w < g.adj[i].len()
                && #[trigger] g.adj[i][w] == t;
        assert(g.adj[i].contains(t));
        assert(g.sources(t).contains(i as usize));
    }
    assert forall|t: usize, s: usize|
        k.stack.contains(t) && #[trigger] g.adj[s as int].contains(t) && s
            < g.adj.len() implies k.emitted.contains(s) by {
        let w = choose|w: int| 0 <= w < g.adj[s as int].len() && g.adj[s as int][w] == t;
        assert(g.adj[s as int][w] == t);
        assert(g.has_incoming(t));
    }
}

/// The indices below `n` are a finite set of `n` elements.
proof fn lemma_below_finite(n: nat)
    requires
        n <= usize::MAX,
    ensures
        Set::new(|t: usize| t < n).finite(),
        Set::new(|t: usize| t < n).len() == n,
    decreases n,
{
    let all = Set::new(|t: usize| t < n);
    if n == 0 {
        assert(all =~= Set::<usize>::empty());
    } else {
        let m = (n - 1) as nat;
        lemma_below_finite(m);
        let rest = Set::new(|t: usize| t < m);
        assert(all =~= rest.insert(m as usize));
    }
}

/// What a sequence holds after a push.
proof fn lemma_push_contains(s: Seq<usize>, x: usize)
    ensures
        forall|y: usize| #[trigger] s.push(x).contains(y) <==> s.contains(y) || y == x,
        s.no_duplicates() && !s.contains(x) ==> s.push(x).no_duplicates(),
{
    let p = s.push(x);
    assert forall|y: usize| #[trigger] p.contains(y) <==> s.contains(y) || y == x by {
        if p.contains(y) {
            let i = choose|i: int| 0 <= i < p.len() && p[i] == y;
            if i < s.len() {
                assert(s[i] == y);
            }
        }
        if s.contains(y) {
            let i = choose|i: int| 0 <= i < s.len() && s[i] == y;
            assert(p[i] == y);
        }
        if y == x {
            assert(p[s.len() as int] == y);
        }
    }
}

/// What a sequence without duplicates holds once its last element is gone.
proof fn lemma_drop_last_contains(s: Seq<usize>)
    requires
        s.len() > 0,
        s.no_duplicates(),
    ensures
        forall|y: usize| #[trigger] s.drop_last().contains(y) <==> s.contains(y) && y != s.last(),
        s.drop_last().no_duplicates(),
{
    let d = s.drop_last();
    assert forall|y: usize| #[trigger] d.contains(y) <==> s.contains(y) && y != s.last() by {
        if d.contains(y) {
            let i = choose|i: int| 0 <= i < d.len() && d[i] == y;
            assert(s[i] == y);
        }
        if s.contains(y) && y != s.last() {
            let i = choose|i: int| 0 <= i < s.len() && s[i] == y;
            assert(d[i] == y);
        }
    }
}

/// Resolving the emitted node `n` for one of its destinations keeps the
/// state sound, and the destination no longer waits for `n`.
proof fn lemma_resolve(g: GraphView, k: Kahn, n: usize, t: usize, done: Set<usize>)
    requires
        g.wf(),
        sound(g, k),
        waits(g, k, n, done),
        k.emitted.len() > 0,
        k.emitted.last() == n,
    ensures
        sound(g, resolve(k, n, t)),
        waits(g, resolve(k, n, t), n, done.insert(t)),
        resolve(k, n, t).emitted == k.emitted,
        resolve(k, n, t).outgoing == k.outgoing,
        steps_left(resolve(k, n, t)) == steps_left(k),
{
    broadcast use vstd::set::group_set_axioms;
    broadcast use vstd::map::group_map_axioms;

    let r = resolve(k, n, t);
    if k.incoming.contains_key(t) {
        let left = k.incoming[t].remove(n);
        assert(k.emitted.contains(n)) by {
            assert(k.emitted[k.emitted.len() - 1] == n);
        }
        if left == Set::<usize>::empty() {
            lemma_push_contains(k.stack, t);
            assert(r.incoming.dom() =~= k.incoming.dom().remove(t));
            assert forall|i: int| 0 <= i < r.stack.len() implies (#[trigger] r.stack[i])
                < g.adj.len() by {
                if i < k.stack.len() {
                    assert(r.stack[i] == k.stack[i]);
                }
            }
            assert forall|x: usize, s: usize|
                r.stack.contains(x) && #[trigger] g.adj[s as int].contains(x) && s
                    < g.adj.len() implies r.emitted.contains(s) by {
                if x == t {
                    if s != n {
                        assert(!left.contains(s));
                        assert(!k.incoming[t].contains(s));
                    }
                }
            }
            assert(sound(g, r));
            assert(waits(g, r, n, done.insert(t)));
        } else {
            assert(r.incoming.dom() =~= k.incoming.dom());
            assert forall|x: usize, s: usize| r.incoming.contains_key(x) implies (
            #[trigger] r.incoming[x].contains(s) <==> s < g.adj.len() && g.adj[s as int].contains(
                x,
            ) && if s == n {
                !done.insert(t).contains(x)
            } else {
                !r.emitted.contains(s)
            }) by {
                if x == t {
                    assert(left.contains(s) <==> k.incoming[t].contains(s) && s != n);
                } else {
                    assert(r.incoming[x] == k.incoming[x]);
                }
            }
            assert(sound(g, r));
        }
    } else {
        assert(waits(g, r, n, done.insert(t)));
    }
}

/// Resolving the emitted node `n` for a sequence of destinations keeps the
/// state sound, and none of them waits for `n` any more.
proof fn lemma_resolve_all(g: GraphView, k: Kahn, n: usize, ts: Seq<usize>, done: Set<usize>)
    requires
        g.wf(),
        sound(g, k),
        waits(g, k, n, done),
        k.emitted.len() > 0,
        k.emitted.last() == n,
    ensures
        sound(g, resolve_all(k, n, ts)),
        waits(g, resolve_all(k, n, ts), n, done.union(ts.to_set())),
        resolve_all(k, n, ts).emitted == k.emitted,
        resolve_all(k, n, ts).outgoing == k.outgoing,
        steps_left(resolve_all(k, n, ts)) == steps_left(k),
    decreases ts.len(),
{
    if ts.len() == 0 {
        assert(done.union(ts.to_set()) =~= done);
    } else {
        let t = ts.last();
        lemma_resolve(g, k, n, t, done);
        lemma_resolve_all(g, resolve(k, n, t), n, ts.drop_last(), done.insert(t));
        assert(done.insert(t).union(ts.drop_last().to_set()) =~= done.union(ts.to_set())) by {
            assert forall|x: usize|
                done.insert(t).union(ts.drop_last().to_set()).contains(x) <==> done.union(
                    ts.to_set(),
                ).contains(x) by {
                if ts.drop_last().contains(x) {
                    let i = choose|i: int| 0 <= i < ts.drop_last().len() && ts.drop_last()[i] == x;
                    assert(ts[i] == x);
                }
                if ts.contains(x) {
                    let i = choose|i: int| 0 <= i < ts.len() && ts[i] == x;
                    if i < ts.len() - 1 {
                        assert(ts.drop_last()[i] == x);
                    }
                }
            }
        }
    }
}

/// A step keeps the state sound and settled, and leaves one step less.
proof fn lemma_step(g: GraphView, k: Kahn)
    requires
        g.wf(),
        sound(g, k),
        settled(g, k),
        k.stack.len() > 0,
    ensures
        sound(g, step(k)),
        settled(g, step(k)),
        steps_left(step(k)) + 1 == steps_left(k),
        step(k).emitted == k.emitted.push(k.stack.last()),
{
    broadcast use vstd::set::group_set_axioms;
    broadcast use vstd::map::group_map_axioms;

    let n = k.stack.last();
    let popped = Kahn {
        stack: k.stack.drop_last(),
        outgoing: k.outgoing.remove(n),
        incoming: k.incoming,
        emitted: k.emitted.push(n),
    };
    lemma_drop_last_contains(k.stack);
    lemma_push_contains(k.emitted, n);
    assert(k.stack.contains(n)) by {
        assert(k.stack[k.stack.len() - 1] == n);
    }
    assert(n < g.adj.len());
    assert forall|i: int| 0 <= i < popped.emitted.len() implies (#[trigger] popped.emitted[i])
        < g.adj.len() by {
        if i < k.emitted.len() {
            assert(popped.emitted[i] == k.emitted[i]);
        }
    }
    assert forall|i: int| 0 <= i < popped.stack.len() implies (#[trigger] popped.stack[i])
        < g.adj.len() by {
        assert(popped.stack[i] == k.stack[i]);
    }
    assert forall|j: int, s: usize|
        0 <= j < popped.emitted.len() && s < g.adj.len() && #[trigger] g.adj[s as int].contains(
            popped.emitted[j],
        ) implies exists|i: int| 0 <= i < j && popped.emitted[i] == s by {
        if j < k.emitted.len() {
            assert(popped.emitted[j] == k.emitted[j]);
            let i = choose|i: int| 0 <= i < j && k.emitted[i] == s;
            assert(popped.emitted[i] == s);
        } else {
            assert(k.emitted.contains(s));
            let i = choose|i: int| 0 <= i < k.emitted.len() && k.emitted[i] == s;
            assert(popped.emitted[i] == s);
        }
    }
    assert(sound(g, popped));
    assert(waits(g, popped, n, Set::<usize>::empty()));
    if k.outgoing.contains_key(n) {
        let ts = k.outgoing[n];
        lemma_resolve_all(g, popped, n, ts, Set::<usize>::empty());
        let r = step(k);
        assert(Set::<usize>::empty().union(ts.to_set()) =~= ts.to_set());
        assert forall|t: usize, s: usize| r.incoming.contains_key(t) implies (
        #[trigger] r.incoming[t].contains(s) <==> s < g.adj.len() && g.adj[s as int].contains(t)
            && !r.emitted.contains(s)) by {
            if s == n {
                assert(r.emitted[r.emitted.len() - 1] == n);
            }
        }
    } else {
        assert(g.adj[n as int].len() == 0);
        let r = step(k);
        assert forall|t: usize, s: usize| r.incoming.contains_key(t) implies (
        #[trigger] r.incoming[t].contains(s) <==> s < g.adj.len() && g.adj[s as int].contains(t)
            && !r.emitted.contains(s)) by {
            if s == n {
                if g.adj[n as int].contains(t) {
                    let w = choose|w: int| 0 <= w < g.adj[n as int].len() && g.adj[n as int][w] == t;
                }
            }
        }
    }
}

/// The sort ends with a sound and settled state in which no node is ready.
proof fn lemma_run(g: GraphView, k: Kahn, fuel: nat)
    requires
        g.wf(),
        sound(g, k),
        settled(g, k),
        fuel == steps_left(k),
    ensures
        sound(g, run(k, fuel)),
        settled(g, run(k, fuel)),
        run(k, fuel).stack.len() == 0,
    decreases fuel,
{
    if k.stack.len() > 0 {
        lemma_step(g, k);
        lemma_run(g, step(k), (fuel - 1) as nat);
    }
}

/// The final state of the sort of a well-formed graph is sound and settled,
/// and nothing is ready in it.
proof fn lemma_sorted_sound(g: GraphView)
    requires
        g.wf(),
        g.values.len() <= usize::MAX,
    ensures
        sound(g, sorted(g)),
        settled(g, sorted(g)),
        sorted(g).stack.len() == 0,
{
    lemma_initial_sound(g);
    lemma_run(g, initial(g), steps_left(initial(g)));
}

/// More than `n` indices below `n` cannot all differ.
proof fn lemma_pigeonhole(s: Seq<usize>, n: nat)
    requires
        n <= usize::MAX,
        s.len() > n,
        forall|i: int| 0 <= i < s.len() ==> (#[trigger] s[i]) < n,
    ensures
        exists|i: int, j: int| 0 <= i < j < s.len() && s[i] == s[j],
{
    broadcast use vstd::seq_lib::seq_to_set_is_finite;

    if s.no_duplicates() {
        s.unique_seq_to_set();
        lemma_below_finite(n);
        let all = Set::new(|t: usize| t < n);
        assert(s.to_set().subset_of(all)) by {
            assert forall|x: usize| s.to_set().contains(x) implies all.contains(x) by {
                let i = choose|i: int| 0 <= i < s.len() && s[i] == x;
                assert(s[i] < n);
            }
        }
        vstd::set_lib::lemma_len_subset(s.to_set(), all);
    } else {
        let (a, b) = choose|a: int, b: int|
            0 <= a < s.len() && 0 <= b < s.len() && a != b && s[a] == s[b];
        if a < b {
            assert(0 <= a < b < s.len() && s[a] == s[b]);
        } else {
            assert(0 <= b < a < s.len() && s[b] == s[a]);
        }
    }
}

/// The node that `t` is `i` steps behind when one goes from a waiting node
/// to one of the sources that it waits for, again and again.
spec fn blocker(k: Kahn, t: usize, i: nat) -> usize
    decreases i,
{
    if i == 0 {
        t
    } else {
        k.incoming[blocker(k, t, (i - 1) as nat)].choose()
    }
}

/// In a settled state without ready nodes, every node that a waiting node is
/// behind is waiting too, and an edge leads from it to the one before.
proof fn lemma_blocker(g: GraphView, k: Kahn, t: usize, i: nat)
    requires
        g.wf(),
        sound(g, k),
        settled(g, k),
        k.stack.len() == 0,
        k.incoming.contains_key(t),
    ensures
        k.incoming.contains_key(blocker(k, t, i)),
        blocker(k, t, i) < g.adj.len(),
        i > 0 ==> g.adj[blocker(k, t, i) as int].contains(blocker(k, t, (i - 1) as nat)),
    decreases i,
{
    if i > 0 {
        lemma_blocker(g, k, t, (i - 1) as nat);
        let below = blocker(k, t, (i - 1) as nat);
        let waiting = k.incoming[below];
        assert(exists|s: usize| waiting.contains(s)) by {
            if forall|s: usize| !waiting.contains(s) {
                assert(waiting =~= Set::<usize>::empty());
            }
        }
        let s = waiting.choose();
        assert(waiting.contains(s));
        assert(s < g.adj.len() && g.adj[s as int].contains(below) && !k.emitted.contains(s));
        assert(!k.stack.contains(s));
    }
}

/// The order of emission, whatever the graph: no node twice, and if a node
/// was emitted, the source of each edge that ends at it was emitted before
/// it. The edges that the sort leaves to resolve are those of the nodes
/// with outgoing edges that were not emitted.
pub proof fn lemma_sorted_order(g: GraphView)
    requires
        g.wf(),
        g.values.len() <= usize::MAX,
    ensures
        respects(g, sorted(g).emitted),
        forall|i: int|
            0 <= i < sorted(g).emitted.len() ==> (#[trigger] sorted(g).emitted[i])
                < g.values.len(),
        sorted(g).outgoing.dom() == unresolved(g, sorted(g).emitted),
{
    lemma_sorted_sound(g);
    let k = sorted(g);
    assert forall|u: usize, v: usize|
        u < g.adj.len() && #[trigger] g.adj[u as int].contains(v) && k.emitted.contains(
            v,
        ) implies precedes(k.emitted, u, v) by {
        let j = choose|j: int| 0 <= j < k.emitted.len() && k.emitted[j] == v;
        assert(g.adj[u as int].contains(k.emitted[j]));
        let i = choose|i: int| 0 <= i < j && k.emitted[i] == u;
        assert(0 <= i < j < k.emitted.len() && k.emitted[i] == u && k.emitted[j] == v);
    }
    assert forall|i: usize|
        k.outgoing.dom().contains(i) <==> unresolved(g, k.emitted).contains(i) by {
        assert(k.outgoing.dom().contains(i) <==> k.outgoing.contains_key(i));
    }
    assert(k.outgoing.dom() =~= unresolved(g, k.emitted));
}

/// On a graph without a cycle the sort emits every node exactly once, the
/// source of every edge before its destination, and leaves no residual node.
pub proof fn lemma_sorted_acyclic(g: GraphView)
    requires
        g.wf(),
        g.values.len() <= usize::MAX,
        !has_cycle(g),
    ensures
        sorted(g).outgoing.dom() == Set::<usize>::empty(),
        residual(g, sorted(g).emitted) == Set::<usize>::empty(),
        respects(g, sorted(g).emitted),
        covers(g, sorted(g).emitted),
        sorted(g).emitted.len() == g.values.len(),
        forall|u: usize, v: usize|
            u < g.adj.len() && #[trigger] g.adj[u as int].contains(v) ==> precedes(
                sorted(g).emitted,
                u,
                v,
            ),
{
    broadcast use vstd::seq_lib::seq_to_set_is_finite;

    lemma_sorted_sound(g);
    lemma_sorted_order(g);
    let k = sorted(g);
    let n = g.values.len();
    assert forall|v: usize| v < n implies k.emitted.contains(v) by {
        if !k.emitted.contains(v) {
            assert(!k.stack.contains(v));
            assert(k.incoming.contains_key(v));
            let c = Seq::new(n + 1, |i: int| blocker(k, v, i as nat));
            assert forall|i: int| 0 <= i < c.len() implies (#[trigger] c[i]) < n by {
                lemma_blocker(g, k, v, i as nat);
            }
            lemma_pigeonhole(c, n);
            let (i, j) = choose|i: int, j: int| 0 <= i < j < c.len() && c[i] == c[j];
            let w = Seq::new((j - i + 1) as nat, |m: int| blocker(k, v, (j - m) as nat));
            assert forall|m: int| 0 <= m < w.len() implies (#[trigger] w[m]) < g.adj.len() by {
                lemma_blocker(g, k, v, (j - m) as nat);
            }
            assert forall|m: int| 0 <= m < w.len() - 1 implies g.adj[(#[trigger] w[m]) as int].contains(
                w[m + 1],
            ) by {
                lemma_blocker(g, k, v, (j - m) as nat);
            }
            assert(w.first() == c[j]);
            assert(w.last() == c[i]);
            assert(is_cycle(g, w));
        }
    }
    assert forall|v: usize| #[trigger] k.emitted.contains(v) implies v < n by {
        let i = choose|i: int| 0 <= i < k.emitted.len() && k.emitted[i] == v;
        assert(k.emitted[i] < n);
    }
    assert(k.outgoing.dom() =~= Set::<usize>::empty());
    assert(residual(g, k.emitted) =~= Set::<usize>::empty());
    // as many as the indices: the emitted nodes are exactly the indices
    k.emitted.unique_seq_to_set();
    lemma_below_finite(n);
    assert(k.emitted.to_set() =~= Set::new(|t: usize| t < n));
    assert forall|u: usize, v: usize|
        u < g.adj.len() && #[trigger] g.adj[u as int].contains(v) implies precedes(
        k.emitted,
        u,
        v,
    ) by {
        let w = choose|w: int| 0 <= w < g.adj[u as int].len() && g.adj[u as int][w] == v;
        assert(g.adj[u as int][w] < n);
    }
}

/// No node of a cycle is among the emitted nodes.
proof fn lemma_cycle_waits(g: GraphView, k: Kahn, w: Seq<usize>, p: int, m: int)
    requires
        g.wf(),
        sound(g, k),
        is_cycle(g, w),
        0 <= p < k.emitted.len(),
        0 <= m < w.len(),
    ensures
        k.emitted[p] != w[m],
    decreases p,
{
    if k.emitted[p] == w[m] {
        let at: int = if m == 0 {
            w.len() - 1
        } else {
            m
        };
        let before = w[at - 1];
        assert(g.adj[before as int].contains(w[at - 1 + 1]));
        assert(g.adj[before as int].contains(k.emitted[p]));
        let q = choose|q: int| 0 <= q < p && k.emitted[q] == before;
        lemma_cycle_waits(g, k, w, q, at - 1);
    }
}

/// What the sort does not emit, it emits nothing behind: along a walk that
/// starts at a node that was not emitted, no node was emitted.
pub proof fn lemma_sorted_behind(g: GraphView, w: Seq<usize>, i: int)
    requires
        g.wf(),
        g.values.len() <= usize::MAX,
        is_walk(g, w),
        !sorted(g).emitted.contains(w[0]),
        0 <= i < w.len(),
    ensures
        residual(g, sorted(g).emitted).contains(w[i]),
    decreases i,
{
    lemma_sorted_order(g);
    if i > 0 {
        lemma_sorted_behind(g, w, i - 1);
        let order = sorted(g).emitted;
        assert(g.adj[w[i - 1] as int].contains(w[i - 1 + 1]));
        if order.contains(w[i]) {
            assert(precedes(order, w[i - 1], w[i]));
            let (a, b) = choose|a: int, b: int|
                0 <= a < b < order.len() && order[a] == w[i - 1] && order[b] == w[i];
            assert(order[a] == w[i - 1]);
        }
    }
}

/// The residual of a sort holds every node of every cycle and every node
/// that can be reached from one: along a walk that starts at a node of a
/// cycle, every node is residual.
pub proof fn lemma_residual_behind_cycle(g: GraphView, c: Seq<usize>, w: Seq<usize>, i: int)
    requires
        g.wf(),
        g.values.len() <= usize::MAX,
        is_cycle(g, c),
        is_walk(g, w),
        c.contains(w[0]),
        0 <= i < w.len(),
    ensures
        residual(g, sorted(g).emitted).contains(w[i]),
{
    lemma_sorted_cyclic(g);
    let m = choose|m: int| 0 <= m < c.len() && c[m] == w[0];
    assert(residual(g, sorted(g).emitted).contains(c[m]));
    lemma_sorted_behind(g, w, i);
}

/// On a graph with a cycle the sort leaves a residual, in which is every
/// node of every cycle, and what it emitted is still in order: no node
/// twice, and the source of each edge that ends at an emitted node before it.
pub proof fn lemma_sorted_cyclic(g: GraphView)
    requires
        g.wf(),
        g.values.len() <= usize::MAX,
        has_cycle(g),
    ensures
        sorted(g).outgoing.dom() != Set::<usize>::empty(),
        residual(g, sorted(g).emitted) != Set::<usize>::empty(),
        forall|w: Seq<usize>, m: int|
            is_cycle(g, w) && 0 <= m < w.len() ==> sorted(g).outgoing.dom().contains(
                #[trigger] w[m],
            ) && residual(g, sorted(g).emitted).contains(w[m]),
        respects(g, sorted(g).emitted),
{
    lemma_sorted_sound(g);
    lemma_sorted_order(g);
    let k = sorted(g);
    assert forall|w: Seq<usize>, m: int|
        is_cycle(g, w) && 0 <= m < w.len() implies k.outgoing.dom().contains(#[trigger] w[m])
        && residual(g, k.emitted).contains(w[m]) by {
        if k.emitted.contains(w[m]) {
            let p = choose|p: int| 0 <= p < k.emitted.len() && k.emitted[p] == w[m];
            lemma_cycle_waits(g, k, w, p, m);
        }
        let at: int = if m == w.len() - 1 {
            0
        } else {
            m
        };
        assert(w[at] == w[m]);
        assert(g.adj[w[at] as int].contains(w[at + 1]));
        let x = choose|x: int|
            0 <= x < g.adj[w[at] as int].len() && g.adj[w[at] as int][x] == w[at + 1];
        assert(g.adj[w[m] as int].len() > 0);
    }
    let w = choose|w: Seq<usize>| is_cycle(g, w);
    assert(k.outgoing.dom().contains(w[0]));
    assert(residual(g, k.emitted).contains(w[0]));
}

} // verus!
