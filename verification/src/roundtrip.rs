use crate::graph::{lemma_build_wf, lemma_index_of_unique, lemma_with_edge_wf, EdgeView, GraphView};
use vstd::prelude::*;

verus! {

/// The test that an edge leaves the value `s`.
pub open spec fn leaves(s: Seq<char>) -> spec_fn(EdgeView) -> bool {
    |e: EdgeView| e.0 == s
}

/// The destinations of the edges of `edges` that leave the value `s`, in
/// stream order.
pub open spec fn targets_of(edges: Seq<EdgeView>, s: Seq<char>) -> Seq<Seq<char>> {
    edges.filter(leaves(s)).map_values(|e: EdgeView| e.1)
}

/// The destinations of index `i` of `g`, as values.
pub open spec fn named_list(g: GraphView, i: int) -> Seq<Seq<char>> {
    g.adj[i].map_values(|t: usize| g.values[t as int])
}

/// One more edge in the stream: the destinations of its source gain its
/// destination, those of every other value stay.
proof fn lemma_targets_push(edges: Seq<EdgeView>, e: EdgeView, s: Seq<char>)
    ensures
        targets_of(edges.push(e), s) == if e.0 == s {
            targets_of(edges, s).push(e.1)
        } else {
            targets_of(edges, s)
        },
        targets_of(Seq::empty(), s) == Seq::<Seq<char>>::empty(),
{
    let p = leaves(s);
    edges.lemma_filter_push(e, p);
    assert(targets_of(edges.push(e), s) =~= if e.0 == s {
        targets_of(edges, s).push(e.1)
    } else {
        targets_of(edges, s)
    });
    reveal(Seq::filter);
    assert(Seq::<EdgeView>::empty().filter(p) =~= Seq::empty());
    assert(targets_of(Seq::empty(), s) =~= Seq::<Seq<char>>::empty());
}

/// What `build` makes of an edge stream, said without the construction: the
/// values are the ends of the edges, and the list of each value holds the
/// destinations of the edges that leave it, in stream order.
pub proof fn lemma_build_lists(edges: Seq<EdgeView>)
    requires
        GraphView::build(edges).values.len() <= usize::MAX,
    ensures
        GraphView::build(edges).wf(),
        forall|k: int|
            0 <= k < edges.len() ==> GraphView::build(edges).values.contains(
                (#[trigger] edges[k]).0,
            ) && GraphView::build(edges).values.contains(edges[k].1),
        forall|i: int|
            0 <= i < GraphView::build(edges).values.len() ==> #[trigger] named_list(
                GraphView::build(edges),
                i,
            ) == targets_of(edges, GraphView::build(edges).values[i]),
        forall|s: Seq<char>|
            !GraphView::build(edges).values.contains(s) ==> #[trigger] targets_of(edges, s)
                == Seq::<Seq<char>>::empty(),
        forall|i: int|
            0 <= i < GraphView::build(edges).values.len() ==> exists|k: int|
                0 <= k < edges.len() && (edges[k].0 == #[trigger] GraphView::build(edges).values[i]
                    || edges[k].1 == GraphView::build(edges).values[i]),
    decreases edges.len(),
{
    lemma_build_wf(edges);
    if edges.len() == 0 {
        assert forall|s: Seq<char>| #[trigger]
            targets_of(edges, s) == Seq::<Seq<char>>::empty() by {
            lemma_targets_push(Seq::empty(), (s, s), s);
            assert(edges =~= Seq::empty());
        }
    } else {
        let front = edges.drop_last();
        let e = edges.last();
        let g = GraphView::build(front);
        let r = GraphView::build(edges);
        lemma_build_lists(front);
        lemma_with_edge_wf(g, e);
        assert(front.push(e) =~= edges);
        let g2 = g.with_value(e.0).with_value(e.1);
        let from = g2.values.index_of(e.0);
        let to = g2.values.index_of(e.1);
        lemma_with_edge_ends(g, e);
        assert(r.values == g2.values);
        assert(r.values[from] == e.0 && r.values[to] == e.1);
        // the values of the graph so far keep their places
        assert forall|i: int| 0 <= i < g.values.len() implies r.values[i] == g.values[i] by {
            assert(r.values.take(g.values.len() as int)[i] == g.values[i]);
        }
        assert forall|k: int| 0 <= k < edges.len() implies r.values.contains(
            (#[trigger] edges[k]).0,
        ) && r.values.contains(edges[k].1) by {
            if k < front.len() {
                assert(edges[k] == front[k]);
                let a = choose|a: int| 0 <= a < g.values.len() && g.values[a] == front[k].0;
                assert(r.values[a] == front[k].0);
                let b = choose|b: int| 0 <= b < g.values.len() && g.values[b] == front[k].1;
                assert(r.values[b] == front[k].1);
            }
        }
        assert forall|s: Seq<char>| !r.values.contains(s) implies #[trigger] targets_of(edges, s)
            == Seq::<Seq<char>>::empty() by {
            lemma_targets_push(front, e, s);
            if g.values.contains(s) {
                let a = choose|a: int| 0 <= a < g.values.len() && g.values[a] == s;
                assert(r.values[a] == s);
            }
        }
        assert forall|i: int| 0 <= i < r.values.len() implies #[trigger] named_list(r, i)
            == targets_of(edges, r.values[i]) by {
            let s = r.values[i];
            lemma_targets_push(front, e, s);
            let old_list: Seq<usize> = if i < g.adj.len() {
                g.adj[i]
            } else {
                Seq::empty()
            };
            assert(g2.adj[i] == old_list);
            // the names of the old list are what the stream so far gives
            assert(old_list.map_values(|t: usize| r.values[t as int]) == targets_of(front, s)) by {
                if i < g.adj.len() {
                    assert(named_list(g, i) == targets_of(front, g.values[i]));
                    assert forall|k: int| 0 <= k < old_list.len() implies r.values[old_list[k] as int]
                        == g.values[old_list[k] as int] by {
                        assert(g.adj[i][k] < g.values.len());
                    }
                    assert(old_list.map_values(|t: usize| r.values[t as int]) =~= named_list(
                        g,
                        i,
                    ));
                } else {
                    assert(!g.values.contains(s)) by {
                        if g.values.contains(s) {
                            let a = choose|a: int| 0 <= a < g.values.len() && g.values[a] == s;
                            assert(r.values[a] == s);
                        }
                    }
                    assert(old_list.map_values(|t: usize| r.values[t as int]) =~= Seq::<
                        Seq<char>,
                    >::empty());
                }
            }
            if i == from {
                assert(r.adj[i] == old_list.push(to as usize));
                assert(named_list(r, i) =~= old_list.map_values(
                    |t: usize| r.values[t as int],
                ).push(e.1));
            } else {
                assert(r.adj[i] == old_list);
                assert(e.0 != s);
                assert(named_list(r, i) =~= old_list.map_values(|t: usize| r.values[t as int]));
            }
        }
        assert forall|i: int| 0 <= i < r.values.len() implies exists|k: int|
            0 <= k < edges.len() && (edges[k].0 == #[trigger] r.values[i] || edges[k].1
                == r.values[i]) by {
            if i < g.values.len() {
                let k = choose|k: int|
                    0 <= k < front.len() && (front[k].0 == g.values[i] || front[k].1
                        == g.values[i]);
                assert(edges[k] == front[k]);
            } else {
                let k = edges.len() - 1;
                assert(edges[k] == e);
                lemma_with_edge_new_values(g, e, i);
            }
        }
    }
}

/// After an edge has been added, both of its ends are values of the graph,
/// each at the index that `index_of` gives.
proof fn lemma_with_edge_ends(g: GraphView, e: EdgeView)
    requires
        g.wf(),
    ensures
        ({
            let g2 = g.with_value(e.0).with_value(e.1);
            let from = g2.values.index_of(e.0);
            let to = g2.values.index_of(e.1);
            &&& g2.wf()
            &&& 0 <= from < g2.values.len()
            &&& 0 <= to < g2.values.len()
            &&& to <= usize::MAX ==> to as usize == to
            &&& g2.values[from] == e.0
            &&& g2.values[to] == e.1
            &&& g2.adj.len() == g2.values.len()
            &&& forall|i: int| 0 <= i < g.adj.len() ==> g2.adj[i] == g.adj[i]
            &&& forall|i: int| g.adj.len() <= i < g2.adj.len() ==> g2.adj[i] == Seq::<usize>::empty()
        }),
{
    let g1 = g.with_value(e.0);
    let g2 = g1.with_value(e.1);
    assert(g1.wf());
    assert(g2.wf());
    assert(g1.values.contains(e.0)) by {
        if !g.values.contains(e.0) {
            assert(g1.values[g.values.len() as int] == e.0);
        }
    }
    assert(g2.values.contains(e.0)) by {
        let i = choose|i: int| 0 <= i < g1.values.len() && g1.values[i] == e.0;
        assert(g2.values[i] == e.0);
    }
    assert(g2.values.contains(e.1)) by {
        if !g1.values.contains(e.1) {
            assert(g2.values[g1.values.len() as int] == e.1);
        }
    }
}

/// A value that an added edge brings in is one of the ends of that edge.
proof fn lemma_with_edge_new_values(g: GraphView, e: EdgeView, i: int)
    requires
        g.wf(),
        g.values.len() <= i < g.with_edge(e).values.len(),
    ensures
        g.with_edge(e).values[i] == e.0 || g.with_edge(e).values[i] == e.1,
{
}

/// A filter keeps a sequence whose elements all pass, and empties one whose
/// elements all fail.
proof fn lemma_filter_all_or_none<A>(s: Seq<A>, p: spec_fn(A) -> bool)
    ensures
        (forall|i: int| 0 <= i < s.len() ==> p(#[trigger] s[i])) ==> s.filter(p) == s,
        (forall|i: int| 0 <= i < s.len() ==> !p(#[trigger] s[i])) ==> s.filter(p) == Seq::<
            A,
        >::empty(),
    decreases s.len(),
{
    reveal(Seq::filter);
    if s.len() > 0 {
        lemma_filter_all_or_none(s.drop_last(), p);
        if forall|i: int| 0 <= i < s.len() ==> p(#[trigger] s[i]) {
            assert forall|i: int| 0 <= i < s.drop_last().len() implies p(
                #[trigger] s.drop_last()[i],
            ) by {
                assert(s.drop_last()[i] == s[i]);
            }
            assert(s.drop_last().push(s.last()) =~= s);
        }
        if forall|i: int| 0 <= i < s.len() ==> !p(#[trigger] s[i]) {
            assert forall|i: int| 0 <= i < s.drop_last().len() implies !p(
                #[trigger] s.drop_last()[i],
            ) by {
                assert(s.drop_last()[i] == s[i]);
            }
        }
    } else {
        assert(s.filter(p) =~= Seq::<A>::empty());
        assert(s =~= Seq::<A>::empty());
    }
}

/// Filtering does not change how often an element that passes occurs.
proof fn lemma_filter_count<A>(s: Seq<A>, p: spec_fn(A) -> bool, x: A)
    requires
        p(x),
    ensures
        s.filter(p).to_multiset().count(x) == s.to_multiset().count(x),
    decreases s.len(),
{
    broadcast use vstd::seq_lib::to_multiset_build;

    reveal(Seq::filter);
    if s.len() == 0 {
        assert(s.filter(p) =~= s);
    } else {
        let front = s.drop_last();
        lemma_filter_count(front, p, x);
        assert(front.push(s.last()) =~= s);
        assert(s.to_multiset() =~= front.to_multiset().insert(s.last()));
        if p(s.last()) {
            assert(s.filter(p) =~= front.filter(p).push(s.last()));
            assert(s.filter(p).to_multiset() =~= front.filter(p).to_multiset().insert(s.last()));
        } else {
            assert(s.filter(p) =~= front.filter(p));
        }
    }
}

/// Two edge sequences that agree, source by source, on the edges that leave
/// it and on their order, hold the same edges with the same multiplicities.
pub proof fn lemma_same_per_source(a: Seq<EdgeView>, b: Seq<EdgeView>)
    requires
        forall|s: Seq<char>| #[trigger] a.filter(leaves(s)) == b.filter(leaves(s)),
    ensures
        a.to_multiset() == b.to_multiset(),
{
    assert forall|x: EdgeView| a.to_multiset().count(x) == b.to_multiset().count(x) by {
        assert(a.filter(leaves(x.0)) == b.filter(leaves(x.0)));
        lemma_filter_count(a, leaves(x.0), x);
        lemma_filter_count(b, leaves(x.0), x);
    }
    assert(a.to_multiset() =~= b.to_multiset());
}

/// The edges of `g`, as values, that leave the indices below `k`.
pub open spec fn named_below(g: GraphView, k: int) -> Seq<EdgeView> {
    g.edges_below(k).map_values(|e: (usize, usize)| g.named(e))
}

/// The edges of `g`, as values, that leave index `i`.
pub open spec fn named_out(g: GraphView, i: int) -> Seq<EdgeView> {
    g.out_edges(i).map_values(|e: (usize, usize)| g.named(e))
}

/// Among the canonical edges that leave the indices below `k`, those that
/// leave the value `s` are the edges of the index of `s`, if it is below `k`.
proof fn lemma_named_below_filter(g: GraphView, k: int, s: Seq<char>)
    requires
        g.wf(),
        g.values.len() <= usize::MAX,
        0 <= k <= g.adj.len(),
    ensures
        named_below(g, k).filter(leaves(s)) == if g.values.contains(s) && g.values.index_of(s)
            < k {
            named_out(g, g.values.index_of(s))
        } else {
            Seq::<EdgeView>::empty()
        },
    decreases k,
{
    if k == 0 {
        assert(named_below(g, k) =~= Seq::<EdgeView>::empty());
        lemma_filter_all_or_none(named_below(g, k), leaves(s));
    } else {
        lemma_named_below_filter(g, k - 1, s);
        let block = named_out(g, k - 1);
        assert(named_below(g, k) =~= named_below(g, k - 1) + block);
        Seq::filter_distributes_over_add(named_below(g, k - 1), block, leaves(s));
        lemma_filter_all_or_none(block, leaves(s));
        assert forall|j: int| 0 <= j < block.len() implies (#[trigger] block[j]).0 == g.values[k
            - 1] by {}
        if g.values[k - 1] == s {
            lemma_index_of_unique(g.values, k - 1);
            assert(named_below(g, k - 1).filter(leaves(s)) =~= Seq::<EdgeView>::empty());
            assert(named_below(g, k).filter(leaves(s)) =~= block);
        } else {
            if g.values.contains(s) {
                let i = g.values.index_of(s);
                assert(g.values[i] == s);
            }
            assert(block.filter(leaves(s)) == Seq::<EdgeView>::empty());
            assert(named_below(g, k).filter(leaves(s)) =~= named_below(g, k - 1).filter(
                leaves(s),
            ));
        }
    }
}

/// Building a graph from an edge stream and listing its edges gives the
/// stream back up to the grouping by source: every edge as often as before,
/// and the edges of each source in their old order.
pub proof fn lemma_build_edges(edges: Seq<EdgeView>)
    requires
        GraphView::build(edges).values.len() <= usize::MAX,
    ensures
        GraphView::build(edges).edges().to_multiset() == edges.to_multiset(),
        forall|s: Seq<char>| #[trigger]
            GraphView::build(edges).edges().filter(leaves(s)) == edges.filter(leaves(s)),
{
    let g = GraphView::build(edges);
    lemma_build_lists(edges);
    assert(g.edges() == named_below(g, g.adj.len() as int));
    assert forall|s: Seq<char>| #[trigger] g.edges().filter(leaves(s)) == edges.filter(
        leaves(s),
    ) by {
        lemma_named_below_filter(g, g.adj.len() as int, s);
        let kept = edges.filter(leaves(s));
        assert forall|j: int| 0 <= j < kept.len() implies (#[trigger] kept[j]).0 == s by {
            edges.lemma_filter_pred(leaves(s), j);
        }
        if g.values.contains(s) {
            let i = g.values.index_of(s);
            assert(g.values[i] == s);
            assert(named_list(g, i) == targets_of(edges, s));
            assert(named_out(g, i).len() == kept.len());
            assert forall|j: int| 0 <= j < kept.len() implies named_out(g, i)[j] == kept[j] by {
                assert(named_list(g, i)[j] == kept[j].1);
                assert(named_out(g, i)[j] == (g.values[i], g.values[g.adj[i][j] as int]));
            }
            assert(named_out(g, i) =~= kept);
        } else {
            assert(targets_of(edges, s) == Seq::<Seq<char>>::empty());
            assert(kept.len() == targets_of(edges, s).len());
            assert(kept =~= Seq::<EdgeView>::empty());
        }
    }
    lemma_same_per_source(g.edges(), edges);
}

/// The canonical edges that leave the indices below `k` are the pairs
/// `(s, t)` with `s` below `k` and `t` in the list of `s`.
proof fn lemma_edges_below_contains(g: GraphView, k: int, s: usize, t: usize)
    requires
        0 <= k <= g.adj.len(),
        g.adj.len() <= usize::MAX,
    ensures
        g.edges_below(k).contains((s, t)) <==> s < k && g.adj[s as int].contains(t),
    decreases k,
{
    if k > 0 {
        lemma_edges_below_contains(g, k - 1, s, t);
        let front = g.edges_below(k - 1);
        let block = g.out_edges(k - 1);
        let all = g.edges_below(k);
        if all.contains((s, t)) {
            let q = choose|q: int| 0 <= q < all.len() && all[q] == (s, t);
            if q < front.len() {
                assert(front[q] == (s, t));
            } else {
                assert(block[q - front.len()] == (s, t));
                assert(g.adj[k - 1][q - front.len()] == t);
            }
        }
        if s < k && g.adj[s as int].contains(t) {
            if s < k - 1 {
                let q = choose|q: int| 0 <= q < front.len() && front[q] == (s, t);
                assert(all[q] == (s, t));
            } else {
                let q = choose|q: int| 0 <= q < g.adj[s as int].len() && g.adj[s as int][q] == t;
                assert(block[q] == (s, t));
                assert(all[front.len() + q] == (s, t));
            }
        }
    }
}

/// The graph that `invert` builds holds only values of the graph it was
/// built from, so it can be reindexed onto that graph's values.
pub proof fn lemma_inverted_covered(g: GraphView)
    requires
        g.wf(),
        g.values.len() <= usize::MAX,
    ensures
        ({
            let inv = g.inverted();
            &&& inv.wf()
            &&& inv.values.len() <= g.values.len()
            &&& forall|i: int| 0 <= i < inv.values.len() ==> g.values.contains(#[trigger] inv.values[i])
            &&& inv.covered_by(g.values)
        }),
{
    let stream = g.reversed_edges();
    let inv = GraphView::build(stream);
    lemma_build_wf(stream);
    lemma_stream_ends(g);
    lemma_build_values(stream, g.values);
    lemma_build_lists(stream);
}

/// Both ends of every canonical edge of `g`, reversed or not, are values of `g`.
proof fn lemma_stream_ends(g: GraphView)
    requires
        g.wf(),
        g.values.len() <= usize::MAX,
    ensures
        forall|k: int|
            0 <= k < g.edges().len() ==> g.values.contains((#[trigger] g.edges()[k]).0)
                && g.values.contains(g.edges()[k].1),
        forall|k: int|
            0 <= k < g.edges().len() ==> g.values.contains((#[trigger] g.reversed_edges()[k]).0)
                && g.values.contains(g.reversed_edges()[k].1),
{
    let pairs = g.index_edges();
    assert forall|k: int| 0 <= k < g.edges().len() implies g.values.contains(
        (#[trigger] g.edges()[k]).0,
    ) && g.values.contains(g.edges()[k].1) by {
        let (s, t) = pairs[k];
        assert(pairs.contains((s, t)));
        lemma_edges_below_contains(g, g.adj.len() as int, s, t);
        let q = choose|q: int| 0 <= q < g.adj[s as int].len() && g.adj[s as int][q] == t;
        assert(g.adj[s as int][q] < g.values.len());
        assert(g.edges()[k] == (g.values[s as int], g.values[t as int]));
    }
    assert forall|k: int| 0 <= k < g.edges().len() implies g.values.contains(
        (#[trigger] g.reversed_edges()[k]).0,
    ) && g.values.contains(g.reversed_edges()[k].1) by {
        assert(g.values.contains(g.edges()[k].0));
    }
}

/// A graph built from edges between values of a duplicate-free sequence holds
/// only values of that sequence, and no more of them than it has.
proof fn lemma_build_values(edges: Seq<EdgeView>, pool: Seq<Seq<char>>)
    requires
        pool.no_duplicates(),
        forall|k: int|
            0 <= k < edges.len() ==> pool.contains((#[trigger] edges[k]).0) && pool.contains(
                edges[k].1,
            ),
    ensures
        forall|i: int|
            0 <= i < GraphView::build(edges).values.len() ==> pool.contains(
                #[trigger] GraphView::build(edges).values[i],
            ),
        GraphView::build(edges).values.len() <= pool.len(),
    decreases edges.len(),
{
    let g = GraphView::build(edges);
    lemma_build_wf(edges);
    if edges.len() > 0 {
        let front = edges.drop_last();
        assert forall|k: int| 0 <= k < front.len() implies pool.contains((#[trigger] front[k]).0)
            && pool.contains(front[k].1) by {
            assert(front[k] == edges[k]);
        }
        lemma_build_values(front, pool);
        let before = GraphView::build(front);
        lemma_build_wf(front);
        lemma_with_edge_wf(before, edges.last());
        assert forall|i: int| 0 <= i < g.values.len() implies pool.contains(
            #[trigger] g.values[i],
        ) by {
            if i < before.values.len() {
                assert(g.values.take(before.values.len() as int)[i] == before.values[i]);
            } else {
                lemma_with_edge_new_values(before, edges.last(), i);
            }
        }
    }
    // distinct values of the pool: no more than the pool has
    broadcast use vstd::seq_lib::seq_to_set_is_finite;

    g.values.unique_seq_to_set();
    pool.unique_seq_to_set();
    assert(g.values.to_set().subset_of(pool.to_set())) by {
        assert forall|v: Seq<char>| g.values.to_set().contains(v) implies pool.to_set().contains(
            v,
        ) by {
            let i = choose|i: int| 0 <= i < g.values.len() && g.values[i] == v;
            assert(pool.contains(g.values[i]));
        }
    }
    vstd::set_lib::lemma_len_subset(g.values.to_set(), pool.to_set());
}

/// Inverting a graph and reindexing the result onto the old values gives, at
/// each index, the sources of the edges that end there.
pub proof fn lemma_reversed_lists(g: GraphView)
    requires
        g.wf(),
        g.values.len() <= usize::MAX,
    ensures
        g.reversed().wf(),
        g.reversed().values == g.values,
        forall|t: int, s: usize|
            0 <= t < g.values.len() ==> (#[trigger] g.reversed().adj[t].contains(s) <==> s
                < g.adj.len() && g.adj[s as int].contains(t as usize)),
{
    let vals = g.values;
    let n = vals.len();
    let stream = g.reversed_edges();
    let inv = g.inverted();
    let h = g.reversed();
    let pairs = g.index_edges();
    lemma_inverted_covered(g);
    lemma_build_lists(stream);
    lemma_stream_ends(g);
    assert forall|t: int, s: usize| 0 <= t < n implies (#[trigger] h.adj[t].contains(s) <==> s
        < g.adj.len() && g.adj[s as int].contains(t as usize)) by {
        let kept = stream.filter(leaves(vals[t]));
        if h.adj[t].contains(s) {
            let j = inv.values.index_of(vals[t]);
            let list = inv.remapped_list(vals, j);
            assert(inv.values[j] == vals[t]);
            let p = choose|p: int| 0 <= p < list.len() && list[p] == s;
            let u = inv.adj[j][p];
            let d = inv.values[u as int];
            assert(u < inv.values.len());
            assert(vals.contains(d));
            assert(vals[vals.index_of(d)] == d);
            assert(named_list(inv, j)[p] == d);
            assert(named_list(GraphView::build(stream), j) == targets_of(stream, inv.values[j]));
            assert(targets_of(stream, vals[t])[p] == d);
            assert(list.len() == inv.adj[j].len());
            assert(named_list(inv, j).len() == inv.adj[j].len());
            assert(targets_of(stream, vals[t]).len() == kept.len());
            assert(kept[p].1 == d);
            stream.lemma_filter_pred(leaves(vals[t]), p);
            assert(kept.contains(kept[p]));
            stream.lemma_filter_contains_rev(leaves(vals[t]), kept[p]);
            let q = choose|q: int| 0 <= q < stream.len() && stream[q] == kept[p];
            let (a, b) = pairs[q];
            assert(pairs.contains((a, b)));
            lemma_edges_below_contains(g, g.adj.len() as int, a, b);
            let w = choose|w: int| 0 <= w < g.adj[a as int].len() && g.adj[a as int][w] == b;
            assert(g.adj[a as int][w] < n);
            assert(g.edges()[q] == (vals[a as int], vals[b as int]));
            assert(stream[q] == (vals[b as int], vals[a as int]));
            assert(a == s);
            assert(b == t);
        }
        if s < g.adj.len() && g.adj[s as int].contains(t as usize) {
            lemma_edges_below_contains(g, g.adj.len() as int, s, t as usize);
            let q = choose|q: int| 0 <= q < pairs.len() && pairs[q] == (s, t as usize);
            assert(g.edges()[q] == (vals[s as int], vals[t]));
            assert(stream[q] == (vals[t], vals[s as int]));
            stream.lemma_filter_contains(leaves(vals[t]), q);
            let p = choose|p: int| 0 <= p < kept.len() && kept[p] == stream[q];
            assert(targets_of(stream, vals[t])[p] == vals[s as int]);
            assert(inv.values.contains(stream[q].0));
            let j = inv.values.index_of(vals[t]);
            assert(inv.values[j] == vals[t]);
            assert(named_list(GraphView::build(stream), j) == targets_of(stream, inv.values[j]));
            assert(named_list(inv, j)[p] == vals[s as int]);
            lemma_index_of_unique(vals, s as int);
            assert(inv.remapped_list(vals, j)[p] == s);
            assert(h.adj[t][p] == s);
        }
    }
    assert forall|i: int, k: int| 0 <= i < h.adj.len() && 0 <= k < h.adj[i].len() implies (
    #[trigger] h.adj[i][k]) < h.values.len() by {
        let s = h.adj[i][k];
        assert(h.adj[i].contains(s));
    }
}

/// Two sequences that hold the same elements with the same multiplicities
/// still do after a function has been applied to every element.
proof fn lemma_map_multiset<A, B>(a: Seq<A>, b: Seq<A>, f: spec_fn(A) -> B)
    requires
        a.to_multiset() == b.to_multiset(),
    ensures
        a.map_values(f).to_multiset() == b.map_values(f).to_multiset(),
    decreases a.len(),
{
    broadcast use vstd::multiset::group_multiset_axioms;

    vstd::seq_lib::to_multiset_len(a);
    vstd::seq_lib::to_multiset_len(b);
    if a.len() == 0 {
        assert(a.map_values(f) =~= b.map_values(f));
    } else {
        let x = a.last();
        let front = a.drop_last();
        assert(front.push(x) =~= a);
        vstd::seq_lib::to_multiset_build(front, x);
        vstd::seq_lib::to_multiset_contains(b, x);
        let i = choose|i: int| 0 <= i < b.len() && b[i] == x;
        let rest = b.remove(i);
        vstd::seq_lib::to_multiset_remove(b, i);
        assert(front.to_multiset() =~= rest.to_multiset());
        lemma_map_multiset(front, rest, f);
        assert(a.map_values(f) =~= front.map_values(f).push(f(x)));
        vstd::seq_lib::to_multiset_build(front.map_values(f), f(x));
        assert(b.map_values(f) =~= rest.map_values(f).insert(i, f(x)));
        vstd::seq_lib::to_multiset_insert(rest.map_values(f), i, f(x));
    }
}

/// Reindexing keeps the edges: what leaves each value stays, in its order.
pub proof fn lemma_remapped_edges(g: GraphView, order: Seq<Seq<char>>)
    requires
        g.wf(),
        g.values.len() <= usize::MAX,
        order.len() <= usize::MAX,
        order.no_duplicates(),
        g.covered_by(order),
    ensures
        g.remapped(order).wf(),
        forall|s: Seq<char>| #[trigger]
            g.remapped(order).edges().filter(leaves(s)) == g.edges().filter(leaves(s)),
        g.remapped(order).edges().to_multiset() == g.edges().to_multiset(),
{
    let r = g.remapped(order);
    assert forall|i: int, k: int| 0 <= i < r.adj.len() && 0 <= k < r.adj[i].len() implies (
    #[trigger] r.adj[i][k]) < r.values.len() by {
        let a = g.values.index_of(order[i]);
        assert(g.values[a] == order[i]);
        let t = g.adj[a][k];
        assert(order.contains(g.values[t as int]));
        assert(order[order.index_of(g.values[t as int])] == g.values[t as int]);
    }
    assert(r.wf());
    assert(g.edges() == named_below(g, g.adj.len() as int));
    assert(r.edges() == named_below(r, r.adj.len() as int));
    assert forall|s: Seq<char>| #[trigger] r.edges().filter(leaves(s)) == g.edges().filter(
        leaves(s),
    ) by {
        lemma_named_below_filter(g, g.adj.len() as int, s);
        lemma_named_below_filter(r, r.adj.len() as int, s);
        if g.values.contains(s) {
            let i = g.values.index_of(s);
            assert(g.values[i] == s);
            if order.contains(s) {
                let j = order.index_of(s);
                assert(order[j] == s);
                assert(named_out(r, j).len() == named_out(g, i).len());
                assert forall|k: int| 0 <= k < named_out(g, i).len() implies named_out(r, j)[k]
                    == named_out(g, i)[k] by {
                    let t = g.adj[i][k];
                    assert(order.contains(g.values[t as int]));
                    assert(order[order.index_of(g.values[t as int])] == g.values[t as int]);
                }
                assert(named_out(r, j) =~= named_out(g, i));
            } else {
                assert(g.adj[i].len() == 0);
                assert(named_out(g, i) =~= Seq::<EdgeView>::empty());
            }
        } else {
            if order.contains(s) {
                let j = order.index_of(s);
                assert(order[j] == s);
                assert(named_out(r, j) =~= Seq::<EdgeView>::empty());
            }
        }
    }
    lemma_same_per_source(r.edges(), g.edges());
}

/// The index pair of an edge between two values of `vals`.
pub open spec fn indices_in(vals: Seq<Seq<char>>) -> spec_fn(EdgeView) -> (usize, usize) {
    |e: EdgeView| (vals.index_of(e.0) as usize, vals.index_of(e.1) as usize)
}

/// The index edges of a graph are its edges, each end replaced by its index.
proof fn lemma_index_edges_of_names(g: GraphView)
    requires
        g.wf(),
        g.values.len() <= usize::MAX,
    ensures
        g.index_edges() == g.edges().map_values(indices_in(g.values)),
{
    let pairs = g.index_edges();
    let back = g.edges().map_values(indices_in(g.values));
    assert(pairs.len() == back.len());
    assert forall|q: int| 0 <= q < pairs.len() implies pairs[q] == back[q] by {
        let (a, b) = pairs[q];
        assert(pairs.contains((a, b)));
        lemma_edges_below_contains(g, g.adj.len() as int, a, b);
        let w = choose|w: int| 0 <= w < g.adj[a as int].len() && g.adj[a as int][w] == b;
        assert(g.adj[a as int][w] < g.values.len());
        lemma_index_of_unique(g.values, a as int);
        lemma_index_of_unique(g.values, b as int);
        assert(g.edges()[q] == (g.values[a as int], g.values[b as int]));
    }
    assert(pairs =~= back);
}

/// Exchanging the ends of every edge twice gives the edges back.
proof fn lemma_swapped_twice(edges: Seq<EdgeView>)
    ensures
        edges.map_values(|e: EdgeView| crate::graph::swapped(e)).map_values(
            |e: EdgeView| crate::graph::swapped(e),
        ) == edges,
{
    assert(edges.map_values(|e: EdgeView| crate::graph::swapped(e)).map_values(
        |e: EdgeView| crate::graph::swapped(e),
    ) =~= edges);
}

/// Inverting a graph twice and reindexing the result onto the values of the
/// graph gives its edges back: the same value table, and every edge, by
/// indices as by values, as often as the graph has it.
pub proof fn lemma_double_inversion(g: GraphView)
    requires
        g.wf(),
        g.values.len() <= usize::MAX,
    ensures
        g.inverted().inverted().covered_by(g.values),
        g.inverted().inverted().remapped(g.values).wf(),
        g.inverted().inverted().remapped(g.values).values == g.values,
        g.inverted().inverted().remapped(g.values).edges().to_multiset() == g.edges().to_multiset(),
        g.inverted().inverted().remapped(g.values).index_edges().to_multiset()
            == g.index_edges().to_multiset(),
{
    let once = g.inverted();
    let twice = once.inverted();
    let back = twice.remapped(g.values);
    lemma_inverted_covered(g);
    lemma_stream_ends(g);
    // the values of the graph inverted twice are values of the graph
    lemma_stream_ends(once);
    assert forall|k: int| 0 <= k < once.reversed_edges().len() implies g.values.contains(
        (#[trigger] once.reversed_edges()[k]).0,
    ) && g.values.contains(once.reversed_edges()[k].1) by {
        let e = once.reversed_edges()[k];
        let a = choose|a: int| 0 <= a < once.values.len() && once.values[a] == e.0;
        assert(g.values.contains(once.values[a]));
        let b = choose|b: int| 0 <= b < once.values.len() && once.values[b] == e.1;
        assert(g.values.contains(once.values[b]));
    }
    lemma_build_values(once.reversed_edges(), g.values);
    lemma_build_wf(once.reversed_edges());
    assert(twice.covered_by(g.values));
    // the edges come back
    lemma_build_edges(g.reversed_edges());
    lemma_build_edges(once.reversed_edges());
    lemma_map_multiset(once.edges(), g.reversed_edges(), |e: EdgeView| crate::graph::swapped(e));
    lemma_swapped_twice(g.edges());
    assert(twice.edges().to_multiset() == g.edges().to_multiset());
    lemma_remapped_edges(twice, g.values);
    lemma_index_edges_of_names(g);
    lemma_index_edges_of_names(back);
    lemma_map_multiset(back.edges(), g.edges(), indices_in(g.values));
}

} // verus!
