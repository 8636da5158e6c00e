use std::collections::HashMap;
use vstd::hash_map::StringHashMap;
use vstd::pervasive::unreached;
use vstd::prelude::*;

verus! {

/// The mathematical form of an edge: the source value, then the destination value.
pub type EdgeView = (Seq<char>, Seq<char>);

/// The mathematical form of an adjacency entry: a source value, then the
/// destination values of its edges in order.
pub type EntryView = (Seq<char>, Seq<Seq<char>>);

/// A directed edge between two values, `Edge(from, to)`.
#[derive(Debug, Clone, PartialEq, Eq)]
pub struct Edge(pub String, pub String);

impl View for Edge {
    type V = EdgeView;

    open spec fn view(&self) -> EdgeView {
        (self.0@, self.1@)
    }
}

impl Edge {
    /// The same edge pointing the other way.
    pub fn invert(&self) -> (r: Edge)
        ensures
            r@ == swapped(self@),
    {
        Edge(self.1.clone(), self.0.clone())
    }
}

/// An edge with its two ends exchanged.
pub open spec fn swapped(e: EdgeView) -> EdgeView {
    (e.1, e.0)
}

/// The views of a sequence of strings.
pub open spec fn names(values: Seq<String>) -> Seq<Seq<char>> {
    values.map_values(|s: String| s@)
}

/// The views of a sequence of adjacency entries.
pub open spec fn entry_views(entries: Seq<(String, Vec<String>)>) -> Seq<EntryView> {
    entries.map_values(|e: (String, Vec<String>)| (e.0@, names(e.1@)))
}

/// The edges of an adjacency entry, in the order of its destinations.
pub open spec fn entry_edges(e: EntryView) -> Seq<EdgeView> {
    e.1.map_values(|d: Seq<char>| (e.0, d))
}

/// The edges of a sequence of adjacency entries, entry by entry.
pub open spec fn flat_edges(entries: Seq<EntryView>) -> Seq<EdgeView>
    decreases entries.len(),
{
    if entries.len() == 0 {
        Seq::empty()
    } else {
        flat_edges(entries.drop_last()) + entry_edges(entries.last())
    }
}

/// The views of a sequence of edges.
pub open spec fn edge_views(edges: Seq<Edge>) -> Seq<EdgeView> {
    edges.map_values(|e: Edge| e@)
}

/// The mathematical model of a graph: the interned values, position by
/// position, and for each position the destinations of its outgoing edges in
/// the order in which they were added.
pub struct GraphView {
    pub values: Seq<Seq<char>>,
    pub adj: Seq<Seq<usize>>,
}

impl GraphView {
    /// No value occurs twice, every index has an adjacency list, and every
    /// destination is the index of a value.
    pub open spec fn wf(self) -> bool {
        &&& self.values.no_duplicates()
        &&& self.adj.len() == self.values.len()
        &&& forall|i: int, k: int|
            0 <= i < self.adj.len() && 0 <= k < self.adj[i].len() ==> (#[trigger] self.adj[i][k])
                < self.values.len()
    }

    /// The graph without values.
    pub open spec fn empty() -> GraphView {
        GraphView { values: Seq::empty(), adj: Seq::empty() }
    }

    /// The graph after `v` has been seen: a new value takes the next index.
    pub open spec fn with_value(self, v: Seq<char>) -> GraphView {
        if self.values.contains(v) {
            self
        } else {
            GraphView { values: self.values.push(v), adj: self.adj.push(Seq::empty()) }
        }
    }

    /// The graph after the edge `e` has been added: both ends are interned,
    /// the source first, and the destination's index is appended to the
    /// source's list.
    pub open spec fn with_edge(self, e: EdgeView) -> GraphView {
        let g = self.with_value(e.0).with_value(e.1);
        let from = g.values.index_of(e.0);
        let to = g.values.index_of(e.1);
        GraphView { values: g.values, adj: g.adj.update(from, g.adj[from].push(to as usize)) }
    }

    /// The graph built from an edge stream, edge by edge.
    pub open spec fn build(edges: Seq<EdgeView>) -> GraphView
        decreases edges.len(),
    {
        if edges.len() == 0 {
            GraphView::empty()
        } else {
            GraphView::build(edges.drop_last()).with_edge(edges.last())
        }
    }

    /// The edges that leave index `i`, as index pairs.
    pub open spec fn out_edges(self, i: int) -> Seq<(usize, usize)> {
        self.adj[i].map_values(|t: usize| (i as usize, t))
    }

    /// The edges that leave the indices below `k`, sources ascending.
    pub open spec fn edges_below(self, k: int) -> Seq<(usize, usize)>
        decreases k,
    {
        if k <= 0 {
            Seq::empty()
        } else {
            self.edges_below(k - 1) + self.out_edges(k - 1)
        }
    }

    /// All edges as index pairs in canonical order: sources ascending, each
    /// source's destinations in insertion order.
    pub open spec fn index_edges(self) -> Seq<(usize, usize)> {
        self.edges_below(self.adj.len() as int)
    }

    /// The values at the two ends of an index pair.
    pub open spec fn named(self, e: (usize, usize)) -> EdgeView {
        (self.values[e.0 as int], self.values[e.1 as int])
    }

    /// All edges as value pairs in canonical order.
    pub open spec fn edges(self) -> Seq<EdgeView> {
        self.index_edges().map_values(|e: (usize, usize)| self.named(e))
    }

    /// The adjacency entry of index `i`: its value and the values of its
    /// destinations.
    pub open spec fn entry(self, i: int) -> EntryView {
        (self.values[i], self.adj[i].map_values(|t: usize| self.values[t as int]))
    }

    /// The adjacency entries of the indices below `k` that have edges,
    /// ascending.
    pub open spec fn adjacency_below(self, k: int) -> Seq<EntryView>
        decreases k,
    {
        if k <= 0 {
            Seq::empty()
        } else if self.adj[k - 1].len() > 0 {
            self.adjacency_below(k - 1).push(self.entry(k - 1))
        } else {
            self.adjacency_below(k - 1)
        }
    }

    /// The graph as adjacency entries: one for each value with outgoing
    /// edges, by ascending index.
    pub open spec fn adjacency(self) -> Seq<EntryView> {
        self.adjacency_below(self.adj.len() as int)
    }

    /// The canonical edges, each with its two ends exchanged.
    pub open spec fn reversed_edges(self) -> Seq<EdgeView> {
        self.edges().map_values(|e: EdgeView| swapped(e))
    }

    /// The graph that the reversed canonical edges build.
    pub open spec fn inverted(self) -> GraphView {
        GraphView::build(self.reversed_edges())
    }

    /// Some edge ends at index `t`.
    pub open spec fn has_incoming(self, t: usize) -> bool {
        self.has_incoming_below(t, self.adj.len() as int)
    }

    /// Some edge from a source below `limit` ends at index `t`.
    pub open spec fn has_incoming_below(self, t: usize, limit: int) -> bool {
        exists|i: int, k: int|
            0 <= i < limit && i < self.adj.len() && 0 <= k < self.adj[i].len()
                && #[trigger] self.adj[i][k] == t
    }

    /// The indices from which an edge leads to `t`.
    pub open spec fn sources(self, t: usize) -> Set<usize> {
        Set::new(|s: usize| s < self.adj.len() && self.adj[s as int].contains(t))
    }

    /// The graph with every edge reversed and every value at its old index:
    /// the inverted graph, reindexed onto the values of this one.
    pub open spec fn reversed(self) -> GraphView {
        self.inverted().remapped(self.values)
    }

    /// Index `i` is a root: a value that no edge ends at.
    pub open spec fn is_root(self, i: usize) -> bool {
        i < self.values.len() && !self.has_incoming(i)
    }

    /// The roots among the indices below `k`, ascending.
    pub open spec fn roots_below(self, k: int) -> Seq<usize>
        decreases k,
    {
        if k <= 0 {
            Seq::empty()
        } else if self.is_root((k - 1) as usize) {
            self.roots_below(k - 1).push((k - 1) as usize)
        } else {
            self.roots_below(k - 1)
        }
    }

    /// The roots, ascending.
    pub open spec fn roots(self) -> Seq<usize> {
        self.roots_below(self.values.len() as int)
    }

    /// Every value at either end of an edge of this graph occurs in `order`.
    pub open spec fn covered_by(self, order: Seq<Seq<char>>) -> bool {
        &&& forall|i: int|
            0 <= i < self.adj.len() && self.adj[i].len() > 0 ==> order.contains(
                #[trigger] self.values[i],
            )
        &&& forall|i: int, k: int|
            0 <= i < self.adj.len() && 0 <= k < self.adj[i].len() ==> order.contains(
                self.values[(#[trigger] self.adj[i][k]) as int],
            )
    }

    /// The destinations of index `i`, each replaced by the position of its
    /// value in `order`.
    pub open spec fn remapped_list(self, order: Seq<Seq<char>>, i: int) -> Seq<usize> {
        self.adj[i].map_values(|t: usize| order.index_of(self.values[t as int]) as usize)
    }

    /// The same edges between the same values, with `order` as the value
    /// table: each value of `order` that this graph holds keeps its list of
    /// destinations, reindexed; every other value of `order` has none.
    pub open spec fn remapped(self, order: Seq<Seq<char>>) -> GraphView {
        GraphView {
            values: order,
            adj: Seq::new(
                order.len(),
                |j: int|
                    if self.values.contains(order[j]) {
                        self.remapped_list(order, self.values.index_of(order[j]))
                    } else {
                        Seq::empty()
                    },
            ),
        }
    }
}

/// Why a graph cannot be reindexed onto a given sequence of values.
#[derive(Debug, Clone, Copy, PartialEq, Eq)]
pub enum RemapError {
    /// The sequence holds some value twice.
    DuplicateValue,
    /// The sequence lacks a value that an edge of the graph touches.
    MissingValue,
}

/// The value table is a bijection: `index` sends each value to its position
/// in `values` and holds nothing else.
spec fn table_wf(values: Seq<String>, index: Map<Seq<char>, usize>) -> bool {
    &&& forall|i: int|
        0 <= i < values.len() ==> index.contains_key(#[trigger] values[i]@) && index[values[i]@]
            == i
    &&& forall|k: Seq<char>| #[trigger]
        index.contains_key(k) ==> index[k] < values.len() && values[index[k] as int]@ == k
}

/// Every key of `deps` is an index with a non-empty list of indices.
spec fn deps_wf(n: nat, deps: Map<usize, Vec<usize>>) -> bool {
    forall|k: usize| #[trigger]
        deps.contains_key(k) ==> k < n && deps[k]@.len() > 0 && forall|j: int|
            0 <= j < deps[k]@.len() ==> (#[trigger] deps[k]@[j]) < n
}

/// The adjacency list that `deps` holds for index `i`; an absent key stands
/// for the empty list.
spec fn adj_of(deps: Map<usize, Vec<usize>>, i: int) -> Seq<usize> {
    if 0 <= i <= usize::MAX && deps.contains_key(i as usize) {
        deps[i as usize]@
    } else {
        Seq::empty()
    }
}

/// The model that the fields of a graph stand for.
spec fn model_of(values: Seq<String>, deps: Map<usize, Vec<usize>>) -> GraphView {
    GraphView { values: names(values), adj: Seq::new(values.len(), |i: int| adj_of(deps, i)) }
}

/// In a well-formed table the names are distinct, and `index` finds each.
proof fn lemma_table(values: Seq<String>, index: Map<Seq<char>, usize>)
    requires
        table_wf(values, index),
    ensures
        names(values).no_duplicates(),
        forall|k: Seq<char>| names(values).contains(k) <==> index.contains_key(k),
        forall|k: Seq<char>| #[trigger]
            index.contains_key(k) ==> names(values).index_of(k) == index[k],
{
    let ns = names(values);
    assert forall|i: int, j: int| 0 <= i < ns.len() && 0 <= j < ns.len() && i != j implies ns[i]
        != ns[j] by {
        if ns[i] == ns[j] {
            assert(index[values[i]@] == i);
            assert(index[values[j]@] == j);
        }
    }
    assert forall|k: Seq<char>| ns.contains(k) <==> index.contains_key(k) by {
        if ns.contains(k) {
            let i = choose|i: int| 0 <= i < ns.len() && ns[i] == k;
            assert(index.contains_key(values[i]@));
        }
        if index.contains_key(k) {
            assert(ns[index[k] as int] == k);
        }
    }
    assert forall|k: Seq<char>| #[trigger] index.contains_key(k) implies ns.index_of(k)
        == index[k] by {
        assert(ns[index[k] as int] == k);
        let i = ns.index_of(k);
        assert(0 <= i < ns.len() && ns[i] == k);
    }
}

/// The position of a value in a sequence without duplicates.
pub(crate) proof fn lemma_index_of_unique(s: Seq<Seq<char>>, i: int)
    requires
        s.no_duplicates(),
        0 <= i < s.len(),
    ensures
        s.index_of(s[i]) == i,
{
    let j = s.index_of(s[i]);
    assert(0 <= j < s.len() && s[j] == s[i]);
}

/// A directed graph over string values: the values in first-seen order, the
/// table that finds a value's index, and for each source index the
/// destinations of its edges in insertion order.
pub struct Graph {
    values: Vec<String>,
    value_to_index: StringHashMap<usize>,
    deps: HashMap<usize, Vec<usize>>,
}

impl View for Graph {
    type V = GraphView;

    closed spec fn view(&self) -> GraphView {
        model_of(self.values@, self.deps@)
    }
}

/// Returns the index of `name`, interning it at the next index when it is new.
fn intern(values: &mut Vec<String>, index: &mut StringHashMap<usize>, name: &String) -> (i: usize)
    requires
        table_wf(old(values)@, old(index)@),
    ensures
        table_wf(final(values)@, final(index)@),
        names(final(values)@) == if names(old(values)@).contains(name@) {
            names(old(values)@)
        } else {
            names(old(values)@).push(name@)
        },
        i < final(values)@.len(),
        i == names(final(values)@).index_of(name@),
        final(values)@.len() >= old(values)@.len(),
        final(values)@.take(old(values)@.len() as int) == old(values)@,
{
    proof {
        lemma_table(values@, index@);
    }
    let found: Option<usize> = match index.get(name.as_str()) {
        Some(i) => Some(*i),
        None => None,
    };
    match found {
        Some(i) => {
            assert(values@.take(values@.len() as int) == values@);
            i
        },
        None => {
            let i: usize = values.len();
            let ghost before = values@;
            index.insert(name.clone(), i);
            values.push(name.clone());
            proof {
                assert(values@ == before.push(values@[i as int]));
                assert(names(values@) == names(before).push(name@));
                assert(values@.take(before.len() as int) == before);
                assert forall|j: int| 0 <= j < values@.len() implies index@.contains_key(
                    #[trigger] values@[j]@,
                ) && index@[values@[j]@] == j by {
                    if j < i {
                        assert(values@[j] == before[j]);
                        assert(names(before)[j] == before[j]@);
                    }
                }
                assert forall|k: Seq<char>| #[trigger] index@.contains_key(k) implies index@[k]
                    < values@.len() && values@[index@[k] as int]@ == k by {
                    if k != name@ {
                        assert(values@[index@[k] as int] == before[index@[k] as int]);
                    }
                }
                lemma_table(values@, index@);
            }
            i
        },
    }
}

/// Appends `to` to the list of `from`, creating the list when `from` has none.
fn push_dep(deps: &mut HashMap<usize, Vec<usize>>, from: usize, to: usize)
    ensures
        final(deps)@.dom() == old(deps)@.dom().insert(from),
        final(deps)@[from]@ == adj_of(old(deps)@, from as int).push(to),
        forall|k: usize| k != from && old(deps)@.contains_key(k) ==> final(deps)@[k] == old(deps)@[k],
{
    broadcast use vstd::std_specs::hash::group_hash_axioms;

    match deps.remove(&from) {
        Some(mut list) => {
            list.push(to);
            deps.insert(from, list);
        },
        None => {
            let mut list: Vec<usize> = Vec::new();
            list.push(to);
            deps.insert(from, list);
        },
    }
    assert(deps@.dom() =~= old(deps)@.dom().insert(from));
}

/// Interning a value in the fields is `with_value` in the model.
proof fn lemma_model_with_value(
    before: Seq<String>,
    after: Seq<String>,
    deps: Map<usize, Vec<usize>>,
    v: Seq<char>,
)
    requires
        deps_wf(before.len(), deps),
        names(after) == if names(before).contains(v) {
            names(before)
        } else {
            names(before).push(v)
        },
    ensures
        model_of(after, deps) == model_of(before, deps).with_value(v),
        deps_wf(after.len(), deps),
{
    assert(names(after).len() == after.len());
    assert(names(before).len() == before.len());
    let m = model_of(before, deps).with_value(v);
    assert(model_of(after, deps).adj =~= m.adj);
}

/// Adding an edge between two interned values in the fields is `with_edge`
/// in the model.
proof fn lemma_model_with_edge(
    v0: Seq<String>,
    v1: Seq<String>,
    v2: Seq<String>,
    d0: Map<usize, Vec<usize>>,
    d1: Map<usize, Vec<usize>>,
    e: EdgeView,
    from: usize,
    to: usize,
)
    requires
        deps_wf(v0.len(), d0),
        names(v1) == if names(v0).contains(e.0) {
            names(v0)
        } else {
            names(v0).push(e.0)
        },
        names(v2) == if names(v1).contains(e.1) {
            names(v1)
        } else {
            names(v1).push(e.1)
        },
        names(v2).no_duplicates(),
        from < v1.len(),
        from == names(v1).index_of(e.0),
        to < v2.len(),
        to == names(v2).index_of(e.1),
        d1.dom() == d0.dom().insert(from),
        d1[from]@ == adj_of(d0, from as int).push(to),
        forall|k: usize| k != from && d0.contains_key(k) ==> d1[k] == d0[k],
    ensures
        model_of(v2, d1) == model_of(v0, d0).with_edge(e),
        deps_wf(v2.len(), d1),
{
    lemma_model_with_value(v0, v1, d0, e.0);
    lemma_model_with_value(v1, v2, d0, e.1);
    let g = model_of(v0, d0).with_value(e.0).with_value(e.1);
    assert(g == model_of(v2, d0));
    assert(names(v1).len() == v1.len());
    assert(names(v2).len() == v2.len());
    assert(names(v0).len() == v0.len());
    assert(names(v1).contains(e.0)) by {
        if !names(v0).contains(e.0) {
            assert(names(v1)[v0.len() as int] == e.0);
        }
    }
    assert(names(v1)[from as int] == e.0);
    assert(names(v2)[from as int] == e.0);
    lemma_index_of_unique(names(v2), from as int);
    assert(g.values.index_of(e.0) == from);
    let m = model_of(v0, d0).with_edge(e);
    assert(model_of(v2, d1).adj =~= m.adj);
    assert forall|k: usize| #[trigger] d1.contains_key(k) implies k < v2.len() && d1[k]@.len() > 0
        && forall|j: int| 0 <= j < d1[k]@.len() ==> (#[trigger] d1[k]@[j]) < v2.len() by {
        if k != from {
            assert(d0.contains_key(k));
        }
    }
}

/// Well-formed fields stand for a well-formed model.
proof fn lemma_model_wf(
    values: Seq<String>,
    index: Map<Seq<char>, usize>,
    deps: Map<usize, Vec<usize>>,
)
    requires
        table_wf(values, index),
        deps_wf(values.len(), deps),
    ensures
        model_of(values, deps).wf(),
        model_of(values, deps).values.len() == values.len(),
{
    lemma_table(values, index);
    assert(names(values).len() == values.len());
}

impl Default for Graph {
    /// The graph without values.
    fn default() -> (g: Graph)
        ensures
            g@ == GraphView::empty(),
    {
        Graph::new()
    }
}

impl Graph {
    #[verifier::type_invariant]
    spec fn inv(self) -> bool {
        &&& table_wf(self.values@, self.value_to_index@)
        &&& deps_wf(self.values@.len(), self.deps@)
    }

    /// The graph without values.
    pub fn new() -> (g: Graph)
        ensures
            g@ == GraphView::empty(),
            g@.wf(),
    {
        let g = Graph { values: Vec::new(), value_to_index: StringHashMap::new(), deps: HashMap::new() };
        assert(g@.values =~= Seq::empty());
        assert(g@.adj =~= Seq::empty());
        g
    }

    /// Builds the graph of an edge stream: each end of each edge is interned
    /// on first sight, the source before the destination, and each edge's
    /// destination is appended to its source's list.
    pub fn from_iter(edges: Vec<Edge>) -> (g: Graph)
        ensures
            g@ == GraphView::build(edge_views(edges@)),
            g@.wf(),
    {
        let mut values: Vec<String> = Vec::new();
        let mut seen: StringHashMap<usize> = StringHashMap::new();
        let mut deps: HashMap<usize, Vec<usize>> = HashMap::new();
        let ghost stream = edge_views(edges@);
        proof {
            assert(model_of(values@, deps@).values =~= GraphView::empty().values);
            assert(model_of(values@, deps@).adj =~= GraphView::empty().adj);
            assert(stream.take(0) =~= Seq::empty());
        }
        let mut i: usize = 0;
        while i < edges.len()
            invariant
                i <= edges.len(),
                stream == edge_views(edges@),
                table_wf(values@, seen@),
                deps_wf(values@.len(), deps@),
                model_of(values@, deps@) == GraphView::build(stream.take(i as int)),
            decreases edges.len() - i,
        {
            let ghost v0 = values@;
            let ghost d0 = deps@;
            let from = intern(&mut values, &mut seen, &edges[i].0);
            let ghost v1 = values@;
            let to = intern(&mut values, &mut seen, &edges[i].1);
            push_dep(&mut deps, from, to);
            proof {
                let e = edges@[i as int]@;
                lemma_table(values@, seen@);
                lemma_model_with_edge(v0, v1, values@, d0, deps@, e, from, to);
                let next = stream.take(i + 1);
                assert(next.drop_last() =~= stream.take(i as int));
                assert(next.last() == e);
            }
            i = i + 1;
        }
        proof {
            assert(stream.take(i as int) =~= stream);
            lemma_table(values@, seen@);
            lemma_build_wf(stream);
        }
        Graph { values, value_to_index: seen, deps }
    }

    /// The number of values.
    pub fn len(&self) -> (n: usize)
        ensures
            n == self@.values.len(),
            self@.wf(),
    {
        proof {
            use_type_invariant(self);
            lemma_model_wf(self.values@, self.value_to_index@, self.deps@);
        }
        self.values.len()
    }

    /// The values, each at its index.
    pub fn values(&self) -> (r: &Vec<String>)
        ensures
            names(r@) == self@.values,
            self@.wf(),
    {
        proof {
            use_type_invariant(self);
            lemma_model_wf(self.values@, self.value_to_index@, self.deps@);
        }
        &self.values
    }

    /// The index of `value`, if the graph holds it.
    pub fn index_of(&self, value: &str) -> (r: Option<usize>)
        ensures
            match r {
                Some(i) => i < self@.values.len() && self@.values[i as int] == value@,
                None => !self@.values.contains(value@),
            },
            self@.wf(),
    {
        proof {
            use_type_invariant(self);
            lemma_model_wf(self.values@, self.value_to_index@, self.deps@);
            lemma_table(self.values@, self.value_to_index@);
        }
        match self.value_to_index.get(value) {
            Some(i) => Some(*i),
            None => None,
        }
    }

    /// The destinations of the edges that leave index `i`, in insertion
    /// order, or `None` where there is no such edge.
    pub fn successors(&self, i: usize) -> (r: Option<&Vec<usize>>)
        ensures
            match r {
                Some(list) => i < self@.adj.len() && list@ == self@.adj[i as int] && list@.len() > 0,
                None => i >= self@.adj.len() || self@.adj[i as int].len() == 0,
            },
            self@.wf(),
    {
        broadcast use vstd::std_specs::hash::group_hash_axioms;

        proof {
            use_type_invariant(self);
            lemma_model_wf(self.values@, self.value_to_index@, self.deps@);
        }
        self.deps.get(&i)
    }

    /// A copy of the adjacency map: each index with outgoing edges, with its
    /// destinations in insertion order.
    pub fn forward_deps(&self) -> (deps: HashMap<usize, Vec<usize>>)
        ensures
            forall|k: usize| #[trigger]
                deps@.contains_key(k) <==> k < self@.adj.len() && self@.adj[k as int].len() > 0,
            forall|k: usize| #[trigger] deps@.contains_key(k) ==> deps@[k]@ == self@.adj[k as int],
            self@.wf(),
    {
        proof {
            use_type_invariant(self);
            lemma_model_wf(self.values@, self.value_to_index@, self.deps@);
        }
        self.deps.clone()
    }

    /// All edges as index pairs, in canonical order: sources ascending, each
    /// source's destinations in insertion order.
    pub fn to_index_edges(&self) -> (edges: Vec<(usize, usize)>)
        ensures
            edges@ == self@.index_edges(),
            forall|k: int|
                0 <= k < edges.len() ==> (#[trigger] edges[k]).0 < self@.values.len() && edges[k].1
                    < self@.values.len(),
            self@.wf(),
    {
        broadcast use vstd::std_specs::hash::group_hash_axioms;

        proof {
            use_type_invariant(self);
            lemma_model_wf(self.values@, self.value_to_index@, self.deps@);
        }
        let ghost g = self@;
        let n = self.values.len();
        let mut edges: Vec<(usize, usize)> = Vec::new();
        let mut from: usize = 0;
        while from < n
            invariant
                from <= n,
                n == g.adj.len(),
                g == self@,
                g.wf(),
                g.adj == Seq::new(n as nat, |i: int| adj_of(self.deps@, i)),
                edges@ == g.edges_below(from as int),
                forall|k: int|
                    0 <= k < edges.len() ==> (#[trigger] edges[k]).0 < n && edges[k].1 < n,
            decreases n - from,
        {
            match self.deps.get(&from) {
                Some(tos) => {
                    let mut k: usize = 0;
                    while k < tos.len()
                        invariant
                            k <= tos.len(),
                            from < n,
                            n == g.adj.len(),
                            g.wf(),
                            tos@ == g.adj[from as int],
                            edges@ == g.edges_below(from as int) + g.out_edges(from as int).take(
                                k as int,
                            ),
                            forall|j: int|
                                0 <= j < edges.len() ==> (#[trigger] edges[j]).0 < n && edges[j].1
                                    < n,
                        decreases tos.len() - k,
                    {
                        edges.push((from, tos[k]));
                        proof {
                            let out = g.out_edges(from as int);
                            assert(out.take(k + 1) =~= out.take(k as int).push(out[k as int]));
                            assert(edges@ =~= g.edges_below(from as int) + out.take(k + 1));
                            assert(g.adj[from as int][k as int] < n);
                        }
                        k = k + 1;
                    }
                    proof {
                        let out = g.out_edges(from as int);
                        assert(out.take(k as int) =~= out);
                    }
                },
                None => {
                    proof {
                        assert(g.out_edges(from as int) =~= Seq::empty());
                        assert(edges@ =~= g.edges_below(from as int) + g.out_edges(from as int));
                    }
                },
            }
            from = from + 1;
        }
        edges
    }

    /// All edges as value pairs, in canonical order: sources ascending by
    /// index, each source's destinations in insertion order.
    pub fn to_edges(&self) -> (edges: Vec<Edge>)
        ensures
            edge_views(edges@) == self@.edges(),
            self@.wf(),
    {
        proof {
            use_type_invariant(self);
            lemma_model_wf(self.values@, self.value_to_index@, self.deps@);
        }
        let pairs = self.to_index_edges();
        let ghost g = self@;
        let mut edges: Vec<Edge> = Vec::new();
        let mut k: usize = 0;
        while k < pairs.len()
            invariant
                k <= pairs.len(),
                g == self@,
                g.values == names(self.values@),
                pairs@ == g.index_edges(),
                forall|j: int|
                    0 <= j < pairs.len() ==> (#[trigger] pairs[j]).0 < self.values@.len()
                        && pairs[j].1 < self.values@.len(),
                edge_views(edges@) == g.edges().take(k as int),
            decreases pairs.len() - k,
        {
            let (from, to) = pairs[k];
            let e = Edge(self.values[from].clone(), self.values[to].clone());
            edges.push(e);
            proof {
                let all = g.edges();
                assert(all[k as int] == g.named(pairs[k as int]));
                assert(all.take(k + 1) =~= all.take(k as int).push(all[k as int]));
                assert(edge_views(edges@) =~= all.take(k + 1));
            }
            k = k + 1;
        }
        proof {
            assert(g.edges().take(k as int) =~= g.edges());
        }
        edges
    }

    /// The graph as adjacency entries: each value with outgoing edges, by
    /// ascending index, with the values of its destinations in insertion
    /// order. No two entries have the same source.
    pub fn to_adjacency(&self) -> (entries: Vec<(String, Vec<String>)>)
        ensures
            entry_views(entries@) == self@.adjacency(),
            forall|a: int, b: int|
                0 <= a < b < entries.len() ==> entry_views(entries@)[a].0 != entry_views(
                    entries@,
                )[b].0,
            self@.wf(),
    {
        broadcast use vstd::std_specs::hash::group_hash_axioms;

        proof {
            use_type_invariant(self);
            lemma_model_wf(self.values@, self.value_to_index@, self.deps@);
        }
        let ghost g = self@;
        let n = self.values.len();
        let mut entries: Vec<(String, Vec<String>)> = Vec::new();
        let mut i: usize = 0;
        proof {
            assert(entry_views(entries@) =~= Seq::<EntryView>::empty());
        }
        while i < n
            invariant
                i <= n,
                n == g.adj.len(),
                n == self.values@.len(),
                g == self@,
                g.wf(),
                g.values == names(self.values@),
                g.adj == Seq::new(n as nat, |i: int| adj_of(self.deps@, i)),
                deps_wf(n as nat, self.deps@),
                entry_views(entries@) == g.adjacency_below(i as int),
            decreases n - i,
        {
            match self.deps.get(&i) {
                Some(tos) => {
                    let mut list: Vec<String> = Vec::new();
                    let mut k: usize = 0;
                    let ghost full = g.entry(i as int).1;
                    proof {
                        assert(names(list@) =~= full.take(0));
                    }
                    while k < tos.len()
                        invariant
                            k <= tos.len(),
                            i < n,
                            n == g.adj.len(),
                            n == self.values@.len(),
                            g.wf(),
                            g.values == names(self.values@),
                            tos@ == g.adj[i as int],
                            full == g.entry(i as int).1,
                            names(list@) == full.take(k as int),
                        decreases tos.len() - k,
                    {
                        let t = tos[k];
                        assert(g.adj[i as int][k as int] < n);
                        list.push(self.values[t].clone());
                        proof {
                            assert(full.take(k + 1) =~= full.take(k as int).push(full[k as int]));
                            assert(names(list@) =~= full.take(k + 1));
                        }
                        k = k + 1;
                    }
                    let ghost before = entry_views(entries@);
                    entries.push((self.values[i].clone(), list));
                    proof {
                        assert(full.take(k as int) =~= full);
                        assert(entry_views(entries@) =~= before.push(g.entry(i as int)));
                    }
                },
                None => {},
            }
            i = i + 1;
        }
        proof {
            lemma_adjacency_sources(g, n as int);
        }
        entries
    }

    /// Builds the graph of a sequence of adjacency entries: the edges of the
    /// first entry in the order of its destinations, then those of the next.
    pub fn from_adjacency(entries: &Vec<(String, Vec<String>)>) -> (g: Graph)
        ensures
            g@ == GraphView::build(flat_edges(entry_views(entries@))),
            g@.wf(),
    {
        let ghost all = entry_views(entries@);
        let mut edges: Vec<Edge> = Vec::new();
        let mut i: usize = 0;
        proof {
            assert(all.take(0) =~= Seq::<EntryView>::empty());
            assert(edge_views(edges@) =~= Seq::<EdgeView>::empty());
        }
        while i < entries.len()
            invariant
                i <= entries.len(),
                all == entry_views(entries@),
                edge_views(edges@) == flat_edges(all.take(i as int)),
            decreases entries.len() - i,
        {
            let ghost done = edge_views(edges@);
            let ghost e = all[i as int];
            let mut k: usize = 0;
            proof {
                assert(all.take(i + 1).drop_last() =~= all.take(i as int));
                assert(all.take(i + 1).last() == e);
                assert(edge_views(edges@) =~= done + entry_edges(e).take(0));
            }
            while k < entries[i].1.len()
                invariant
                    i < entries.len(),
                    k <= entries[i as int].1.len(),
                    all == entry_views(entries@),
                    e == all[i as int],
                    edge_views(edges@) == done + entry_edges(e).take(k as int),
                decreases entries[i as int].1.len() - k,
            {
                let ghost so_far = edge_views(edges@);
                edges.push(Edge(entries[i].0.clone(), entries[i].1[k].clone()));
                proof {
                    let these = entry_edges(e);
                    assert(these[k as int] == (e.0, e.1[k as int]));
                    assert(these.take(k + 1) =~= these.take(k as int).push(these[k as int]));
                    assert(edge_views(edges@) =~= so_far.push(these[k as int]));
                    assert(edge_views(edges@) =~= done + these.take(k + 1));
                }
                k = k + 1;
            }
            proof {
                assert(entry_edges(e).take(k as int) =~= entry_edges(e));
            }
            i = i + 1;
        }
        proof {
            assert(all.take(i as int) =~= all);
        }
        Graph::from_iter(edges)
    }

    /// The roots in ascending order: the indices at which no edge ends. The
    /// result is empty exactly when every value has an incoming edge.
    pub fn find_roots(&self) -> (roots: Vec<usize>)
        ensures
            roots@ == self@.roots(),
            forall|a: int, b: int| 0 <= a < b < roots.len() ==> roots[a] < roots[b],
            forall|i: usize| roots@.contains(i) <==> self@.is_root(i),
            roots.len() == 0 <==> forall|i: usize|
                i < self@.values.len() ==> self@.has_incoming(i),
            self@.wf(),
    {
        broadcast use vstd::std_specs::hash::group_hash_axioms;

        proof {
            use_type_invariant(self);
            lemma_model_wf(self.values@, self.value_to_index@, self.deps@);
        }
        let ghost g = self@;
        let n = self.values.len();
        let mut seen: Vec<bool> = Vec::new();
        while seen.len() < n
            invariant
                seen.len() <= n,
                forall|t: int| 0 <= t < seen.len() ==> !seen[t],
            decreases n - seen.len(),
        {
            seen.push(false);
        }
        let mut from: usize = 0;
        while from < n
            invariant
                from <= n,
                n == g.adj.len(),
                seen.len() == n,
                g == self@,
                g.wf(),
                g.adj == Seq::new(n as nat, |i: int| adj_of(self.deps@, i)),
                forall|t: usize| t < n ==> (#[trigger] seen[t as int] <==> g.has_incoming_below(
                    t,
                    from as int,
                )),
            decreases n - from,
        {
            match self.deps.get(&from) {
                Some(tos) => {
                    let mut k: usize = 0;
                    while k < tos.len()
                        invariant
                            k <= tos.len(),
                            from < n,
                            n == g.adj.len(),
                            seen.len() == n,
                            g.wf(),
                            tos@ == g.adj[from as int],
                            forall|t: usize|
                                t < n ==> (#[trigger] seen[t as int] <==> (g.has_incoming_below(
                                    t,
                                    from as int,
                                ) || exists|j: int| 0 <= j < k && #[trigger] tos@[j] == t)),
                        decreases tos.len() - k,
                    {
                        let to = tos[k];
                        assert(g.adj[from as int][k as int] < n);
                        seen.set(to, true);
                        k = k + 1;
                    }
                    proof {
                        assert forall|t: usize| t < n implies (#[trigger] seen[t as int]
                            <==> g.has_incoming_below(t, from + 1)) by {
                            if g.has_incoming_below(t, from + 1) {
                                let (i, j) = choose|i: int, j: int|
                                    0 <= i < from + 1 && i < g.adj.len() && 0 <= j < g.adj[i].len()
                                        && #[trigger] g.adj[i][j] == t;
                                if i < from {
                                    assert(g.has_incoming_below(t, from as int));
                                } else {
                                    assert(tos@[j] == t);
                                }
                            }
                            if seen[t as int] {
                                if g.has_incoming_below(t, from as int) {
                                    let (i, j) = choose|i: int, j: int|
                                        0 <= i < from && i < g.adj.len() && 0 <= j
                                            < g.adj[i].len() && #[trigger] g.adj[i][j] == t;
                                    assert(g.adj[i][j] == t);
                                } else {
                                    let j = choose|j: int| 0 <= j < k && #[trigger] tos@[j] == t;
                                    assert(g.adj[from as int][j] == t);
                                }
                            }
                        }
                    }
                },
                None => {
                    proof {
                        assert forall|t: usize| t < n implies (#[trigger] seen[t as int]
                            <==> g.has_incoming_below(t, from + 1)) by {
                            if g.has_incoming_below(t, from + 1) {
                                let (i, j) = choose|i: int, j: int|
                                    0 <= i < from + 1 && i < g.adj.len() && 0 <= j < g.adj[i].len()
                                        && #[trigger] g.adj[i][j] == t;
                                assert(i < from);
                                assert(g.has_incoming_below(t, from as int));
                            }
                            if g.has_incoming_below(t, from as int) {
                                let (i, j) = choose|i: int, j: int|
                                    0 <= i < from && i < g.adj.len() && 0 <= j < g.adj[i].len()
                                        && #[trigger] g.adj[i][j] == t;
                                assert(g.adj[i][j] == t);
                            }
                        }
                    }
                },
            }
            from = from + 1;
        }
        let mut roots: Vec<usize> = Vec::new();
        let mut i: usize = 0;
        while i < n
            invariant
                i <= n,
                n == g.adj.len(),
                n == g.values.len(),
                seen.len() == n,
                forall|t: usize| t < n ==> (#[trigger] seen[t as int] <==> g.has_incoming(t)),
                roots@ == g.roots_below(i as int),
                forall|a: int, b: int| 0 <= a < b < roots.len() ==> roots[a] < roots[b],
                forall|a: int| 0 <= a < roots.len() ==> (#[trigger] roots[a]) < i && g.is_root(
                    roots[a],
                ),
                forall|t: usize| t < i && g.is_root(t) ==> roots@.contains(t),
            decreases n - i,
        {
            if !seen[i] {
                let ghost before = roots@;
                roots.push(i);
                proof {
                    assert(roots@[before.len() as int] == i);
                    assert forall|t: usize| t < i + 1 && g.is_root(t) implies roots@.contains(
                        t,
                    ) by {
                        if t < i {
                            let a = choose|a: int| 0 <= a < before.len() && before[a] == t;
                            assert(roots@[a] == t);
                        }
                    }
                }
            }
            i = i + 1;
        }
        proof {
            if roots.len() == 0 {
                assert forall|t: usize| t < g.values.len() implies g.has_incoming(t) by {
                    if !g.has_incoming(t) {
                        assert(g.is_root(t));
                        assert(roots@.contains(t));
                    }
                }
            } else {
                assert(g.is_root(roots[0]));
            }
        }
        roots
    }

    /// The same edges over the value table `values`: every value keeps its
    /// outgoing edges, and every index is replaced by the position of its
    /// value in `values`. Fails when `values` repeats a value, or lacks one
    /// that stands at either end of an edge.
    pub fn remap(&self, values: Vec<String>) -> (r: Result<Graph, RemapError>)
        ensures
            match r {
                Ok(g) => names(values@).no_duplicates() && self@.covered_by(names(values@)) && g@
                    == self@.remapped(names(values@)) && g@.wf(),
                Err(RemapError::DuplicateValue) => !names(values@).no_duplicates(),
                Err(RemapError::MissingValue) => names(values@).no_duplicates()
                    && !self@.covered_by(names(values@)),
            },
            self@.wf(),
    {
        broadcast use vstd::std_specs::hash::group_hash_axioms;

        proof {
            use_type_invariant(self);
            lemma_model_wf(self.values@, self.value_to_index@, self.deps@);
        }
        let ghost g = self@;
        let ghost order = names(values@);
        let mut index: StringHashMap<usize> = StringHashMap::new();
        let mut j: usize = 0;
        while j < values.len()
            invariant
                j <= values.len(),
                order == names(values@),
                self@.wf(),
                table_wf(values@.take(j as int), index@),
            decreases values.len() - j,
        {
            let ghost head = values@.take(j as int);
            if index.contains_key(values[j].as_str()) {
                proof {
                    let first = index@[values@[j as int]@];
                    assert(head[first as int]@ == values@[j as int]@);
                    assert(order[first as int] == order[j as int]);
                }
                return Err(RemapError::DuplicateValue);
            }
            index.insert(values[j].clone(), j);
            proof {
                let next = values@.take(j + 1);
                assert(next =~= head.push(values@[j as int]));
                assert forall|i: int| 0 <= i < next.len() implies index@.contains_key(
                    #[trigger] next[i]@,
                ) && index@[next[i]@] == i by {
                    if i < j {
                        assert(next[i] == head[i]);
                    }
                }
                assert forall|k: Seq<char>| #[trigger] index@.contains_key(k) implies index@[k]
                    < next.len() && next[index@[k] as int]@ == k by {
                    if k != values@[j as int]@ {
                        assert(next[index@[k] as int] == head[index@[k] as int]);
                    }
                }
            }
            j = j + 1;
        }
        proof {
            assert(values@.take(j as int) =~= values@);
            lemma_table(values@, index@);
            assert(order.len() == values@.len());
        }
        let n = self.values.len();
        let mut deps: HashMap<usize, Vec<usize>> = HashMap::new();
        let mut i: usize = 0;
        while i < n
            invariant
                i <= n,
                n == g.adj.len(),
                n == self.values@.len(),
                g == self@,
                g.wf(),
                g.values == names(self.values@),
                g.adj == Seq::new(n as nat, |i: int| adj_of(self.deps@, i)),
                order == names(values@),
                order.len() == values@.len(),
                order.no_duplicates(),
                table_wf(values@, index@),
                deps_wf(values@.len(), deps@),
                deps_wf(n as nat, self.deps@),
                forall|a: int|
                    0 <= a < i && g.adj[a].len() > 0 ==> order.contains(#[trigger] g.values[a]),
                forall|a: int, k: int|
                    0 <= a < i && 0 <= k < g.adj[a].len() ==> order.contains(
                        g.values[(#[trigger] g.adj[a][k]) as int],
                    ),
                forall|a: int|
                    0 <= a < i && g.adj[a].len() > 0 ==> deps@.contains_key(
                        order.index_of(#[trigger] g.values[a]) as usize,
                    ) && deps@[order.index_of(g.values[a]) as usize]@ == g.remapped_list(order, a),
                forall|key: usize| #[trigger]
                    deps@.contains_key(key) ==> exists|a: int|
                        0 <= a < i && g.adj[a].len() > 0 && key == order.index_of(
                            #[trigger] g.values[a],
                        ),
            decreases n - i,
        {
            match self.deps.get(&i) {
                Some(tos) => {
                    let new_from: usize = match index.get(self.values[i].as_str()) {
                        Some(x) => *x,
                        None => {
                            proof {
                                lemma_table(values@, index@);
                                assert(g.values[i as int] == self.values@[i as int]@);
                                assert(!order.contains(g.values[i as int]));
                                assert(g.adj[i as int][0] == tos@[0]);
                            }
                            return Err(RemapError::MissingValue);
                        },
                    };
                    let mut list: Vec<usize> = Vec::new();
                    let mut k: usize = 0;
                    while k < tos.len()
                        invariant
                            k <= tos.len(),
                            i < n,
                            n == g.adj.len(),
                            n == self.values@.len(),
                            g == self@,
                            g.wf(),
                            g.values == names(self.values@),
                            tos@ == g.adj[i as int],
                            order == names(values@),
                            order.len() == values@.len(),
                            order.no_duplicates(),
                            table_wf(values@, index@),
                            list@ == g.remapped_list(order, i as int).take(k as int),
                            forall|j: int| 0 <= j < list.len() ==> (#[trigger] list[j]) < values@.len(),
                            forall|j: int|
                                0 <= j < k ==> order.contains(
                                    g.values[(#[trigger] g.adj[i as int][j]) as int],
                                ),
                        decreases tos.len() - k,
                    {
                        let t = tos[k];
                        assert(g.adj[i as int][k as int] < n);
                        proof {
                            lemma_table(values@, index@);
                            assert(g.values[t as int] == self.values@[t as int]@);
                        }
                        match index.get(self.values[t].as_str()) {
                            Some(x) => {
                                list.push(*x);
                                proof {
                                    let full = g.remapped_list(order, i as int);
                                    assert(full.take(k + 1) =~= full.take(k as int).push(
                                        full[k as int],
                                    ));
                                }
                            },
                            None => {
                                proof {
                                    assert(!order.contains(
                                        g.values[g.adj[i as int][k as int] as int],
                                    ));
                                }
                                return Err(RemapError::MissingValue);
                            },
                        }
                        k = k + 1;
                    }
                    proof {
                        lemma_table(values@, index@);
                        let full = g.remapped_list(order, i as int);
                        assert(full.take(k as int) =~= full);
                        assert(g.values[i as int] == self.values@[i as int]@);
                        assert(new_from == order.index_of(g.values[i as int]));
                        assert(order[new_from as int] == g.values[i as int]);
                        // no earlier source was sent to this index
                        assert forall|a: int| 0 <= a < i && g.adj[a].len() > 0 implies order.index_of(
                            #[trigger] g.values[a],
                        ) != new_from by {
                            let x = order.index_of(g.values[a]);
                            assert(order.contains(g.values[a]));
                            assert(order[x] == g.values[a]);
                            lemma_index_of_unique(g.values, a);
                            lemma_index_of_unique(g.values, i as int);
                        }
                    }
                    let ghost before = deps@;
                    deps.insert(new_from, list);
                    proof {
                        assert forall|a: int| 0 <= a < i + 1 && g.adj[a].len() > 0 implies deps@.contains_key(
                            order.index_of(#[trigger] g.values[a]) as usize,
                        ) && deps@[order.index_of(g.values[a]) as usize]@ == g.remapped_list(
                            order,
                            a,
                        ) by {
                            if a < i {
                                assert(before.contains_key(order.index_of(g.values[a]) as usize));
                            }
                        }
                        assert forall|key: usize| #[trigger] deps@.contains_key(key) implies exists|
                            a: int,
                        |
                            0 <= a < i + 1 && g.adj[a].len() > 0 && key == order.index_of(
                                #[trigger] g.values[a],
                            ) by {
                            if key == new_from {
                                assert(key == order.index_of(g.values[i as int]));
                            } else {
                                assert(before.contains_key(key));
                                let a = choose|a: int|
                                    0 <= a < i && g.adj[a].len() > 0 && key == order.index_of(
                                        #[trigger] g.values[a],
                                    );
                                assert(key == order.index_of(g.values[a]));
                            }
                        }
                    }
                },
                None => {
                    proof {
                        assert(g.adj[i as int].len() == 0);
                    }
                },
            }
            i = i + 1;
        }
        proof {
            lemma_remapped(g, values@, deps@);
        }
        Ok(Graph { values, value_to_index: index, deps })
    }

    /// The graph with every edge reversed and every value at its old index:
    /// the inverted graph, reindexed onto the values of this one, so that the
    /// list of an index holds the sources of the edges that end there.
    pub fn reversed(&self) -> (g: Graph)
        ensures
            g@ == self@.reversed(),
            g@.wf(),
            self@.wf(),
    {
        let inverted = self.invert();
        let mut values: Vec<String> = Vec::new();
        let mut i: usize = 0;
        while i < self.values.len()
            invariant
                i <= self.values.len(),
                names(values@) == names(self.values@).take(i as int),
            decreases self.values.len() - i,
        {
            values.push(self.values[i].clone());
            proof {
                let all = names(self.values@);
                assert(all.take(i + 1) =~= all.take(i as int).push(all[i as int]));
                assert(names(values@) =~= all.take(i + 1));
            }
            i = i + 1;
        }
        proof {
            use_type_invariant(self);
            lemma_model_wf(self.values@, self.value_to_index@, self.deps@);
            assert(names(self.values@).take(i as int) =~= names(self.values@));
            crate::roundtrip::lemma_inverted_covered(self@);
            crate::roundtrip::lemma_reversed_lists(self@);
        }
        match inverted.remap(values) {
            Ok(g) => g,
            Err(_) => unreached(),
        }
    }

    /// The graph with every edge reversed, built anew from the reversed
    /// canonical edge stream: its values are interned in the order in which
    /// that stream shows them, so its indices differ from this graph's.
    pub fn invert(&self) -> (g: Graph)
        ensures
            g@ == self@.inverted(),
            g@.wf(),
            self@.wf(),
    {
        let edges = self.to_edges();
        let ghost stream = self@.reversed_edges();
        let mut reversed: Vec<Edge> = Vec::new();
        let mut k: usize = 0;
        while k < edges.len()
            invariant
                k <= edges.len(),
                edge_views(edges@) == self@.edges(),
                stream == self@.reversed_edges(),
                edge_views(reversed@) == stream.take(k as int),
            decreases edges.len() - k,
        {
            let e = edges[k].invert();
            reversed.push(e);
            proof {
                assert(edge_views(edges@)[k as int] == edges@[k as int]@);
                assert(stream.take(k + 1) =~= stream.take(k as int).push(stream[k as int]));
                assert(edge_views(reversed@) =~= stream.take(k + 1));
            }
            k = k + 1;
        }
        proof {
            assert(stream.take(k as int) =~= stream);
        }
        Graph::from_iter(reversed)
    }
}

/// Fields that hold, for each source with edges, its reindexed list under
/// the new index of its value, and nothing else, stand for the remapped graph.
proof fn lemma_remapped(g: GraphView, values: Seq<String>, deps: Map<usize, Vec<usize>>)
    requires
        g.wf(),
        values.len() <= usize::MAX,
        names(values).no_duplicates(),
        deps_wf(values.len(), deps),
        g.covered_by(names(values)),
        forall|a: int|
            0 <= a < g.adj.len() && g.adj[a].len() > 0 ==> deps.contains_key(
                names(values).index_of(#[trigger] g.values[a]) as usize,
            ) && deps[names(values).index_of(g.values[a]) as usize]@ == g.remapped_list(
                names(values),
                a,
            ),
        forall|key: usize| #[trigger]
            deps.contains_key(key) ==> exists|a: int|
                0 <= a < g.adj.len() && g.adj[a].len() > 0 && key == names(values).index_of(
                    #[trigger] g.values[a],
                ),
    ensures
        model_of(values, deps) == g.remapped(names(values)),
{
    let order = names(values);
    assert(order.len() == values.len());
    let m = model_of(values, deps);
    let r = g.remapped(order);
    assert forall|j: int| 0 <= j < order.len() implies #[trigger] m.adj[j] == r.adj[j] by {
        if deps.contains_key(j as usize) {
            let a = choose|a: int|
                0 <= a < g.adj.len() && g.adj[a].len() > 0 && j as usize == order.index_of(
                    #[trigger] g.values[a],
                );
            assert(order.contains(g.values[a]));
            assert(order[j] == g.values[a]);
            lemma_index_of_unique(g.values, a);
        } else {
            if g.values.contains(order[j]) {
                let a = g.values.index_of(order[j]);
                assert(g.values[a] == order[j]);
                lemma_index_of_unique(order, j);
                if g.adj[a].len() > 0 {
                    assert(deps.contains_key(order.index_of(g.values[a]) as usize));
                }
                assert(g.remapped_list(order, a) =~= Seq::empty());
            }
        }
    }
    assert(m.adj =~= r.adj);
}

/// The sources of the adjacency entries below `k` are values of indices
/// below `k`, ascending; so no two entries have the same source.
pub proof fn lemma_adjacency_sources(g: GraphView, k: int)
    requires
        g.wf(),
        0 <= k <= g.adj.len(),
    ensures
        forall|a: int|
            0 <= a < g.adjacency_below(k).len() ==> g.values.contains(
                (#[trigger] g.adjacency_below(k)[a]).0,
            ) && g.values.index_of(g.adjacency_below(k)[a].0) < k,
        forall|a: int, b: int|
            0 <= a < b < g.adjacency_below(k).len() ==> g.values.index_of(
                (#[trigger] g.adjacency_below(k)[a]).0,
            ) < g.values.index_of((#[trigger] g.adjacency_below(k)[b]).0),
        forall|a: int, b: int|
            0 <= a < b < g.adjacency_below(k).len() ==> (#[trigger] g.adjacency_below(k)[a]).0 != (
            #[trigger] g.adjacency_below(k)[b]).0,
    decreases k,
{
    if k > 0 {
        lemma_adjacency_sources(g, k - 1);
        lemma_index_of_unique(g.values, k - 1);
        let before = g.adjacency_below(k - 1);
        let now = g.adjacency_below(k);
        assert forall|a: int| 0 <= a < now.len() implies g.values.contains((#[trigger] now[a]).0)
            && g.values.index_of(now[a].0) < k by {
            if a < before.len() {
                assert(now[a] == before[a]);
            }
        }
        assert forall|a: int, b: int| 0 <= a < b < now.len() implies g.values.index_of(
            (#[trigger] now[a]).0,
        ) < g.values.index_of((#[trigger] now[b]).0) by {
            assert(now[a] == before[a]);
            if b < before.len() {
                assert(now[b] == before[b]);
            }
        }
    }
}

/// Adding an edge keeps a graph well formed.
pub proof fn lemma_with_edge_wf(g: GraphView, e: EdgeView)
    requires
        g.wf(),
    ensures
        g.with_edge(e).wf(),
        g.with_edge(e).values.len() >= g.values.len(),
        g.with_edge(e).values.take(g.values.len() as int) == g.values,
{
    let g1 = g.with_value(e.0);
    let g2 = g1.with_value(e.1);
    assert(g1.wf());
    assert(g2.wf());
    assert(g2.values.contains(e.0)) by {
        if g.values.contains(e.0) {
            let i = choose|i: int| 0 <= i < g.values.len() && g.values[i] == e.0;
            assert(g2.values[i] == e.0);
        } else {
            assert(g1.values[g.values.len() as int] == e.0);
            assert(g2.values[g.values.len() as int] == e.0);
        }
    }
    assert(g2.values.contains(e.1)) by {
        if g1.values.contains(e.1) {
        } else {
            assert(g2.values[g1.values.len() as int] == e.1);
        }
    }
    let from = g2.values.index_of(e.0);
    let to = g2.values.index_of(e.1);
    let r = g.with_edge(e);
    assert forall|i: int, k: int| 0 <= i < r.adj.len() && 0 <= k < r.adj[i].len() implies (
    #[trigger] r.adj[i][k]) < r.values.len() by {
        if i == from && k == g2.adj[from].len() {
        } else {
            assert(r.adj[i][k] == g2.adj[i][k]);
        }
    }
    assert(r.values.take(g.values.len() as int) =~= g.values);
}

/// A graph built from an edge stream is well formed.
pub proof fn lemma_build_wf(edges: Seq<EdgeView>)
    ensures
        GraphView::build(edges).wf(),
    decreases edges.len(),
{
    if edges.len() > 0 {
        lemma_build_wf(edges.drop_last());
        lemma_with_edge_wf(GraphView::build(edges.drop_last()), edges.last());
    }
}

} // verus!
