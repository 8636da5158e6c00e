use vstd::prelude::*;

verus! {

/// One record of a traversal: a node, the depth at which it was reached, and
/// the node it was reached from (`None` for a start node).
#[derive(Debug, Clone, Copy, PartialEq, Eq)]
pub struct Visit {
    pub depth: usize,
    pub node: usize,
    pub pred: Option<usize>,
}

/// A visit together with the callback's answer to it: `expanded` is true
/// when the callback asked for the node's successors.
#[derive(Debug, Clone, Copy, PartialEq, Eq)]
pub struct Step {
    pub visit: Visit,
    pub expanded: bool,
}

/// A traversal was asked to expand a node at the depth limit. `trace` holds
/// the steps up to and including that one.
#[derive(Debug, Clone, PartialEq, Eq)]
pub struct DepthLimitExceeded {
    pub trace: Vec<Step>,
}

/// One step of a traversal that reports whole paths: the path from a start
/// node to the visited node, both included, and the callback's answer.
#[derive(Debug, Clone, PartialEq, Eq)]
pub struct PathStep {
    pub path: Vec<usize>,
    pub expanded: bool,
}

impl View for PathStep {
    type V = (Seq<usize>, bool);

    open spec fn view(&self) -> (Seq<usize>, bool) {
        (self.path@, self.expanded)
    }
}

/// A path traversal was asked to expand a node at the depth limit. `trace`
/// holds the steps up to and including that one.
#[derive(Debug, Clone, PartialEq, Eq)]
pub struct PathLimitExceeded {
    pub trace: Vec<PathStep>,
}

/// The order in which pending visits are served.
#[derive(Debug, Clone, Copy, PartialEq, Eq)]
pub enum Discipline {
    /// Breadth first: successors wait behind everything already pending.
    Fifo,
    /// Depth first: successors are served before everything already pending.
    Lifo,
}

/// The visit that a start node is seeded with.
pub open spec fn seed(node: usize) -> Visit {
    Visit { depth: 0, node, pred: None }
}

/// The visits that a traversal of `n` nodes starts with: one per start index
/// below `n`, in the order given; the others are dropped.
pub open spec fn seeds(n: nat, starts: Seq<usize>) -> Seq<Visit> {
    starts.filter(|s: usize| s < n).map_values(|s: usize| seed(s))
}

/// The visit of `c` as a successor of the visit `v`.
pub open spec fn child(v: Visit, c: usize) -> Visit {
    Visit { depth: (v.depth + 1) as usize, node: c, pred: Some(v.node) }
}

/// The visits of the successors of `v`, in adjacency order.
pub open spec fn children(adj: Seq<Seq<usize>>, v: Visit) -> Seq<Visit> {
    if v.node < adj.len() {
        adj[v.node as int].map_values(|c: usize| child(v, c))
    } else {
        Seq::empty()
    }
}

/// What is pending once the head of `pending` has been served: the head
/// leaves, and where it was expanded its successors join, at the back for
/// `Fifo` and at the front for `Lifo`.
pub open spec fn pending_after(
    d: Discipline,
    adj: Seq<Seq<usize>>,
    pending: Seq<Visit>,
    expanded: bool,
) -> Seq<Visit> {
    if !expanded {
        pending.drop_first()
    } else {
        match d {
            Discipline::Fifo => pending.drop_first() + children(adj, pending[0]),
            Discipline::Lifo => children(adj, pending[0]) + pending.drop_first(),
        }
    }
}

/// What is pending after the steps of `trace`, starting from `start`.
pub open spec fn pending_at(
    d: Discipline,
    adj: Seq<Seq<usize>>,
    start: Seq<Visit>,
    trace: Seq<Step>,
) -> Seq<Visit>
    decreases trace.len(),
{
    if trace.len() == 0 {
        start
    } else {
        pending_after(d, adj, pending_at(d, adj, start, trace.drop_last()), trace.last().expanded)
    }
}

/// `trace` is a run of the traversal from `start`: each step serves the head
/// of what was pending when it was taken.
pub open spec fn is_run(
    d: Discipline,
    adj: Seq<Seq<usize>>,
    start: Seq<Visit>,
    trace: Seq<Step>,
) -> bool
    decreases trace.len(),
{
    trace.len() == 0 || {
        let before = pending_at(d, adj, start, trace.drop_last());
        &&& is_run(d, adj, start, trace.drop_last())
        &&& before.len() > 0
        &&& trace.last().visit == before[0]
    }
}

/// `trace` is a run that leaves nothing pending.
pub open spec fn is_complete_run(
    d: Discipline,
    adj: Seq<Seq<usize>>,
    start: Seq<Visit>,
    trace: Seq<Step>,
) -> bool {
    is_run(d, adj, start, trace) && pending_at(d, adj, start, trace).len() == 0
}

/// Every answer in `trace` is one that the callback `f` may give to that
/// step's visit.
pub open spec fn permitted<F: Fn(usize, usize, Option<usize>) -> bool>(
    f: F,
    trace: Seq<Step>,
) -> bool {
    forall|k: int|
        0 <= k < trace.len() ==> call_ensures(
            f,
            ((#[trigger] trace[k]).visit.depth, trace[k].visit.node, trace[k].visit.pred),
            trace[k].expanded,
        )
}

/// No step of `trace` expands a node whose successors would reach `limit`.
pub open spec fn within_limit(trace: Seq<Step>, limit: usize) -> bool {
    forall|k: int| 0 <= k < trace.len() && (#[trigger] trace[k]).expanded ==> trace[k].visit.depth + 1 < limit
}

/// `trace` is a run whose last step was asked to expand a node at the limit,
/// while no step before it was.
pub open spec fn is_cut_run(
    d: Discipline,
    adj: Seq<Seq<usize>>,
    start: Seq<Visit>,
    trace: Seq<Step>,
    limit: usize,
) -> bool {
    &&& trace.len() > 0
    &&& is_run(d, adj, start, trace)
    &&& within_limit(trace.drop_last(), limit)
    &&& trace.last().expanded
    &&& trace.last().visit.depth + 1 >= limit
}

/// Every answer in `trace` is the one that `rule` gives to that step's
/// visit.
pub open spec fn follows(rule: spec_fn(Visit) -> bool, trace: Seq<Step>) -> bool {
    forall|k: int| 0 <= k < trace.len() ==> (#[trigger] trace[k]).expanded == rule(trace[k].visit)
}

/// A visit as a traversal of `n` nodes makes it: of a node below `n`, at
/// depth 0 where it has no predecessor, and with a predecessor below `n`
/// where it has one.
pub open spec fn placed(n: nat, v: Visit) -> bool {
    &&& v.node < n
    &&& v.pred is None ==> v.depth == 0
    &&& v.pred matches Some(p) ==> p < n
}

/// Every pending visit is placed.
pub open spec fn visits_ok(n: nat, pending: Seq<Visit>) -> bool {
    forall|k: int| 0 <= k < pending.len() ==> placed(n, #[trigger] pending[k])
}

/// Every visit of the trace is placed.
pub open spec fn steps_placed(n: nat, trace: Seq<Step>) -> bool {
    forall|k: int| 0 <= k < trace.len() ==> placed(n, (#[trigger] trace[k]).visit)
}

/// The depth that is left below `depth` before `limit`.
pub open spec fn room(limit: nat, depth: nat) -> nat {
    if depth < limit {
        (limit - depth) as nat
    } else {
        0
    }
}

/// The number of visits that a traversal can make from `node` at `depth`
/// when every node above the limit is expanded: an upper bound on what any
/// callback lets it make.
pub open spec fn tree_size(adj: Seq<Seq<usize>>, node: usize, depth: nat, limit: nat) -> nat
    decreases room(limit, depth), 0nat,
{
    if depth + 1 < limit && node < adj.len() {
        1 + forest_size(adj, adj[node as int], depth + 1, limit)
    } else {
        1
    }
}

/// The sum of `tree_size` over `nodes`, all at `depth`.
pub open spec fn forest_size(adj: Seq<Seq<usize>>, nodes: Seq<usize>, depth: nat, limit: nat) -> nat
    decreases room(limit, depth), nodes.len() + 1,
{
    if nodes.len() == 0 {
        0
    } else {
        forest_size(adj, nodes.drop_last(), depth, limit) + tree_size(
            adj,
            nodes.last(),
            depth,
            limit,
        )
    }
}

/// The sum of `tree_size` over the pending visits: the measure by which a
/// traversal with a depth limit ends.
pub open spec fn pending_size(adj: Seq<Seq<usize>>, pending: Seq<Visit>, limit: nat) -> nat
    decreases pending.len(),
{
    if pending.len() == 0 {
        0
    } else {
        pending_size(adj, pending.drop_last(), limit) + tree_size(
            adj,
            pending.last().node,
            pending.last().depth as nat,
            limit,
        )
    }
}

/// The views of the steps of a path traversal.
pub open spec fn path_steps(trace: Seq<PathStep>) -> Seq<(Seq<usize>, bool)> {
    trace.map_values(|s: PathStep| s@)
}

/// The views of a sequence of paths.
pub open spec fn path_views(paths: Seq<Vec<usize>>) -> Seq<Seq<usize>> {
    paths.map_values(|p: Vec<usize>| p@)
}

/// The paths that a traversal of `n` nodes starts with: one per start index
/// below `n`, in the order given.
pub open spec fn path_seeds(n: nat, starts: Seq<usize>) -> Seq<Seq<usize>> {
    starts.filter(|s: usize| s < n).map_values(|s: usize| seq![s])
}

/// The paths that extend `path` by one successor of its last node, in
/// adjacency order.
pub open spec fn path_children(adj: Seq<Seq<usize>>, path: Seq<usize>) -> Seq<Seq<usize>> {
    if path.len() > 0 && path.last() < adj.len() {
        adj[path.last() as int].map_values(|c: usize| path.push(c))
    } else {
        Seq::empty()
    }
}

/// The paths pending once the head of `pending` has been served, breadth
/// first: the head leaves, and where it was expanded its extensions join at
/// the back.
pub open spec fn paths_after(
    adj: Seq<Seq<usize>>,
    pending: Seq<Seq<usize>>,
    expanded: bool,
) -> Seq<Seq<usize>> {
    if expanded {
        pending.drop_first() + path_children(adj, pending[0])
    } else {
        pending.drop_first()
    }
}

/// The paths pending after the steps of `trace`, starting from `start`.
pub open spec fn paths_at(
    adj: Seq<Seq<usize>>,
    start: Seq<Seq<usize>>,
    trace: Seq<(Seq<usize>, bool)>,
) -> Seq<Seq<usize>>
    decreases trace.len(),
{
    if trace.len() == 0 {
        start
    } else {
        paths_after(adj, paths_at(adj, start, trace.drop_last()), trace.last().1)
    }
}

/// `trace` is a breadth-first run over paths from `start`: each step serves
/// the head of what was pending when it was taken.
pub open spec fn is_path_run(
    adj: Seq<Seq<usize>>,
    start: Seq<Seq<usize>>,
    trace: Seq<(Seq<usize>, bool)>,
) -> bool
    decreases trace.len(),
{
    trace.len() == 0 || {
        let before = paths_at(adj, start, trace.drop_last());
        &&& is_path_run(adj, start, trace.drop_last())
        &&& before.len() > 0
        &&& trace.last().0 == before[0]
    }
}

/// Every answer in `trace` is one that the callback `f` may give to that
/// step's path.
pub open spec fn path_permitted<F: Fn(&[usize]) -> bool>(
    f: F,
    trace: Seq<(Seq<usize>, bool)>,
) -> bool {
    forall|k: int|
        0 <= k < trace.len() ==> exists|s: &[usize]|
            s@ == (#[trigger] trace[k]).0 && call_ensures(f, (s,), trace[k].1)
}

/// Every answer in `trace` is the one that `rule` gives to that step's path.
pub open spec fn path_follows(
    rule: spec_fn(Seq<usize>) -> bool,
    trace: Seq<(Seq<usize>, bool)>,
) -> bool {
    forall|k: int| 0 <= k < trace.len() ==> (#[trigger] trace[k]).1 == rule(trace[k].0)
}

/// No step of `trace` expands a path that is `limit` nodes long or longer.
pub open spec fn paths_within_limit(trace: Seq<(Seq<usize>, bool)>, limit: usize) -> bool {
    forall|k: int| 0 <= k < trace.len() && (#[trigger] trace[k]).1 ==> trace[k].0.len() < limit
}

/// A path of a traversal of `n` nodes: non-empty, of nodes below `n`.
pub open spec fn path_ok(n: nat, path: Seq<usize>) -> bool {
    path.len() > 0 && forall|j: int| 0 <= j < path.len() ==> (#[trigger] path[j]) < n
}

/// Every pending path is a path of the traversal.
pub open spec fn paths_ok(n: nat, pending: Seq<Seq<usize>>) -> bool {
    forall|k: int| 0 <= k < pending.len() ==> path_ok(n, #[trigger] pending[k])
}

/// Every path of the trace is a path of the traversal.
pub open spec fn path_steps_ok(n: nat, trace: Seq<(Seq<usize>, bool)>) -> bool {
    forall|k: int| 0 <= k < trace.len() ==> path_ok(n, (#[trigger] trace[k]).0)
}

/// The sum of `tree_size` over the last nodes of the pending paths, each at
/// the depth that its path gives it.
pub open spec fn paths_size(adj: Seq<Seq<usize>>, pending: Seq<Seq<usize>>, limit: nat) -> nat
    decreases pending.len(),
{
    if pending.len() == 0 {
        0
    } else {
        paths_size(adj, pending.drop_last(), limit) + tree_size(
            adj,
            pending.last().last(),
            (pending.last().len() - 1) as nat,
            limit,
        )
    }
}

/// Seeding one more start index with its path.
pub(crate) proof fn lemma_path_seeds_push(n: nat, starts: Seq<usize>, s: usize)
    ensures
        path_seeds(n, starts.push(s)) == if s < n {
            path_seeds(n, starts).push(seq![s])
        } else {
            path_seeds(n, starts)
        },
        path_seeds(n, Seq::empty()) == Seq::<Seq<usize>>::empty(),
{
    let p = |s: usize| s < n;
    starts.lemma_filter_push(s, p);
    assert(path_seeds(n, starts.push(s)) =~= if s < n {
        path_seeds(n, starts).push(seq![s])
    } else {
        path_seeds(n, starts)
    });
    reveal(Seq::filter);
    assert(Seq::<usize>::empty().filter(p) =~= Seq::empty());
    assert(path_seeds(n, Seq::empty()) =~= Seq::<Seq<usize>>::empty());
}

/// The measure of two sequences of pending paths put together is the sum of
/// theirs.
proof fn lemma_paths_size_add(
    adj: Seq<Seq<usize>>,
    a: Seq<Seq<usize>>,
    b: Seq<Seq<usize>>,
    limit: nat,
)
    ensures
        paths_size(adj, a + b, limit) == paths_size(adj, a, limit) + paths_size(adj, b, limit),
    decreases b.len(),
{
    if b.len() == 0 {
        assert(a + b =~= a);
    } else {
        assert((a + b).drop_last() =~= a + b.drop_last());
        assert((a + b).last() == b.last());
        lemma_paths_size_add(adj, a, b.drop_last(), limit);
    }
}

proof fn lemma_path_children_prefix_size(
    adj: Seq<Seq<usize>>,
    path: Seq<usize>,
    limit: nat,
    k: int,
)
    requires
        path.len() > 0,
        path.last() < adj.len(),
        0 <= k <= adj[path.last() as int].len(),
    ensures
        paths_size(adj, path_children(adj, path).take(k), limit) == forest_size(
            adj,
            adj[path.last() as int].take(k),
            path.len(),
            limit,
        ),
    decreases k,
{
    let nodes = adj[path.last() as int];
    let kids = path_children(adj, path);
    if k > 0 {
        lemma_path_children_prefix_size(adj, path, limit, k - 1);
        assert(kids.take(k).drop_last() =~= kids.take(k - 1));
        assert(nodes.take(k).drop_last() =~= nodes.take(k - 1));
        assert(kids.take(k).last() == path.push(nodes[k - 1]));
        assert(nodes.take(k).last() == nodes[k - 1]);
    }
}

/// Serving the head of the pending paths lowers the measure.
pub(crate) proof fn lemma_path_step_decreases(
    adj: Seq<Seq<usize>>,
    pending: Seq<Seq<usize>>,
    expanded: bool,
    limit: nat,
)
    requires
        pending.len() > 0,
        pending[0].len() > 0,
        pending[0].last() < adj.len(),
        expanded ==> pending[0].len() < limit,
    ensures
        paths_size(adj, paths_after(adj, pending, expanded), limit) < paths_size(
            adj,
            pending,
            limit,
        ),
{
    let head = pending[0];
    let rest = pending.drop_first();
    assert(pending =~= seq![head] + rest);
    lemma_paths_size_add(adj, seq![head], rest, limit);
    assert(seq![head].drop_last() =~= Seq::<Seq<usize>>::empty());
    assert(paths_size(adj, Seq::<Seq<usize>>::empty(), limit) == 0);
    assert(seq![head].last() == head);
    if expanded {
        let nodes = adj[head.last() as int];
        lemma_path_children_prefix_size(adj, head, limit, nodes.len() as int);
        assert(nodes.take(nodes.len() as int) =~= nodes);
        assert(path_children(adj, head).take(nodes.len() as int) =~= path_children(adj, head));
        lemma_paths_size_add(adj, rest, path_children(adj, head), limit);
    }
}

/// Adding a step that serves the head of the pending paths gives a run again.
pub(crate) proof fn lemma_path_run_step(
    adj: Seq<Seq<usize>>,
    start: Seq<Seq<usize>>,
    trace: Seq<(Seq<usize>, bool)>,
    step: (Seq<usize>, bool),
)
    requires
        is_path_run(adj, start, trace),
        paths_at(adj, start, trace).len() > 0,
        step.0 == paths_at(adj, start, trace)[0],
    ensures
        is_path_run(adj, start, trace.push(step)),
        paths_at(adj, start, trace.push(step)) == paths_after(
            adj,
            paths_at(adj, start, trace),
            step.1,
        ),
{
    assert(trace.push(step).drop_last() =~= trace);
}

/// The extensions of a pending path of a well-formed graph are pending paths
/// of it.
pub(crate) proof fn lemma_path_step_ok(adj: Seq<Seq<usize>>, pending: Seq<Seq<usize>>, expanded: bool)
    requires
        pending.len() > 0,
        paths_ok(adj.len(), pending),
        forall|i: int, k: int|
            0 <= i < adj.len() && 0 <= k < adj[i].len() ==> (#[trigger] adj[i][k]) < adj.len(),
    ensures
        paths_ok(adj.len(), paths_after(adj, pending, expanded)),
{
    let next = paths_after(adj, pending, expanded);
    let kids = path_children(adj, pending[0]);
    let rest = pending.drop_first();
    assert(path_ok(adj.len(), pending[0]));
    assert forall|k: int| 0 <= k < next.len() implies path_ok(adj.len(), #[trigger] next[k]) by {
        if k < rest.len() {
            assert(next[k] == pending[k + 1]);
        } else {
            let c = adj[pending[0].last() as int][k - rest.len()];
            assert(next[k] == pending[0].push(c));
            assert forall|j: int| 0 <= j < next[k].len() implies (#[trigger] next[k][j])
                < adj.len() by {
                if j < pending[0].len() {
                    assert(next[k][j] == pending[0][j]);
                }
            }
        }
    }
}

/// Seeding one more start index.
pub(crate) proof fn lemma_seeds_push(n: nat, starts: Seq<usize>, s: usize)
    ensures
        seeds(n, starts.push(s)) == if s < n {
            seeds(n, starts).push(seed(s))
        } else {
            seeds(n, starts)
        },
        seeds(n, Seq::empty()) == Seq::<Visit>::empty(),
{
    let p = |s: usize| s < n;
    starts.lemma_filter_push(s, p);
    assert(seeds(n, starts.push(s)) =~= if s < n {
        seeds(n, starts).push(seed(s))
    } else {
        seeds(n, starts)
    });
    reveal(Seq::filter);
    assert(Seq::<usize>::empty().filter(p) =~= Seq::empty());
    assert(seeds(n, Seq::empty()) =~= Seq::<Visit>::empty());
}

/// The measure of two pending sequences put together is the sum of theirs.
proof fn lemma_pending_size_add(
    adj: Seq<Seq<usize>>,
    a: Seq<Visit>,
    b: Seq<Visit>,
    limit: nat,
)
    ensures
        pending_size(adj, a + b, limit) == pending_size(adj, a, limit) + pending_size(adj, b, limit),
    decreases b.len(),
{
    if b.len() == 0 {
        assert(a + b =~= a);
    } else {
        assert((a + b).drop_last() =~= a + b.drop_last());
        assert((a + b).last() == b.last());
        lemma_pending_size_add(adj, a, b.drop_last(), limit);
    }
}

/// The measure of the successors of an expanded visit is the forest below it.
proof fn lemma_children_size(adj: Seq<Seq<usize>>, v: Visit, limit: nat)
    requires
        v.depth + 1 < limit,
        limit <= usize::MAX,
        v.node < adj.len(),
    ensures
        pending_size(adj, children(adj, v), limit) == forest_size(
            adj,
            adj[v.node as int],
            (v.depth + 1) as nat,
            limit,
        ),
        tree_size(adj, v.node, v.depth as nat, limit) == 1 + pending_size(
            adj,
            children(adj, v),
            limit,
        ),
{
    lemma_children_prefix_size(adj, v, limit, adj[v.node as int].len() as int);
    assert(adj[v.node as int].take(adj[v.node as int].len() as int) =~= adj[v.node as int]);
    assert(children(adj, v).take(adj[v.node as int].len() as int) =~= children(adj, v));
}

proof fn lemma_children_prefix_size(adj: Seq<Seq<usize>>, v: Visit, limit: nat, k: int)
    requires
        v.depth + 1 < limit,
        limit <= usize::MAX,
        v.node < adj.len(),
        0 <= k <= adj[v.node as int].len(),
    ensures
        pending_size(adj, children(adj, v).take(k), limit) == forest_size(
            adj,
            adj[v.node as int].take(k),
            (v.depth + 1) as nat,
            limit,
        ),
    decreases k,
{
    let nodes = adj[v.node as int];
    let kids = children(adj, v);
    if k > 0 {
        lemma_children_prefix_size(adj, v, limit, k - 1);
        assert(kids.take(k).drop_last() =~= kids.take(k - 1));
        assert(nodes.take(k).drop_last() =~= nodes.take(k - 1));
        assert(kids.take(k).last() == child(v, nodes[k - 1]));
        assert(nodes.take(k).last() == nodes[k - 1]);
    }
}

/// Serving the head of what is pending lowers the measure: by one when the
/// head is expanded below the limit, by the head's whole tree when it is not.
pub(crate) proof fn lemma_step_decreases(
    d: Discipline,
    adj: Seq<Seq<usize>>,
    pending: Seq<Visit>,
    expanded: bool,
    limit: nat,
)
    requires
        pending.len() > 0,
        limit <= usize::MAX,
        pending[0].node < adj.len(),
        expanded ==> pending[0].depth + 1 < limit,
    ensures
        pending_size(adj, pending_after(d, adj, pending, expanded), limit) < pending_size(
            adj,
            pending,
            limit,
        ),
{
    let head = pending[0];
    let rest = pending.drop_first();
    assert(pending =~= seq![head] + rest);
    lemma_pending_size_add(adj, seq![head], rest, limit);
    assert(seq![head].drop_last() =~= Seq::<Visit>::empty());
    assert(pending_size(adj, Seq::<Visit>::empty(), limit) == 0);
    assert(seq![head].last() == head);
    assert(pending_size(adj, seq![head], limit) == tree_size(
        adj,
        head.node,
        head.depth as nat,
        limit,
    ));
    if expanded {
        lemma_children_size(adj, head, limit);
        lemma_pending_size_add(adj, rest, children(adj, head), limit);
        lemma_pending_size_add(adj, children(adj, head), rest, limit);
    }
}

/// Adding a step that serves the head of what is pending gives a run again.
pub(crate) proof fn lemma_run_step(
    d: Discipline,
    adj: Seq<Seq<usize>>,
    start: Seq<Visit>,
    trace: Seq<Step>,
    step: Step,
)
    requires
        is_run(d, adj, start, trace),
        pending_at(d, adj, start, trace).len() > 0,
        step.visit == pending_at(d, adj, start, trace)[0],
    ensures
        is_run(d, adj, start, trace.push(step)),
        pending_at(d, adj, start, trace.push(step)) == pending_after(
            d,
            adj,
            pending_at(d, adj, start, trace),
            step.expanded,
        ),
{
    assert(trace.push(step).drop_last() =~= trace);
}

/// The successors of a visit of a node of a well-formed graph are visits of
/// its nodes.
pub(crate) proof fn lemma_step_visits_ok(
    d: Discipline,
    adj: Seq<Seq<usize>>,
    pending: Seq<Visit>,
    expanded: bool,
)
    requires
        pending.len() > 0,
        visits_ok(adj.len(), pending),
        forall|i: int, k: int|
            0 <= i < adj.len() && 0 <= k < adj[i].len() ==> (#[trigger] adj[i][k]) < adj.len(),
    ensures
        visits_ok(adj.len(), pending_after(d, adj, pending, expanded)),
{
    let next = pending_after(d, adj, pending, expanded);
    let kids = children(adj, pending[0]);
    let rest = pending.drop_first();
    assert(placed(adj.len(), pending[0]));
    assert forall|k: int| 0 <= k < kids.len() implies placed(adj.len(), #[trigger] kids[k]) by {
        assert(kids[k].node == adj[pending[0].node as int][k]);
    }
    assert forall|k: int| 0 <= k < rest.len() implies placed(adj.len(), #[trigger] rest[k]) by {
        assert(rest[k] == pending[k + 1]);
    }
    assert forall|k: int| 0 <= k < next.len() implies placed(adj.len(), #[trigger] next[k]) by {
        if expanded {
            match d {
                Discipline::Fifo => {
                    if k < rest.len() {
                        assert(next[k] == rest[k]);
                    } else {
                        assert(next[k] == kids[k - rest.len()]);
                    }
                },
                Discipline::Lifo => {
                    if k < kids.len() {
                        assert(next[k] == kids[k]);
                    } else {
                        assert(next[k] == rest[k - kids.len()]);
                    }
                },
            }
        } else {
            assert(next[k] == rest[k]);
        }
    }
}

/// The first steps of a run are a run, and the step behind them serves the
/// head of what they leave pending.
pub proof fn lemma_run_prefix(
    d: Discipline,
    adj: Seq<Seq<usize>>,
    start: Seq<Visit>,
    trace: Seq<Step>,
    k: int,
)
    requires
        is_run(d, adj, start, trace),
        0 <= k <= trace.len(),
    ensures
        is_run(d, adj, start, trace.take(k)),
        k < trace.len() ==> pending_at(d, adj, start, trace.take(k)).len() > 0 && trace[k].visit
            == pending_at(d, adj, start, trace.take(k))[0],
    decreases trace.len() - k,
{
    if k == trace.len() {
        assert(trace.take(k) =~= trace);
    } else {
        lemma_run_prefix(d, adj, start, trace, k + 1);
        assert(trace.take(k + 1).drop_last() =~= trace.take(k));
        assert(trace.take(k + 1).last() == trace[k]);
    }
}

/// Every seed is at depth 0.
pub proof fn lemma_seeds_depth(n: nat, starts: Seq<usize>)
    ensures
        forall|k: int| 0 <= k < seeds(n, starts).len() ==> (#[trigger] seeds(n, starts)[k]).depth == 0,
{
}

/// Where a complete run within a limit follows a rule, no run that follows
/// the same rule from the same start is cut at that limit.
pub proof fn lemma_complete_or_cut(
    d: Discipline,
    adj: Seq<Seq<usize>>,
    start: Seq<Visit>,
    rule: spec_fn(Visit) -> bool,
    complete: Seq<Step>,
    cut: Seq<Step>,
    limit: usize,
)
    requires
        is_complete_run(d, adj, start, complete),
        within_limit(complete, limit),
        follows(rule, complete),
        follows(rule, cut),
    ensures
        !is_cut_run(d, adj, start, cut, limit),
{
    if is_cut_run(d, adj, start, cut, limit) {
        if cut.len() <= complete.len() {
            lemma_run_unique(d, adj, start, rule, cut, complete, cut.len() as int);
            assert(cut.take(cut.len() as int) =~= cut);
            assert(cut.last() == complete.take(cut.len() as int)[cut.len() - 1]);
            assert(complete[cut.len() - 1].expanded);
        } else {
            lemma_run_unique(d, adj, start, rule, complete, cut, complete.len() as int);
            assert(complete.take(complete.len() as int) =~= complete);
            lemma_run_prefix(d, adj, start, cut, complete.len() as int);
        }
    }
}

/// The first step of a run serves the head of the start, and the steps
/// behind it are a run from what the first step leaves pending.
pub proof fn lemma_run_shift(
    d: Discipline,
    adj: Seq<Seq<usize>>,
    start: Seq<Visit>,
    trace: Seq<Step>,
)
    requires
        is_run(d, adj, start, trace),
        trace.len() > 0,
    ensures
        start.len() > 0,
        trace[0].visit == start[0],
        is_run(d, adj, pending_after(d, adj, start, trace[0].expanded), trace.drop_first()),
        pending_at(d, adj, pending_after(d, adj, start, trace[0].expanded), trace.drop_first())
            == pending_at(d, adj, start, trace),
    decreases trace.len(),
{
    if trace.len() == 1 {
        assert(trace.drop_last() =~= Seq::<Step>::empty());
        assert(trace.drop_first() =~= Seq::<Step>::empty());
        assert(trace.last() == trace[0]);
    } else {
        let front = trace.drop_last();
        assert(front[0] == trace[0]);
        lemma_run_shift(d, adj, start, front);
        assert(trace.drop_first().drop_last() =~= front.drop_first());
        assert(trace.drop_first().last() == trace.last());
    }
}

/// Two runs from the same start that follow the same rule take the same
/// steps, as far as both go.
pub proof fn lemma_run_unique(
    d: Discipline,
    adj: Seq<Seq<usize>>,
    start: Seq<Visit>,
    rule: spec_fn(Visit) -> bool,
    a: Seq<Step>,
    b: Seq<Step>,
    k: int,
)
    requires
        is_run(d, adj, start, a),
        is_run(d, adj, start, b),
        follows(rule, a),
        follows(rule, b),
        0 <= k <= a.len(),
        k <= b.len(),
    ensures
        a.take(k) == b.take(k),
    decreases k,
{
    if k == 0 {
        assert(a.take(0) =~= b.take(0));
    } else {
        lemma_run_unique(d, adj, start, rule, a, b, k - 1);
        lemma_run_prefix(d, adj, start, a, k - 1);
        lemma_run_prefix(d, adj, start, b, k - 1);
        assert(a[k - 1].visit == b[k - 1].visit);
        assert(a[k - 1].expanded == rule(a[k - 1].visit));
        assert(b[k - 1].expanded == rule(b[k - 1].visit));
        assert(a.take(k) =~= a.take(k - 1).push(a[k - 1]));
        assert(b.take(k) =~= b.take(k - 1).push(b[k - 1]));
    }
}

/// A rule allows one complete run from a start, and no other.
pub proof fn lemma_complete_run_unique(
    d: Discipline,
    adj: Seq<Seq<usize>>,
    start: Seq<Visit>,
    rule: spec_fn(Visit) -> bool,
    a: Seq<Step>,
    b: Seq<Step>,
)
    requires
        is_complete_run(d, adj, start, a),
        is_complete_run(d, adj, start, b),
        follows(rule, a),
        follows(rule, b),
    ensures
        a == b,
{
    if a.len() <= b.len() {
        lemma_run_unique(d, adj, start, rule, a, b, a.len() as int);
        assert(a.take(a.len() as int) =~= a);
        if a.len() < b.len() {
            lemma_run_prefix(d, adj, start, b, a.len() as int);
        }
        assert(b.take(b.len() as int) =~= b);
    } else {
        lemma_run_unique(d, adj, start, rule, b, a, b.len() as int);
        assert(b.take(b.len() as int) =~= b);
        lemma_run_prefix(d, adj, start, a, b.len() as int);
    }
}

/// The visit that a path stands for: of its last node, at the depth that
/// its length gives, reached from the node before the last.
pub open spec fn visit_of(path: Seq<usize>) -> Visit {
    Visit {
        depth: (path.len() - 1) as usize,
        node: path.last(),
        pred: if path.len() >= 2 {
            Some(path[path.len() - 2])
        } else {
            None
        },
    }
}

/// The step that a step over paths stands for.
pub open spec fn step_of(s: (Seq<usize>, bool)) -> Step {
    Step { visit: visit_of(s.0), expanded: s.1 }
}

/// The visits that pending paths stand for.
pub open spec fn visits_of(paths: Seq<Seq<usize>>) -> Seq<Visit> {
    paths.map_values(|p: Seq<usize>| visit_of(p))
}

/// The steps that a trace over paths stands for.
pub open spec fn steps_of_paths(trace: Seq<(Seq<usize>, bool)>) -> Seq<Step> {
    trace.map_values(|s: (Seq<usize>, bool)| step_of(s))
}

/// Every pending path is non-empty and no longer than `limit`.
spec fn paths_short(pending: Seq<Seq<usize>>, limit: usize) -> bool {
    forall|k: int| 0 <= k < pending.len() ==> 0 < (#[trigger] pending[k]).len() <= limit
}

/// The path seeds stand for the seeds.
proof fn lemma_path_seeds_visits(n: nat, starts: Seq<usize>)
    ensures
        visits_of(path_seeds(n, starts)) == seeds(n, starts),
        forall|k: int|
            0 <= k < path_seeds(n, starts).len() ==> (#[trigger] path_seeds(n, starts)[k]).len()
                == 1,
{
    assert(visits_of(path_seeds(n, starts)) =~= seeds(n, starts));
}

/// A run over paths that stays within a limit stands, step by step, for a
/// run over visits, and what it leaves pending for what that leaves pending.
proof fn lemma_path_run_visits(
    adj: Seq<Seq<usize>>,
    start: Seq<Seq<usize>>,
    trace: Seq<(Seq<usize>, bool)>,
    limit: usize,
)
    requires
        paths_short(start, limit),
        is_path_run(adj, start, trace),
        paths_within_limit(trace, limit),
    ensures
        is_run(Discipline::Fifo, adj, visits_of(start), steps_of_paths(trace)),
        pending_at(Discipline::Fifo, adj, visits_of(start), steps_of_paths(trace)) == visits_of(
            paths_at(adj, start, trace),
        ),
        paths_short(paths_at(adj, start, trace), limit),
    decreases trace.len(),
{
    let steps = steps_of_paths(trace);
    if trace.len() == 0 {
        assert(steps =~= Seq::<Step>::empty());
    } else {
        let front = trace.drop_last();
        assert forall|k: int| 0 <= k < front.len() && (#[trigger] front[k]).1 implies front[k].0.len()
            < limit by {
            assert(front[k] == trace[k]);
        }
        lemma_path_run_visits(adj, start, front, limit);
        assert(steps.drop_last() =~= steps_of_paths(front));
        assert(steps.last() == step_of(trace.last()));
        let before = paths_at(adj, start, front);
        let head = before[0];
        assert(visits_of(before)[0] == visit_of(head));
        let after = paths_after(adj, before, trace.last().1);
        assert(trace[trace.len() - 1].1 ==> trace.last().0.len() < limit);
        // the extensions of the head stand for the successors of its visit
        if trace.last().1 {
            let kids = path_children(adj, head);
            assert(visits_of(kids) =~= children(adj, visit_of(head))) by {
                if head.last() < adj.len() {
                    assert forall|j: int| 0 <= j < kids.len() implies visit_of(
                        #[trigger] kids[j],
                    ) == child(visit_of(head), adj[head.last() as int][j]) by {
                        let c = adj[head.last() as int][j];
                        assert(kids[j] == head.push(c));
                    }
                }
            }
            assert(visits_of(after) =~= visits_of(before).drop_first() + visits_of(kids));
            assert forall|k: int| 0 <= k < after.len() implies 0 < (#[trigger] after[k]).len()
                <= limit by {
                if k < before.len() - 1 {
                    assert(after[k] == before[k + 1]);
                } else {
                    let c = adj[head.last() as int][k - (before.len() - 1)];
                    assert(after[k] == head.push(c));
                }
            }
        } else {
            assert(visits_of(after) =~= visits_of(before).drop_first());
            assert forall|k: int| 0 <= k < after.len() implies 0 < (#[trigger] after[k]).len()
                <= limit by {
                assert(after[k] == before[k + 1]);
            }
        }
    }
}

/// The path traversal visits as the breadth-first traversal does: the
/// steps of a run over paths from the start indices, each path taken as the
/// visit of its last node, are a run over visits from the same start
/// indices, and where the one is complete, so is the other.
pub proof fn lemma_path_run_is_run(
    adj: Seq<Seq<usize>>,
    starts: Seq<usize>,
    trace: Seq<(Seq<usize>, bool)>,
    limit: usize,
)
    requires
        limit >= 1,
        is_path_run(adj, path_seeds(adj.len(), starts), trace),
        paths_within_limit(trace, limit),
    ensures
        is_run(Discipline::Fifo, adj, seeds(adj.len(), starts), steps_of_paths(trace)),
        paths_at(adj, path_seeds(adj.len(), starts), trace).len() == 0 ==> is_complete_run(
            Discipline::Fifo,
            adj,
            seeds(adj.len(), starts),
            steps_of_paths(trace),
        ),
{
    let start = path_seeds(adj.len(), starts);
    lemma_path_seeds_visits(adj.len(), starts);
    assert(paths_short(start, limit));
    lemma_path_run_visits(adj, start, trace, limit);
}

/// `path` is a path of the graph from one of `starts`: it begins at a start
/// index, holds nodes of the graph, and an edge leads from each to the next.
pub open spec fn is_path_from(adj: Seq<Seq<usize>>, starts: Seq<usize>, path: Seq<usize>) -> bool {
    &&& path.len() > 0
    &&& starts.contains(path[0])
    &&& forall|j: int| 0 <= j < path.len() ==> (#[trigger] path[j]) < adj.len()
    &&& forall|j: int|
        0 <= j < path.len() - 1 ==> adj[(#[trigger] path[j]) as int].contains(path[j + 1])
}

/// Every pending path is a path of the graph from one of `starts`.
spec fn paths_from(adj: Seq<Seq<usize>>, starts: Seq<usize>, pending: Seq<Seq<usize>>) -> bool {
    forall|k: int| 0 <= k < pending.len() ==> is_path_from(adj, starts, #[trigger] pending[k])
}

/// The path seeds are paths of one node, a start index of the graph.
proof fn lemma_path_seeds_from(adj: Seq<Seq<usize>>, starts: Seq<usize>)
    ensures
        paths_from(adj, starts, path_seeds(adj.len(), starts)),
{
    let n = adj.len();
    let kept = starts.filter(|s: usize| s < n);
    let all = path_seeds(n, starts);
    assert forall|k: int| 0 <= k < all.len() implies is_path_from(adj, starts, #[trigger] all[k]) by {
        starts.lemma_filter_pred(|s: usize| s < n, k);
        assert(kept.contains(kept[k]));
        starts.lemma_filter_contains_rev(|s: usize| s < n, kept[k]);
        assert(all[k] =~= seq![kept[k]]);
    }
}

/// What a run over paths leaves pending, and every path that it hands out,
/// is a path of the graph from one of the start indices.
proof fn lemma_path_run_from(
    adj: Seq<Seq<usize>>,
    starts: Seq<usize>,
    start: Seq<Seq<usize>>,
    trace: Seq<(Seq<usize>, bool)>,
)
    requires
        forall|i: int, k: int|
            0 <= i < adj.len() && 0 <= k < adj[i].len() ==> (#[trigger] adj[i][k]) < adj.len(),
        paths_from(adj, starts, start),
        is_path_run(adj, start, trace),
    ensures
        paths_from(adj, starts, paths_at(adj, start, trace)),
        forall|k: int| 0 <= k < trace.len() ==> is_path_from(adj, starts, (#[trigger] trace[k]).0),
    decreases trace.len(),
{
    if trace.len() > 0 {
        let front = trace.drop_last();
        lemma_path_run_from(adj, starts, start, front);
        let before = paths_at(adj, start, front);
        let head = before[0];
        let after = paths_after(adj, before, trace.last().1);
        assert(is_path_from(adj, starts, before[0]));
        assert forall|k: int| 0 <= k < trace.len() implies is_path_from(
            adj,
            starts,
            (#[trigger] trace[k]).0,
        ) by {
            if k < front.len() {
                assert(trace[k] == front[k]);
            }
        }
        assert forall|k: int| 0 <= k < after.len() implies is_path_from(
            adj,
            starts,
            #[trigger] after[k],
        ) by {
            if k < before.len() - 1 {
                assert(after[k] == before[k + 1]);
            } else {
                let list = adj[head.last() as int];
                let c = list[k - (before.len() - 1)];
                assert(after[k] == head.push(c));
                assert(list.contains(c));
                let longer = head.push(c);
                assert forall|j: int| 0 <= j < longer.len() implies (#[trigger] longer[j])
                    < adj.len() by {
                    if j < head.len() {
                        assert(longer[j] == head[j]);
                    } else {
                        assert(longer[j] == list[k - (before.len() - 1)]);
                    }
                }
                assert forall|j: int| 0 <= j < longer.len() - 1 implies adj[(
                #[trigger] longer[j]) as int].contains(longer[j + 1]) by {
                    if j < head.len() - 1 {
                        assert(longer[j] == head[j]);
                        assert(longer[j + 1] == head[j + 1]);
                    }
                }
            }
        }
    }
}

/// Every call of the path traversal is for a path: each path that a run
/// from the start indices hands out begins at a start index and follows the
/// edges of the graph.
pub proof fn lemma_path_run_paths(
    adj: Seq<Seq<usize>>,
    starts: Seq<usize>,
    trace: Seq<(Seq<usize>, bool)>,
)
    requires
        forall|i: int, k: int|
            0 <= i < adj.len() && 0 <= k < adj[i].len() ==> (#[trigger] adj[i][k]) < adj.len(),
        is_path_run(adj, path_seeds(adj.len(), starts), trace),
    ensures
        forall|k: int| 0 <= k < trace.len() ==> is_path_from(adj, starts, (#[trigger] trace[k]).0),
{
    lemma_path_seeds_from(adj, starts);
    lemma_path_run_from(adj, starts, path_seeds(adj.len(), starts), trace);
}

/// The breadth-first traversal makes one call for each path of the path
/// traversal: complete runs of the two from the same start indices, the one
/// following a rule on visits and the other the same rule on the visits
/// that its paths stand for, have the same number of steps, and each visit
/// is the one that the path at its place stands for.
pub proof fn lemma_calls_are_paths(
    adj: Seq<Seq<usize>>,
    rule: spec_fn(Visit) -> bool,
    starts: Seq<usize>,
    visits: Seq<Step>,
    paths: Seq<(Seq<usize>, bool)>,
    limit: usize,
)
    requires
        forall|i: int, k: int|
            0 <= i < adj.len() && 0 <= k < adj[i].len() ==> (#[trigger] adj[i][k]) < adj.len(),
        is_complete_run(Discipline::Fifo, adj, seeds(adj.len(), starts), visits),
        follows(rule, visits),
        is_path_run(adj, path_seeds(adj.len(), starts), paths),
        paths_at(adj, path_seeds(adj.len(), starts), paths).len() == 0,
        path_follows(|p: Seq<usize>| rule(visit_of(p)), paths),
        paths_within_limit(paths, limit),
    ensures
        visits == steps_of_paths(paths),
        visits.len() == paths.len(),
        forall|k: int| 0 <= k < paths.len() ==> is_path_from(adj, starts, (#[trigger] paths[k]).0),
{
    let bound: usize = if limit == 0 {
        1
    } else {
        limit
    };
    assert(paths_within_limit(paths, bound));
    lemma_path_run_is_run(adj, starts, paths, bound);
    lemma_path_run_paths(adj, starts, paths);
    let steps = steps_of_paths(paths);
    assert forall|k: int| 0 <= k < steps.len() implies (#[trigger] steps[k]).expanded == rule(
        steps[k].visit,
    ) by {
        assert(steps[k] == step_of(paths[k]));
    }
    lemma_complete_run_unique(
        Discipline::Fifo,
        adj,
        seeds(adj.len(), starts),
        rule,
        visits,
        steps,
    );
}

} // verus!
