use depq::bfs::{bfs, bfs_path};
use depq::dfs::dfs;
use depq::graph::{Edge, Graph};
use depq::tsort::tsort;
use std::cell::RefCell;
use std::collections::{HashMap, HashSet, VecDeque};

// A plain model of the graph and of its algorithms, on maps and with
// mutable callbacks, to hold the library against on many small graphs.

struct Plain {
    values: Vec<String>,
    deps: HashMap<usize, Vec<usize>>,
}

fn plain(edges: &[(String, String)]) -> Plain {
    let mut seen: HashMap<String, usize> = HashMap::new();
    let mut values: Vec<String> = Vec::new();
    let mut deps: HashMap<usize, Vec<usize>> = HashMap::new();
    for (from, to) in edges {
        let mut ends = [0usize; 2];
        for (k, end) in [from, to].into_iter().enumerate() {
            ends[k] = match seen.get(end) {
                Some(i) => *i,
                None => {
                    let i = values.len();
                    seen.insert(end.clone(), i);
                    values.push(end.clone());
                    i
                }
            };
        }
        deps.entry(ends[0]).or_default().push(ends[1]);
    }
    Plain { values, deps }
}

impl Plain {
    fn roots(&self) -> Vec<usize> {
        let mut seen: HashSet<usize> = HashSet::new();
        for list in self.deps.values() {
            seen.extend(list.iter());
        }
        let mut roots: Vec<usize> = (0..self.values.len()).filter(|i| !seen.contains(i)).collect();
        roots.sort();
        roots
    }

    fn edges(&self) -> Vec<(String, String)> {
        let mut out = Vec::new();
        for (from, value) in self.values.iter().enumerate() {
            if let Some(list) = self.deps.get(&from) {
                for to in list {
                    out.push((value.clone(), self.values[*to].clone()));
                }
            }
        }
        out
    }

    fn inverted(&self) -> Plain {
        let swapped: Vec<(String, String)> =
            self.edges().into_iter().map(|(a, b)| (b, a)).collect();
        plain(&swapped)
    }

    fn remapped(&self, values: &[String]) -> Plain {
        let index: HashMap<&String, usize> =
            values.iter().enumerate().map(|(i, v)| (v, i)).collect();
        let deps = self
            .deps
            .iter()
            .map(|(k, list)| {
                (
                    index[&self.values[*k]],
                    list.iter().map(|t| index[&self.values[*t]]).collect(),
                )
            })
            .collect();
        Plain { values: values.to_vec(), deps }
    }

    fn bfs(&self, starts: &[usize], mut f: impl FnMut(usize, usize, Option<usize>) -> bool) {
        let mut queue: VecDeque<(usize, usize, Option<usize>)> = starts
            .iter()
            .filter(|i| **i < self.values.len())
            .map(|i| (0, *i, None))
            .collect();
        while let Some(x) = queue.pop_front() {
            if !f(x.0, x.1, x.2) {
                continue;
            }
            if let Some(nexts) = self.deps.get(&x.1) {
                queue.extend(nexts.iter().map(|next| (x.0 + 1, *next, Some(x.1))));
            }
        }
    }

    fn bfs_path(&self, starts: &[usize], mut f: impl FnMut(&[usize]) -> bool) {
        let mut queue: VecDeque<(Vec<usize>, usize)> = starts
            .iter()
            .filter(|i| **i < self.values.len())
            .map(|i| (vec![], *i))
            .collect();
        while let Some(x) = queue.pop_front() {
            let mut path = x.0.clone();
            path.push(x.1);
            if !f(path.as_slice()) {
                continue;
            }
            if let Some(nexts) = self.deps.get(&x.1) {
                queue.extend(nexts.iter().map(|next| (path.clone(), *next)));
            }
        }
    }

    fn dfs(&self, starts: &[usize], mut f: impl FnMut(usize, usize, Option<usize>) -> bool) {
        let mut stack: Vec<(usize, usize, Option<usize>)> = starts
            .iter()
            .filter(|i| **i < self.values.len())
            .map(|i| (0, *i, None))
            .collect();
        stack.reverse();
        while let Some(x) = stack.pop() {
            if !f(x.0, x.1, x.2) {
                continue;
            }
            if let Some(nexts) = self.deps.get(&x.1) {
                stack.extend(nexts.iter().map(|next| (x.0 + 1, *next, Some(x.1))).rev());
            }
        }
    }

    fn tsort(&self, mut f: impl FnMut(usize)) -> Result<(), HashSet<usize>> {
        let mut deps = self.deps.clone();
        let mut rdeps = self.inverted().remapped(&self.values).deps;
        let mut stack = self.roots();
        stack.reverse();
        stack.retain(|v| !rdeps.contains_key(v));
        while let Some(n) = stack.pop() {
            f(n);
            let Some(ts) = deps.remove(&n) else {
                continue;
            };
            for t in ts.iter().rev() {
                let Some(fs) = rdeps.get_mut(t) else {
                    continue;
                };
                fs.retain(|&v| v != n);
                if fs.is_empty() {
                    rdeps.remove(t);
                    stack.push(*t);
                }
            }
        }
        if deps.is_empty() {
            Ok(())
        } else {
            Err(deps.keys().copied().collect())
        }
    }
}

struct Dice(u64);

impl Dice {
    fn roll(&mut self, sides: usize) -> usize {
        self.0 = self.0.wrapping_mul(6364136223846793005).wrapping_add(1442695040888963407);
        ((self.0 >> 33) as usize) % sides
    }
}

fn random_edges(dice: &mut Dice, acyclic: bool) -> Vec<(String, String)> {
    let nodes = 1 + dice.roll(7);
    let count = dice.roll(14);
    let mut edges = Vec::new();
    for _ in 0..count {
        let mut a = dice.roll(nodes);
        let mut b = dice.roll(nodes);
        if acyclic {
            if a == b {
                continue;
            }
            if a > b {
                std::mem::swap(&mut a, &mut b);
            }
        }
        edges.push((format!("v{}", a), format!("v{}", b)));
    }
    edges
}

fn library(edges: &[(String, String)]) -> Graph {
    Graph::from_iter(edges.iter().map(|(a, b)| Edge(a.clone(), b.clone())).collect())
}

fn pairs(edges: Vec<Edge>) -> Vec<(String, String)> {
    edges.into_iter().map(|e| (e.0, e.1)).collect()
}

#[test]
fn the_graph_agrees_with_the_plain_model() {
    let mut dice = Dice(7);
    for round in 0..300 {
        let edges = random_edges(&mut dice, round % 2 == 0);
        let model = plain(&edges);
        let graph = library(&edges);
        assert_eq!(graph.values(), &model.values);
        assert_eq!(graph.forward_deps(), model.deps);
        assert_eq!(graph.find_roots(), model.roots());
        assert_eq!(pairs(graph.to_edges()), model.edges());
        let inverted = graph.invert();
        let inverted_model = model.inverted();
        assert_eq!(inverted.values(), &inverted_model.values);
        assert_eq!(inverted.forward_deps(), inverted_model.deps);
        let back = inverted.remap(model.values.clone()).unwrap();
        assert_eq!(back.forward_deps(), inverted_model.remapped(&model.values).deps);
        assert_eq!(graph.reversed().forward_deps(), back.forward_deps());
    }
}

#[test]
fn the_traversals_agree_with_the_plain_model() {
    let mut dice = Dice(11);
    for round in 0..300 {
        let edges = random_edges(&mut dice, round % 3 == 0);
        let model = plain(&edges);
        let graph = library(&edges);
        let starts = [dice.roll(9), dice.roll(9), dice.roll(9)];
        let bound = 1 + dice.roll(4);
        let skip = dice.roll(9);
        let rule = |depth: usize, node: usize| depth + 1 < bound && node != skip;

        let expected = RefCell::new(Vec::new());
        model.bfs(&starts, |d, n, p| {
            expected.borrow_mut().push((d, n, p, rule(d, n)));
            rule(d, n)
        });
        let trace = bfs(&graph, &starts, usize::MAX, |d, n, _| rule(d, n)).unwrap();
        let got: Vec<_> =
            trace.iter().map(|s| (s.visit.depth, s.visit.node, s.visit.pred, s.expanded)).collect();
        assert_eq!(got, *expected.borrow());

        let expected = RefCell::new(Vec::new());
        model.dfs(&starts, |d, n, p| {
            expected.borrow_mut().push((d, n, p, rule(d, n)));
            rule(d, n)
        });
        let trace = dfs(&graph, &starts, usize::MAX, |d, n, _| rule(d, n)).unwrap();
        let got: Vec<_> =
            trace.iter().map(|s| (s.visit.depth, s.visit.node, s.visit.pred, s.expanded)).collect();
        assert_eq!(got, *expected.borrow());

        let expected = RefCell::new(Vec::new());
        model.bfs_path(&starts, |path| {
            let go = rule(path.len() - 1, path[path.len() - 1]);
            expected.borrow_mut().push((path.to_vec(), go));
            go
        });
        let trace = bfs_path(&graph, &starts, usize::MAX, |path| {
            rule(path.len() - 1, path[path.len() - 1])
        })
        .unwrap();
        let got: Vec<_> = trace.into_iter().map(|s| (s.path, s.expanded)).collect();
        assert_eq!(got, *expected.borrow());
    }
}

#[test]
fn the_sort_agrees_with_the_plain_model() {
    let mut dice = Dice(13);
    let mut sorted = 0;
    let mut stuck = 0;
    for round in 0..400 {
        let edges = random_edges(&mut dice, round % 2 == 0);
        let model = plain(&edges);
        let graph = library(&edges);
        let mut expected = Vec::new();
        let outcome = model.tsort(|n| expected.push(n));
        match tsort(&graph, |_| ()) {
            Ok(order) => {
                assert_eq!(outcome, Ok(()));
                assert_eq!(order, expected);
                sorted += 1;
            }
            Err(cycle) => {
                // the model keeps the nodes whose edges it did not resolve;
                // the residual is every node that was not emitted
                let unresolved = outcome.unwrap_err();
                assert!(unresolved.is_subset(&cycle.residual));
                let left: HashSet<usize> =
                    (0..graph.len()).filter(|n| !expected.contains(n)).collect();
                assert_eq!(cycle.residual, left);
                assert_eq!(cycle.emitted, expected);
                stuck += 1;
            }
        }
    }
    assert!(sorted > 50);
    assert!(stuck > 50);
}
