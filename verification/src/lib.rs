//! Structural queries over a directed graph given as an edge list: its
//! roots, breadth-first and depth-first traversals, the inverted graph, and
//! a topological order or the cycle that prevents one.
//!
//! The graph interns its values in first-seen order and works on indices.
//! The functions state what they return over the mathematical model of the
//! graph, `GraphView`, and the statements are proved. The calls into
//! `serde_json` and `itertools`, and the path handling of the standard
//! library, stand behind small functions whose contracts are taken on
//! trust; each says so.

pub mod bfs;
pub mod depth;
pub mod dfs;
pub mod dot;
pub mod format;
pub mod graph;
pub mod json;
pub mod levels;
pub mod order;
pub mod preorder;
pub mod report;
pub mod roundtrip;
pub mod strings;
pub mod text;
pub mod traverse;
pub mod tsort;

