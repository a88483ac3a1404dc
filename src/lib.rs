//! A directed graph with cyclic, many-to-many edges. All nodes live in one
//! `AccessToken`, which is the single credential for reading or changing them:
//! a shared borrow of the token allows any number of readers, a mutable borrow
//! allows exactly one writer. Nodes are named by plain indices, which callers
//! may copy and hold as long as they like.

mod model;
mod graph;
mod traversal;
mod edges;
mod laws;

pub use model::{graph_wf, is_path, reachable, reach_set, is_traversal, is_partial_traversal, out_pairs, edges_out, total_edges};
pub use graph::{Node, AccessToken, add_edge};
pub use traversal::{bfs, count};
pub use edges::{EdgeIter, iter_edges};
pub use laws::{lemma_edge_walk_bounded, lemma_parallel_edges, lemma_parallel_edges_added, lemma_self_loop, lemma_two_cycle};
