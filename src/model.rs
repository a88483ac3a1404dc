//! The mathematical model of a graph: for each node, the sequence of the
//! targets of its outgoing edges, in the order they were added.

use vstd::prelude::*;

verus! {

/// Every edge target names a node of the graph.
pub open spec fn graph_wf(g: Seq<Seq<usize>>) -> bool {
    forall|i: int, j: int| 0 <= i < g.len() && 0 <= j < g[i].len() ==> (g[i][j] as int) < g.len()
}

/// `p` is a non-empty walk along outgoing edges.
pub open spec fn is_path(g: Seq<Seq<usize>>, p: Seq<usize>) -> bool {
    &&& p.len() > 0
    &&& forall|k: int| 0 <= k < p.len() ==> (p[k] as int) < g.len()
    &&& forall|k: int| 0 <= k < p.len() - 1 ==> g[p[k] as int].contains(#[trigger] p[k + 1])
}

/// `n` can be reached from `s` by following zero or more outgoing edges.
pub open spec fn reachable(g: Seq<Seq<usize>>, s: usize, n: usize) -> bool {
    exists|p: Seq<usize>| #[trigger] is_path(g, p) && p[0] == s && p.last() == n
}

/// The set of nodes reachable from `s`.
pub open spec fn reach_set(g: Seq<Seq<usize>>, s: usize) -> Set<usize> {
    Set::new(|n: usize| reachable(g, s, n))
}

/// `v` lists each node reachable from `s` exactly once, starting with `s`.
pub open spec fn is_traversal(g: Seq<Seq<usize>>, s: usize, v: Seq<usize>) -> bool {
    &&& v.no_duplicates()
    &&& v.len() > 0
    &&& v[0] == s
    &&& forall|n: usize| v.contains(n) <==> reachable(g, s, n)
}

/// `u` lists distinct nodes reachable from `s`, starting with `s`: the
/// beginning of a traversal, in some order.
pub open spec fn is_partial_traversal(g: Seq<Seq<usize>>, s: usize, u: Seq<usize>) -> bool {
    &&& u.no_duplicates()
    &&& u.len() > 0
    &&& u[0] == s
    &&& forall|k: int| 0 <= k < u.len() ==> reachable(g, s, #[trigger] u[k])
}

/// The outgoing edges of `n`, as (source, destination) pairs, in insertion order.
pub open spec fn out_pairs(g: Seq<Seq<usize>>, n: usize) -> Seq<(usize, usize)> {
    g[n as int].map_values(|w: usize| (n, w))
}

/// The outgoing edges of the nodes of `v`, node after node.
pub open spec fn edges_out(g: Seq<Seq<usize>>, v: Seq<usize>) -> Seq<(usize, usize)>
    decreases v.len(),
{
    if v.len() == 0 {
        Seq::empty()
    } else {
        edges_out(g, v.drop_last()) + out_pairs(g, v.last())
    }
}

/// The number of edges in the whole graph.
pub open spec fn total_edges(g: Seq<Seq<usize>>) -> nat
    decreases g.len(),
{
    if g.len() == 0 {
        0
    } else {
        total_edges(g.drop_last()) + g.last().len()
    }
}

/// Changing the edge list of one node changes the edge total by the difference in length.
pub proof fn lemma_total_edges_update(g: Seq<Seq<usize>>, i: int, e: Seq<usize>)
    requires
        0 <= i < g.len(),
    ensures
        total_edges(g.update(i, e)) == total_edges(g) - g[i].len() + e.len(),
    decreases g.len(),
{
    let h = g.update(i, e);
    if i == g.len() - 1 {
        assert(h.drop_last() =~= g.drop_last());
    } else {
        assert(h.drop_last() =~= g.drop_last().update(i, e));
        lemma_total_edges_update(g.drop_last(), i, e);
    }
}

} // verus!
