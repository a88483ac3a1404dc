//! Lazy enumeration of the edges out of every node reachable from a start node.

use vstd::prelude::*;
use crate::model::{graph_wf, reachable, is_traversal, is_partial_traversal, out_pairs, edges_out, total_edges};
use crate::graph::AccessToken;
use crate::traversal::{walk_inv, start_walk, push_unvisited, lemma_pop, lemma_after_schedule, lemma_walk_done};

verus! {

/// Taking one node out of `v` takes its edges out of the enumeration.
proof fn lemma_edges_out_len_remove(g: Seq<Seq<usize>>, v: Seq<usize>, i: int)
    requires
        0 <= i < v.len(),
        forall|k: int| 0 <= k < v.len() ==> (v[k] as int) < g.len(),
    ensures
        edges_out(g, v).len() == edges_out(g, v.remove(i)).len() + g[v[i] as int].len(),
    decreases v.len(),
{
    let u = v.remove(i);
    if i == v.len() - 1 {
        assert(u =~= v.drop_last());
    } else {
        assert(u.drop_last() =~= v.drop_last().remove(i));
        assert(u.last() == v.last());
        lemma_edges_out_len_remove(g, v.drop_last(), i);
    }
}

/// Nodes that lie below the last node see the same edges once the last node is dropped.
proof fn lemma_edges_out_len_shrink(g: Seq<Seq<usize>>, v: Seq<usize>)
    requires
        g.len() > 0,
        forall|k: int| 0 <= k < v.len() ==> (v[k] as int) < g.len() - 1,
    ensures
        edges_out(g, v).len() == edges_out(g.drop_last(), v).len(),
    decreases v.len(),
{
    if v.len() > 0 {
        lemma_edges_out_len_shrink(g, v.drop_last());
        assert(g.drop_last()[v.last() as int] == g[v.last() as int]);
    }
}

/// Distinct nodes have, together, no more outgoing edges than the whole graph.
pub proof fn lemma_edges_out_bounded(g: Seq<Seq<usize>>, v: Seq<usize>)
    requires
        v.no_duplicates(),
        forall|k: int| 0 <= k < v.len() ==> (v[k] as int) < g.len(),
    ensures
        edges_out(g, v).len() <= total_edges(g),
    decreases g.len(),
{
    if g.len() == 0 {
        if v.len() > 0 {
            assert((v[0] as int) < 0);
        }
    } else {
        let last = g.len() - 1;
        assert(total_edges(g) == total_edges(g.drop_last()) + g.last().len());
        if exists|i: int| 0 <= i < v.len() && v[i] == last {
            let i = choose|i: int| 0 <= i < v.len() && v[i] == last;
            assert(g[v[i] as int] == g.last());
            let u = v.remove(i);
            lemma_edges_out_len_remove(g, v, i);
            assert forall|k: int| 0 <= k < u.len() implies (u[k] as int) < g.len() - 1 by {
                if k < i {
                    assert(u[k] == v[k] && k != i);
                } else {
                    assert(u[k] == v[k + 1] && k + 1 != i);
                }
            }
            assert(u.no_duplicates()) by {
                assert forall|a: int, b: int| 0 <= a < u.len() && 0 <= b < u.len() && a != b implies u[a] != u[b] by {
                    let a2 = if a < i { a } else { a + 1 };
                    let b2 = if b < i { b } else { b + 1 };
                    assert(u[a] == v[a2] && u[b] == v[b2]);
                }
            }
            lemma_edges_out_len_shrink(g, u);
            lemma_edges_out_bounded(g.drop_last(), u);
        } else {
            assert forall|k: int| 0 <= k < v.len() implies (v[k] as int) < g.len() - 1 by {
                assert(v[k] != last);
            }
            lemma_edges_out_len_shrink(g, v);
            lemma_edges_out_bounded(g.drop_last(), v);
        }
    }
}

/// A walk over the edges out of the nodes reachable from a start node. Each
/// call of `next` hands out one (source, destination) pair: the edges of the
/// node on top of the stack one by one, then that node leaves the stack and
/// its targets not seen before are pushed.
pub struct EdgeIter {
    start: usize,
    node_stack: Vec<usize>,
    visited: Vec<bool>,
    cursor: usize,
    graph: Ghost<Seq<Seq<usize>>>,
    order: Ghost<Seq<usize>>,
    emitted: Ghost<Seq<(usize, usize)>>,
}

impl EdgeIter {
    /// The graph being walked.
    pub closed spec fn graph(&self) -> Seq<Seq<usize>> {
        self.graph@
    }

    /// The node the walk started from.
    pub closed spec fn start(&self) -> usize {
        self.start
    }

    /// The pairs handed out so far, in order.
    pub closed spec fn emitted(&self) -> Seq<(usize, usize)> {
        self.emitted@
    }

    /// The pairs handed out are the edges of the nodes already left behind,
    /// then a prefix of the edges of the node on top of the stack.
    pub closed spec fn wf(&self) -> bool {
        let g = self.graph@;
        let stack = self.node_stack@;
        &&& walk_inv(g, self.start, self.visited@, stack, self.order@)
        &&& stack.len() > 0 ==> {
            &&& self.cursor <= g[stack.last() as int].len()
            &&& self.emitted@ == edges_out(g, self.order@) + out_pairs(g, stack.last()).take(self.cursor as int)
        }
        &&& stack.len() == 0 ==> self.emitted@ == edges_out(g, self.order@)
    }

    /// Everything handed out so far lies within the graph's edge total.
    proof fn lemma_emitted_bounded(&self)
        requires
            self.wf(),
        ensures
            self.emitted().len() <= total_edges(self.graph()),
    {
        let g = self.graph@;
        let stack = self.node_stack@;
        if stack.len() > 0 {
            lemma_pop(g, self.start, self.visited@, stack, self.order@);
            let o2 = self.order@.push(stack.last());
            assert(o2.drop_last() =~= self.order@);
            lemma_edges_out_bounded(g, o2);
        } else {
            lemma_edges_out_bounded(g, self.order@);
        }
    }

    /// What was handed out so far begins the edges out of distinct reachable
    /// nodes, the start node first.
    proof fn lemma_emitted_prefix(&self)
        requires
            self.wf(),
        ensures
            exists|u: Seq<usize>| #[trigger] is_partial_traversal(self.graph(), self.start(), u)
                && self.emitted().is_prefix_of(edges_out(self.graph(), u)),
    {
        let g = self.graph@;
        let s = self.start;
        let stack = self.node_stack@;
        let order = self.order@;
        if stack.len() > 0 {
            lemma_pop(g, s, self.visited@, stack, order);
            let u = order.push(stack.last());
            assert(u.drop_last() =~= order);
            assert forall|k: int| 0 <= k < u.len() implies reachable(g, s, #[trigger] u[k]) by {
                if k < order.len() {
                    assert(u[k] == order[k]);
                    assert((order[k] as int) < g.len() && self.visited@[order[k] as int]);
                }
            }
            assert(is_partial_traversal(g, s, u));
            assert(edges_out(g, u) == edges_out(g, order) + out_pairs(g, stack.last()));
            assert(self.emitted@.len() <= edges_out(g, u).len());
            assert(self.emitted@ =~= edges_out(g, u).subrange(0, self.emitted@.len() as int));
            assert(self.emitted@.is_prefix_of(edges_out(g, u)));
            assert(is_partial_traversal(self.graph(), self.start(), u));
        } else {
            assert(order.len() > 0);
            assert forall|k: int| 0 <= k < order.len() implies reachable(g, s, #[trigger] order[k]) by {
                assert((order[k] as int) < g.len() && self.visited@[order[k] as int]);
            }
            assert(is_partial_traversal(g, s, order));
            assert(self.emitted@ =~= edges_out(g, order).subrange(0, self.emitted@.len() as int));
            assert(self.emitted@.is_prefix_of(edges_out(g, order)));
            assert(is_partial_traversal(self.graph(), self.start(), order));
        }
    }

    /// The next edge, or `None` once every edge out of every reachable node
    /// has been handed out.
    pub fn next(&mut self, token: &AccessToken) -> (r: Option<(usize, usize)>)
        requires
            old(self).wf(),
            token.wf(),
            token@ == old(self).graph(),
        ensures
            final(self).wf(),
            final(self).graph() == old(self).graph(),
            final(self).start() == old(self).start(),
            final(self).emitted().len() <= total_edges(final(self).graph()),
            exists|u: Seq<usize>| #[trigger] is_partial_traversal(old(self).graph(), old(self).start(), u)
                && final(self).emitted().is_prefix_of(edges_out(old(self).graph(), u)),
            match r {
                Some(e) => final(self).emitted() == old(self).emitted().push(e),
                None => {
                    &&& final(self).emitted() == old(self).emitted()
                    &&& exists|v: Seq<usize>| #[trigger] is_traversal(old(self).graph(), old(self).start(), v)
                        && final(self).emitted() == edges_out(old(self).graph(), v)
                },
            },
    {
        let ghost g = self.graph@;
        loop
            invariant
                self.wf(),
                token.wf(),
                token@ == g,
                g == old(self).graph(),
                self.graph@ == g,
                self.start == old(self).start(),
                self.emitted() == old(self).emitted(),
            decreases g.len() - self.order@.len(),
        {
            if self.node_stack.len() == 0 {
                proof {
                    assert(self.node_stack@ =~= Seq::<usize>::empty());
                    lemma_walk_done(g, self.start, self.visited@, self.order@);
                    self.lemma_emitted_bounded();
                    self.lemma_emitted_prefix();
                }
                return None;
            }
            let current = self.node_stack[self.node_stack.len() - 1];
            assert(current == self.node_stack@.last());
            assert((self.node_stack@[self.node_stack.len() - 1] as int) < g.len());
            let outs = token.outgoing(current);
            proof {
                lemma_pop(g, self.start, self.visited@, self.node_stack@, self.order@);
            }
            if self.cursor < outs.len() {
                let e = (current, outs[self.cursor]);
                let ghost prefix = out_pairs(g, current).take(self.cursor as int);
                proof {
                    assert(out_pairs(g, current).take(self.cursor + 1) =~= prefix.push(e));
                }
                self.cursor = self.cursor + 1;
                self.emitted = Ghost(self.emitted@.push(e));
                proof {
                    self.lemma_emitted_bounded();
                    self.lemma_emitted_prefix();
                }
                return Some(e);
            }
            let ghost visited0 = self.visited@;
            let ghost stack0 = self.node_stack@;
            let ghost order0 = self.order@;
            self.node_stack.pop();
            assert(self.node_stack@ == stack0.drop_last());
            self.cursor = 0;
            self.order = Ghost(order0.push(current));
            push_unvisited(outs, &mut self.visited, &mut self.node_stack, Ghost(g), Ghost(self.start), Ghost(current));
            proof {
                lemma_after_schedule(g, self.start, visited0, stack0, order0, self.visited@, self.node_stack@);
                assert(out_pairs(g, current).take(outs.len() as int) =~= out_pairs(g, current));
                assert(self.order@.drop_last() == order0);
                assert(self.emitted@ == edges_out(g, self.order@));
                if self.node_stack.len() > 0 {
                    assert(self.emitted@ =~= edges_out(g, self.order@) + out_pairs(g, self.node_stack@.last()).take(0));
                }
            }
        }
    }

    /// Hands out every remaining edge, in order.
    pub fn collect_edges(self, token: &AccessToken) -> (r: Vec<(usize, usize)>)
        requires
            self.wf(),
            token.wf(),
            token@ == self.graph(),
        ensures
            exists|v: Seq<usize>| #[trigger] is_traversal(self.graph(), self.start(), v)
                && self.emitted() + r@ == edges_out(self.graph(), v),
    {
        let ghost g = self.graph();
        let mut it = self;
        let mut out: Vec<(usize, usize)> = Vec::new();
        proof {
            it.lemma_emitted_bounded();
        }
        loop
            invariant
                it.wf(),
                token.wf(),
                token@ == g,
                g == self.graph(),
                it.graph() == g,
                it.start() == self.start(),
                it.emitted() == self.emitted() + out@,
                it.emitted().len() <= total_edges(g),
            decreases total_edges(g) - it.emitted().len(),
        {
            match it.next(token) {
                Some(e) => {
                    out.push(e);
                    assert(it.emitted() =~= self.emitted() + out@);
                },
                None => {
                    return out;
                },
            }
        }
    }

    /// The number of edges still to come.
    pub fn count(self, token: &AccessToken) -> (r: usize)
        requires
            self.wf(),
            token.wf(),
            token@ == self.graph(),
        ensures
            exists|v: Seq<usize>| #[trigger] is_traversal(self.graph(), self.start(), v)
                && self.emitted().len() + r == edges_out(self.graph(), v).len(),
    {
        let all = self.collect_edges(token);
        all.len()
    }
}

/// A fresh walk over the edges out of every node reachable from `start`,
/// parallel edges and self-loops included, each exactly once. Nothing is
/// handed out until `next` is called.
pub fn iter_edges(start: usize, token: &AccessToken) -> (r: EdgeIter)
    requires
        token.wf(),
        start < token@.len(),
    ensures
        r.wf(),
        r.graph() == token@,
        r.start() == start,
        r.emitted() == Seq::<(usize, usize)>::empty(),
{
    let (visited, node_stack) = start_walk(start, token);
    let r = EdgeIter {
        start,
        node_stack,
        visited,
        cursor: 0,
        graph: Ghost(token@),
        order: Ghost(Seq::empty()),
        emitted: Ghost(Seq::empty()),
    };
    assert(r.emitted@ =~= edges_out(token@, Seq::empty()) + out_pairs(token@, start).take(0));
    r
}

} // verus!
