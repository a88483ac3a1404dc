//! Nodes, the access token that owns them, and edge insertion.

use vstd::prelude::*;
use crate::model::{graph_wf, total_edges, lemma_total_edges_update};

verus! {

/// A node: the targets of its outgoing edges and the sources of its incoming
/// edges, each in the order the edges were added. Parallel edges are kept.
pub struct Node {
    incoming: Vec<usize>,
    outgoing: Vec<usize>,
}

impl Node {
    /// The targets of the outgoing edges.
    pub closed spec fn outgoing_view(&self) -> Seq<usize> {
        self.outgoing@
    }

    /// The sources of the incoming edges.
    pub closed spec fn incoming_view(&self) -> Seq<usize> {
        self.incoming@
    }

    /// A node with no edges.
    pub fn new() -> (r: Node)
        ensures
            r.outgoing_view() == Seq::<usize>::empty(),
            r.incoming_view() == Seq::<usize>::empty(),
    {
        Node { incoming: Vec::new(), outgoing: Vec::new() }
    }
}

/// The credential that gates every read and write of the nodes it owns.
/// Handing out `&AccessToken` lets many readers look at the graph at once;
/// `&mut AccessToken` lets one writer change it, and nobody else meanwhile.
pub struct AccessToken {
    nodes: Vec<Node>,
}

impl View for AccessToken {
    /// For each node, the targets of its outgoing edges.
    type V = Seq<Seq<usize>>;

    closed spec fn view(&self) -> Seq<Seq<usize>> {
        Seq::new(self.nodes@.len(), |i: int| self.nodes@[i].outgoing@)
    }
}

impl AccessToken {
    /// For each node, the sources of its incoming edges.
    pub closed spec fn incoming_view(&self) -> Seq<Seq<usize>> {
        Seq::new(self.nodes@.len(), |i: int| self.nodes@[i].incoming@)
    }

    /// Every edge, in either direction, names a node of this token.
    pub open spec fn wf(&self) -> bool {
        &&& graph_wf(self@)
        &&& graph_wf(self.incoming_view())
        &&& self.incoming_view().len() == self@.len()
    }

    /// A token that owns no nodes yet.
    pub fn new() -> (r: AccessToken)
        ensures
            r.wf(),
            r@ == Seq::<Seq<usize>>::empty(),
            r.incoming_view() == Seq::<Seq<usize>>::empty(),
    {
        let r = AccessToken { nodes: Vec::new() };
        assert(r@ =~= Seq::<Seq<usize>>::empty());
        assert(r.incoming_view() =~= Seq::<Seq<usize>>::empty());
        r
    }

    /// The number of nodes.
    pub fn len(&self) -> (r: usize)
        ensures
            r == self@.len(),
    {
        self.nodes.len()
    }

    /// The targets of the outgoing edges of node `n`.
    pub fn outgoing(&self, n: usize) -> (r: &Vec<usize>)
        requires
            n < self@.len(),
        ensures
            r@ == self@[n as int],
    {
        &self.nodes[n].outgoing
    }

    /// Hands `node` over to this token and returns its handle. Its edges may
    /// name any node of the token, and the new node itself.
    pub fn add_node(&mut self, node: Node) -> (r: usize)
        requires
            old(self).wf(),
            forall|j: int| 0 <= j < node.outgoing_view().len() ==> node.outgoing_view()[j] <= old(self)@.len(),
            forall|j: int| 0 <= j < node.incoming_view().len() ==> node.incoming_view()[j] <= old(self)@.len(),
        ensures
            final(self).wf(),
            r == old(self)@.len(),
            final(self)@ == old(self)@.push(node.outgoing_view()),
            final(self).incoming_view() == old(self).incoming_view().push(node.incoming_view()),
    {
        let r = self.nodes.len();
        self.nodes.push(node);
        assert(self@ =~= old(self)@.push(node.outgoing_view()));
        assert(self.incoming_view() =~= old(self).incoming_view().push(node.incoming_view()));
        r
    }
}

/// Adds an edge from `node1` to `node2`: `node2` is appended to the outgoing
/// edges of `node1`, and `node1` to the incoming edges of `node2`. The two may
/// be the same node; an edge that is already there is added again.
pub fn add_edge(node1: usize, node2: usize, token: &mut AccessToken)
    requires
        old(token).wf(),
        node1 < old(token)@.len(),
        node2 < old(token)@.len(),
    ensures
        final(token).wf(),
        final(token)@ == old(token)@.update(node1 as int, old(token)@[node1 as int].push(node2)),
        final(token).incoming_view() == old(token).incoming_view().update(
            node2 as int,
            old(token).incoming_view()[node2 as int].push(node1),
        ),
        total_edges(final(token)@) == total_edges(old(token)@) + 1,
{
    token.nodes[node1].outgoing.push(node2);
    token.nodes[node2].incoming.push(node1);
    assert(token@ =~= old(token)@.update(node1 as int, old(token)@[node1 as int].push(node2)));
    assert(token.incoming_view() =~= old(token).incoming_view().update(
        node2 as int,
        old(token).incoming_view()[node2 as int].push(node1),
    ));
    proof {
        lemma_total_edges_update(old(token)@, node1 as int, old(token)@[node1 as int].push(node2));
    }
}

} // verus!
