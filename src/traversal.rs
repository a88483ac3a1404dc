//! Walks over the part of a graph that is reachable from a start node.

use vstd::prelude::*;
use vstd::set_lib::{set_int_range, lemma_int_range, lemma_len_subset};
use crate::model::{graph_wf, is_path, reachable, reach_set, is_traversal};
use crate::graph::AccessToken;

verus! {

/// A sequence of distinct indices below `n` has at most `n` elements.
pub proof fn lemma_distinct_bounded(v: Seq<usize>, n: nat)
    requires
        v.no_duplicates(),
        forall|k: int| 0 <= k < v.len() ==> (v[k] as int) < n,
    ensures
        v.len() <= n,
{
    let vi = v.map_values(|x: usize| x as int);
    assert(vi.no_duplicates()) by {
        assert forall|i: int, j: int| 0 <= i < vi.len() && 0 <= j < vi.len() && i != j implies vi[i] != vi[j] by {
            assert(v[i] != v[j]);
        }
    }
    vi.unique_seq_to_set();
    assert forall|y: int| vi.to_set().contains(y) implies set_int_range(0, n as int).contains(y) by {
        let k = choose|k: int| 0 <= k < vi.len() && vi[k] == y;
    }
    lemma_int_range(0, n as int);
    lemma_len_subset(vi.to_set(), set_int_range(0, n as int));
}

/// Along a path that starts in a set closed under outgoing edges, every node is in the set.
proof fn lemma_path_stays(g: Seq<Seq<usize>>, v: Seq<usize>, p: Seq<usize>, k: int)
    requires
        is_path(g, p),
        v.contains(p[0]),
        forall|x: usize, w: usize| v.contains(x) && #[trigger] g[x as int].contains(w) ==> v.contains(w),
        0 <= k < p.len(),
    ensures
        v.contains(p[k]),
    decreases k,
{
    if k > 0 {
        lemma_path_stays(g, v, p, k - 1);
        assert(g[p[k - 1] as int].contains(p[(k - 1) + 1]));
    }
}

/// A set that holds `s` and is closed under outgoing edges holds every node reachable from `s`.
pub proof fn lemma_closed_holds_reachable(g: Seq<Seq<usize>>, s: usize, v: Seq<usize>)
    requires
        v.contains(s),
        forall|x: usize, w: usize| v.contains(x) && #[trigger] g[x as int].contains(w) ==> v.contains(w),
    ensures
        forall|n: usize| reachable(g, s, n) ==> v.contains(n),
{
    assert forall|n: usize| reachable(g, s, n) implies v.contains(n) by {
        let p = choose|p: Seq<usize>| #[trigger] is_path(g, p) && p[0] == s && p.last() == n;
        lemma_path_stays(g, v, p, p.len() - 1);
    }
}

/// One step further along an edge from a reachable node is still reachable.
pub proof fn lemma_reachable_step(g: Seq<Seq<usize>>, s: usize, x: usize, w: usize)
    requires
        graph_wf(g),
        reachable(g, s, x),
        g[x as int].contains(w),
    ensures
        reachable(g, s, w),
{
    let p = choose|p: Seq<usize>| #[trigger] is_path(g, p) && p[0] == s && p.last() == x;
    let q = p.push(w);
    let j = choose|j: int| 0 <= j < g[x as int].len() && g[x as int][j] == w;
    assert(q[q.len() - 2] == x);
    assert(is_path(g, q));
    assert(q.last() == w);
}

/// The start node is reachable from itself.
pub proof fn lemma_reachable_start(g: Seq<Seq<usize>>, s: usize)
    requires
        (s as int) < g.len(),
    ensures
        reachable(g, s, s),
{
    let p = seq![s];
    assert(is_path(g, p));
}

/// The scheduling state of a walk from `s`: the marks cover the graph, the
/// stack holds distinct marked nodes, and only reachable nodes are marked.
pub open spec fn stack_ok(g: Seq<Seq<usize>>, s: usize, visited: Seq<bool>, stack: Seq<usize>) -> bool {
    &&& visited.len() == g.len()
    &&& forall|k: int| 0 <= k < stack.len() ==> (stack[k] as int) < g.len() && visited[stack[k] as int]
    &&& stack.no_duplicates()
    &&& forall|x: usize| (x as int) < g.len() && visited[x as int] ==> reachable(g, s, x)
}

/// The invariant of a walk from `s`: `order` holds the nodes already taken off
/// the stack, `stack` those waiting; together they are exactly the marked
/// nodes, and every edge out of a node of `order` leads to a marked node.
pub open spec fn walk_inv(g: Seq<Seq<usize>>, s: usize, visited: Seq<bool>, stack: Seq<usize>, order: Seq<usize>) -> bool {
    &&& graph_wf(g)
    &&& (s as int) < g.len()
    &&& visited[s as int]
    &&& stack_ok(g, s, visited, stack)
    &&& order.len() <= g.len()
    &&& forall|k: int| 0 <= k < order.len() ==> (order[k] as int) < g.len() && visited[order[k] as int]
    &&& order.no_duplicates()
    &&& forall|x: usize| order.contains(x) ==> !stack.contains(x)
    &&& forall|x: usize| (x as int) < g.len() && visited[x as int] ==> order.contains(x) || stack.contains(x)
    &&& forall|x: usize, w: usize| order.contains(x) && #[trigger] g[x as int].contains(w) ==> visited[w as int]
    &&& order.len() > 0 ==> order[0] == s
    &&& order.len() == 0 ==> stack == seq![s]
}

/// Marks every node of the graph unvisited.
pub(crate) fn unmarked(n: usize) -> (r: Vec<bool>)
    ensures
        r@.len() == n,
        forall|k: int| 0 <= k < n ==> !r@[k],
{
    let mut visited: Vec<bool> = Vec::new();
    while visited.len() < n
        invariant
            visited.len() <= n,
            forall|k: int| 0 <= k < visited.len() ==> !visited@[k],
        decreases n - visited.len(),
    {
        visited.push(false);
    }
    visited
}

/// The state in which a walk from `s` begins: only `s` is marked, and it waits on the stack.
pub(crate) fn start_walk(s: usize, token: &AccessToken) -> (r: (Vec<bool>, Vec<usize>))
    requires
        token.wf(),
        s < token@.len(),
    ensures
        walk_inv(token@, s, r.0@, r.1@, Seq::empty()),
{
    let ghost g = token@;
    let mut visited = unmarked(token.len());
    visited.set(s, true);
    let mut node_stack: Vec<usize> = Vec::new();
    node_stack.push(s);
    proof {
        lemma_reachable_start(g, s);
        assert forall|x: usize| (x as int) < g.len() && visited@[x as int] implies x == s by {}
        assert(node_stack@[0] == s);
        assert(node_stack@ =~= seq![s]);
    }
    (visited, node_stack)
}

/// Takes the top node off the stack and appends it to `order`.
pub proof fn lemma_pop(g: Seq<Seq<usize>>, s: usize, visited: Seq<bool>, stack: Seq<usize>, order: Seq<usize>)
    requires
        walk_inv(g, s, visited, stack, order),
        stack.len() > 0,
    ensures
        stack_ok(g, s, visited, stack.drop_last()),
        reachable(g, s, stack.last()),
        !order.contains(stack.last()),
        order.push(stack.last()).no_duplicates(),
        order.push(stack.last()).len() <= g.len(),
        forall|x: usize| order.push(stack.last()).contains(x) ==> !stack.drop_last().contains(x),
        forall|x: usize| (x as int) < g.len() && visited[x as int] ==> order.push(stack.last()).contains(x) || stack.drop_last().contains(x),
        forall|x: usize, w: usize| order.contains(x) && #[trigger] g[x as int].contains(w) ==> visited[w as int],
        order.push(stack.last())[0] == s,
        forall|x: usize| order.push(stack.last()).contains(x) ==> x == stack.last() || order.contains(x),
        forall|k: int| 0 <= k < order.len() + 1 ==> (order.push(stack.last())[k] as int) < g.len() && visited[order.push(stack.last())[k] as int],
{
    let top = stack.last();
    let rest = stack.drop_last();
    let o2 = order.push(top);
    assert(stack == rest.push(top));
    assert(stack.contains(top));
    assert forall|x: usize| rest.contains(x) implies stack.contains(x) && x != top by {
        let k = choose|k: int| 0 <= k < rest.len() && rest[k] == x;
        assert(stack[k] == x);
    }
    assert forall|x: usize| stack.contains(x) && x != top implies rest.contains(x) by {
        let k = choose|k: int| 0 <= k < stack.len() && stack[k] == x;
    }
    assert forall|x: usize| o2.contains(x) implies x == top || order.contains(x) by {
        let k = choose|k: int| 0 <= k < o2.len() && o2[k] == x;
        if k < order.len() {
            assert(order[k] == x);
        }
    }
    assert forall|x: usize| order.contains(x) implies o2.contains(x) by {
        let k = choose|k: int| 0 <= k < order.len() && order[k] == x;
        assert(o2[k] == x);
    }
    assert(o2[order.len() as int] == top);
    assert(o2.no_duplicates());
    lemma_distinct_bounded(o2, g.len());
    if order.len() == 0 {
        assert(top == s);
    }
}

/// Marks and pushes, in order, each target in `outs` that is not marked yet.
pub(crate) fn push_unvisited(
    outs: &Vec<usize>,
    visited: &mut Vec<bool>,
    node_stack: &mut Vec<usize>,
    Ghost(g): Ghost<Seq<Seq<usize>>>,
    Ghost(s): Ghost<usize>,
    Ghost(current): Ghost<usize>,
)
    requires
        graph_wf(g),
        (current as int) < g.len(),
        outs@ == g[current as int],
        reachable(g, s, current),
        stack_ok(g, s, old(visited)@, old(node_stack)@),
    ensures
        stack_ok(g, s, final(visited)@, final(node_stack)@),
        forall|x: usize| (x as int) < g.len() && old(visited)@[x as int] ==> final(visited)@[x as int],
        forall|w: usize| g[current as int].contains(w) ==> final(visited)@[w as int],
        forall|x: usize| old(node_stack)@.contains(x) ==> final(node_stack)@.contains(x),
        forall|x: usize| final(node_stack)@.contains(x) ==> old(node_stack)@.contains(x) || !old(visited)@[x as int],
        forall|x: usize| (x as int) < g.len() && final(visited)@[x as int] ==> old(visited)@[x as int] || final(node_stack)@.contains(x),
{
    let mut j: usize = 0;
    while j < outs.len()
        invariant
            graph_wf(g),
            (current as int) < g.len(),
            outs@ == g[current as int],
            reachable(g, s, current),
            0 <= j <= outs.len(),
            stack_ok(g, s, visited@, node_stack@),
            forall|x: usize| (x as int) < g.len() && old(visited)@[x as int] ==> visited@[x as int],
            forall|k: int| 0 <= k < j ==> visited@[outs@[k] as int],
            forall|x: usize| old(node_stack)@.contains(x) ==> node_stack@.contains(x),
            forall|x: usize| node_stack@.contains(x) ==> old(node_stack)@.contains(x) || !old(visited)@[x as int],
            forall|x: usize| (x as int) < g.len() && visited@[x as int] ==> old(visited)@[x as int] || node_stack@.contains(x),
        decreases outs.len() - j,
    {
        let w = outs[j];
        assert(g[current as int].contains(w));
        if !visited[w] {
            proof {
                lemma_reachable_step(g, s, current, w);
            }
            let ghost prev = node_stack@;
            visited.set(w, true);
            node_stack.push(w);
            proof {
                assert forall|x: usize| prev.contains(x) implies node_stack@.contains(x) by {
                    let k = choose|k: int| 0 <= k < prev.len() && prev[k] == x;
                    assert(node_stack@[k] == x);
                }
                assert forall|x: usize| node_stack@.contains(x) implies x == w || prev.contains(x) by {
                    let k = choose|k: int| 0 <= k < node_stack.len() && node_stack@[k] == x;
                    if k < prev.len() {
                        assert(prev[k] == x);
                    }
                }
                assert(node_stack@[prev.len() as int] == w);
                assert(!prev.contains(w));
            }
        }
        j += 1;
    }
    assert forall|w: usize| g[current as int].contains(w) implies visited@[w as int] by {
        let k = choose|k: int| 0 <= k < outs.len() && outs@[k] == w;
    }
}

/// After the popped node's targets are scheduled, the walk invariant holds again with it in `order`.
pub proof fn lemma_after_schedule(
    g: Seq<Seq<usize>>,
    s: usize,
    visited: Seq<bool>,
    stack: Seq<usize>,
    order: Seq<usize>,
    visited2: Seq<bool>,
    stack2: Seq<usize>,
)
    requires
        walk_inv(g, s, visited, stack, order),
        stack.len() > 0,
        stack_ok(g, s, visited2, stack2),
        forall|x: usize| (x as int) < g.len() && visited[x as int] ==> visited2[x as int],
        forall|w: usize| g[stack.last() as int].contains(w) ==> visited2[w as int],
        forall|x: usize| stack.drop_last().contains(x) ==> stack2.contains(x),
        forall|x: usize| stack2.contains(x) ==> stack.drop_last().contains(x) || !visited[x as int],
        forall|x: usize| (x as int) < g.len() && visited2[x as int] ==> visited[x as int] || stack2.contains(x),
    ensures
        walk_inv(g, s, visited2, stack2, order.push(stack.last())),
{
    lemma_pop(g, s, visited, stack, order);
    let top = stack.last();
    let o2 = order.push(top);
    assert forall|x: usize, w: usize| o2.contains(x) && #[trigger] g[x as int].contains(w) implies visited2[w as int] by {
        if x != top {
            let k = choose|k: int| 0 <= k < order.len() && order[k] == x;
            let i = choose|i: int| 0 <= i < g[x as int].len() && g[x as int][i] == w;
            assert((g[x as int][i] as int) < g.len());
        }
    }
}

/// Visits every node reachable from `node1` exactly once and returns them in
/// the order visited. Nodes wait on a stack, so the order is last-in,
/// first-out; a node is marked when it is pushed, so parallel edges and
/// cycles never schedule it twice.
pub fn bfs(node1: usize, token: &AccessToken) -> (r: Vec<usize>)
    requires
        token.wf(),
        node1 < token@.len(),
    ensures
        is_traversal(token@, node1, r@),
{
    let ghost g = token@;
    let (mut visited, mut node_stack) = start_walk(node1, token);
    let mut order: Vec<usize> = Vec::new();
    while node_stack.len() > 0
        invariant
            g == token@,
            token.wf(),
            walk_inv(g, node1, visited@, node_stack@, order@),
        decreases g.len() - order.len(),
    {
        let ghost stack0 = node_stack@;
        let ghost visited0 = visited@;
        let ghost order0 = order@;
        proof {
            lemma_pop(g, node1, visited@, node_stack@, order@);
        }
        let current = node_stack.pop().unwrap();
        assert(node_stack@ == stack0.drop_last());
        order.push(current);
        let outs = token.outgoing(current);
        push_unvisited(outs, &mut visited, &mut node_stack, Ghost(g), Ghost(node1), Ghost(current));
        proof {
            lemma_after_schedule(g, node1, visited0, stack0, order0, visited@, node_stack@);
        }
    }
    proof {
        lemma_walk_done(g, node1, visited@, order@);
    }
    order
}

/// A walk whose stack has run empty has visited exactly the reachable nodes.
pub proof fn lemma_walk_done(g: Seq<Seq<usize>>, s: usize, visited: Seq<bool>, order: Seq<usize>)
    requires
        walk_inv(g, s, visited, Seq::empty(), order),
    ensures
        is_traversal(g, s, order),
{
    assert(order.len() > 0);
    assert forall|x: usize, w: usize| order.contains(x) && #[trigger] g[x as int].contains(w) implies order.contains(w) by {
        let k = choose|k: int| 0 <= k < order.len() && order[k] == x;
        let i = choose|i: int| 0 <= i < g[x as int].len() && g[x as int][i] == w;
        assert((g[x as int][i] as int) < g.len());
    }
    assert(order.contains(s)) by {
        assert(order[0] == s);
    }
    lemma_closed_holds_reachable(g, s, order);
    assert forall|x: usize| order.contains(x) implies reachable(g, s, x) by {
        let k = choose|k: int| 0 <= k < order.len() && order[k] == x;
    }
}

/// The number of distinct nodes reachable from `start`, `start` included.
pub fn count(start: usize, token: &AccessToken) -> (r: usize)
    requires
        token.wf(),
        start < token@.len(),
    ensures
        r == reach_set(token@, start).len(),
        r <= token@.len(),
{
    let visits = bfs(start, token);
    proof {
        lemma_traversal_len(token@, start, visits@);
    }
    visits.len()
}

/// A traversal lists exactly the reachable set, which is finite and no larger than the graph.
pub proof fn lemma_traversal_len(g: Seq<Seq<usize>>, s: usize, v: Seq<usize>)
    requires
        graph_wf(g),
        (s as int) < g.len(),
        is_traversal(g, s, v),
    ensures
        reach_set(g, s).finite(),
        reach_set(g, s).len() == v.len(),
        v.len() <= g.len(),
{
    assert(v.to_set() =~= reach_set(g, s));
    v.unique_seq_to_set();
    assert forall|k: int| 0 <= k < v.len() implies (v[k] as int) < g.len() by {
        assert(v.contains(v[k]));
        let p = choose|p: Seq<usize>| #[trigger] is_path(g, p) && p[0] == s && p.last() == v[k];
    }
    lemma_distinct_bounded(v, g.len());
}

} // verus!
