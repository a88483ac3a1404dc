//! Laws that relate edge insertion, node counting and edge enumeration.

use vstd::prelude::*;
use crate::model::{graph_wf, is_path, reachable, reach_set, is_traversal, out_pairs, edges_out, total_edges};
use crate::traversal::{lemma_closed_holds_reachable, lemma_reachable_start, lemma_reachable_step};
use crate::edges::lemma_edges_out_bounded;

verus! {

/// The occurrences of an item in a concatenation add up.
proof fn lemma_count_concat<A>(a: Seq<A>, b: Seq<A>, x: A)
    ensures
        (a + b).to_multiset().count(x) == a.to_multiset().count(x) + b.to_multiset().count(x),
    decreases b.len(),
{
    broadcast use {vstd::seq_lib::group_to_multiset_ensures, vstd::multiset::group_multiset_axioms, vstd::multiset::lemma_multiset_empty_len};
    if b.len() == 0 {
        assert(a + b =~= a);
    } else {
        lemma_count_concat(a, b.drop_last(), x);
        assert(a + b =~= (a + b.drop_last()).push(b.last()));
        assert(b =~= b.drop_last().push(b.last()));
        assert((a + b.drop_last()).push(b.last()).to_multiset() =~= (a + b.drop_last()).to_multiset().insert(b.last()));
        assert(b.drop_last().push(b.last()).to_multiset() =~= b.drop_last().to_multiset().insert(b.last()));
    }
}

/// Pairing targets with a source `x` keeps each target's multiplicity, under `x` only.
proof fn lemma_count_pairs(a: Seq<usize>, x: usize, s: usize, d: usize)
    ensures
        a.map_values(|w: usize| (x, w)).to_multiset().count((s, d)) == if x == s {
            a.to_multiset().count(d)
        } else {
            0
        },
    decreases a.len(),
{
    broadcast use {vstd::seq_lib::group_to_multiset_ensures, vstd::multiset::group_multiset_axioms, vstd::multiset::lemma_multiset_empty_len};
    if a.len() == 0 {
        assert(a.map_values(|w: usize| (x, w)).to_multiset().len() == 0);
        assert(a.to_multiset().len() == 0);
    } else {
        let pre = a.drop_last();
        let f = |w: usize| (x, w);
        lemma_count_pairs(pre, x, s, d);
        assert(a.map_values(f) =~= pre.map_values(f).push((x, a.last())));
        assert(a =~= pre.push(a.last()));
        assert(pre.map_values(f).push((x, a.last())).to_multiset() =~= pre.map_values(f).to_multiset().insert((x, a.last())));
        assert(pre.push(a.last()).to_multiset() =~= pre.to_multiset().insert(a.last()));
    }
}

/// In the enumeration over distinct nodes, a pair (s, d) comes as often as
/// `d` stands among the targets of `s`, if `s` is among the nodes, and else never.
proof fn lemma_count_edges_out(g: Seq<Seq<usize>>, v: Seq<usize>, s: usize, d: usize)
    requires
        v.no_duplicates(),
    ensures
        edges_out(g, v).to_multiset().count((s, d)) == if v.contains(s) {
            g[s as int].to_multiset().count(d)
        } else {
            0
        },
    decreases v.len(),
{
    broadcast use {vstd::seq_lib::group_to_multiset_ensures, vstd::multiset::group_multiset_axioms, vstd::multiset::lemma_multiset_empty_len};
    if v.len() > 0 {
        let u = v.drop_last();
        assert(u.no_duplicates()) by {
            assert forall|i: int, j: int| 0 <= i < u.len() && 0 <= j < u.len() && i != j implies u[i] != u[j] by {
                assert(u[i] == v[i] && u[j] == v[j]);
            }
        }
        lemma_count_edges_out(g, u, s, d);
        lemma_count_concat(edges_out(g, u), out_pairs(g, v.last()), (s, d));
        lemma_count_pairs(g[v.last() as int], v.last(), s, d);
        if v.contains(s) {
            let i = choose|i: int| 0 <= i < v.len() && v[i] == s;
            if v.last() == s {
                assert(i == v.len() - 1);
                assert(!u.contains(s));
            } else {
                assert(u[i] == s);
            }
        } else {
            assert(!u.contains(s)) by {
                if u.contains(s) {
                    let i = choose|i: int| 0 <= i < u.len() && u[i] == s;
                    assert(v[i] == s);
                }
            }
        }
    } else {
        assert(edges_out(g, v).to_multiset().len() == 0);
    }
}

/// Enumerating the edges out of the reachable nodes hands out no more pairs
/// than the graph has edges, that is, than there were edge insertions.
pub proof fn lemma_edge_walk_bounded(g: Seq<Seq<usize>>, s: usize, v: Seq<usize>)
    requires
        graph_wf(g),
        is_traversal(g, s, v),
    ensures
        edges_out(g, v).len() <= total_edges(g),
{
    assert forall|k: int| 0 <= k < v.len() implies (v[k] as int) < g.len() by {
        assert(v.contains(v[k]));
        let p = choose|p: Seq<usize>| #[trigger] is_path(g, p) && p[0] == s && p.last() == v[k];
    }
    lemma_edges_out_bounded(g, v);
}

/// Parallel edges are never merged: in the enumeration from `s`, the pair
/// (s, d) comes exactly as many times as an edge from `s` to `d` was added.
pub proof fn lemma_parallel_edges(g: Seq<Seq<usize>>, s: usize, d: usize, v: Seq<usize>)
    requires
        graph_wf(g),
        is_traversal(g, s, v),
    ensures
        edges_out(g, v).to_multiset().count((s, d)) == g[s as int].to_multiset().count(d),
{
    assert(v.contains(s)) by {
        assert(v[0] == s);
    }
    lemma_count_edges_out(g, v, s, d);
}

/// Adding the edge from `s` to `d` `k` times to a node with no such edge
/// makes the enumeration from `s` hand out the pair (s, d) exactly `k` times.
pub proof fn lemma_parallel_edges_added(g: Seq<Seq<usize>>, s: usize, d: usize, k: nat, v: Seq<usize>)
    requires
        graph_wf(g),
        (s as int) < g.len(),
        (d as int) < g.len(),
        !g[s as int].contains(d),
        is_traversal(g.update(s as int, g[s as int] + Seq::new(k, |i: int| d)), s, v),
    ensures
        edges_out(g.update(s as int, g[s as int] + Seq::new(k, |i: int| d)), v).to_multiset().count((s, d)) == k,
    decreases k,
{
    broadcast use {vstd::seq_lib::group_to_multiset_ensures, vstd::multiset::group_multiset_axioms, vstd::multiset::lemma_multiset_empty_len};
    let h = g.update(s as int, g[s as int] + Seq::new(k, |i: int| d));
    assert(graph_wf(h)) by {
        assert forall|i: int, j: int| 0 <= i < h.len() && 0 <= j < h[i].len() implies (h[i][j] as int) < h.len() by {
            if i == s as int && j >= g[s as int].len() {
                assert(h[i][j] == d);
            } else {
                assert(h[i][j] == g[i][j]);
            }
        }
    }
    lemma_parallel_edges(h, s, d, v);
    lemma_count_concat(g[s as int], Seq::new(k, |i: int| d), d);
    lemma_count_copies(d, k);
}

/// `k` copies of `d` hold `d` `k` times.
proof fn lemma_count_copies(d: usize, k: nat)
    ensures
        Seq::new(k, |i: int| d).to_multiset().count(d) == k,
    decreases k,
{
    broadcast use {vstd::seq_lib::group_to_multiset_ensures, vstd::multiset::group_multiset_axioms, vstd::multiset::lemma_multiset_empty_len};
    if k > 0 {
        let shorter = Seq::new((k - 1) as nat, |i: int| d);
        lemma_count_copies(d, (k - 1) as nat);
        assert(Seq::new(k, |i: int| d) =~= shorter.push(d));
        assert(shorter.push(d).to_multiset() =~= shorter.to_multiset().insert(d));
    } else {
        assert(Seq::new(k, |i: int| d).to_multiset().len() == 0);
    }
}

/// A self-loop added to a node with no edges: one node is reachable from it,
/// and the enumeration from it hands out that one edge.
pub proof fn lemma_self_loop(g: Seq<Seq<usize>>, n: usize)
    requires
        graph_wf(g),
        (n as int) < g.len(),
        g[n as int].len() == 0,
    ensures
        reach_set(g.update(n as int, g[n as int].push(n)), n).finite(),
        reach_set(g.update(n as int, g[n as int].push(n)), n).len() == 1,
        forall|v: Seq<usize>| #[trigger] is_traversal(g.update(n as int, g[n as int].push(n)), n, v)
            ==> edges_out(g.update(n as int, g[n as int].push(n)), v).len() == 1,
{
    let h = g.update(n as int, g[n as int].push(n));
    let only = seq![n];
    assert(h[n as int] =~= seq![n]);
    assert forall|x: usize, w: usize| only.contains(x) && #[trigger] h[x as int].contains(w) implies only.contains(w) by {
        assert(x == only[0]);
        assert(w == h[n as int][0]);
        assert(only[0] == w);
    }
    assert(only[0] == n);
    lemma_closed_holds_reachable(h, n, only);
    lemma_reachable_start(h, n);
    assert(reach_set(h, n) =~= set![n]) by {
        assert forall|x: usize| reach_set(h, n).contains(x) implies x == n by {
            assert(only.contains(x));
        }
    }
    assert forall|v: Seq<usize>| #[trigger] is_traversal(h, n, v) implies edges_out(h, v).len() == 1 by {
        if v.len() > 1 {
            assert(v.contains(v[1]));
            assert(only.contains(v[1]));
            assert(v[1] == v[0]);
        }
        assert(v =~= seq![n]);
        assert(v.drop_last() =~= Seq::<usize>::empty());
        assert(edges_out(h, v) == edges_out(h, v.drop_last()) + out_pairs(h, n));
    }
}

/// Two nodes with no edges joined both ways: the walk from either end ends
/// and reaches exactly the two of them.
pub proof fn lemma_two_cycle(g: Seq<Seq<usize>>, a: usize, b: usize)
    requires
        graph_wf(g),
        (a as int) < g.len(),
        (b as int) < g.len(),
        a != b,
        g[a as int].len() == 0,
        g[b as int].len() == 0,
    ensures
        ({
            let g1 = g.update(a as int, g[a as int].push(b));
            let g2 = g1.update(b as int, g1[b as int].push(a));
            &&& reach_set(g2, a).finite()
            &&& reach_set(g2, a).len() == 2
            &&& reach_set(g2, b) == reach_set(g2, a)
        }),
{
    let g1 = g.update(a as int, g[a as int].push(b));
    let g2 = g1.update(b as int, g1[b as int].push(a));
    assert(g2[a as int] =~= seq![b]);
    assert(g2[b as int] =~= seq![a]);
    let both = seq![a, b];
    assert forall|x: usize, w: usize| both.contains(x) && #[trigger] g2[x as int].contains(w) implies both.contains(w) by {
        if x == a {
            assert(w == g2[a as int][0]);
            assert(both[1] == w);
        } else {
            assert(x == both[0] || x == both[1]);
            assert(w == g2[b as int][0]);
            assert(both[0] == w);
        }
    }
    assert(both[0] == a && both[1] == b);
    lemma_closed_holds_reachable(g2, a, both);
    lemma_closed_holds_reachable(g2, b, both);
    assert(graph_wf(g2));
    lemma_reachable_start(g2, a);
    lemma_reachable_start(g2, b);
    assert(g2[a as int][0] == b);
    assert(g2[b as int][0] == a);
    lemma_reachable_step(g2, a, a, b);
    lemma_reachable_step(g2, b, b, a);
    assert(reach_set(g2, a) =~= set![a, b]) by {
        assert forall|x: usize| reach_set(g2, a).contains(x) implies x == a || x == b by {
            assert(both.contains(x));
        }
    }
    assert(reach_set(g2, b) =~= set![a, b]) by {
        assert forall|x: usize| reach_set(g2, b).contains(x) implies x == a || x == b by {
            assert(both.contains(x));
        }
    }
}

} // verus!
