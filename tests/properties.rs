use token_graph::{add_edge, bfs, count, iter_edges, AccessToken, Node};

fn token_with(n: usize) -> AccessToken {
    let mut token = AccessToken::new();
    for i in 0..n {
        assert_eq!(token.add_node(Node::new()), i);
    }
    token
}

#[test]
fn self_loop_counts_one_node_and_one_edge() {
    let mut token = token_with(1);
    add_edge(0, 0, &mut token);
    assert_eq!(count(0, &token), 1);
    assert_eq!(iter_edges(0, &token).count(&token), 1);
    assert_eq!(iter_edges(0, &token).collect_edges(&token), vec![(0, 0)]);
}

#[test]
fn two_cycle_ends_and_counts_two() {
    let mut token = token_with(2);
    add_edge(0, 1, &mut token);
    add_edge(1, 0, &mut token);
    assert_eq!(count(0, &token), 2);
    assert_eq!(count(1, &token), 2);
    assert_eq!(bfs(0, &token), vec![0, 1]);
    assert_eq!(iter_edges(0, &token).collect_edges(&token), vec![(0, 1), (1, 0)]);
}

#[test]
fn parallel_edges_are_each_handed_out() {
    for k in 0..5usize {
        let mut token = token_with(3);
        add_edge(0, 2, &mut token);
        for _ in 0..k {
            add_edge(0, 1, &mut token);
        }
        add_edge(1, 0, &mut token);
        let edges = iter_edges(0, &token).collect_edges(&token);
        assert_eq!(edges.iter().filter(|e| **e == (0, 1)).count(), k);
        assert_eq!(edges.iter().filter(|e| **e == (0, 2)).count(), 1);
    }
}

#[test]
fn chain_counts_every_node() {
    let mut token = token_with(4);
    add_edge(0, 1, &mut token);
    add_edge(1, 2, &mut token);
    add_edge(2, 3, &mut token);
    assert_eq!(count(0, &token), 4);
    assert_eq!(count(2, &token), 2);
    assert_eq!(count(3, &token), 1);
}

#[test]
fn lone_node_has_no_edges() {
    let token = token_with(1);
    assert_eq!(count(0, &token), 1);
    assert_eq!(bfs(0, &token), vec![0]);
    assert_eq!(iter_edges(0, &token).collect_edges(&token), Vec::<(usize, usize)>::new());
}

#[test]
fn unreachable_nodes_are_not_counted() {
    let mut token = token_with(5);
    add_edge(0, 1, &mut token);
    add_edge(2, 0, &mut token);
    add_edge(3, 4, &mut token);
    assert_eq!(count(0, &token), 2);
    assert_eq!(iter_edges(0, &token).count(&token), 1);
    assert_eq!(count(2, &token), 3);
    assert_eq!(iter_edges(2, &token).count(&token), 2);
}

#[test]
fn visit_order_is_last_in_first_out() {
    let mut token = token_with(4);
    add_edge(0, 1, &mut token);
    add_edge(0, 2, &mut token);
    add_edge(1, 3, &mut token);
    add_edge(2, 1, &mut token);
    assert_eq!(bfs(0, &token), vec![0, 2, 1, 3]);
    assert_eq!(
        iter_edges(0, &token).collect_edges(&token),
        vec![(0, 1), (0, 2), (2, 1), (1, 3)]
    );
}

#[test]
fn walk_stays_finished() {
    let mut token = token_with(2);
    add_edge(0, 1, &mut token);
    let mut edges = iter_edges(0, &token);
    assert_eq!(edges.next(&token), Some((0, 1)));
    assert_eq!(edges.next(&token), None);
    assert_eq!(edges.next(&token), None);
}

#[test]
fn partly_consumed_walk_counts_the_rest() {
    let mut token = token_with(3);
    add_edge(0, 1, &mut token);
    add_edge(0, 2, &mut token);
    add_edge(2, 0, &mut token);
    let mut edges = iter_edges(0, &token);
    assert_eq!(edges.next(&token), Some((0, 1)));
    assert_eq!(edges.count(&token), 2);
}

#[test]
fn add_node_hands_out_consecutive_handles() {
    let mut token = AccessToken::new();
    assert_eq!(token.len(), 0);
    assert_eq!(token.add_node(Node::new()), 0);
    assert_eq!(token.add_node(Node::new()), 1);
    assert_eq!(token.len(), 2);
    add_edge(1, 0, &mut token);
    assert_eq!(token.outgoing(1), &vec![0]);
    assert_eq!(token.outgoing(0), &Vec::<usize>::new());
}

#[test]
fn arbitrary_graphs_stay_within_bounds() {
    let mut seed: u64 = 0x2545_f491_4f6c_dd1d;
    for round in 0..200usize {
        let n = 1 + round % 41;
        let mut token = token_with(n);
        let ops = round % 23;
        for _ in 0..ops {
            seed = seed.wrapping_mul(6364136223846793005).wrapping_add(1442695040888963407);
            let lhs = (seed >> 33) as usize % n;
            let rhs = (seed >> 13) as usize % n;
            add_edge(lhs, rhs, &mut token);
        }
        assert!(count(0, &token) <= n);
        assert!(iter_edges(0, &token).count(&token) <= ops);
        let order = bfs(0, &token);
        assert_eq!(order.len(), count(0, &token));
        assert_eq!(order[0], 0);
    }
}
