use token_graph::{add_edge, count, iter_edges, AccessToken, Node};

#[test]
fn test_add_edge() {
    let mut token = AccessToken::new();
    let node1 = token.add_node(Node::new());
    let node2 = token.add_node(Node::new());
    let node3 = token.add_node(Node::new());
    let node4 = token.add_node(Node::new());

    add_edge(node1, node2, &mut token);
    add_edge(node2, node3, &mut token);
    add_edge(node3, node4, &mut token);

    let count = count(node1, &token);
    assert_eq!(count, 4);
}

#[test]
fn iterate_recursive() {
    let mut token = AccessToken::new();
    let node1 = token.add_node(Node::new());
    let node2 = token.add_node(Node::new());

    add_edge(node1, node2, &mut token);
    add_edge(node2, node1, &mut token);

    let count = count(node1, &token);

    assert_eq!(count, 2);
}

#[test]
fn test_count() {
    let mut token = AccessToken::new();
    let node1 = token.add_node(Node::new());
    let node2 = token.add_node(Node::new());
    let node3 = token.add_node(Node::new());

    add_edge(node1, node2, &mut token);
    add_edge(node2, node1, &mut token);
    add_edge(node1, node3, &mut token);

    assert_eq!(count(node1, &token), 3);
}

#[test]
fn iter_edged_by_counting_because_rahix() {
    let mut token = AccessToken::new();
    let node1 = token.add_node(Node::new());
    let node2 = token.add_node(Node::new());
    let node3 = token.add_node(Node::new());

    add_edge(node1, node2, &mut token);
    add_edge(node2, node1, &mut token);
    add_edge(node2, node1, &mut token);
    add_edge(node2, node1, &mut token);
    add_edge(node1, node3, &mut token);
    add_edge(node3, node3, &mut token);
    add_edge(node3, node1, &mut token);

    let mut edges = iter_edges(node1, &token);
    while let Some((lhs, rhs)) = edges.next(&token) {
        print_edge(lhs, rhs);
    }

    let count = iter_edges(node1, &token).count(&token);
    assert_eq!(count, 7);
}

fn print_edge(lhs: usize, rhs: usize) {
    println!("{} -> {}", lhs, rhs);
}

#[test]
fn iter_edges_zero_edges() {
    let mut token = AccessToken::new();
    let start = token.add_node(Node::new());
    let count = iter_edges(start, &token).count(&token);
    assert_eq!(count, 0);
}
