use queue_recursion::graph::{Distance, Graph};
use queue_recursion::tree::{Node, Tree};

fn in_order(n: &Option<Box<Node>>, out: &mut Vec<i64>) {
    if let Some(b) = n {
        in_order(&b.left, out);
        out.push(b.value);
        in_order(&b.right, out);
    }
}

#[test]
fn tree_add_keeps_order_and_shape() {
    let mut t = Tree::new();
    assert!(t.head.is_none());
    for v in [100, 20, 200, 300, 150, 9, 6, 5, 5, 61] {
        t.add(v);
    }
    let mut out = Vec::new();
    in_order(&t.head, &mut out);
    assert_eq!(out, vec![5, 5, 6, 9, 20, 61, 100, 150, 200, 300]);
    let root = t.head.as_ref().unwrap();
    assert_eq!(root.value, 100);
    assert_eq!(root.left.as_ref().unwrap().value, 20);
    assert_eq!(root.right.as_ref().unwrap().value, 200);
    // equal values go right
    let five = root.left.as_ref().unwrap().left.as_ref().unwrap().left.as_ref().unwrap().left.as_ref().unwrap();
    assert_eq!(five.value, 5);
    assert_eq!(five.right.as_ref().unwrap().value, 5);
}

#[test]
fn distance_new() {
    assert_eq!(Distance::new(-3).value, -3);
}

fn sample() -> Graph {
    let mut g = Graph::new(20);
    g.add_edge(0, 1, 10);
    g.add_edge(1, 2, 10);
    g.add_edge(2, 4, 10);
    g.add_edge(4, 3, 10);
    g.add_edge(1, 8, 2);
    g.add_edge(8, 2, 1);
    g.add_edge(0, 10, 1);
    g
}

#[test]
fn expand_lists_open_neighbours() {
    let g = sample();
    let mut visited = vec![false; 20];
    let e = g.expand(0, 4, &mut visited, 0);
    assert!(visited[0]);
    assert!(!e.reaches_target);
    assert_eq!(e.branches, vec![(1, 10), (10, 1)]);
    let e = g.expand(1, 4, &mut visited, 10);
    assert!(visited[1]);
    assert_eq!(e.branches, vec![(2, 20), (8, 12)]);
}

#[test]
fn expand_stops_at_target() {
    let g = sample();
    let mut visited = vec![false; 20];
    visited[1] = true;
    let e = g.expand(2, 4, &mut visited, 11);
    assert!(e.reaches_target);
    assert!(e.branches.is_empty());
    // node 2 is visited now: from 8 it is no longer a target
    let e = g.expand(8, 2, &mut visited, 12);
    assert!(!e.reaches_target);
    assert!(e.branches.is_empty());
    let mut fresh = vec![false; 20];
    let e = g.expand(8, 2, &mut fresh, 12);
    assert!(e.reaches_target);
    assert_eq!(e.branches, vec![(1, 14)]);
}

#[test]
fn expand_skips_visited_and_isolated() {
    let g = sample();
    let mut visited = vec![false; 20];
    visited[10] = true;
    let e = g.expand(0, 19, &mut visited, -5);
    assert!(!e.reaches_target);
    assert_eq!(e.branches, vec![(1, 5)]);
    let e = g.expand(19, 0, &mut visited, 0);
    assert!(e.branches.is_empty() && !e.reaches_target);
}

#[test]
fn path_from_trace_reverses() {
    assert_eq!(Graph::path_from_trace(vec![4, 2, 8, 1, 0]), vec![0, 1, 8, 2, 4]);
    assert_eq!(Graph::path_from_trace(vec![]), Vec::<usize>::new());
}
