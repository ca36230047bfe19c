use flex_algo::Graph;

#[test]
fn test_graph() {
    let graph = Graph::new(6, vec![(1, 0), (2, 1), (2, 5), (0, 3), (4, 3), (3, 5), (4, 5)]);
    println!("graph: {:?}", graph);
}

#[test]
fn test_is_acyclic_graph() {
    let graph = Graph::new(6, vec![(1, 0), (2, 1), (2, 5), (0, 3), (4, 3), (3, 5), (4, 5)]);
    println!("graph: {:?}", graph);
    assert_eq!(graph.is_acyclic_bfs(), true);
}

#[test]
fn test_is_acyclic_top_sort() {
    let mut graph = Graph::new(6, vec![(1, 0), (2, 1), (2, 5), (0, 3), (4, 3), (3, 5), (4, 5)]);
    println!("graph: {:?}", graph);
    assert_eq!(graph.is_acyclic_top_sort(), true);
}

#[test]
fn test_bfs() {
    let graph = Graph::new(6, vec![(1, 0), (2, 1), (2, 5), (0, 3), (4, 3), (3, 5), (4, 5)]);
    let visit = graph.breadth_first_search(5);
    println!("graph: {:?}", graph);
    println!("bfs: {:?}", visit);
    assert_eq!(visit, vec![5, 4, 3, 0, 1, 2]);
}

#[test]
fn test_dfs() {
    let graph = Graph::new(8, vec![(5, 4), (2, 4), (6, 4), (7, 5), (0, 2), (1, 2), (3, 6)]);
    let visit = graph.depth_first_search(4);
    println!("graph: {:?}", graph);
    println!("dfs: {:?}", visit);
    assert_eq!(visit, vec![7, 5, 0, 1, 2, 3, 6, 4]);
}

#[test]
fn test_cycle_is_detected() {
    // edges 1 -> 0 and 0 -> 1 close a round trip
    let graph = Graph::new(2, vec![(0, 1), (1, 0)]);
    assert_eq!(graph.is_acyclic_bfs(), false);
    let mut graph2 = Graph::new(2, vec![(0, 1), (1, 0)]);
    assert_eq!(graph2.is_acyclic_top_sort(), false);
}

#[test]
fn test_self_loop_is_a_cycle() {
    let graph = Graph::new(3, vec![(1, 1)]);
    assert_eq!(graph.is_acyclic_bfs(), false);
    let mut graph2 = Graph::new(3, vec![(1, 1)]);
    assert_eq!(graph2.is_acyclic_top_sort(), false);
}

#[test]
fn test_bfs_unreachable_node_absent() {
    let graph = Graph::new(4, vec![(1, 0), (2, 1)]);
    let visit = graph.breadth_first_search(0);
    assert_eq!(visit, vec![0, 1, 2]);
    assert!(!visit.contains(&3));
}
