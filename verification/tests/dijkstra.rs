use flex_algo::Dijkstra;

#[test]
fn test_dijkstra() {
    let times = vec![
        (0, 1, 9),
        (0, 3, 2),
        (1, 4, 1),
        (3, 1, 4),
        (3, 4, 6),
        (2, 1, 3),
        (4, 2, 7),
        (2, 0, 5),
    ];
    let dijkstra = Dijkstra::new(5, times);
    println!("Dijkstra: {:?}", dijkstra);
}

#[test]
fn test_shortest_path() {
    let times = vec![
        (0, 1, 9),
        (0, 3, 2),
        (1, 4, 1),
        (3, 1, 4),
        (3, 4, 6),
        (2, 1, 3),
        (4, 2, 7),
        (2, 0, 5),
    ];
    let dijkstra = Dijkstra::new(5, times);
    let (max, path) = dijkstra.shortest_path(0).unwrap();
    println!("shortest path: {:?}", path);
    assert_eq!(max, 14);
}

#[test]
fn test_shortest_path_visit_order() {
    let times = vec![
        (0, 1, 9),
        (0, 3, 2),
        (1, 4, 1),
        (3, 1, 4),
        (3, 4, 6),
        (2, 1, 3),
        (4, 2, 7),
        (2, 0, 5),
    ];
    let dijkstra = Dijkstra::new(5, times);
    let (_, path) = dijkstra.shortest_path(0).unwrap();
    assert_eq!(path.len(), 5);
    assert_eq!(path[0], 0);
    for node in 0..5 {
        assert!(path.contains(&node));
    }
}

#[test]
fn test_isolated_node_unvisited() {
    let times = vec![
        (0, 1, 9),
        (0, 3, 2),
        (1, 4, 1),
        (3, 1, 4),
        (3, 4, 6),
        (2, 1, 3),
        (4, 2, 7),
        (2, 0, 5),
    ];
    // node 5 has no incoming or outgoing edge
    let dijkstra = Dijkstra::new(6, times);
    let (max, path) = dijkstra.shortest_path(0).unwrap();
    assert_eq!(max, 14);
    assert_eq!(path.len(), 5);
    assert!(!path.contains(&5));
}

#[test]
fn test_single_node_graph() {
    let dijkstra = Dijkstra::new(1, vec![]);
    let (max, path) = dijkstra.shortest_path(0).unwrap();
    assert_eq!(max, 0);
    assert_eq!(path, vec![0]);
}

#[test]
fn test_zero_weight_edges() {
    let dijkstra = Dijkstra::new(3, vec![(0, 1, 0), (1, 2, 0)]);
    let (max, path) = dijkstra.shortest_path(0).unwrap();
    assert_eq!(max, 0);
    assert_eq!(path.len(), 3);
    assert_eq!(path[0], 0);
}
