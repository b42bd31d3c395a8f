use dijkstra_graph::{from_list, Graph};

#[test]
fn test_from_list_basic() {
    let edges = [("a", "b", 3), ("a", "c", 5), ("b", "c", 1)];
    let g = from_list(&edges);

    assert_eq!(g.weight("a", "b"), Some(3));
    assert_eq!(g.weight("b", "a"), Some(3));

    assert_eq!(g.weight("a", "c"), Some(5));
    assert_eq!(g.weight("c", "a"), Some(5));

    assert_eq!(g.weight("b", "c"), Some(1));
    assert_eq!(g.weight("c", "b"), Some(1));
}

#[test]
fn test_from_list_empty() {
    let g = from_list(&[]);
    assert_eq!(g.vertex_count(), 0);
    assert!(!g.contains_vertex("a"));
    assert_eq!(g.weight("a", "b"), None);
}

#[test]
fn test_from_list_symmetry() {
    let edges = [("x", "y", 7), ("y", "z", 0)];
    let g = from_list(&edges);
    assert_eq!(g.weight("x", "y"), g.weight("y", "x"));
    assert_eq!(g.weight("y", "z"), g.weight("z", "y"));
    assert_eq!(g.weight("y", "z"), Some(0));
    assert_eq!(g.vertex_count(), 3);
}

#[test]
fn test_from_list_last_write_wins() {
    let edges = [("a", "b", 3), ("b", "c", 2), ("b", "a", 7)];
    let g = from_list(&edges);
    assert_eq!(g.weight("a", "b"), Some(7));
    assert_eq!(g.weight("b", "a"), Some(7));
    assert_eq!(g.weight("b", "c"), Some(2));
}

#[test]
fn test_from_list_self_loop() {
    let edges = [("a", "a", 5)];
    let g = from_list(&edges);
    assert_eq!(g.weight("a", "a"), Some(5));
    assert_eq!(g.vertex_count(), 1);
}

#[test]
fn test_vertices_and_neighbors() {
    let edges = [("a", "b", 1)];
    let g: Graph = from_list(&edges);
    assert!(g.contains_vertex("a"));
    assert!(g.contains_vertex("b"));
    assert!(!g.contains_vertex("c"));
    let nbrs = g.neighbors("a").unwrap();
    assert_eq!(nbrs.len(), 1);
    assert_eq!(nbrs.get("b").copied(), Some(1));
    assert!(g.neighbors("z").is_none());
}
