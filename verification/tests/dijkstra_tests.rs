use dijkstra_graph::{dijkstra_binheap, from_lines, from_list};

#[test]
fn test_dijkstra_basic() {
    let g = from_list(&[("a", "b", 3), ("a", "c", 5), ("b", "c", 1)]);
    let (dist, prev) = dijkstra_binheap(&g, "a");

    assert_eq!(dist.get("a").copied(), Some(0));
    assert_eq!(dist.get("b").copied(), Some(3));
    assert_eq!(dist.get("c").copied(), Some(4));

    assert_eq!(prev.get("a").unwrap().as_deref(), None);
    assert_eq!(prev.get("b").unwrap().as_deref(), Some("a"));
    assert_eq!(prev.get("c").unwrap().as_deref(), Some("b"));
}

#[test]
fn test_dijkstra_from_lines_source() {
    let mut lines: Vec<String> = Vec::new();
    for t in ["a b 3", "a c 5", "b c 1"] {
        lines.push(t.to_string());
    }
    let g = from_lines(&lines).unwrap();
    let (dist, _prev) = dijkstra_binheap(&g, "a");
    assert_eq!(dist.get("a").copied(), Some(0));
    assert_eq!(dist.get("b").copied(), Some(3));
    assert_eq!(dist.get("c").copied(), Some(4));
}

#[test]
fn test_dijkstra_unreachable_sentinel() {
    let g = from_list(&[("a", "b", 1), ("c", "d", 2)]);
    let (dist, prev) = dijkstra_binheap(&g, "a");

    assert_eq!(dist.get("a").copied(), Some(0));
    assert_eq!(dist.get("b").copied(), Some(1));
    assert_eq!(dist.get("c").copied(), Some(usize::MAX));
    assert_eq!(dist.get("d").copied(), Some(usize::MAX));
    assert_eq!(prev.get("c").unwrap().as_deref(), None);
    assert_eq!(prev.get("d").unwrap().as_deref(), None);
}

#[test]
fn test_dijkstra_source_absent() {
    let g = from_list(&[("a", "b", 1)]);
    let (dist, prev) = dijkstra_binheap(&g, "z");

    assert_eq!(dist.get("z").copied(), Some(0));
    assert_eq!(dist.get("a").copied(), Some(usize::MAX));
    assert_eq!(dist.get("b").copied(), Some(usize::MAX));
    assert!(prev.get("z").is_none());
    assert_eq!(prev.get("a").unwrap().as_deref(), None);
}

#[test]
fn test_dijkstra_empty_graph() {
    let g = from_list(&[]);
    let (dist, prev) = dijkstra_binheap(&g, "s");
    assert_eq!(dist.len(), 1);
    assert_eq!(dist.get("s").copied(), Some(0));
    assert_eq!(prev.len(), 0);
}

#[test]
fn test_dijkstra_predecessor_path_sums_to_distance() {
    let g = from_list(&[
        ("a", "b", 2),
        ("b", "c", 2),
        ("a", "c", 5),
        ("c", "d", 1),
        ("a", "d", 9),
    ]);
    let (dist, prev) = dijkstra_binheap(&g, "a");
    assert_eq!(dist.get("d").copied(), Some(5));

    let mut vertex = String::from("d");
    let mut total: usize = 0;
    while let Some(Some(p)) = prev.get(vertex.as_str()).cloned() {
        total += g.weight(p.as_str(), vertex.as_str()).unwrap();
        vertex = p;
    }
    assert_eq!(vertex, "a");
    assert_eq!(total, dist.get("d").copied().unwrap());
}

#[test]
fn test_dijkstra_prefers_cheaper_route() {
    let g = from_list(&[("s", "t", 10), ("s", "m", 1), ("m", "t", 2)]);
    let (dist, prev) = dijkstra_binheap(&g, "s");
    assert_eq!(dist.get("t").copied(), Some(3));
    assert_eq!(prev.get("t").unwrap().as_deref(), Some("m"));
}

#[test]
fn test_dijkstra_zero_weight_edges() {
    let g = from_list(&[("a", "b", 0), ("b", "c", 0), ("a", "c", 1)]);
    let (dist, _prev) = dijkstra_binheap(&g, "a");
    assert_eq!(dist.get("b").copied(), Some(0));
    assert_eq!(dist.get("c").copied(), Some(0));
}

#[test]
fn test_dijkstra_updated_weight_used() {
    let g = from_list(&[("a", "b", 1), ("a", "b", 6), ("b", "c", 1)]);
    let (dist, _prev) = dijkstra_binheap(&g, "a");
    assert_eq!(dist.get("b").copied(), Some(6));
    assert_eq!(dist.get("c").copied(), Some(7));
}
