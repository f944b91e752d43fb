use powergraph::edge_repository::EdgeRepository;
use powergraph::sets::VecSet;
use powergraph::Edge;

#[test]
fn subgraph_fetch_success() {
    let edges: Vec<Edge> = vec![
        Edge::new("v", "u"),
        Edge::new("v", "w"),
        Edge::new("u", "w"),
        Edge::new("u", "x"),
        Edge::new("u", "z"),
        Edge::new("y", "s"),
        Edge::new("y", "t"),
        Edge::new("y", "w"),
        Edge::new("w", "s"),
        Edge::new("w", "t"),
        Edge::new("s", "x"),
        Edge::new("s", "z"),
        Edge::new("x", "t"),
        Edge::new("x", "z"),
        Edge::new("t", "z"),
    ];
    let edge_repository = EdgeRepository::from_edge_list(edges);

    let search_nodes = VecSet::from_iter(vec!["s".to_string(), "t".to_string(), "y".to_string()]);

    let mut subgraph_sorted = edge_repository.subgraph(&search_nodes);
    subgraph_sorted.sort_by(|a, b| Ord::cmp(&a.get_id(), &b.get_id()));

    assert_eq!(
        subgraph_sorted,
        vec![Edge::new("y", "s"), Edge::new("y", "t"),]
    )
}

#[test]
fn repeated_edges_are_stored_once() {
    let mut repository = EdgeRepository::from_edge_list(vec![Edge::new("a", "b"), Edge::new("a", "b")]);
    assert_eq!(repository.len(), 1);
    repository.add_edge(&Edge::new("b", "a"));
    assert_eq!(repository.len(), 2);
    assert!(repository.get_edge(&"a".to_string(), &"b".to_string()).is_some());
    assert!(repository.get_edge(&"a".to_string(), &"c".to_string()).is_none());
}

#[test]
fn parents_and_children() {
    let repository = EdgeRepository::from_edge_list(vec![
        Edge::new("a", "b"),
        Edge::new("c", "b"),
        Edge::new("b", "d"),
    ]);
    let b = "b".to_string();
    assert!(repository.parents(&b) == VecSet::from_iter(vec!["a".to_string(), "c".to_string()]));
    assert!(repository.children(&b) == VecSet::from_iter(vec!["d".to_string()]));
    assert_eq!(repository.children(&"z".to_string()).len(), 0);
}

#[test]
fn edge_ids() {
    let e = Edge::new("from", "to");
    assert_eq!(e.get_id(), "from-to");
    assert_eq!(e.get_from(), "from");
    assert_eq!(e.get_to(), "to");
}
