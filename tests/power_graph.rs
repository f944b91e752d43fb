use powergraph::clusters::Cluster;
use powergraph::sets::VecSet;
use powergraph::{Edge, Node, PowerEdge, PowerGraph};

fn members(pg: &PowerGraph, id: &str) -> Vec<String> {
    let node = pg.power_nodes().iter().find(|p| *p.get_id() == id).unwrap();
    let mut items = node.get_cluster().get_items();
    items.sort();
    items
}

/// Every edge lies in the expansion of some power edge, either way round,
/// or is named directly by one.
fn assert_edges_covered(pg: &PowerGraph) {
    for edge in pg.edges().to_vec() {
        let (u, v) = (edge.get_from(), edge.get_to());
        let hit = pg.power_edges().iter().any(|pe| {
            if *pe.get_from() == u && *pe.get_to() == v {
                return true;
            }
            match pg.expand_power_edge(pe) {
                Some(es) => es.iter().any(|e| {
                    (e.get_from() == u && e.get_to() == v) || (e.get_from() == v && e.get_to() == u)
                }),
                None => false,
            }
        });
        assert!(hit, "edge {}-{} is not covered", u, v);
    }
}

fn assert_no_partial_overlap(pg: &PowerGraph) {
    let sets: Vec<VecSet<String>> = pg
        .power_nodes()
        .iter()
        .map(|p| VecSet::from_iter(p.get_cluster().get_items()))
        .collect();
    for (i, a) in sets.iter().enumerate() {
        for (j, b) in sets.iter().enumerate() {
            assert!(a.is_subset_of(b) || b.is_subset_of(a) || !a.intersects(b));
            if i != j {
                assert!(!(a == b), "two power nodes share their members");
            }
        }
    }
    // both ends of every power edge name a power node
    for pe in pg.power_edges() {
        assert!(pg.find_power_node(pe.get_from(), pg.power_nodes()).is_some());
        assert!(pg.find_power_node(pe.get_to(), pg.power_nodes()).is_some());
    }
    // every node has a singleton power node
    for node in pg.nodes() {
        assert!(pg
            .power_nodes()
            .iter()
            .any(|p| p.get_cluster().get_items() == vec![node.get_id().clone()]));
    }
}

fn eight_node_graph() -> (Vec<Node>, Vec<Edge>) {
    let nodes = (1..9)
        .map(|id| Node::new(id.to_string(), String::from("")))
        .collect::<Vec<Node>>();

    let edges = vec![
        Edge::new("1", "2"),
        Edge::new("1", "4"),
        Edge::new("2", "3"),
        Edge::new("2", "4"),
        Edge::new("2", "6"),
        Edge::new("2", "8"),
        Edge::new("3", "4"),
        Edge::new("3", "5"),
        Edge::new("3", "7"),
        Edge::new("4", "5"),
        Edge::new("4", "7"),
        Edge::new("5", "6"),
        Edge::new("5", "8"),
        Edge::new("6", "7"),
        Edge::new("6", "8"),
    ];
    (nodes, edges)
}

#[test]
fn powergraph_construction() {
    let (nodes, edges) = eight_node_graph();

    let power_graph = PowerGraph::new(nodes, edges);

    assert_eq!(power_graph.nodes().len(), 8);
    assert_eq!(power_graph.edges().len(), 15);
}

#[test]
fn decompose() {
    let nodes: Vec<Node> = vec![
        Node::new("1".to_string(), "foo".to_string()),
        Node::new("2".to_string(), "foo".to_string()),
        Node::new("3".to_string(), "foo".to_string()),
        Node::new("4".to_string(), "bar".to_string()),
        Node::new("5".to_string(), "baz".to_string()),
        Node::new("6".to_string(), "fizz".to_string()),
        Node::new("7".to_string(), "Boo!".to_string()),
        Node::new("8".to_string(), "Boo!".to_string()),
    ];

    let edges: Vec<Edge> = vec![
        Edge::new("1", "2"),
        Edge::new("1", "4"),
        Edge::new("2", "3"),
        Edge::new("2", "4"),
        Edge::new("2", "6"),
        Edge::new("2", "8"),
        Edge::new("3", "4"),
        Edge::new("3", "5"),
        Edge::new("3", "7"),
        Edge::new("4", "5"),
        Edge::new("4", "7"),
        Edge::new("5", "6"),
        Edge::new("5", "8"),
        Edge::new("6", "7"),
        Edge::new("6", "8"),
    ];

    let mut powergraph = PowerGraph::new(nodes, edges);
    powergraph.decompose();
}

fn parent_child_graph() -> PowerGraph {
    let nodes: Vec<Node> = vec![
        Node::new("parent".to_string(), "foo".to_string()),
        Node::new("child".to_string(), "bar".to_string()),
        Node::new("sibling".to_string(), "baz".to_string()),
        Node::new("sibling2".to_string(), "fizz".to_string()),
        Node::new("child2".to_string(), "Boo!".to_string()),
    ];

    let edges: Vec<Edge> = vec![
        Edge::new("parent", "child"),
        Edge::new("parent", "sibling"),
        Edge::new("parent", "sibling2"),
        Edge::new("child", "child2"),
    ];

    PowerGraph::new(nodes, edges)
}

#[test]
fn clusters_create_subgraph() {
    let powergraph = parent_child_graph();
    let cluster_one = Cluster::new(
        VecSet::from_iter(vec!["parent".to_string()]),
        VecSet::from_iter(vec![
            "child".to_string(),
            "sibling".to_string(),
            "sibling2".to_string(),
        ]),
    );

    let cluster_two = Cluster::new(
        VecSet::from_iter(vec!["child".to_string()]),
        VecSet::from_iter(vec!["parent".to_string(), "child2".to_string()]),
    );

    let is_subgraph = powergraph.clusters_create_subgraph(&cluster_one, &cluster_two);
    assert!(is_subgraph);
}

#[test]
fn clusters_create_subgraph_negative_case() {
    let powergraph = parent_child_graph();
    let cluster_one = Cluster::new(
        VecSet::from_iter(vec!["parent".to_string()]),
        VecSet::from_iter(vec![
            "child".to_string(),
            "sibling".to_string(),
            "sibling2".to_string(),
        ]),
    );

    let cluster_two = Cluster::new(
        VecSet::from_iter(vec!["child2".to_string()]),
        VecSet::from_iter(vec!["child".to_string()]),
    );

    let is_subgraph = powergraph.clusters_create_subgraph(&cluster_one, &cluster_two);
    assert!(!is_subgraph);
}

fn small_graph_nodes() -> Vec<Node> {
    vec![
        Node::new("a".to_string(), "foo".to_string()),
        Node::new("b".to_string(), "bar".to_string()),
        Node::new("c".to_string(), "baz".to_string()),
        Node::new("d".to_string(), "baz".to_string()),
    ]
}

fn small_graph_edges() -> Vec<Edge> {
    vec![
        Edge::new("a", "b"),
        Edge::new("a", "c"),
        Edge::new("b", "c"),
        Edge::new("b", "d"),
    ]
}

#[test]
fn cluster_clique_detection() {
    let powergraph = PowerGraph::new(small_graph_nodes(), small_graph_edges());
    let cluster_one = Cluster::new(
        VecSet::from_iter(vec!["a".to_string(), "c".to_string()]),
        VecSet::from_iter(vec!["b".to_string(), "a".to_string(), "c".to_string()]),
    );

    let is_subgraph = powergraph.clusters_are_clique(&cluster_one, &cluster_one);
    assert!(is_subgraph);
}

#[test]
fn singular_clusters_can_be_cliques() {
    let powergraph = PowerGraph::new(small_graph_nodes(), small_graph_edges());
    let cluster_one = Cluster::new(
        VecSet::from_iter(vec!["a".to_string()]),
        VecSet::from_iter(vec!["b".to_string(), "c".to_string()]),
    );

    let is_subgraph = powergraph.clusters_are_clique(&cluster_one, &cluster_one);
    assert!(is_subgraph);
}

#[test]
fn cluster_clique_detection_negative() {
    let powergraph = PowerGraph::new(small_graph_nodes(), small_graph_edges());
    let cluster_one = Cluster::new(
        VecSet::from_iter(vec!["a".to_string(), "c".to_string(), "d".to_string()]),
        VecSet::from_iter(vec!["b".to_string(), "a".to_string(), "c".to_string()]),
    );

    let is_subgraph = powergraph.clusters_are_clique(&cluster_one, &cluster_one);
    assert!(!is_subgraph);
}

#[test]
fn cluster_subgraph() {
    let edges = small_graph_edges();
    let powergraph = PowerGraph::new(small_graph_nodes(), edges.clone());
    let nodes = VecSet::from_iter(vec![
        "a".to_string(),
        "c".to_string(),
        "b".to_string(),
        "d".to_string(),
    ]);

    let subgraph_edges = powergraph.subgraph(&nodes);

    assert!(VecSet::from_iter(subgraph_edges) == VecSet::from_iter(edges));
}

// Does the decomposition algorithm appropriately detect bicliques?
#[test]
fn biclique_detection() {
    let nodes: Vec<Node> = vec![
        Node::new("a".to_string(), "foo".to_string()),
        Node::new("b".to_string(), "foo".to_string()),
        Node::new("c".to_string(), "foo".to_string()),
        Node::new("d".to_string(), "bar".to_string()),
        Node::new("e".to_string(), "bar".to_string()),
    ];

    let edges: Vec<Edge> = vec![
        Edge::new("a", "c"),
        Edge::new("a", "d"),
        Edge::new("a", "e"),
        Edge::new("b", "c"),
        Edge::new("b", "d"),
        Edge::new("b", "e"),
    ];

    let mut powergraph = PowerGraph::new(nodes, edges);
    powergraph.decompose();

    println!("{:?}", powergraph.power_nodes());
    println!("{:?}", powergraph.power_edges());

    assert_eq!(powergraph.power_edges().len(), 1);
    assert!(
        *powergraph.power_edges()[0].get_from() == "c-d-e"
            || *powergraph.power_edges()[0].get_to() == "c-d-e"
    );
}

#[test]
fn biclique_ends_hold_the_two_sides() {
    let nodes: Vec<Node> = ["a", "b", "c", "d", "e"]
        .iter()
        .map(|id| Node::new(id.to_string(), String::new()))
        .collect();
    let edges: Vec<Edge> = vec![
        Edge::new("a", "c"),
        Edge::new("a", "d"),
        Edge::new("a", "e"),
        Edge::new("b", "c"),
        Edge::new("b", "d"),
        Edge::new("b", "e"),
    ];
    let mut powergraph = PowerGraph::new(nodes, edges);
    powergraph.decompose();
    let pe = &powergraph.power_edges()[0];
    let mut ends = vec![members(&powergraph, pe.get_from()), members(&powergraph, pe.get_to())];
    ends.sort();
    assert_eq!(
        ends,
        vec![
            vec!["a".to_string(), "b".to_string()],
            vec!["c".to_string(), "d".to_string(), "e".to_string()]
        ]
    );
    assert_edges_covered(&powergraph);
    assert_no_partial_overlap(&powergraph);
}

#[test]
fn triangle_graph_decomposition() {
    let mut powergraph = PowerGraph::new(small_graph_nodes(), small_graph_edges());
    powergraph.decompose();
    // a and c merge, then take d; b links to all three, and the edge a -> c
    // is left to a power edge of its own
    let ends: Vec<(String, String)> = powergraph
        .power_edges()
        .iter()
        .map(|pe| (pe.get_from().clone(), pe.get_to().clone()))
        .collect();
    assert_eq!(
        ends,
        vec![
            ("b".to_string(), "a-c-d".to_string()),
            ("a".to_string(), "c".to_string())
        ]
    );
    assert_eq!(members(&powergraph, "a-c-d"), vec!["a".to_string(), "c".to_string(), "d".to_string()]);
    assert_edges_covered(&powergraph);
    assert_no_partial_overlap(&powergraph);
}

#[test]
fn clique_of_three_becomes_a_self_loop() {
    let nodes: Vec<Node> = ["a", "b", "c"]
        .iter()
        .map(|id| Node::new(id.to_string(), String::new()))
        .collect();
    let edges = vec![Edge::new("a", "b"), Edge::new("a", "c"), Edge::new("b", "c")];
    let mut powergraph = PowerGraph::new(nodes, edges);
    powergraph.decompose();
    println!("{:?}", powergraph.power_edges());
    assert_edges_covered(&powergraph);
    assert_no_partial_overlap(&powergraph);
}

#[test]
fn every_edge_is_covered_after_decompose() {
    let (nodes, edges) = eight_node_graph();
    let mut powergraph = PowerGraph::new(nodes, edges);
    powergraph.decompose();
    assert_edges_covered(&powergraph);
    assert_no_partial_overlap(&powergraph);
}

#[test]
fn empty_graph_decomposes_to_nothing() {
    let mut powergraph = PowerGraph::new(Vec::new(), Vec::new());
    powergraph.decompose();
    assert_eq!(powergraph.power_nodes().len(), 0);
    assert_eq!(powergraph.power_edges().len(), 0);
}

#[test]
fn neighbors_and_predecessors() {
    let powergraph = PowerGraph::new(small_graph_nodes(), small_graph_edges());
    let b = "b".to_string();
    assert!(powergraph.neighbors(&b) == VecSet::from_iter(vec!["a".to_string(), "c".to_string(), "d".to_string()]));
    assert!(powergraph.predecessors(&b) == VecSet::from_iter(vec!["a".to_string()]));
    assert!(powergraph.get_edge(&"a".to_string(), &"b".to_string()).is_some());
    assert!(powergraph.get_edge(&"b".to_string(), &"a".to_string()).is_none());
}

#[test]
fn expanding_the_biclique_power_edge() {
    let nodes: Vec<Node> = ["a", "b", "c", "d", "e"]
        .iter()
        .map(|id| Node::new(id.to_string(), String::new()))
        .collect();
    let edges: Vec<Edge> = vec![
        Edge::new("a", "c"),
        Edge::new("a", "d"),
        Edge::new("a", "e"),
        Edge::new("b", "c"),
        Edge::new("b", "d"),
        Edge::new("b", "e"),
    ];
    let mut powergraph = PowerGraph::new(nodes, edges.clone());
    powergraph.decompose();
    let pe = &powergraph.power_edges()[0];
    let expanded = powergraph.expand_power_edge(pe).unwrap();
    assert_eq!(expanded.len(), 6);
    let expanded_set = VecSet::from_iter(expanded);
    let forward = VecSet::from_iter(edges.clone());
    let backward = VecSet::from_iter(edges.iter().map(|e| Edge::new(&e.get_to(), &e.get_from())).collect());
    assert!(expanded_set == forward || expanded_set == backward);
    let missing = PowerEdge::new("nowhere".to_string(), "c-d-e".to_string());
    assert!(powergraph.expand_power_edge(&missing).is_none());
}

#[test]
fn comparison_pairs_share_a_neighbor() {
    let powergraph = PowerGraph::new(small_graph_nodes(), small_graph_edges());
    let clusters = vec![
        Cluster::new(VecSet::from_iter(vec!["a".to_string()]), VecSet::from_iter(vec!["x".to_string()])),
        Cluster::new(VecSet::from_iter(vec!["b".to_string()]), VecSet::from_iter(vec!["x".to_string(), "y".to_string()])),
        Cluster::new(VecSet::from_iter(vec!["c".to_string()]), VecSet::from_iter(vec!["y".to_string()])),
        Cluster::new(VecSet::from_iter(vec!["d".to_string()]), VecSet::from_iter(vec!["z".to_string()])),
    ];
    let pairs = powergraph.generate_graph_comparison_set(&clusters);
    let mut ids: Vec<(String, String)> = pairs.iter().map(|t| (t.one.get_id(), t.two.get_id())).collect();
    ids.sort();
    assert_eq!(
        ids,
        vec![("a".to_string(), "b".to_string()), ("b".to_string(), "c".to_string())]
    );
}

#[test]
fn find_power_node_takes_the_first_match() {
    let mut powergraph = PowerGraph::new(small_graph_nodes(), small_graph_edges());
    powergraph.decompose();
    let found = powergraph.find_power_node("b", powergraph.power_nodes()).unwrap();
    assert_eq!(found.get_cluster().get_items(), vec!["b".to_string()]);
    assert!(powergraph.find_power_node("zz", powergraph.power_nodes()).is_none());
}

#[test]
fn unknown_endpoint_gets_a_singleton_power_node() {
    let nodes = vec![Node::new("a".to_string(), String::new())];
    let edges = vec![Edge::new("a", "ghost")];
    let mut powergraph = PowerGraph::new(nodes, edges);
    powergraph.decompose();
    assert_eq!(powergraph.power_edges().len(), 1);
    assert_eq!(*powergraph.power_edges()[0].get_from(), "a");
    assert_eq!(*powergraph.power_edges()[0].get_to(), "ghost");
    assert_eq!(members(&powergraph, "ghost"), vec!["ghost".to_string()]);
    assert_edges_covered(&powergraph);
    assert_no_partial_overlap(&powergraph);
}

#[test]
fn isolated_nodes_become_singletons() {
    let nodes: Vec<Node> = ["x", "y"].iter().map(|id| Node::new(id.to_string(), String::new())).collect();
    let mut powergraph = PowerGraph::new(nodes, Vec::new());
    powergraph.decompose();
    assert_eq!(powergraph.power_nodes().len(), 2);
    assert_eq!(powergraph.power_edges().len(), 0);
    assert_no_partial_overlap(&powergraph);
}
