use powergraph::cluster_repository::{ClusterRepository, OverlapType};
use powergraph::clusters::Cluster;
use powergraph::sets::VecSet;

fn cluster(items: &[&str], neighbors: &[&str]) -> Cluster {
    Cluster::new(
        VecSet::from_iter(items.iter().map(|v| v.to_string()).collect()),
        VecSet::from_iter(neighbors.iter().map(|v| v.to_string()).collect()),
    )
}

#[test]
fn overlap_calculation() {
    let mut repository = ClusterRepository::new();
    repository.add_cluster(&cluster(&["a", "b", "c"], &["x"]));
    repository.add_cluster(&cluster(&["a"], &["y"]));
    repository.add_cluster(&cluster(&["c", "d"], &["x"]));
    repository.add_cluster(&cluster(&["e"], &[]));
    let abc = "a-b-c".to_string();
    let a = "a".to_string();
    let cd = "c-d".to_string();
    let e = "e".to_string();
    assert_eq!(repository.overlap(&a, &abc), Some(OverlapType::Subset));
    assert_eq!(repository.overlap(&a, &a), Some(OverlapType::Equal));
    assert_eq!(repository.overlap(&cd, &abc), Some(OverlapType::Partial));
    assert_eq!(repository.overlap(&abc, &a), None);
    assert_eq!(repository.overlap(&e, &abc), None);
    repository.remove(&abc);
    assert_eq!(repository.overlap(&a, &abc), None);
    assert_eq!(repository.len(), 3);
}

#[test]
fn clusters_are_keyed_by_id() {
    let mut repository = ClusterRepository::new();
    repository.add_cluster(&cluster(&["b", "a"], &["x"]));
    repository.add_cluster(&cluster(&["a", "b"], &["y"]));
    assert_eq!(repository.len(), 1);
    let stored = repository.get(&"a-b".to_string()).unwrap();
    assert_eq!(stored.get_neighbors(), vec!["y".to_string()]);
    assert!(repository.get(&"a".to_string()).is_none());
}

#[test]
fn siblings_share_a_neighbor() {
    let mut repository = ClusterRepository::new();
    repository.add_cluster(&cluster(&["a"], &["x"]));
    repository.add_cluster(&cluster(&["b"], &["x", "y"]));
    repository.add_cluster(&cluster(&["c"], &["z"]));
    let siblings = repository.get_sibling_clusters(&cluster(&["q"], &["y", "x"]));
    let mut ids: Vec<String> = siblings.iter().map(|c| c.get_id()).collect();
    ids.sort();
    assert_eq!(ids, vec!["a".to_string(), "b".to_string()]);
    repository.remove(&"a".to_string());
    let siblings = repository.get_sibling_clusters(&cluster(&["q"], &["x"]));
    assert_eq!(siblings.len(), 1);
    assert_eq!(siblings[0].get_id(), "b");
}
