use powergraph::sets::VecSet;

#[test]
fn clusters_intersect() {
    let cluster_a = VecSet::from_iter(vec![1, 2]);
    let cluster_b = VecSet::from_iter(vec![2, 3, 4]);

    let intersection = cluster_a.intersection(&cluster_b);
    assert_eq!(intersection.to_vec(), vec![2]);
}

#[test]
fn clusters_union() {
    let cluster_a = VecSet::from_iter(vec![1, 2]);
    let cluster_b = VecSet::from_iter(vec![2, 3, 4]);

    let intersection = cluster_a.union(&cluster_b);
    assert_eq!(intersection.to_vec(), vec![1, 2, 3, 4]);
}

#[test]
fn clusters_difference() {
    let cluster_a = VecSet::from_iter(vec![1, 2]);
    let cluster_b = VecSet::from_iter(vec![2, 3, 4]);

    let intersection = cluster_a.difference(&cluster_b);
    assert_eq!(intersection.to_vec(), vec![1]);
}

#[test]
fn insert_is_idempotent() {
    let mut set = VecSet::new();
    set.insert("a".to_string());
    set.insert("a".to_string());
    set.insert("b".to_string());
    assert_eq!(set.len(), 2);
    assert!(set.contains("a".to_string()));
    assert!(!set.contains("c".to_string()));
}

#[test]
fn from_iter_drops_repeats() {
    let set = VecSet::from_iter(vec![3, 1, 3, 2, 1]);
    assert_eq!(set.to_vec(), vec![3, 1, 2]);
    assert_eq!(set.len(), 3);
}

#[test]
fn set_algebra_on_examples() {
    let a = VecSet::from_iter(vec![1, 2, 3]);
    let b = VecSet::from_iter(vec![3, 4]);
    assert!(a.union(&b) == b.union(&a));
    assert!(a.intersection(&b) == b.intersection(&a));
    assert!(a.union(&a) == a);
    assert_eq!(a.difference(&a).len(), 0);
    assert_eq!(a.union(&b).len(), a.len() + b.len() - a.intersection(&b).len());
    assert_eq!(a.union(&b).len(), 4);
}

#[test]
fn symmetric_difference_keeps_one_sided_elements() {
    let a = VecSet::from_iter(vec![1, 2, 3]);
    let b = VecSet::from_iter(vec![3, 4]);
    assert!(a.symmetric_difference(&b) == VecSet::from_iter(vec![1, 2, 4]));
}

#[test]
fn subset_predicates() {
    let a = VecSet::from_iter(vec![1, 2]);
    let b = VecSet::from_iter(vec![2, 1, 5]);
    let c = VecSet::from_iter(vec![2, 1]);
    assert!(a.is_subset_of(&b));
    assert!(a.is_proper_subset_of(&b));
    assert!(a.is_subset_of(&c));
    assert!(!a.is_proper_subset_of(&c));
    assert!(!b.is_subset_of(&a));
    assert!(a == c);
}

#[test]
fn remove_drops_one_element() {
    let mut a = VecSet::from_iter(vec![1, 2, 3]);
    a.remove(&2);
    a.remove(&7);
    assert_eq!(a.to_vec(), vec![1, 3]);
}

#[test]
fn iterator_walks_insertion_order() {
    let set = VecSet::from_iter(vec![5, 3, 5, 9]);
    let mut it = set.iter();
    let mut seen = Vec::new();
    while let Some(x) = it.next() {
        seen.push(*x);
    }
    assert_eq!(seen, vec![5, 3, 9]);
    assert!(it.next().is_none());
}
