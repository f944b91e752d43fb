use std::collections::hash_map::DefaultHasher;
use std::hash::{Hash, Hasher};

use powergraph::clusters::{generate_comparison_set, Cluster, Similarity};
use powergraph::sets::VecSet;
use powergraph::unordered_tuple::UnorderedTuple;

fn strings(values: &[&str]) -> VecSet<String> {
    VecSet::from_iter(values.iter().map(|v| v.to_string()).collect())
}

fn score(s: Similarity) -> f32 {
    if s.denominator == 0 {
        0.0
    } else {
        s.numerator as f32 / s.denominator as f32
    }
}

#[test]
fn trivial_positive_case() {
    let set1 = Cluster::new(
        VecSet::from_iter(vec!["2".to_string()]),
        VecSet::from_iter(vec!["1".to_string()]),
    );
    let set2 = Cluster::new(
        VecSet::from_iter(vec!["2".to_string()]),
        VecSet::from_iter(vec!["1".to_string()]),
    );

    assert_eq!(score(set1.similarity(&set2)), 1.0_f32)
}

#[test]
fn trivial_negative_case() {
    let set1 = Cluster::new(
        VecSet::from_iter(vec!["2".to_string()]),
        VecSet::from_iter(vec!["1".to_string()]),
    );
    let set2 = Cluster::new(
        VecSet::from_iter(vec!["3".to_string()]),
        VecSet::from_iter(vec!["2".to_string()]),
    );

    assert_eq!(score(set1.similarity(&set2)), 0.0_f32)
}

#[test]
fn nontrivial_case() {
    let set1 = Cluster::new(
        VecSet::from_iter(vec!["2".to_string(), "3".to_string()]),
        VecSet::from_iter(vec!["0".to_string(), "1".to_string()]),
    );
    let set2 = Cluster::new(
        VecSet::from_iter(vec!["4".to_string(), "5".to_string()]),
        VecSet::from_iter(vec![
            "0".to_string(),
            "6".to_string(),
            "5".to_string(),
            "7".to_string(),
        ]),
    );

    assert_eq!(score(set1.similarity(&set2)), 0.25_f32)
}

#[test]
fn comparison_sets() {
    let set1 = Cluster::new(
        VecSet::from_iter(vec!["1".to_string()]),
        VecSet::from_iter(vec![]),
    );
    let set2 = Cluster::new(
        VecSet::from_iter(vec!["2".to_string()]),
        VecSet::from_iter(vec!["1".to_string()]),
    );
    let set3 = Cluster::new(
        VecSet::from_iter(vec!["3".to_string()]),
        VecSet::from_iter(vec!["1".to_string()]),
    );
    let set4 = Cluster::new(
        VecSet::from_iter(vec!["4".to_string()]),
        VecSet::from_iter(vec!["2".to_string()]),
    );
    let clusters = vec![set1, set2, set3, set4];

    let comparison_set = generate_comparison_set(&clusters);
    assert_eq!(
        comparison_set,
        VecSet::from_iter(vec![UnorderedTuple {
            one: "2".to_string(),
            two: "3".to_string()
        }])
    );

    assert_eq!(
        comparison_set,
        VecSet::from_iter(vec![UnorderedTuple {
            one: "3".to_string(),
            two: "2".to_string()
        }])
    );
}

#[test]
fn neighbors_exclude_members() {
    let c = Cluster::new(strings(&["a", "b"]), strings(&["b", "c", "d"]));
    assert_eq!(c.get_items(), vec!["a".to_string(), "b".to_string()]);
    assert_eq!(c.get_neighbors(), vec!["c".to_string(), "d".to_string()]);
    let u = c.clone().union(&Cluster::new(strings(&["c"]), strings(&["a", "e"])));
    assert_eq!(u.get_items(), vec!["a".to_string(), "b".to_string(), "c".to_string()]);
    assert_eq!(u.get_neighbors(), vec!["d".to_string(), "e".to_string()]);
}

#[test]
fn id_is_sorted_and_joined() {
    let c = Cluster::new(strings(&["e", "c", "d"]), strings(&[]));
    assert_eq!(c.get_id(), "c-d-e");
    let same_items = Cluster::new(strings(&["d", "e", "c"]), strings(&["x"]));
    assert_eq!(c.get_id(), same_items.get_id());
    let single = Cluster::new(strings(&["node"]), strings(&[]));
    assert_eq!(single.get_id(), "node");
    let empty = Cluster::new(strings(&[]), strings(&["x"]));
    assert_eq!(empty.get_id(), "");
}

#[test]
fn id_orders_by_code_point() {
    let c = Cluster::new(strings(&["b", "B", "ab", "a"]), strings(&[]));
    assert_eq!(c.get_id(), "B-a-ab-b");
}

#[test]
fn similarity_with_itself_is_one() {
    let c = Cluster::new(strings(&["a"]), strings(&["b", "c"]));
    let s = c.similarity(&c);
    assert_eq!(s, Similarity::new(2, 2));
    let lonely = Cluster::new(strings(&["a"]), strings(&[]));
    assert_eq!(lonely.similarity(&lonely), Similarity::new(0, 0));
    assert_eq!(score(lonely.similarity(&lonely)), 0.0);
}

#[test]
fn similarity_comparison() {
    let quarter = Similarity::minimum();
    assert!(Similarity::new(1, 5).less_than(&quarter));
    assert!(!Similarity::new(2, 8).less_than(&quarter));
    assert!(!quarter.less_than(&Similarity::new(2, 8)));
    assert!(Similarity::new(0, 0).less_than(&quarter));
    assert!(quarter.less_than(&Similarity::new(1, 1)));
}

#[test]
fn difference_and_intersection() {
    let a = Cluster::new(strings(&["a", "b", "c"]), strings(&["x", "y"]));
    let b = Cluster::new(strings(&["b", "c", "d"]), strings(&["y", "z"]));
    let d = a.clone().difference(&b);
    assert_eq!(d.get_items(), vec!["a".to_string()]);
    assert_eq!(d.get_neighbors(), vec!["x".to_string()]);
    let i = a.intersection(&b);
    assert_eq!(i.get_items(), vec!["b".to_string(), "c".to_string()]);
    assert_eq!(i.get_neighbors(), vec!["y".to_string()]);
    assert_eq!(i.size(), 2);
}

#[test]
fn add_item_and_neighbor() {
    let mut c = Cluster::new(strings(&["a"]), strings(&["b"]));
    c.add_item("b".to_string());
    assert_eq!(c.get_items(), vec!["a".to_string(), "b".to_string()]);
    assert_eq!(c.get_neighbors().len(), 0);
    c.add_neighbor("a".to_string());
    assert_eq!(c.get_neighbors().len(), 0);
    c.add_neighbor("z".to_string());
    assert_eq!(c.get_neighbors(), vec!["z".to_string()]);
}

#[test]
fn unordered_tuples_are_symmetric() {
    let ab = UnorderedTuple { one: "a".to_string(), two: "b".to_string() };
    let ba = UnorderedTuple { one: "b".to_string(), two: "a".to_string() };
    let ac = UnorderedTuple { one: "a".to_string(), two: "c".to_string() };
    assert!(ab == ba);
    assert!(ab != ac);
    assert!(ab.mentions(&"b".to_string()));
    assert!(!ab.mentions(&"c".to_string()));
}

#[test]
fn swapped_tuples_hash_alike() {
    fn hash_of(t: &UnorderedTuple<String>) -> u64 {
        let mut h = DefaultHasher::new();
        t.hash(&mut h);
        h.finish()
    }
    let ab = UnorderedTuple { one: "a".to_string(), two: "b".to_string() };
    let ba = UnorderedTuple { one: "b".to_string(), two: "a".to_string() };
    assert_eq!(hash_of(&ab), hash_of(&ba));
    let mut set = std::collections::HashSet::new();
    set.insert(ab);
    assert!(set.contains(&ba));
}
