use powergraph::clusters::Similarity;
use powergraph::similarity_matrix::SimilarityMatrix;
use powergraph::unordered_tuple::UnorderedTuple;

fn pair(a: &str, b: &str) -> UnorderedTuple<String> {
    UnorderedTuple { one: a.to_string(), two: b.to_string() }
}

#[test]
fn remove_element() {
    let mut matrix = SimilarityMatrix::new();

    matrix.set_similarity(
        UnorderedTuple {
            one: "foo".to_string(),
            two: "bar".to_string(),
        },
        Similarity::new(1, 10),
    );
    matrix.set_similarity(
        UnorderedTuple {
            one: "foo".to_string(),
            two: "baz".to_string(),
        },
        Similarity::new(3, 4),
    );
    matrix.set_similarity(
        UnorderedTuple {
            one: "foo".to_string(),
            two: "buzz".to_string(),
        },
        Similarity::new(7, 10),
    );

    assert_eq!(matrix.len(), 3);

    matrix.remove_element("buzz".to_string());
    assert_eq!(matrix.len(), 2);
    assert_eq!(
        matrix.get_max_similarity().unwrap(),
        (
            UnorderedTuple {
                one: "foo".to_string(),
                two: "baz".to_string(),
            },
            Similarity::new(3, 4)
        )
    );
}

#[test]
fn empty_matrix_has_no_max() {
    let mut matrix = SimilarityMatrix::new();
    assert!(matrix.get_max_similarity().is_none());
    matrix.set_similarity(pair("a", "b"), Similarity::new(1, 2));
    matrix.remove_element("a".to_string());
    assert!(matrix.get_max_similarity().is_none());
    assert_eq!(matrix.len(), 0);
}

#[test]
fn updating_a_pair_replaces_its_score() {
    let mut matrix = SimilarityMatrix::new();
    matrix.set_similarity(pair("a", "b"), Similarity::new(9, 10));
    matrix.set_similarity(pair("a", "c"), Similarity::new(1, 2));
    matrix.set_similarity(pair("b", "a"), Similarity::new(1, 10));
    assert_eq!(matrix.len(), 2);
    assert_eq!(matrix.get_max_similarity().unwrap(), (pair("a", "c"), Similarity::new(1, 2)));
}

#[test]
fn max_after_a_sequence_of_updates() {
    let mut matrix = SimilarityMatrix::new();
    matrix.set_similarity(pair("a", "b"), Similarity::new(1, 3));
    matrix.set_similarity(pair("c", "d"), Similarity::new(2, 3));
    matrix.set_similarity(pair("e", "f"), Similarity::new(0, 0));
    matrix.remove_element("c".to_string());
    assert_eq!(matrix.get_max_similarity().unwrap().1, Similarity::new(1, 3));
    matrix.set_similarity(pair("e", "f"), Similarity::new(3, 3));
    assert_eq!(matrix.get_max_similarity().unwrap().0, pair("f", "e"));
}
