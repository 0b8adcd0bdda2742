//! Flat search results.

use ordvec::float_bits::F32Bits;
use ordvec::results::SearchResults;

fn bits(values: &[f32]) -> Vec<F32Bits> {
    values.iter().map(|v| F32Bits::from_bits(v.to_bits())).collect()
}

#[test]
fn search_results_deserialize_accepts_valid_shape() {
    let results = SearchResults::from_parts(bits(&[1.0, 0.5]), vec![7, 3], 1, 2).unwrap();
    assert_eq!(results.scores_for_query(0), &bits(&[1.0, 0.5])[..]);
    assert_eq!(results.indices_for_query(0), &[7, 3]);
}

#[test]
fn search_results_deserialize_rejects_invalid_lengths() {
    let invalid = [
        (bits(&[1.0]), vec![7]),
        (bits(&[1.0, 0.5]), vec![7]),
        (bits(&[1.0]), vec![7, 3]),
    ];
    for (scores, indices) in invalid {
        assert!(SearchResults::from_parts(scores, indices, 1, 2).is_err());
    }
}

#[test]
fn search_results_deserialize_rejects_shape_overflow() {
    assert!(SearchResults::from_parts(Vec::new(), Vec::new(), u64::MAX, 2).is_err());
}

#[test]
fn shape_errors_say_what_is_wrong() {
    let text = |s: &[f32], i: Vec<i64>, nq: u64, k: u64| {
        SearchResults::from_parts(bits(s), i, nq, k)
            .err()
            .unwrap_or_default()
    };
    assert_eq!(
        text(&[1.0], vec![7, 3], 1, 2),
        "SearchResults scores length 1 does not match nq * k 2"
    );
    assert_eq!(
        text(&[1.0, 0.5], vec![7], 1, 2),
        "SearchResults indices length 1 does not match nq * k 2"
    );
    assert_eq!(
        text(&[], vec![], u64::MAX, 2),
        "SearchResults nq * k overflows usize"
    );
}

#[test]
fn rows_of_a_batch_are_consecutive() {
    let results =
        SearchResults::from_parts(bits(&[1.0, 0.25, -0.5, 0.0]), vec![10, 2, -1, 7], 2, 2).unwrap();
    assert_eq!(results.scores_for_query(1), &bits(&[-0.5, 0.0])[..]);
    assert_eq!(results.indices_for_query(1), &[-1, 7]);
}

#[test]
fn rows_of_nothing_are_empty() {
    let results = SearchResults::from_parts(Vec::new(), Vec::new(), 3, 0).unwrap();
    for qi in [0usize, 2, 3, 1000] {
        assert!(results.scores_for_query(qi).is_empty());
        assert!(results.indices_for_query(qi).is_empty());
    }
}
