use grid_search::dedup::deduplicate;
use grid_search::index::{linear_search, ANNIndex};
use grid_search::vector::{key_eq, Vector};
use grid_search::Error;

fn vec_of(coords: &[i64]) -> Vector {
    Vector::new(coords.to_vec()).unwrap()
}

// The synthetic set used throughout: one point at the origin, one very
// close to it, and a far pair that is itself split by a tiny offset.
fn sample_points() -> (Vec<Vector>, Vec<i32>) {
    let points = vec![
        vec_of(&[0, 0, 0]),
        vec_of(&[1000, 1000, 1000]),
        vec_of(&[10, 0, 0]),
        vec_of(&[1000, 1000, 1010]),
    ];
    let ids = vec![0, 1, 2, 3];
    (points, ids)
}

#[test]
fn recall_on_small_synthetic_set() {
    let (points, ids) = sample_points();
    let index = ANNIndex::build_index(5, 1, &points, &ids, 42).unwrap();
    let query = vec_of(&[0, 0, 0]);
    let results = index.search_approximate(&query, 2).unwrap();
    assert_eq!(results.len(), 2);
    // the origin itself first, the near neighbor second, with its exact
    // squared distance
    assert_eq!(results[0], (0, 0));
    assert_eq!(results[1], (2, 100));
}

#[test]
fn result_count_never_exceeds_top_k_or_points() {
    let (points, ids) = sample_points();
    let index = ANNIndex::build_index(3, 2, &points, &ids, 7).unwrap();
    let query = vec_of(&[3, 2, 1]);
    let two = index.search_approximate(&query, 2).unwrap();
    assert_eq!(two.len(), 2);
    let many = index.search_approximate(&query, 100).unwrap();
    assert_eq!(many.len(), 4);
}

#[test]
fn results_sorted_by_ascending_distance() {
    let (points, ids) = sample_points();
    let index = ANNIndex::build_index(4, 1, &points, &ids, 11).unwrap();
    let query = vec_of(&[500, 400, 300]);
    let results = index.search_approximate(&query, 4).unwrap();
    assert_eq!(results.len(), 4);
    for w in results.windows(2) {
        assert!(w[0].1 <= w[1].1);
    }
}

#[test]
fn exact_duplicates_collapse_to_one_point() {
    let points = vec![vec_of(&[1, 2, 3]), vec_of(&[1, 2, 3])];
    let ids = vec![0, 1];
    let index = ANNIndex::build_index(2, 1, &points, &ids, 9).unwrap();
    let query = vec_of(&[1, 2, 3]);
    let results = index.search_approximate(&query, 5).unwrap();
    assert_eq!(results.len(), 1);
    assert_eq!(results[0], (0, 0));
}

#[test]
fn dedup_keeps_first_occurrence_and_order() {
    let points = vec![
        vec_of(&[5, 5]),
        vec_of(&[1, 1]),
        vec_of(&[5, 5]),
        vec_of(&[2, 2]),
        vec_of(&[1, 1]),
    ];
    let ids = vec![10, 11, 12, 13, 14];
    let mut unique = Vec::new();
    let mut unique_ids = Vec::new();
    deduplicate(&points, &ids, &mut unique, &mut unique_ids);
    assert_eq!(unique_ids, vec![10, 11, 13]);
    assert_eq!(unique.len(), 3);
    assert!(key_eq(&unique[0].to_hashkey(), &points[0].to_hashkey()));
    assert!(key_eq(&unique[1].to_hashkey(), &points[1].to_hashkey()));
    assert!(key_eq(&unique[2].to_hashkey(), &points[3].to_hashkey()));
}

#[test]
fn dedup_twice_changes_nothing() {
    let points = vec![
        vec_of(&[5, 5]),
        vec_of(&[5, 5]),
        vec_of(&[1, 1]),
        vec_of(&[5, 5]),
    ];
    let ids = vec![0, 1, 2, 3];
    let mut once = Vec::new();
    let mut once_ids = Vec::new();
    deduplicate(&points, &ids, &mut once, &mut once_ids);
    let mut twice = Vec::new();
    let mut twice_ids = Vec::new();
    deduplicate(&once, &once_ids, &mut twice, &mut twice_ids);
    assert_eq!(once_ids, twice_ids);
    assert_eq!(once.len(), twice.len());
    for (a, b) in once.iter().zip(twice.iter()) {
        assert!(key_eq(&a.to_hashkey(), &b.to_hashkey()));
    }
}

#[test]
fn build_rejects_bad_shapes() {
    let (points, ids) = sample_points();
    assert!(matches!(
        ANNIndex::build_index(0, 1, &points, &ids, 1),
        Err(Error::InvalidInput)
    ));
    assert!(matches!(
        ANNIndex::build_index(1, 0, &points, &ids, 1),
        Err(Error::InvalidInput)
    ));
    let empty: Vec<Vector> = Vec::new();
    let no_ids: Vec<i32> = Vec::new();
    assert!(matches!(
        ANNIndex::build_index(1, 1, &empty, &no_ids, 1),
        Err(Error::InvalidInput)
    ));
}

#[test]
fn build_rejects_mixed_dimensions() {
    let points = vec![vec_of(&[1, 2, 3]), vec_of(&[1, 2])];
    let ids = vec![0, 1];
    assert!(matches!(
        ANNIndex::build_index(2, 1, &points, &ids, 1),
        Err(Error::InvalidInput)
    ));
}

#[test]
fn query_of_wrong_dimension_rejected_index_survives() {
    let (points, ids) = sample_points();
    let index = ANNIndex::build_index(2, 1, &points, &ids, 3).unwrap();
    let bad_query = vec_of(&[1, 2]);
    assert!(matches!(
        index.search_approximate(&bad_query, 1),
        Err(Error::InvalidInput)
    ));
    // the index still answers a well-formed query as before
    let query = vec_of(&[0, 0, 0]);
    let results = index.search_approximate(&query, 1).unwrap();
    assert_eq!(results, vec![(0, 0)]);
}

#[test]
fn fixed_seed_gives_identical_results() {
    let (points, ids) = sample_points();
    let index_a = ANNIndex::build_index(4, 1, &points, &ids, 1234).unwrap();
    let index_b = ANNIndex::build_index(4, 1, &points, &ids, 1234).unwrap();
    for q in [
        vec_of(&[0, 0, 0]),
        vec_of(&[900, 1000, 1100]),
        vec_of(&[10, 10, 10]),
    ] {
        for top_k in [1, 2, 3, 4] {
            let ra = index_a.search_approximate(&q, top_k).unwrap();
            let rb = index_b.search_approximate(&q, top_k).unwrap();
            assert_eq!(ra, rb);
        }
    }
}

#[test]
fn linear_search_returns_true_nearest_in_order() {
    let (points, ids) = sample_points();
    let query = vec_of(&[990, 995, 1000]);
    let results = linear_search(&query, &points, &ids, 3);
    assert_eq!(results.len(), 3);
    // exact distances: id 1 at 125, id 3 at 225, id 2 at 2950425, id 0 at 2970125
    assert_eq!(results[0], (1, 125));
    assert_eq!(results[1], (3, 225));
    assert_eq!(results[2], (2, 960400 + 990025 + 1000000));
}

#[test]
fn linear_search_truncates_to_point_count() {
    let points = vec![vec_of(&[1]), vec_of(&[4])];
    let ids = vec![7, 8];
    let results = linear_search(&vec_of(&[2]), &points, &ids, 10);
    assert_eq!(results, vec![(7, 1), (8, 4)]);
}
