use rust_tiny_rag::rank::{check_dimensions, rank_indices, rank_top_k, score_key, RagError};

fn key(x: f32) -> u32 {
    score_key(x.to_bits())
}

fn scored(xs: &[f32]) -> Vec<Result<u32, RagError>> {
    xs.iter().map(|x| Ok(key(*x))).collect()
}

#[test]
fn score_key_values() {
    assert_eq!(key(0.0), 0x8000_0000);
    assert_eq!(key(1.0), 0xbf80_0000);
    assert_eq!(key(-1.0), 0x407f_ffff);
    assert_eq!(key(-0.0), 0x7fff_ffff);
}

#[test]
fn score_key_follows_score_order() {
    let xs = [-3.5f32, -1.0, -0.25, -0.0, 0.0, 0.2, 0.5, 0.9, 1.0];
    for w in xs.windows(2) {
        assert!(key(w[0]) < key(w[1]));
    }
}

#[test]
fn ranking_order_top_two() {
    let r = rank_top_k(&scored(&[0.2, 0.9, 0.5]), 2);
    assert_eq!(r, Ok(vec![1, 2]));
}

#[test]
fn insufficient_data_when_k_exceeds_records() {
    let r = rank_top_k(&scored(&[0.2, 0.9, 0.5]), 5);
    assert_eq!(r, Err(RagError::InsufficientData));
}

#[test]
fn first_failed_score_fails_the_ranking() {
    let scores = vec![
        Ok(key(0.3)),
        Err(RagError::ZeroMagnitude),
        Err(RagError::DimensionMismatch),
    ];
    assert_eq!(rank_top_k(&scores, 10), Err(RagError::ZeroMagnitude));
    assert_eq!(rank_top_k(&scores, 1), Err(RagError::ZeroMagnitude));
}

#[test]
fn dimension_mismatch_is_reported() {
    let scores = vec![Err(RagError::DimensionMismatch), Ok(key(0.1))];
    assert_eq!(rank_top_k(&scores, 1), Err(RagError::DimensionMismatch));
}

#[test]
fn equal_scores_keep_their_order() {
    let r = rank_top_k(&scored(&[0.5, 0.7, 0.5, 0.7]), 4);
    assert_eq!(r, Ok(vec![1, 3, 0, 2]));
}

#[test]
fn negative_scores_rank_below_positive() {
    let r = rank_top_k(&scored(&[-0.4, 0.1, -0.9, 0.0]), 4);
    assert_eq!(r, Ok(vec![1, 3, 0, 2]));
}

#[test]
fn zero_k_gives_empty_ranking() {
    assert_eq!(rank_top_k(&scored(&[0.2, 0.9]), 0), Ok(vec![]));
    assert_eq!(rank_top_k(&vec![], 0), Ok(vec![]));
}

#[test]
fn rank_indices_lists_every_record() {
    let keys: Vec<u32> = vec![5, 1, 9, 5, 0];
    assert_eq!(rank_indices(&keys), vec![2, 0, 3, 1, 4]);
    assert!(rank_indices(&vec![]).is_empty());
}

#[test]
fn vectors_of_different_lengths_mismatch() {
    let a = [1.0f32, 2.0, 3.0];
    let b = [1.0f32, 2.0];
    assert_eq!(check_dimensions(a.len(), b.len()), Err(RagError::DimensionMismatch));
    assert_eq!(check_dimensions(a.len(), a.len()), Ok(()));
}
