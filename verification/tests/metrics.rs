use lattix::metrics::{
    adjusted_mean_rank, group_ranks_by_relation, hits_at_k, mean_rank, realistic_rank,
    try_adjusted_mean_rank, try_hits_at_k, try_mean_rank, try_realistic_rank, validate_ranks,
    AdjustedMeanRank, MetricError, Ratio, ScoreKey,
};

fn value(r: Ratio) -> f64 {
    r.numerator as f64 / r.denominator as f64
}

fn amr_value(a: AdjustedMeanRank) -> f64 {
    value(a.mean_rank) / value(a.expected_rank)
}

/// Scores written as order keys: a score `0.k` is the key `k`.
fn keys(scores: &[i64]) -> Vec<ScoreKey> {
    scores.iter().map(|&s| ScoreKey::Finite(s)).collect()
}

#[test]
fn hits_at_k_basic() {
    let ranks = vec![1, 2, 5, 10, 20];
    assert!((value(hits_at_k(&ranks, 10)) - 0.8).abs() < 1e-9);
    assert!((value(hits_at_k(&ranks, 1)) - 0.2).abs() < 1e-9);
}

#[test]
fn mean_rank_basic() {
    let ranks = vec![1, 3, 5];
    assert!((value(mean_rank(&ranks)) - 3.0).abs() < 1e-9);
}

#[test]
fn adjusted_mean_rank_basic() {
    let ranks = vec![1, 1, 1]; // MR = 1.0, expected = 50.5
    let amr = amr_value(adjusted_mean_rank(&ranks, 100));
    assert!((amr - 1.0 / 50.5).abs() < 1e-9);
}

#[test]
fn realistic_rank_no_ties() {
    // Scores: [0.1, 0.5, 0.3, 0.9], true = 0.3
    let scores = keys(&[1, 5, 3, 9]);
    assert!((value(realistic_rank(&scores, 3)) - 2.0).abs() < 1e-9);
}

#[test]
fn realistic_rank_with_ties() {
    // Scores: [0.3, 0.3, 0.3, 0.9], true = 0.3
    let scores = keys(&[3, 3, 3, 9]);
    assert!((value(realistic_rank(&scores, 3)) - 2.0).abs() < 1e-9);
}

#[test]
fn realistic_rank_best() {
    let scores = keys(&[1, 5, 9]);
    assert!((value(realistic_rank(&scores, 1)) - 1.0).abs() < 1e-9);
}

#[test]
fn realistic_rank_worst() {
    let scores = keys(&[1, 5, 9]);
    assert!((value(realistic_rank(&scores, 9)) - 3.0).abs() < 1e-9);
}

#[test]
fn empty_ranks() {
    assert_eq!(value(hits_at_k(&[], 10)), 0.0);
    assert_eq!(value(mean_rank(&[])), 0.0);
    assert_eq!(amr_value(adjusted_mean_rank(&[], 100)), 0.0);
}

#[test]
fn checked_metrics_reject_zero_rank() {
    let expected = MetricError::ZeroRank { index: 1 };
    assert_eq!(validate_ranks(&[1, 0, 2]), Err(expected));
    assert_eq!(try_hits_at_k(&[1, 0, 2], 2), Err(expected));
    assert_eq!(try_mean_rank(&[1, 0, 2]), Err(expected));
    assert_eq!(try_adjusted_mean_rank(&[1, 0, 2], 3), Err(expected));
}

#[test]
fn mean_rank_does_not_overflow_usize() {
    let ranks = [usize::MAX, usize::MAX];
    assert!(value(mean_rank(&ranks)).is_finite());
    assert_eq!(value(mean_rank(&ranks)), usize::MAX as f64);
}

#[test]
fn checked_realistic_rank_rejects_invalid_candidate_sets() {
    assert_eq!(
        try_realistic_rank(&[ScoreKey::Finite(1), ScoreKey::NonFinite], ScoreKey::Finite(1)),
        Err(MetricError::NonFiniteScore { index: Some(1) })
    );
    assert_eq!(
        try_realistic_rank(&keys(&[1, 2]), ScoreKey::NonFinite),
        Err(MetricError::NonFiniteScore { index: None })
    );
    assert_eq!(
        try_realistic_rank(&keys(&[1, 2]), ScoreKey::Finite(3)),
        Err(MetricError::MissingTrueCandidate)
    );
}

#[test]
fn adjusted_mean_rank_uses_one_constant_candidate_count() {
    let amr = try_adjusted_mean_rank(&[1, 2, 3, 4], 4).map(amr_value);
    assert_eq!(amr, Ok(1.0));
    assert_eq!(
        try_adjusted_mean_rank(&[1, 5], 4),
        Err(MetricError::RankExceedsCandidateCount {
            index: 1,
            rank: 5,
            candidate_count: 4,
        })
    );
    assert_eq!(
        try_adjusted_mean_rank(&[1], 0),
        Err(MetricError::ZeroCandidateCount)
    );
}

#[test]
fn metric_ratios_are_exact() {
    assert_eq!(try_mean_rank(&[1, 3, 5]), Ok(Ratio { numerator: 9, denominator: 3 }));
    assert_eq!(try_hits_at_k(&[1, 2, 5, 10, 20], 10), Ok(Ratio { numerator: 4, denominator: 5 }));
    let amr = try_adjusted_mean_rank(&[1, 2], 4).unwrap();
    assert_eq!(amr.mean_rank, Ratio { numerator: 3, denominator: 2 });
    assert_eq!(amr.expected_rank, Ratio { numerator: 5, denominator: 2 });
    // optimistic 2, pessimistic 4 (scores 1, 3, 3, 3 are at least as good as 3)
    assert_eq!(
        try_realistic_rank(&keys(&[3, 1, 3, 9, 3]), ScoreKey::Finite(3)),
        Ok(Ratio { numerator: 6, denominator: 2 })
    );
}

#[test]
fn zero_rank_error_reports_first_zero() {
    assert_eq!(validate_ranks(&[3, 0, 0]), Err(MetricError::ZeroRank { index: 1 }));
    assert_eq!(validate_ranks(&[0]), Err(MetricError::ZeroRank { index: 0 }));
    assert_eq!(validate_ranks(&[]), Ok(()));
    // A zero rank is reported before a zero candidate count or an excess rank.
    assert_eq!(try_adjusted_mean_rank(&[9, 0], 0), Err(MetricError::ZeroRank { index: 1 }));
    assert_eq!(try_adjusted_mean_rank(&[9], 0), Err(MetricError::ZeroCandidateCount));
}

#[test]
fn non_finite_true_score_is_reported_before_candidates() {
    assert_eq!(
        try_realistic_rank(&[ScoreKey::NonFinite], ScoreKey::NonFinite),
        Err(MetricError::NonFiniteScore { index: None })
    );
    assert_eq!(
        try_realistic_rank(&[ScoreKey::NonFinite, ScoreKey::NonFinite], ScoreKey::Finite(0)),
        Err(MetricError::NonFiniteScore { index: Some(0) })
    );
}

#[test]
fn hits_at_k_grows_with_k() {
    let ranks = [4, 1, 7, 2, 9, 3];
    let mut previous = 0;
    for k in 0..12 {
        let hits = hits_at_k(&ranks, k);
        assert!(hits.numerator >= previous);
        assert!(hits.numerator <= hits.denominator);
        previous = hits.numerator;
    }
    assert_eq!(previous, 6);
}

#[test]
fn realistic_rank_lies_between_one_and_candidate_count() {
    let scores = keys(&[5, 5, 5, 5]);
    let r = realistic_rank(&scores, 5);
    assert_eq!(r, Ratio { numerator: 5, denominator: 2 });
    assert!(value(r) >= 1.0 && value(r) <= 4.0);
}

#[test]
fn ranks_are_grouped_per_relation_in_input_order() {
    let grouped = group_ranks_by_relation(&[(7, 1), (3, 4), (7, 2), (7, 9), (3, 1)]);
    assert_eq!(grouped.len(), 2);
    assert_eq!(grouped[&7], vec![1, 2, 9]);
    assert_eq!(grouped[&3], vec![4, 1]);
    assert!(group_ranks_by_relation(&[]).is_empty());
}

#[test]
fn metric_errors_describe_themselves() {
    assert_eq!(MetricError::ZeroRank { index: 12 }.message(), "rank at index 12 is zero");
    assert_eq!(
        MetricError::NonFiniteScore { index: Some(0) }.message(),
        "candidate score at index 0 is not finite"
    );
    assert_eq!(MetricError::NonFiniteScore { index: None }.message(), "true score is not finite");
    assert_eq!(
        MetricError::MissingTrueCandidate.message(),
        "true score is absent from the candidate scores"
    );
    assert_eq!(MetricError::ZeroCandidateCount.message(), "candidate count is zero");
    assert_eq!(
        MetricError::RankExceedsCandidateCount { index: 1, rank: 105, candidate_count: 4 }.message(),
        "rank 105 at index 1 exceeds candidate count 4"
    );
}
