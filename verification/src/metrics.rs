//! Rank-based evaluation metrics for link prediction.
//!
//! All functions take 1-indexed ranks (rank 1 = best possible). Each metric is
//! returned as an exact ratio of integers; converting it to a floating-point
//! value is left to the caller.

use std::collections::HashMap;
use vstd::prelude::*;
use vstd::string::StringExecFns;

verus! {

broadcast use vstd::std_specs::hash::group_hash_axioms;

/// Invalid input to a rank metric.
#[derive(Debug, Clone, Copy, PartialEq, Eq, Structural)]
#[non_exhaustive]
pub enum MetricError {
    /// A rank was zero, but ranks are 1-indexed.
    ZeroRank {
        /// Position of the invalid rank.
        index: usize,
    },
    /// A score was NaN or infinite.
    NonFiniteScore {
        /// Position in the candidate score slice, or `None` for the true score.
        index: Option<usize>,
    },
    /// The true score was not present among the candidate scores.
    MissingTrueCandidate,
    /// The constant candidate count was zero.
    ZeroCandidateCount,
    /// A rank exceeded the constant candidate count.
    RankExceedsCandidateCount {
        /// Position of the invalid rank.
        index: usize,
        /// Invalid rank.
        rank: usize,
        /// Number of candidates used for every query.
        candidate_count: usize,
    },
}

/// The decimal digit `d` as text.
pub open spec fn digit_text(d: nat) -> Seq<char> {
    if d == 0 {
        "0"@
    } else if d == 1 {
        "1"@
    } else if d == 2 {
        "2"@
    } else if d == 3 {
        "3"@
    } else if d == 4 {
        "4"@
    } else if d == 5 {
        "5"@
    } else if d == 6 {
        "6"@
    } else if d == 7 {
        "7"@
    } else if d == 8 {
        "8"@
    } else {
        "9"@
    }
}

/// `n` in decimal notation, without leading zeros.
pub open spec fn decimal_text(n: nat) -> Seq<char>
    decreases n,
{
    if n < 10 {
        digit_text(n)
    } else {
        decimal_text(n / 10) + digit_text(n % 10)
    }
}

/// The message that describes a metric error.
pub open spec fn metric_error_message(e: MetricError) -> Seq<char> {
    match e {
        MetricError::ZeroRank { index } => "rank at index "@ + decimal_text(index as nat) + " is zero"@,
        MetricError::NonFiniteScore { index: Some(index) } => "candidate score at index "@
            + decimal_text(index as nat) + " is not finite"@,
        MetricError::NonFiniteScore { index: None } => "true score is not finite"@,
        MetricError::MissingTrueCandidate => "true score is absent from the candidate scores"@,
        MetricError::ZeroCandidateCount => "candidate count is zero"@,
        MetricError::RankExceedsCandidateCount { index, rank, candidate_count } => "rank "@
            + decimal_text(rank as nat) + " at index "@ + decimal_text(index as nat)
            + " exceeds candidate count "@ + decimal_text(candidate_count as nat),
    }
}

fn append_digit(text: &mut String, d: usize)
    requires
        d < 10,
    ensures
        final(text)@ == old(text)@ + digit_text(d as nat),
{
    if d == 0 {
        text.append("0");
    } else if d == 1 {
        text.append("1");
    } else if d == 2 {
        text.append("2");
    } else if d == 3 {
        text.append("3");
    } else if d == 4 {
        text.append("4");
    } else if d == 5 {
        text.append("5");
    } else if d == 6 {
        text.append("6");
    } else if d == 7 {
        text.append("7");
    } else if d == 8 {
        text.append("8");
    } else {
        text.append("9");
    }
}

fn append_decimal(text: &mut String, n: usize)
    ensures
        final(text)@ == old(text)@ + decimal_text(n as nat),
    decreases n,
{
    if n >= 10 {
        append_decimal(text, n / 10);
    }
    append_digit(text, n % 10);
    proof {
        if n >= 10 {
            assert(old(text)@ + decimal_text(n as nat) =~= old(text)@ + decimal_text((n / 10) as nat) + digit_text((n % 10) as nat));
        }
    }
}

impl MetricError {
    /// The message that describes the error.
    pub fn message(&self) -> (text: String)
        ensures
            text@ == metric_error_message(*self),
    {
        let mut text = String::new();
        match *self {
            MetricError::ZeroRank { index } => {
                text.append("rank at index ");
                append_decimal(&mut text, index);
                text.append(" is zero");
            },
            MetricError::NonFiniteScore { index: Some(index) } => {
                text.append("candidate score at index ");
                append_decimal(&mut text, index);
                text.append(" is not finite");
            },
            MetricError::NonFiniteScore { index: None } => {
                text.append("true score is not finite");
            },
            MetricError::MissingTrueCandidate => {
                text.append("true score is absent from the candidate scores");
            },
            MetricError::ZeroCandidateCount => {
                text.append("candidate count is zero");
            },
            MetricError::RankExceedsCandidateCount { index, rank, candidate_count } => {
                text.append("rank ");
                append_decimal(&mut text, rank);
                text.append(" at index ");
                append_decimal(&mut text, index);
                text.append(" exceeds candidate count ");
                append_decimal(&mut text, candidate_count);
            },
        }
        proof {
            assert(text@ =~= metric_error_message(*self));
        }
        text
    }
}

/// An exact non-negative rational value `numerator / denominator`.
#[derive(Debug, Clone, Copy, PartialEq, Eq, Structural)]
pub struct Ratio {
    /// The numerator.
    pub numerator: u128,
    /// The denominator; never zero for a value returned by this library.
    pub denominator: u128,
}

/// Adjusted mean rank as the quotient `mean_rank / expected_rank`.
///
/// The expected rank under a uniform random model is `(candidate_count + 1) / 2`.
#[derive(Debug, Clone, Copy, PartialEq, Eq, Structural)]
pub struct AdjustedMeanRank {
    /// The mean rank of the queries.
    pub mean_rank: Ratio,
    /// The expected mean rank of a uniformly random ranking.
    pub expected_rank: Ratio,
}

/// An order key that stands for a candidate score (lower is better).
///
/// Finite scores are represented by integers in the same order as the scores
/// (equal scores by equal integers); NaN and the infinities by `NonFinite`.
#[derive(Debug, Clone, Copy, PartialEq, Eq, Structural)]
pub enum ScoreKey {
    /// A finite score.
    Finite(i64),
    /// A NaN or infinite score.
    NonFinite,
}

/// `r` stands for `n / d`.
pub open spec fn is_ratio(r: Ratio, n: int, d: int) -> bool {
    r.numerator == n && r.denominator == d
}

/// Every rank is 1-indexed (none is zero).
pub open spec fn ranks_valid(ranks: Seq<usize>) -> bool {
    forall|i: int| 0 <= i < ranks.len() ==> ranks[i] != 0
}

/// `index` is the position of the first zero rank.
pub open spec fn first_zero_rank(ranks: Seq<usize>, index: int) -> bool {
    &&& 0 <= index < ranks.len()
    &&& ranks[index] == 0
    &&& forall|j: int| 0 <= j < index ==> ranks[j] != 0
}

/// `e` reports the first zero rank of `ranks`.
pub open spec fn reports_first_zero_rank(ranks: Seq<usize>, e: MetricError) -> bool {
    e matches MetricError::ZeroRank { index } && first_zero_rank(ranks, index as int)
}

/// Sum of all ranks.
pub open spec fn rank_total(ranks: Seq<usize>) -> nat
    decreases ranks.len(),
{
    if ranks.len() == 0 {
        0
    } else {
        (rank_total(ranks.drop_last()) + ranks.last()) as nat
    }
}

/// Number of ranks at or above `k` (that is, `rank <= k`).
pub open spec fn hits_count(ranks: Seq<usize>, k: usize) -> nat
    decreases ranks.len(),
{
    if ranks.len() == 0 {
        0
    } else {
        hits_count(ranks.drop_last(), k) + if ranks.last() <= k {
            1nat
        } else {
            0nat
        }
    }
}

/// Hits@k never decreases as `k` grows, and never exceeds the number of queries.
pub proof fn lemma_hits_monotone(ranks: Seq<usize>, k1: usize, k2: usize)
    requires
        k1 <= k2,
    ensures
        hits_count(ranks, k1) <= hits_count(ranks, k2),
        hits_count(ranks, k2) <= ranks.len(),
    decreases ranks.len(),
{
    if ranks.len() > 0 {
        lemma_hits_monotone(ranks.drop_last(), k1, k2);
    }
}

/// The mean of valid ranks is at least one, and at most `bound` when every
/// rank is at most `bound`.
pub proof fn lemma_mean_rank_bounds(ranks: Seq<usize>, bound: usize)
    requires
        ranks_valid(ranks),
    ensures
        rank_total(ranks) >= ranks.len(),
        ranks_at_most(ranks, bound) ==> rank_total(ranks) <= ranks.len() * bound,
    decreases ranks.len(),
{
    if ranks.len() > 0 {
        let prefix = ranks.drop_last();
        assert(ranks_valid(prefix)) by {
            assert forall|i: int| 0 <= i < prefix.len() implies prefix[i] != 0 by {
                assert(prefix[i] == ranks[i]);
            }
        }
        lemma_mean_rank_bounds(prefix, bound);
        assert(ranks[ranks.len() - 1] != 0);
        if ranks_at_most(ranks, bound) {
            assert(ranks_at_most(prefix, bound)) by {
                assert forall|i: int| 0 <= i < prefix.len() implies prefix[i] <= bound by {
                    assert(prefix[i] == ranks[i]);
                }
            }
            assert(ranks[ranks.len() - 1] <= bound);
            assert(prefix.len() * bound + bound == ranks.len() * bound) by (nonlinear_arith)
                requires
                    prefix.len() + 1 == ranks.len(),
            ;
        }
    }
}

/// The mean rank as a ratio, zero for empty input.
pub open spec fn is_mean_rank(ranks: Seq<usize>, r: Ratio) -> bool {
    if ranks.len() == 0 {
        is_ratio(r, 0, 1)
    } else {
        is_ratio(r, rank_total(ranks) as int, ranks.len() as int)
    }
}

/// Check that every rank is 1-indexed, reporting the first zero rank.
pub fn validate_ranks(ranks: &[usize]) -> (res: Result<(), MetricError>)
    ensures
        res is Ok <==> ranks_valid(ranks@),
        res matches Err(e) ==> reports_first_zero_rank(ranks@, e),
{
    let mut i: usize = 0;
    while i < ranks.len()
        invariant
            i <= ranks.len(),
            forall|j: int| 0 <= j < i ==> ranks@[j] != 0,
        decreases ranks.len() - i,
    {
        if ranks[i] == 0 {
            return Err(MetricError::ZeroRank { index: i });
        }
        i = i + 1;
    }
    Ok(())
}

proof fn lemma_rank_total_step(ranks: Seq<usize>, i: int)
    requires
        0 <= i < ranks.len(),
    ensures
        rank_total(ranks.subrange(0, i + 1)) == rank_total(ranks.subrange(0, i)) + ranks[i],
{
    assert(ranks.subrange(0, i + 1).drop_last() =~= ranks.subrange(0, i));
}

proof fn lemma_hits_step(ranks: Seq<usize>, i: int, k: usize)
    requires
        0 <= i < ranks.len(),
    ensures
        hits_count(ranks.subrange(0, i + 1), k) == hits_count(ranks.subrange(0, i), k) + if ranks[i] <= k { 1nat } else { 0nat },
{
    assert(ranks.subrange(0, i + 1).drop_last() =~= ranks.subrange(0, i));
}

pub(crate) proof fn lemma_mul_bound(a: int, b: int, m: int)
    requires
        0 <= a <= m,
        0 <= b <= m,
    ensures
        a * b <= m * m,
        (a + 1) * m == a * m + m,
{
    assert(a * b <= m * m) by (nonlinear_arith)
        requires
            0 <= a <= m,
            0 <= b <= m,
    ;
    assert((a + 1) * m == a * m + m) by (nonlinear_arith);
}

pub(crate) proof fn lemma_usize_square_fits()
    ensures
        (usize::MAX as int) * (usize::MAX as int) < u128::MAX,
{
    assert((usize::MAX as int) * (usize::MAX as int) < u128::MAX) by (nonlinear_arith)
        requires
            usize::MAX <= 0xffff_ffff_ffff_ffff,
    ;
}

/// The sum of the ranks, as an exact `u128` (it cannot overflow).
fn sum_ranks(ranks: &[usize]) -> (total: u128)
    ensures
        total == rank_total(ranks@),
{
    let mut total: u128 = 0;
    let mut i: usize = 0;
    proof {
        lemma_usize_square_fits();
        assert(ranks@.subrange(0, 0) =~= Seq::<usize>::empty());
    }
    while i < ranks.len()
        invariant
            i <= ranks.len(),
            total == rank_total(ranks@.subrange(0, i as int)),
            total <= (i as int) * (usize::MAX as int),
            (usize::MAX as int) * (usize::MAX as int) < u128::MAX,
        decreases ranks.len() - i,
    {
        proof {
            lemma_rank_total_step(ranks@, i as int);
            lemma_mul_bound(i as int, i as int, usize::MAX as int);
            lemma_mul_bound(i as int + 1, i as int + 1, usize::MAX as int);
        }
        total = total + ranks[i] as u128;
        i = i + 1;
    }
    assert(ranks@.subrange(0, ranks.len() as int) =~= ranks@);
    total
}

/// The number of ranks `<= k`.
fn count_hits(ranks: &[usize], k: usize) -> (count: usize)
    ensures
        count == hits_count(ranks@, k),
        count <= ranks.len(),
{
    let mut count: usize = 0;
    let mut i: usize = 0;
    proof {
        assert(ranks@.subrange(0, 0) =~= Seq::<usize>::empty());
    }
    while i < ranks.len()
        invariant
            i <= ranks.len(),
            count <= i,
            count == hits_count(ranks@.subrange(0, i as int), k),
        decreases ranks.len() - i,
    {
        proof {
            lemma_hits_step(ranks@, i as int, k);
        }
        if ranks[i] <= k {
            count = count + 1;
        }
        i = i + 1;
    }
    assert(ranks@.subrange(0, ranks.len() as int) =~= ranks@);
    count
}

/// Mean Rank: arithmetic mean of all ranks.
///
/// Lower is better. Returns zero for empty input; fails on the first zero rank.
pub fn try_mean_rank(ranks: &[usize]) -> (res: Result<Ratio, MetricError>)
    ensures
        res is Ok <==> ranks_valid(ranks@),
        res matches Err(e) ==> reports_first_zero_rank(ranks@, e),
        res matches Ok(r) ==> is_mean_rank(ranks@, r),
{
    validate_ranks(ranks)?;
    if ranks.len() == 0 {
        return Ok(Ratio { numerator: 0, denominator: 1 });
    }
    let total = sum_ranks(ranks);
    Ok(Ratio { numerator: total, denominator: ranks.len() as u128 })
}

/// Mean Rank of 1-indexed ranks; see [`try_mean_rank`].
pub fn mean_rank(ranks: &[usize]) -> (r: Ratio)
    requires
        ranks_valid(ranks@),
    ensures
        is_mean_rank(ranks@, r),
{
    match try_mean_rank(ranks) {
        Ok(r) => r,
        Err(_) => Ratio { numerator: 0, denominator: 1 },
    }
}

/// Hits@k: fraction of queries whose correct answer ranks at or above `k`.
///
/// Higher is better; the value lies in `[0, 1]`. Returns zero for empty input.
pub fn try_hits_at_k(ranks: &[usize], k: usize) -> (res: Result<Ratio, MetricError>)
    ensures
        res is Ok <==> ranks_valid(ranks@),
        res matches Err(e) ==> reports_first_zero_rank(ranks@, e),
        res matches Ok(r) ==> if ranks@.len() == 0 {
            is_ratio(r, 0, 1)
        } else {
            is_ratio(r, hits_count(ranks@, k) as int, ranks@.len() as int)
        },
        res matches Ok(r) ==> r.numerator <= r.denominator && r.denominator > 0,
{
    validate_ranks(ranks)?;
    if ranks.len() == 0 {
        return Ok(Ratio { numerator: 0, denominator: 1 });
    }
    let count = count_hits(ranks, k);
    Ok(Ratio { numerator: count as u128, denominator: ranks.len() as u128 })
}

/// Hits@k of 1-indexed ranks; see [`try_hits_at_k`].
pub fn hits_at_k(ranks: &[usize], k: usize) -> (r: Ratio)
    requires
        ranks_valid(ranks@),
    ensures
        if ranks@.len() == 0 {
            is_ratio(r, 0, 1)
        } else {
            is_ratio(r, hits_count(ranks@, k) as int, ranks@.len() as int)
        },
{
    match try_hits_at_k(ranks, k) {
        Ok(r) => r,
        Err(_) => Ratio { numerator: 0, denominator: 1 },
    }
}

/// `index` is the position of the first rank above `bound`.
pub open spec fn first_rank_above(ranks: Seq<usize>, bound: usize, index: int) -> bool {
    &&& 0 <= index < ranks.len()
    &&& ranks[index] > bound
    &&& forall|j: int| 0 <= j < index ==> ranks[j] <= bound
}

/// Every rank is at most `bound`.
pub open spec fn ranks_at_most(ranks: Seq<usize>, bound: usize) -> bool {
    forall|i: int| 0 <= i < ranks.len() ==> ranks[i] <= bound
}

/// Adjusted Mean Rank: `mean_rank / expected_random_mean_rank`.
///
/// The expected mean rank under a uniform random model is
/// `(candidate_count + 1) / 2`; a value below one is better than random.
/// `candidate_count` is the number of candidates used for every query.
/// Returns a zero mean rank for empty input.
pub fn try_adjusted_mean_rank(ranks: &[usize], candidate_count: usize) -> (res: Result<
    AdjustedMeanRank,
    MetricError,
>)
    ensures
        !ranks_valid(ranks@) ==> (res matches Err(e) && reports_first_zero_rank(ranks@, e)),
        ranks_valid(ranks@) && candidate_count == 0 ==> res == Err::<AdjustedMeanRank, MetricError>(
            MetricError::ZeroCandidateCount,
        ),
        ranks_valid(ranks@) && candidate_count != 0 && !ranks_at_most(ranks@, candidate_count)
            ==> (res matches Err(e) && e matches MetricError::RankExceedsCandidateCount {
            index,
            rank,
            candidate_count: c,
        } && first_rank_above(ranks@, candidate_count, index as int) && rank == ranks@[index as int]
            && c == candidate_count),
        res is Ok <==> ranks_valid(ranks@) && candidate_count != 0 && ranks_at_most(
            ranks@,
            candidate_count,
        ),
        res matches Ok(a) ==> is_mean_rank(ranks@, a.mean_rank) && is_ratio(
            a.expected_rank,
            candidate_count + 1,
            2,
        ),
{
    validate_ranks(ranks)?;
    if candidate_count == 0 {
        return Err(MetricError::ZeroCandidateCount);
    }
    let mut i: usize = 0;
    while i < ranks.len()
        invariant
            i <= ranks.len(),
            forall|j: int| 0 <= j < i ==> ranks@[j] <= candidate_count,
            ranks_valid(ranks@),
            candidate_count != 0,
        decreases ranks.len() - i,
    {
        if ranks[i] > candidate_count {
            return Err(
                MetricError::RankExceedsCandidateCount { index: i, rank: ranks[i], candidate_count },
            );
        }
        i = i + 1;
    }
    let expected_rank = Ratio { numerator: candidate_count as u128 + 1, denominator: 2 };
    if ranks.len() == 0 {
        return Ok(
            AdjustedMeanRank { mean_rank: Ratio { numerator: 0, denominator: 1 }, expected_rank },
        );
    }
    let mean_rank = try_mean_rank(ranks)?;
    Ok(AdjustedMeanRank { mean_rank, expected_rank })
}

/// Adjusted Mean Rank of valid ranks; see [`try_adjusted_mean_rank`].
pub fn adjusted_mean_rank(ranks: &[usize], candidate_count: usize) -> (a: AdjustedMeanRank)
    requires
        ranks_valid(ranks@),
        candidate_count != 0,
        ranks_at_most(ranks@, candidate_count),
    ensures
        is_mean_rank(ranks@, a.mean_rank),
        is_ratio(a.expected_rank, candidate_count + 1, 2),
{
    match try_adjusted_mean_rank(ranks, candidate_count) {
        Ok(a) => a,
        Err(_) => AdjustedMeanRank {
            mean_rank: Ratio { numerator: 0, denominator: 1 },
            expected_rank: Ratio { numerator: 0, denominator: 1 },
        },
    }
}

/// Number of finite scores strictly better (smaller) than `t`.
pub open spec fn strictly_better_count(scores: Seq<ScoreKey>, t: i64) -> nat
    decreases scores.len(),
{
    if scores.len() == 0 {
        0
    } else {
        strictly_better_count(scores.drop_last(), t) + match scores.last() {
            ScoreKey::Finite(s) => if s < t { 1nat } else { 0nat },
            ScoreKey::NonFinite => 0nat,
        }
    }
}

/// Number of finite scores at least as good as (not larger than) `t`.
pub open spec fn at_least_as_good_count(scores: Seq<ScoreKey>, t: i64) -> nat
    decreases scores.len(),
{
    if scores.len() == 0 {
        0
    } else {
        at_least_as_good_count(scores.drop_last(), t) + match scores.last() {
            ScoreKey::Finite(s) => if s <= t { 1nat } else { 0nat },
            ScoreKey::NonFinite => 0nat,
        }
    }
}

/// Every candidate score is finite.
pub open spec fn scores_finite(scores: Seq<ScoreKey>) -> bool {
    forall|i: int| 0 <= i < scores.len() ==> scores[i] is Finite
}

/// `index` is the position of the first non-finite score.
pub open spec fn first_non_finite(scores: Seq<ScoreKey>, index: int) -> bool {
    &&& 0 <= index < scores.len()
    &&& scores[index] is NonFinite
    &&& forall|j: int| 0 <= j < index ==> scores[j] is Finite
}

/// The realistic rank `(optimistic + pessimistic) / 2` of the true score `t`,
/// where optimistic is one more than the number of strictly better scores and
/// pessimistic is the number of scores at least as good.
pub open spec fn is_realistic_rank(scores: Seq<ScoreKey>, t: i64, r: Ratio) -> bool {
    is_ratio(
        r,
        (strictly_better_count(scores, t) + 1 + at_least_as_good_count(scores, t)) as int,
        2,
    )
}

proof fn lemma_counts_step(scores: Seq<ScoreKey>, i: int, t: i64)
    requires
        0 <= i < scores.len(),
    ensures
        strictly_better_count(scores.subrange(0, i + 1), t) == strictly_better_count(scores.subrange(0, i), t)
            + match scores[i] {
            ScoreKey::Finite(s) => if s < t { 1nat } else { 0nat },
            ScoreKey::NonFinite => 0nat,
        },
        at_least_as_good_count(scores.subrange(0, i + 1), t) == at_least_as_good_count(scores.subrange(0, i), t)
            + match scores[i] {
            ScoreKey::Finite(s) => if s <= t { 1nat } else { 0nat },
            ScoreKey::NonFinite => 0nat,
        },
{
    assert(scores.subrange(0, i + 1).drop_last() =~= scores.subrange(0, i));
}

/// When the true score is among the candidates, the optimistic rank (strictly
/// better count plus one) never exceeds the pessimistic rank, which never
/// exceeds the number of candidates: the realistic rank lies in `[1, n]`.
pub proof fn lemma_realistic_bounds(scores: Seq<ScoreKey>, t: i64)
    requires
        scores.contains(ScoreKey::Finite(t)),
    ensures
        strictly_better_count(scores, t) + 1 <= at_least_as_good_count(scores, t),
        at_least_as_good_count(scores, t) <= scores.len(),
    decreases scores.len(),
{
    let prefix = scores.drop_last();
    lemma_counts_le_len(prefix, t);
    assert(strictly_better_count(scores, t) == strictly_better_count(prefix, t) + match scores.last() {
        ScoreKey::Finite(s) => if s < t { 1nat } else { 0nat },
        ScoreKey::NonFinite => 0nat,
    });
    assert(at_least_as_good_count(scores, t) == at_least_as_good_count(prefix, t) + match scores.last() {
        ScoreKey::Finite(s) => if s <= t { 1nat } else { 0nat },
        ScoreKey::NonFinite => 0nat,
    });
    if scores.last() == ScoreKey::Finite(t) {
    } else {
        let j = choose|j: int| 0 <= j < scores.len() && scores[j] == ScoreKey::Finite(t);
        assert(j != scores.len() - 1);
        assert(prefix[j] == ScoreKey::Finite(t));
        assert(prefix.contains(ScoreKey::Finite(t)));
        lemma_realistic_bounds(prefix, t);
    }
}

pub proof fn lemma_counts_le_len(scores: Seq<ScoreKey>, t: i64)
    ensures
        strictly_better_count(scores, t) <= at_least_as_good_count(scores, t),
        at_least_as_good_count(scores, t) <= scores.len(),
    decreases scores.len(),
{
    if scores.len() > 0 {
        lemma_counts_le_len(scores.drop_last(), t);
    }
}

/// Realistic rank of the true score among all candidate scores (PyKEEN
/// convention): the mean of the optimistic rank (number of strictly better
/// candidates plus one) and the pessimistic rank (number of candidates at
/// least as good). Lower scores are better.
///
/// Fails if the true score or a candidate score is non-finite (in that order,
/// reporting the first non-finite candidate), or if the true score is absent
/// from the candidates.
pub fn try_realistic_rank(all_scores: &[ScoreKey], true_score: ScoreKey) -> (res: Result<
    Ratio,
    MetricError,
>)
    ensures
        true_score is NonFinite ==> res == Err::<Ratio, MetricError>(
            MetricError::NonFiniteScore { index: None },
        ),
        true_score is Finite && !scores_finite(all_scores@) ==> (res matches Err(e)
            && e matches MetricError::NonFiniteScore { index: Some(i) } && first_non_finite(
            all_scores@,
            i as int,
        )),
        true_score is Finite && scores_finite(all_scores@) && !all_scores@.contains(true_score)
            ==> res == Err::<Ratio, MetricError>(MetricError::MissingTrueCandidate),
        res is Ok <==> true_score is Finite && scores_finite(all_scores@) && all_scores@.contains(
            true_score,
        ),
        res matches Ok(r) ==> true_score matches ScoreKey::Finite(t) && is_realistic_rank(
            all_scores@,
            t,
            r,
        ),
        res matches Ok(r) ==> 2 <= r.numerator <= 2 * all_scores@.len() && r.denominator == 2,
{
    let t = match true_score {
        ScoreKey::Finite(t) => t,
        ScoreKey::NonFinite => {
            return Err(MetricError::NonFiniteScore { index: None });
        },
    };
    let mut i: usize = 0;
    while i < all_scores.len()
        invariant
            i <= all_scores.len(),
            forall|j: int| 0 <= j < i ==> all_scores@[j] is Finite,
            true_score == ScoreKey::Finite(t),
        decreases all_scores.len() - i,
    {
        if all_scores[i] == ScoreKey::NonFinite {
            return Err(MetricError::NonFiniteScore { index: Some(i) });
        }
        i = i + 1;
    }
    let mut found = false;
    let mut strictly_better: usize = 0;
    let mut at_least_as_good: usize = 0;
    let mut i: usize = 0;
    proof {
        assert(all_scores@.subrange(0, 0) =~= Seq::<ScoreKey>::empty());
    }
    while i < all_scores.len()
        invariant
            i <= all_scores.len(),
            found <==> all_scores@.subrange(0, i as int).contains(true_score),
            strictly_better == strictly_better_count(all_scores@.subrange(0, i as int), t),
            at_least_as_good == at_least_as_good_count(all_scores@.subrange(0, i as int), t),
            at_least_as_good <= i,
            strictly_better <= i,
            true_score == ScoreKey::Finite(t),
        decreases all_scores.len() - i,
    {
        proof {
            lemma_counts_step(all_scores@, i as int, t);
            lemma_counts_le_len(all_scores@.subrange(0, i as int + 1), t);
            assert(all_scores@.subrange(0, i as int + 1) =~= all_scores@.subrange(0, i as int).push(
                all_scores@[i as int],
            ));
        }
        let s = all_scores[i];
        if s == true_score {
            found = true;
        }
        if let ScoreKey::Finite(v) = s {
            if v < t {
                strictly_better = strictly_better + 1;
            }
            if v <= t {
                at_least_as_good = at_least_as_good + 1;
            }
        }
        i = i + 1;
    }
    assert(all_scores@.subrange(0, all_scores.len() as int) =~= all_scores@);
    if !found {
        return Err(MetricError::MissingTrueCandidate);
    }
    proof {
        lemma_realistic_bounds(all_scores@, t);
    }
    let optimistic = strictly_better as u128 + 1;
    let pessimistic = at_least_as_good as u128;
    Ok(Ratio { numerator: optimistic + pessimistic, denominator: 2 })
}

/// Realistic rank over finite scores that contain the true score; see
/// [`try_realistic_rank`].
pub fn realistic_rank(all_scores: &[ScoreKey], true_score: i64) -> (r: Ratio)
    requires
        scores_finite(all_scores@),
        all_scores@.contains(ScoreKey::Finite(true_score)),
    ensures
        is_realistic_rank(all_scores@, true_score, r),
{
    match try_realistic_rank(all_scores, ScoreKey::Finite(true_score)) {
        Ok(r) => r,
        Err(_) => Ratio { numerator: 0, denominator: 1 },
    }
}

/// The ranks paired with relation `rel`, in input order.
pub open spec fn ranks_of_relation(rel_ranks: Seq<(usize, usize)>, rel: usize) -> Seq<usize>
    decreases rel_ranks.len(),
{
    if rel_ranks.len() == 0 {
        Seq::empty()
    } else {
        let prefix = ranks_of_relation(rel_ranks.drop_last(), rel);
        if rel_ranks.last().0 == rel {
            prefix.push(rel_ranks.last().1)
        } else {
            prefix
        }
    }
}

/// `rel` occurs as the relation of some pair.
pub open spec fn has_relation(rel_ranks: Seq<(usize, usize)>, rel: usize) -> bool {
    exists|i: int| 0 <= i < rel_ranks.len() && rel_ranks[i].0 == rel
}

/// Whether a `(relation_id, rank)` pair has relation `rel`.
pub open spec fn with_relation(rel: usize) -> spec_fn((usize, usize)) -> bool {
    |p: (usize, usize)| p.0 == rel
}

/// The rank of a `(relation_id, rank)` pair.
pub open spec fn pair_rank() -> spec_fn((usize, usize)) -> usize {
    |p: (usize, usize)| p.1
}

/// Each relation's group keeps one rank for every input pair with that
/// relation, duplicates included, in input order: it is the input filtered to
/// the relation, each pair taken by its rank.
pub proof fn lemma_ranks_of_relation_keeps_every_pair(rel_ranks: Seq<(usize, usize)>, rel: usize)
    ensures
        ranks_of_relation(rel_ranks, rel) == rel_ranks.filter(with_relation(rel)).map_values(pair_rank()),
        ranks_of_relation(rel_ranks, rel).len() == rel_ranks.filter(with_relation(rel)).len(),
    decreases rel_ranks.len(),
{
    let pred = with_relation(rel);
    let rank = pair_rank();
    reveal_with_fuel(Seq::filter, 1);
    if rel_ranks.len() > 0 {
        lemma_ranks_of_relation_keeps_every_pair(rel_ranks.drop_last(), rel);
        let prefix = rel_ranks.drop_last().filter(pred);
        if pred(rel_ranks.last()) {
            assert(prefix.push(rel_ranks.last()).map_values(rank) =~= prefix.map_values(rank).push(rel_ranks.last().1));
        }
    }
    assert(ranks_of_relation(rel_ranks, rel) =~= rel_ranks.filter(pred).map_values(rank));
}

/// Group `(relation_id, rank)` pairs by relation, keeping each relation's
/// ranks in input order. The per-relation MRR is the mean reciprocal rank of
/// each group.
pub fn group_ranks_by_relation(rel_ranks: &[(usize, usize)]) -> (grouped: HashMap<usize, Vec<usize>>)
    ensures
        forall|rel: usize| #[trigger] grouped@.contains_key(rel) <==> has_relation(rel_ranks@, rel),
        forall|rel: usize| #[trigger] grouped@.contains_key(rel) ==> grouped@[rel]@ == ranks_of_relation(rel_ranks@, rel),
        forall|rel: usize| #[trigger] grouped@.contains_key(rel) ==> grouped@[rel]@ == rel_ranks@.filter(with_relation(rel)).map_values(pair_rank()),
{
    let mut grouped: HashMap<usize, Vec<usize>> = HashMap::new();
    let mut i: usize = 0;
    proof {
        assert(rel_ranks@.subrange(0, 0) =~= Seq::<(usize, usize)>::empty());
    }
    while i < rel_ranks.len()
        invariant
            i <= rel_ranks.len(),
            forall|rel: usize| #[trigger] grouped@.contains_key(rel) <==> has_relation(rel_ranks@.subrange(0, i as int), rel),
            forall|rel: usize| #[trigger] grouped@.contains_key(rel) ==> grouped@[rel]@ == ranks_of_relation(rel_ranks@.subrange(0, i as int), rel),
            forall|rel: usize| !has_relation(rel_ranks@.subrange(0, i as int), rel) ==> ranks_of_relation(rel_ranks@.subrange(0, i as int), rel) == Seq::<usize>::empty(),
        decreases rel_ranks.len() - i,
    {
        let (rel, rank) = rel_ranks[i];
        let ghost prefix = rel_ranks@.subrange(0, i as int);
        let ghost next = rel_ranks@.subrange(0, i as int + 1);
        proof {
            assert(next.drop_last() =~= prefix);
            assert forall|r: usize| has_relation(next, r) <==> has_relation(prefix, r) || r == rel by {
                if has_relation(next, r) {
                    let j = choose|j: int| 0 <= j < next.len() && next[j].0 == r;
                    if j < i {
                        assert(prefix[j].0 == r);
                    }
                }
                if has_relation(prefix, r) {
                    let j = choose|j: int| 0 <= j < prefix.len() && prefix[j].0 == r;
                    assert(next[j].0 == r);
                }
                if r == rel {
                    assert(next[i as int].0 == r);
                }
            }
        }
        let mut ranks = match grouped.remove(&rel) {
            Some(v) => v,
            None => Vec::new(),
        };
        ranks.push(rank);
        grouped.insert(rel, ranks);
        i = i + 1;
    }
    assert(rel_ranks@.subrange(0, rel_ranks.len() as int) =~= rel_ranks@);
    proof {
        assert forall|rel: usize| #[trigger] grouped@.contains_key(rel) implies grouped@[rel]@ == rel_ranks@.filter(with_relation(rel)).map_values(pair_rank()) by {
            lemma_ranks_of_relation_keeps_every_pair(rel_ranks@, rel);
        }
    }
    grouped
}

} // verus!
