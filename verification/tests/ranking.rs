use lattix::ranking::{top_n, ScoreOrder};

/// A score written in the ranking order: its IEEE 754 total-order key.
fn score(value: f64) -> ScoreOrder {
    let mut bits = value.to_bits() as i64;
    bits ^= (((bits >> 63) as u64) >> 1) as i64;
    ScoreOrder { is_nan: value.is_nan(), order: bits }
}

fn ids(entries: Vec<(String, ScoreOrder)>) -> Vec<String> {
    entries.into_iter().map(|(id, _)| id).collect()
}

#[test]
fn top_n_breaks_equal_score_ties_by_entity_id() {
    let permutations = [
        [("z", 0.5), ("a", 0.5), ("m", 0.5)],
        [("m", 0.5), ("z", 0.5), ("a", 0.5)],
        [("a", 0.5), ("m", 0.5), ("z", 0.5)],
    ];
    for input in permutations {
        let entries: Vec<(String, ScoreOrder)> =
            input.into_iter().map(|(id, s)| (id.to_string(), score(s))).collect();
        assert_eq!(ids(top_n(entries, 3)), ["a", "m", "z"]);
    }
}

#[test]
fn top_n_uses_a_total_score_order() {
    let entries: Vec<(String, ScoreOrder)> = [
        ("negative_infinity", f64::NEG_INFINITY),
        ("negative_zero", -0.0),
        ("positive_zero", 0.0),
        ("infinity", f64::INFINITY),
        ("nan", f64::NAN),
    ]
    .into_iter()
    .map(|(id, s)| (id.to_string(), score(s)))
    .collect();
    let n = entries.len();
    assert_eq!(
        ids(top_n(entries, n)),
        ["infinity", "positive_zero", "negative_zero", "negative_infinity", "nan"]
    );
}

#[test]
fn top_n_truncates_to_n_best() {
    let entries: Vec<(String, ScoreOrder)> = [("A", 0.5), ("B", 0.3), ("C", 0.2)]
        .into_iter()
        .map(|(id, s)| (id.to_string(), score(s)))
        .collect();
    let top = top_n(entries.clone(), 2);
    assert_eq!(top.len(), 2);
    assert_eq!(top[0].0, "A");
    assert_eq!(top[1].0, "B");
    assert_eq!(top[0].1, score(0.5));
    assert_eq!(top_n(entries.clone(), 10).len(), 3);
    assert!(top_n(entries, 0).is_empty());
}

#[test]
fn identifiers_tie_break_byte_wise() {
    let entries: Vec<(String, ScoreOrder)> = ["b", "ab", "a", "B", "é"]
        .into_iter()
        .map(|id| (id.to_string(), score(1.0)))
        .collect();
    assert_eq!(ids(top_n(entries, 5)), ["B", "a", "ab", "b", "é"]);
}
