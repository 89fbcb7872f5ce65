use mobius::bench::{matching_order, ClassificationAccuracyScorer, F1Scorer, Flag, Grade, GreedyTimestampMatcher, TimestampMaeScorer, TICKS_PER_SECOND};
use mobius::sorting::order_key;

fn ticks(seconds: f64) -> Option<i64> {
    Some((seconds * TICKS_PER_SECOND as f64).round() as i64)
}

fn window(seconds: f64) -> i64 {
    (seconds * TICKS_PER_SECOND as f64).round() as i64
}

#[test]
fn test_perfect_matching() {
    let matcher = GreedyTimestampMatcher;
    let gts = vec![ticks(10.0), ticks(20.0)];
    let preds = vec![ticks(10.5), ticks(19.8)];
    let result = matcher.match_predictions(&preds, &gts, window(6.0));
    assert_eq!(result.matched.len(), 2);
    assert_eq!(result.false_positives.len(), 0);
    assert_eq!(result.missed.len(), 0);
}

#[test]
fn test_with_false_positives() {
    let matcher = GreedyTimestampMatcher;
    let gts = vec![ticks(10.0)];
    let preds = vec![ticks(10.5), ticks(30.0)];
    let result = matcher.match_predictions(&preds, &gts, window(6.0));
    assert_eq!(result.matched.len(), 1);
    assert_eq!(result.false_positives.len(), 1);
    assert_eq!(result.missed.len(), 0);
}

#[test]
fn test_with_missed() {
    let matcher = GreedyTimestampMatcher;
    let gts = vec![ticks(10.0), ticks(50.0)];
    let preds = vec![ticks(10.5)];
    let result = matcher.match_predictions(&preds, &gts, window(6.0));
    assert_eq!(result.matched.len(), 1);
    assert_eq!(result.false_positives.len(), 0);
    assert_eq!(result.missed.len(), 1);
}

#[test]
fn test_outside_window() {
    let matcher = GreedyTimestampMatcher;
    let gts = vec![ticks(10.0)];
    let preds = vec![ticks(20.0)];
    let result = matcher.match_predictions(&preds, &gts, window(6.0));
    assert_eq!(result.matched.len(), 0);
    assert_eq!(result.false_positives.len(), 1);
    assert_eq!(result.missed.len(), 1);
}

#[test]
fn matcher_goes_by_time_and_takes_nearest() {
    let matcher = GreedyTimestampMatcher;
    // Ground truth out of time order; the earlier one is matched first and
    // takes the nearest prediction.
    let gts = vec![ticks(12.0), ticks(10.0)];
    let preds = vec![ticks(11.0), ticks(10.2), ticks(40.0)];
    let result = matcher.match_predictions(&preds, &gts, window(6.0));
    assert_eq!(result.matched, vec![(1, 1, 200_000), (0, 0, 1_000_000)]);
    assert_eq!(result.false_positives, vec![2]);
    assert!(result.missed.is_empty());
}

#[test]
fn matcher_tie_goes_to_first_prediction() {
    let matcher = GreedyTimestampMatcher;
    let gts = vec![ticks(10.0)];
    let preds = vec![ticks(11.0), ticks(9.0)];
    let result = matcher.match_predictions(&preds, &gts, window(2.0));
    assert_eq!(result.matched, vec![(0, 0, 1_000_000)]);
    assert_eq!(result.false_positives, vec![1]);
}

#[test]
fn missing_timestamps_count_as_zero() {
    let matcher = GreedyTimestampMatcher;
    let gts = vec![None];
    let preds = vec![ticks(1.0)];
    let result = matcher.match_predictions(&preds, &gts, window(2.0));
    assert_eq!(result.matched, vec![(0, 0, 1_000_000)]);
}

#[test]
fn ground_truth_order_is_stable() {
    assert_eq!(matching_order(&[ticks(3.0), ticks(1.0), ticks(3.0), None]), vec![3, 1, 0, 2]);
}

#[test]
fn f1_fraction_exact() {
    let s = F1Scorer;
    assert_eq!(s.name(), "f1");
    assert_eq!(s.f1(8, 6, 5), (16, 27));
    assert_eq!(s.f1(0, 3, 4), (0, 1));
    assert_eq!(s.f1(5, 0, 0), (10, 10));
    assert_eq!(s.precision(8, 6), (8, 14));
    assert_eq!(s.recall(8, 5), (8, 13));
    assert_eq!(s.precision(0, 0), (0, 1));
}

#[test]
fn f1_matches_harmonic_mean_of_floats() {
    let s = F1Scorer;
    let (n, d) = s.f1(8, 6, 5);
    let p = 8.0 / 14.0;
    let r = 8.0 / 13.0;
    let f = 2.0 * p * r / (p + r);
    assert!((n as f64 / d as f64 - f).abs() < 1e-12);
}

#[test]
fn classification_counts_labels_ignoring_ascii_case() {
    let s = ClassificationAccuracyScorer::on_primary_label();
    assert_eq!(s.label_field, "label");
    assert_eq!(s.name(), "classification_accuracy");
    let pairs = vec![
        ("Make".to_string(), Some("make".to_string())),
        ("miss".to_string(), Some("make".to_string())),
        ("".to_string(), None),
        ("ÄB".to_string(), Some("äb".to_string())),
    ];
    assert_eq!(s.correct_count(&pairs), 2);
    let custom = ClassificationAccuracyScorer::new("team".to_string());
    assert_eq!(custom.label_field, "team");
}

#[test]
fn timing_points_tiers() {
    let s = TimestampMaeScorer;
    assert_eq!(s.name(), "timestamp_mae");
    assert_eq!(s.points(Some(TICKS_PER_SECOND)), 100);
    assert_eq!(s.points(Some(TICKS_PER_SECOND + 1)), 90);
    assert_eq!(s.points(Some(3 * TICKS_PER_SECOND)), 80);
    assert_eq!(s.points(Some(5 * TICKS_PER_SECOND)), 60);
    assert_eq!(s.points(Some(8 * TICKS_PER_SECOND)), 40);
    assert_eq!(s.points(Some(12 * TICKS_PER_SECOND)), 20);
    assert_eq!(s.points(Some(12 * TICKS_PER_SECOND + 1)), 0);
    assert_eq!(s.points(None), 0);
    assert_eq!(s.total_points(&[Some(0), Some(2 * TICKS_PER_SECOND), None]), 190);
}

#[test]
fn grades_from_scores() {
    let g = |x: f64| Grade::from_score(order_key(x.to_bits()));
    assert_eq!(g(85.0), Grade::Excellent);
    assert_eq!(g(84.99), Grade::Good);
    assert_eq!(g(70.0), Grade::Good);
    assert_eq!(g(50.0), Grade::Pass);
    assert_eq!(g(49.9), Grade::Fail);
    assert_eq!(g(-3.0), Grade::Fail);
    assert_eq!(g(f64::NAN), Grade::Fail);
    assert_eq!(g(f64::INFINITY), Grade::Excellent);
    assert_ne!(Flag::Green, Flag::Red);
}

#[test]
fn every_item_lands_in_exactly_one_bucket() {
    let matcher = GreedyTimestampMatcher;
    let gts = vec![ticks(30.0), ticks(10.0), None, ticks(20.0), ticks(10.2)];
    let preds = vec![ticks(10.1), ticks(50.0), ticks(21.0), ticks(29.0)];
    let result = matcher.match_predictions(&preds, &gts, window(6.0));
    for g in 0..gts.len() {
        let matched = result.matched.iter().filter(|m| m.0 == g).count();
        let missed = result.missed.iter().filter(|&&i| i == g).count();
        assert_eq!(matched + missed, 1);
    }
    for p in 0..preds.len() {
        let matched = result.matched.iter().filter(|m| m.1 == p).count();
        let spare = result.false_positives.iter().filter(|&&i| i == p).count();
        assert_eq!(matched + spare, 1);
    }
}
