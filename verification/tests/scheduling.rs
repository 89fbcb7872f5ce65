use mobius::hyperband::{Hyperband, HyperbandStep};
use mobius::pruning::{AshaPruner, MedianPruner, MedianVerdict};
use mobius::sorting::{order_key, sort_keys};
use mobius::trial::TrialRecord;

fn key(x: f64) -> i64 {
    order_key(x.to_bits())
}

fn value(k: i64) -> f64 {
    if k >= 0 {
        f64::from_bits(k as u64)
    } else {
        -f64::from_bits(k.unsigned_abs())
    }
}

/// The median rule's answer for a trial of value `x`, finishing an
/// even-count comparison with the mean of the two middle values.
fn median_prunes(pruner: &MedianPruner, x: f64, history: &[Option<i64>]) -> bool {
    match pruner.should_prune(key(x), history) {
        MedianVerdict::Prune => true,
        MedianVerdict::Keep => false,
        MedianVerdict::AgainstMidpoint { lower, upper } => x < (value(lower) + value(upper)) / 2.0,
    }
}

fn keys(xs: &[f64]) -> Vec<Option<i64>> {
    xs.iter().map(|x| Some(key(*x))).collect()
}

fn run(bracket: u64, rung: u64, f1: f64) -> TrialRecord {
    TrialRecord {
        params: vec![("lr".to_string(), format!("{}", f1))],
        metric: Some(key(f1)),
        bracket: Some(bracket),
        rung: Some(rung),
    }
}

#[test]
fn test_hyperband_name() {
    let hb = Hyperband::new(81, 3);
    assert_eq!(hb.name(), "hyperband");
}

#[test]
fn test_hyperband_s_max() {
    let hb = Hyperband::new(81, 3);
    assert_eq!(hb.s_max(), 4);
}

#[test]
fn test_hyperband_suggests_low_fidelity() {
    let hb = Hyperband::new(81, 3);
    assert!(hb.can_schedule());
    let step = hb.plan(&[]);
    assert_eq!(step, HyperbandStep::NewConfig { bracket: 4, rung: 0, fidelity: 1 });
}

#[test]
fn hyperband_bracket_sizes() {
    let hb = Hyperband::new(81, 3);
    assert_eq!(hb.n_configs(4), 81);
    assert_eq!(hb.n_configs(3), 34);
    assert_eq!(hb.n_configs(0), 5);
    assert_eq!(hb.initial_resource(4), 1);
    assert_eq!(hb.initial_resource(2), 9);
    assert_eq!(hb.initial_resource(0), 81);
}

#[test]
fn hyperband_s_max_exact_powers() {
    assert_eq!(Hyperband::new(243, 3).s_max(), 5);
    assert_eq!(Hyperband::new(80, 3).s_max(), 3);
    assert_eq!(Hyperband::new(1, 3).s_max(), 0);
    assert_eq!(Hyperband::new(10, 0).s_max(), 0);
}

#[test]
fn hyperband_unschedulable_eta_one() {
    assert!(!Hyperband::new(10, 1).can_schedule());
    assert!(Hyperband::new(1, 1).can_schedule());
}

#[test]
fn hyperband_promotes_best_of_full_rung() {
    let hb = Hyperband::new(9, 3);
    // s_max = 2; bracket 2 starts 9 configurations at fidelity 1.
    let mut history = Vec::new();
    for i in 0..9 {
        history.push(run(2, 0, 0.1 * (i as f64 + 1.0)));
    }
    let step = hb.plan(&history);
    assert_eq!(step, HyperbandStep::Promote { bracket: 2, rung: 1, fidelity: 3, source: 8 });
    assert_eq!(hb.count_at_rung(&history, 2, 0), 9);
}

#[test]
fn test_median_pruner_below_median() {
    let history = keys(&[0.5, 0.6, 0.7, 0.8]);
    let pruner = MedianPruner::new(3);
    assert!(median_prunes(&pruner, 0.4, &history)); // Below median (0.65)
}

#[test]
fn test_median_pruner_above_median() {
    let history = keys(&[0.5, 0.6, 0.7]);
    let pruner = MedianPruner::new(3);
    assert!(!median_prunes(&pruner, 0.8, &history));
}

#[test]
fn test_median_pruner_insufficient_trials() {
    let history = keys(&[0.5]);
    let pruner = MedianPruner::new(3);
    assert!(!median_prunes(&pruner, 0.1, &history));
}

#[test]
fn median_pruner_skips_runs_without_metric() {
    let history = vec![Some(key(0.5)), None, Some(key(0.9)), Some(key(0.7))];
    let pruner = MedianPruner::new(3);
    assert!(median_prunes(&pruner, 0.6, &history));
    assert!(!median_prunes(&pruner, 0.7, &history));
}

#[test]
fn median_of_an_even_count_is_the_mean_of_the_middle_values() {
    // Median of 0.5, 0.6, 0.7, 0.8 is 0.65: 0.68 is kept, 0.62 is pruned.
    let history = keys(&[0.8, 0.5, 0.7, 0.6]);
    let pruner = MedianPruner::new(3);
    assert_eq!(
        pruner.should_prune(key(0.68), &history),
        MedianVerdict::AgainstMidpoint { lower: key(0.6), upper: key(0.7) }
    );
    assert!(!median_prunes(&pruner, 0.68, &history));
    assert!(median_prunes(&pruner, 0.62, &history));
    assert_eq!(pruner.should_prune(key(0.55), &history), MedianVerdict::Prune);
    assert_eq!(pruner.should_prune(key(0.7), &history), MedianVerdict::Keep);
}

#[test]
fn test_pruner_keeps_good_trial() {
    let pruner = AshaPruner::new(3, 3);
    let history = keys(&[0.3, 0.4, 0.5, 0.6, 0.7, 0.8]);
    assert!(!pruner.should_prune(6, key(0.8), &history));
}

#[test]
fn test_pruner_kills_bad_trial() {
    let pruner = AshaPruner::new(3, 3);
    let history = keys(&[0.3, 0.4, 0.5, 0.6, 0.7, 0.8]);
    assert!(pruner.should_prune(6, key(0.3), &history));
}

#[test]
fn test_pruner_respects_min_iterations() {
    let pruner = AshaPruner::new(3, 5);
    let history = keys(&[0.5, 0.6, 0.7, 0.8]);
    assert!(!pruner.should_prune(3, key(0.1), &history));
}

#[test]
fn test_pruner_only_at_rung_boundaries() {
    let pruner = AshaPruner::new(3, 3);
    let history = keys(&[0.5, 0.6, 0.7, 0.8]);
    assert!(!pruner.should_prune(4, key(0.1), &history));
    assert!(pruner.should_prune(6, key(0.1), &history));
}

#[test]
fn order_keys_sort_like_numbers() {
    let xs = [-2.5, -0.0, 0.0, 1e-300, 3.0, -1e300];
    let ks: Vec<i64> = xs.iter().map(|x| key(*x)).collect();
    let sorted = sort_keys(&ks);
    let expect = vec![key(-1e300), key(-2.5), key(0.0), key(0.0), key(1e-300), key(3.0)];
    assert_eq!(sorted, expect);
    assert_eq!(key(-0.0), key(0.0));
}

#[test]
fn a_nan_trial_or_median_is_never_pruned() {
    let p = MedianPruner::new(3);
    assert_eq!(p.should_prune(key(f64::NAN), &keys(&[0.5, 0.6, 0.7])), MedianVerdict::Keep);
    assert_eq!(p.should_prune(key(-f64::NAN), &keys(&[0.5, 0.6, 0.7])), MedianVerdict::Keep);
    assert_eq!(p.should_prune(key(-f64::NAN), &keys(&[0.5, 0.6, 0.7, 0.8])), MedianVerdict::Keep);
    assert_eq!(p.should_prune(key(0.1), &keys(&[0.5, f64::NAN, f64::NAN])), MedianVerdict::Keep);
    let asha = AshaPruner::new(3, 3);
    assert!(!asha.should_prune(3, key(-f64::NAN), &keys(&[0.5, 0.6, 0.7])));
    assert!(asha.should_prune(3, key(0.1), &keys(&[0.5, 0.6, 0.7])));
}

#[test]
fn hyperband_steps_explain_themselves() {
    let step = HyperbandStep::NewConfig { bracket: 2, rung: 0, fidelity: 11 };
    assert_eq!(step.rationale(), Some("Hyperband bracket 2, rung 0: new config at fidelity 11".to_string()));
    assert_eq!(
        step.metadata(),
        vec![
            ("hyperband_bracket".to_string(), 2),
            ("hyperband_rung".to_string(), 0),
            ("fidelity".to_string(), 11)
        ]
    );
    let promoted = HyperbandStep::Promote { bracket: 1, rung: 1, fidelity: 30, source: 4 };
    assert_eq!(promoted.rationale(), Some("Hyperband bracket 1, rung 1: promoted config at fidelity 30".to_string()));
    assert_eq!(HyperbandStep::Complete.rationale(), None);
    assert!(HyperbandStep::Complete.metadata().is_empty());
}
