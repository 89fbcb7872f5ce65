use mobius::agent::{is_improvement, pre_hook_decision, revert_requested, targets_met, AgentState, BudgetCheckHook, Decision, HookAction, LoopControl, StopReason};
use mobius::classifier::{ErrorClassifier, ErrorCode, ErrorPattern};
use mobius::learning::{changed_parameters, Confidence, GradientDirection, LearningStore};
use mobius::sorting::order_key;
use mobius::store::{pareto_front, ExperimentStatus, JsonlStore};
use mobius::tools::{experiment_id, merge_params, production_config, HistoryParams, LearningsParams, ParetoParams, ScorerKind, StatusParams, SuggestParams};
use mobius::trial::TrialRecord;

fn key(x: f64) -> i64 {
    order_key(x.to_bits())
}

fn pairs(entries: &[(&str, &str)]) -> Vec<(String, String)> {
    entries.iter().map(|(k, v)| (k.to_string(), v.to_string())).collect()
}

fn record(params: &[(&str, &str)]) -> TrialRecord {
    TrialRecord { params: pairs(params), metric: None, bracket: None, rung: None }
}

#[test]
fn test_get_best() {
    let keys = vec![Some(key(0.75)), Some(key(0.82)), Some(key(0.78))];
    let ids = ["exp-001", "exp-002", "exp-003"];
    let best = JsonlStore::best_position(&keys).unwrap();
    assert_eq!(ids[best], "exp-002");
}

#[test]
fn test_get_recent() {
    let ids: Vec<String> = (0..10).map(|i| format!("exp-{:03}", i)).collect();
    let start = JsonlStore::recent_start(ids.len(), 3);
    let recent = &ids[start..];
    assert_eq!(recent.len(), 3);
    assert_eq!(recent[0], "exp-007");
}

#[test]
fn test_empty_store() {
    let keys: Vec<Option<i64>> = Vec::new();
    assert!(JsonlStore::best_position(&keys).is_none());
    assert_eq!(JsonlStore::recent_start(0, 5), 0);
}

#[test]
fn best_position_takes_last_of_equal_and_skips_missing() {
    let keys = vec![Some(key(0.9)), None, Some(key(0.9)), Some(key(0.1))];
    assert_eq!(JsonlStore::best_position(&keys), Some(2));
    assert_eq!(JsonlStore::best_position(&[None, None]), None);
}

#[test]
fn store_path_is_kept() {
    let s = JsonlStore::new("/tmp/h.jsonl".to_string());
    assert_eq!(s.path(), "/tmp/h.jsonl");
    let l = LearningStore::new("/tmp/l.jsonl".to_string());
    assert_eq!(l.path(), "/tmp/l.jsonl");
    assert_ne!(ExperimentStatus::Success, ExperimentStatus::Error);
}

#[test]
fn pareto_front_on_two_metrics() {
    let points = vec![
        (Some(key(0.9)), Some(key(0.5))),
        (Some(key(0.8)), Some(key(0.7))),
        (Some(key(0.7)), Some(key(0.6))),
        (None, Some(key(0.99))),
        (Some(key(0.6)), Some(key(0.9))),
    ];
    assert_eq!(pareto_front(&points), vec![0, 1, 4]);
}

#[test]
fn pareto_front_equal_x_keeps_only_the_best_y() {
    let points = vec![
        (Some(key(1.0)), Some(key(0.2))),
        (Some(key(1.0)), Some(key(0.3))),
        (Some(key(1.0)), Some(key(0.1))),
    ];
    assert_eq!(pareto_front(&points), vec![1]);
}

#[test]
fn pareto_front_drops_a_run_dominated_at_equal_x() {
    let points = vec![(Some(key(0.8)), Some(key(0.5))), (Some(key(0.8)), Some(key(0.9)))];
    assert_eq!(pareto_front(&points), vec![1]);
}

#[test]
fn pareto_front_is_undominated_and_left_out_runs_are_beaten() {
    let values = [(0.9, 0.5), (0.8, 0.7), (0.7, 0.6), (0.7, 0.8), (0.95, 0.1)];
    let points: Vec<(Option<i64>, Option<i64>)> = values.iter().map(|(x, y)| (Some(key(*x)), Some(key(*y)))).collect();
    let front = pareto_front(&points);
    assert_eq!(front, vec![4, 0, 1, 3]);
    for &p in &front {
        for (q, (x, y)) in values.iter().enumerate() {
            if q != p && *x >= values[p].0 && *y >= values[p].1 {
                assert!(*x == values[p].0 && *y == values[p].1);
            }
        }
    }
    for r in 0..values.len() {
        if !front.contains(&r) {
            assert!(values
                .iter()
                .enumerate()
                .any(|(q, (x, y))| q != r && *x >= values[r].0 && *y >= values[r].1));
        }
    }
}

#[test]
fn test_untried_dimensions() {
    let store = LearningStore::new("/tmp/learnings.jsonl".to_string());
    let history = vec![
        record(&[("ball_conf", "0.28"), ("dedup_window", "6.0")]),
        record(&[("ball_conf", "0.25"), ("dedup_window", "6.0")]),
    ];
    let keys = vec!["ball_conf".to_string(), "dedup_window".to_string(), "vlm_temp".to_string()];
    let untried = store.get_untried_dimensions(&history, &keys);
    assert!(!untried.contains(&"ball_conf".to_string()));
    assert!(untried.contains(&"dedup_window".to_string()));
    assert!(untried.contains(&"vlm_temp".to_string()));
}

#[test]
fn untried_with_short_history_is_everything() {
    let store = LearningStore::new("/tmp/learnings.jsonl".to_string());
    let history = vec![record(&[("a", "1")])];
    let keys = vec!["a".to_string(), "b".to_string()];
    assert_eq!(store.get_untried_dimensions(&history, &keys), keys);
}

#[test]
fn changed_parameters_between_runs() {
    let prev = pairs(&[("a", "1"), ("b", "2")]);
    let curr = pairs(&[("a", "1"), ("b", "3"), ("c", "4")]);
    let d = changed_parameters(&prev, &curr);
    assert_eq!(d.len(), 1);
    assert_eq!(d[0].param, "b");
    assert_eq!(d[0].old_value, "2");
    assert_eq!(d[0].new_value, "3");
}

#[test]
fn confidence_levels() {
    assert_eq!(Confidence::from_observations(0), Confidence::Low);
    assert_eq!(Confidence::from_observations(1), Confidence::Low);
    assert_eq!(Confidence::from_observations(2), Confidence::Medium);
    assert_eq!(Confidence::from_observations(4), Confidence::Medium);
    assert_eq!(Confidence::from_observations(5), Confidence::High);
}

#[test]
fn gradient_direction_from_evidence() {
    assert_eq!(GradientDirection::from_evidence(true, true, true, false, false), GradientDirection::IncreaseHelps);
    assert_eq!(GradientDirection::from_evidence(true, true, false, true, true), GradientDirection::DecreaseHelps);
    assert_eq!(GradientDirection::from_evidence(true, false, false, true, false), GradientDirection::IncreaseHelps);
    assert_eq!(GradientDirection::from_evidence(true, false, false, false, false), GradientDirection::DecreaseHelps);
    assert_eq!(GradientDirection::from_evidence(false, true, false, false, true), GradientDirection::DecreaseHelps);
    assert_eq!(GradientDirection::from_evidence(false, true, false, false, false), GradientDirection::IncreaseHelps);
    assert_eq!(GradientDirection::from_evidence(false, false, true, true, true), GradientDirection::Inconclusive);
}

#[test]
fn tool_parameter_defaults() {
    assert_eq!(StatusParams { metric: None }.metric(), "f1");
    assert_eq!(SuggestParams { metric: Some("recall".to_string()) }.metric(), "recall");
    assert_eq!(LearningsParams { param: None, metric: None }.metric(), "f1");
    assert_eq!(HistoryParams { last: None }.count(), 10);
    assert_eq!(HistoryParams { last: Some(7) }.count(), 7);
    assert_eq!(HistoryParams { last: Some(500) }.count(), 100);
    let p = ParetoParams { x_metric: "f1".to_string(), y_metric: "precision".to_string() };
    assert_eq!(p.y_metric, "precision");
}

#[test]
fn scorer_names() {
    assert_eq!(ScorerKind::for_name("f1"), ScorerKind::F1);
    assert_eq!(ScorerKind::for_name("accuracy"), ScorerKind::ClassificationAccuracy);
    assert_eq!(ScorerKind::for_name("classification_accuracy"), ScorerKind::ClassificationAccuracy);
    assert_eq!(ScorerKind::for_name("timestamp_mae"), ScorerKind::TimestampMae);
    assert_eq!(ScorerKind::for_name("other"), ScorerKind::F1);
}

#[test]
fn production_and_merged_configuration() {
    let space = vec![
        ("lr".to_string(), vec!["0.01".to_string(), "0.1".to_string()]),
        ("empty".to_string(), Vec::new()),
        ("bs".to_string(), vec!["32".to_string()]),
    ];
    assert_eq!(production_config(&space), pairs(&[("lr", "0.01"), ("bs", "32")]));
    let overrides = pairs(&[("bs", "64"), ("extra", "\"x\"")]);
    assert_eq!(
        merge_params(&space, &overrides),
        pairs(&[("lr", "0.01"), ("bs", "64"), ("extra", "\"x\"")])
    );
}

#[test]
fn experiment_ids_are_zero_padded() {
    assert_eq!(experiment_id("exp", 7), "exp-0007");
    assert_eq!(experiment_id("sweep", 12345), "sweep-12345");
    assert_eq!(experiment_id("exp", 0), "exp-0000");
}

#[test]
fn classifier_finds_first_pattern() {
    let c = ErrorClassifier::new();
    let info = c.classify("RuntimeError: CUDA Out Of Memory on device 0", "").unwrap();
    assert_eq!(info.code, ErrorCode::GpuOom);
    assert!(info.retryable);
    assert_eq!(info.retry_after_secs, 60);
    assert_eq!(info.message, "RuntimeError: CUDA Out Of Memory on device 0");
    assert!(c.classify("all good", "fine").is_none());
}

#[test]
fn classifier_message_is_cut_and_line_chosen() {
    let c = ErrorClassifier::new();
    let long = "x".repeat(250);
    let stdout = format!("first\nfile not found {}", long);
    let info = c.classify("", &stdout).unwrap();
    assert_eq!(info.code, ErrorCode::ResourceNotFound);
    assert_eq!(info.message.chars().count(), 200);
    assert!(info.message.starts_with("file not found"));
}

#[test]
fn classifier_custom_pattern_after_builtins() {
    let mut c = ErrorClassifier::new();
    c.add_pattern(ErrorPattern {
        pattern: "disk full".to_string(),
        code: ErrorCode::Custom("disk".to_string()),
        retryable: false,
        retry_after_secs: 0,
    });
    let info = c.classify("Disk Full", "").unwrap();
    assert_eq!(info.code, ErrorCode::Custom("disk".to_string()));
    let q = c.classify("quota reached; disk full", "").unwrap();
    assert_eq!(q.code, ErrorCode::QuotaExceeded);
}

#[test]
fn agent_decisions_in_priority_order() {
    let mut s = AgentState::new();
    assert_eq!(s.decide(true, false, 0), Decision::Stop(StopReason::TargetsMet));
    assert_eq!(s.decide(false, false, 10), Decision::Stop(StopReason::BudgetExhausted));
    assert_eq!(s.decide(false, true, 0), Decision::Stop(StopReason::MaxIterationsReached));
    assert_eq!(s.decide(false, true, 5), Decision::Continue);
    s.record_outcome(true);
    s.record_outcome(true);
    s.record_outcome(true);
    assert_eq!(s.decide(false, true, 5), Decision::SwitchStrategy("next_phase".to_string()));
    s.record_outcome(false);
    assert_eq!(s.consecutive_reverts, 0);
}

#[test]
fn agent_switches_strategies_cyclically() {
    let mut s = AgentState::new();
    s.begin_iteration();
    assert_eq!(s.iteration, 1);
    let c = s.apply_decision(Decision::SwitchStrategy("next_phase".to_string()), 2);
    assert_eq!(c, LoopControl::UseStrategy(1));
    let c = s.apply_decision(Decision::SwitchStrategy("next_phase".to_string()), 2);
    assert_eq!(c, LoopControl::UseStrategy(0));
    let c = s.apply_decision(Decision::SwitchStrategy("next_phase".to_string()), 1);
    assert_eq!(c, LoopControl::Finish(StopReason::Plateau));
    assert_eq!(s.apply_decision(Decision::Continue, 2), LoopControl::Next);
}

#[test]
fn agent_helpers() {
    assert!(targets_met(true, &[(key(0.9), key(0.85))]));
    assert!(!targets_met(true, &[(key(0.8), key(0.85))]));
    assert!(!targets_met(false, &[(key(0.9), key(0.85))]));
    assert!(!targets_met(true, &[]));
    assert!(revert_requested(&[HookAction::Proceed, HookAction::Warn("Regression: f1 dropped".to_string())]));
    assert!(revert_requested(&[HookAction::Block("budget".to_string())]));
    assert!(!revert_requested(&[HookAction::Warn("Overfitting".to_string())]));
    assert!(is_improvement(Some(key(0.5)), None));
    assert!(is_improvement(Some(key(0.6)), Some(key(0.5))));
    assert!(!is_improvement(Some(key(0.5)), Some(key(0.5))));
    assert_eq!(BudgetCheckHook.name(), "budget_check");
}

#[test]
fn test_gradient_empty() {
    // No observation of the parameter: no evidence either way.
    assert_eq!(
        GradientDirection::from_evidence(false, false, false, false, false),
        GradientDirection::Inconclusive
    );
    assert_eq!(Confidence::from_observations(0), Confidence::Low);
}

#[test]
fn test_gradient_increase_helps() {
    // Two increases of ball_conf (0.25 -> 0.28, 0.28 -> 0.30) with deltas +0.03 and +0.02.
    let increases = [0.03f64, 0.02];
    let sum: f64 = increases.iter().sum();
    let mean = sum / increases.len() as f64;
    assert_eq!(
        GradientDirection::from_evidence(true, false, mean > 0.0, sum > 0.0, false),
        GradientDirection::IncreaseHelps
    );
    assert_eq!(Confidence::from_observations(increases.len()), Confidence::Medium);
}

/// Runs the loop's decisions on a sequence of f1 results, one per iteration,
/// at a cost of 1.0 per run, without hooks; returns the iterations and why it stopped.
fn run_decisions(results: &[f64], max_iterations: usize, budget: f64, targets: &[f64]) -> (usize, StopReason) {
    let mut state = AgentState::new();
    let mut spent = 0.0f64;
    let mut best: Option<f64> = None;
    loop {
        state.begin_iteration();
        let f1 = results.get(state.iteration - 1).copied().unwrap_or(0.5);
        spent += 1.0;
        state.record_outcome(false);
        if is_improvement(Some(key(f1)), Some(key(best.unwrap_or(0.0)))) {
            best = Some(f1);
        }
        let met = match best {
            Some(b) => {
                let pairs: Vec<(i64, i64)> = targets.iter().map(|t| (key(b), key(*t))).collect();
                targets_met(true, &pairs)
            }
            None => false,
        };
        let budget_ok = (budget - spent).max(0.0) >= 1.0;
        let decision = state.decide(met, budget_ok, max_iterations);
        match state.apply_decision(decision, 2) {
            LoopControl::Next | LoopControl::UseStrategy(_) => continue,
            LoopControl::Finish(reason) => return (state.iteration, reason),
        }
    }
}

#[test]
fn test_stops_at_max_iterations() {
    let (iterations, reason) = run_decisions(&[0.5, 0.6, 0.7], 3, 100.0, &[]);
    assert_eq!(iterations, 3);
    assert!(matches!(reason, StopReason::MaxIterationsReached));
}

#[test]
fn test_stops_at_budget() {
    // Budget 1.5 at 1.0 per run: one run, then the budget cannot pay for another.
    let (iterations, reason) = run_decisions(&[0.5, 0.6], 100, 1.5, &[]);
    assert!(iterations <= 2);
    assert!(matches!(reason, StopReason::BudgetExhausted));
}

#[test]
fn test_stops_when_targets_met() {
    // The second run (0.9) meets the f1 target of 0.85.
    let (_, reason) = run_decisions(&[0.5, 0.9], 100, 100.0, &[0.85]);
    assert!(matches!(reason, StopReason::TargetsMet));
}

#[test]
fn a_blocking_pre_hook_stops_the_loop_as_out_of_budget() {
    assert_eq!(
        pre_hook_decision(&HookAction::Block("Budget exhausted".to_string())),
        Some(Decision::Stop(StopReason::BudgetExhausted))
    );
    assert_eq!(pre_hook_decision(&HookAction::Warn("Budget low".to_string())), None);
    assert_eq!(pre_hook_decision(&HookAction::Proceed), None);
}

#[test]
fn nan_never_meets_a_target_nor_improves() {
    assert!(!targets_met(true, &[(key(f64::NAN), key(0.85))]));
    assert!(!targets_met(true, &[(key(0.9), key(-f64::NAN))]));
    assert!(!targets_met(true, &[(key(0.9), key(0.85)), (key(f64::NAN), key(0.1))]));
    assert!(targets_met(true, &[(key(0.0), key(-0.0))]));
    assert!(!is_improvement(Some(key(f64::NAN)), Some(key(0.5))));
    assert!(!is_improvement(Some(key(0.6)), Some(key(-f64::NAN))));
    assert!(!is_improvement(None, Some(key(-0.0))));
}

#[test]
fn pareto_front_keeps_an_undominated_run_at_minus_infinity() {
    let points = vec![(Some(key(0.9)), Some(key(f64::NEG_INFINITY))), (Some(key(0.8)), Some(key(0.5)))];
    assert_eq!(pareto_front(&points), vec![0, 1]);
    let only = vec![(Some(key(0.9)), Some(key(f64::NEG_INFINITY)))];
    assert_eq!(pareto_front(&only), vec![0]);
}

#[test]
fn pareto_front_keeps_the_first_of_identical_points() {
    let points = vec![
        (Some(key(0.7)), Some(key(0.4))),
        (Some(key(0.8)), Some(key(0.5))),
        (Some(key(0.8)), Some(key(0.5))),
    ];
    assert_eq!(pareto_front(&points), vec![1]);
}
