use mobius::sorting::order_key;
use mobius::strategy::{auto_select, build_strategy, changed_params, CmaEs, GridSearch, NsgaTwo, Pbt, RandomSearch, StrategyError, StrategyKind};
use mobius::trial::{config_already_tried, TrialRecord};
use mobius::tuning::{GradientChoice, GradientGuidedTuning, TuningDraws};
use mobius::learning::GradientDirection;

fn key(x: f64) -> i64 {
    order_key(x.to_bits())
}

fn make_result(f1: f64, ball_conf: &str) -> TrialRecord {
    TrialRecord {
        params: vec![("ball_conf".to_string(), ball_conf.to_string())],
        metric: Some(key(f1)),
        bracket: None,
        rung: None,
    }
}

fn space(entries: &[(&str, &[&str])]) -> Vec<(String, Vec<String>)> {
    entries
        .iter()
        .map(|(k, vs)| (k.to_string(), vs.iter().map(|v| v.to_string()).collect()))
        .collect()
}

fn pairs(entries: &[(&str, &str)]) -> Vec<(String, String)> {
    entries.iter().map(|(k, v)| (k.to_string(), v.to_string())).collect()
}

fn draws() -> TuningDraws {
    TuningDraws {
        start_param: 0,
        start_value: 0,
        untried_value: 0,
        explore: false,
        gradient_value: 0,
        expand_param: 0,
        random_param: 0,
        random_value: 0,
    }
}

#[test]
fn test_cmaes_name() {
    let cmaes = CmaEs::new(None);
    assert_eq!(cmaes.name(), "cmaes");
}

#[test]
fn test_pbt_name() {
    let pbt = Pbt::new(8);
    assert_eq!(pbt.name(), "pbt");
}

#[test]
fn test_build_strategy_known() {
    let s1 = build_strategy("gradient_guided").unwrap();
    assert_eq!(s1.name(), "gradient_guided_tuning");
    let s2 = build_strategy("random").unwrap();
    assert_eq!(s2.name(), "random");
    let s3 = build_strategy("grid").unwrap();
    assert_eq!(s3.name(), "grid");
}

#[test]
fn test_build_strategy_unknown() {
    let err = build_strategy("bayesian");
    assert!(err.is_err());
}

#[test]
fn unknown_strategy_message() {
    let err = build_strategy("bayesian").unwrap_err();
    assert_eq!(err.message(), "Unknown strategy: bayesian");
}

#[test]
fn test_build_strategy_cmaes() {
    let s = build_strategy("cmaes").unwrap();
    assert_eq!(s.name(), "cmaes");
    let s2 = build_strategy("cma_es").unwrap();
    assert_eq!(s2.name(), "cmaes");
}

#[test]
fn test_build_strategy_pbt() {
    let s1 = build_strategy("pbt").unwrap();
    assert_eq!(s1.name(), "pbt");
    let s2 = build_strategy("population_based").unwrap();
    assert_eq!(s2.name(), "pbt");
}

#[test]
fn test_build_strategy_tpe() {
    let s = build_strategy("tpe").unwrap();
    assert_eq!(s.name(), "tpe");
}

#[test]
fn test_build_strategy_ucb1() {
    let s = build_strategy("ucb1").unwrap();
    assert_eq!(s.name(), "ucb1");
    let s2 = build_strategy("tree_search").unwrap();
    assert_eq!(s2.name(), "ucb1");
}

#[test]
fn test_build_strategy_hyperband() {
    let s = build_strategy("hyperband").unwrap();
    assert_eq!(s.name(), "hyperband");
}

#[test]
fn test_build_strategy_auto() {
    let s = build_strategy("auto").unwrap();
    assert_eq!(s.name(), "auto");
}

#[test]
fn test_auto_name() {
    assert_eq!(StrategyKind::Auto.name(), "auto");
}

#[test]
fn build_strategy_aliases() {
    assert_eq!(build_strategy("gradient_guided_tuning").unwrap(), StrategyKind::GradientGuided);
    assert_eq!(build_strategy("random_search").unwrap(), StrategyKind::Random);
    assert_eq!(build_strategy("grid_search").unwrap(), StrategyKind::Grid);
    assert_eq!(build_strategy("tpe_search").unwrap(), StrategyKind::Tpe);
    assert_eq!(build_strategy("nsga_ii").unwrap(), StrategyKind::Nsga2);
    assert_eq!(build_strategy("auto_strategy").unwrap(), StrategyKind::Auto);
}

#[test]
fn nsga_name_and_fields() {
    let n = NsgaTwo::new(vec!["f1".to_string()], 20);
    assert_eq!(n.name(), "nsga2");
    assert_eq!(n.population_size, 20);
}

#[test]
fn pbt_cutoffs_round_up() {
    assert_eq!(Pbt::cutoffs(8), (2, 6));
    assert_eq!(Pbt::cutoffs(5), (2, 3));
    assert_eq!(Pbt::cutoffs(0), (0, 0));
}

#[test]
fn test_auto_cold_start() {
    // One run of history: the automatic strategy falls back to random search.
    let sweep = space(&[("lr", &["0.01", "0.1"])]);
    assert_eq!(auto_select(1, 0, &[true]), StrategyKind::Random);
    let suggestion = RandomSearch.suggest(&sweep).unwrap();
    assert!(suggestion.rationale.contains("Random"));
}

#[test]
fn test_auto_selects_strategy() {
    // Five runs, no target, one all-numeric parameter: CMA-ES.
    assert_eq!(auto_select(5, 0, &[true]), StrategyKind::CmaEs);
}

#[test]
fn test_auto_multi_objective_delegates() {
    // Five runs and two targets: NSGA-II.
    assert_eq!(auto_select(5, 2, &[true]), StrategyKind::Nsga2);
}

#[test]
fn auto_choices() {
    assert_eq!(auto_select(5, 2, &[true]), StrategyKind::Nsga2);
    assert_eq!(auto_select(5, 1, &[false, false]), StrategyKind::Tpe);
    assert_eq!(auto_select(5, 1, &[true; 11]), StrategyKind::Tpe);
    assert_eq!(auto_select(5, 1, &[true, true]), StrategyKind::CmaEs);
    assert_eq!(auto_select(5, 1, &[true, false]), StrategyKind::GradientGuided);
    assert_eq!(auto_select(5, 1, &[true; 6]), StrategyKind::GradientGuided);
    assert_eq!(auto_select(5, 1, &[]), StrategyKind::Tpe);
}

#[test]
fn test_random_search_valid_config() {
    let sweep = space(&[("lr", &["0.01", "0.1"]), ("bs", &["16", "32"])]);
    let suggestion = RandomSearch.suggest(&sweep).unwrap();
    assert!(suggestion.params.iter().any(|(k, _)| k == "lr"));
    assert!(suggestion.params.iter().any(|(k, _)| k == "bs"));
    assert!(suggestion.rationale.contains("Random"));
}

#[test]
fn test_random_search_values_from_sweep() {
    let sweep = space(&[("lr", &["0.01", "0.1"])]);
    let suggestion = RandomSearch.suggest(&sweep).unwrap();
    let val = &suggestion.params[0].1;
    assert!(val == "0.01" || val == "0.1");
}

#[test]
fn random_search_with_picks_is_exact() {
    let sweep = space(&[("lr", &["0.01", "0.1"]), ("bs", &["16", "32"])]);
    let p = RandomSearch.suggest_with(&sweep, &[1, 0]);
    assert_eq!(p.params, pairs(&[("lr", "0.1"), ("bs", "16")]));
    assert_eq!(p.changed, p.params);
}

#[test]
fn random_search_empty_values_error() {
    let sweep = space(&[("lr", &["0.01"]), ("bs", &[])]);
    let err = RandomSearch.suggest(&sweep).err().unwrap();
    assert_eq!(err, StrategyError::EmptyValues("bs".to_string()));
}

#[test]
fn test_grid_search_skips_tried() {
    let sweep = space(&[("ball_conf", &["0.25", "0.30"])]);
    let tried = make_result(0.75, "0.25");
    let suggestion = GridSearch.suggest(&sweep, &Vec::new(), &[tried]).unwrap();
    assert_eq!(suggestion.params, pairs(&[("ball_conf", "0.30")]));
    assert!(suggestion.rationale.contains("Grid search"));
}

#[test]
fn test_grid_search_exhausted() {
    let sweep = space(&[("ball_conf", &["0.25", "0.30"])]);
    let history = vec![make_result(0.75, "0.25"), make_result(0.78, "0.30")];
    let err = GridSearch.suggest(&sweep, &Vec::new(), &history);
    assert!(err.is_err());
    assert!(err.err().unwrap().message().contains("exhausted"));
}

#[test]
fn grid_rationale_and_exhaustion_text() {
    let sweep = space(&[("a", &["1", "2"]), ("b", &["x"])]);
    let p = GridSearch.suggest(&sweep, &pairs(&[("a", "1")]), &[]).unwrap();
    assert_eq!(p.rationale, "Grid search: config 1 of 2");
    assert_eq!(p.changed, pairs(&[("b", "x")]));
    assert_eq!(
        StrategyError::Exhausted(4).message(),
        "Grid search exhausted all 4 combinations"
    );
}

#[test]
fn cartesian_product_order() {
    let sweep = space(&[("a", &["1", "2"]), ("b", &["x", "y"])]);
    let combos = GridSearch::cartesian_product(&sweep);
    assert_eq!(combos.len(), 4);
    assert_eq!(combos[0], pairs(&[("a", "1"), ("b", "x")]));
    assert_eq!(combos[1], pairs(&[("a", "1"), ("b", "y")]));
    assert_eq!(combos[3], pairs(&[("a", "2"), ("b", "y")]));
}

#[test]
fn changed_params_against_production() {
    let p = pairs(&[("a", "1"), ("b", "2"), ("c", "3")]);
    let prod = pairs(&[("a", "1"), ("b", "5")]);
    assert_eq!(changed_params(&p, &prod), pairs(&[("b", "2"), ("c", "3")]));
}

#[test]
fn tried_configuration_detected() {
    let history = vec![make_result(0.5, "0.25")];
    assert!(config_already_tried(&pairs(&[("ball_conf", "0.25")]), &history));
    assert!(!config_already_tried(&pairs(&[("ball_conf", "0.3")]), &history));
}

#[test]
fn test_random_exploration_insufficient_history() {
    let strategy = GradientGuidedTuning::new(5);
    let sweep = space(&[("ball_conf", &["0.25", "0.30"])]);
    let prod = pairs(&[("ball_conf", "0.28")]);
    let history = vec![make_result(0.75, "0.28")];
    let suggestion = strategy.suggest(&sweep, &prod, &history, false, &None).unwrap();
    assert!(suggestion.rationale.contains("Insufficient history"));
    assert!(!suggestion.changed.is_empty());
}

#[test]
fn test_suggest_returns_valid_config() {
    let strategy = GradientGuidedTuning::new(5);
    let history = vec![
        make_result(0.75, "0.28"),
        make_result(0.78, "0.25"),
        make_result(0.76, "0.30"),
    ];
    let sweep = space(&[("ball_conf", &["0.20", "0.25", "0.30"]), ("dedup_window", &["4.0", "6.0"])]);
    let prod = pairs(&[("ball_conf", "0.28"), ("dedup_window", "6.0")]);
    let suggestion = strategy.suggest(&sweep, &prod, &history, false, &None).unwrap();
    assert!(!suggestion.params.is_empty());
    assert!(!suggestion.rationale.is_empty());
}

#[test]
fn tuning_cold_start_exact() {
    let strategy = GradientGuidedTuning::new(5);
    let sweep = space(&[("ball_conf", &["0.25", "0.30"])]);
    let prod = pairs(&[("ball_conf", "0.28")]);
    let history = vec![make_result(0.75, "0.28")];
    let mut d = draws();
    d.start_value = 1;
    let p = strategy.suggest_with(&sweep, &prod, &history, false, &None, &d).unwrap();
    assert_eq!(p.params, pairs(&[("ball_conf", "0.30")]));
    assert_eq!(p.changed, pairs(&[("ball_conf", "0.30")]));
    assert_eq!(p.rationale, "Insufficient history (1). Exploring ball_conf.");
}

#[test]
fn tuning_plateau_explores_untried_dimension() {
    let strategy = GradientGuidedTuning::new(5);
    let history = vec![make_result(0.75, "0.28"), make_result(0.78, "0.25")];
    let sweep = space(&[("ball_conf", &["0.20", "0.25"]), ("dedup_window", &["4.0", "6.0"])]);
    let prod = pairs(&[("ball_conf", "0.28"), ("dedup_window", "6.0")]);
    let mut d = draws();
    d.untried_value = 0;
    let p = strategy.suggest_with(&sweep, &prod, &history, true, &None, &d).unwrap();
    assert_eq!(p.rationale, "Plateau detected. Exploring untried dimension: dedup_window");
    assert_eq!(p.params, pairs(&[("ball_conf", "0.25"), ("dedup_window", "4.0")]));
}

#[test]
fn tuning_plateau_without_untried_expands_range() {
    let strategy = GradientGuidedTuning::new(5);
    let history = vec![make_result(0.75, "0.28"), make_result(0.78, "0.25")];
    let sweep = space(&[("ball_conf", &["0.20", "0.25", "0.40"])]);
    let prod = pairs(&[("ball_conf", "0.28")]);
    let p = strategy.suggest_with(&sweep, &prod, &history, true, &None, &draws()).unwrap();
    assert_eq!(p.rationale, "Plateau: expanding range of ball_conf");
    assert_eq!(p.params, pairs(&[("ball_conf", "0.40")]));
}

#[test]
fn tuning_follows_gradient_and_avoids_tried() {
    let strategy = GradientGuidedTuning::new(5);
    let history = vec![make_result(0.75, "0.28"), make_result(0.78, "0.30")];
    let sweep = space(&[("ball_conf", &["0.20", "0.30"])]);
    let prod = pairs(&[("ball_conf", "0.28")]);
    let g = GradientChoice {
        param: 0,
        direction: GradientDirection::IncreaseHelps,
        value_keys: vec![Some(key(0.20)), Some(key(0.30))],
        delta_text: "+0.0300".to_string(),
    };
    let p = strategy.suggest_with(&sweep, &prod, &history, false, &Some(g), &draws()).unwrap();
    assert_eq!(p.params, pairs(&[("ball_conf", "0.20")]));
    assert_eq!(p.changed, pairs(&[("ball_conf", "0.20")]));
    assert_eq!(p.rationale, "Gradient-guided: ball_conf (IncreaseHelps, avg_delta=+0.0300)");
}

#[test]
fn tuning_decrease_picks_smallest() {
    let strategy = GradientGuidedTuning::new(5);
    let history = vec![make_result(0.75, "0.28"), make_result(0.70, "0.30")];
    let sweep = space(&[("ball_conf", &["0.30", "0.10", "0.20"])]);
    let prod = pairs(&[("ball_conf", "0.28")]);
    let g = GradientChoice {
        param: 0,
        direction: GradientDirection::DecreaseHelps,
        value_keys: vec![Some(key(0.30)), Some(key(0.10)), Some(key(0.20))],
        delta_text: "-0.0500".to_string(),
    };
    let p = strategy.suggest_with(&sweep, &prod, &history, false, &Some(g), &draws()).unwrap();
    assert_eq!(p.params, pairs(&[("ball_conf", "0.10")]));
}

#[test]
fn tuning_random_fallback_and_errors() {
    let strategy = GradientGuidedTuning::new(5);
    let history = vec![make_result(0.75, "0.28"), make_result(0.70, "0.30")];
    let sweep = space(&[("ball_conf", &["0.30", "0.10"])]);
    let prod = pairs(&[("ball_conf", "0.28")]);
    let mut d = draws();
    d.random_value = 1;
    let p = strategy.suggest_with(&sweep, &prod, &history, false, &None, &d).unwrap();
    assert_eq!(p.rationale, "Random exploration: ball_conf");
    assert_eq!(p.params, pairs(&[("ball_conf", "0.10")]));
    let empty: Vec<(String, Vec<String>)> = Vec::new();
    let err = strategy.suggest_with(&empty, &prod, &history, false, &None, &d).err().unwrap();
    assert_eq!(err.message(), "Empty sweep space");
    let err2 = strategy.suggest_with(&empty, &prod, &history, true, &None, &d).err().unwrap();
    assert_eq!(err2, StrategyError::EmptySpace);
    let no_values = space(&[("ball_conf", &[])]);
    let err3 = strategy.suggest_with(&no_values, &prod, &history, true, &None, &d).err().unwrap();
    assert_eq!(err3.message(), "Empty values");
}

#[test]
fn tuning_recent_window() {
    let strategy = GradientGuidedTuning::new(5);
    assert_eq!(strategy.recent_start(3), 0);
    assert_eq!(strategy.recent_start(12), 7);
    assert_eq!(strategy.name(), "gradient_guided_tuning");
}
