use mobius::compute::{BenchReport, CommandError, OutputParser, ParsedOutput, SubprocessBackend};
use mobius::config::{build_backend, config_to_env, default_backend, default_hyperband_eta, default_hyperband_max_resource, default_max_retries, default_nsga_objectives, default_nsga_population, default_pbt_population, default_plateau_window, default_store_path, default_timeout, default_version, Backend, BackendError, ComputeSection, ProjectConfig};
use mobius::ssh::SshConfig;
use mobius::store::StoreKind;

fn pairs(entries: &[(&str, &str)]) -> Vec<(String, String)> {
    entries.iter().map(|(k, v)| (k.to_string(), v.to_string())).collect()
}

fn number(entries: &[(String, String)], key: &str) -> f64 {
    entries.iter().find(|(k, _)| k == key).unwrap().1.parse::<f64>().unwrap()
}

#[test]
fn test_parse_json_format() {
    let stdout = "\nSome pipeline output...\n{\"f1\": 0.786, \"precision\": 0.733, \"recall\": 0.846, \"bench_score\": 62.3}\nDone.\n";
    match OutputParser::parse(stdout, "") {
        ParsedOutput::Json(result) => {
            assert!((number(&result.metrics, "f1") - 0.786).abs() < 0.001);
            assert!((number(&result.metrics, "precision") - 0.733).abs() < 0.001);
            let bench: f64 = result.bench_score.unwrap().parse().unwrap();
            assert!((bench - 62.3).abs() < 0.1);
            assert!(!result.metrics.iter().any(|(k, _)| k == "bench_score"));
        }
        ParsedOutput::Report(_) => panic!("expected the JSON line"),
    }
}

#[test]
fn test_parse_bench_score_format() {
    let stdout = "\nPALOA BENCH EVALUATION\n  BENCH SCORE: 47.7 / 100  (FAIL)\n  Shot Detection         59.3 \u{d7} 0.40 =  23.7  (PASS)\n  Make/Miss              62.5 \u{d7} 0.25 =  15.6  (PASS)\n  Matches: 8 | FPs: 6 | Missed: 5\n  Make/miss:        6/11 (55%)\n";
    match OutputParser::parse(stdout, "") {
        ParsedOutput::Report(result) => {
            let bench: f64 = result.bench_score.clone().unwrap().parse().unwrap();
            assert!((bench - 47.7).abs() < 0.1);
            assert_eq!(result.counts, Some((8, 6, 5)));
            assert_eq!(result.rated_counts, Some((8, 6, 5)));
            let mm: f64 = result.make_miss_percent.clone().unwrap().parse().unwrap();
            assert!((mm / 100.0 - 0.55).abs() < 0.01);
            assert!(result.dimension_scores.iter().any(|(k, _)| k == "shot_detection"));
            assert!(result.dimension_scores.iter().any(|(k, v)| k == "make_miss" && v == "62.5"));
        }
        ParsedOutput::Json(_) => panic!("expected the report format"),
    }
}

#[test]
fn test_parse_empty_output() {
    match OutputParser::parse("", "") {
        ParsedOutput::Report(result) => {
            assert!(result.bench_score.is_none());
            assert!(result.dimension_scores.is_empty());
            assert!(result.counts.is_none());
            assert!(result.rated_counts.is_none());
        }
        ParsedOutput::Json(_) => panic!("nothing to read"),
    }
}

#[test]
fn last_json_line_wins_and_counts_split_off() {
    let stdout = "{\"f1\": 0.1}\n  {\"f1\": 0.2, \"true_positives\": 3, \"note\": \"x\"}  \n{not json \"f1\"}\n";
    match OutputParser::try_json(stdout) {
        Some(rep) => {
            assert_eq!(rep.metrics, pairs(&[("f1", "0.2")]));
            assert_eq!(rep.true_positives, Some("3".to_string()));
            assert_eq!(rep.false_positives, None);
        }
        None => panic!("expected a JSON line"),
    }
}

#[test]
fn zero_true_positives_keep_earlier_rates() {
    let stdout = "Matches: 4 | FPs: 1 | Missed: 2\nMatches: 0 | FPs: 3 | Missed: 1\nBENCH SCORE: 1.2.3\n";
    let rep = OutputParser::parse_bench_format(stdout, "");
    assert_eq!(rep.counts, Some((0, 3, 1)));
    assert_eq!(rep.rated_counts, Some((4, 1, 2)));
    assert_eq!(rep.bench_score, None);
}

#[test]
fn huge_count_reads_as_zero() {
    let stdout = "Matches: 99999999999999999999999 | FPs: 1 | Missed: 2\n";
    let rep = OutputParser::parse_bench_format(stdout, "");
    assert_eq!(rep.counts, Some((0, 1, 2)));
    assert_eq!(rep.rated_counts, None);
}

#[test]
fn test_config_to_env() {
    let params = pairs(&[("ball_conf", "0.25"), ("merge_strategy", "yolo_kimi")]);
    let env_map = pairs(&[("ball_conf", "PALOA_BALL_CONF"), ("merge_strategy", "PALOA_MERGE_STRATEGY")]);
    let env = config_to_env(&params, &env_map);
    assert_eq!(env, pairs(&[("PALOA_BALL_CONF", "0.25"), ("PALOA_MERGE_STRATEGY", "yolo_kimi")]));
}

#[test]
fn config_to_env_skips_missing_parameters() {
    let params = pairs(&[("a", "1")]);
    let env_map = pairs(&[("b", "B"), ("a", "A")]);
    assert_eq!(config_to_env(&params, &env_map), pairs(&[("A", "1")]));
}

#[test]
fn command_line_splits_words() {
    let b = SubprocessBackend;
    let (program, args) = b.command_line("  echo   hello\tworld ").unwrap();
    assert_eq!(program, "echo");
    assert_eq!(args, vec!["hello".to_string(), "world".to_string()]);
    assert_eq!(b.command_line("   ").err(), Some(CommandError::Empty));
    assert_eq!(CommandError::Empty.message(), "Empty command");
}

fn base_compute() -> ComputeSection {
    ComputeSection::default()
}

#[test]
fn defaults_to_subprocess_backend() {
    let backend = build_backend(base_compute());
    assert!(matches!(backend, Ok(Backend::Subprocess)));
}

#[test]
fn explicit_local_works() {
    let mut cfg = base_compute();
    cfg.backend = "local".to_string();
    assert!(build_backend(cfg).is_ok());
}

#[test]
fn ssh_requires_config_block() {
    let mut cfg = base_compute();
    cfg.backend = "ssh".to_string();
    let err = match build_backend(cfg) {
        Ok(_) => panic!("expected error"),
        Err(e) => e.message(),
    };
    assert!(err.contains("[compute.ssh]"));
}

#[test]
fn ssh_with_config_block_constructs() {
    let mut cfg = base_compute();
    cfg.backend = "ssh".to_string();
    cfg.ssh = Some(SshConfig {
        host: "user@host".to_string(),
        ..Default::default()
    });
    assert!(build_backend(cfg).is_ok());
}

#[test]
fn unknown_backend_errors() {
    let mut cfg = base_compute();
    cfg.backend = "modal".to_string();
    let err = match build_backend(cfg) {
        Ok(_) => panic!("expected error"),
        Err(e) => e.message(),
    };
    assert!(err.contains("unknown compute backend"));
    assert_eq!(err, "unknown compute backend 'modal' \u{2014} supported: 'local', 'ssh'");
}

#[test]
fn ssh_block_with_blank_host_is_refused() {
    let mut cfg = base_compute();
    cfg.backend = "ssh".to_string();
    cfg.ssh = Some(SshConfig::default());
    assert!(matches!(build_backend(cfg), Err(BackendError::Ssh(_))));
}

#[test]
fn configuration_defaults() {
    assert_eq!(default_version(), "0.1.0");
    assert_eq!(default_timeout(), 600);
    assert_eq!(default_store_path(), "runs/");
    assert_eq!(default_backend(), "local");
    assert_eq!(default_pbt_population(), 8);
    assert_eq!(default_nsga_objectives(), vec!["f1".to_string(), "precision".to_string()]);
    assert_eq!(default_nsga_population(), 20);
    assert_eq!(default_hyperband_max_resource(), 81);
    assert_eq!(default_hyperband_eta(), 3);
    assert_eq!(default_plateau_window(), 5);
    assert_eq!(default_max_retries(), 1);
    let p = ProjectConfig::named("t".to_string());
    assert_eq!(p.version, "0.1.0");
}

#[test]
fn ask_test_build_store_jsonl() {
    assert_eq!(StoreKind::for_name("jsonl"), StoreKind::Jsonl);
}

#[test]
fn ask_test_build_store_sqlite() {
    assert_eq!(StoreKind::for_name("sqlite"), StoreKind::Sqlite);
}

#[test]
fn importance_test_build_store_jsonl() {
    assert_eq!(StoreKind::for_name("jsonl"), StoreKind::Jsonl);
}

#[test]
fn importance_test_build_store_sqlite() {
    assert_eq!(StoreKind::for_name("sqlite"), StoreKind::Sqlite);
}

#[test]
fn tell_test_build_store_jsonl() {
    assert_eq!(StoreKind::for_name("jsonl"), StoreKind::Jsonl);
}

#[test]
fn any_other_store_name_is_jsonl() {
    assert_eq!(StoreKind::for_name("postgres"), StoreKind::Jsonl);
}

fn groups(items: &[Option<&str>]) -> Option<Vec<Option<String>>> {
    Some(items.iter().map(|g| g.map(String::from)).collect())
}

fn empty_report() -> BenchReport {
    BenchReport { bench_score: None, dimension_scores: Vec::new(), counts: None, rated_counts: None, make_miss_percent: None }
}

#[test]
fn report_line_from_given_captures() {
    let rep = OutputParser::read_report_line(
        empty_report(),
        &groups(&[Some("BENCH SCORE: 71.5"), Some("71.5")]),
        &groups(&[Some("Detection  80.0 x 0.50 = 40.0"), Some("Detection"), Some("80.0"), Some("0.50"), Some("40.0")]),
        &groups(&[Some("Matches: 8 | FPs: 2 | Missed: 1"), Some("8"), Some("2"), Some("1")]),
        &groups(&[Some("Make/miss: 6/8 (75.0%)"), Some("6"), Some("8"), Some("75.0")]),
    );
    assert_eq!(rep.bench_score.as_deref(), Some("71.5"));
    assert_eq!(rep.dimension_scores, vec![("detection".to_string(), "80.0".to_string())]);
    assert_eq!(rep.counts, Some((8, 2, 1)));
    assert_eq!(rep.rated_counts, Some((8, 2, 1)));
    assert_eq!(rep.make_miss_percent.as_deref(), Some("75.0"));
}

#[test]
fn report_line_keeps_earlier_values_when_nothing_usable_was_captured() {
    let mut start = empty_report();
    start.bench_score = Some("50".to_string());
    start.rated_counts = Some((4, 0, 0));
    let rep = OutputParser::read_report_line(
        start,
        &groups(&[Some("BENCH SCORE: 1.2.3"), Some("1.2.3")]),
        &None,
        &groups(&[Some("Matches: 0 | FPs: 3 | Missed: 2"), Some("0"), Some("3"), Some("2")]),
        &groups(&[Some("x"), None, None, None]),
    );
    // `1.2.3` is not decimal text; a match line without a true positive
    // sets the counts but leaves the rated counts.
    assert_eq!(rep.bench_score.as_deref(), Some("50"));
    assert!(rep.dimension_scores.is_empty());
    assert_eq!(rep.counts, Some((0, 3, 2)));
    assert_eq!(rep.rated_counts, Some((4, 0, 0)));
    assert_eq!(rep.make_miss_percent, None);
}
