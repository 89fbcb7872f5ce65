use mobius::ssh::{expand_tilde, shell_escape, sort_env, SshBackend, SshConfig, SshError};
use mobius::style::{section, target_status, warn};

fn cfg() -> SshConfig {
    SshConfig {
        host: "gpu@example.com".to_string(),
        remote_workdir: Some("/data/exp".to_string()),
        identity_file: None,
        port: None,
        options: Vec::new(),
    }
}

#[test]
fn rejects_empty_host() {
    let result = SshBackend::new(SshConfig {
        host: "   ".to_string(),
        ..Default::default()
    });
    assert!(result.is_err());
}

#[test]
fn build_argv_includes_batch_mode_and_host() {
    let backend = SshBackend::new(cfg()).unwrap();
    let argv = backend.build_argv("echo hi");
    assert_eq!(argv[0], "-o");
    assert_eq!(argv[1], "BatchMode=yes");
    assert!(argv.contains(&"gpu@example.com".to_string()));
    assert_eq!(argv.last().unwrap(), "echo hi");
}

#[test]
fn build_argv_includes_port_and_identity_and_options() {
    let backend = SshBackend::new(SshConfig {
        host: "host".to_string(),
        remote_workdir: None,
        identity_file: Some("/keys/id".to_string()),
        port: Some(2222),
        options: vec!["StrictHostKeyChecking=accept-new".to_string()],
    })
    .unwrap();
    let argv = backend.build_argv("true");
    let joined = argv.join(" ");
    assert!(joined.contains("-o BatchMode=yes"));
    assert!(joined.contains("-o StrictHostKeyChecking=accept-new"));
    assert!(joined.contains("-p 2222"));
    assert!(joined.contains("-i /keys/id"));
}

#[test]
fn build_remote_command_includes_workdir_and_sorted_env() {
    let backend = SshBackend::new(cfg()).unwrap();
    let env = vec![
        ("LR".to_string(), "0.001".to_string()),
        ("BS".to_string(), "32".to_string()),
    ];
    let cmd = backend.build_remote_command("python train.py", &env);
    assert!(cmd.starts_with("cd /data/exp && "));
    let bs_pos = cmd.find("BS=").unwrap();
    let lr_pos = cmd.find("LR=").unwrap();
    assert!(bs_pos < lr_pos);
    assert!(cmd.ends_with("python train.py"));
}

#[test]
fn shell_escape_passes_simple_values() {
    assert_eq!(shell_escape("0.001"), "0.001");
    assert_eq!(shell_escape("model_v2"), "model_v2");
    assert_eq!(shell_escape("/data/foo.json"), "/data/foo.json");
}

#[test]
fn shell_escape_quotes_dangerous_values() {
    assert_eq!(shell_escape("hello world"), "'hello world'");
    assert_eq!(shell_escape("a;rm -rf /"), "'a;rm -rf /'");
    assert_eq!(shell_escape(""), "''");
}

#[test]
fn shell_escape_handles_embedded_single_quotes() {
    let out = shell_escape("It's");
    assert!(out.contains("'\\''"));
}

#[test]
fn expand_tilde_uses_home() {
    assert_eq!(expand_tilde("~/foo/bar", Some("/tmp/fakehome")), "/tmp/fakehome/foo/bar");
    assert_eq!(expand_tilde("/abs/path", Some("/tmp/fakehome")), "/abs/path");
}

#[test]
fn expand_tilde_without_home_keeps_path() {
    assert_eq!(expand_tilde("~/foo", None), "~/foo");
}

#[test]
fn shell_escape_exact_quoting_of_single_quote() {
    assert_eq!(shell_escape("It's"), "'It'\\''s'");
}

#[test]
fn remote_command_exact_text() {
    let backend = SshBackend::new(cfg()).unwrap();
    let env = vec![
        ("LR".to_string(), "0.001".to_string()),
        ("NAME".to_string(), "a b".to_string()),
        ("BS".to_string(), "32".to_string()),
    ];
    let cmd = backend.build_remote_command("python train.py", &env);
    assert_eq!(cmd, "cd /data/exp && BS=32 LR=0.001 NAME='a b' python train.py");
}

#[test]
fn remote_command_same_for_any_env_order() {
    let backend = SshBackend::new(cfg()).unwrap();
    let a = vec![
        ("X".to_string(), "1".to_string()),
        ("A".to_string(), "2".to_string()),
    ];
    let b = vec![
        ("A".to_string(), "2".to_string()),
        ("X".to_string(), "1".to_string()),
    ];
    assert_eq!(backend.build_remote_command("run", &a), backend.build_remote_command("run", &b));
}

#[test]
fn sort_env_orders_by_name() {
    let env = vec![
        ("b".to_string(), "1".to_string()),
        ("a".to_string(), "2".to_string()),
    ];
    let sorted = sort_env(&env);
    assert_eq!(sorted[0].0, "a");
    assert_eq!(sorted[1].0, "b");
}

#[test]
fn argv_expands_identity_with_home() {
    let backend = SshBackend::new(SshConfig {
        host: "h".to_string(),
        identity_file: Some("~/.ssh/id".to_string()),
        ..Default::default()
    })
    .unwrap()
    .with_home(Some("/home/u".to_string()));
    let argv = backend.build_argv("true");
    assert_eq!(
        argv,
        vec!["-o", "BatchMode=yes", "-i", "/home/u/.ssh/id", "h", "true"]
    );
}

#[test]
fn empty_host_error_message() {
    assert_eq!(SshError::EmptyHost.message(), "ssh backend: 'host' must not be empty");
}

#[test]
fn test_target_status_met() {
    let output = target_status(true);
    assert!(output.contains("MET"));
}

#[test]
fn test_target_status_miss() {
    let output = target_status(false);
    assert!(output.contains("MISS"));
}

#[test]
fn test_section_contains_title() {
    let output = section("TEST SECTION");
    assert!(output.contains("TEST SECTION"));
    assert!(output.contains("===="));
}

#[test]
fn test_warn_contains_message() {
    let output = warn("something went wrong");
    assert!(output.contains("something went wrong"));
}

#[test]
fn target_status_exact_colours() {
    assert_eq!(target_status(true), "\u{1b}[1m\u{1b}[32mMET\u{1b}[39m\u{1b}[0m");
    assert_eq!(target_status(false), "\u{1b}[1m\u{1b}[31mMISS\u{1b}[39m\u{1b}[0m");
}

#[test]
fn warn_is_yellow() {
    assert_eq!(warn("x"), "\u{1b}[33mx\u{1b}[39m");
}

#[test]
fn section_layout() {
    let line = "=".repeat(60);
    assert_eq!(section("T"), format!("{}\n  \u{1b}[1mT\u{1b}[0m\n{}", line, line));
}
