use codex_switch::codex_toml::{provider_base_url, replace_provider_base_url};
use codex_switch::takeover::{
    decimal, latest_codex_backup_path, marker_pid, next_codex_backup_path_for_timestamp,
    parse_u32, points_at_local_proxy, process_is_alive, restore_codex_files_from_home,
    stale_takeover, takeover_step, ProbeOutcome, RestoreStep, TakeoverStep,
};

#[test]
fn provider_base_url_replacement_preserves_other_config() {
    let text = "model = \"gpt-5\"\n\n[model_providers.OpenAI]\nname = \"OpenAI\"\nbase_url = 'https://example.com/v1'\n\n[features]\ngoals = true\n";
    let replaced = replace_provider_base_url(text, "OpenAI", "http://127.0.0.1:8787").unwrap();
    assert_eq!(
        provider_base_url(&replaced, "OpenAI").as_deref(),
        Some("http://127.0.0.1:8787")
    );
    assert!(replaced.contains("model = \"gpt-5\""));
    assert!(replaced.contains("[features]\ngoals = true"));
}

#[test]
fn replacement_rewrites_only_the_base_url_line() {
    let text = "[model_providers.OpenAI]\n  base_url = \"https://a.example/v1\"\nname = \"x\"";
    let replaced = replace_provider_base_url(text, "OpenAI", "http://127.0.0.1:9").unwrap();
    assert_eq!(
        replaced,
        "[model_providers.OpenAI]\n  base_url = \"http://127.0.0.1:9\"\nname = \"x\""
    );
}

#[test]
fn replacement_without_base_url_is_an_error() {
    let text = "[model_providers.Other]\nbase_url = \"https://a.example\"\n";
    assert_eq!(
        replace_provider_base_url(text, "OpenAI", "http://127.0.0.1:1"),
        Err("Codex 配置中未找到 [model_providers.OpenAI] 的 base_url".to_string())
    );
}

#[test]
fn provider_base_url_reads_the_first_non_empty_value_of_the_section() {
    let text = "base_url = \"top\"\n[model_providers.OpenAI]\nbase_url = \"\"\nbase_url = ' https://b.example '\n[other]\nbase_url = \"c\"\n";
    assert_eq!(
        provider_base_url(text, "OpenAI").as_deref(),
        Some("https://b.example")
    );
    assert_eq!(provider_base_url(text, "Missing"), None);
}

#[test]
fn backup_path_adds_suffix_when_timestamp_exists() {
    let existing = vec!["config.toml.codex-switch-backup-20260909-130001".to_string()];
    assert_eq!(
        next_codex_backup_path_for_timestamp(&existing, "20260909-130001"),
        "config.toml.codex-switch-backup-20260909-130001-2"
    );
}

#[test]
fn backup_path_is_plain_when_free_and_skips_taken_suffixes() {
    let none: Vec<String> = Vec::new();
    assert_eq!(
        next_codex_backup_path_for_timestamp(&none, "t"),
        "config.toml.codex-switch-backup-t"
    );
    let mut taken = vec!["config.toml.codex-switch-backup-t".to_string()];
    for k in 2..12 {
        taken.push(format!("config.toml.codex-switch-backup-t-{k}"));
    }
    let next = next_codex_backup_path_for_timestamp(&taken, "t");
    assert_eq!(next, "config.toml.codex-switch-backup-t-12");
    assert!(!taken.contains(&next));
}

#[test]
fn latest_backup_prefers_dated_backup_and_keeps_legacy_compatible() {
    let names = vec![
        "config.toml.codex-switch-backup".to_string(),
        "config.toml.codex-switch-backup-20260909-130001".to_string(),
        "config.toml".to_string(),
    ];
    assert_eq!(
        latest_codex_backup_path(&names).as_deref(),
        Some("config.toml.codex-switch-backup-20260909-130001")
    );
    let legacy = vec!["config.toml.codex-switch-backup".to_string(), "auth.json".to_string()];
    assert_eq!(
        latest_codex_backup_path(&legacy).as_deref(),
        Some("config.toml.codex-switch-backup")
    );
    let other = vec!["config.toml.codex-switch-backupX".to_string()];
    assert_eq!(latest_codex_backup_path(&other), None);
}

#[test]
fn decimal_writes_numbers() {
    assert_eq!(decimal(0), "0");
    assert_eq!(decimal(7), "7");
    assert_eq!(decimal(1234567890), "1234567890");
}

#[test]
fn takeover_rewrites_then_reports_done() {
    let text = "[model_providers.OpenAI]\nbase_url = \"https://api.example/v1\"\n";
    let rewritten = match takeover_step("127.0.0.1:8787", text).unwrap() {
        TakeoverStep::Rewrite(t) => t,
        TakeoverStep::AlreadyTakenOver => panic!("expected a rewrite"),
    };
    assert_eq!(
        rewritten,
        "[model_providers.OpenAI]\nbase_url = \"http://127.0.0.1:8787\"\n"
    );
    assert!(points_at_local_proxy(&rewritten));
    assert!(matches!(
        takeover_step("127.0.0.1:8787", &rewritten),
        Ok(TakeoverStep::AlreadyTakenOver)
    ));
    assert_eq!(
        restore_codex_files_from_home(true, &rewritten),
        Ok(RestoreStep::WriteBackup)
    );
}

#[test]
fn takeover_without_provider_is_an_error() {
    assert_eq!(
        takeover_step("127.0.0.1:1", "model = \"x\"\n").err(),
        Some("Codex 配置中未找到 [model_providers.OpenAI] 的 base_url".to_string())
    );
}

#[test]
fn restore_decisions() {
    let local = "[model_providers.OpenAI]\nbase_url = \"http://127.0.0.1:8787\"\n";
    let remote = "[model_providers.OpenAI]\nbase_url = \"https://api.example/v1\"\n";
    assert_eq!(restore_codex_files_from_home(true, remote), Ok(RestoreStep::Keep));
    assert_eq!(restore_codex_files_from_home(false, remote), Ok(RestoreStep::Keep));
    assert_eq!(restore_codex_files_from_home(true, local), Ok(RestoreStep::WriteBackup));
    assert_eq!(
        restore_codex_files_from_home(false, local),
        Err("没有可用备份，无法取消接管".to_string())
    );
    assert!(!points_at_local_proxy(remote));
}

#[test]
fn marker_pids_parse_like_u32() {
    assert_eq!(marker_pid(" 4242\n"), Some(4242));
    assert_eq!(marker_pid("+7"), Some(7));
    assert_eq!(marker_pid("4294967295"), Some(u32::MAX));
    assert_eq!(marker_pid("4294967296"), None);
    assert_eq!(marker_pid("-1"), None);
    assert_eq!(marker_pid("12a"), None);
    assert_eq!(marker_pid(""), None);
    assert_eq!(marker_pid("+"), None);
    assert_eq!(parse_u32("0042"), Some(42));
}

#[test]
fn process_liveness_and_stale_takeovers() {
    assert!(process_is_alive(10, 10, ProbeOutcome::Failed));
    assert!(process_is_alive(11, 10, ProbeOutcome::Delivered));
    assert!(process_is_alive(11, 10, ProbeOutcome::PermissionDenied));
    assert!(!process_is_alive(11, 10, ProbeOutcome::Failed));
    assert!(!stale_takeover(false, None));
    assert!(!stale_takeover(true, Some(true)));
    assert!(stale_takeover(true, Some(false)));
    assert!(stale_takeover(true, None));
}

#[test]
fn rewriting_twice_changes_nothing() {
    let text = "a = 1\r\n[model_providers.OpenAI]\r\n  base_url = \"https://x\"\r\nname = \"n\"";
    let once = replace_provider_base_url(text, "OpenAI", "http://127.0.0.1:1").unwrap();
    let twice = replace_provider_base_url(&once, "OpenAI", "http://127.0.0.1:1").unwrap();
    assert_eq!(once, twice);
    assert_eq!(once, "a = 1\n[model_providers.OpenAI]\n  base_url = \"http://127.0.0.1:1\"\nname = \"n\"");
}

#[test]
fn base_url_needs_its_section() {
    assert_eq!(provider_base_url("base_url = \"https://x\"\n", "OpenAI"), None);
    assert_eq!(
        provider_base_url("  [model_providers.OpenAI]  \nbase_url = \" 'https://y' \"\n", "OpenAI")
            .as_deref(),
        Some("'https://y'")
    );
}
