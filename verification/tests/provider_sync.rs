use codextool::provider_sync::{
    current_provider_from_values, provider_ids_from_table_keys,
    config_with_model_provider, configured_provider_ids, ensure_configured_provider,
    normalize_provider_id, prune_plan, quote_sqlite_identifier, read_current_provider_from_config_text,
    rollout_has_user_event, scan_rollout_text, split_first_jsonl_line, sqlite_error,
    sqlite_schema_from_columns, summarize_backups, sync_target_provider,
};

#[test]
fn explicit_sync_rejects_unknown_provider() {
    let error = sync_target_provider("", "other", true).unwrap_err();
    assert!(error.contains("没有配置 provider"));
    assert_eq!(sync_target_provider("", " openai ", true).unwrap(), "openai");
    assert_eq!(sync_target_provider("", "other", false).unwrap(), "other");
}

#[test]
fn reads_the_current_provider_from_config() {
    let current = read_current_provider_from_config_text("model_provider = \"relay\"\nopenai_base_url = \"https://x\"\n");
    assert_eq!(current.id, "relay");
    assert_eq!(current.source, "config");
    assert_eq!(current.base_url.as_deref(), Some("https://x"));
    let fallback = read_current_provider_from_config_text("not = [valid");
    assert_eq!(fallback.id, "openai");
    assert_eq!(fallback.source, "default");
    assert_eq!(fallback.base_url, None);
}

#[test]
fn lists_configured_providers_sorted_without_repeats() {
    let text = "[model_providers.zeta]\nname = \"z\"\n[model_providers.alpha]\n[model_providers.openai]\n";
    assert_eq!(configured_provider_ids(text), vec!["alpha", "openai", "zeta"]);
    assert_eq!(configured_provider_ids(""), vec!["openai"]);
    assert!(ensure_configured_provider(text, "alpha").is_ok());
    assert_eq!(
        ensure_configured_provider(text, "beta").unwrap_err(),
        "config.toml 中没有配置 provider `beta`，请先在 [model_providers.beta] 中配置后再同步"
    );
}

#[test]
fn switching_writes_the_model_provider() {
    let text = "[model_providers.alpha]\nname = \"a\"\n";
    let updated = config_with_model_provider(text, " alpha ").unwrap();
    assert_eq!(read_current_provider_from_config_text(&updated).id, "alpha");
    assert!(config_with_model_provider(text, "beta").is_err());
    assert_eq!(normalize_provider_id("   ").unwrap_err(), "provider 不能为空");
}

#[test]
fn splits_the_first_rollout_line() {
    assert_eq!(split_first_jsonl_line(""), None);
    assert_eq!(
        split_first_jsonl_line("a\r\nb\nc"),
        Some(("a".to_string(), "\r\n".to_string(), "b\nc".to_string()))
    );
    assert_eq!(
        split_first_jsonl_line("a\nb"),
        Some(("a".to_string(), "\n".to_string(), "b".to_string()))
    );
    assert_eq!(
        split_first_jsonl_line("only\r"),
        Some(("only".to_string(), String::new(), String::new()))
    );
}

#[test]
fn scans_a_rollout_for_its_provider() {
    let raw = "{\"type\":\"session_meta\",\"payload\":{\"id\":\"thread-1\",\"cwd\":\"/tmp/project\",\"model_provider\":\"other\"}}\n{\"type\":\"message\",\"role\":\"user\",\"content\":\"hi\"}\n";
    let scan = scan_rollout_text(raw, "openai").unwrap().unwrap();
    assert_eq!(scan.existing_provider, "other");
    assert_eq!(scan.thread_id.as_deref(), Some("thread-1"));
    assert!(scan.user_event);
    assert_eq!(scan.cwd.as_deref(), Some("/tmp/project"));
    let rewritten = scan.rewrite.unwrap().unwrap();
    assert!(rewritten.starts_with('{'));
    assert!(rewritten.contains("\"model_provider\":\"openai\""));
    assert!(rewritten.ends_with("\n{\"type\":\"message\",\"role\":\"user\",\"content\":\"hi\"}\n"));

    let same = scan_rollout_text(raw, "other").unwrap().unwrap();
    assert!(same.rewrite.is_none());
    assert!(scan_rollout_text("{\"type\":\"message\"}", "openai").unwrap().is_none());
    assert!(scan_rollout_text("not json", "openai").unwrap_err().starts_with("解析 session_meta 失败: "));
    assert!(rollout_has_user_event("\"type\": \"user_message\""));
}

#[test]
fn quotes_only_plain_sqlite_identifiers() {
    assert_eq!(quote_sqlite_identifier("thread_id").unwrap(), "\"thread_id\"");
    assert_eq!(
        quote_sqlite_identifier("id; DROP").unwrap_err(),
        "不支持的 SQLite 字段名: id; DROP"
    );
    assert!(sqlite_error("读取", "database is locked").contains("state_5.sqlite 正在被 Codex 占用"));
    assert_eq!(sqlite_error("读取", "no such table"), "读取失败: no such table");
}

#[test]
fn reads_the_threads_schema() {
    let columns: Vec<String> = ["thread_id", "cwd", "model_provider"].iter().map(|s| s.to_string()).collect();
    let schema = sqlite_schema_from_columns(&columns).unwrap();
    assert_eq!(schema.id_column, "thread_id");
    assert!(schema.has_model_provider && schema.has_cwd && !schema.has_user_event);
    assert!(sqlite_schema_from_columns(&vec!["name".to_string()]).is_none());
    assert!(sqlite_schema_from_columns(&Vec::new()).is_none());
}

#[test]
fn plans_backup_pruning_from_the_latest() {
    let ids: Vec<String> = ["100-a", "300-c", "200-b"].iter().map(|s| s.to_string()).collect();
    let summary = summarize_backups(&ids);
    assert!(summary.available);
    assert_eq!(summary.backup_count, 3);
    assert_eq!(summary.latest_backup_id.as_deref(), Some("300-c"));
    let (removed, kept) = prune_plan(ids.clone(), 1);
    assert_eq!(removed, vec!["200-b", "100-a"]);
    assert_eq!(kept, 1);
    let (removed, kept) = prune_plan(ids, 5);
    assert!(removed.is_empty());
    assert_eq!(kept, 3);
}

#[test]
fn switched_config_reads_back_the_provider() {
    let text = "# main config\n[model_providers.alpha]\nname = \"Alpha\"\n";
    let updated = config_with_model_provider(text, "alpha").unwrap();
    let current = read_current_provider_from_config_text(&updated);
    assert_eq!(current.id, "alpha");
    assert_eq!(current.source, "config");

    let broken = "model_provider = \nnot toml";
    let replaced = config_with_model_provider(broken, "openai").unwrap();
    assert_eq!(read_current_provider_from_config_text(&replaced).id, "openai");
    assert_eq!(read_current_provider_from_config_text(&replaced).source, "config");
}

#[test]
fn a_synced_rollout_needs_no_second_rewrite() {
    let raw = "{\"type\":\"session_meta\",\"payload\":{\"id\":\"t-1\",\"model_provider\":\"old\",\"note\":\"a\\nb\"}}\r\n{\"type\":\"event_msg\"}\n";
    let first = scan_rollout_text(raw, "new").unwrap().unwrap();
    assert_eq!(first.existing_provider, "old");
    let rewritten = first.rewrite.unwrap().unwrap();
    assert!(rewritten.ends_with("\r\n{\"type\":\"event_msg\"}\n"));

    let second = scan_rollout_text(&rewritten, "new").unwrap().unwrap();
    assert_eq!(second.existing_provider, "new");
    assert!(second.rewrite.is_none());
    assert_eq!(second.thread_id.as_deref(), Some("t-1"));
}

#[test]
fn current_provider_and_ids_follow_the_values_read() {
    let configured = current_provider_from_values(Some("relay".to_string()), Some("https://x".to_string()));
    assert_eq!(configured.id, "relay");
    assert_eq!(configured.source, "config");
    assert_eq!(configured.base_url.as_deref(), Some("https://x"));
    let default = current_provider_from_values(None, None);
    assert_eq!(default.id, "openai");
    assert_eq!(default.source, "default");
    assert!(default.base_url.is_none());

    assert_eq!(provider_ids_from_table_keys(None), vec!["openai".to_string()]);
    assert_eq!(
        provider_ids_from_table_keys(Some(vec!["zeta".to_string(), "alpha".to_string(), "openai".to_string()])),
        vec!["alpha".to_string(), "openai".to_string(), "zeta".to_string()]
    );
}
