use codextool::command_line::{
    pick_best_account_index, resolve_account_indices, AccountRank, AccountRef, CandidateSummary,
    is_cli_auth_expired_error, is_cli_invocation, normalize_cli_args, normalize_cli_usage_error,
    provider_status_lines, provider_sync_result_lines, truncate_cell,
};
use codextool::provider_sync::{
    add_sqlite_provider_row, increment_provider_count, summarize_backups, CurrentProvider,
    ProviderScopeCounts, ProviderStatus, ProviderSyncResult, RolloutScope, SqliteProviderCounts,
};
use codextool::{run_cli_from_env, try_run_cli_from_env};

fn args(words: &[&str]) -> Vec<String> {
    words.iter().map(|w| w.to_string()).collect()
}

#[test]
fn detects_direct_and_prefixed_cli_invocations() {
    assert!(is_cli_invocation(&args(&["codextool", "cli", "list"])));
    assert!(is_cli_invocation(&args(&["codextool", "list"])));
    assert!(is_cli_invocation(&args(&["codextool", "provider"])));
    assert!(!is_cli_invocation(&args(&["codextool"])));
}

#[test]
fn drops_the_cli_word_before_parsing() {
    assert_eq!(normalize_cli_args(args(&["codextool", "cli", "list"])), args(&["codextool", "list"]));
    assert_eq!(try_run_cli_from_env(args(&["codextool", "cli", "usage"])), Some(args(&["codextool", "usage"])));
    assert_eq!(try_run_cli_from_env(args(&["codextool", "--minimized"])), None);
    assert_eq!(run_cli_from_env(args(&["codextool", "doctor"])), args(&["codextool", "doctor"]));
}

#[test]
fn truncates_table_cells_with_an_ellipsis() {
    assert_eq!(truncate_cell("abcdef", 4), "abc…");
    assert_eq!(truncate_cell("abc", 4), "abc");
    assert_eq!(truncate_cell("中文字符", 3), "中文…");
}

#[test]
fn explains_expired_cli_sessions() {
    assert!(is_cli_auth_expired_error("Your refresh token has already been used to generate a new access token."));
    assert!(is_cli_auth_expired_error("auth.json 缺少 refresh_token"));
    assert!(!is_cli_auth_expired_error("Your refresh token has already been used"));
    assert!(!is_cli_auth_expired_error("timeout"));
    assert_eq!(normalize_cli_usage_error("timeout"), "timeout");
    assert_eq!(normalize_cli_usage_error("Error: DEACTIVATED_WORKSPACE"), "该账号已被踢出 team 组织，请重新授权后再刷新。");
    assert_eq!(normalize_cli_usage_error("account deactivated"), "账号被封禁，请检查邮箱");
    assert_eq!(normalize_cli_usage_error("Token is expired"), "工具保存的授权快照已失效，请重新登录授权。");
}

#[test]
fn provider_status_lists_every_count() {
    let mut rollout_counts = ProviderScopeCounts::new();
    increment_provider_count(&mut rollout_counts, RolloutScope::Sessions, "openai");
    increment_provider_count(&mut rollout_counts, RolloutScope::Sessions, "custom");
    increment_provider_count(&mut rollout_counts, RolloutScope::Sessions, "openai");
    let mut sqlite = SqliteProviderCounts::new();
    add_sqlite_provider_row(&mut sqlite, "openai".to_string(), 4);
    add_sqlite_provider_row(&mut sqlite, String::new(), 1);
    let status = ProviderStatus {
        codex_home: "/home/u/.codex".to_string(),
        current_provider: CurrentProvider {
            id: "custom".to_string(),
            source: "config".to_string(),
            base_url: Some("https://api.example.com/v1".to_string()),
        },
        configured_providers: vec!["custom".to_string(), "openai".to_string()],
        rollout_counts,
        encrypted_content_counts: ProviderScopeCounts::new(),
        unreadable_rollout_files: vec!["a.jsonl".to_string()],
        sqlite_present: true,
        sqlite_path: Some("/home/u/.codex/state_5.sqlite".to_string()),
        sqlite_counts: Some(sqlite),
        backup_summary: summarize_backups(&vec!["20260101-1".to_string(), "20260102-1".to_string()]),
        backup_dir: "/home/u/.codex/backups_state/provider-sync".to_string(),
    };

    assert_eq!(
        provider_status_lines(&status),
        vec![
            "codex_home=/home/u/.codex",
            "current_provider=custom source=config",
            "openai_base_url=https://api.example.com/v1",
            "configured_providers=custom,openai",
            "rollouts.sessions=custom:1,openai:2",
            "rollouts.archived_sessions=-",
            "encrypted_content.sessions=-",
            "encrypted_content.archived_sessions=-",
            "sqlite.threads=<empty>:1,openai:4 total=5",
            "unreadable_rollout_files=1",
            "backups.available=true count=2 latest=20260102-1",
        ]
    );
}

#[test]
fn provider_status_without_history_index_or_backups() {
    let status = ProviderStatus {
        codex_home: "/c".to_string(),
        current_provider: CurrentProvider {
            id: "openai".to_string(),
            source: "default".to_string(),
            base_url: None,
        },
        configured_providers: Vec::new(),
        rollout_counts: ProviderScopeCounts::new(),
        encrypted_content_counts: ProviderScopeCounts::new(),
        unreadable_rollout_files: Vec::new(),
        sqlite_present: false,
        sqlite_path: None,
        sqlite_counts: None,
        backup_summary: summarize_backups(&Vec::new()),
        backup_dir: "/c/backups_state/provider-sync".to_string(),
    };
    let lines = provider_status_lines(&status);
    assert_eq!(lines.len(), 9);
    assert_eq!(lines[2], "configured_providers=");
    assert_eq!(lines[7], "sqlite.threads=<missing>");
    assert_eq!(lines[8], "backups.available=false count=0 latest=-");
}

#[test]
fn provider_sync_result_lines_name_the_backup() {
    let mut encrypted = ProviderScopeCounts::new();
    increment_provider_count(&mut encrypted, RolloutScope::ArchivedSessions, "openai");
    let result = ProviderSyncResult {
        codex_home: "/c".to_string(),
        provider: "openai".to_string(),
        rollout_files_scanned: 12,
        rollout_files_changed: 3,
        sqlite_present: true,
        sqlite_threads_changed: 7,
        backup_id: None,
        backup_path: Some("/c/backups".to_string()),
        encrypted_content_counts: encrypted,
        unreadable_rollout_files: Vec::new(),
    };
    assert_eq!(
        provider_sync_result_lines(&result),
        vec![
            "provider=openai",
            "rollout_files scanned=12 changed=3",
            "sqlite present=true changed_threads=7",
            "backup id=- path=/c/backups",
            "encrypted_content.sessions=-",
            "encrypted_content.archived_sessions=openai:1",
        ]
    );
}

fn account(id: &str, label: &str) -> AccountRef {
    AccountRef {
        id: id.to_string(),
        account_id: format!("acct-{id}"),
        account_key: format!("key-{id}"),
        label: label.to_string(),
        email: None,
    }
}

fn candidates(accounts: &[AccountRef]) -> Vec<CandidateSummary> {
    accounts
        .iter()
        .map(|a| CandidateSummary { id: a.id.clone(), label: a.label.clone() })
        .collect()
}

#[test]
fn account_selection_stays_within_the_store() {
    let accounts = vec![account("a1", "Work"), account("b2", "Home"), account("c3", "work")];
    let summaries = candidates(&accounts);

    assert_eq!(resolve_account_indices(&accounts, &summaries, None, false), Ok(vec![0, 1, 2]));
    assert_eq!(resolve_account_indices(&accounts, &summaries, Some("  "), false), Ok(vec![0, 1, 2]));
    assert_eq!(resolve_account_indices(&accounts, &summaries, Some(" 2 "), false), Ok(vec![1]));
    assert_eq!(resolve_account_indices(&accounts, &summaries, Some("b2"), false), Ok(vec![1]));
    assert_eq!(resolve_account_indices(&accounts, &summaries, Some("HOME"), false), Ok(vec![1]));
    assert_eq!(
        resolve_account_indices(&accounts, &summaries, Some("work"), false),
        Err("账号匹配不唯一: 1:a1:Work, 3:c3:work".to_string())
    );
    assert_eq!(
        resolve_account_indices(&accounts, &summaries, Some("zzz"), false),
        Err("找不到账号: zzz".to_string())
    );
    assert_eq!(
        resolve_account_indices(&vec![], &vec![], None, false),
        Err("账号列表为空".to_string())
    );
    assert_eq!(resolve_account_indices(&vec![], &vec![], None, true), Ok(vec![]));
}

fn rank(blocked: bool, one_week: i64, updated_at: i64) -> AccountRank {
    AccountRank {
        blocked,
        has_error: false,
        one_week_millis: one_week,
        five_hour_millis: 0,
        updated_at,
    }
}

#[test]
fn best_account_is_the_first_of_least_rank() {
    assert_eq!(pick_best_account_index(&vec![]), Err("账号列表为空".to_string()));
    let ranks = vec![rank(true, 0, 9), rank(false, 500, 1), rank(false, 200, 1), rank(false, 200, 1)];
    assert_eq!(pick_best_account_index(&ranks), Ok(2));
    let ranks = vec![rank(false, 200, 1), rank(false, 200, 5)];
    assert_eq!(pick_best_account_index(&ranks), Ok(1));
}
