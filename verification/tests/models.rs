use codextool::models::{
    default_macos_tray_logo_ring_show_percentage, default_quota_onboarding_completed,
    default_store_version, default_tray_quota_icon_visible, duplicate_account_merge_score,
    dedupe_account_variants, mark_current_account_summary, merge_duplicate_account_variant,
    merge_prefers_right, AccountAuth, AccountUsage, MergeFacts, StoredAccount,
    normalized_email_key, normalized_identity_key, AccountSourceKind, AppLocale,
    MacosTrayTextIconStyle, SummaryIdentity, TrayUsageDisplayMode, WindowsTaskbarWidgetPlacement,
    WindowsTrayIconStyle,
};

fn summary(id: &str, account_key: &str) -> SummaryIdentity {
    SummaryIdentity {
        id: id.to_string(),
        account_key: account_key.to_string(),
        is_current: false,
    }
}

#[test]
fn marks_unique_account_group_current_when_usage_plan_differs_from_auth_plan() {
    let current_account_key = "upgraded|account-1";
    let mut summaries = vec![summary("upgraded", current_account_key)];
    assert!(!summaries[0].is_current);

    mark_current_account_summary(&mut summaries, Some(current_account_key), None);

    assert!(summaries[0].is_current);
}

#[test]
fn uses_active_account_to_disambiguate_multiple_plan_variants_in_one_group() {
    let current_account_key = "shared|account-1";
    let mut summaries = vec![
        summary("plus", current_account_key),
        summary("pro", current_account_key),
    ];

    mark_current_account_summary(&mut summaries, Some(current_account_key), Some("pro"));

    assert!(!summaries[0].is_current);
    assert!(summaries[1].is_current);
}

#[test]
fn avoids_selecting_an_unrelated_active_account_when_group_is_ambiguous() {
    let current_account_key = "shared|account-1";
    let mut summaries = vec![
        summary("plus", current_account_key),
        summary("pro", current_account_key),
        summary("other", "other|account-2"),
    ];

    mark_current_account_summary(&mut summaries, Some(current_account_key), Some("other"));

    assert!(summaries.iter().all(|account| !account.is_current));
}

#[test]
fn falls_back_to_the_last_selected_account_outside_any_group() {
    let mut summaries = vec![summary("a", "k1"), summary("b", "k2")];
    mark_current_account_summary(&mut summaries, Some("missing"), Some("b"));
    assert!(!summaries[0].is_current && summaries[1].is_current);

    let mut already = vec![summary("a", "k1"), summary("b", "k1")];
    already[0].is_current = true;
    mark_current_account_summary(&mut already, Some("k1"), Some("b"));
    assert!(already[0].is_current && !already[1].is_current);
}

#[test]
fn normalizes_email_and_identity_keys() {
    assert_eq!(normalized_email_key(Some("  Foo@Example.COM ")), Some("foo@example.com".to_string()));
    assert_eq!(normalized_email_key(Some("   ")), None);
    assert_eq!(normalized_email_key(None), None);
    assert_eq!(normalized_identity_key(Some(" User-ABC ")), Some("User-ABC".to_string()));
    assert_eq!(normalized_identity_key(Some(" User@ABC.io ")), Some("user@abc.io".to_string()));
    assert_eq!(normalized_identity_key(Some("")), None);
}

#[test]
fn settings_defaults() {
    assert_eq!(default_store_version(), 2);
    assert!(default_tray_quota_icon_visible());
    assert!(default_macos_tray_logo_ring_show_percentage());
    assert!(default_quota_onboarding_completed());
    assert_eq!(TrayUsageDisplayMode::default(), TrayUsageDisplayMode::OneWeekRemaining);
    assert_eq!(MacosTrayTextIconStyle::default(), MacosTrayTextIconStyle::CodexTool);
    assert_eq!(WindowsTrayIconStyle::default(), WindowsTrayIconStyle::LogoProgressRing);
    assert_eq!(WindowsTaskbarWidgetPlacement::default(), WindowsTaskbarWidgetPlacement::Left);
    assert_eq!(AppLocale::default(), AppLocale::ZhCn);
    assert_eq!(AccountSourceKind::default(), AccountSourceKind::Chatgpt);
}

fn facts(blocked: bool, usage: bool, email: Option<&str>, updated_at: i64) -> MergeFacts {
    MergeFacts {
        auth_refresh_blocked: blocked,
        has_usage: usage,
        has_usage_error: false,
        has_plan_type: true,
        email: email.map(|e| e.to_string()),
        updated_at,
        added_at: 1,
    }
}

#[test]
fn merge_keeps_the_unblocked_record_with_usage() {
    let blocked = facts(true, true, Some("a@b.c"), 50);
    let fresh = facts(false, false, None, 10);
    assert!(merge_prefers_right(&blocked, &fresh));
    assert!(!merge_prefers_right(&fresh, &blocked));
    assert_eq!(duplicate_account_merge_score(&blocked), (0, 1, 1, 1, 50, 1));
    assert_eq!(duplicate_account_merge_score(&fresh), (1, 0, 1, 0, 10, 1));
}

#[test]
fn merge_ties_keep_the_earlier_record() {
    let a = facts(false, true, Some("  "), 5);
    let b = facts(false, true, None, 5);
    assert!(!merge_prefers_right(&a, &b));
    assert!(merge_prefers_right(&a, &facts(false, true, None, 6)));
}

fn stored(
    id: &str,
    label: &str,
    plan_type: Option<&str>,
    usage_plan_type: Option<&str>,
    updated_at: i64,
) -> StoredAccount<&'static str, String> {
    let mut account = StoredAccount {
        id: id.to_string(),
        label: label.to_string(),
        source_kind: AccountSourceKind::Chatgpt,
        principal_id: Some("shared@example.com".to_string()),
        email: Some("shared@example.com".to_string()),
        account_id: "account-1".to_string(),
        plan_type: plan_type.map(ToString::to_string),
        auth: Some(AccountAuth {
            plan_type: None,
            document: format!("{{\"id\":\"{id}\"}}"),
        }),
        api_base_url: None,
        api_key: None,
        model_name: None,
        balance_text: None,
        profile_auth_path: None,
        profile_config_path: None,
        profile_auth_ready: false,
        profile_config_ready: false,
        profile_integrity_error: None,
        profile_last_validated_at: None,
        profile_last_validation_error: None,
        added_at: updated_at - 1,
        updated_at,
        usage: usage_plan_type.map(|plan| AccountUsage {
            plan_type: Some(plan.to_string()),
            snapshot: "usage",
        }),
        usage_error: None,
        auth_refresh_blocked: false,
        auth_refresh_error: None,
        variant_key: String::new(),
    };
    account.variant_key = format!(
        "shared@example.com|account-1|{}",
        account.resolved_plan_type().unwrap_or_default()
    );
    account
}

#[test]
fn dedupe_account_variants_keeps_newest_variant_record() {
    let mut accounts = vec![
        stored("old", "legacy", Some("team"), Some("team"), 100),
        stored("new", "fresh", Some("team"), Some("team"), 200),
    ];

    let changed = dedupe_account_variants(&mut accounts);

    assert!(changed);
    assert_eq!(accounts.len(), 1);
    assert_eq!(accounts[0].id, "new");
    assert_eq!(accounts[0].label, "fresh");
    assert_eq!(accounts[0].added_at, 99);
    assert_eq!(accounts[0].updated_at, 200);
}

#[test]
fn dedupe_account_variants_does_not_reintroduce_a_stale_refresh_block() {
    let mut healthy = stored("healthy", "healthy", Some("team"), None, 100);
    healthy.auth.as_mut().unwrap().document = "{\"kind\":\"healthy-auth\"}".to_string();

    let mut stale_blocked = stored("blocked", "blocked", Some("team"), Some("team"), 200);
    stale_blocked.auth.as_mut().unwrap().document = "{\"kind\":\"stale-auth\"}".to_string();
    stale_blocked.auth_refresh_blocked = true;
    stale_blocked.auth_refresh_error = Some("stale refresh failure".to_string());

    let mut accounts = vec![stale_blocked, healthy];
    let changed = dedupe_account_variants(&mut accounts);

    assert!(changed);
    assert_eq!(accounts.len(), 1);
    assert_eq!(accounts[0].id, "healthy");
    assert!(accounts[0].usage.is_some());
    assert!(!accounts[0].auth_refresh_blocked);
    assert!(accounts[0].auth_refresh_error.is_none());
    assert_eq!(accounts[0].auth.as_ref().unwrap().document, "{\"kind\":\"healthy-auth\"}");
}

#[test]
fn dedupe_account_variants_merges_when_usage_reveals_same_variant() {
    let mut accounts = vec![
        stored("unknown", "legacy", None, Some("team"), 100),
        stored("team", "current", Some("team"), Some("team"), 200),
    ];

    let changed = dedupe_account_variants(&mut accounts);

    assert!(changed);
    assert_eq!(accounts.len(), 1);
    assert_eq!(accounts[0].id, "team");
}

#[test]
fn deduplication_keeps_distinct_variants_in_order() {
    let mut accounts = vec![
        stored("a", "a", Some("team"), None, 100),
        stored("plus", "plus", Some("plus"), None, 300),
        stored("b", "b", Some("team"), Some("team"), 50),
    ];

    assert!(dedupe_account_variants(&mut accounts));
    assert_eq!(accounts.len(), 2);
    assert_eq!(accounts[0].id, "b");
    assert_eq!(accounts[0].added_at, 49);
    assert_eq!(accounts[0].updated_at, 100);
    assert_eq!(accounts[1].id, "plus");

    let mut single = vec![stored("only", "only", None, None, 1)];
    assert!(!dedupe_account_variants(&mut single));
    assert_eq!(single.len(), 1);
}

#[test]
fn resolved_plan_type_prefers_the_usage_report() {
    let account = stored("mixed", "mixed", Some("team"), Some("plus"), 1);
    assert_eq!(account.resolved_plan_type().as_deref(), Some("plus"));

    let stored_only = stored("stored", "stored", Some("team"), None, 1);
    assert_eq!(stored_only.resolved_plan_type().as_deref(), Some("team"));

    let mut from_token = stored("token", "token", None, None, 1);
    from_token.auth.as_mut().unwrap().plan_type = Some("pro".to_string());
    assert_eq!(from_token.resolved_plan_type().as_deref(), Some("pro"));

    let mut relay = stored("relay", "relay", None, Some("plus"), 1);
    relay.source_kind = AccountSourceKind::Relay;
    assert_eq!(relay.resolved_plan_type(), None);
}

#[test]
fn merging_fills_missing_details_from_the_other_record() {
    let mut left = stored("left", "left", Some("team"), Some("team"), 10);
    left.api_key = Some("key".to_string());
    left.profile_auth_ready = true;
    let mut right = stored("right", "right", None, None, 20);
    right.email = None;
    right.auth = None;
    right.profile_config_ready = true;

    let merged = merge_duplicate_account_variant(left, right);

    assert_eq!(merged.id, "left");
    assert_eq!(merged.updated_at, 20);
    assert_eq!(merged.api_key.as_deref(), Some("key"));
    assert!(merged.profile_auth_ready);
    assert!(merged.profile_config_ready);
}

#[test]
fn deduplication_without_shared_variants_changes_nothing() {
    let mut accounts = vec![
        stored("team", "team", Some("team"), None, 100),
        stored("plus", "plus", Some("plus"), None, 300),
    ];
    assert!(!dedupe_account_variants(&mut accounts));
    assert_eq!(accounts.len(), 2);
    assert_eq!(accounts[0].id, "team");
    assert_eq!(accounts[1].id, "plus");
}

#[test]
fn marking_leaves_an_already_current_summary_alone() {
    let mut summaries = vec![summary("a", "k1"), summary("b", "k2")];
    summaries[1].is_current = true;
    mark_current_account_summary(&mut summaries, Some("k1"), Some("a"));
    assert!(!summaries[0].is_current);
    assert!(summaries[1].is_current);

    let mut summaries = vec![summary("a", "k1"), summary("b", "k2")];
    mark_current_account_summary(&mut summaries, Some("k2"), Some("a"));
    assert!(!summaries[0].is_current);
    assert!(summaries[1].is_current);
}
