use codextool::desktop::{
    check_switch_preflight, macos_codex_main_app_bundle_for_executable, oauth_callback_session_check,
    pending_login_matches,
    oauth_urls_fit_check, try_route_oauth_request,
    oauth_callback_url_error,
    codex_cli_launch_failure, provider_sync_failure_note, switch_begin, switch_step, SwitchAction,
    SwitchEvent, SwitchPlan, SwitchStage,
    oauth_html_response,
    oauth_completion_page, oauth_login_expired, oauth_route_page, refresh_failure_blocks_account,
    route_oauth_request, switch_plan, OauthRoute, SwitchSettings,
    build_oauth_callback_url, collect_descendant_process_ids, should_noop_switch_account,
    escape_html, is_invalid_refresh_grant, normalize_switch_refresh_error,
    normalized_version_parts, version_is_newer, PERIODIC_USAGE_REFRESH_INTERVAL_SECS,
};

#[test]
fn periodic_usage_refresh_runs_once_per_minute_on_every_platform() {
    assert_eq!(PERIODIC_USAGE_REFRESH_INTERVAL_SECS, 60);
}

#[test]
fn github_release_versions_are_compared_numerically() {
    assert!(version_is_newer("v0.1.3", "0.1.2"));
    assert!(version_is_newer("0.2.0", "0.1.99"));
    assert!(!version_is_newer("v0.1.3", "0.1.3"));
    assert!(!version_is_newer("0.1.2", "0.1.3"));
    assert!(!version_is_newer("not-a-version", "0.1.3"));
}

#[test]
fn version_parts_ignore_prefix_and_pre_release_suffix() {
    assert_eq!(normalized_version_parts(" v1.2.3-beta.1 "), Some(vec![1, 2, 3]));
    assert_eq!(normalized_version_parts("1..2"), None);
    assert!(!version_is_newer("1.2", "1.2.0"));
    assert!(version_is_newer("1.2.0.1", "1.2"));
}

#[test]
fn escapes_html_special_characters() {
    assert_eq!(escape_html("<a href=\"x\">Tom & 'Jerry'</a>"), "&lt;a href=&quot;x&quot;&gt;Tom &amp; &#39;Jerry&#39;&lt;/a&gt;");
}

#[test]
fn explains_rejected_refresh_tokens() {
    assert!(is_invalid_refresh_grant("invalid_grant: refresh token expired"));
    assert!(is_invalid_refresh_grant("invalid_grant"));
    assert!(!is_invalid_refresh_grant("grant revoked"));
    assert_eq!(
        normalize_switch_refresh_error("Error: refresh_token_reused"),
        "当前账号的 refresh_token 已失效或已被轮换，请重新登录授权。"
    );
    assert_eq!(
        normalize_switch_refresh_error("Provided authentication token is expired."),
        "当前账号授权已过期，请重新登录授权。"
    );
    assert_eq!(normalize_switch_refresh_error("network down"), "network down");
}

#[test]
fn build_oauth_callback_url_uses_redirect_origin_and_runtime_query() {
    let callback_url = build_oauth_callback_url(
        "http://localhost:17888/auth/callback",
        "/auth/callback?code=abc&state=xyz",
    )
    .expect("callback url should be built");

    assert_eq!(
        callback_url,
        "http://localhost:17888/auth/callback?code=abc&state=xyz"
    );
}

#[test]
fn macos_process_tree_keeps_independent_codex_cli_outside_desktop_descendants() {
    let desktop = 10u32;
    let renderer = 11u32;
    let app_server = 12u32;
    let independent_cli = 20u32;
    let process_parents = vec![
        (desktop, Some(1u32)),
        (renderer, Some(desktop)),
        (app_server, Some(renderer)),
        (independent_cli, Some(2u32)),
    ];

    let targets = collect_descendant_process_ids(vec![desktop], &process_parents);

    let found: std::collections::HashSet<u32> = targets.iter().copied().collect();
    let expected: std::collections::HashSet<u32> =
        [desktop, renderer, app_server].into_iter().collect();
    assert_eq!(found, expected);
    assert!(!found.contains(&independent_cli));
}

const ACCOUNT_ID: &str = "account-row-1";
const ACCOUNT_KEY: &str = "user@example.com|account-1";
const VARIANT_KEY: &str = "user@example.com|account-1|team";

#[test]
fn switch_noop_requires_active_id_and_matching_auth_variant() {
    assert!(should_noop_switch_account(
        Some(ACCOUNT_ID),
        ACCOUNT_ID,
        ACCOUNT_KEY,
        VARIANT_KEY,
        None,
        Some(VARIANT_KEY),
    ));
}

#[test]
fn switch_noop_rejects_active_id_when_current_auth_is_unknown() {
    assert!(!should_noop_switch_account(
        Some(ACCOUNT_ID),
        ACCOUNT_ID,
        ACCOUNT_KEY,
        VARIANT_KEY,
        None,
        None,
    ));
}

#[test]
fn switch_noop_rejects_relay_active_id_without_current_auth_match() {
    let relay_id = "relay-row-1";
    assert!(!should_noop_switch_account(
        Some(relay_id),
        relay_id,
        "relay:relay-row-1",
        "relay:relay-row-1|relay",
        None,
        None,
    ));
}

#[test]
fn switch_noop_accepts_account_key_when_variant_is_unknown() {
    assert!(should_noop_switch_account(
        Some(ACCOUNT_ID),
        ACCOUNT_ID,
        ACCOUNT_KEY,
        VARIANT_KEY,
        Some(ACCOUNT_KEY),
        None,
    ));
}

#[test]
fn switch_noop_rejects_other_current_auth_or_active_id_mismatch() {
    assert!(!should_noop_switch_account(
        Some(ACCOUNT_ID),
        ACCOUNT_ID,
        ACCOUNT_KEY,
        VARIANT_KEY,
        Some("other-user@example.com|account-2"),
        Some("user@example.com|account-1|plus"),
    ));

    assert!(!should_noop_switch_account(
        Some("other-row"),
        ACCOUNT_ID,
        ACCOUNT_KEY,
        VARIANT_KEY,
        Some(ACCOUNT_KEY),
        Some(VARIANT_KEY),
    ));
}

#[test]
fn oauth_requests_are_routed_by_path() {
    let redirect = "http://localhost:17888/auth/callback";
    assert!(matches!(
        route_oauth_request(Ok("/cancel".to_string()), redirect),
        OauthRoute::Cancelled
    ));
    assert!(matches!(
        route_oauth_request(Ok("/favicon.ico".to_string()), redirect),
        OauthRoute::Unknown
    ));
    match route_oauth_request(Ok("/auth/callback?code=abc&state=xyz".to_string()), redirect) {
        OauthRoute::Callback(url) => {
            assert_eq!(url, "http://localhost:17888/auth/callback?code=abc&state=xyz")
        }
        _ => panic!("expected a callback"),
    }
    match route_oauth_request(Err("OAuth 回调请求为空".to_string()), redirect) {
        OauthRoute::Failed(error) => assert_eq!(error, "OAuth 回调请求为空"),
        _ => panic!("expected a failure"),
    }
    match route_oauth_request(Ok("/auth/callback".to_string()), "not a url") {
        OauthRoute::Failed(error) => assert!(error.starts_with("OAuth redirect_uri 无效: ")),
        _ => panic!("expected a failure"),
    }
}

#[test]
fn oauth_pages_say_whether_listening_stops() {
    let (page, stop) = oauth_route_page(&OauthRoute::Cancelled).expect("page");
    assert_eq!(page.status, "200 OK");
    assert_eq!(page.title, "授权已取消");
    assert!(stop);
    let (page, stop) = oauth_route_page(&OauthRoute::Unknown).expect("page");
    assert_eq!(page.status, "404 Not Found");
    assert!(!stop);
    let (page, stop) = oauth_route_page(&OauthRoute::Failed("boom".to_string())).expect("page");
    assert_eq!(page.status, "400 Bad Request");
    assert_eq!(page.message, "boom");
    assert!(stop);
    assert!(oauth_route_page(&OauthRoute::Callback("http://x".to_string())).is_none());
}

#[test]
fn oauth_completion_reports_all_but_stale_sessions() {
    let (page, report) = oauth_completion_page(None);
    assert_eq!(page.title, "授权完成");
    assert!(report);
    let (page, report) = oauth_completion_page(Some("network down"));
    assert_eq!(page.status, "400 Bad Request");
    assert_eq!(page.message, "network down");
    assert!(report);
    let (_, report) =
        oauth_completion_page(Some("当前授权会话已失效，请回到应用重新打开授权页面。"));
    assert!(!report);
}

#[test]
fn oauth_login_expires_at_its_deadline() {
    assert!(!oauth_login_expired(99, 100));
    assert!(oauth_login_expired(100, 100));
    assert!(oauth_login_expired(101, 100));
}

#[test]
fn only_permanent_refresh_failures_block_the_account() {
    assert!(refresh_failure_blocks_account(
        "当前账号的 refresh_token 已失效或已被轮换，请重新登录授权。"
    ));
    assert!(refresh_failure_blocks_account("当前账号授权已过期，请重新登录授权。"));
    assert!(!refresh_failure_blocks_account("network unavailable"));
    assert!(refresh_failure_blocks_account(&normalize_switch_refresh_error(
        "invalid_grant: refresh token revoked"
    )));
}

#[test]
fn switch_plan_follows_overrides_then_settings() {
    let settings = SwitchSettings {
        sync_opencode_openai_auth: false,
        restart_opencode_desktop_on_switch: true,
        restart_editors_on_switch: true,
    };
    let plan = switch_plan(&settings, None, None);
    assert!(plan.launch_codex);
    assert!(!plan.sync_opencode);
    assert!(!plan.restart_opencode_desktop);
    assert!(plan.restart_editors);
    let plan = switch_plan(&settings, Some(false), Some(false));
    assert!(!plan.launch_codex);
    assert!(!plan.restart_editors);
    let synced = SwitchSettings {
        sync_opencode_openai_auth: true,
        ..settings
    };
    assert!(switch_plan(&synced, None, None).restart_opencode_desktop);
}

#[test]
fn oauth_pages_are_escaped_html_with_their_byte_length() {
    let body = format!(
        "<!doctype html><html lang=\"zh-CN\"><head><meta charset=\"utf-8\"><meta name=\"viewport\" content=\"width=device-width, initial-scale=1\"><title>{}</title><style>body{{margin:0;padding:32px;font-family:-apple-system,BlinkMacSystemFont,'Segoe UI',sans-serif;background:#f4f7fb;color:#152033}}main{{max-width:560px;margin:0 auto;padding:24px;border-radius:20px;background:#fff;box-shadow:0 14px 34px rgba(21,32,51,.08)}}h1{{margin:0 0 10px;font-size:24px;line-height:1.2}}p{{margin:0;color:#52627b;line-height:1.6;word-break:break-word}}</style></head><body><main><h1>{}</h1><p>{}</p></main></body></html>",
        "授权&lt;失败&gt;", "授权&lt;失败&gt;", "x &amp; &quot;y&quot;"
    );
    let expected = format!(
        "HTTP/1.1 400 Bad Request\r\nContent-Type: text/html; charset=utf-8\r\nCache-Control: no-store\r\nContent-Length: {}\r\nConnection: close\r\n\r\n{}",
        body.len(),
        body
    );
    assert_eq!(
        oauth_html_response("400 Bad Request", "授权<失败>", "x & \"y\""),
        expected
    );
}

fn plan(launch: bool, opencode: bool, restart_opencode: bool, editors: bool) -> SwitchPlan {
    SwitchPlan {
        launch_codex: launch,
        sync_opencode: opencode,
        restart_opencode_desktop: restart_opencode,
        restart_editors: editors,
    }
}

#[test]
fn a_switch_refreshes_writes_and_launches_in_order() {
    let (mut state, action) = switch_begin(plan(true, true, true, true), true, false, false, None);
    assert!(matches!(action, SwitchAction::LoadLatestAuth));
    let action = switch_step(&mut state, SwitchEvent::LatestAuth { changed: false, needs_refresh: true });
    assert!(matches!(action, SwitchAction::RefreshTokens));
    let action = switch_step(&mut state, SwitchEvent::Refreshed(Ok(())));
    assert!(matches!(action, SwitchAction::ApplyProfile { auth_changed: true }));
    assert!(matches!(switch_step(&mut state, SwitchEvent::ProfileApplied), SwitchAction::StopCodex));
    assert!(matches!(switch_step(&mut state, SwitchEvent::CodexStopped), SwitchAction::SyncProvider));
    assert!(matches!(switch_step(&mut state, SwitchEvent::ProviderSynced), SwitchAction::SyncOpencode));
    assert!(matches!(switch_step(&mut state, SwitchEvent::OpencodeSynced(true)), SwitchAction::RestartOpencode));
    assert!(matches!(switch_step(&mut state, SwitchEvent::OpencodeRestarted), SwitchAction::RestartEditors));
    assert!(matches!(switch_step(&mut state, SwitchEvent::EditorsRestarted), SwitchAction::LaunchCodex));
    assert!(state.stage == SwitchStage::Finished);
}

#[test]
fn a_switch_stops_on_a_dead_refresh_token() {
    let (mut state, _) = switch_begin(plan(false, false, false, false), true, false, false, None);
    switch_step(&mut state, SwitchEvent::LatestAuth { changed: true, needs_refresh: true });
    switch_step(&mut state, SwitchEvent::Refreshed(Err("invalid_grant: refresh_token_reused".to_string())));
    match switch_step(&mut state, SwitchEvent::Recovered(false)) {
        SwitchAction::PersistRefreshBlocked(message) => assert_eq!(message, "工具保存的授权快照已失效，请重新登录授权。"),
        _ => panic!("expected the block to be stored"),
    }
    match switch_step(&mut state, SwitchEvent::BlockPersisted) {
        SwitchAction::Fail(message) => assert_eq!(
            message,
            "切换账号前刷新登录令牌失败: 当前账号的 refresh_token 已失效或已被轮换，请重新登录授权。"
        ),
        _ => panic!("expected a failure"),
    }

    let (mut blocked, _) = switch_begin(plan(true, false, false, false), true, false, true, None);
    match switch_step(&mut blocked, SwitchEvent::LatestAuth { changed: false, needs_refresh: true }) {
        SwitchAction::Fail(message) => assert_eq!(message, "切换账号前刷新登录令牌失败: 工具保存的授权快照已失效，请重新登录授权。"),
        _ => panic!("expected a failure"),
    }
}

#[test]
fn relay_and_noop_switches_skip_the_login_steps() {
    let (_, action) = switch_begin(plan(true, false, false, false), true, true, false, None);
    assert!(matches!(action, SwitchAction::FinishNoop));
    let (mut relay, action) = switch_begin(plan(false, true, false, false), false, false, false, None);
    assert!(matches!(action, SwitchAction::ApplyProfile { auth_changed: false }));
    assert!(matches!(switch_step(&mut relay, SwitchEvent::ProfileApplied), SwitchAction::SyncProvider));
    match switch_step(&mut relay, SwitchEvent::ProviderSynced) {
        SwitchAction::NoteOpencodeError(message) => assert!(message.contains("API 中转站")),
        _ => panic!("expected a note"),
    }
    assert!(matches!(switch_step(&mut relay, SwitchEvent::OpencodeNoted), SwitchAction::Finish));
    assert_eq!(
        codex_cli_launch_failure(None, "not found"),
        "未检测到本地 Codex 应用，且通过 codex app 启动失败: not found"
    );
    assert_eq!(
        codex_cli_launch_failure(Some("bad app"), "e"),
        "通过 Codex 应用路径启动失败: bad app；且通过 codex app 启动失败: e"
    );
    assert_eq!(provider_sync_failure_note("x"), "同步 Codex 历史 provider 元数据失败: x");
}

#[test]
fn oauth_callback_errors_name_the_url_that_failed() {
    assert_eq!(oauth_callback_url_error(None, None), None);
    assert_eq!(
        oauth_callback_url_error(Some("relative URL without a base".to_string()), Some("x".to_string())),
        Some("OAuth redirect_uri 无效: relative URL without a base".to_string())
    );
    assert_eq!(
        oauth_callback_url_error(None, Some("invalid port number".to_string())),
        Some("OAuth 回调路径无效: invalid port number".to_string())
    );
}

#[test]
fn ordinary_callbacks_fit_and_route() {
    let redirect = "http://localhost:1455/auth/callback";
    assert!(oauth_urls_fit_check(redirect, "/auth/callback?code=abc&state=xyz"));
    assert!(oauth_urls_fit_check("not a url", "/auth/callback"));
    match try_route_oauth_request(Ok("/auth/callback?code=abc&state=xyz".to_string()), redirect) {
        Some(OauthRoute::Callback(url)) => {
            assert_eq!(url, "http://localhost:1455/auth/callback?code=abc&state=xyz")
        }
        _ => panic!("expected a callback"),
    }
    assert!(matches!(try_route_oauth_request(Ok("/cancel".to_string()), redirect), Some(OauthRoute::Cancelled)));
}

#[test]
fn version_suffixes_and_missing_parts() {
    assert!(!version_is_newer("1.0.0", "1"));
    assert!(version_is_newer("v1.2.0-beta", "1.1.9"));
    assert!(version_is_newer("V2.0.0+build7", "1.9.9"));
    assert!(!version_is_newer("1.1.9", "1.1.9"));
}

#[test]
fn main_bundle_executable_is_recognised_by_its_path_names() {
    assert!(macos_codex_main_app_bundle_for_executable(
        Some("codex"), Some("MacOS"), Some("Contents"), true, Some("Codex")
    ));
    assert!(!macos_codex_main_app_bundle_for_executable(
        Some("codex-helper"), Some("MacOS"), Some("Contents"), true, Some("Codex")
    ));
    assert!(!macos_codex_main_app_bundle_for_executable(
        Some("Codex"), Some("bin"), Some("Contents"), true, Some("Codex")
    ));
    assert!(!macos_codex_main_app_bundle_for_executable(
        Some("Codex"), Some("macos"), Some("contents"), false, Some("Codex")
    ));
    assert!(macos_codex_main_app_bundle_for_executable(
        Some("Codex"), Some("macos"), Some("contents"), true, Some("codex")
    ));
    assert!(!macos_codex_main_app_bundle_for_executable(Some("Codex"), None, Some("Contents"), true, Some("Codex")));
}

#[test]
fn switch_preflight_and_pending_logins() {
    let ids = vec!["a".to_string(), "b".to_string(), "b".to_string()];
    assert_eq!(check_switch_preflight(false, &ids, "b"), Ok(1));
    assert_eq!(check_switch_preflight(false, &ids, "z"), Err("找不到要切换的账号".to_string()));
    assert_eq!(
        check_switch_preflight(true, &ids, "a"),
        Err("已有账号授权流程正在进行，请先完成或取消后再操作。".to_string())
    );
    assert!(pending_login_matches(Some("s1"), "s1"));
    assert!(!pending_login_matches(Some("s2"), "s1"));
    assert!(!pending_login_matches(None, "s1"));
    assert_eq!(oauth_callback_session_check(Some("s1"), "s1"), Ok(()));
    assert_eq!(
        oauth_callback_session_check(None, "s1"),
        Err("当前授权会话已失效，请回到应用重新打开授权页面。".to_string())
    );
}
