use codextool::analytics_log::AnalyticsTokenEvent;
use codextool::cost_report::{
    last_complete_week_totals, local_day_number, WindowEvent,
    project_name_from_file_name, project_name_from_path,
    heatmap_bucket_key_with_offset, heatmap_buckets, HeatmapEvent,
    cache_file_action, cost_analytics_csv, cost_analytics_csv_rows, evicted_cache_files,
    i64_string, project_figures, prompt_figures, CacheFileAction, CostAnalyticsCsvReport,
    CostSessionFigures, CsvHeatmapRow, CsvProjectRow, CsvPromptRow, CsvSessionRow,
    FileFingerprint,
};
use codextool::token_usage::CodexTokenTotals;

fn totals(total: u64) -> CodexTokenTotals {
    CodexTokenTotals {
        input_tokens: total,
        cached_input_tokens: 0,
        output_tokens: 0,
        reasoning_output_tokens: 0,
        total_tokens: total,
    }
}

#[test]
fn signed_times_print_like_rust() {
    assert_eq!(i64_string(-42), "-42");
    assert_eq!(i64_string(i64::MIN), i64::MIN.to_string());
    assert_eq!(i64_string(1_767_225_600), "1767225600");
}

fn report() -> CostAnalyticsCsvReport {
    CostAnalyticsCsvReport {
        updated_at: 100,
        total: totals(30),
        event_count: 3,
        total_cost_usd: "0.25".to_string(),
        pricing_source: "table".to_string(),
        cost_source: "local_estimate".to_string(),
        cost_source_updated_at: None,
        cost_source_error: Some("offline, retry".to_string()),
        local_total_cost_usd: "0.25".to_string(),
        local_last_7d_cost_usd: "0.1".to_string(),
        projects: vec![CsvProjectRow {
            project_name: "app".to_string(),
            project_path: "/w/app".to_string(),
            last_at: Some(90),
            total: totals(30),
            event_count: 3,
            cost_usd: "0.25".to_string(),
        }],
        sessions: vec![CsvSessionRow {
            session_id: "s1".to_string(),
            project_name: "app".to_string(),
            project_path: "/w/app".to_string(),
            parent_session_id: None,
            started_at: Some(10),
            updated_at: Some(90),
            model: "gpt-5.5".to_string(),
            total: totals(30),
            event_count: 3,
            cost_usd: "0.25".to_string(),
            source_path: "/s/1.jsonl".to_string(),
        }],
        top_prompts: vec![CsvPromptRow {
            session_id: "s1".to_string(),
            timestamp: 10,
            project_name: "app".to_string(),
            project_path: "/w/app".to_string(),
            model: "gpt-5.5".to_string(),
            prompt_preview: "say \"hi\"".to_string(),
            prompt_chars: 8,
            total: totals(20),
            cost_usd: "0.2".to_string(),
            source_path: "/s/1.jsonl".to_string(),
        }],
        heatmap: vec![
            CsvHeatmapRow { weekday: 1, hour: 22, calls: 2, tokens: 30, cost_usd: "0.25".to_string() },
            CsvHeatmapRow { weekday: 2, hour: 0, calls: 0, tokens: 0, cost_usd: "0".to_string() },
        ],
    }
}

#[test]
fn csv_export_lists_every_row_kind() {
    let rows = cost_analytics_csv_rows(&report());
    assert_eq!(rows.len(), 6);
    assert!(rows[0].starts_with("row_type,id,project,"));
    assert_eq!(rows[0].split(',').count(), 27);
    assert_eq!(
        rows[1],
        "summary,all,,,,,,100,,,,,,30,0,0,0,30,3,0.25,,table,local_estimate,,\"offline, retry\",0.25,0.1"
    );
    assert_eq!(
        rows[2],
        "project,app,app,/w/app,,,,90,,,,,,30,0,0,0,30,3,0.25,,table,local_estimate,,,,"
    );
    assert_eq!(
        rows[3],
        "session,s1,app,/w/app,s1,,10,90,,,gpt-5.5,,,30,0,0,0,30,3,0.25,/s/1.jsonl,table,local_estimate,,,,"
    );
    assert_eq!(
        rows[4],
        "top_prompt,s1:10,app,/w/app,s1,,10,,,,gpt-5.5,\"say \"\"hi\"\"\",8,20,0,0,0,20,,0.2,/s/1.jsonl,table,local_estimate,,,,"
    );
    assert_eq!(
        rows[5],
        "heatmap,1-22,,,,1,22,,,,,,,,30,2,0.25,,table,local_estimate,,,,,,,"
    );
    let text = cost_analytics_csv(&report());
    assert_eq!(text, rows.join("\n") + "\n");
}

fn session(path: &str, keys: &[&str], events: usize, total: u64, updated_at: Option<i64>) -> CostSessionFigures {
    CostSessionFigures {
        project_path: path.to_string(),
        prompt_keys: keys.iter().map(|key| key.to_string()).collect(),
        event_count: events,
        total: totals(total),
        updated_at,
    }
}

#[test]
fn projects_add_up_their_sessions() {
    let sessions = vec![
        session("/w/b", &["b:1"], 1, 5, Some(50)),
        session("/w/a", &["a:1", "a:2"], 2, 10, None),
        session("/w/b", &["b:1", "b:2"], 4, 7, Some(40)),
    ];
    let figures = project_figures(&sessions);
    assert_eq!(figures.len(), 2);
    assert_eq!(figures[0].project_path, "/w/a");
    assert_eq!(figures[0].session_count, 1);
    assert_eq!(figures[0].prompt_count, 2);
    assert_eq!(figures[0].last_at, None);
    assert_eq!(figures[1].project_path, "/w/b");
    assert_eq!(figures[1].session_count, 2);
    assert_eq!(figures[1].prompt_count, 2);
    assert_eq!(figures[1].event_count, 5);
    assert_eq!(figures[1].total.total_tokens, 12);
    assert_eq!(figures[1].last_at, Some(50));
}

fn event(key: &str, timestamp: i64, total: u64) -> AnalyticsTokenEvent {
    AnalyticsTokenEvent {
        record_index: 0,
        timestamp,
        session_id: "s".to_string(),
        project_path: "/w".to_string(),
        model: "m".to_string(),
        prompt_key: key.to_string(),
        prompt_preview: String::new(),
        prompt_chars: 0,
        total: totals(total),
        cumulative_total: None,
    }
}

#[test]
fn prompts_add_up_their_events() {
    let events = vec![event("s:2", 30, 4), event("s:1", 20, 1), event("s:2", 10, 6)];
    let figures = prompt_figures(&events);
    assert_eq!(figures.len(), 2);
    assert_eq!(figures[0].first_event, 1);
    assert_eq!(figures[0].total.total_tokens, 1);
    assert_eq!(figures[1].first_event, 0);
    assert_eq!(figures[1].total.total_tokens, 10);
    assert_eq!(figures[1].timestamp, 10);
}

#[test]
fn cached_files_are_reused_appended_or_parsed() {
    let a = FileFingerprint { length: 10, modified_at: Some(5) };
    let b = FileFingerprint { length: 12, modified_at: Some(6) };
    assert!(cache_file_action(Some(a), Some(a)) == CacheFileAction::Reuse);
    assert!(cache_file_action(Some(a), Some(b)) == CacheFileAction::Append);
    assert!(cache_file_action(None, Some(b)) == CacheFileAction::Parse);
    assert!(cache_file_action(Some(a), None) == CacheFileAction::Skip);
    let cached = vec!["x".to_string(), "y".to_string(), "z".to_string()];
    let present = vec!["y".to_string()];
    assert_eq!(evicted_cache_files(&cached, &present), 2);
}

#[test]
fn converts_heatmap_buckets_to_the_event_local_time() {
    let utc_date_time = time::OffsetDateTime::parse(
        "2026-07-13T14:00:00Z",
        &time::format_description::well_known::Rfc3339,
    )
    .expect("parse UTC timestamp");
    let shanghai_offset = time::UtcOffset::from_hms(8, 0, 0).expect("create UTC+8 offset");

    assert_eq!(
        heatmap_bucket_key_with_offset(utc_date_time.unix_timestamp(), shanghai_offset.whole_seconds()),
        (1, 22)
    );
}

#[test]
fn heatmap_counts_recent_events_in_their_local_hour() {
    assert_eq!(heatmap_bucket_key_with_offset(0, 0), (4, 0));
    assert_eq!(heatmap_bucket_key_with_offset(0, -3600), (3, 23));
    assert_eq!(heatmap_bucket_key_with_offset(-1, 0), (3, 23));
    assert_eq!(heatmap_bucket_key_with_offset(i64::MIN, 0).0 < 7, true);

    let event = |timestamp: i64, local_offset_seconds: i32, tokens: u64| HeatmapEvent {
        timestamp,
        local_offset_seconds,
        tokens,
    };
    let buckets = heatmap_buckets(
        &vec![event(-10, 0, 5), event(0, 0, 7), event(100, 0, u64::MAX), event(0, -3600, 2)],
        -5,
    );
    assert_eq!(buckets.len(), 168);
    assert_eq!((buckets[96].weekday, buckets[96].hour), (4, 0));
    assert_eq!(buckets[96].calls, 2);
    assert_eq!(buckets[96].tokens, u64::MAX);
    assert_eq!((buckets[95].weekday, buckets[95].hour), (3, 23));
    assert_eq!(buckets[95].calls, 1);
    assert_eq!(buckets[95].tokens, 2);
    assert_eq!(buckets.iter().map(|b| b.calls).sum::<usize>(), 3);
}

#[test]
fn project_names_come_from_the_last_path_component() {
    assert_eq!(project_name_from_file_name("/work/app", Some("app".to_string())), "app");
    assert_eq!(project_name_from_file_name("/work/ ", Some(" ".to_string())), "/work/ ");
    assert_eq!(project_name_from_file_name("/", None), "/");
    assert_eq!(project_name_from_path("/tmp/natural-day-project"), "natural-day-project");
    assert_eq!(project_name_from_path("/tmp/demo/"), "demo");
    assert_eq!(project_name_from_path(""), "");
    assert_eq!(project_name_from_path("a/b"), "b");
    assert_eq!(project_name_from_path("a/ "), "a/ ");
}

#[test]
fn cost_window_takes_the_seven_complete_days_before_today() {
    let day: i64 = 86_400;
    let today_noon = 20_000 * day + 12 * 3_600;
    assert_eq!(local_day_number(today_noon, 0), 20_000);
    assert_eq!(local_day_number(-1, 0), -1);
    assert_eq!(local_day_number(20_000 * day + 30 * 60, -3_600), 19_999);

    let event = |timestamp: i64, local_offset_seconds: i32, tokens: u64| WindowEvent {
        timestamp,
        local_offset_seconds,
        total: totals(tokens),
    };
    let events = vec![
        event(today_noon - 7 * day, 0, 100),
        event(today_noon - 3_600, 0, 200),
        event(today_noon - 8 * day, 0, 400),
        event(20_000 * day - 60, 0, 800),
        event(20_000 * day + 30 * 60, -3_600, 1_600),
    ];
    let sum = last_complete_week_totals(&events, today_noon, 0);
    assert_eq!(sum.total_tokens, 100 + 800 + 1_600);
    assert_eq!(last_complete_week_totals(&events, 300_000_000_000, 0).total_tokens, 0);
}
