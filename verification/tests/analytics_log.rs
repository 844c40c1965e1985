use codextool::analytics_log::{
    apply_analytics_lineage_ownership, apply_cumulative_deltas_to_analytics, message_payload_text,
    summarize_analytics_events, AnalyticsLogReader, AnalyticsTokenEvent,
};
use codextool::token_usage::{billable_tokens, CodexTokenTotals};

fn totals(input: u64, output: u64, total: u64) -> CodexTokenTotals {
    CodexTokenTotals {
        input_tokens: input,
        cached_input_tokens: 0,
        output_tokens: output,
        reasoning_output_tokens: 0,
        total_tokens: total,
    }
}

fn token_line(timestamp: &str, last: u64, total: u64) -> String {
    format!(
        "{{\"timestamp\":\"{timestamp}\",\"type\":\"event_msg\",\"payload\":{{\"type\":\"token_count\",\"info\":{{\"last_token_usage\":{{\"input_tokens\":{last},\"output_tokens\":0,\"total_tokens\":{last}}},\"total_token_usage\":{{\"input_tokens\":{total},\"output_tokens\":0,\"total_tokens\":{total}}}}}}}}}\n"
    )
}

#[test]
fn reads_prompts_models_and_token_events() {
    let mut reader = AnalyticsLogReader::new("fallback".to_string(), Some("s-1".to_string()));
    reader.read_line("{\"type\":\"session_meta\",\"payload\":{\"id\":\"s-1\",\"cwd\":\"/work/app\",\"model\":\"gpt-5.5\"}}\n");
    reader.read_line("\n");
    reader.read_line("not json\n");
    reader.read_line("{\"type\":\"event_msg\",\"payload\":{\"type\":\"user_message\",\"message\":\"  fix   the bug \"}}\n");
    reader.read_line(&token_line("2026-01-01T00:00:10Z", 7, 7));
    reader.read_line("{\"type\":\"turn_context\",\"payload\":{\"cwd\":\"/work/other\",\"model\":\"o3\"}}\n");
    reader.read_line(&token_line("2026-01-01T00:00:05Z", 3, 10));

    assert_eq!(reader.session_id, "s-1");
    assert!(reader.identity_trusted);
    assert_eq!(reader.record_hashes.len(), 5);
    assert_eq!(reader.current_prompt_index, 1);
    assert_eq!(reader.current_prompt_chars, 16);
    assert_eq!(reader.current_prompt_preview, "fix the bug");
    assert_eq!(reader.events.len(), 2);
    assert_eq!(reader.events[0].record_index, 2);
    assert_eq!(reader.events[0].model, "gpt-5.5");
    assert_eq!(reader.events[0].project_path, "/work/app");
    assert_eq!(reader.events[0].prompt_key, "s-1:1");
    assert_eq!(reader.events[0].total.total_tokens, 7);
    assert_eq!(reader.events[1].model, "o3");
    assert_eq!(reader.events[1].project_path, "/work/other");
    assert_eq!(reader.prompt_keys, vec!["s-1:1".to_string()]);
    assert_eq!(reader.total.total_tokens, 10);
    assert_eq!(reader.started_at, Some(1_767_225_605));
    assert_eq!(reader.updated_at, Some(1_767_225_610));
}

#[test]
fn message_text_joins_the_non_blank_items() {
    assert_eq!(
        message_payload_text("{\"payload\":{\"content\":\"hello\"}}").as_deref(),
        Some("hello")
    );
    assert_eq!(
        message_payload_text("{\"payload\":{\"content\":[{\"text\":\"a\"},{\"text\":\"  \"},{\"input_text\":\"b\"},{\"other\":1}]}}").as_deref(),
        Some("a\nb")
    );
    assert_eq!(
        message_payload_text("{\"payload\":{\"content\":[{\"text\":\" \"}]}}"),
        None
    );
    assert_eq!(message_payload_text("{\"payload\":{\"content\":3}}"), None);
}

fn event(record_index: usize, model: &str, total: u64, cumulative: Option<u64>) -> AnalyticsTokenEvent {
    AnalyticsTokenEvent {
        record_index,
        timestamp: 100 + record_index as i64,
        session_id: "s".to_string(),
        project_path: "/p".to_string(),
        model: model.to_string(),
        prompt_key: format!("s:{}", record_index / 2),
        prompt_preview: String::new(),
        prompt_chars: 0,
        total: totals(total, 0, total),
        cumulative_total: cumulative.map(|c| totals(c, 0, c)),
    }
}

#[test]
fn analytics_events_are_charged_by_cumulative_growth() {
    let events = vec![
        event(0, "m", 5, Some(5)),
        event(1, "m", 4, Some(9)),
        event(2, "m", 4, Some(9)),
        event(3, "m", 6, Some(15)),
        event(4, "m", 1, None),
    ];
    let (kept, unresolved) = apply_cumulative_deltas_to_analytics(&events, 2);
    assert_eq!(unresolved, 1);
    assert_eq!(kept.len(), 1);
    assert_eq!(kept[0].record_index, 3);
    assert_eq!(kept[0].total.total_tokens, 6);
}

#[test]
fn analytics_without_snapshots_keep_own_events() {
    let events = vec![event(0, "m", 5, None), event(3, "m", 2, None)];
    let (kept, unresolved) = apply_cumulative_deltas_to_analytics(&events, 1);
    assert_eq!(unresolved, 0);
    assert_eq!(kept.len(), 1);
    assert_eq!(kept[0].total.total_tokens, 2);
}

#[test]
fn copied_history_without_a_snapshot_leaves_own_usage_unresolved() {
    let events = vec![event(0, "m", 5, None), event(3, "m", 2, Some(2))];
    let (kept, unresolved) = apply_cumulative_deltas_to_analytics(&events, 1);
    assert!(kept.is_empty());
    assert_eq!(unresolved, 1);
}

#[test]
fn session_summary_counts_prompts_time_and_models() {
    let events = vec![
        event(0, "a", 5, None),
        event(1, "b", 9, None),
        event(2, "a", 6, None),
    ];
    let summary = summarize_analytics_events(&events);
    assert_eq!(summary.prompt_keys, vec!["s:0".to_string(), "s:1".to_string()]);
    assert_eq!(summary.prompt_count, 2);
    assert_eq!(summary.event_count, 3);
    assert_eq!(summary.total.total_tokens, 20);
    assert_eq!(summary.started_at, Some(100));
    assert_eq!(summary.updated_at, Some(102));
    assert_eq!(summary.duration_seconds, Some(2));
    assert_eq!(summary.model.as_deref(), Some("a"));
    let empty = summarize_analytics_events(&Vec::new());
    assert_eq!(empty.model, None);
    assert_eq!(empty.duration_seconds, None);
}

#[test]
fn billing_caps_cached_input_at_the_input() {
    let usage = CodexTokenTotals {
        input_tokens: 100,
        cached_input_tokens: 30,
        output_tokens: 7,
        reasoning_output_tokens: 0,
        total_tokens: 107,
    };
    assert_eq!(billable_tokens(&usage), (70, 30, 7));
    let over = CodexTokenTotals {
        cached_input_tokens: 150,
        ..usage
    };
    assert_eq!(billable_tokens(&over), (0, 100, 7));
}

fn read_log(name: &str, lines: &[String]) -> AnalyticsLogReader {
    let mut reader = AnalyticsLogReader::new(name.to_string(), Some(name.to_string()));
    for line in lines {
        reader.read_line(line);
    }
    reader
}

fn user_line(text: &str) -> String {
    format!("{{\"type\":\"event_msg\",\"payload\":{{\"type\":\"user_message\",\"message\":\"{text}\"}}}}\n")
}

#[test]
fn forked_analytics_keep_only_their_own_usage() {
    let parent = read_log(
        "p",
        &[
            "{\"type\":\"session_meta\",\"payload\":{\"id\":\"p\"}}\n".to_string(),
            user_line("hi"),
            token_line("2026-01-01T00:00:01Z", 5, 5),
            token_line("2026-01-01T00:00:02Z", 3, 8),
        ],
    );
    let child = read_log(
        "c",
        &[
            "{\"type\":\"session_meta\",\"payload\":{\"id\":\"c\",\"forked_from_id\":\"p\"}}\n".to_string(),
            user_line("hi"),
            token_line("2026-01-01T00:00:01Z", 5, 5),
            token_line("2026-01-01T00:00:02Z", 3, 8),
            user_line("more"),
            token_line("2026-01-01T00:00:09Z", 4, 12),
        ],
    );
    assert_eq!(child.events.len(), 3);
    let mut files = vec![parent, child];

    let counts = apply_analytics_lineage_ownership(&mut files);

    assert_eq!(counts, (2, 0, 0));
    assert_eq!(files[0].events.len(), 2);
    assert_eq!(files[0].total.total_tokens, 8);
    assert_eq!(files[1].events.len(), 1);
    assert_eq!(files[1].events[0].total.total_tokens, 4);
    assert_eq!(files[1].total.total_tokens, 4);
    assert_eq!(files[1].prompt_keys, vec!["c:2".to_string()]);
    assert_eq!(files[1].started_at, Some(1_767_225_609));
    assert_eq!(files[1].updated_at, Some(1_767_225_609));
}

#[test]
fn analytics_of_a_fork_without_its_parent_are_dropped() {
    let orphan = read_log(
        "c",
        &[
            "{\"type\":\"session_meta\",\"payload\":{\"id\":\"c\",\"forked_from_id\":\"gone\"}}\n".to_string(),
            user_line("hi"),
            token_line("2026-01-01T00:00:01Z", 5, 5),
        ],
    );
    let mut files = vec![orphan];

    assert_eq!(apply_analytics_lineage_ownership(&mut files), (1, 1, 0));
    assert!(files[0].events.is_empty());
    assert!(files[0].prompt_keys.is_empty());
    assert_eq!(files[0].total.total_tokens, 0);
    assert_eq!(files[0].started_at, None);
}
