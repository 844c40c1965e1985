use codextool::token_usage::{
    token_event_from_fields, usage_totals_from_counters,
    build_codex_token_usage_snapshot, CodexTokenTotals, ParsedTokenEvent, ParsedTokenSessionFile,
    matching_record_prefix, parse_token_event_line, pricing_tier_for_model, PricingTier,
    FORK_MATCH_RESYNC_WINDOW,
};

#[test]
fn fork_record_matching_resynchronizes_after_insertions_and_omissions() {
    let parent = vec![1, 2, 3, 4, 5, 6, 7, 8, 9, 10];
    let child_with_insertion = vec![1, 2, 99, 3, 4, 5, 6, 7, 8, 200, 201];
    let child_with_omission = vec![1, 2, 4, 5, 6, 7, 8, 200, 201];

    assert_eq!(
        matching_record_prefix(&child_with_insertion, &parent, FORK_MATCH_RESYNC_WINDOW),
        9
    );
    assert_eq!(
        matching_record_prefix(&child_with_omission, &parent, FORK_MATCH_RESYNC_WINDOW),
        7
    );
}

#[test]
fn fork_record_matching_stops_without_a_confirming_branch_anchor() {
    let parent = vec![1, 2, 3, 4, 5, 6, 7, 8];
    let child = vec![1, 2, 3, 90, 5, 91, 92, 93];

    assert_eq!(
        matching_record_prefix(&child, &parent, FORK_MATCH_RESYNC_WINDOW),
        3
    );
}

#[test]
fn identical_streams_match_completely() {
    let records = vec![5, 6, 7, 8, 9];
    assert_eq!(matching_record_prefix(&records, &records, FORK_MATCH_RESYNC_WINDOW), 5);
}

fn event_line(timestamp: &str, total: u64, last: u64) -> String {
    format!(
        "{{\"payload\":{{\"info\":{{\"last_token_usage\":{{\"cached_input_tokens\":1,\"input_tokens\":{last},\"output_tokens\":2,\"reasoning_output_tokens\":1,\"total_tokens\":{last}}},\"total_token_usage\":{{\"cached_input_tokens\":10,\"input_tokens\":{total},\"output_tokens\":20,\"reasoning_output_tokens\":5,\"total_tokens\":{total}}}}},\"type\":\"token_count\"}},\"timestamp\":\"{timestamp}\",\"type\":\"event_msg\"}}"
    )
}

#[test]
fn parses_codex_token_event_lines() {
    let event =
        parse_token_event_line(&event_line("2026-04-28T06:37:43.263Z", 40902952, 206498))
            .expect("token event");

    assert_eq!(event.timestamp, 1_777_358_263);
    assert_eq!(event.last.expect("last usage").total_tokens, 206_498);
    assert_eq!(event.total.expect("total usage").input_tokens, 40_902_952);
}

#[test]
fn gpt_5_6_variants_map_to_their_pricing_tiers() {
    for (model, tier) in [
        ("gpt-5.6-sol", PricingTier::Gpt56Sol),
        ("gpt-5.6-terra", PricingTier::Gpt56Terra),
        ("gpt-5.6-luna", PricingTier::Gpt56Luna),
        ("gpt-5.6", PricingTier::Gpt56Sol),
        ("gpt5.6-terra", PricingTier::Gpt56Terra),
        ("gpt-5-6-luna", PricingTier::Gpt56Luna),
        ("gpt-5.6-sol-2026-07-01", PricingTier::Gpt56Sol),
    ] {
        assert_eq!(pricing_tier_for_model(model), tier, "tier for {model}");
    }
}

#[test]
fn older_models_map_to_their_pricing_tiers() {
    assert_eq!(pricing_tier_for_model("GPT-5.5-Pro"), PricingTier::Gpt55Pro);
    assert_eq!(pricing_tier_for_model("gpt-5.5"), PricingTier::Gpt55);
    assert_eq!(pricing_tier_for_model("gpt-5.4-mini"), PricingTier::Gpt54Mini);
    assert_eq!(pricing_tier_for_model("gpt-5.4-nano"), PricingTier::Gpt54Nano);
    assert_eq!(pricing_tier_for_model("gpt-5.4-pro"), PricingTier::Gpt54Pro);
    assert_eq!(pricing_tier_for_model("gpt-5.4"), PricingTier::Gpt54);
    assert_eq!(pricing_tier_for_model("openai/codex-mini-latest"), PricingTier::CodexMini);
    assert_eq!(pricing_tier_for_model("gpt-5-mini"), PricingTier::CodexMini);
    assert_eq!(pricing_tier_for_model("gpt-5-nano"), PricingTier::Gpt5Nano);
    assert_eq!(pricing_tier_for_model("o4-mini"), PricingTier::O4Mini);
    assert_eq!(pricing_tier_for_model("o3"), PricingTier::O3);
    assert_eq!(pricing_tier_for_model("gpt-5"), PricingTier::Standard);
    assert_eq!(pricing_tier_for_model("gpt-5.6-nova"), PricingTier::Standard);
}

fn cumulative(total: u64) -> CodexTokenTotals {
    CodexTokenTotals {
        input_tokens: total,
        cached_input_tokens: 0,
        output_tokens: 0,
        reasoning_output_tokens: 0,
        total_tokens: total,
    }
}

#[test]
fn snapshot_windows_nest_and_carry_the_counts() {
    let now: i64 = 40 * 86_400;
    let mut file = ParsedTokenSessionFile::new("s1".to_string(), None);
    file.identity_trusted = true;
    file.header_checked = true;
    file.record_hashes = vec![11, 12];
    file.events = vec![
        ParsedTokenEvent { record_index: 0, timestamp: now - 5 * 86_400, last: None, total: Some(cumulative(10)) },
        ParsedTokenEvent { record_index: 1, timestamp: now - 100, last: None, total: Some(cumulative(30)) },
    ];
    let untrusted = ParsedTokenSessionFile::new("s2".to_string(), None);
    let snapshot = build_codex_token_usage_snapshot(&[file, untrusted], now, 3, 1);
    assert_eq!(snapshot.updated_at, now);
    assert_eq!(snapshot.source_path_count, 3);
    assert_eq!(snapshot.failed_path_count, 1);
    assert_eq!(snapshot.unresolved_fork_count, 1);
    assert_eq!(snapshot.event_count, 2);
    assert_eq!(snapshot.last_24h.total_tokens, 20);
    assert_eq!(snapshot.last_3d.total_tokens, 20);
    assert_eq!(snapshot.last_7d.total_tokens, 30);
    assert_eq!(snapshot.last_30d.total_tokens, 30);
}

#[test]
fn token_events_follow_the_fields_read() {
    assert_eq!(usage_totals_from_counters(false, Some(1), None, Some(2), None, None), None);
    let totals = usage_totals_from_counters(true, Some(7), None, Some(5), Some(1), None).unwrap();
    assert_eq!(totals.input_tokens, 7);
    assert_eq!(totals.cached_input_tokens, 0);
    assert_eq!(totals.output_tokens, 5);
    assert_eq!(totals.reasoning_output_tokens, 1);
    assert_eq!(totals.total_tokens, 12);
    let saturated = usage_totals_from_counters(true, Some(u64::MAX), None, Some(5), None, None).unwrap();
    assert_eq!(saturated.total_tokens, u64::MAX);
    let explicit = usage_totals_from_counters(true, Some(7), None, Some(5), None, Some(40)).unwrap();
    assert_eq!(explicit.total_tokens, 40);

    let kind = || Some("event_msg".to_string());
    let payload = || Some("token_count".to_string());
    let event = token_event_from_fields(true, Some(99), kind(), payload(), Some(totals), None, 4).unwrap();
    assert_eq!(event.record_index, 4);
    assert_eq!(event.timestamp, 99);
    assert!(event.total.is_none());
    assert!(token_event_from_fields(false, Some(99), kind(), payload(), Some(totals), None, 4).is_none());
    assert!(token_event_from_fields(true, None, kind(), payload(), Some(totals), None, 4).is_none());
    assert!(token_event_from_fields(true, Some(99), Some("response_item".to_string()), payload(), Some(totals), None, 4).is_none());
    assert!(token_event_from_fields(true, Some(99), kind(), payload(), None, None, 4).is_none());
}
