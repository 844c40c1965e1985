use codextool::session_log::parse_session_metadata_line;
use codextool::token_usage::ParsedTokenSessionFile;

const HEADER: &str = "{\"type\":\"session_meta\",\"payload\":{\"id\":\"abc\",\"forked_from_id\":\"parent-1\",\"parent_thread_id\":\"thread-9\"}}\n";
const EVENT: &str = "{\"timestamp\":\"2026-04-28T06:37:43.263Z\",\"type\":\"event_msg\",\"payload\":{\"type\":\"token_count\",\"info\":{\"total_token_usage\":{\"input_tokens\":10,\"cached_input_tokens\":0,\"output_tokens\":5,\"reasoning_output_tokens\":0,\"total_tokens\":15}}}}\n";

#[test]
fn reads_session_metadata_fields() {
    let meta = parse_session_metadata_line(HEADER).expect("session meta");
    assert_eq!(meta.payload_id.as_deref(), Some("abc"));
    assert_eq!(meta.payload_session_id, None);
    assert_eq!(meta.forked_from_id.as_deref(), Some("parent-1"));
    assert_eq!(meta.parent_thread_id.as_deref(), Some("thread-9"));
    assert!(parse_session_metadata_line(EVENT).is_none());
    assert!(parse_session_metadata_line("{\"type\":\"turn_context\",\"note\":\"session_meta\"}").is_none());
}

#[test]
fn header_names_the_session_and_events_keep_their_record_index() {
    let mut log = ParsedTokenSessionFile::new("fallback".to_string(), Some("abc".to_string()));
    log.read_line(HEADER);
    log.read_line("   \n");
    log.read_line(EVENT);
    assert_eq!(log.session_id, "abc");
    assert!(log.identity_trusted);
    assert_eq!(log.parent_session_id.as_deref(), Some("parent-1"));
    assert_eq!(log.parent_thread_id.as_deref(), Some("thread-9"));
    assert_eq!(log.record_hashes.len(), 2);
    assert_eq!(log.events.len(), 1);
    assert_eq!(log.events[0].record_index, 1);
    assert_eq!(log.events[0].total.expect("total").total_tokens, 15);
}

#[test]
fn mismatched_file_name_leaves_the_identity_untrusted() {
    let mut log = ParsedTokenSessionFile::new("fallback".to_string(), Some("other".to_string()));
    log.read_line(HEADER);
    assert_eq!(log.session_id, "abc");
    assert!(!log.identity_trusted);
}

#[test]
fn later_session_meta_is_copied_history_not_a_header() {
    let mut log = ParsedTokenSessionFile::new("fallback".to_string(), None);
    log.read_line(EVENT);
    log.read_line(HEADER);
    assert_eq!(log.session_id, "fallback");
    assert!(!log.identity_trusted);
    assert_eq!(log.events.len(), 1);
    assert_eq!(log.events[0].record_index, 0);
    assert_eq!(log.record_hashes.len(), 2);
}

#[test]
fn resumed_reading_matches_reading_whole() {
    let mut whole = ParsedTokenSessionFile::new("fallback".to_string(), Some("abc".to_string()));
    for line in [HEADER, EVENT, EVENT] {
        whole.read_line(line);
    }
    let mut cached = ParsedTokenSessionFile::new("fallback".to_string(), Some("abc".to_string()));
    cached.read_line(HEADER);
    let mut resumed = cached.clone();
    resumed.read_line(EVENT);
    resumed.read_line(EVENT);
    assert_eq!(resumed.session_id, whole.session_id);
    assert_eq!(resumed.record_hashes, whole.record_hashes);
    assert_eq!(resumed.events, whole.events);
}
