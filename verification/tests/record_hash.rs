use codextool::record_hash::{fast_record_hash, StableFnvHasher};

#[test]
fn fork_record_hash_ignores_replayed_response_defaults_and_ids() {
    let parent = r#"{"timestamp":"2026-07-09T20:58:47Z","type":"response_item","payload":{"type":"reasoning","id":"parent-id","encrypted_content":"cipher","summary":[]}}"#;
    let child = r#"{"timestamp":"2026-07-24T22:04:45Z","type":"response_item","payload":{"type":"reasoning","id":"child-id","content":null,"encrypted_content":"cipher","summary":[]}}"#;

    assert_eq!(fast_record_hash(parent), fast_record_hash(child));
}

#[test]
fn stable_fnv_matches_published_vectors() {
    let empty = StableFnvHasher::new();
    assert_eq!(empty.finish(), 0xcbf29ce484222325);
    let mut a = StableFnvHasher::new();
    a.write(b"a");
    assert_eq!(a.finish(), 0xaf63dc4c8601ec8c);
    let mut foobar = StableFnvHasher::new();
    foobar.write(b"foobar");
    assert_eq!(foobar.finish(), 0x85944171f73967e8);
}

#[test]
fn record_hash_changes_with_record_content() {
    let one = r#"{"timestamp":"2026-07-09T20:58:47Z","type":"event_msg","payload":{"text":"one"}}"#;
    let two = r#"{"timestamp":"2026-07-09T20:58:47Z","type":"event_msg","payload":{"text":"two"}}"#;
    assert_ne!(fast_record_hash(one), fast_record_hash(two));
}

#[test]
fn record_hash_ignores_timestamp_and_trailing_whitespace() {
    let first = r#"{"timestamp":"2026-07-09T20:58:47Z","type":"event_msg","payload":{"text":"one"}}"#;
    let later = "{\"timestamp\":\"2026-08-01T00:00:00Z\",\"type\":\"event_msg\",\"payload\":{\"text\":\"one\"}}  \n";
    assert_eq!(fast_record_hash(first), fast_record_hash(later));
}

#[test]
fn record_hash_drops_default_valued_fields() {
    let plain = r#"{"type":"turn_context","payload":{"model":"gpt"}}"#;
    let defaulted = r#"{"type":"turn_context","payload":{"parent_thread_id":null,"history_mode":"legacy","model":"gpt"}}"#;
    assert_eq!(fast_record_hash(plain), fast_record_hash(defaulted));
}

#[test]
fn record_hash_of_empty_line_is_the_length_prefix_alone() {
    let mut expected = StableFnvHasher::new();
    expected.write(&[0, 0, 0, 0, 0, 0, 0, 0]);
    assert_eq!(fast_record_hash(""), expected.finish());
}
