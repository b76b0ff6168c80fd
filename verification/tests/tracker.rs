use cache_tracker::json::Json;
use cache_tracker::request::{Message, MessagesRequest};
use cache_tracker::time::Duration;
use cache_tracker::{CacheProfile, CacheTracker};

fn build(tracker: &CacheTracker, texts: &[&str], total: i32) -> CacheProfile {
    let messages = texts
        .iter()
        .map(|text| {
            Message::new("user".to_string(), Json::String(text.to_string()), vec![10]).unwrap()
        })
        .collect();
    let request = MessagesRequest {
        model: "m".to_string(),
        messages,
        system: None,
        tools: None,
        tool_choice: None,
    };
    tracker.build_profile(&request, total)
}

#[test]
fn what_is_recorded_is_read_until_more_comes() {
    let tracker = CacheTracker::new(Duration::from_secs(3600));
    let first = build(&tracker, &["a"], 15);
    let result = tracker.compute(9, &first);
    assert_eq!(result.cache_read_input_tokens, 0);
    assert_eq!(result.cache_creation_input_tokens, 15);
    assert_eq!(result.cache_creation_5m_input_tokens, 15);
    assert_eq!(result.cache_creation_1h_input_tokens, 0);
    tracker.update(9, &first);
    let result = tracker.compute(9, &first);
    assert_eq!(result.cache_read_input_tokens, 15);
    assert_eq!(result.cache_creation_input_tokens, 0);
    let second = build(&tracker, &["a", "b"], 33);
    let result = tracker.compute(9, &second);
    assert_eq!(result.cache_read_input_tokens, 10);
    assert_eq!(result.cache_creation_input_tokens, 23);
}

#[test]
fn computing_records_nothing() {
    let tracker = CacheTracker::new(Duration::from_secs(3600));
    let profile = build(&tracker, &["a"], 15);
    tracker.compute(1, &profile);
    assert_eq!(tracker.compute(1, &profile).cache_read_input_tokens, 0);
}

#[test]
fn credentials_are_kept_apart() {
    let tracker = CacheTracker::new(Duration::from_secs(3600));
    let profile = build(&tracker, &["a"], 15);
    tracker.update(1, &profile);
    assert_eq!(tracker.compute(2, &profile).cache_read_input_tokens, 0);
    assert_eq!(tracker.compute(1, &profile).cache_read_input_tokens, 15);
}

#[test]
fn trackers_do_not_share_entries() {
    let tracker = CacheTracker::new(Duration::from_secs(3600));
    let other = CacheTracker::new(Duration::from_secs(3600));
    let profile = build(&tracker, &["a"], 15);
    tracker.update(1, &profile);
    assert_eq!(other.compute(1, &profile).cache_read_input_tokens, 0);
}

#[test]
fn a_tracker_without_lifetimes_keeps_nothing() {
    let tracker = CacheTracker::new(Duration::from_secs(0));
    let profile = build(&tracker, &["a"], 15);
    tracker.update(1, &profile);
    assert_eq!(tracker.compute(1, &profile).cache_read_input_tokens, 0);
}

#[test]
fn ten_turns_back_is_too_far() {
    let tracker = CacheTracker::new(Duration::from_secs(3600));
    tracker.update(1, &build(&tracker, &["0"], 10));
    let nine_more = build(&tracker, &["0", "1", "2", "3", "4", "5", "6", "7", "8", "9"], 100);
    assert_eq!(tracker.compute(1, &nine_more).cache_read_input_tokens, 10);
    let ten_more = build(&tracker, &["0", "1", "2", "3", "4", "5", "6", "7", "8", "9", "10"], 110);
    assert_eq!(tracker.compute(1, &ten_more).cache_read_input_tokens, 0);
}

#[test]
fn a_growing_conversation_reads_the_turn_before() {
    let tracker = CacheTracker::new(Duration::from_secs(3600));
    tracker.update(1, &build(&tracker, &["0", "1"], 25));
    let second = build(&tracker, &["0", "1", "2"], 40);
    let result = tracker.compute(1, &second);
    assert_eq!(result.cache_read_input_tokens, 20);
    assert_eq!(result.cache_creation_input_tokens, 20);
    tracker.update(1, &second);
    let third = build(&tracker, &["0", "1", "2", "3", "4"], 65);
    let result = tracker.compute(1, &third);
    assert_eq!(result.cache_read_input_tokens, 30);
    assert_eq!(result.cache_creation_input_tokens, 35);
}

#[test]
fn a_change_at_the_start_leaves_nothing_to_read() {
    let tracker = CacheTracker::new(Duration::from_secs(3600));
    tracker.update(1, &build(&tracker, &["0", "1"], 20));
    let result = tracker.compute(1, &build(&tracker, &["x", "1"], 20));
    assert_eq!(result.cache_read_input_tokens, 0);
    assert_eq!(result.cache_creation_input_tokens, 20);
    let result = tracker.compute(1, &build(&tracker, &["0", "x"], 20));
    assert_eq!(result.cache_read_input_tokens, 10);
}

#[test]
fn a_message_of_another_shape_is_not_read() {
    let tracker = CacheTracker::new(Duration::from_secs(3600));
    let block = Json::Object(vec![
        ("type".to_string(), Json::String("text".to_string())),
        ("text".to_string(), Json::String("b".to_string())),
    ]);
    let request = MessagesRequest {
        model: "m".to_string(),
        messages: vec![
            Message::new("user".to_string(), Json::String("a".to_string()), vec![10]).unwrap(),
            Message::new("user".to_string(), Json::Array(vec![block]), vec![10]).unwrap(),
        ],
        system: None,
        tools: None,
        tool_choice: None,
    };
    let array = tracker.build_profile(&request, 20);
    tracker.update(1, &array);
    assert_eq!(tracker.compute(1, &array).cache_read_input_tokens, 20);
    let result = tracker.compute(1, &build(&tracker, &["a", "b"], 20));
    assert_eq!(result.cache_read_input_tokens, 10);
    assert_eq!(result.cache_creation_input_tokens, 10);
}
