use cache_tracker::flatten::PendingBlock;
use cache_tracker::json::Json;
use cache_tracker::profile::compute_ttl_breakdown;
use cache_tracker::request::{Message, MessagesRequest, SystemMessage, Tool};
use cache_tracker::time::Duration;
use cache_tracker::{CacheProfile, CacheTracker};
use sha2::{Digest, Sha256};

const FIVE_MINUTES: Duration = Duration { secs: 300, nanos: 0 };
const ONE_HOUR: Duration = Duration { secs: 3600, nanos: 0 };

fn text(s: &str) -> Json {
    Json::String(s.to_string())
}

fn object(members: Vec<(&str, Json)>) -> Json {
    Json::Object(members.into_iter().map(|(key, value)| (key.to_string(), value)).collect())
}

fn digest(data: &[u8]) -> [u8; 32] {
    Sha256::digest(data).into()
}

fn user(content: &str, tokens: u64) -> Message {
    Message::new("user".to_string(), text(content), vec![tokens]).unwrap()
}

fn request(messages: Vec<Message>) -> MessagesRequest {
    MessagesRequest {
        model: "m".to_string(),
        messages,
        system: None,
        tools: None,
        tool_choice: None,
    }
}

fn pending(tokens: i32, ttl: Option<Duration>, message_end: bool) -> PendingBlock {
    PendingBlock {
        value: Json::Null,
        tokens,
        breakpoint_ttl: ttl,
        ttl_is_fallback: false,
        message_index: if message_end { Some(0) } else { None },
        is_message_end: message_end,
    }
}

fn profile(blocks: Vec<PendingBlock>, total: i32) -> CacheProfile {
    CacheProfile::from_blocks(vec![], &blocks, ONE_HOUR, total)
}

#[test]
fn fingerprints_are_a_chain_of_digests() {
    let tracker = CacheTracker::new(ONE_HOUR);
    let mut payload = request(vec![user("hi", 1), user("yo", 1)]);
    payload.tool_choice = Some(object(vec![("type", text("auto"))]));
    let profile = tracker.build_profile(&payload, 10);

    let prelude = b"{\"model\":\"m\",\"tool_choice\":{\"type\":\"auto\"}}";
    let first = b"{\"block\":{\"text\":\"hi\",\"type\":\"text\"},\"block_index\":0,\"kind\":\"message\",\"message_index\":0,\"role\":\"user\",\"shape\":\"string\"}";
    let second = b"{\"block\":{\"text\":\"yo\",\"type\":\"text\"},\"block_index\":0,\"kind\":\"message\",\"message_index\":1,\"role\":\"user\",\"shape\":\"string\"}";
    let mut input = (prelude.len() as u64).to_be_bytes().to_vec();
    input.extend_from_slice(prelude);
    input.extend_from_slice(&digest(first));
    let fingerprint = digest(&input);
    assert_eq!(profile.fingerprint_at(0), fingerprint);
    let mut input = fingerprint.to_vec();
    input.extend_from_slice(&digest(second));
    assert_eq!(profile.fingerprint_at(1), digest(&input));
}

#[test]
fn a_missing_tool_choice_is_null_in_the_fingerprint() {
    let tracker = CacheTracker::new(ONE_HOUR);
    let absent = tracker.build_profile(&request(vec![user("hi", 1)]), 1);
    let mut payload = request(vec![user("hi", 1)]);
    payload.tool_choice = Some(Json::Null);
    let null = tracker.build_profile(&payload, 1);
    assert_eq!(absent.fingerprint_at(0), null.fingerprint_at(0));
}

#[test]
fn model_and_tool_choice_change_every_fingerprint() {
    let tracker = CacheTracker::new(ONE_HOUR);
    let plain = tracker.build_profile(&request(vec![user("hi", 1), user("yo", 1)]), 1);
    let mut payload = request(vec![user("hi", 1), user("yo", 1)]);
    payload.model = "n".to_string();
    let other_model = tracker.build_profile(&payload, 1);
    let mut payload = request(vec![user("hi", 1), user("yo", 1)]);
    payload.tool_choice = Some(text("any"));
    let other_choice = tracker.build_profile(&payload, 1);
    for i in 0..2 {
        assert_ne!(plain.fingerprint_at(i), other_model.fingerprint_at(i));
        assert_ne!(plain.fingerprint_at(i), other_choice.fingerprint_at(i));
    }
}

#[test]
fn a_changed_block_changes_all_later_fingerprints() {
    let tracker = CacheTracker::new(ONE_HOUR);
    let a = tracker.build_profile(&request(vec![user("1", 1), user("2", 1), user("3", 1)]), 1);
    let b = tracker.build_profile(&request(vec![user("1", 1), user("x", 1), user("3", 1)]), 1);
    assert_eq!(a.fingerprint_at(0), b.fingerprint_at(0));
    assert_ne!(a.fingerprint_at(1), b.fingerprint_at(1));
    assert_ne!(a.fingerprint_at(2), b.fingerprint_at(2));
}

#[test]
fn markers_key_order_counts_and_headers_leave_fingerprints_alone() {
    let tracker = CacheTracker::new(ONE_HOUR);
    let mut a = request(vec![user("hi", 1)]);
    a.tools = Some(vec![Tool {
        definition: object(vec![("name", text("t")), ("description", text("d"))]),
        tokens: 1,
    }]);
    a.system = Some(vec![SystemMessage {
        block: object(vec![("text", text("x-anthropic-billing-header: one"))]),
        tokens: 1,
    }]);
    let mut b = request(vec![user("hi", 7)]);
    b.tools = Some(vec![Tool {
        definition: object(vec![
            ("cache_control", object(vec![("type", text("ephemeral")), ("ttl", text("1h"))])),
            ("description", text("d")),
            ("name", text("t")),
        ]),
        tokens: 8,
    }]);
    b.system = Some(vec![SystemMessage {
        block: object(vec![("text", text("x-anthropic-billing-header: another"))]),
        tokens: 9,
    }]);
    let p = tracker.build_profile(&a, 3);
    let q = CacheTracker::new(FIVE_MINUTES).build_profile(&b, 30);
    for i in 0..3 {
        assert_eq!(p.fingerprint_at(i), q.fingerprint_at(i));
    }
}

#[test]
fn appended_messages_keep_the_earlier_breakpoints() {
    let tracker = CacheTracker::new(ONE_HOUR);
    let short = tracker.build_profile(&request(vec![user("1", 10), user("2", 20)]), 50);
    let long =
        tracker.build_profile(&request(vec![user("1", 10), user("2", 20), user("3", 30)]), 90);
    let before = short.cacheable_breakpoints();
    let after = long.cacheable_breakpoints();
    assert_eq!(before.iter().map(|b| b.cumulative_tokens).collect::<Vec<_>>(), [10, 50]);
    assert_eq!(after.iter().map(|b| b.cumulative_tokens).collect::<Vec<_>>(), [10, 30, 90]);
    for i in 0..2 {
        assert_eq!(before[i].block_index, after[i].block_index);
        assert_eq!(short.fingerprint_at(i), long.fingerprint_at(i));
    }
}

#[test]
fn the_ends_of_tools_system_and_messages_are_breakpoints() {
    let tracker = CacheTracker::new(ONE_HOUR);
    let mut payload = request(vec![user("hi", 1), user("yo", 1)]);
    payload.tools = Some(vec![
        Tool { definition: text("a"), tokens: 1 },
        Tool { definition: text("b"), tokens: 1 },
    ]);
    payload.system = Some(vec![
        SystemMessage { block: text("s"), tokens: 1 },
        SystemMessage { block: text("t"), tokens: 1 },
    ]);
    let profile = tracker.build_profile(&payload, 6);
    let places: Vec<usize> =
        profile.cacheable_breakpoints().iter().map(|b| b.block_index).collect();
    assert_eq!(places, [1, 3, 4, 5]);
    assert_eq!(profile.last_cacheable_breakpoint().unwrap().block_index, 5);
}

#[test]
fn a_request_without_blocks_has_no_breakpoint() {
    let tracker = CacheTracker::new(ONE_HOUR);
    let mut payload = request(vec![]);
    payload.tools = Some(vec![]);
    payload.system = Some(vec![]);
    let profile = tracker.build_profile(&payload, 12);
    assert!(profile.cacheable_breakpoints().is_empty());
    assert!(profile.last_cacheable_breakpoint().is_none());
    assert_eq!(profile.total_input_tokens(), 12);
    assert_eq!(compute_ttl_breakdown(&profile, 0), (0, 0));
    let result = tracker.compute(1, &profile);
    assert_eq!(result.cache_read_input_tokens, 0);
    assert_eq!(result.cache_creation_input_tokens, 0);
}

#[test]
fn the_last_breakpoint_covers_the_total() {
    let raised = profile(vec![pending(10, Some(FIVE_MINUTES), true), pending(5, None, false)], 40);
    assert_eq!(raised.last_cacheable_breakpoint().unwrap().cumulative_tokens, 40);
    let natural = profile(vec![pending(10, Some(FIVE_MINUTES), true)], 4);
    assert_eq!(natural.last_cacheable_breakpoint().unwrap().cumulative_tokens, 10);
    assert_eq!(natural.total_input_tokens(), 4);
    let negative = profile(vec![pending(10, Some(FIVE_MINUTES), true)], -3);
    assert_eq!(negative.total_input_tokens(), 0);
}

#[test]
fn token_counts_are_added_up_within_bounds() {
    let high = profile(
        vec![
            pending(i32::MAX, Some(FIVE_MINUTES), false),
            pending(1, Some(FIVE_MINUTES), false),
            pending(-2, Some(FIVE_MINUTES), false),
        ],
        0,
    );
    let counts: Vec<i32> =
        high.cacheable_breakpoints().iter().map(|b| b.cumulative_tokens).collect();
    assert_eq!(counts, [i32::MAX, i32::MAX, i32::MAX - 2]);
    let low = profile(
        vec![
            pending(i32::MIN, Some(FIVE_MINUTES), false),
            pending(-1, Some(FIVE_MINUTES), false),
            pending(0, Some(FIVE_MINUTES), false),
        ],
        0,
    );
    let counts: Vec<i32> =
        low.cacheable_breakpoints().iter().map(|b| b.cumulative_tokens).collect();
    assert_eq!(counts, [i32::MIN, i32::MIN, 0]);
}

#[test]
fn message_ends_inherit_the_lifetime_asked_for_last() {
    let profile = profile(
        vec![
            pending(1, None, true),
            pending(1, Some(FIVE_MINUTES), false),
            pending(1, Some(ONE_HOUR), false),
            pending(1, None, false),
            pending(1, None, true),
        ],
        0,
    );
    let breakpoints: Vec<(usize, Duration)> =
        profile.cacheable_breakpoints().iter().map(|b| (b.block_index, b.ttl)).collect();
    assert_eq!(breakpoints, [(1, FIVE_MINUTES), (2, ONE_HOUR), (4, ONE_HOUR)]);
}

fn marked_hour(label: &str) -> Json {
    Json::Array(vec![object(vec![
        ("type", text("text")),
        ("text", text(label)),
        ("cache_control", object(vec![("type", text("ephemeral")), ("ttl", text("1h"))])),
    ])])
}

fn lifetimes(profile: &CacheProfile) -> Vec<(usize, Duration)> {
    profile.cacheable_breakpoints().iter().map(|b| (b.block_index, b.ttl)).collect()
}

#[test]
fn texts_after_an_hour_keep_the_hour() {
    let mut payload = request(vec![
        Message::new("user".to_string(), marked_hour("long"), vec![1]).unwrap(),
        Message::new("assistant".to_string(), text("R1"), vec![1]).unwrap(),
        user("R2", 1),
    ]);
    payload.tools = Some(vec![Tool { definition: object(vec![("name", text("echo"))]), tokens: 1 }]);
    payload.system =
        Some(vec![SystemMessage { block: object(vec![("text", text("system"))]), tokens: 1 }]);
    let profile = CacheTracker::new(ONE_HOUR).build_profile(&payload, 9);
    assert_eq!(
        lifetimes(&profile),
        [(0, FIVE_MINUTES), (1, FIVE_MINUTES), (2, ONE_HOUR), (3, ONE_HOUR), (4, ONE_HOUR)]
    );
    assert_eq!(compute_ttl_breakdown(&profile, 0), (0, 9));
    let ten_minutes = Duration::from_secs(600);
    let capped = CacheTracker::new(ten_minutes).build_profile(&payload, 9);
    assert_eq!(lifetimes(&capped)[3..], [(3, ten_minutes), (4, ten_minutes)]);
}

#[test]
fn a_marker_ends_what_was_inherited() {
    let short = Json::Array(vec![object(vec![
        ("text", text("s")),
        ("cache_control", object(vec![("type", text("ephemeral"))])),
    ])]);
    let payload = request(vec![
        user("before", 1),
        Message::new("user".to_string(), marked_hour("long"), vec![1]).unwrap(),
        user("hour", 1),
        Message::new("user".to_string(), short, vec![1]).unwrap(),
        user("minutes", 1),
    ]);
    let profile = CacheTracker::new(ONE_HOUR).build_profile(&payload, 9);
    assert_eq!(
        lifetimes(&profile),
        [(0, FIVE_MINUTES), (1, ONE_HOUR), (2, ONE_HOUR), (3, FIVE_MINUTES), (4, FIVE_MINUTES)]
    );
}

#[test]
fn an_hour_in_the_middle_of_a_message_holds_at_its_end() {
    let Json::Array(mut items) = marked_hour("a") else { panic!() };
    items.push(text("b"));
    let payload =
        request(vec![Message::new("user".to_string(), Json::Array(items), vec![1, 1]).unwrap()]);
    let profile = CacheTracker::new(ONE_HOUR).build_profile(&payload, 9);
    assert_eq!(lifetimes(&profile), [(0, ONE_HOUR), (1, ONE_HOUR)]);
}

#[test]
fn the_end_of_the_system_prompt_resets_the_lifetime() {
    let mut payload = request(vec![user("hi", 1)]);
    payload.tools = Some(vec![Tool {
        definition: object(vec![(
            "cache_control",
            object(vec![("type", text("ephemeral")), ("ttl", text("1h"))]),
        )]),
        tokens: 1,
    }]);
    let tracker = CacheTracker::new(ONE_HOUR);
    assert_eq!(lifetimes(&tracker.build_profile(&payload, 9)), [(0, ONE_HOUR), (1, ONE_HOUR)]);
    payload.system = Some(vec![SystemMessage { block: text("s"), tokens: 1 }]);
    assert_eq!(
        lifetimes(&tracker.build_profile(&payload, 9)),
        [(0, ONE_HOUR), (1, FIVE_MINUTES), (2, FIVE_MINUTES)]
    );
}

#[test]
fn a_fallback_counts_only_where_nothing_was_asked_for() {
    let mut first = pending(1, Some(FIVE_MINUTES), true);
    first.ttl_is_fallback = true;
    let mut last = pending(1, Some(FIVE_MINUTES), true);
    last.ttl_is_fallback = true;
    let profile = profile(vec![first, pending(1, Some(ONE_HOUR), false), last], 0);
    assert_eq!(lifetimes(&profile), [(0, FIVE_MINUTES), (1, ONE_HOUR), (2, ONE_HOUR)]);
}

#[test]
fn a_change_of_shape_breaks_the_chain() {
    let tracker = CacheTracker::new(ONE_HOUR);
    let array = Json::Array(vec![object(vec![("type", text("text")), ("text", text("T"))])]);
    let array = Message::new("user".to_string(), array, vec![1]).unwrap();
    let first = tracker.build_profile(&request(vec![user("0", 1), array, user("2", 1)]), 1);
    let second =
        tracker.build_profile(&request(vec![user("0", 1), user("T", 1), user("2", 1)]), 1);
    assert_eq!(first.fingerprint_at(0), second.fingerprint_at(0));
    assert_ne!(first.fingerprint_at(1), second.fingerprint_at(1));
    assert_ne!(first.fingerprint_at(2), second.fingerprint_at(2));
}

#[test]
fn equal_blocks_at_different_places_have_different_fingerprints() {
    let tracker = CacheTracker::new(ONE_HOUR);
    let twins = tracker.build_profile(&request(vec![user("same", 1), user("same", 1)]), 1);
    assert_ne!(twins.fingerprint_at(0), twins.fingerprint_at(1));
    let other = tracker.build_profile(&request(vec![user("else", 1), user("same", 1)]), 1);
    assert_ne!(twins.fingerprint_at(0), other.fingerprint_at(1));
}

#[test]
fn a_message_end_without_a_message_is_no_breakpoint() {
    let mut end = pending(1, None, true);
    end.message_index = None;
    let profile = profile(vec![pending(1, Some(ONE_HOUR), false), end], 0);
    assert_eq!(profile.cacheable_breakpoints().len(), 1);
}

#[test]
fn lifetimes_are_cut_to_the_longest_supported() {
    let blocks = vec![pending(1, Some(ONE_HOUR), false), pending(1, Some(FIVE_MINUTES), true)];
    let ten_minutes = Duration::from_secs(600);
    let profile = CacheProfile::from_blocks(vec![], &blocks, ten_minutes, 0);
    let ttls: Vec<Duration> = profile.cacheable_breakpoints().iter().map(|b| b.ttl).collect();
    assert_eq!(ttls, [ten_minutes, FIVE_MINUTES]);
}

#[test]
fn new_tokens_go_to_the_lifetime_of_the_last_breakpoint() {
    let hour = profile(
        vec![pending(10, Some(FIVE_MINUTES), true), pending(20, Some(ONE_HOUR), true)],
        100,
    );
    assert_eq!(compute_ttl_breakdown(&hour, 10), (0, 90));
    assert_eq!(compute_ttl_breakdown(&hour, 100), (0, 0));
    assert_eq!(compute_ttl_breakdown(&hour, 200), (0, 0));
    let minutes = profile(
        vec![pending(10, Some(ONE_HOUR), true), pending(20, Some(FIVE_MINUTES), true)],
        100,
    );
    assert_eq!(compute_ttl_breakdown(&minutes, 10), (90, 0));
    let odd = profile(vec![pending(10, Some(Duration::from_secs(7)), true)], 100);
    assert_eq!(compute_ttl_breakdown(&odd, 0), (100, 0));
    assert_eq!(compute_ttl_breakdown(&minutes, -1), (101, 0));
    let full = profile(vec![pending(10, Some(FIVE_MINUTES), true)], i32::MAX);
    assert_eq!(compute_ttl_breakdown(&full, i32::MIN), (i32::MAX, 0));
}

#[test]
fn a_cloned_profile_is_the_same() {
    let first = profile(vec![pending(10, Some(ONE_HOUR), true), pending(1, None, false)], 5);
    let copy = first.clone();
    assert_eq!(copy.total_input_tokens(), first.total_input_tokens());
    assert_eq!(copy.fingerprint_at(0), first.fingerprint_at(0));
    assert_eq!(copy.fingerprint_at(1), first.fingerprint_at(1));
    assert_eq!(format!("{copy:?}"), format!("{first:?}"));
}

#[test]
fn the_seed_stands_in_front_of_the_first_block() {
    let blocks = vec![pending(1, Some(ONE_HOUR), true)];
    let profile = CacheProfile::from_blocks(vec![1, 2, 3], &blocks, ONE_HOUR, 0);
    let mut input = vec![1, 2, 3];
    input.extend_from_slice(&digest(b"null"));
    assert_eq!(profile.fingerprint_at(0), digest(&input));
}
