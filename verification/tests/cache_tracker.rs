use cache_tracker::json::Json;
use cache_tracker::request::{content_blocks, Message, MessagesRequest, SystemMessage, Tool};
use cache_tracker::time::Duration;
use cache_tracker::CacheTracker;

fn text(s: &str) -> Json {
    Json::String(s.to_string())
}

fn object(members: Vec<(&str, Json)>) -> Json {
    Json::Object(members.into_iter().map(|(key, value)| (key.to_string(), value)).collect())
}

fn count_text(s: &str) -> u64 {
    (s.chars().count() as u64 + 3) / 4
}

fn count_value(value: &Json) -> u64 {
    match value {
        Json::String(s) => count_text(s),
        Json::Array(items) => items.iter().map(count_value).sum(),
        Json::Object(members) => members.iter().map(|(_, member)| count_value(member)).sum(),
        _ => 1,
    }
}

fn ephemeral() -> Json {
    object(vec![("type", text("ephemeral"))])
}

fn system_message(block_type: Option<&str>, content: &str, marked: bool) -> SystemMessage {
    let mut members = Vec::new();
    if let Some(block_type) = block_type {
        members.push(("type", text(block_type)));
    }
    members.push(("text", text(content)));
    if marked {
        members.push(("cache_control", ephemeral()));
    }
    SystemMessage { block: object(members), tokens: count_text(content) }
}

fn tool(name: &str, description: &str) -> Tool {
    let definition = object(vec![
        ("name", text(name)),
        ("description", text(description)),
        ("input_schema", object(vec![])),
    ]);
    let tokens = count_value(&definition);
    Tool { definition, tokens }
}

fn build_request(messages: Vec<Message>) -> MessagesRequest {
    MessagesRequest {
        model: "sonnet-4-6".to_string(),
        messages,
        system: Some(vec![system_message(None, "system", false)]),
        tools: Some(vec![tool("echo", "echo")]),
        tool_choice: None,
    }
}

fn build_request_with_system(
    messages: Vec<Message>,
    system: Vec<SystemMessage>,
) -> MessagesRequest {
    let mut request = build_request(messages);
    request.system = Some(system);
    request
}

fn msg(role: &str, content: Json) -> Message {
    let counts = content_blocks(&content).iter().map(count_value).collect();
    Message::new(role.to_string(), content, counts).unwrap()
}

fn cache_text(content: &str) -> Json {
    Json::Array(vec![object(vec![
        ("type", text("text")),
        ("text", text(content)),
        ("cache_control", ephemeral()),
    ])])
}

fn long_cacheable_text() -> String {
    vec!["cacheable prompt chunk"; 256].join(" ")
}

fn medium_turn_text(label: &str) -> String {
    format!("{} {}", label, vec!["conversation growth chunk"; 80].join(" "))
}

fn estimate_input_tokens(request: &MessagesRequest) -> i32 {
    let system: u64 =
        request.system.iter().flatten().map(|block| block.tokens + 2).sum();
    let tools: u64 = request.tools.iter().flatten().map(|tool| tool.tokens + 3).sum();
    let messages: u64 = request
        .messages
        .iter()
        .map(|message| message.block_tokens().iter().sum::<u64>() + 4)
        .sum();
    (system + tools + messages + count_text(&request.model)) as i32
}

#[test]
fn attribution_header_drift_does_not_break_cache_hit() {
    let tracker = CacheTracker::new(Duration::from_secs(3600));
    let system1 = vec![
        system_message(
            Some("text"),
            "x-anthropic-billing-header: cc_version=2.1.87.1; cc_entrypoint=cli; cch=aaaaa;",
            false,
        ),
        system_message(Some("text"), &long_cacheable_text(), true),
    ];
    let system2 = vec![
        system_message(
            Some("text"),
            "x-anthropic-billing-header: cc_version=2.1.87.222222222222222222; cc_entrypoint=cli; cch=bbbbb; extra_padding=xyzxyzxyzxyz;",
            false,
        ),
        system_message(Some("text"), &long_cacheable_text(), true),
    ];

    let req1 = build_request_with_system(vec![msg("user", text("hello"))], system1);
    let total1 = estimate_input_tokens(&req1);
    let profile1 = tracker.build_profile(&req1, total1);
    tracker.update(1, &profile1);

    let req2 = build_request_with_system(vec![msg("user", text("hello"))], system2);
    let total2 = estimate_input_tokens(&req2);
    let profile2 = tracker.build_profile(&req2, total2);
    let result = tracker.compute(1, &profile2);
    let expected_match = profile2
        .last_cacheable_breakpoint()
        .map(|bp| bp.cumulative_tokens.min(profile2.total_input_tokens()))
        .unwrap_or(0);

    assert!(total1 != total2);
    assert!(result.cache_read_input_tokens > 0);
    assert_eq!(result.cache_read_input_tokens, expected_match);
    assert_eq!(result.cache_creation_input_tokens, 0);
}

#[test]
fn normal_system_text_change_still_misses() {
    let tracker = CacheTracker::new(Duration::from_secs(3600));
    let system1 = vec![system_message(Some("text"), &long_cacheable_text(), true)];
    let system2 = vec![system_message(
        Some("text"),
        &format!("{} extra", long_cacheable_text()),
        true,
    )];

    let req1 = build_request_with_system(vec![msg("user", text("hello"))], system1);
    let total1 = estimate_input_tokens(&req1);
    let profile1 = tracker.build_profile(&req1, total1);
    tracker.update(1, &profile1);

    let req2 = build_request_with_system(vec![msg("user", text("hello"))], system2);
    let total2 = estimate_input_tokens(&req2);
    let profile2 = tracker.build_profile(&req2, total2);
    let result = tracker.compute(1, &profile2);

    // Only the tools are read: the system prompt and the message are written anew.
    let tools_breakpoint_tokens = profile2
        .cacheable_breakpoints()
        .first()
        .map(|bp| bp.cumulative_tokens)
        .unwrap_or(0);
    assert!(tools_breakpoint_tokens > 0);
    assert_eq!(result.cache_read_input_tokens, tools_breakpoint_tokens);
    assert!(result.cache_creation_input_tokens > 0);
}

#[test]
fn explicit_breakpoint_without_hit_creates_prefix_only() {
    let tracker = CacheTracker::new(Duration::from_secs(3600));
    let req = build_request(vec![msg("user", cache_text(&long_cacheable_text()))]);
    let total = estimate_input_tokens(&req);
    let profile = tracker.build_profile(&req, total);
    let result = tracker.compute(1, &profile);

    assert_eq!(result.cache_read_input_tokens, 0);
    assert_eq!(
        result.cache_creation_input_tokens,
        profile.last_cacheable_breakpoint().map(|bp| bp.cumulative_tokens).unwrap_or(0)
    );
}

#[test]
fn same_content_with_shape_drift_does_not_false_hit() {
    let tracker = CacheTracker::new(Duration::from_secs(3600));
    let req1 = build_request(vec![msg("user", cache_text(&long_cacheable_text()))]);
    let total1 = estimate_input_tokens(&req1);
    let profile1 = tracker.build_profile(&req1, total1);
    tracker.update(1, &profile1);

    let req2 = build_request(vec![
        msg("user", text(&long_cacheable_text())),
        msg("assistant", cache_text("ok")),
    ]);
    let total2 = estimate_input_tokens(&req2);
    let profile2 = tracker.build_profile(&req2, total2);
    let result = tracker.compute(1, &profile2);

    assert!(result.cache_read_input_tokens > 0);
    assert!(result.cache_read_input_tokens < profile2.total_input_tokens());
    assert!(result.cache_creation_input_tokens > 0);
}

#[test]
fn same_length_retry_with_same_breakpoint_is_hit() {
    let tracker = CacheTracker::new(Duration::from_secs(3600));
    let req1 = build_request(vec![msg("user", cache_text(&long_cacheable_text()))]);
    let total1 = estimate_input_tokens(&req1);
    let profile1 = tracker.build_profile(&req1, total1);
    tracker.update(1, &profile1);

    let req2 = build_request(vec![msg("user", cache_text(&long_cacheable_text()))]);
    let total2 = estimate_input_tokens(&req2);
    let profile2 = tracker.build_profile(&req2, total2);
    let result = tracker.compute(1, &profile2);

    assert_eq!(
        result.cache_read_input_tokens,
        profile1.last_cacheable_breakpoint().map(|bp| bp.cumulative_tokens).unwrap_or(0)
    );
    assert_eq!(result.cache_creation_input_tokens, 0);
}

#[test]
fn prefix_match_with_appended_turn_reads_previous_prefix_cache() {
    let tracker = CacheTracker::new(Duration::from_secs(3600));
    let req1 = build_request(vec![
        msg("user", cache_text(&long_cacheable_text())),
        msg("assistant", text("R1")),
        msg("user", text("Follow-up")),
        msg("assistant", text("R2")),
    ]);
    let total1 = estimate_input_tokens(&req1);
    let profile1 = tracker.build_profile(&req1, total1);
    tracker.update(1, &profile1);

    let req2 = build_request(vec![
        msg("user", cache_text(&long_cacheable_text())),
        msg("assistant", text("R1")),
        msg("user", text("Follow-up")),
        msg("assistant", text("R2")),
        msg("user", text("New feedback")),
        msg("assistant", text("R3")),
    ]);
    let total2 = estimate_input_tokens(&req2);
    let profile2 = tracker.build_profile(&req2, total2);
    let result = tracker.compute(1, &profile2);

    assert!(result.cache_read_input_tokens > 0);
    assert!(result.cache_read_input_tokens < profile2.total_input_tokens());
    assert!(result.cache_creation_input_tokens > 0);
}

#[test]
fn prefix_lookback_limits_to_recent_ten_breakpoints() {
    let tracker = CacheTracker::new(Duration::from_secs(3600));
    let mut messages = Vec::new();
    for i in 0..12 {
        messages.push(msg("user", cache_text(&format!("{}-{i}", long_cacheable_text()))));
        messages.push(msg("assistant", text(&format!("reply-{i}"))));
    }
    let req = build_request(messages);
    let total = estimate_input_tokens(&req);
    let profile = tracker.build_profile(&req, total);
    assert!(profile.cacheable_breakpoints().len() >= 10);
}

#[test]
fn message_end_after_anchor_creates_additional_breakpoint() {
    let req = build_request(vec![
        msg("user", cache_text(&long_cacheable_text())),
        msg("assistant", text("R1")),
    ]);
    let tracker = CacheTracker::new(Duration::from_secs(3600));
    let profile = tracker.build_profile(&req, estimate_input_tokens(&req));
    let breakpoints = profile.cacheable_breakpoints();
    assert!(breakpoints.len() >= 2);
}

#[test]
fn multi_turn_history_extends_cacheable_prefix() {
    let tracker = CacheTracker::new(Duration::from_secs(3600));
    let long = long_cacheable_text();

    let req1 = build_request(vec![msg("user", cache_text(&long))]);
    let total1 = estimate_input_tokens(&req1);
    let profile1 = tracker.build_profile(&req1, total1);
    let result1 = tracker.compute(1, &profile1);
    assert!(result1.cache_creation_input_tokens > 0);
    // The first request writes everything, what the total counts beyond the blocks too.
    assert_eq!(result1.cache_creation_input_tokens, total1);
    tracker.update(1, &profile1);

    let req2 = build_request(vec![
        msg("user", cache_text(&long)),
        msg("assistant", text(&medium_turn_text("R1"))),
        msg("user", text(&medium_turn_text("R2"))),
    ]);
    let total2 = estimate_input_tokens(&req2);
    let profile2 = tracker.build_profile(&req2, total2);
    let result2 = tracker.compute(1, &profile2);
    assert!(result2.cache_read_input_tokens > 0);
    assert_eq!(
        result2.cache_read_input_tokens + result2.cache_creation_input_tokens,
        total2
    );
    let req1_natural_tokens =
        profile1.last_cacheable_breakpoint().map(|bp| bp.cumulative_tokens).unwrap_or(0);
    assert!(result2.cache_read_input_tokens <= req1_natural_tokens);
    tracker.update(1, &profile2);

    let req3 = build_request(vec![
        msg("user", cache_text(&long)),
        msg("assistant", text(&medium_turn_text("R1"))),
        msg("user", text(&medium_turn_text("R2"))),
        msg("assistant", text(&medium_turn_text("R2A"))),
        msg("user", text(&medium_turn_text("R3"))),
    ]);
    let total3 = estimate_input_tokens(&req3);
    let profile3 = tracker.build_profile(&req3, total3);
    let result3 = tracker.compute(1, &profile3);
    assert!(result3.cache_read_input_tokens > result2.cache_read_input_tokens);
    assert_eq!(
        result3.cache_read_input_tokens + result3.cache_creation_input_tokens,
        total3
    );
}

#[test]
fn ttl_is_inherited_for_derived_message_breakpoints() {
    let req = build_request(vec![
        msg(
            "user",
            Json::Array(vec![object(vec![
                ("type", text("text")),
                ("text", text(&long_cacheable_text())),
                (
                    "cache_control",
                    object(vec![("type", text("ephemeral")), ("ttl", text("1h"))]),
                ),
            ])]),
        ),
        msg("assistant", text("R1")),
        msg("user", text("R2")),
    ]);
    let tracker = CacheTracker::new(Duration::from_secs(3600));
    let profile = tracker.build_profile(&req, estimate_input_tokens(&req));
    let breakpoints = profile.cacheable_breakpoints();
    assert!(breakpoints.len() >= 2);
    let one_hour_count =
        breakpoints.iter().filter(|bp| bp.ttl == Duration::from_secs(3600)).count();
    assert!(
        one_hour_count >= 1,
        "expected at least 1 inherited 1h breakpoint, got {one_hour_count}"
    );
}

#[test]
fn tool_changes_invalidate_downstream_prefix() {
    let tracker = CacheTracker::new(Duration::from_secs(3600));
    let mut req1 = build_request(vec![msg("user", cache_text(&long_cacheable_text()))]);
    req1.tools.as_mut().unwrap().push(tool("alpha", "alpha"));
    let total1 = estimate_input_tokens(&req1);
    let profile1 = tracker.build_profile(&req1, total1);
    tracker.update(1, &profile1);

    let mut req2 = build_request(vec![msg("user", cache_text(&long_cacheable_text()))]);
    req2.tools.as_mut().unwrap().push(tool("beta", "beta"));
    let total2 = estimate_input_tokens(&req2);
    let profile2 = tracker.build_profile(&req2, total2);
    let result = tracker.compute(1, &profile2);

    assert_eq!(result.cache_read_input_tokens, 0);
    assert_eq!(
        result.cache_creation_input_tokens,
        profile2.last_cacheable_breakpoint().map(|bp| bp.cumulative_tokens).unwrap_or(0)
    );
}
