use cache_tracker::encode::json_to_vec;
use cache_tracker::flatten::{
    build_message_block, canonicalize_system_block_for_cache, flatten_cacheable_blocks,
    flatten_message_blocks,
};
use cache_tracker::json::Json;
use cache_tracker::request::{
    content_blocks, extract_cache_ttl, CacheControl, Message, MessagesRequest, SystemMessage, Tool,
};
use cache_tracker::time::Duration;

const FIVE_MINUTES: Duration = Duration { secs: 300, nanos: 0 };
const ONE_HOUR: Duration = Duration { secs: 3600, nanos: 0 };

fn text(s: &str) -> Json {
    Json::String(s.to_string())
}

fn object(members: Vec<(&str, Json)>) -> Json {
    Json::Object(members.into_iter().map(|(key, value)| (key.to_string(), value)).collect())
}

fn written(value: &Json) -> String {
    String::from_utf8(json_to_vec(value)).unwrap()
}

fn marked(control: Json) -> Json {
    object(vec![("text", text("t")), ("cache_control", control)])
}

fn ephemeral(ttl: Json) -> Json {
    object(vec![("type", text("ephemeral")), ("ttl", ttl)])
}

#[test]
fn markers_ask_for_a_lifetime() {
    let bare = object(vec![("type", text("ephemeral"))]);
    assert_eq!(extract_cache_ttl(&marked(bare)), Some(FIVE_MINUTES));
    assert_eq!(extract_cache_ttl(&marked(ephemeral(text("1h")))), Some(ONE_HOUR));
    assert_eq!(extract_cache_ttl(&marked(ephemeral(text("5m")))), Some(FIVE_MINUTES));
    assert_eq!(extract_cache_ttl(&marked(ephemeral(text("2h")))), Some(FIVE_MINUTES));
    assert_eq!(extract_cache_ttl(&marked(ephemeral(Json::Null))), Some(FIVE_MINUTES));
}

#[test]
fn what_is_no_marker_asks_for_nothing() {
    assert_eq!(extract_cache_ttl(&object(vec![("text", text("t"))])), None);
    assert_eq!(extract_cache_ttl(&text("cache_control")), None);
    assert_eq!(extract_cache_ttl(&Json::Array(vec![marked(ephemeral(text("1h")))])), None);
    assert_eq!(extract_cache_ttl(&marked(Json::Null)), None);
    assert_eq!(extract_cache_ttl(&marked(text("ephemeral"))), None);
    assert_eq!(extract_cache_ttl(&marked(object(vec![("ttl", text("1h"))]))), None);
    assert_eq!(extract_cache_ttl(&marked(object(vec![("type", text("persistent"))]))), None);
    assert_eq!(extract_cache_ttl(&marked(object(vec![("type", Json::Null)]))), None);
    assert_eq!(extract_cache_ttl(&marked(ephemeral(Json::Bool(true)))), None);
    assert_eq!(extract_cache_ttl(&marked(ephemeral(Json::Array(vec![])))), None);
}

#[test]
fn a_marker_ignores_other_members() {
    let control = object(vec![
        ("scope", Json::Array(vec![])),
        ("ttl", text("1h")),
        ("type", text("ephemeral")),
    ]);
    assert_eq!(extract_cache_ttl(&marked(control)), Some(ONE_HOUR));
}

#[test]
fn a_marker_can_be_two_values_in_an_array() {
    let control = CacheControl::from_json(&Json::Array(vec![text("ephemeral"), text("1h")]));
    let control = control.unwrap();
    assert_eq!(control.cache_type, "ephemeral");
    assert_eq!(control.ttl.as_deref(), Some("1h"));
    assert!(CacheControl::from_json(&Json::Array(vec![text("ephemeral")])).is_none());
    assert!(CacheControl::from_json(&Json::Array(vec![text("a"), text("b"), text("c")])).is_none());
    assert!(CacheControl::from_json(&Json::Array(vec![Json::Null, text("1h")])).is_none());
}

#[test]
fn a_text_is_one_text_block() {
    let blocks = content_blocks(&text("hi"));
    assert_eq!(blocks.len(), 1);
    assert_eq!(written(&blocks[0]), "{\"text\":\"hi\",\"type\":\"text\"}");
}

#[test]
fn the_items_of_an_array_are_blocks_without_markers() {
    let content = Json::Array(vec![marked(ephemeral(text("1h"))), text("bare")]);
    let blocks = content_blocks(&content);
    assert_eq!(blocks.len(), 2);
    assert_eq!(written(&blocks[0]), "{\"text\":\"t\"}");
    assert_eq!(written(&blocks[1]), "\"bare\"");
    assert!(content_blocks(&Json::Array(vec![])).is_empty());
}

#[test]
fn any_other_content_is_one_block_as_it_stands() {
    let blocks = content_blocks(&marked(Json::Null));
    assert_eq!(blocks.len(), 1);
    assert_eq!(written(&blocks[0]), "{\"cache_control\":null,\"text\":\"t\"}");
}

#[test]
fn a_message_has_one_count_for_each_block() {
    assert!(Message::new("user".to_string(), text("hi"), vec![]).is_none());
    assert!(Message::new("user".to_string(), text("hi"), vec![1, 2]).is_none());
    assert!(Message::new("user".to_string(), Json::Array(vec![]), vec![1]).is_none());
    let message = Message::new("user".to_string(), text("hi"), vec![3]).unwrap();
    assert_eq!(message.role(), "user");
    assert_eq!(written(message.content()), "\"hi\"");
    assert_eq!(message.block_tokens(), &vec![3]);
}

#[test]
fn the_blocks_of_an_array_end_with_the_message() {
    let content = Json::Array(vec![
        text("a"),
        marked(ephemeral(text("1h"))),
        object(vec![("type", text("image"))]),
    ]);
    let message = Message::new("user".to_string(), content, vec![1, 2, 3]).unwrap();
    let blocks = flatten_message_blocks(4, &message);
    assert_eq!(blocks.len(), 3);
    assert_eq!(blocks.iter().map(|b| b.tokens).collect::<Vec<_>>(), [1, 2, 3]);
    assert_eq!(
        blocks.iter().map(|b| b.breakpoint_ttl).collect::<Vec<_>>(),
        [None, Some(ONE_HOUR), Some(FIVE_MINUTES)]
    );
    assert_eq!(blocks.iter().map(|b| b.is_message_end).collect::<Vec<_>>(), [false, false, true]);
    assert_eq!(blocks.iter().map(|b| b.ttl_is_fallback).collect::<Vec<_>>(), [false, false, true]);
    assert!(blocks.iter().all(|b| b.message_index == Some(4)));
    assert_eq!(
        written(&blocks[1].value),
        "{\"block\":{\"text\":\"t\"},\"block_index\":1,\"kind\":\"message\",\"message_index\":4,\"role\":\"user\"}"
    );
}

#[test]
fn the_lifetime_at_a_message_end_can_be_an_hour() {
    let content = Json::Array(vec![marked(ephemeral(text("1h")))]);
    let message = Message::new("user".to_string(), content, vec![1]).unwrap();
    let blocks = flatten_message_blocks(0, &message);
    assert_eq!(blocks[0].breakpoint_ttl, Some(ONE_HOUR));
    assert!(!blocks[0].ttl_is_fallback);
    assert!(blocks[0].is_message_end);
}

#[test]
fn a_content_of_one_block_has_the_default_lifetime() {
    for content in [text("hi"), marked(ephemeral(text("1h"))), Json::Null] {
        let message = Message::new("user".to_string(), content, vec![9]).unwrap();
        let blocks = flatten_message_blocks(0, &message);
        assert_eq!(blocks.len(), 1);
        assert_eq!(blocks[0].breakpoint_ttl, Some(FIVE_MINUTES));
        assert!(blocks[0].ttl_is_fallback);
        assert!(blocks[0].is_message_end);
    }
}

#[test]
fn a_message_block_carries_what_it_is_made_of() {
    let block = build_message_block(
        2,
        &"assistant".to_string(),
        5,
        text("x"),
        1 << 31,
        None,
        false,
    );
    assert_eq!(block.tokens, i32::MIN);
    assert_eq!(block.breakpoint_ttl, None);
    assert_eq!(block.message_index, Some(2));
    assert!(!block.is_message_end);
    assert_eq!(
        written(&block.value),
        "{\"block\":\"x\",\"block_index\":5,\"kind\":\"message\",\"message_index\":2,\"role\":\"assistant\"}"
    );
}

#[test]
fn a_text_has_another_value_than_an_array_of_that_text() {
    let block = object(vec![
        ("type", text("text")),
        ("text", text("T")),
        ("cache_control", object(vec![("type", text("ephemeral"))])),
    ]);
    let value = |content: Json| {
        let message = Message::new("user".to_string(), content, vec![1]).unwrap();
        written(&flatten_message_blocks(0, &message)[0].value)
    };
    let bare = value(text("T"));
    assert_eq!(
        bare,
        "{\"block\":{\"text\":\"T\",\"type\":\"text\"},\"block_index\":0,\"kind\":\"message\",\"message_index\":0,\"role\":\"user\",\"shape\":\"string\"}"
    );
    assert_ne!(bare, value(Json::Array(vec![block.clone()])));
    assert_ne!(bare, value(Json::Array(vec![text("T")])));
    assert_ne!(bare, value(block));
    assert_eq!(
        value(Json::Array(vec![text("T")])),
        "{\"block\":\"T\",\"block_index\":0,\"kind\":\"message\",\"message_index\":0,\"role\":\"user\"}"
    );
}

fn masked(value: Json) -> String {
    let mut value = value;
    canonicalize_system_block_for_cache(&mut value);
    written(&value)
}

#[test]
fn billing_headers_get_a_fixed_text() {
    let header = "x-anthropic-billing-header: cch=aaaaa;";
    let other = "x-anthropic-billing-header:";
    let expected = "{\"text\":\"__anthropic_billing_header__\",\"type\":\"text\"}";
    assert_eq!(masked(object(vec![("type", text("text")), ("text", text(header))])), expected);
    assert_eq!(masked(object(vec![("type", text("text")), ("text", text(other))])), expected);
    assert_eq!(
        masked(object(vec![("text", text(header))])),
        "{\"text\":\"__anthropic_billing_header__\"}"
    );
    assert_eq!(
        masked(object(vec![("type", Json::Null), ("text", text(header))])),
        "{\"text\":\"__anthropic_billing_header__\",\"type\":null}"
    );
}

#[test]
fn other_system_blocks_keep_their_text() {
    let header = "x-anthropic-billing-header: cch=aaaaa;";
    for value in [
        object(vec![("type", text("image")), ("text", text(header))]),
        object(vec![("type", text("text")), ("text", text("see x-anthropic-billing-header:"))]),
        object(vec![("type", text("text")), ("text", Json::Null)]),
        object(vec![("type", text("text"))]),
        text(header),
        Json::Array(vec![text(header)]),
    ] {
        let before = written(&value);
        assert_eq!(masked(value), before);
    }
}

#[test]
fn a_request_is_flattened_in_order() {
    let request = MessagesRequest {
        model: "m".to_string(),
        messages: vec![
            Message::new("user".to_string(), text("hi"), vec![5]).unwrap(),
            Message::new("assistant".to_string(), Json::Array(vec![]), vec![]).unwrap(),
            Message::new("user".to_string(), text("yo"), vec![6]).unwrap(),
        ],
        system: Some(vec![
            SystemMessage { block: marked(ephemeral(text("1h"))), tokens: 3 },
            SystemMessage { block: object(vec![("text", text("s"))]), tokens: 4 },
        ]),
        tools: Some(vec![
            Tool { definition: object(vec![("name", text("a"))]), tokens: 1 },
            Tool { definition: object(vec![("name", text("b"))]), tokens: 2 },
        ]),
        tool_choice: None,
    };
    let blocks = flatten_cacheable_blocks(&request);
    assert_eq!(
        blocks.iter().map(|b| written(&b.value)).collect::<Vec<_>>(),
        [
            "{\"kind\":\"tool\",\"tool\":{\"name\":\"a\"},\"tool_index\":0}",
            "{\"kind\":\"tool\",\"tool\":{\"name\":\"b\"},\"tool_index\":1}",
            "{\"block\":{\"text\":\"t\"},\"kind\":\"system\",\"system_index\":0}",
            "{\"block\":{\"text\":\"s\"},\"kind\":\"system\",\"system_index\":1}",
            "{\"block\":{\"text\":\"hi\",\"type\":\"text\"},\"block_index\":0,\"kind\":\"message\",\"message_index\":0,\"role\":\"user\",\"shape\":\"string\"}",
            "{\"block\":{\"text\":\"yo\",\"type\":\"text\"},\"block_index\":0,\"kind\":\"message\",\"message_index\":2,\"role\":\"user\",\"shape\":\"string\"}",
        ]
    );
    assert_eq!(
        blocks.iter().map(|b| b.breakpoint_ttl).collect::<Vec<_>>(),
        [
            None,
            Some(FIVE_MINUTES),
            Some(ONE_HOUR),
            Some(FIVE_MINUTES),
            Some(FIVE_MINUTES),
            Some(FIVE_MINUTES)
        ]
    );
    assert_eq!(
        blocks.iter().map(|b| b.ttl_is_fallback).collect::<Vec<_>>(),
        [false, false, false, false, true, true]
    );
    assert_eq!(
        blocks.iter().map(|b| b.message_index).collect::<Vec<_>>(),
        [None, None, None, None, Some(0), Some(2)]
    );
    assert_eq!(blocks.iter().map(|b| b.tokens).collect::<Vec<_>>(), [1, 2, 3, 4, 5, 6]);
}
