//! Requests as the cache sees them: tools, system blocks and messages in their JSON
//! form, each cacheable block with its token count.

use crate::json::{
    add_member, items_model, member, strip_cache_control, without_cache_control, Json, JsonModel,
};
use crate::text::same_text;
use crate::time::Duration;
use vstd::prelude::*;

verus! {

/// Lifetime in seconds of a cache entry whose marker asks for no other.
pub const DEFAULT_CACHE_TTL_SECS: u64 = 300;

/// Lifetime in seconds of a cache entry whose marker asks for an hour.
pub const ONE_HOUR_CACHE_TTL_SECS: u64 = 3600;

/// A cache marker: the member `cache_control` of a tool or of a block.
#[derive(Debug)]
pub struct CacheControl {
    pub cache_type: String,
    pub ttl: Option<String>,
}

/// What a cache marker says.
#[verifier::ext_equal]
pub struct CacheControlModel {
    pub cache_type: Seq<char>,
    pub ttl: Option<Seq<char>>,
}

impl View for CacheControl {
    type V = CacheControlModel;

    open spec fn view(&self) -> CacheControlModel {
        CacheControlModel {
            cache_type: self.cache_type@,
            ttl: match self.ttl {
                Some(ttl) => Some(ttl@),
                None => None,
            },
        }
    }
}

/// Reads an optional text: null stands for none, and a value of another kind is an error.
pub open spec fn optional_text(value: JsonModel) -> Result<Option<Seq<char>>, ()> {
    match value {
        JsonModel::Null => Ok(None),
        JsonModel::String(text) => Ok(Some(text)),
        _ => Err(()),
    }
}

/// The marker that the two values say, if they are of the right kinds.
pub open spec fn marker_of(cache_type: JsonModel, ttl: JsonModel) -> Option<CacheControlModel> {
    match (cache_type, optional_text(ttl)) {
        (JsonModel::String(cache_type), Ok(ttl)) => Some(CacheControlModel { cache_type, ttl }),
        _ => None,
    }
}

/// Reads a cache marker: an object with the text `type` and, at will, the text `ttl`
/// (other members do not matter), or the two values in an array.
pub open spec fn marker(value: JsonModel) -> Option<CacheControlModel> {
    match value {
        JsonModel::Object(fields) => match (member(value, "type"@), member(value, "ttl"@)) {
            (Some(cache_type), Some(ttl)) => marker_of(cache_type, ttl),
            (Some(cache_type), None) => marker_of(cache_type, JsonModel::Null),
            (None, _) => None,
        },
        JsonModel::Array(items) => if items.len() == 2 {
            marker_of(items[0], items[1])
        } else {
            None
        },
        _ => None,
    }
}

fn read_marker(cache_type: &Json, ttl: &Json) -> (control: Option<CacheControl>)
    ensures
        match control {
            Some(control) => marker_of(cache_type@, ttl@) == Some(control@),
            None => marker_of(cache_type@, ttl@) is None,
        },
{
    match (cache_type, ttl) {
        (Json::String(cache_type), Json::String(ttl)) => Some(
            CacheControl { cache_type: cache_type.clone(), ttl: Some(ttl.clone()) },
        ),
        (Json::String(cache_type), Json::Null) => Some(
            CacheControl { cache_type: cache_type.clone(), ttl: None },
        ),
        _ => None,
    }
}

impl CacheControl {
    /// Reads a cache marker; `None` for a value that is none.
    pub fn from_json(value: &Json) -> (control: Option<CacheControl>)
        ensures
            match control {
                Some(control) => marker(value@) == Some(control@),
                None => marker(value@) is None,
            },
    {
        match value {
            Json::Object(_) => match value.get("type") {
                Some(cache_type) => match value.get("ttl") {
                    Some(ttl) => read_marker(cache_type, ttl),
                    None => read_marker(cache_type, &Json::Null),
                },
                None => None,
            },
            Json::Array(items) => if items.len() == 2 {
                read_marker(&items[0], &items[1])
            } else {
                None
            },
            _ => None,
        }
    }
}

/// The lifetime that the marker of a value asks for: an hour for an `ephemeral` marker
/// with the ttl `1h`, the default for any other `ephemeral` marker, and nothing where
/// there is no such marker.
pub open spec fn cache_ttl(value: JsonModel) -> Option<Duration> {
    match member(value, "cache_control"@) {
        Some(control) => match marker(control) {
            Some(control) => if control.cache_type == "ephemeral"@ {
                if control.ttl == Some("1h"@) {
                    Some(Duration::from_secs(ONE_HOUR_CACHE_TTL_SECS))
                } else {
                    Some(Duration::from_secs(DEFAULT_CACHE_TTL_SECS))
                }
            } else {
                None
            },
            None => None,
        },
        None => None,
    }
}

/// Reads the lifetime that the marker of a value asks for.
pub fn extract_cache_ttl(value: &Json) -> (ttl: Option<Duration>)
    ensures
        ttl == cache_ttl(value@),
{
    let control = match value.get("cache_control") {
        Some(control) => control,
        None => {
            return None;
        },
    };
    let control = match CacheControl::from_json(control) {
        Some(control) => control,
        None => {
            return None;
        },
    };
    if !same_text(control.cache_type.as_str(), "ephemeral") {
        return None;
    }
    match &control.ttl {
        Some(ttl) => if same_text(ttl.as_str(), "1h") {
            Some(Duration::from_secs(ONE_HOUR_CACHE_TTL_SECS))
        } else {
            Some(Duration::from_secs(DEFAULT_CACHE_TTL_SECS))
        },
        None => Some(Duration::from_secs(DEFAULT_CACHE_TTL_SECS)),
    }
}

/// A tool definition in its JSON form, with its token count.
#[derive(Debug)]
pub struct Tool {
    pub definition: Json,
    pub tokens: u64,
}

/// A block of the system prompt in its JSON form, with its token count.
#[derive(Debug)]
pub struct SystemMessage {
    pub block: Json,
    pub tokens: u64,
}

/// A JSON value with a token count.
#[verifier::ext_equal]
pub struct CountedModel {
    pub value: JsonModel,
    pub tokens: u64,
}

impl View for Tool {
    type V = CountedModel;

    open spec fn view(&self) -> CountedModel {
        CountedModel { value: self.definition@, tokens: self.tokens }
    }
}

impl View for SystemMessage {
    type V = CountedModel;

    open spec fn view(&self) -> CountedModel {
        CountedModel { value: self.block@, tokens: self.tokens }
    }
}

/// A text as a content block.
pub open spec fn text_block(text: Seq<char>) -> JsonModel {
    JsonModel::Object(
        Map::<Seq<char>, JsonModel>::empty().insert(
            "type"@,
            JsonModel::String("text"@),
        ).insert("text"@, JsonModel::String(text)),
    )
}

/// The content blocks of a message: a text is one text block, the items of an array are
/// the blocks (without cache markers), and any other value is one block as it stands.
pub open spec fn blocks_of(content: JsonModel) -> Seq<JsonModel> {
    match content {
        JsonModel::String(text) => seq![text_block(text)],
        JsonModel::Array(items) => Seq::new(
            items.len(),
            |i: int| without_cache_control(items[i]),
        ),
        _ => seq![content],
    }
}

/// Makes the content block of a text.
fn make_text_block(text: &String) -> (block: Json)
    ensures
        block@ == text_block(text@),
{
    let mut members: Vec<(String, Json)> = Vec::new();
    add_member(&mut members, "type", Json::String("text".to_owned()));
    add_member(&mut members, "text", Json::String(text.clone()));
    Json::Object(members)
}

/// The content blocks of a message, in the form in which they are counted and
/// fingerprinted.
pub fn content_blocks(content: &Json) -> (blocks: Vec<Json>)
    ensures
        blocks@.len() == blocks_of(content@).len(),
        forall|i: int|
            0 <= i < blocks@.len() ==> (#[trigger] blocks@[i])@ == blocks_of(content@)[i],
{
    let mut blocks: Vec<Json> = Vec::new();
    match content {
        Json::String(text) => {
            blocks.push(make_text_block(text));
        },
        Json::Array(items) => {
            let mut i: usize = 0;
            while i < items.len()
                invariant
                    i <= items@.len(),
                    blocks@.len() == i,
                    content@ == JsonModel::Array(items_model(items@)),
                    forall|j: int|
                        0 <= j < i ==> (#[trigger] blocks@[j])@ == blocks_of(content@)[j],
                decreases items@.len() - i,
            {
                let mut block = items[i].clone();
                strip_cache_control(&mut block);
                blocks.push(block);
                i = i + 1;
            }
        },
        _ => {
            blocks.push(content.clone());
        },
    }
    blocks
}

/// A message with the token counts of its content blocks.
#[derive(Debug)]
pub struct Message {
    role: String,
    content: Json,
    block_tokens: Vec<u64>,
}

/// What a message holds.
#[verifier::ext_equal]
pub struct MessageModel {
    pub role: Seq<char>,
    pub content: JsonModel,
    pub block_tokens: Seq<u64>,
}

impl MessageModel {
    /// There is one token count for each content block.
    pub open spec fn wf(self) -> bool {
        self.block_tokens.len() == blocks_of(self.content).len()
    }
}

impl View for Message {
    type V = MessageModel;

    closed spec fn view(&self) -> MessageModel {
        MessageModel {
            role: self.role@,
            content: self.content@,
            block_tokens: self.block_tokens@,
        }
    }
}

impl Message {
    #[verifier::type_invariant]
    spec fn counted(self) -> bool {
        self@.wf()
    }

    /// Makes a message of a role, a content, and one token count for each of the blocks
    /// that [`content_blocks`] gives; `None` where the counts are more or fewer.
    pub fn new(role: String, content: Json, block_tokens: Vec<u64>) -> (message: Option<Message>)
        ensures
            match message {
                Some(message) => {
                    &&& message@.wf()
                    &&& message@ == (MessageModel {
                        role: role@,
                        content: content@,
                        block_tokens: block_tokens@,
                    })
                },
                None => block_tokens@.len() != blocks_of(content@).len(),
            },
    {
        let expected = match &content {
            Json::Array(items) => items.len(),
            _ => 1,
        };
        if block_tokens.len() == expected {
            Some(Message { role, content, block_tokens })
        } else {
            None
        }
    }

    /// The role.
    pub fn role(&self) -> (role: &String)
        ensures
            role@ == self@.role,
    {
        &self.role
    }

    /// The content.
    pub fn content(&self) -> (content: &Json)
        ensures
            content@ == self@.content,
    {
        &self.content
    }

    /// The token counts of the content blocks.
    pub fn block_tokens(&self) -> (tokens: &Vec<u64>)
        ensures
            tokens@ == self@.block_tokens,
            self@.wf(),
    {
        proof {
            use_type_invariant(self);
        }
        &self.block_tokens
    }
}

/// A request: the parts that decide what can be cached.
#[derive(Debug)]
pub struct MessagesRequest {
    pub model: String,
    pub messages: Vec<Message>,
    pub system: Option<Vec<SystemMessage>>,
    pub tools: Option<Vec<Tool>>,
    pub tool_choice: Option<Json>,
}

/// What a request holds. Without tools, or without system blocks, the list is empty.
#[verifier::ext_equal]
pub struct RequestModel {
    pub model: Seq<char>,
    pub messages: Seq<MessageModel>,
    pub system: Seq<CountedModel>,
    pub tools: Seq<CountedModel>,
    pub tool_choice: JsonModel,
}

impl View for MessagesRequest {
    type V = RequestModel;

    open spec fn view(&self) -> RequestModel {
        RequestModel {
            model: self.model@,
            messages: self.messages@.map_values(|message: Message| message@),
            system: match self.system {
                Some(system) => system@.map_values(|block: SystemMessage| block@),
                None => Seq::empty(),
            },
            tools: match self.tools {
                Some(tools) => tools@.map_values(|tool: Tool| tool@),
                None => Seq::empty(),
            },
            tool_choice: match self.tool_choice {
                Some(choice) => choice@,
                None => JsonModel::Null,
            },
        }
    }
}

} // verus!
