//! A request as the sequence of its cacheable blocks: tools, then system blocks, then
//! the content blocks of the messages.

use crate::encode::{is_own_number, number_from_usize, unsigned_number};
use crate::json::{
    add_member, canonicalize_json, is_canonical, member, strip_cache_control, without_cache_control,
    Json, JsonModel,
};
use crate::request::{
    blocks_of, cache_ttl, content_blocks, extract_cache_ttl, CountedModel, Message, MessageModel,
    MessagesRequest, RequestModel, SystemMessage, Tool, DEFAULT_CACHE_TTL_SECS,
};
use crate::text::{same_text, starts_with};
use crate::time::Duration;
use vstd::prelude::*;

verus! {

/// A cacheable block: its canonical JSON, its token count, and where it may end a
/// cached prefix. A lifetime that is a fallback is not asked for by the block: it counts
/// only where no block before has asked for one.
#[derive(Debug)]
pub struct PendingBlock {
    pub value: Json,
    pub tokens: i32,
    pub breakpoint_ttl: Option<Duration>,
    pub ttl_is_fallback: bool,
    pub message_index: Option<usize>,
    pub is_message_end: bool,
}

/// What a cacheable block holds.
#[verifier::ext_equal]
pub struct PendingModel {
    pub value: JsonModel,
    pub tokens: i32,
    pub breakpoint_ttl: Option<Duration>,
    pub ttl_is_fallback: bool,
    pub message_index: Option<usize>,
    pub is_message_end: bool,
}

impl View for PendingBlock {
    type V = PendingModel;

    open spec fn view(&self) -> PendingModel {
        PendingModel {
            value: self.value@,
            tokens: self.tokens,
            breakpoint_ttl: self.breakpoint_ttl,
            ttl_is_fallback: self.ttl_is_fallback,
            message_index: self.message_index,
            is_message_end: self.is_message_end,
        }
    }
}

/// The blocks hold `models`, and their values are in canonical form.
pub open spec fn blocks_hold(blocks: Seq<PendingBlock>, models: Seq<PendingModel>) -> bool {
    &&& blocks.len() == models.len()
    &&& forall|i: int|
        0 <= i < blocks.len() ==> (#[trigger] blocks[i])@ == models[i] && is_canonical(
            blocks[i].value,
        )
}

/// The lifetime of the breakpoint at a block: what its marker asks for, else the default
/// where the block is the last of its list.
pub open spec fn breakpoint_ttl(marked: Option<Duration>, last: bool) -> Option<Duration> {
    match marked {
        Some(ttl) => Some(ttl),
        None => if last {
            Some(Duration::from_secs(DEFAULT_CACHE_TTL_SECS))
        } else {
            None
        },
    }
}

fn choose_breakpoint_ttl(marked: Option<Duration>, last: bool) -> (ttl: Option<Duration>)
    ensures
        ttl == breakpoint_ttl(marked, last),
{
    match marked {
        Some(ttl) => Some(ttl),
        None => if last {
            Some(Duration::from_secs(DEFAULT_CACHE_TTL_SECS))
        } else {
            None
        },
    }
}

/// The JSON object that stands for a tool in the fingerprint.
pub open spec fn tool_value(tool_index: usize, tool: JsonModel) -> JsonModel {
    JsonModel::Object(
        Map::<Seq<char>, JsonModel>::empty().insert(
            "kind"@,
            JsonModel::String("tool"@),
        ).insert("tool_index"@, JsonModel::Number(unsigned_number(tool_index))).insert(
            "tool"@,
            tool,
        ),
    )
}

/// The JSON object that stands for a system block in the fingerprint.
pub open spec fn system_value(system_index: usize, block: JsonModel) -> JsonModel {
    JsonModel::Object(
        Map::<Seq<char>, JsonModel>::empty().insert(
            "kind"@,
            JsonModel::String("system"@),
        ).insert("system_index"@, JsonModel::Number(unsigned_number(system_index))).insert(
            "block"@,
            block,
        ),
    )
}

/// The JSON object that stands for a content block of a message in the fingerprint.
pub open spec fn message_value(
    message_index: usize,
    role: Seq<char>,
    block_index: usize,
    block: JsonModel,
) -> JsonModel {
    JsonModel::Object(
        Map::<Seq<char>, JsonModel>::empty().insert(
            "kind"@,
            JsonModel::String("message"@),
        ).insert("message_index"@, JsonModel::Number(unsigned_number(message_index))).insert(
            "role"@,
            JsonModel::String(role),
        ).insert("block_index"@, JsonModel::Number(unsigned_number(block_index))).insert(
            "block"@,
            block,
        ),
    )
}

/// The block of the tool at `i`.
pub open spec fn tool_block(tools: Seq<CountedModel>, i: int) -> PendingModel {
    PendingModel {
        value: tool_value(i as usize, without_cache_control(tools[i].value)),
        tokens: tools[i].tokens as i32,
        breakpoint_ttl: breakpoint_ttl(cache_ttl(tools[i].value), i == tools.len() - 1),
        ttl_is_fallback: false,
        message_index: None,
        is_message_end: false,
    }
}

/// A system block is a text block unless its `type` is a text other than `text`.
pub open spec fn is_text_block(value: JsonModel) -> bool {
    match member(value, "type"@) {
        Some(JsonModel::String(kind)) => kind == "text"@,
        _ => true,
    }
}

/// A text block whose text is a billing header.
pub open spec fn is_billing_header(value: JsonModel) -> bool {
    &&& is_text_block(value)
    &&& match member(value, "text"@) {
        Some(JsonModel::String(text)) => "x-anthropic-billing-header:"@.is_prefix_of(text),
        _ => false,
    }
}

/// A system block as it is fingerprinted: a billing header, which differs from one
/// request to the next, has a fixed text in place of its own.
pub open spec fn masked_system_block(value: JsonModel) -> JsonModel {
    match value {
        JsonModel::Object(fields) => if is_billing_header(value) {
            JsonModel::Object(
                fields.insert("text"@, JsonModel::String("__anthropic_billing_header__"@)),
            )
        } else {
            value
        },
        _ => value,
    }
}

/// The block of the system block at `i`.
pub open spec fn system_block(system: Seq<CountedModel>, i: int) -> PendingModel {
    PendingModel {
        value: system_value(
            i as usize,
            masked_system_block(without_cache_control(system[i].value)),
        ),
        tokens: system[i].tokens as i32,
        breakpoint_ttl: breakpoint_ttl(cache_ttl(system[i].value), i == system.len() - 1),
        ttl_is_fallback: false,
        message_index: None,
        is_message_end: false,
    }
}

/// The lifetime that the marker of the content block `i` of a message asks for. Only the
/// items of an array can have markers.
pub open spec fn content_marker(content: JsonModel, i: int) -> Option<Duration> {
    match content {
        JsonModel::Array(items) => cache_ttl(items[i]),
        _ => None,
    }
}

/// The value of a message block, told apart as that of a message whose content is a bare
/// text. So a text and an array with a block of that text are fingerprinted differently.
pub open spec fn of_bare_text(value: JsonModel) -> JsonModel {
    match value {
        JsonModel::Object(fields) => JsonModel::Object(
            fields.insert("shape"@, JsonModel::String("string"@)),
        ),
        _ => value,
    }
}

/// The JSON object that stands for the content block `i` of a message in the fingerprint.
pub open spec fn content_value(
    message_index: usize,
    role: Seq<char>,
    content: JsonModel,
    i: int,
) -> JsonModel {
    let value = message_value(message_index, role, i as usize, blocks_of(content)[i]);
    match content {
        JsonModel::String(_) => of_bare_text(value),
        _ => value,
    }
}

/// The block of the content block `i` of a message. The end of a message without a
/// marker has the default lifetime to fall back on.
pub open spec fn message_block(
    message_index: usize,
    message: MessageModel,
    i: int,
) -> PendingModel {
    let blocks = blocks_of(message.content);
    let marked = content_marker(message.content, i);
    let last = i == blocks.len() - 1;
    PendingModel {
        value: content_value(message_index, message.role, message.content, i),
        tokens: message.block_tokens[i] as i32,
        breakpoint_ttl: breakpoint_ttl(marked, last),
        ttl_is_fallback: marked is None && last,
        message_index: Some(message_index),
        is_message_end: last,
    }
}

/// The blocks of a message.
pub open spec fn message_blocks(message_index: usize, message: MessageModel) -> Seq<PendingModel> {
    Seq::new(
        blocks_of(message.content).len(),
        |i: int| message_block(message_index, message, i),
    )
}

/// The blocks of the first `n` messages.
pub open spec fn first_messages_blocks(messages: Seq<MessageModel>, n: nat) -> Seq<PendingModel>
    decreases n,
{
    if n == 0 {
        Seq::empty()
    } else {
        first_messages_blocks(messages, (n - 1) as nat) + message_blocks(
            (n - 1) as usize,
            messages[n - 1],
        )
    }
}

/// The blocks of the tools.
pub open spec fn tools_blocks(tools: Seq<CountedModel>) -> Seq<PendingModel> {
    Seq::new(tools.len(), |i: int| tool_block(tools, i))
}

/// The blocks of the system prompt.
pub open spec fn system_blocks(system: Seq<CountedModel>) -> Seq<PendingModel> {
    Seq::new(system.len(), |i: int| system_block(system, i))
}

/// The cacheable blocks of a request, in the order in which they are fingerprinted.
pub open spec fn request_blocks(request: RequestModel) -> Seq<PendingModel> {
    tools_blocks(request.tools) + system_blocks(request.system) + first_messages_blocks(
        request.messages,
        request.messages.len(),
    )
}

/// The numbers of a message and of its first `n` blocks are those of no other.
pub open spec fn numbers_are_own(message_index: usize, n: nat) -> bool {
    &&& n > 0 ==> is_own_number(message_index)
    &&& forall|i: usize| i < n ==> #[trigger] is_own_number(i)
}

/// The numbers that say where a block of a request stands are those of no other place.
pub open spec fn has_own_numbers(request: RequestModel) -> bool {
    &&& forall|i: usize| i < request.tools.len() ==> #[trigger] is_own_number(i)
    &&& forall|i: usize| i < request.system.len() ==> #[trigger] is_own_number(i)
    &&& forall|m: int|
        0 <= m < request.messages.len() ==> numbers_are_own(
            m as usize,
            blocks_of((#[trigger] request.messages[m]).content).len(),
        )
}

/// Masks the text of a billing header.
pub fn canonicalize_system_block_for_cache(value: &mut Json)
    ensures
        final(value)@ == masked_system_block(old(value)@),
{
    let is_text_block = match value.get("type") {
        Some(Json::String(kind)) => same_text(kind.as_str(), "text"),
        _ => true,
    };
    if !is_text_block {
        return ;
    }
    let is_billing_header = match value.get("text") {
        Some(Json::String(text)) => starts_with(text.as_str(), "x-anthropic-billing-header:"),
        _ => false,
    };
    if !is_billing_header {
        return ;
    }
    if let Json::Object(members) = value {
        add_member(members, "text", Json::String("__anthropic_billing_header__".to_owned()));
    }
}

fn make_tool_block(tool: &Tool, tool_index: usize, last: bool) -> (block: PendingBlock)
    ensures
        block@ == (PendingModel {
            value: tool_value(tool_index, without_cache_control(tool@.value)),
            tokens: tool@.tokens as i32,
            breakpoint_ttl: breakpoint_ttl(cache_ttl(tool@.value), last),
            ttl_is_fallback: false,
            message_index: None,
            is_message_end: false,
        }),
        is_canonical(block.value),
        is_own_number(tool_index),
{
    let mut value = tool.definition.clone();
    let breakpoint_ttl = choose_breakpoint_ttl(extract_cache_ttl(&value), last);
    strip_cache_control(&mut value);
    let mut members: Vec<(String, Json)> = Vec::new();
    add_member(&mut members, "kind", Json::String("tool".to_owned()));
    add_member(&mut members, "tool_index", Json::Number(number_from_usize(tool_index)));
    add_member(&mut members, "tool", value);
    PendingBlock {
        value: canonicalize_json(Json::Object(members)),
        tokens: #[verifier::truncate] (tool.tokens as i32),
        breakpoint_ttl,
        ttl_is_fallback: false,
        message_index: None,
        is_message_end: false,
    }
}

fn make_system_block(system: &SystemMessage, system_index: usize, last: bool) -> (block:
    PendingBlock)
    ensures
        block@ == (PendingModel {
            value: system_value(
                system_index,
                masked_system_block(without_cache_control(system@.value)),
            ),
            tokens: system@.tokens as i32,
            breakpoint_ttl: breakpoint_ttl(cache_ttl(system@.value), last),
            ttl_is_fallback: false,
            message_index: None,
            is_message_end: false,
        }),
        is_canonical(block.value),
        is_own_number(system_index),
{
    let mut value = system.block.clone();
    let breakpoint_ttl = choose_breakpoint_ttl(extract_cache_ttl(&value), last);
    strip_cache_control(&mut value);
    canonicalize_system_block_for_cache(&mut value);
    let mut members: Vec<(String, Json)> = Vec::new();
    add_member(&mut members, "kind", Json::String("system".to_owned()));
    add_member(&mut members, "system_index", Json::Number(number_from_usize(system_index)));
    add_member(&mut members, "block", value);
    PendingBlock {
        value: canonicalize_json(Json::Object(members)),
        tokens: #[verifier::truncate] (system.tokens as i32),
        breakpoint_ttl,
        ttl_is_fallback: false,
        message_index: None,
        is_message_end: false,
    }
}

/// Makes the block of one content block of a message. Its lifetime is one that it asks
/// for, and no fallback.
pub fn build_message_block(
    message_index: usize,
    role: &String,
    block_index: usize,
    block: Json,
    tokens: u64,
    breakpoint_ttl: Option<Duration>,
    is_message_end: bool,
) -> (pending: PendingBlock)
    ensures
        pending@ == (PendingModel {
            value: message_value(message_index, role@, block_index, block@),
            tokens: tokens as i32,
            breakpoint_ttl,
            ttl_is_fallback: false,
            message_index: Some(message_index),
            is_message_end,
        }),
        is_canonical(pending.value),
        is_own_number(message_index),
        is_own_number(block_index),
{
    let mut members: Vec<(String, Json)> = Vec::new();
    add_member(&mut members, "kind", Json::String("message".to_owned()));
    add_member(&mut members, "message_index", Json::Number(number_from_usize(message_index)));
    add_member(&mut members, "role", Json::String(role.clone()));
    add_member(&mut members, "block_index", Json::Number(number_from_usize(block_index)));
    add_member(&mut members, "block", block);
    PendingBlock {
        value: canonicalize_json(Json::Object(members)),
        tokens: #[verifier::truncate] (tokens as i32),
        breakpoint_ttl,
        ttl_is_fallback: false,
        message_index: Some(message_index),
        is_message_end,
    }
}

/// Tells the value of a message block apart as that of a bare text.
fn mark_as_bare_text(value: Json) -> (marked: Json)
    ensures
        marked@ == of_bare_text(value@),
        is_canonical(value) ==> is_canonical(marked),
{
    match value {
        Json::Object(members) => {
            let mut members = members;
            add_member(&mut members, "shape", Json::String("string".to_owned()));
            canonicalize_json(Json::Object(members))
        },
        other => other,
    }
}

/// The blocks of a message.
pub fn flatten_message_blocks(message_index: usize, message: &Message) -> (blocks: Vec<
    PendingBlock,
>)
    ensures
        blocks_hold(blocks@, message_blocks(message_index, message@)),
        numbers_are_own(message_index, blocks@.len()),
{
    let content = message.content();
    let role = message.role();
    let tokens = message.block_tokens();
    let contents = content_blocks(content);
    let count = contents.len();
    let ghost expected = message_blocks(message_index, message@);
    let mut blocks: Vec<PendingBlock> = Vec::new();
    let mut i: usize = 0;
    while i < count
        invariant
            i <= count,
            count == contents@.len(),
            count == tokens@.len(),
            count == expected.len(),
            content@ == message@.content,
            role@ == message@.role,
            tokens@ == message@.block_tokens,
            count == blocks_of(content@).len(),
            expected == message_blocks(message_index, message@),
            forall|j: int|
                0 <= j < count ==> (#[trigger] contents@[j])@ == blocks_of(content@)[j],
            blocks@.len() == i,
            forall|j: int|
                0 <= j < i ==> (#[trigger] blocks@[j])@ == expected[j] && is_canonical(
                    blocks@[j].value,
                ),
            numbers_are_own(message_index, i as nat),
        decreases count - i,
    {
        let last = i == count - 1;
        let marked = match content {
            Json::Array(items) => extract_cache_ttl(&items[i]),
            _ => None,
        };
        let built = build_message_block(
            message_index,
            role,
            i,
            contents[i].clone(),
            tokens[i],
            choose_breakpoint_ttl(marked, last),
            last,
        );
        let value = match content {
            Json::String(_) => mark_as_bare_text(built.value),
            _ => built.value,
        };
        let block = PendingBlock {
            value,
            tokens: built.tokens,
            breakpoint_ttl: built.breakpoint_ttl,
            ttl_is_fallback: marked.is_none() && last,
            message_index: built.message_index,
            is_message_end: built.is_message_end,
        };
        assert(block@ == message_block(message_index, message@, i as int));
        blocks.push(block);
        i = i + 1;
    }
    blocks
}

fn append_blocks(blocks: &mut Vec<PendingBlock>, more: Vec<PendingBlock>, Ghost(models): Ghost<
    Seq<PendingModel>,
>, Ghost(more_models): Ghost<Seq<PendingModel>>)
    requires
        blocks_hold(old(blocks)@, models),
        blocks_hold(more@, more_models),
    ensures
        blocks_hold(final(blocks)@, models + more_models),
{
    let mut more = more;
    let ghost before = blocks@;
    let ghost added = more@;
    blocks.append(&mut more);
    assert forall|i: int| 0 <= i < blocks@.len() implies (#[trigger] blocks@[i])@ == (models
        + more_models)[i] && is_canonical(blocks@[i].value) by {
        if i < before.len() {
            assert(blocks@[i] == before[i]);
        } else {
            assert(blocks@[i] == added[i - before.len()]);
        }
    }
}

/// Flattens a request into its cacheable blocks.
pub fn flatten_cacheable_blocks(payload: &MessagesRequest) -> (blocks: Vec<PendingBlock>)
    ensures
        blocks_hold(blocks@, request_blocks(payload@)),
        has_own_numbers(payload@),
{
    let mut blocks: Vec<PendingBlock> = Vec::new();
    if let Some(tools) = &payload.tools {
        let ghost models = payload@.tools;
        let mut i: usize = 0;
        while i < tools.len()
            invariant
                i <= tools@.len(),
                models.len() == tools@.len(),
                forall|j: int| 0 <= j < tools@.len() ==> models[j] == (#[trigger] tools@[j])@,
                blocks_hold(blocks@, tools_blocks(models).take(i as int)),
                forall|j: usize| j < i ==> #[trigger] is_own_number(j),
            decreases tools@.len() - i,
        {
            let last = i == tools.len() - 1;
            let block = make_tool_block(&tools[i], i, last);
            assert(block@ == tool_block(models, i as int));
            assert(tools_blocks(models).take(i + 1) =~= tools_blocks(models).take(i as int).push(
                tool_block(models, i as int),
            ));
            blocks.push(block);
            i = i + 1;
        }
    }
    assert(tools_blocks(payload@.tools).take(payload@.tools.len() as int) =~= tools_blocks(
        payload@.tools,
    ));
    let ghost front = tools_blocks(payload@.tools);
    assert(front + system_blocks(payload@.system).take(0) =~= front);
    if let Some(system) = &payload.system {
        let ghost models = payload@.system;
        let mut i: usize = 0;
        while i < system.len()
            invariant
                i <= system@.len(),
                models.len() == system@.len(),
                forall|j: int| 0 <= j < system@.len() ==> models[j] == (#[trigger] system@[j])@,
                blocks_hold(blocks@, front + system_blocks(models).take(i as int)),
                forall|j: usize| j < i ==> #[trigger] is_own_number(j),
            decreases system@.len() - i,
        {
            let last = i == system.len() - 1;
            let block = make_system_block(&system[i], i, last);
            assert(block@ == system_block(models, i as int));
            assert(front + system_blocks(models).take(i + 1) =~= (front + system_blocks(
                models,
            ).take(i as int)).push(system_block(models, i as int)));
            blocks.push(block);
            i = i + 1;
        }
    }
    assert(system_blocks(payload@.system).take(payload@.system.len() as int) =~= system_blocks(
        payload@.system,
    ));
    let ghost front = front + system_blocks(payload@.system);
    let ghost models = payload@.messages;
    assert(front + first_messages_blocks(models, 0) =~= front);
    let mut i: usize = 0;
    while i < payload.messages.len()
        invariant
            i <= payload.messages@.len(),
            models == payload@.messages,
            blocks_hold(blocks@, front + first_messages_blocks(models, i as nat)),
            forall|m: int|
                0 <= m < i ==> numbers_are_own(
                    m as usize,
                    blocks_of((#[trigger] models[m]).content).len(),
                ),
        decreases payload.messages@.len() - i,
    {
        let more = flatten_message_blocks(i, &payload.messages[i]);
        append_blocks(
            &mut blocks,
            more,
            Ghost(front + first_messages_blocks(models, i as nat)),
            Ghost(message_blocks(i, models[i as int])),
        );
        assert(front + first_messages_blocks(models, i as nat) + message_blocks(
            i,
            models[i as int],
        ) =~= front + first_messages_blocks(models, (i + 1) as nat));
        i = i + 1;
    }
    blocks
}

} // verus!
