//! What values, markers, requests and profiles mean, said of what they are made of.

use crate::flatten::{
    first_messages_blocks, masked_system_block, message_block, request_blocks, system_block,
    tool_block, PendingModel,
};
use crate::json::{
    items_model, json_model, lemma_members_contain, lemma_members_push, member, members_model,
    without_cache_control, Json, JsonModel,
};
use crate::laws::{law_breakpoints_stand_where_lifetimes_are, lemma_message_block, message_start};
use crate::profile::{
    active_ttl, lemma_breakpoints_in_order, own_ttl, prefix_tokens, ttl_at, CacheBreakpoint,
    ProfileModel, ResolvedBreakpoint,
};
use crate::request::{
    blocks_of, cache_ttl, CountedModel, MessageModel, MessagesRequest, RequestModel,
};
use crate::text::{agree_up_to, bytes_before, key_before};
use crate::time::{Duration, Instant};
use crate::tracker::{request_profile, request_seed};
use vstd::prelude::*;
use vstd::utf8::*;

verus! {

/// Lengths of time and readings count in nanoseconds; of two lengths the shorter one is
/// one of them, and no longer than the other.
pub proof fn law_lengths_of_time(a: Duration, b: Duration, reading: Instant, secs: u64)
    ensures
        a.total() == a.secs * 1_000_000_000 + a.nanos,
        reading.total() == reading.secs * 1_000_000_000 + reading.nanos,
        Duration::from_secs(secs).total() == secs * 1_000_000_000,
        a.shorter(b) == a || a.shorter(b) == b,
        a.shorter(b).total() <= a.total(),
        a.shorter(b).total() <= b.total(),
{
}

/// Keys stand in the order of their UTF-8 bytes: a key stands before what it begins, and
/// otherwise the first byte at which two keys differ decides.
pub proof fn law_keys_stand_in_byte_order(a: Seq<char>, b: Seq<char>, k: int)
    requires
        0 <= k <= encode_utf8(a).len(),
        k <= encode_utf8(b).len(),
        encode_utf8(a).take(k) == encode_utf8(b).take(k),
    ensures
        k == encode_utf8(a).len() && k < encode_utf8(b).len() ==> key_before(a, b) && !key_before(
            b,
            a,
        ),
        k < encode_utf8(a).len() && k < encode_utf8(b).len() && encode_utf8(a)[k] < encode_utf8(
            b,
        )[k] ==> key_before(a, b) && !key_before(b, a),
        !key_before(a, a),
{
    let x = encode_utf8(a);
    let y = encode_utf8(b);
    assert forall|i: int| 0 <= i < k implies x[i] == y[i] by {
        assert(x.take(k)[i] == y.take(k)[i]);
    }
    assert(agree_up_to(x, y, k));
    if bytes_before(y, x) {
        let j = choose|j: int|
            0 <= j <= y.len() && j < x.len() && #[trigger] agree_up_to(y, x, j) && (j == y.len()
                || y[j] < x[j]);
        if j > k {
            assert(y[k] == x[k]);
        }
    }
}

/// What a JSON value means: itself, but that an object is the map from its keys to the
/// values of the members that have them last.
pub proof fn law_values_mean_what_they_say(value: Json)
    ensures
        match value {
            Json::Null => value@ == JsonModel::Null,
            Json::Bool(b) => value@ == JsonModel::Bool(b),
            Json::Number(n) => value@ == JsonModel::Number(n),
            Json::String(s) => value@ == JsonModel::String(s@),
            Json::Array(items) => {
                &&& value@ is Array
                &&& value@->Array_0.len() == items@.len()
                &&& forall|i: int|
                    0 <= i < items@.len() ==> #[trigger] value@->Array_0[i] == items@[i]@
            },
            Json::Object(members) => {
                &&& value@ is Object
                &&& forall|key: Seq<char>| #[trigger]
                    value@->Object_0.contains_key(key) <==> exists|i: int|
                        0 <= i < members@.len() && (#[trigger] members@[i]).0@ == key
                &&& forall|i: int|
                    0 <= i < members@.len() && (forall|j: int|
                        i < j < members@.len() ==> (#[trigger] members@[j]).0@ != members@[i].0@)
                        ==> value@->Object_0[(#[trigger] members@[i]).0@] == members@[i].1@
            },
        },
{
    match value {
        Json::Array(items) => {
            assert forall|i: int| 0 <= i < items@.len() implies #[trigger] value@->Array_0[i]
                == items@[i]@ by {
                assert(items_model(items@)[i] == json_model(items@[i]));
            }
        },
        Json::Object(members) => {
            assert forall|key: Seq<char>| #[trigger]
                value@->Object_0.contains_key(key) <==> exists|i: int|
                0 <= i < members@.len() && (#[trigger] members@[i]).0@ == key by {
                lemma_members_contain(members@, key);
            }
            assert forall|i: int|
                0 <= i < members@.len() && (forall|j: int|
                    i < j < members@.len() ==> (#[trigger] members@[j]).0@
                        != members@[i].0@) implies value@->Object_0[(
            #[trigger] members@[i]).0@] == members@[i].1@ by {
                lemma_last_member_counts(members@, i);
            }
        },
        _ => {},
    }
}

proof fn lemma_last_member_counts(members: Seq<(String, Json)>, i: int)
    requires
        0 <= i < members.len(),
        forall|j: int| i < j < members.len() ==> (#[trigger] members[j]).0@ != members[i].0@,
    ensures
        members_model(members)[members[i].0@] == members[i].1@,
    decreases members.len(),
{
    let front = members.drop_last();
    lemma_members_push(front, members.last());
    assert(front.push(members.last()) =~= members);
    if i < front.len() {
        assert(front[i] == members[i]);
        assert forall|j: int| i < j < front.len() implies (#[trigger] front[j]).0@
            != front[i].0@ by {
            assert(members[j].0@ != members[i].0@);
        }
        lemma_last_member_counts(front, i);
        assert(members[members.len() - 1].0@ != members[i].0@);
    }
}

/// Only an object has members: those that its keys stand for.
pub proof fn law_members_of_values(value: JsonModel, key: Seq<char>)
    ensures
        match value {
            JsonModel::Object(fields) => {
                &&& fields.contains_key(key) ==> member(value, key) == Some(fields[key])
                &&& !fields.contains_key(key) ==> member(value, key) is None
            },
            _ => member(value, key) is None,
        },
{
}

/// No object in the value, at whatever depth, has a member `cache_control`.
pub open spec fn is_free_of_markers(value: JsonModel) -> bool
    decreases value,
{
    match value {
        JsonModel::Array(items) => forall|i: int|
            0 <= i < items.len() ==> is_free_of_markers(#[trigger] items[i]),
        JsonModel::Object(fields) => {
            &&& !fields.contains_key("cache_control"@)
            &&& forall|key: Seq<char>| #[trigger]
                fields.contains_key(key) ==> is_free_of_markers(fields[key])
        },
        _ => true,
    }
}

/// Taking the markers out leaves none, and changes no value that has none.
pub proof fn law_stripping_takes_all_markers_and_nothing_else(value: JsonModel)
    ensures
        is_free_of_markers(without_cache_control(value)),
        is_free_of_markers(value) ==> without_cache_control(value) == value,
    decreases value,
{
    let stripped = without_cache_control(value);
    match value {
        JsonModel::Array(items) => {
            let after = stripped->Array_0;
            assert forall|i: int| 0 <= i < items.len() implies is_free_of_markers(
                #[trigger] after[i],
            ) && (is_free_of_markers(items[i]) ==> after[i] == items[i]) by {
                law_stripping_takes_all_markers_and_nothing_else(items[i]);
            }
            if is_free_of_markers(value) {
                assert(after =~= items);
            }
        },
        JsonModel::Object(fields) => {
            let after = stripped->Object_0;
            assert forall|key: Seq<char>| #[trigger]
                after.contains_key(key) implies is_free_of_markers(after[key]) && (
            is_free_of_markers(fields[key]) ==> after[key] == fields[key]) by {
                law_stripping_takes_all_markers_and_nothing_else(fields[key]);
            }
            if is_free_of_markers(value) {
                assert(after =~= fields);
            }
        },
        _ => {},
    }
}

/// A marker has no part in the value without markers, every other member of an object
/// has its own, and so has every item of an array.
pub proof fn law_stripping_goes_member_by_member(
    fields: Map<Seq<char>, JsonModel>,
    items: Seq<JsonModel>,
    key: Seq<char>,
    value: JsonModel,
)
    ensures
        ({
            let before = without_cache_control(JsonModel::Object(fields));
            let after = without_cache_control(JsonModel::Object(fields.insert(key, value)));
            &&& before is Object
            &&& key == "cache_control"@ ==> after == before
            &&& key != "cache_control"@ ==> after == JsonModel::Object(
                before->Object_0.insert(key, without_cache_control(value)),
            )
        }),
        ({
            let before = without_cache_control(JsonModel::Array(items));
            let after = without_cache_control(JsonModel::Array(items.push(value)));
            &&& before is Array
            &&& after == JsonModel::Array(before->Array_0.push(without_cache_control(value)))
        }),
{
    let before = without_cache_control(JsonModel::Object(fields))->Object_0;
    let after = without_cache_control(JsonModel::Object(fields.insert(key, value)))->Object_0;
    if key == "cache_control"@ {
        assert(after =~= before);
    } else {
        assert(after =~= before.insert(key, without_cache_control(value)));
    }
    let short = without_cache_control(JsonModel::Array(items))->Array_0;
    let long = without_cache_control(JsonModel::Array(items.push(value)))->Array_0;
    assert(long =~= short.push(without_cache_control(value)));
}

/// What the marker of a value asks for: five minutes if its `type` is `ephemeral`, and an
/// hour if moreover its `ttl` is `1h`. A `ttl` may be missing or null, but no value other
/// than a text. A marker can also be the two values in an array.
pub proof fn law_markers_ask_for_lifetimes(value: JsonModel)
    ensures
        ({
            let five_minutes = Some(Duration { secs: 300, nanos: 0 });
            let one_hour = Some(Duration { secs: 3600, nanos: 0 });
            match value {
                JsonModel::Object(fields) => if !fields.contains_key("cache_control"@) {
                    cache_ttl(value) is None
                } else {
                    match fields["cache_control"@] {
                        JsonModel::Object(marker) => {
                            let ephemeral = marker.contains_key("type"@) && marker["type"@]
                                == JsonModel::String("ephemeral"@);
                            let no_ttl = !marker.contains_key("ttl"@) || marker["ttl"@] is Null;
                            &&& !ephemeral ==> cache_ttl(value) is None
                            &&& ephemeral && no_ttl ==> cache_ttl(value) == five_minutes
                            &&& ephemeral && !no_ttl && marker["ttl"@] == JsonModel::String(
                                "1h"@,
                            ) ==> cache_ttl(value) == one_hour
                            &&& ephemeral && !no_ttl && marker["ttl"@] is String && marker["ttl"@]
                                != JsonModel::String("1h"@) ==> cache_ttl(value) == five_minutes
                            &&& ephemeral && !no_ttl && !(marker["ttl"@] is String) ==> cache_ttl(
                                value,
                            ) is None
                        },
                        JsonModel::Array(marker) => {
                            let ephemeral = marker.len() == 2 && marker[0] == JsonModel::String(
                                "ephemeral"@,
                            );
                            &&& !ephemeral ==> cache_ttl(value) is None
                            &&& ephemeral && marker[1] is Null ==> cache_ttl(value)
                                == five_minutes
                            &&& ephemeral && marker[1] == JsonModel::String("1h"@) ==> cache_ttl(
                                value,
                            ) == one_hour
                            &&& ephemeral && marker[1] is String && marker[1]
                                != JsonModel::String("1h"@) ==> cache_ttl(value) == five_minutes
                            &&& ephemeral && !(marker[1] is Null) && !(marker[1] is String)
                                ==> cache_ttl(value) is None
                        },
                        _ => cache_ttl(value) is None,
                    }
                },
                _ => cache_ttl(value) is None,
            }
        }),
{
}

/// A system block keeps what it says when it is fingerprinted, unless it is an object
/// whose `type` is `text`, or no text at all, and whose `text` begins with the name of
/// the billing header. Then another text stands in its place, the same for all of them,
/// and the other members stay.
pub proof fn law_only_billing_headers_lose_their_text(value: JsonModel)
    ensures
        match value {
            JsonModel::Object(fields) => {
                let other_type = fields.contains_key("type"@) && fields["type"@] is String
                    && fields["type"@] != JsonModel::String("text"@);
                let header = fields.contains_key("text"@) && fields["text"@] is String
                    && "x-anthropic-billing-header:"@.is_prefix_of(fields["text"@]->String_0);
                &&& other_type || !header ==> masked_system_block(value) == value
                &&& !other_type && header ==> masked_system_block(value) == JsonModel::Object(
                    fields.insert("text"@, JsonModel::String("__anthropic_billing_header__"@)),
                )
            },
            _ => masked_system_block(value) == value,
        },
{
}

/// A request is seen as it is: every tool, system block and message in its order, with
/// its token count.
pub proof fn law_requests_are_seen_whole(request: MessagesRequest)
    ensures
        request@.model == request.model@,
        match request.tools {
            Some(tools) => {
                &&& request@.tools.len() == tools@.len()
                &&& forall|i: int|
                    0 <= i < tools@.len() ==> (#[trigger] request@.tools[i]).value
                        == tools@[i].definition@ && request@.tools[i].tokens == tools@[i].tokens
            },
            None => request@.tools.len() == 0,
        },
        match request.system {
            Some(system) => {
                &&& request@.system.len() == system@.len()
                &&& forall|i: int|
                    0 <= i < system@.len() ==> (#[trigger] request@.system[i]).value
                        == system@[i].block@ && request@.system[i].tokens == system@[i].tokens
            },
            None => request@.system.len() == 0,
        },
        request@.messages.len() == request.messages@.len(),
        forall|i: int|
            0 <= i < request.messages@.len() ==> #[trigger] request@.messages[i]
                == request.messages@[i]@,
        match request.tool_choice {
            Some(choice) => request@.tool_choice == choice@,
            None => request@.tool_choice == JsonModel::Null,
        },
{
}

/// How many blocks a content has: the items of an array, else one.
pub open spec fn block_count(content: JsonModel) -> nat {
    match content {
        JsonModel::Array(items) => items.len(),
        _ => 1,
    }
}

/// The blocks of a content: a text is one block of the type `text` with that text, the
/// items of an array are the blocks, without their markers, and any other value is one
/// block as it is.
pub proof fn law_contents_are_taken_block_by_block(content: JsonModel, i: int)
    requires
        0 <= i < block_count(content),
    ensures
        blocks_of(content).len() == block_count(content),
        match content {
            JsonModel::String(text) => {
                let block = blocks_of(content)[0];
                &&& block is Object
                &&& forall|key: Seq<char>| #[trigger]
                    block->Object_0.contains_key(key) <==> key == "type"@ || key == "text"@
                &&& block->Object_0["type"@] == JsonModel::String("text"@)
                &&& block->Object_0["text"@] == JsonModel::String(text)
            },
            JsonModel::Array(items) => blocks_of(content)[i] == without_cache_control(items[i]),
            _ => blocks_of(content)[0] == content,
        },
{
    reveal_strlit("type");
    reveal_strlit("text");
    assert("type"@[1] != "text"@[1]);
}

/// How many blocks stand before the message `m`: the tools, the system blocks, and the
/// blocks of the messages before it.
pub open spec fn start_of(request: RequestModel, m: int) -> nat
    decreases m,
{
    if m <= 0 {
        request.tools.len() + request.system.len()
    } else {
        start_of(request, m - 1) + block_count(request.messages[m - 1].content)
    }
}

/// The blocks of a message begin where those before it end.
pub proof fn lemma_start(request: RequestModel, m: int)
    requires
        0 <= m,
    ensures
        start_of(request, m) == message_start(request, m),
    decreases m,
{
    if m > 0 {
        lemma_start(request, m - 1);
        lemma_block_count(request.messages[m - 1].content);
    }
}

/// The content blocks are as many as the content has.
pub proof fn lemma_block_count(content: JsonModel)
    ensures
        blocks_of(content).len() == block_count(content),
{
}

/// A profile has one fingerprint and one count for each tool, each system block and each
/// content block of the messages.
pub proof fn law_profiles_have_every_block(request: RequestModel, max_ttl: Duration, total: i32)
    requires
        request_blocks(request).len() <= usize::MAX,
    ensures
        request_profile(request, max_ttl, total).blocks.len() == start_of(
            request,
            request.messages.len() as int,
        ),
{
    lemma_start(request, request.messages.len() as int);
    lemma_breakpoints_in_order(request_blocks(request), max_ttl, request_blocks(request).len());
}

/// The token counts of the first `n` messages, block by block.
pub open spec fn message_counts(messages: Seq<MessageModel>, n: nat) -> Seq<u64>
    decreases n,
{
    if n == 0 {
        Seq::empty()
    } else {
        message_counts(messages, (n - 1) as nat) + messages[n - 1].block_tokens
    }
}

/// The token counts of a request: of the tools, of the system blocks, and of the content
/// blocks of the messages.
pub open spec fn token_counts(request: RequestModel) -> Seq<u64> {
    request.tools.map_values(|tool: CountedModel| tool.tokens) + request.system.map_values(
        |block: CountedModel| block.tokens,
    ) + message_counts(request.messages, request.messages.len())
}

/// The sum of the first `n` of some counts.
pub open spec fn sum_of(counts: Seq<u64>, n: nat) -> nat
    decreases n,
{
    if n == 0 {
        0
    } else {
        sum_of(counts, (n - 1) as nat) + counts[n - 1] as nat
    }
}

proof fn lemma_message_counts(messages: Seq<MessageModel>, n: nat)
    requires
        n <= messages.len(),
        forall|m: int| 0 <= m < messages.len() ==> (#[trigger] messages[m]).wf(),
    ensures
        message_counts(messages, n).len() == first_messages_blocks(messages, n).len(),
        forall|i: int|
            0 <= i < message_counts(messages, n).len() ==> (
            #[trigger] first_messages_blocks(messages, n)[i]).tokens == message_counts(
                messages,
                n,
            )[i] as i32,
    decreases n,
{
    if n > 0 {
        lemma_message_counts(messages, (n - 1) as nat);
        assert(messages[n - 1].wf());
        let before = first_messages_blocks(messages, (n - 1) as nat);
        let blocks = first_messages_blocks(messages, n);
        let counts = message_counts(messages, n);
        assert forall|i: int| 0 <= i < counts.len() implies (#[trigger] blocks[i]).tokens
            == counts[i] as i32 by {
            if i < before.len() {
                assert(blocks[i] == before[i]);
                assert(counts[i] == message_counts(messages, (n - 1) as nat)[i]);
            } else {
                assert(blocks[i] == message_block(
                    (n - 1) as usize,
                    messages[n - 1],
                    i - before.len(),
                ));
            }
        }
    }
}

proof fn lemma_block_tokens(request: RequestModel)
    requires
        forall|m: int| 0 <= m < request.messages.len() ==> (#[trigger] request.messages[m]).wf(),
    ensures
        token_counts(request).len() == request_blocks(request).len(),
        forall|i: int|
            0 <= i < request_blocks(request).len() ==> (
            #[trigger] request_blocks(request)[i]).tokens == token_counts(request)[i] as i32,
{
    let t = request.tools.len();
    let front = t + request.system.len();
    let messages = request.messages;
    lemma_message_counts(messages, messages.len());
    let blocks = request_blocks(request);
    let counts = token_counts(request);
    let tail = first_messages_blocks(messages, messages.len());
    assert forall|i: int| 0 <= i < blocks.len() implies (#[trigger] blocks[i]).tokens
        == counts[i] as i32 by {
        if i < t {
            assert(blocks[i] == tool_block(request.tools, i));
        } else if i < front {
            assert(blocks[i] == system_block(request.system, i - t));
        } else {
            assert(blocks[i] == tail[i - front]);
            assert(counts[i] == message_counts(messages, messages.len())[i - front]);
        }
    }
}

proof fn lemma_prefix_sum(blocks: Seq<PendingModel>, counts: Seq<u64>, n: nat)
    requires
        n <= blocks.len() == counts.len(),
        forall|i: int|
            0 <= i < blocks.len() ==> (#[trigger] blocks[i]).tokens == counts[i] as i32,
        forall|i: int| 0 <= i < counts.len() ==> #[trigger] counts[i] <= i32::MAX,
    ensures
        sum_of(counts, n) <= i32::MAX ==> prefix_tokens(blocks, n) == sum_of(counts, n),
        sum_of(counts, n) > i32::MAX ==> prefix_tokens(blocks, n) == i32::MAX,
    decreases n,
{
    if n > 0 {
        lemma_prefix_sum(blocks, counts, (n - 1) as nat);
        assert(counts[n - 1] <= i32::MAX);
        assert(blocks[n - 1].tokens == counts[n - 1]);
    }
}

/// The count at a breakpoint is the sum of the token counts of all blocks up to it, or
/// the greatest `i32` where the sum is beyond that. At the last breakpoint it is the
/// total of the request where that is more.
pub proof fn law_counts_are_sums(request: RequestModel, max_ttl: Duration, total: i32, k: int)
    requires
        request_blocks(request).len() <= usize::MAX,
        forall|m: int|
            0 <= m < request.messages.len() ==> (
            #[trigger] request.messages[m]).block_tokens.len() == block_count(
                request.messages[m].content,
            ),
        forall|i: int|
            0 <= i < token_counts(request).len() ==> #[trigger] token_counts(request)[i]
                <= i32::MAX,
        0 <= k < request_profile(request, max_ttl, total).breakpoints.len(),
    ensures
        ({
            let profile = request_profile(request, max_ttl, total);
            let at = profile.breakpoints[k].block_index;
            let sum = sum_of(token_counts(request), (at + 1) as nat);
            let natural = if sum <= i32::MAX {
                sum as int
            } else {
                i32::MAX as int
            };
            let count = profile.blocks[at as int].cumulative_tokens;
            &&& profile.total == if total > 0 {
                total
            } else {
                0
            }
            &&& k < profile.breakpoints.len() - 1 ==> count == natural
            &&& k == profile.breakpoints.len() - 1 ==> count == if natural >= profile.total {
                natural
            } else {
                profile.total as int
            }
        }),
{
    let profile = request_profile(request, max_ttl, total);
    let blocks = request_blocks(request);
    let last = profile.breakpoints.len() - 1;
    let at = profile.breakpoints[k].block_index;
    assert forall|m: int| 0 <= m < request.messages.len() implies (
    #[trigger] request.messages[m]).wf() by {
        lemma_block_count(request.messages[m].content);
    }
    lemma_block_tokens(request);
    lemma_breakpoints_in_order(blocks, max_ttl, blocks.len());
    lemma_prefix_sum(blocks, token_counts(request), (at + 1) as nat);
    if k < last {
        assert(at < profile.breakpoints[last].block_index);
    }
}

/// A profile has the total of its request, no less than zero, and its last breakpoint
/// counts no less than that.
pub proof fn law_the_last_breakpoint_covers_the_total(
    request: RequestModel,
    max_ttl: Duration,
    total: i32,
)
    requires
        request_blocks(request).len() <= usize::MAX,
    ensures
        ({
            let profile = request_profile(request, max_ttl, total);
            let last = profile.breakpoints.len() - 1;
            &&& profile.total == if total > 0 {
                total
            } else {
                0
            }
            &&& last >= 0
                ==> profile.blocks[profile.breakpoints[last].block_index as int].cumulative_tokens
                >= profile.total
        }),
{
    let blocks = request_blocks(request);
    lemma_breakpoints_in_order(blocks, max_ttl, blocks.len());
}

/// The breakpoints that a profile hands out are its breakpoints, in order, each with the
/// count at its block; the last one is the last of them.
pub proof fn law_breakpoints_are_handed_out(profile: ProfileModel, k: int)
    requires
        0 <= k < profile.breakpoints.len(),
    ensures
        ({
            let at = profile.breakpoints[k].block_index;
            let handed_out = ResolvedBreakpoint {
                block_index: at,
                cumulative_tokens: profile.blocks[at as int].cumulative_tokens,
                ttl: profile.breakpoints[k].ttl,
            };
            &&& profile.resolved_breakpoints().len() == profile.breakpoints.len()
            &&& profile.resolved_breakpoints()[k] == handed_out
            &&& k == profile.breakpoints.len() - 1 ==> profile.last_breakpoint() == Some(
                handed_out,
            )
        }),
{
}

/// The profile has a breakpoint at the block, and it has the lifetime.
pub open spec fn has_breakpoint(profile: ProfileModel, at: int, ttl: Duration) -> bool {
    exists|k: int|
        0 <= k < profile.breakpoints.len() && (#[trigger] profile.breakpoints[k]).block_index == at
            && profile.breakpoints[k].ttl == ttl
}

/// The profile has no breakpoint at the block.
pub open spec fn has_no_breakpoint(profile: ProfileModel, at: int) -> bool {
    forall|k: int|
        0 <= k < profile.breakpoints.len() ==> (#[trigger] profile.breakpoints[k]).block_index
            != at
}

/// What a member of a list asks for: the lifetime of its marker, or five minutes where it
/// has none and is the last of the list.
pub open spec fn asked_in_list(list: Seq<CountedModel>, i: int) -> Option<Duration> {
    if cache_ttl(list[i].value) is Some {
        cache_ttl(list[i].value)
    } else if i == list.len() - 1 {
        Some(Duration { secs: 300, nanos: 0 })
    } else {
        None
    }
}

/// What the marker of a content block asks for; only the items of an array have markers.
pub open spec fn asked_in_content(content: JsonModel, i: int) -> Option<Duration> {
    match content {
        JsonModel::Array(items) => cache_ttl(items[i]),
        _ => None,
    }
}

/// What the latest marker among the first `n` blocks of a content asks for.
pub open spec fn latest_in_content(content: JsonModel, n: nat) -> Option<Duration>
    decreases n,
{
    if n == 0 {
        None
    } else if asked_in_content(content, n - 1) is Some {
        asked_in_content(content, n - 1)
    } else {
        latest_in_content(content, (n - 1) as nat)
    }
}

/// What the latest marker before the message `m` asks for; before the messages, what the
/// end of the system prompt asks for, else what the end of the tools does.
pub open spec fn latest_before(request: RequestModel, m: int) -> Option<Duration>
    decreases m,
{
    if m > 0 {
        let content = request.messages[m - 1].content;
        let latest = latest_in_content(content, block_count(content));
        if latest is Some {
            latest
        } else {
            latest_before(request, m - 1)
        }
    } else if request.system.len() > 0 {
        asked_in_list(request.system, request.system.len() - 1)
    } else if request.tools.len() > 0 {
        asked_in_list(request.tools, request.tools.len() - 1)
    } else {
        None
    }
}

proof fn lemma_breakpoint(request: RequestModel, max_ttl: Duration, total: i32, at: int)
    requires
        0 <= at < request_blocks(request).len() <= usize::MAX,
    ensures
        match ttl_at(request_blocks(request), max_ttl, at) {
            Some(ttl) => has_breakpoint(request_profile(request, max_ttl, total), at, ttl),
            None => has_no_breakpoint(request_profile(request, max_ttl, total), at),
        },
{
    let blocks = request_blocks(request);
    let profile = request_profile(request, max_ttl, total);
    law_breakpoints_stand_where_lifetimes_are(
        request_seed(request),
        blocks,
        max_ttl,
        total,
        at,
    );
    if let Some(ttl) = ttl_at(blocks, max_ttl, at) {
        let k = choose|k: int|
            0 <= k < profile.breakpoints.len() && #[trigger] profile.breakpoints[k] == (
            CacheBreakpoint { block_index: at as usize, ttl });
        assert(profile.breakpoints[k].block_index == at);
    }
}

/// Every block of a request has the token count of what it stands for, and says whether
/// it belongs to a message, to which one, and whether it is the last of it.
pub proof fn law_blocks_say_what_they_stand_for(request: RequestModel, m: int, i: int)
    ensures
        0 <= i < request.tools.len() ==> {
            let block = request_blocks(request)[i];
            &&& block.tokens == request.tools[i].tokens as i32
            &&& block.message_index is None
            &&& !block.is_message_end
        },
        0 <= i < request.system.len() ==> {
            let block = request_blocks(request)[request.tools.len() + i];
            &&& block.tokens == request.system[i].tokens as i32
            &&& block.message_index is None
            &&& !block.is_message_end
        },
        0 <= m < request.messages.len() && 0 <= i < block_count(request.messages[m].content) ==> {
            let block = request_blocks(request)[start_of(request, m) + i];
            &&& block.tokens == request.messages[m].block_tokens[i] as i32
            &&& block.message_index == Some(m as usize)
            &&& block.is_message_end <==> i == block_count(request.messages[m].content) - 1
        },
{
    if 0 <= i < request.tools.len() {
        assert(request_blocks(request)[i] == tool_block(request.tools, i));
    }
    if 0 <= i < request.system.len() {
        assert(request_blocks(request)[request.tools.len() + i] == system_block(
            request.system,
            i,
        ));
    }
    if 0 <= m < request.messages.len() && 0 <= i < block_count(request.messages[m].content) {
        lemma_start(request, m);
        lemma_block_count(request.messages[m].content);
        lemma_message_block(request, m, i);
    }
}

/// Every tool whose marker asks for a lifetime is a breakpoint with that lifetime,
/// wherever it stands, and the last tool is one with five minutes if it has no marker. No
/// lifetime is longer than the longest that is supported. There is no breakpoint at other
/// tools.
pub proof fn law_breakpoints_at_tools(
    request: RequestModel,
    max_ttl: Duration,
    total: i32,
    i: int,
)
    requires
        request_blocks(request).len() <= usize::MAX,
        0 <= i < request.tools.len(),
    ensures
        match asked_in_list(request.tools, i) {
            Some(ttl) => has_breakpoint(
                request_profile(request, max_ttl, total),
                i,
                ttl.shorter(max_ttl),
            ),
            None => has_no_breakpoint(request_profile(request, max_ttl, total), i),
        },
{
    assert(request_blocks(request)[i] == tool_block(request.tools, i));
    lemma_breakpoint(request, max_ttl, total, i);
}

/// Every system block whose marker asks for a lifetime is a breakpoint with that
/// lifetime, wherever it stands, and the last one is one with five minutes if it has no
/// marker. There is no breakpoint at other system blocks.
pub proof fn law_breakpoints_at_system_blocks(
    request: RequestModel,
    max_ttl: Duration,
    total: i32,
    i: int,
)
    requires
        request_blocks(request).len() <= usize::MAX,
        0 <= i < request.system.len(),
    ensures
        ({
            let profile = request_profile(request, max_ttl, total);
            let at = request.tools.len() + i;
            match asked_in_list(request.system, i) {
                Some(ttl) => has_breakpoint(profile, at, ttl.shorter(max_ttl)),
                None => has_no_breakpoint(profile, at),
            }
        }),
{
    let at = request.tools.len() + i;
    assert(request_blocks(request)[at] == system_block(request.system, i));
    lemma_breakpoint(request, max_ttl, total, at);
}

proof fn lemma_latest_in_content(
    request: RequestModel,
    max_ttl: Duration,
    m: int,
    n: nat,
)
    requires
        0 <= m < request.messages.len(),
        n <= block_count(request.messages[m].content),
    ensures
        active_ttl(request_blocks(request), max_ttl, (start_of(request, m) + n) as nat) == match (
        latest_in_content(request.messages[m].content, n)) {
            Some(ttl) => Some(ttl.shorter(max_ttl)),
            None => match latest_before(request, m) {
                Some(ttl) => Some(ttl.shorter(max_ttl)),
                None => None,
            },
        },
    decreases m, n,
{
    let content = request.messages[m].content;
    lemma_start(request, m);
    lemma_block_count(content);
    if n > 0 {
        lemma_latest_in_content(request, max_ttl, m, (n - 1) as nat);
        lemma_message_block(request, m, n - 1);
    } else if m > 0 {
        let before = request.messages[m - 1].content;
        lemma_latest_in_content(request, max_ttl, m - 1, block_count(before));
    } else {
        lemma_latest_in_lists(request, max_ttl);
    }
}

proof fn lemma_latest_in_lists(request: RequestModel, max_ttl: Duration)
    ensures
        active_ttl(
            request_blocks(request),
            max_ttl,
            request.tools.len() + request.system.len(),
        ) == match latest_before(request, 0) {
            Some(ttl) => Some(ttl.shorter(max_ttl)),
            None => None,
        },
{
    let blocks = request_blocks(request);
    let t = request.tools.len();
    let y = request.system.len();
    if y > 0 {
        assert(blocks[t + y - 1] == system_block(request.system, y - 1));
        assert(own_ttl(blocks, max_ttl, t + y - 1) is Some);
    } else if t > 0 {
        assert(blocks[t - 1] == tool_block(request.tools, t - 1));
        assert(own_ttl(blocks, max_ttl, t - 1) is Some);
    }
}

/// Every content block whose marker asks for a lifetime is a breakpoint with that
/// lifetime, wherever it stands, and so is the end of every message: without a marker of
/// its own with the lifetime that was asked for last before it, or with five minutes if
/// none was asked for. There is no breakpoint at other content blocks.
pub proof fn law_breakpoints_at_messages(
    request: RequestModel,
    max_ttl: Duration,
    total: i32,
    m: int,
    i: int,
)
    requires
        request_blocks(request).len() <= usize::MAX,
        0 <= m < request.messages.len(),
        0 <= i < block_count(request.messages[m].content),
    ensures
        ({
            let profile = request_profile(request, max_ttl, total);
            let content = request.messages[m].content;
            let at = start_of(request, m) + i;
            let latest = latest_in_content(content, i as nat);
            match asked_in_content(content, i) {
                Some(ttl) => has_breakpoint(profile, at, ttl.shorter(max_ttl)),
                None => if i < block_count(content) - 1 {
                    has_no_breakpoint(profile, at)
                } else if latest is Some {
                    has_breakpoint(profile, at, latest->0.shorter(max_ttl))
                } else if latest_before(request, m) is Some {
                    has_breakpoint(profile, at, latest_before(request, m)->0.shorter(max_ttl))
                } else {
                    has_breakpoint(
                        profile,
                        at,
                        Duration { secs: 300, nanos: 0 }.shorter(max_ttl),
                    )
                },
            }
        }),
{
    let content = request.messages[m].content;
    let at = start_of(request, m) + i;
    lemma_start(request, m);
    lemma_block_count(content);
    lemma_message_block(request, m, i);
    lemma_latest_in_content(request, max_ttl, m, i as nat);
    lemma_breakpoint(request, max_ttl, total, at);
}

/// The breakpoints of a request stand in the order of their blocks, each at a block of
/// its own.
pub proof fn law_breakpoints_stand_in_order(
    request: RequestModel,
    max_ttl: Duration,
    total: i32,
    j: int,
    k: int,
)
    requires
        request_blocks(request).len() <= usize::MAX,
        0 <= j < k < request_profile(request, max_ttl, total).breakpoints.len(),
    ensures
        ({
            let profile = request_profile(request, max_ttl, total);
            profile.breakpoints[j].block_index < profile.breakpoints[k].block_index
                < profile.blocks.len()
        }),
{
    let blocks = request_blocks(request);
    lemma_breakpoints_in_order(blocks, max_ttl, blocks.len());
}

} // verus!
