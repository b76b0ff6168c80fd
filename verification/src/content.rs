//! What fingerprints say of the content of a request: which content they bind, and which
//! content the cache therefore reads.

use crate::encode::is_own_number;
use crate::flatten::{
    has_own_numbers, masked_system_block, message_block, numbers_are_own, request_blocks,
    system_block, tool_block,
};
use crate::json::{member, without_cache_control, JsonModel};
use crate::laws::{
    law_hit_is_the_latest_of_the_last_ten, law_same_content_has_the_same_fingerprints,
    lemma_message_block, same_content,
};
use crate::meaning::{
    block_count, law_profiles_have_every_block, lemma_block_count, lemma_start, start_of,
};
use crate::prefixes::{
    digests_differ, kind_of, law_a_text_differs_from_other_shapes,
    law_equal_fingerprints_mean_equal_prefixes, law_only_equal_prefixes_are_read, lemma_kinds,
    lemma_locate, lemma_numbers, lemma_profile_fingerprints, lemma_same_beginning, recorded_alone,
};
use crate::profile::prefix_fingerprint;
use crate::request::{blocks_of, CountedModel, MessageModel, RequestModel};
use crate::store::{entries_of, hit, live};
use crate::time::Duration;
use crate::tracker::{has_own_texts, request_profile, request_seed};
use vstd::prelude::*;

verus! {

/// Two tools have blocks of the same value only if they are the same but for markers.
pub proof fn law_equal_tool_blocks_are_of_equal_tools(
    a: Seq<CountedModel>,
    i: int,
    b: Seq<CountedModel>,
    j: int,
)
    requires
        tool_block(a, i).value == tool_block(b, j).value,
    ensures
        without_cache_control(a[i].value) == without_cache_control(b[j].value),
{
    assert(member(tool_block(a, i).value, "tool"@) == Some(without_cache_control(a[i].value)));
    assert(member(tool_block(b, j).value, "tool"@) == Some(without_cache_control(b[j].value)));
}

/// Two system blocks have blocks of the same value only if they are the same but for
/// markers and for what billing headers say.
pub proof fn law_equal_system_blocks_are_of_equal_blocks(
    a: Seq<CountedModel>,
    i: int,
    b: Seq<CountedModel>,
    j: int,
)
    requires
        system_block(a, i).value == system_block(b, j).value,
    ensures
        masked_system_block(without_cache_control(a[i].value)) == masked_system_block(
            without_cache_control(b[j].value),
        ),
{
    assert(member(system_block(a, i).value, "block"@) == Some(
        masked_system_block(without_cache_control(a[i].value)),
    ));
    assert(member(system_block(b, j).value, "block"@) == Some(
        masked_system_block(without_cache_control(b[j].value)),
    ));
}

/// The content block `i` of one message says the same as the content block `j` of
/// another: the roles are the same, and so are the texts, the items of arrays but for
/// markers, or the contents of other kinds. A text is no item of an array.
pub open spec fn says_the_same(a: MessageModel, i: int, b: MessageModel, j: int) -> bool {
    &&& a.role == b.role
    &&& match (a.content, b.content) {
        (JsonModel::String(x), JsonModel::String(y)) => x == y,
        (JsonModel::String(_), _) => false,
        (_, JsonModel::String(_)) => false,
        (JsonModel::Array(x), JsonModel::Array(y)) => without_cache_control(x[i])
            == without_cache_control(y[j]),
        (JsonModel::Array(x), y) => without_cache_control(x[i]) == y,
        (x, JsonModel::Array(y)) => x == without_cache_control(y[j]),
        (x, y) => x == y,
    }
}

/// Two content blocks have blocks of the same value only if they say the same.
pub proof fn law_equal_message_blocks_say_the_same(
    m: usize,
    a: MessageModel,
    i: int,
    n: usize,
    b: MessageModel,
    j: int,
)
    requires
        0 <= i < block_count(a.content),
        0 <= j < block_count(b.content),
        message_block(m, a, i).value == message_block(n, b, j).value,
    ensures
        says_the_same(a, i, b, j),
{
    if a.content is String && !(b.content is String) {
        law_a_text_differs_from_other_shapes(m, a, i, n, b, j);
    }
    if b.content is String && !(a.content is String) {
        law_a_text_differs_from_other_shapes(n, b, j, m, a, i);
    }
    let x = blocks_of(a.content)[i];
    let y = blocks_of(b.content)[j];
    lemma_role_and_block(m, a, i);
    lemma_role_and_block(n, b, j);
    assert(x == y);
    if a.content is String {
        assert(member(x, "text"@) == Some(a.content));
        assert(member(y, "text"@) == Some(b.content));
    }
}

proof fn lemma_role_and_block(m: usize, message: MessageModel, i: int)
    ensures
        member(message_block(m, message, i).value, "role"@) == Some(
            JsonModel::String(message.role),
        ),
        member(message_block(m, message, i).value, "block"@) == Some(
            blocks_of(message.content)[i],
        ),
{
    reveal_strlit("role");
    reveal_strlit("block");
    reveal_strlit("shape");
    reveal_strlit("block_index");
    assert("role"@.len() == 4 && "block"@.len() == 5 && "shape"@.len() == 5);
    assert("block_index"@.len() == 11);
    assert("block"@[0] != "shape"@[0]);
}

/// The two profiles have a fingerprint in common, at the blocks `x` and `y`.
pub open spec fn share_a_fingerprint(
    a: RequestModel,
    x: int,
    b: RequestModel,
    y: int,
    max_ttl: Duration,
) -> bool {
    &&& 0 <= x < request_blocks(a).len()
    &&& 0 <= y < request_blocks(b).len()
    &&& request_profile(a, max_ttl, 0).blocks[x].prefix_fingerprint == request_profile(
        b,
        max_ttl,
        0,
    ).blocks[y].prefix_fingerprint
}

/// What must hold of two requests for their fingerprints to be compared: their texts and
/// numbers are their own, and SHA-256 has no collision on what is digested for them.
pub open spec fn can_be_compared(a: RequestModel, b: RequestModel) -> bool {
    &&& has_own_texts(a)
    &&& has_own_texts(b)
    &&& has_own_numbers(a)
    &&& has_own_numbers(b)
    &&& digests_differ(a, b)
    &&& request_blocks(a).len() <= usize::MAX
    &&& request_blocks(b).len() <= usize::MAX
    &&& a.messages.len() <= usize::MAX
    &&& b.messages.len() <= usize::MAX
}

proof fn lemma_values_agree(
    a: RequestModel,
    x: int,
    b: RequestModel,
    y: int,
    max_ttl: Duration,
)
    requires
        can_be_compared(a, b),
        share_a_fingerprint(a, x, b, y, max_ttl),
    ensures
        x == y,
        a.model == b.model,
        a.tool_choice == b.tool_choice,
        forall|k: int|
            0 <= k <= x ==> (#[trigger] request_blocks(a)[k]).value == request_blocks(b)[k].value,
{
    lemma_profile_fingerprints(a, max_ttl, 0);
    lemma_profile_fingerprints(b, max_ttl, 0);
    law_equal_fingerprints_mean_equal_prefixes(a, x as nat, b, y as nat);
}

spec fn kind_at(request: RequestModel, k: int) -> Option<JsonModel> {
    kind_of(request_blocks(request)[k].value)
}

proof fn lemma_kind_at(request: RequestModel, k: int)
    requires
        0 <= k < request_blocks(request).len(),
    ensures
        k < request.tools.len() <==> kind_at(request, k) == Some(JsonModel::String("tool"@)),
        request.tools.len() <= k < request.tools.len() + request.system.len() <==> kind_at(
            request,
            k,
        ) == Some(JsonModel::String("system"@)),
{
    let t = request.tools.len();
    let front = t + request.system.len();
    lemma_kinds();
    if k < t {
        assert(request_blocks(request)[k] == tool_block(request.tools, k));
    } else if k < front {
        assert(request_blocks(request)[k] == system_block(request.system, k - t));
    } else {
        let messages = request.messages;
        let (m, i) = lemma_locate(messages, messages.len(), k - front);
        lemma_message_block(request, m, i);
    }
}

/// A fingerprint binds the tools before it: requests that share one at or after the tool
/// `i` share it at the same block, and both have that tool there, the same but for
/// markers.
pub proof fn law_fingerprints_bind_tools(
    a: RequestModel,
    x: int,
    b: RequestModel,
    y: int,
    max_ttl: Duration,
    i: int,
)
    requires
        can_be_compared(a, b),
        share_a_fingerprint(a, x, b, y, max_ttl),
        0 <= i < a.tools.len(),
        i <= x,
    ensures
        x == y,
        i < b.tools.len(),
        without_cache_control(a.tools[i].value) == without_cache_control(b.tools[i].value),
{
    lemma_values_agree(a, x, b, y, max_ttl);
    lemma_kind_at(a, i);
    lemma_kind_at(b, i);
    assert(request_blocks(a)[i].value == request_blocks(b)[i].value);
    assert(request_blocks(a)[i] == tool_block(a.tools, i));
    assert(request_blocks(b)[i] == tool_block(b.tools, i));
    law_equal_tool_blocks_are_of_equal_tools(a.tools, i, b.tools, i);
}

/// A fingerprint binds the system blocks before it: requests that share one at or after
/// the system block `i` have as many tools, and both have that system block, the same but
/// for markers and for what a billing header says.
pub proof fn law_fingerprints_bind_system_blocks(
    a: RequestModel,
    x: int,
    b: RequestModel,
    y: int,
    max_ttl: Duration,
    i: int,
)
    requires
        can_be_compared(a, b),
        share_a_fingerprint(a, x, b, y, max_ttl),
        0 <= i < a.system.len(),
        a.tools.len() + i <= x,
    ensures
        x == y,
        a.tools.len() == b.tools.len(),
        i < b.system.len(),
        masked_system_block(without_cache_control(a.system[i].value)) == masked_system_block(
            without_cache_control(b.system[i].value),
        ),
{
    let t = a.tools.len();
    let u = b.tools.len();
    lemma_values_agree(a, x, b, y, max_ttl);
    lemma_kinds();
    lemma_kind_at(a, t as int);
    lemma_kind_at(b, t as int);
    assert(request_blocks(a)[t as int].value == request_blocks(b)[t as int].value);
    if u < t {
        lemma_kind_at(a, u as int);
        lemma_kind_at(b, u as int);
        assert(request_blocks(a)[u as int].value == request_blocks(b)[u as int].value);
    }
    lemma_kind_at(a, t + i);
    lemma_kind_at(b, t + i);
    assert(request_blocks(a)[t + i].value == request_blocks(b)[t + i].value);
    assert(request_blocks(a)[t + i] == system_block(a.system, i));
    assert(request_blocks(b)[t + i] == system_block(b.system, i));
    law_equal_system_blocks_are_of_equal_blocks(a.system, i, b.system, i);
}

/// A fingerprint binds the messages before it: requests that share one at or after the
/// content block `i` of the message `m` have that block at the same place of the same
/// message, and it says the same.
pub proof fn law_fingerprints_bind_messages(
    a: RequestModel,
    x: int,
    b: RequestModel,
    y: int,
    max_ttl: Duration,
    m: int,
    i: int,
)
    requires
        can_be_compared(a, b),
        share_a_fingerprint(a, x, b, y, max_ttl),
        0 <= m < a.messages.len(),
        0 <= i < block_count(a.messages[m].content),
        start_of(a, m) + i <= x,
    ensures
        x == y,
        m < b.messages.len(),
        i < block_count(b.messages[m].content),
        start_of(a, m) == start_of(b, m),
        says_the_same(a.messages[m], i, b.messages[m], i),
{
    let at = start_of(a, m) + i;
    let front = b.tools.len() + b.system.len();
    lemma_values_agree(a, x, b, y, max_ttl);
    lemma_start(a, m);
    lemma_block_count(a.messages[m].content);
    lemma_message_block(a, m, i);
    lemma_kinds();
    lemma_numbers();
    assert(request_blocks(a)[at].value == request_blocks(b)[at].value);
    lemma_kind_at(b, at);
    assert(at >= front);
    let (n, j) = lemma_locate(b.messages, b.messages.len(), at - front);
    lemma_message_block(b, n, j);
    lemma_start(b, n);
    lemma_block_count(b.messages[n].content);
    assert(numbers_are_own(m as usize, blocks_of(a.messages[m].content).len()));
    let p = message_block(m as usize, a.messages[m], i);
    let q = message_block(n as usize, b.messages[n], j);
    assert(p.value == q.value);
    assert(member(p.value, "message_index"@) == member(q.value, "message_index"@));
    assert(member(p.value, "block_index"@) == member(q.value, "block_index"@));
    assert(is_own_number(m as usize));
    assert(is_own_number(i as usize));
    assert(m == n);
    assert(i == j);
    law_equal_message_blocks_say_the_same(
        m as usize,
        a.messages[m],
        i,
        n as usize,
        b.messages[n],
        j,
    );
}

/// Two requests say different things at the block `at`: another tool, another system
/// block, or another content block of a message that begins at the same place.
pub open spec fn content_differs_at(a: RequestModel, b: RequestModel, at: int) -> bool {
    let t = a.tools.len();
    ||| 0 <= at < t && at < b.tools.len() && without_cache_control(a.tools[at].value)
        != without_cache_control(b.tools[at].value)
    ||| t == b.tools.len() && t <= at < t + a.system.len() && at < t + b.system.len()
        && masked_system_block(without_cache_control(a.system[at - t].value))
        != masked_system_block(without_cache_control(b.system[at - t].value))
    ||| exists|m: int|
        0 <= m < a.messages.len() && m < b.messages.len() && #[trigger] start_of(a, m) <= at
            < start_of(a, m) + block_count(a.messages[m].content) && start_of(b, m) == start_of(
            a,
            m,
        ) && at < start_of(b, m) + block_count(b.messages[m].content) && !says_the_same(
            a.messages[m],
            at - start_of(a, m),
            b.messages[m],
            at - start_of(a, m),
        )
}

/// Any change of content breaks the cached prefix from there on: requests that say
/// different things at a block have no fingerprint in common at or after it, even where
/// they say the same again later.
pub proof fn law_changed_content_breaks_the_prefix(
    a: RequestModel,
    x: int,
    b: RequestModel,
    y: int,
    max_ttl: Duration,
    at: int,
)
    requires
        can_be_compared(a, b),
        content_differs_at(a, b, at),
        at <= x,
        at <= y,
    ensures
        !share_a_fingerprint(a, x, b, y, max_ttl),
{
    if share_a_fingerprint(a, x, b, y, max_ttl) {
        let t = a.tools.len();
        if 0 <= at < t && at < b.tools.len() && without_cache_control(a.tools[at].value)
            != without_cache_control(b.tools[at].value) {
            law_fingerprints_bind_tools(a, x, b, y, max_ttl, at);
        } else if t == b.tools.len() && t <= at < t + a.system.len() && at < t + b.system.len()
            && masked_system_block(without_cache_control(a.system[at - t].value))
            != masked_system_block(without_cache_control(b.system[at - t].value)) {
            law_fingerprints_bind_system_blocks(a, x, b, y, max_ttl, at - t);
        } else {
            let m = choose|m: int|
                0 <= m < a.messages.len() && m < b.messages.len() && #[trigger] start_of(a, m)
                    <= at < start_of(a, m) + block_count(a.messages[m].content) && start_of(b, m)
                    == start_of(a, m) && at < start_of(b, m) + block_count(b.messages[m].content)
                    && !says_the_same(
                    a.messages[m],
                    at - start_of(a, m),
                    b.messages[m],
                    at - start_of(a, m),
                );
            law_fingerprints_bind_messages(a, x, b, y, max_ttl, m, at - start_of(a, m));
        }
    }
}

/// After one request has been recorded in an empty store, a request that says something
/// else at a block reads at most what stands before that block.
pub proof fn law_changed_content_is_not_read(
    now: nat,
    id: u64,
    first: RequestModel,
    second: RequestModel,
    max_ttl: Duration,
    first_total: i32,
    second_total: i32,
    later: nat,
    at: int,
)
    requires
        can_be_compared(first, second),
        content_differs_at(first, second, at),
    ensures
        ({
            let p = request_profile(first, max_ttl, first_total);
            let q = request_profile(second, max_ttl, second_total);
            match hit(live(entries_of(recorded_alone(now, id, p), id), later), q) {
                Some(k) => q.breakpoints[k].block_index < at,
                None => true,
            }
        }),
{
    let p = request_profile(first, max_ttl, first_total);
    let q = request_profile(second, max_ttl, second_total);
    law_only_equal_prefixes_are_read(
        now,
        id,
        first,
        second,
        max_ttl,
        max_ttl,
        first_total,
        second_total,
        later,
    );
    let entries = live(entries_of(recorded_alone(now, id, p), id), later);
    if let Some(k) = hit(entries, q) {
        law_hit_is_the_latest_of_the_last_ten(entries, q);
        lemma_profile_fingerprints(first, max_ttl, first_total);
        lemma_profile_fingerprints(second, max_ttl, second_total);
        lemma_profile_fingerprints(first, max_ttl, 0);
        lemma_profile_fingerprints(second, max_ttl, 0);
        let x = q.breakpoints[k].block_index as int;
        assert(request_seed(first) == request_seed(second));
        lemma_same_fingerprint(first, second, x as nat);
        assert(share_a_fingerprint(first, x, second, x, max_ttl));
        if at <= x {
            law_changed_content_breaks_the_prefix(first, x, second, x, max_ttl, at);
        }
    }
}

proof fn lemma_same_fingerprint(a: RequestModel, b: RequestModel, x: nat)
    requires
        request_seed(a) == request_seed(b),
        x < request_blocks(a).len(),
        x < request_blocks(b).len(),
        forall|k: int|
            0 <= k <= x ==> (#[trigger] request_blocks(a)[k]).value == request_blocks(b)[k].value,
    ensures
        prefix_fingerprint(
            request_seed(a),
            request_blocks(a),
            x,
        ) == prefix_fingerprint(
            request_seed(b),
            request_blocks(b),
            x,
        ),
{
    lemma_same_beginning(
        request_seed(a),
        request_blocks(a),
        request_blocks(b),
        x,
        (x + 1) as int,
    );
}

/// Requests that say the same have the same fingerprints: the same model and choice of
/// tools, the same tools but for markers, the same system blocks but for markers and for
/// what billing headers say, and messages of the same roles whose contents are the same
/// texts, arrays with the same items but for markers, or the same values of other kinds.
pub proof fn law_equal_content_has_equal_fingerprints(
    a: RequestModel,
    b: RequestModel,
    max_ttl: Duration,
    total_a: i32,
    total_b: i32,
    x: int,
)
    requires
        request_blocks(a).len() <= usize::MAX,
        a.model == b.model,
        a.tool_choice == b.tool_choice,
        a.tools.len() == b.tools.len(),
        forall|i: int|
            0 <= i < a.tools.len() ==> without_cache_control((#[trigger] a.tools[i]).value)
                == without_cache_control(b.tools[i].value),
        a.system.len() == b.system.len(),
        forall|i: int|
            0 <= i < a.system.len() ==> masked_system_block(
                without_cache_control((#[trigger] a.system[i]).value),
            ) == masked_system_block(without_cache_control(b.system[i].value)),
        a.messages.len() == b.messages.len(),
        forall|m: int|
            0 <= m < a.messages.len() ==> {
                let p = #[trigger] a.messages[m];
                let q = b.messages[m];
                &&& block_count(p.content) == block_count(q.content)
                &&& p.content is Array <==> q.content is Array
                &&& p.role == q.role
                &&& forall|i: int|
                    0 <= i < block_count(p.content) ==> #[trigger] says_the_same(p, i, q, i)
            },
        0 <= x < start_of(a, a.messages.len() as int),
    ensures
        request_profile(a, max_ttl, total_a).blocks[x].prefix_fingerprint == request_profile(
            b,
            max_ttl,
            total_b,
        ).blocks[x].prefix_fingerprint,
{
    assert forall|m: int| 0 <= m < a.messages.len() implies (#[trigger] a.messages[m]).role
        == b.messages[m].role && blocks_of(a.messages[m].content) == blocks_of(
        b.messages[m].content,
    ) && (a.messages[m].content is String <==> b.messages[m].content is String) by {
        let p = a.messages[m];
        let q = b.messages[m];
        lemma_block_count(p.content);
        lemma_block_count(q.content);
        assert forall|i: int| 0 <= i < block_count(p.content) implies blocks_of(p.content)[i]
            == blocks_of(q.content)[i] by {
            assert(says_the_same(p, i, q, i));
        }
        assert(blocks_of(p.content) =~= blocks_of(q.content));
        if !(p.content is Array) {
            assert(says_the_same(p, 0, q, 0));
        }
    }
    assert(same_content(a, b));
    lemma_start(a, a.messages.len() as int);
    law_profiles_have_every_block(a, max_ttl, total_a);
    law_same_content_has_the_same_fingerprints(a, b, max_ttl, max_ttl, total_a, total_b);
    assert(request_profile(a, max_ttl, total_a).blocks[x].prefix_fingerprint == request_profile(
        b,
        max_ttl,
        total_b,
    ).blocks[x].prefix_fingerprint);
}

} // verus!
