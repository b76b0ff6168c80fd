//! What fingerprints tell apart: which changes of a request the cache notices, and what
//! it therefore reads.

use crate::digest::sha256_digest;
use crate::encode::{is_own_number, json_bytes, unsigned_number};
use crate::flatten::{
    content_value, first_messages_blocks, has_own_numbers, message_block, message_blocks,
    numbers_are_own, request_blocks, system_block, system_value, tool_block, tool_value,
    PendingModel,
};
use crate::json::{member, JsonModel};
use crate::laws::{
    extends, is_single, law_appended_messages_keep_the_prefix,
    law_hit_is_the_latest_of_the_last_ten, law_last_block_is_the_last_breakpoint,
    lemma_blocks_extend, lemma_cumulative_grows, lemma_message_block, lemma_messages_extend,
    lemma_prefix_blocks, lemma_prefix_tokens_nonnegative, lemma_recorded_contains,
    lemma_recorded_only, message_start,
};
use crate::profile::{
    block_digest, breakpoints_among, lemma_blocks_profile_wf, lemma_breakpoints_in_order,
    prefix_fingerprint, ttl_at, ProfileModel,
};
use crate::request::{blocks_of, MessageModel, RequestModel};
use crate::store::{
    after_lookup, after_update, entries_of, hit, live, lookup_result, pruned, CacheEntry,
};
use crate::time::Duration;
use crate::tokens::{greater, lesser};
use crate::tracker::{has_own_texts, prelude_value, request_profile, request_seed};
use vstd::prelude::*;

verus! {

/// What is digested for the fingerprint at block `i`.
pub open spec fn digested(seed: Seq<u8>, blocks: Seq<PendingModel>, i: nat) -> Seq<u8> {
    (if i == 0 {
        seed
    } else {
        prefix_fingerprint(seed, blocks, (i - 1) as nat)@
    }) + block_digest(blocks[i as int])@
}

/// SHA-256 tells two byte strings apart, if they differ.
pub open spec fn told_apart(a: Seq<u8>, b: Seq<u8>) -> bool {
    sha256_digest(a) == sha256_digest(b) ==> a == b
}

/// A fingerprint binds the whole prefix: as far as SHA-256 tells apart what is digested,
/// equal fingerprints at a block come from equal settings and from equal JSON text of
/// every block up to there. So a change in a tool or in a system block changes all later
/// fingerprints.
pub proof fn law_fingerprints_bind_the_prefix(
    seed_a: Seq<u8>,
    a: Seq<PendingModel>,
    seed_b: Seq<u8>,
    b: Seq<PendingModel>,
    i: nat,
)
    requires
        prefix_fingerprint(seed_a, a, i) == prefix_fingerprint(seed_b, b, i),
        forall|j: nat|
            j <= i ==> told_apart(#[trigger] digested(seed_a, a, j), digested(seed_b, b, j)),
        forall|j: int|
            0 <= j <= i ==> told_apart(json_bytes((#[trigger] a[j]).value), json_bytes(b[j].value)),
    ensures
        seed_a == seed_b,
        forall|j: int|
            0 <= j <= i ==> json_bytes((#[trigger] a[j]).value) == json_bytes(b[j].value),
    decreases i,
{
    let x = digested(seed_a, a, i);
    let y = digested(seed_b, b, i);
    assert(told_apart(x, y));
    assert(x == y);
    let front_a = x.take(x.len() - 32);
    let front_b = y.take(y.len() - 32);
    assert(x.skip(x.len() - 32) =~= block_digest(a[i as int])@);
    assert(y.skip(y.len() - 32) =~= block_digest(b[i as int])@);
    assert(block_digest(a[i as int]) =~= block_digest(b[i as int]));
    assert(told_apart(json_bytes(a[i as int].value), json_bytes(b[i as int].value)));
    if i == 0 {
        assert(front_a =~= seed_a);
        assert(front_b =~= seed_b);
    } else {
        let before_a = prefix_fingerprint(seed_a, a, (i - 1) as nat);
        let before_b = prefix_fingerprint(seed_b, b, (i - 1) as nat);
        assert(front_a =~= before_a@);
        assert(front_b =~= before_b@);
        assert(before_a =~= before_b);
        law_fingerprints_bind_the_prefix(seed_a, a, seed_b, b, (i - 1) as nat);
    }
}

/// SHA-256 has no collision on what is digested for two sequences of blocks.
pub open spec fn no_collisions(
    seed_a: Seq<u8>,
    a: Seq<PendingModel>,
    seed_b: Seq<u8>,
    b: Seq<PendingModel>,
) -> bool {
    &&& forall|i: nat, j: nat|
        i < a.len() && j < b.len() ==> told_apart(
            #[trigger] digested(seed_a, a, i),
            #[trigger] digested(seed_b, b, j),
        )
    &&& forall|i: int, j: int|
        0 <= i < a.len() && 0 <= j < b.len() ==> told_apart(
            json_bytes((#[trigger] a[i]).value),
            json_bytes((#[trigger] b[j]).value),
        )
}

/// SHA-256 has no collision on what is digested for two requests.
pub open spec fn digests_differ(a: RequestModel, b: RequestModel) -> bool {
    no_collisions(request_seed(a), request_blocks(a), request_seed(b), request_blocks(b))
}

proof fn lemma_meet_at_one_block(
    seed_a: Seq<u8>,
    a: Seq<PendingModel>,
    i: nat,
    seed_b: Seq<u8>,
    b: Seq<PendingModel>,
    j: nat,
)
    requires
        i < a.len(),
        j < b.len(),
        seed_a.len() > 32,
        seed_b.len() > 32,
        no_collisions(seed_a, a, seed_b, b),
        prefix_fingerprint(seed_a, a, i) == prefix_fingerprint(seed_b, b, j),
    ensures
        i == j,
        seed_a == seed_b,
        forall|k: int|
            0 <= k <= i ==> json_bytes((#[trigger] a[k]).value) == json_bytes(b[k].value),
    decreases i,
{
    let x = digested(seed_a, a, i);
    let y = digested(seed_b, b, j);
    assert(told_apart(x, y));
    assert(x == y);
    if i > 0 && j > 0 {
        let before_a = prefix_fingerprint(seed_a, a, (i - 1) as nat);
        let before_b = prefix_fingerprint(seed_b, b, (j - 1) as nat);
        assert(before_a@ =~= x.take(32));
        assert(before_b@ =~= y.take(32));
        assert(before_a =~= before_b);
        lemma_meet_at_one_block(seed_a, a, (i - 1) as nat, seed_b, b, (j - 1) as nat);
    }
    assert(i == j);
    law_fingerprints_bind_the_prefix(seed_a, a, seed_b, b, i);
}

proof fn lemma_same_seed_same_settings(a: RequestModel, b: RequestModel)
    requires
        has_own_texts(a),
        has_own_texts(b),
        request_seed(a) == request_seed(b),
    ensures
        a.model == b.model,
        a.tool_choice == b.tool_choice,
{
    let x = json_bytes(prelude_value(a));
    let y = json_bytes(prelude_value(b));
    assert(request_seed(a).skip(8) =~= x);
    assert(request_seed(b).skip(8) =~= y);
    assert(prelude_value(a) == prelude_value(b));
    reveal_strlit("model");
    reveal_strlit("tool_choice");
    assert("model"@.len() != "tool_choice"@.len());
    let fields = prelude_value(a)->Object_0;
    let others = prelude_value(b)->Object_0;
    assert(fields["model"@] == others["model"@]);
    assert(fields["tool_choice"@] == others["tool_choice"@]);
}

/// Equal fingerprints come from equal prefixes. Where SHA-256 has no collision, requests
/// have a fingerprint in common only at the same block, and only if they agree on the
/// model, on the choice of tools, and on every block up to there.
pub proof fn law_equal_fingerprints_mean_equal_prefixes(
    a: RequestModel,
    i: nat,
    b: RequestModel,
    j: nat,
)
    requires
        has_own_texts(a),
        has_own_texts(b),
        digests_differ(a, b),
        i < request_blocks(a).len(),
        j < request_blocks(b).len(),
        prefix_fingerprint(request_seed(a), request_blocks(a), i) == prefix_fingerprint(
            request_seed(b),
            request_blocks(b),
            j,
        ),
    ensures
        i == j,
        a.model == b.model,
        a.tool_choice == b.tool_choice,
        forall|k: int|
            0 <= k <= i ==> (#[trigger] request_blocks(a)[k]).value == request_blocks(b)[k].value,
{
    let x = request_blocks(a);
    let y = request_blocks(b);
    lemma_meet_at_one_block(request_seed(a), x, i, request_seed(b), y, j);
    lemma_same_seed_same_settings(a, b);
    assert forall|k: int| 0 <= k <= i implies (#[trigger] x[k]).value == y[k].value by {
        assert(json_bytes(x[k].value) == json_bytes(y[k].value));
    }
}

/// The fingerprints in a profile are those of the blocks of the request.
pub proof fn lemma_profile_fingerprints(request: RequestModel, max_ttl: Duration, total: i32)
    requires
        request_blocks(request).len() <= usize::MAX,
    ensures
        ({
            let profile = request_profile(request, max_ttl, total);
            let blocks = request_blocks(request);
            &&& profile.blocks.len() == blocks.len()
            &&& forall|i: int|
                0 <= i < blocks.len() ==> (#[trigger] profile.blocks[i]).prefix_fingerprint
                    == prefix_fingerprint(request_seed(request), blocks, i as nat)
            &&& forall|i: int|
                0 <= i < profile.breakpoints.len() ==> (
                #[trigger] profile.breakpoints[i]).block_index < blocks.len()
            &&& forall|i: int, j: int|
                0 <= i < j < profile.breakpoints.len() ==> (
                #[trigger] profile.breakpoints[i]).block_index < (
                #[trigger] profile.breakpoints[j]).block_index
        }),
{
    let blocks = request_blocks(request);
    lemma_breakpoints_in_order(blocks, max_ttl, blocks.len());
}

/// Requests with another model or another choice of tools have no fingerprint in common,
/// at whatever blocks.
pub proof fn law_other_settings_share_no_fingerprint(
    a: RequestModel,
    b: RequestModel,
    max_ttl_a: Duration,
    max_ttl_b: Duration,
    total_a: i32,
    total_b: i32,
    i: int,
    j: int,
)
    requires
        has_own_texts(a),
        has_own_texts(b),
        digests_differ(a, b),
        request_blocks(a).len() <= usize::MAX,
        request_blocks(b).len() <= usize::MAX,
        a.model != b.model || a.tool_choice != b.tool_choice,
        0 <= i < request_blocks(a).len(),
        0 <= j < request_blocks(b).len(),
    ensures
        request_profile(a, max_ttl_a, total_a).blocks[i].prefix_fingerprint != request_profile(
            b,
            max_ttl_b,
            total_b,
        ).blocks[j].prefix_fingerprint,
{
    let p = request_profile(a, max_ttl_a, total_a);
    let q = request_profile(b, max_ttl_b, total_b);
    lemma_profile_fingerprints(a, max_ttl_a, total_a);
    lemma_profile_fingerprints(b, max_ttl_b, total_b);
    if p.blocks[i].prefix_fingerprint == q.blocks[j].prefix_fingerprint {
        law_equal_fingerprints_mean_equal_prefixes(a, i as nat, b, j as nat);
    }
}

/// A changed block changes its own fingerprint and all that follow, even where later
/// blocks are the same again, and leaves those before it alone.
pub proof fn law_a_changed_block_changes_what_follows(
    a: RequestModel,
    b: RequestModel,
    max_ttl_a: Duration,
    max_ttl_b: Duration,
    total_a: i32,
    total_b: i32,
    i: int,
)
    requires
        has_own_texts(a),
        has_own_texts(b),
        digests_differ(a, b),
        request_blocks(a).len() <= usize::MAX,
        request_blocks(b).len() <= usize::MAX,
        a.model == b.model,
        a.tool_choice == b.tool_choice,
        0 <= i < request_blocks(a).len(),
        i < request_blocks(b).len(),
        forall|j: int|
            0 <= j < i ==> (#[trigger] request_blocks(a)[j]).value == request_blocks(b)[j].value,
        request_blocks(a)[i].value != request_blocks(b)[i].value,
    ensures
        ({
            let p = request_profile(a, max_ttl_a, total_a);
            let q = request_profile(b, max_ttl_b, total_b);
            &&& forall|j: int|
                0 <= j < i ==> (#[trigger] p.blocks[j]).prefix_fingerprint
                    == q.blocks[j].prefix_fingerprint
            &&& forall|j: int|
                i <= j < p.blocks.len() && j < q.blocks.len() ==> (
                #[trigger] p.blocks[j]).prefix_fingerprint != q.blocks[j].prefix_fingerprint
        }),
{
    let p = request_profile(a, max_ttl_a, total_a);
    let q = request_profile(b, max_ttl_b, total_b);
    let x = request_blocks(a);
    let y = request_blocks(b);
    lemma_profile_fingerprints(a, max_ttl_a, total_a);
    lemma_profile_fingerprints(b, max_ttl_b, total_b);
    assert(request_seed(a) == request_seed(b));
    assert forall|j: int| 0 <= j < i implies (#[trigger] p.blocks[j]).prefix_fingerprint
        == q.blocks[j].prefix_fingerprint by {
        lemma_same_beginning(request_seed(a), x, y, j as nat, i);
    }
    assert forall|j: int| i <= j < p.blocks.len() && j < q.blocks.len() implies (
    #[trigger] p.blocks[j]).prefix_fingerprint != q.blocks[j].prefix_fingerprint by {
        if p.blocks[j].prefix_fingerprint == q.blocks[j].prefix_fingerprint {
            law_equal_fingerprints_mean_equal_prefixes(a, j as nat, b, j as nat);
            assert(x[i].value == y[i].value);
        }
    }
}

/// Blocks that begin with the same values have the same fingerprints there.
pub proof fn lemma_same_beginning(
    seed: Seq<u8>,
    a: Seq<PendingModel>,
    b: Seq<PendingModel>,
    j: nat,
    i: int,
)
    requires
        j < i <= a.len(),
        i <= b.len(),
        forall|k: int| 0 <= k < i ==> (#[trigger] a[k]).value == b[k].value,
    ensures
        prefix_fingerprint(seed, a, j) == prefix_fingerprint(seed, b, j),
    decreases j,
{
    assert(a[j as int].value == b[j as int].value);
    if j > 0 {
        lemma_same_beginning(seed, a, b, (j - 1) as nat, i);
    }
}

/// The fingerprints of a request all differ.
pub proof fn law_fingerprints_of_a_request_differ(
    request: RequestModel,
    max_ttl: Duration,
    total: i32,
    i: int,
)
    requires
        has_own_texts(request),
        digests_differ(request, request),
        request_blocks(request).len() <= usize::MAX,
        0 <= i < request_profile(request, max_ttl, total).breakpoints.len(),
    ensures
        is_single(request_profile(request, max_ttl, total), i),
{
    let profile = request_profile(request, max_ttl, total);
    lemma_profile_fingerprints(request, max_ttl, total);
    assert forall|k: int|
        0 <= k < profile.breakpoints.len() && k != i implies #[trigger] profile.fingerprint(k)
        != profile.fingerprint(i) by {
        let at_i = profile.breakpoints[i].block_index;
        let at_k = profile.breakpoints[k].block_index;
        assert(at_i != at_k) by {
            if i < k {
                assert(at_i < at_k);
            } else {
                assert(at_k < at_i);
            }
        }
        if profile.fingerprint(k) == profile.fingerprint(i) {
            assert(profile.blocks[at_k as int].prefix_fingerprint
                == profile.blocks[at_i as int].prefix_fingerprint);
            law_equal_fingerprints_mean_equal_prefixes(request, at_k as nat, request, at_i as nat);
        }
    }
}

/// The store that is left when one profile is recorded in an empty one.
pub open spec fn recorded_alone(now: nat, id: u64, profile: ProfileModel) -> Map<
    u64,
    Map<[u8; 32], CacheEntry>,
> {
    after_update(Map::empty(), now, id, profile)
}

/// All of the entries are prefixes of the profile.
pub open spec fn only_prefixes_of(
    entries: Map<[u8; 32], CacheEntry>,
    profile: ProfileModel,
) -> bool {
    forall|fingerprint: [u8; 32]| #[trigger]
        entries.contains_key(fingerprint) ==> exists|i: int|
            0 <= i < profile.breakpoints.len() && #[trigger] profile.fingerprint(i) == fingerprint
}

proof fn lemma_update_leaves_only_prefixes(
    store: Map<u64, Map<[u8; 32], CacheEntry>>,
    now: nat,
    id: u64,
    profile: ProfileModel,
    later: nat,
)
    requires
        only_prefixes_of(entries_of(store, id), profile),
    ensures
        only_prefixes_of(
            live(entries_of(after_update(store, now, id, profile), id), later),
            profile,
        ),
        only_prefixes_of(entries_of(after_update(store, now, id, profile), id), profile),
{
    let after = entries_of(after_update(store, now, id, profile), id);
    assert forall|f: [u8; 32]| #[trigger] after.contains_key(f) implies exists|i: int|
        0 <= i < profile.breakpoints.len() && #[trigger] profile.fingerprint(i) == f by {
        let before = entries_of(pruned(store, now), id);
        lemma_recorded_only(before, now, profile, profile.breakpoints.len(), f);
        if before.contains_key(f) {
            assert(entries_of(store, id).contains_key(f));
        }
    }
}

/// After one profile has been recorded in an empty store, a hit is at a fingerprint of
/// that profile.
pub proof fn law_a_hit_is_a_recorded_prefix(
    now: nat,
    id: u64,
    recorded: ProfileModel,
    later: nat,
    profile: ProfileModel,
)
    ensures
        match hit(live(entries_of(recorded_alone(now, id, recorded), id), later), profile) {
            Some(i) => exists|r: int|
                0 <= r < recorded.breakpoints.len() && #[trigger] recorded.fingerprint(r)
                    == profile.fingerprint(i),
            None => true,
        },
{
    let empty = Map::<u64, Map<[u8; 32], CacheEntry>>::empty();
    lemma_update_leaves_only_prefixes(empty, now, id, recorded, later);
    law_hit_is_the_latest_of_the_last_ten(
        live(entries_of(recorded_alone(now, id, recorded), id), later),
        profile,
    );
}

/// After one request has been recorded in an empty store, a hit is one of its prefixes:
/// the requests agree on the model, on the choice of tools, and on every block up to the
/// breakpoint that is hit, and there is a breakpoint at that block in both. So a changed
/// prefix is not read.
pub proof fn law_only_equal_prefixes_are_read(
    now: nat,
    id: u64,
    first: RequestModel,
    second: RequestModel,
    first_max_ttl: Duration,
    second_max_ttl: Duration,
    first_total: i32,
    second_total: i32,
    later: nat,
)
    requires
        has_own_texts(first),
        has_own_texts(second),
        digests_differ(first, second),
        request_blocks(first).len() <= usize::MAX,
        request_blocks(second).len() <= usize::MAX,
    ensures
        ({
            let p = request_profile(first, first_max_ttl, first_total);
            let q = request_profile(second, second_max_ttl, second_total);
            match hit(live(entries_of(recorded_alone(now, id, p), id), later), q) {
                Some(i) => {
                    let at = q.breakpoints[i].block_index;
                    &&& first.model == second.model
                    &&& first.tool_choice == second.tool_choice
                    &&& at < request_blocks(first).len()
                    &&& forall|k: int|
                        0 <= k <= at ==> (#[trigger] request_blocks(first)[k]).value
                            == request_blocks(second)[k].value
                    &&& exists|r: int|
                        0 <= r < p.breakpoints.len() && (#[trigger] p.breakpoints[r]).block_index
                            == at
                },
                None => true,
            }
        }),
{
    let p = request_profile(first, first_max_ttl, first_total);
    let q = request_profile(second, second_max_ttl, second_total);
    let entries = live(entries_of(recorded_alone(now, id, p), id), later);
    lemma_profile_fingerprints(first, first_max_ttl, first_total);
    lemma_profile_fingerprints(second, second_max_ttl, second_total);
    law_a_hit_is_a_recorded_prefix(now, id, p, later, q);
    law_hit_is_the_latest_of_the_last_ten(entries, q);
    if let Some(i) = hit(entries, q) {
        let r = choose|r: int|
            0 <= r < p.breakpoints.len() && #[trigger] p.fingerprint(r) == q.fingerprint(i);
        let at = q.breakpoints[i].block_index;
        let from = p.breakpoints[r].block_index;
        assert(p.blocks[from as int].prefix_fingerprint == q.blocks[at as int].prefix_fingerprint);
        law_equal_fingerprints_mean_equal_prefixes(first, from as nat, second, at as nat);
        assert(p.breakpoints[r].block_index == at);
    }
}

/// A request with another model, another choice of tools, or another first block reads
/// nothing of what was recorded: all of it is to be written.
pub proof fn law_nothing_is_read_after_a_change_at_the_start(
    now: nat,
    id: u64,
    first: RequestModel,
    second: RequestModel,
    first_max_ttl: Duration,
    second_max_ttl: Duration,
    first_total: i32,
    second_total: i32,
    later: nat,
)
    requires
        has_own_texts(first),
        has_own_texts(second),
        digests_differ(first, second),
        request_blocks(first).len() <= usize::MAX,
        0 < request_blocks(second).len() <= usize::MAX,
        first.model != second.model || first.tool_choice != second.tool_choice
            || request_blocks(first).len() == 0 || request_blocks(first)[0].value
            != request_blocks(second)[0].value,
    ensures
        ({
            let p = request_profile(first, first_max_ttl, first_total);
            let q = request_profile(second, second_max_ttl, second_total);
            let result = lookup_result(recorded_alone(now, id, p), later, id, q);
            &&& result.cache_read_input_tokens == 0
            &&& result.cache_creation_input_tokens == q.total
        }),
{
    law_only_equal_prefixes_are_read(
        now,
        id,
        first,
        second,
        first_max_ttl,
        second_max_ttl,
        first_total,
        second_total,
        later,
    );
    law_last_block_is_the_last_breakpoint(second, second_max_ttl, second_total);
}

/// None of the breakpoints that `after` has beyond the first `n` has a fingerprint of the
/// first `n`.
pub open spec fn turns_are_new(after: ProfileModel, n: nat) -> bool {
    forall|i: int, k: int|
        0 <= k < n <= i < after.breakpoints.len() ==> #[trigger] after.fingerprint(i)
            != #[trigger] after.fingerprint(k)
}

/// Where SHA-256 has no collision, the turns of a request are all new.
pub proof fn law_turns_are_new(request: RequestModel, max_ttl: Duration, total: i32, n: nat)
    requires
        has_own_texts(request),
        digests_differ(request, request),
        request_blocks(request).len() <= usize::MAX,
    ensures
        turns_are_new(request_profile(request, max_ttl, total), n),
{
    let profile = request_profile(request, max_ttl, total);
    assert forall|i: int, k: int|
        0 <= k < n <= i < profile.breakpoints.len() implies #[trigger] profile.fingerprint(i)
        != #[trigger] profile.fingerprint(k) by {
        law_fingerprints_of_a_request_differ(request, max_ttl, total, i);
    }
}

/// A longer conversation reads exactly what was recorded of it: where the entries are
/// prefixes of the shorter request, the last of them among these, and the longer one has
/// fewer than ten new breakpoints, the hit is at the last breakpoint of the shorter
/// request. The tokens that are read are those that this prefix has in the longer
/// request, without what its total counts beyond the blocks, and the rest of the total is
/// to be written. A prefix with a negative count is not read.
pub proof fn law_appended_turn_reads_exactly_the_recorded_prefix(
    store: Map<u64, Map<[u8; 32], CacheEntry>>,
    id: u64,
    request: RequestModel,
    longer: RequestModel,
    max_ttl: Duration,
    total: i32,
    longer_total: i32,
    later: nat,
)
    requires
        extends(request, longer),
        request_blocks(longer).len() <= usize::MAX,
        ({
            let before = request_profile(request, max_ttl, total);
            let after = request_profile(longer, max_ttl, longer_total);
            let entries = live(entries_of(store, id), later);
            let n = before.breakpoints.len();
            &&& n > 0
            &&& after.breakpoints.len() - n < 10
            &&& turns_are_new(after, n)
            &&& entries.contains_key(before.fingerprint(n - 1))
            &&& only_prefixes_of(entries, before)
        }),
    ensures
        ({
            let n = request_profile(request, max_ttl, total).breakpoints.len();
            let after = request_profile(longer, max_ttl, longer_total);
            let result = lookup_result(store, later, id, after);
            let prefix = lesser(after.cumulative(n - 1), after.total);
            &&& hit(live(entries_of(store, id), later), after) == Some(n - 1)
            &&& result.cache_read_input_tokens == greater(prefix, 0)
            &&& prefix >= 0 ==> result.cache_creation_input_tokens == after.total - prefix
        }),
{
    let before = request_profile(request, max_ttl, total);
    let after = request_profile(longer, max_ttl, longer_total);
    let entries = live(entries_of(store, id), later);
    let n = before.breakpoints.len();
    law_appended_messages_keep_the_prefix(request, longer, max_ttl, total, longer_total);
    lemma_blocks_profile_wf(request_seed(longer), request_blocks(longer), max_ttl, longer_total);
    law_hit_is_the_latest_of_the_last_ten(entries, after);
    assert(after.fingerprint(n - 1) == before.fingerprint(n - 1));
    let i = hit(entries, after)->0;
    assert(i >= n - 1);
    if i >= n {
        assert(entries.contains_key(after.fingerprint(i)));
        let k = choose|k: int|
            0 <= k < before.breakpoints.len() && #[trigger] before.fingerprint(k)
                == after.fingerprint(i);
        assert(after.fingerprint(k) == before.fingerprint(k));
    }
}

/// Every text that is appended to a request as a message adds one breakpoint.
pub proof fn law_an_appended_text_adds_a_breakpoint(
    request: RequestModel,
    longer: RequestModel,
    max_ttl: Duration,
    total: i32,
    longer_total: i32,
)
    requires
        extends(request, longer),
        forall|m: int|
            request.messages.len() <= m < longer.messages.len() ==> (
            #[trigger] longer.messages[m]).content is String,
    ensures
        request_profile(longer, max_ttl, longer_total).breakpoints.len() == request_profile(
            request,
            max_ttl,
            total,
        ).breakpoints.len() + longer.messages.len() - request.messages.len(),
{
    let blocks = request_blocks(request);
    let longer_blocks = request_blocks(longer);
    lemma_blocks_extend(request, longer);
    lemma_text_blocks(
        longer.messages,
        request.messages.len(),
        longer.messages.len(),
    );
    lemma_messages_extend(
        request.messages,
        longer.messages,
        request.messages.len(),
        longer.messages.len(),
    );
    let front = request.tools.len() + request.system.len();
    let tail = first_messages_blocks(longer.messages, longer.messages.len());
    lemma_prefix_blocks(request_seed(request), blocks, longer_blocks, max_ttl, blocks.len());
    assert forall|i: int| blocks.len() <= i < longer_blocks.len() implies (
    #[trigger] longer_blocks[i]).breakpoint_ttl is Some by {
        assert(longer_blocks[i] == tail[i - front]);
    }
    lemma_breakpoints_add_up(longer_blocks, max_ttl, blocks.len(), longer_blocks.len());
}

proof fn lemma_text_blocks(messages: Seq<MessageModel>, m: nat, n: nat)
    requires
        m <= n <= messages.len(),
        forall|j: int| m <= j < n ==> (#[trigger] messages[j]).content is String,
    ensures
        first_messages_blocks(messages, n).len() == first_messages_blocks(messages, m).len() + n
            - m,
        forall|i: int|
            first_messages_blocks(messages, m).len() <= i < first_messages_blocks(messages, n).len()
                ==> (#[trigger] first_messages_blocks(messages, n)[i]).breakpoint_ttl is Some,
    decreases n,
{
    if m < n {
        lemma_text_blocks(messages, m, (n - 1) as nat);
        assert(messages[n - 1].content is String);
        let before = first_messages_blocks(messages, (n - 1) as nat);
        let more = message_blocks((n - 1) as usize, messages[n - 1]);
        let all = first_messages_blocks(messages, n);
        assert(more.len() == 1);
        assert forall|i: int|
            first_messages_blocks(messages, m).len() <= i < all.len() implies (
        #[trigger] all[i]).breakpoint_ttl is Some by {
            if i < before.len() {
                assert(all[i] == before[i]);
            } else {
                assert(all[i] == more[0]);
            }
        }
    }
}

proof fn lemma_breakpoints_add_up(blocks: Seq<PendingModel>, max_ttl: Duration, m: nat, n: nat)
    requires
        m <= n <= blocks.len(),
        forall|i: int| m <= i < n ==> (#[trigger] blocks[i]).breakpoint_ttl is Some,
    ensures
        breakpoints_among(blocks, max_ttl, n).len() == breakpoints_among(blocks, max_ttl, m).len()
            + n - m,
    decreases n,
{
    if m < n {
        lemma_breakpoints_add_up(blocks, max_ttl, m, (n - 1) as nat);
        assert(blocks[n - 1].breakpoint_ttl is Some);
        assert(ttl_at(blocks, max_ttl, n - 1) is Some);
    }
}

/// A conversation that grows by one to nine breakpoints at a time reads at each step
/// exactly what the step before has recorded: first the prefix of the first request, then
/// the longer one of the second, whatever the totals were at which these were recorded. A
/// prefix with a negative count is not read; for any other the rest of the total is to be
/// written. Where no block has a negative count, what is read does not shrink.
pub proof fn law_a_growing_conversation_reads_the_turn_before(
    id: u64,
    first: RequestModel,
    second: RequestModel,
    third: RequestModel,
    max_ttl: Duration,
    totals: (i32, i32, i32),
    first_update: nat,
    second_lookup: nat,
    second_update: nat,
    third_lookup: nat,
)
    requires
        extends(first, second),
        extends(second, third),
        request_blocks(third).len() <= usize::MAX,
        totals.1 <= totals.2,
        ({
            let p1 = request_profile(first, max_ttl, totals.0);
            let p2 = request_profile(second, max_ttl, totals.1);
            let p3 = request_profile(third, max_ttl, totals.2);
            let n1 = p1.breakpoints.len();
            let n2 = p2.breakpoints.len();
            let n3 = p3.breakpoints.len();
            let s1 = recorded_alone(first_update, id, p1);
            let s2 = after_update(after_lookup(s1, second_lookup, p2), second_update, id, p2);
            &&& 0 < n1 < n2 < n3
            &&& n2 - n1 < 10
            &&& n3 - n2 < 10
            &&& turns_are_new(p2, n1)
            &&& turns_are_new(p3, n2)
            &&& second_lookup < s1[id][p1.fingerprint(n1 - 1)].expires_at
            &&& third_lookup < s2[id][p2.fingerprint(n2 - 1)].expires_at
        }),
    ensures
        ({
            let p1 = request_profile(first, max_ttl, totals.0);
            let p2 = request_profile(second, max_ttl, totals.1);
            let p3 = request_profile(third, max_ttl, totals.2);
            let n1 = p1.breakpoints.len();
            let n2 = p2.breakpoints.len();
            let s1 = recorded_alone(first_update, id, p1);
            let s2 = after_update(after_lookup(s1, second_lookup, p2), second_update, id, p2);
            let r2 = lookup_result(s1, second_lookup, id, p2);
            let r3 = lookup_result(s2, third_lookup, id, p3);
            let prefix2 = p2.cumulative(n1 - 1);
            let prefix3 = p3.cumulative(n2 - 1);
            &&& r2.cache_read_input_tokens == greater(lesser(prefix2, p2.total), 0)
            &&& r3.cache_read_input_tokens == greater(lesser(prefix3, p3.total), 0)
            &&& prefix2 >= 0 ==> r2.cache_read_input_tokens + r2.cache_creation_input_tokens
                == p2.total
            &&& prefix3 >= 0 ==> r3.cache_read_input_tokens + r3.cache_creation_input_tokens
                == p3.total
            &&& (forall|i: int|
                0 <= i < request_blocks(third).len() ==> (
                #[trigger] request_blocks(third)[i]).tokens >= 0) ==> {
                &&& prefix2 >= 0
                &&& prefix3 >= 0
                &&& r2.cache_read_input_tokens <= r3.cache_read_input_tokens
            }
        }),
{
    let p1 = request_profile(first, max_ttl, totals.0);
    let p2 = request_profile(second, max_ttl, totals.1);
    let p3 = request_profile(third, max_ttl, totals.2);
    let n1 = p1.breakpoints.len();
    let n2 = p2.breakpoints.len();
    let empty = Map::<u64, Map<[u8; 32], CacheEntry>>::empty();
    let s1 = recorded_alone(first_update, id, p1);
    let between = after_lookup(s1, second_lookup, p2);
    let s2 = after_update(between, second_update, id, p2);
    lemma_blocks_extend(first, second);
    lemma_blocks_extend(second, third);

    lemma_update_leaves_only_prefixes(empty, first_update, id, p1, second_lookup);
    lemma_recorded_contains(
        entries_of(pruned(empty, first_update), id),
        first_update,
        p1,
        n1,
        n1 - 1,
    );
    law_appended_turn_reads_exactly_the_recorded_prefix(
        s1,
        id,
        first,
        second,
        max_ttl,
        totals.0,
        totals.1,
        second_lookup,
    );

    law_appended_messages_keep_the_prefix(first, second, max_ttl, totals.0, totals.1);
    assert(only_prefixes_of(entries_of(between, id), p2)) by {
        assert forall|f: [u8; 32]| #[trigger]
            entries_of(between, id).contains_key(f) implies exists|i: int|
            0 <= i < n2 && #[trigger] p2.fingerprint(i) == f by {
            assert(entries_of(s1, id).contains_key(f));
            let i = choose|i: int| 0 <= i < n1 && #[trigger] p1.fingerprint(i) == f;
            assert(p2.fingerprint(i) == p1.fingerprint(i));
        }
    }
    lemma_update_leaves_only_prefixes(between, second_update, id, p2, third_lookup);
    lemma_recorded_contains(
        entries_of(pruned(between, second_update), id),
        second_update,
        p2,
        n2,
        n2 - 1,
    );
    law_appended_turn_reads_exactly_the_recorded_prefix(
        s2,
        id,
        second,
        third,
        max_ttl,
        totals.1,
        totals.2,
        third_lookup,
    );

    law_appended_messages_keep_the_prefix(second, third, max_ttl, totals.1, totals.2);
    let blocks = request_blocks(third);
    assert(p3.cumulative(n1 - 1) == p2.cumulative(n1 - 1));
    if forall|i: int| 0 <= i < blocks.len() ==> (#[trigger] blocks[i]).tokens >= 0 {
        lemma_cumulative_grows(request_seed(third), blocks, max_ttl, totals.2, n1 - 1, n2 - 1);
        lemma_cumulative_is_nonnegative(third, max_ttl, totals.2, n1 - 1);
    }
}

proof fn lemma_cumulative_is_nonnegative(
    request: RequestModel,
    max_ttl: Duration,
    total: i32,
    i: int,
)
    requires
        request_blocks(request).len() <= usize::MAX,
        0 <= i < request_profile(request, max_ttl, total).breakpoints.len(),
        forall|k: int|
            0 <= k < request_blocks(request).len() ==> (
            #[trigger] request_blocks(request)[k]).tokens >= 0,
    ensures
        request_profile(request, max_ttl, total).cumulative(i) >= 0,
{
    let profile = request_profile(request, max_ttl, total);
    let blocks = request_blocks(request);
    lemma_breakpoints_in_order(blocks, max_ttl, blocks.len());
    let at = profile.breakpoints[i].block_index;
    lemma_prefix_tokens_nonnegative(blocks, (at + 1) as nat);
}

/// Every block of the messages is a block of one of them.
pub proof fn lemma_locate(messages: Seq<MessageModel>, n: nat, x: int) -> (place: (int, int))
    requires
        0 <= x < first_messages_blocks(messages, n).len(),
    ensures
        0 <= place.0 < n,
        0 <= place.1 < blocks_of(messages[place.0].content).len(),
        x == first_messages_blocks(messages, place.0 as nat).len() + place.1,
    decreases n,
{
    let before = first_messages_blocks(messages, (n - 1) as nat);
    if x < before.len() {
        lemma_locate(messages, (n - 1) as nat, x)
    } else {
        (n - 1, x - before.len())
    }
}

/// Tells the three kinds of blocks apart.
pub open spec fn kind_of(value: JsonModel) -> Option<JsonModel> {
    member(value, "kind"@)
}

/// The three kinds of blocks say which they are.
pub proof fn lemma_kinds()
    ensures
        forall|i: usize, tool: JsonModel| #[trigger]
            kind_of(tool_value(i, tool)) == Some(JsonModel::String("tool"@)),
        forall|i: usize, block: JsonModel| #[trigger]
            kind_of(system_value(i, block)) == Some(JsonModel::String("system"@)),
        forall|m: usize, role: Seq<char>, content: JsonModel, i: int| #[trigger]
            kind_of(content_value(m, role, content, i)) == Some(JsonModel::String("message"@)),
        "tool"@ != "system"@,
        "tool"@ != "message"@,
        "system"@ != "message"@,
{
    reveal_strlit("kind");
    reveal_strlit("tool");
    reveal_strlit("role");
    reveal_strlit("block");
    reveal_strlit("shape");
    reveal_strlit("system");
    reveal_strlit("message");
    reveal_strlit("tool_index");
    reveal_strlit("block_index");
    reveal_strlit("system_index");
    reveal_strlit("message_index");
    assert("kind"@[0] != "tool"@[0]);
    assert("kind"@[0] != "role"@[0]);
    assert("kind"@.len() == 4 && "block"@.len() == 5 && "shape"@.len() == 5);
    assert("system"@.len() == 6);
    assert("tool"@.len() == 4 && "message"@.len() == 7);
    assert("tool_index"@.len() == 10 && "block_index"@.len() == 11);
    assert("system_index"@.len() == 12 && "message_index"@.len() == 13);
}

/// Blocks say where they stand.
pub proof fn lemma_numbers()
    ensures
        forall|i: usize, tool: JsonModel|
            member(#[trigger] tool_value(i, tool), "tool_index"@) == Some(
                JsonModel::Number(unsigned_number(i)),
            ),
        forall|i: usize, block: JsonModel|
            member(#[trigger] system_value(i, block), "system_index"@) == Some(
                JsonModel::Number(unsigned_number(i)),
            ),
        forall|m: usize, role: Seq<char>, content: JsonModel, i: int|
            member(#[trigger] content_value(m, role, content, i), "message_index"@) == Some(
                JsonModel::Number(unsigned_number(m)),
            ),
        forall|m: usize, role: Seq<char>, content: JsonModel, i: int|
            member(#[trigger] content_value(m, role, content, i), "block_index"@) == Some(
                JsonModel::Number(unsigned_number(i as usize)),
            ),
{
    reveal_strlit("tool");
    reveal_strlit("role");
    reveal_strlit("block");
    reveal_strlit("shape");
    reveal_strlit("tool_index");
    reveal_strlit("block_index");
    reveal_strlit("system_index");
    reveal_strlit("message_index");
    assert("tool"@.len() == 4 && "role"@.len() == 4);
    assert("block"@.len() == 5 && "shape"@.len() == 5);
    assert("tool_index"@.len() == 10 && "block_index"@.len() == 11);
    assert("system_index"@.len() == 12 && "message_index"@.len() == 13);
}

/// Blocks at different places of a request have different values, even where the tools,
/// system blocks or contents that they stand for are equal.
pub proof fn law_blocks_at_different_places_differ(request: RequestModel, x: int, y: int)
    requires
        has_own_numbers(request),
        request_blocks(request).len() <= usize::MAX,
        request.messages.len() <= usize::MAX,
        0 <= x < y < request_blocks(request).len(),
    ensures
        request_blocks(request)[x].value != request_blocks(request)[y].value,
{
    let blocks = request_blocks(request);
    let t = request.tools.len();
    let front = t + request.system.len();
    let messages = request.messages;
    lemma_kinds();
    lemma_numbers();
    if x < t {
        assert(blocks[x] == tool_block(request.tools, x));
    } else if x < front {
        assert(blocks[x] == system_block(request.system, x - t));
    }
    if y < t {
        assert(blocks[y] == tool_block(request.tools, y));
    } else if y < front {
        assert(blocks[y] == system_block(request.system, y - t));
    }
    if blocks[x].value == blocks[y].value {
        assert(kind_of(blocks[x].value) == kind_of(blocks[y].value));
        if y < t {
            assert(is_own_number(x as usize));
            assert(unsigned_number(x as usize) == unsigned_number(y as usize));
        } else if t <= x && y < front {
            assert(is_own_number((x - t) as usize));
            assert(unsigned_number((x - t) as usize) == unsigned_number((y - t) as usize));
        }
        if y >= front {
            let (m, i) = lemma_locate(messages, messages.len(), y - front);
            lemma_message_block(request, m, i);
            if x >= front {
                let (n, j) = lemma_locate(messages, messages.len(), x - front);
                lemma_message_block(request, n, j);
                assert(numbers_are_own(n as usize, blocks_of(messages[n].content).len()));
                assert(unsigned_number(m as usize) == unsigned_number(n as usize));
                assert(is_own_number(j as usize));
                assert(unsigned_number(i as usize) == unsigned_number(j as usize));
            }
        }
    }
}

/// A message whose content is a bare text has another value than a block of a message of
/// any other shape, an array with a block of that very text among them, whatever the
/// places and the roles.
pub proof fn law_a_text_differs_from_other_shapes(
    m: usize,
    text: MessageModel,
    i: int,
    n: usize,
    other: MessageModel,
    j: int,
)
    requires
        text.content is String,
        !(other.content is String),
    ensures
        message_block(m, text, i).value != message_block(n, other, j).value,
{
    reveal_strlit("kind");
    reveal_strlit("role");
    reveal_strlit("block");
    reveal_strlit("shape");
    reveal_strlit("block_index");
    reveal_strlit("message_index");
    assert("shape"@[0] != "block"@[0]);
    assert("shape"@.len() == 5 && "kind"@.len() == 4 && "role"@.len() == 4);
    assert("block_index"@.len() == 11 && "message_index"@.len() == 13);
    assert(member(message_block(m, text, i).value, "shape"@) is Some);
    assert(member(message_block(n, other, j).value, "shape"@) is None);
}

/// Where a message drifts from an array to a text, or back, the fingerprints from there
/// on differ: after the one form was recorded in an empty store, a request with the other
/// form reads at most what stands before that message.
pub proof fn law_a_message_of_another_shape_is_not_read(
    now: nat,
    id: u64,
    first: RequestModel,
    second: RequestModel,
    first_max_ttl: Duration,
    second_max_ttl: Duration,
    first_total: i32,
    second_total: i32,
    later: nat,
    m: int,
)
    requires
        has_own_texts(first),
        has_own_texts(second),
        digests_differ(first, second),
        request_blocks(first).len() <= usize::MAX,
        request_blocks(second).len() <= usize::MAX,
        first.tools.len() == second.tools.len(),
        first.system.len() == second.system.len(),
        0 <= m < first.messages.len(),
        m < second.messages.len(),
        first.messages.take(m) == second.messages.take(m),
        first.messages[m].content is String <==> !(second.messages[m].content is String),
        blocks_of(first.messages[m].content).len() > 0,
        blocks_of(second.messages[m].content).len() > 0,
    ensures
        ({
            let p = request_profile(first, first_max_ttl, first_total);
            let q = request_profile(second, second_max_ttl, second_total);
            match hit(live(entries_of(recorded_alone(now, id, p), id), later), q) {
                Some(i) => q.breakpoints[i].block_index < message_start(second, m),
                None => true,
            }
        }),
{
    let p = request_profile(first, first_max_ttl, first_total);
    let q = request_profile(second, second_max_ttl, second_total);
    let x = first.messages[m];
    let y = second.messages[m];
    law_only_equal_prefixes_are_read(
        now,
        id,
        first,
        second,
        first_max_ttl,
        second_max_ttl,
        first_total,
        second_total,
        later,
    );
    lemma_messages_extend(first.messages.take(m), first.messages, m as nat, m as nat);
    lemma_messages_extend(second.messages.take(m), second.messages, m as nat, m as nat);
    let start = message_start(second, m);
    assert(message_start(first, m) == start);
    lemma_message_block(first, m, 0);
    lemma_message_block(second, m, 0);
    if x.content is String {
        law_a_text_differs_from_other_shapes(m as usize, x, 0, m as usize, y, 0);
    } else {
        law_a_text_differs_from_other_shapes(m as usize, y, 0, m as usize, x, 0);
    }
    assert(request_blocks(first)[start].value != request_blocks(second)[start].value);
}

} // verus!
