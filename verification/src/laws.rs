//! What holds of the cache as a whole.

use crate::flatten::{
    content_marker, first_messages_blocks, is_billing_header, masked_system_block, message_block,
    message_blocks, request_blocks, system_block, system_blocks, tool_block, tools_blocks,
    PendingModel,
};
use crate::json::{without_cache_control, JsonModel};
use crate::profile::{
    active_ttl, blocks_profile, breakpoints_among, lemma_blocks_profile_wf,
    lemma_breakpoints_in_order, own_ttl, prefix_fingerprint, prefix_tokens, ttl_at, CacheBreakpoint,
    ProfileModel,
};
use crate::request::{
    blocks_of, cache_ttl, MessageModel, RequestModel, DEFAULT_CACHE_TTL_SECS,
    ONE_HOUR_CACHE_TTL_SECS,
};
use crate::store::{
    after_lookup, after_update, entries_of, has_live, hit, latest_match, live, lookback_start,
    lookup_result, matched_tokens, pruned, recorded, CacheEntry,
};
use crate::time::{Duration, Instant};
use crate::tokens::{greater, lesser};
use crate::tracker::{request_profile, request_seed};
use vstd::prelude::*;

verus! {

/// What is read from the cache and what is written to it make up the whole request,
/// unless the matched prefix has a negative token count.
pub proof fn law_read_and_creation_cover_the_request(
    store: Map<u64, Map<[u8; 32], CacheEntry>>,
    now: nat,
    id: u64,
    profile: ProfileModel,
)
    requires
        profile.wf(),
        profile.breakpoints.len() > 0,
        matched_tokens(live(entries_of(store, id), now), profile) >= 0,
    ensures
        ({
            let result = lookup_result(store, now, id, profile);
            result.cache_read_input_tokens + result.cache_creation_input_tokens == profile.total
        }),
{
}

/// The tokens to be written are divided by lifetime without rest, and only one of the two
/// lifetimes has any: an hour if that is the lifetime of the last breakpoint, else five
/// minutes.
pub proof fn law_creation_is_divided_by_lifetime(
    store: Map<u64, Map<[u8; 32], CacheEntry>>,
    now: nat,
    id: u64,
    profile: ProfileModel,
)
    ensures
        ({
            let result = lookup_result(store, now, id, profile);
            &&& result.cache_creation_5m_input_tokens + result.cache_creation_1h_input_tokens
                == result.cache_creation_input_tokens
            &&& profile.breakpoints.len() > 0 && profile.breakpoints.last().ttl.total()
                == Duration::from_secs(ONE_HOUR_CACHE_TTL_SECS).total() ==>
                result.cache_creation_5m_input_tokens == 0
            &&& profile.breakpoints.len() > 0 && profile.breakpoints.last().ttl.total()
                != Duration::from_secs(ONE_HOUR_CACHE_TTL_SECS).total() ==>
                result.cache_creation_1h_input_tokens == 0
        }),
{
}

/// No token count of a result is negative, and no more is read than the request has.
pub proof fn law_results_are_bounded(
    store: Map<u64, Map<[u8; 32], CacheEntry>>,
    now: nat,
    id: u64,
    profile: ProfileModel,
)
    requires
        profile.wf(),
    ensures
        ({
            let result = lookup_result(store, now, id, profile);
            &&& 0 <= result.cache_read_input_tokens <= profile.total
            &&& 0 <= result.cache_creation_input_tokens
            &&& 0 <= result.cache_creation_5m_input_tokens
            &&& 0 <= result.cache_creation_1h_input_tokens
        }),
{
}

/// What a hit means: the breakpoint is one of the last ten, its prefix is among the
/// entries, and no later breakpoint's is. Without a hit none of the last ten breakpoints'
/// prefixes is among the entries.
pub proof fn law_hit_is_the_latest_of_the_last_ten(
    entries: Map<[u8; 32], CacheEntry>,
    profile: ProfileModel,
)
    ensures
        match hit(entries, profile) {
            Some(i) => {
                &&& 0 <= i < profile.breakpoints.len()
                &&& i >= profile.breakpoints.len() - 10
                &&& entries.contains_key(profile.fingerprint(i))
                &&& forall|k: int|
                    i < k < profile.breakpoints.len() ==> !entries.contains_key(
                        #[trigger] profile.fingerprint(k),
                    )
            },
            None => forall|k: int|
                0 <= k < profile.breakpoints.len() && k >= profile.breakpoints.len() - 10
                    ==> !entries.contains_key(#[trigger] profile.fingerprint(k)),
        },
{
    lemma_latest_match(
        entries,
        profile,
        lookback_start(profile),
        profile.breakpoints.len() as int,
    );
}

proof fn lemma_latest_match(
    entries: Map<[u8; 32], CacheEntry>,
    profile: ProfileModel,
    low: int,
    n: int,
)
    ensures
        match latest_match(entries, profile, low, n) {
            Some(i) => {
                &&& low <= i < n
                &&& entries.contains_key(profile.fingerprint(i))
                &&& forall|k: int|
                    i < k < n ==> !entries.contains_key(#[trigger] profile.fingerprint(k))
            },
            None => forall|k: int|
                low <= k < n ==> !entries.contains_key(#[trigger] profile.fingerprint(k)),
        },
    decreases n - low,
{
    if n > low && !entries.contains_key(profile.fingerprint(n - 1)) {
        lemma_latest_match(entries, profile, low, n - 1);
    }
}

/// A prefix that is read from the cache has not expired.
pub proof fn law_expired_entries_are_not_read(
    store: Map<u64, Map<[u8; 32], CacheEntry>>,
    now: nat,
    id: u64,
    profile: ProfileModel,
)
    ensures
        match hit(live(entries_of(store, id), now), profile) {
            Some(i) => {
                &&& store.contains_key(id)
                &&& store[id].contains_key(profile.fingerprint(i))
                &&& store[id][profile.fingerprint(i)].expires_at > now
            },
            None => true,
        },
        lookup_result(store, now, id, profile) == lookup_result(
            pruned(store, now),
            now,
            id,
            profile,
        ),
{
    law_hit_is_the_latest_of_the_last_ten(live(entries_of(store, id), now), profile);
    lemma_live_of_pruned(store, now, now, id);
}

proof fn lemma_live_of_pruned(
    store: Map<u64, Map<[u8; 32], CacheEntry>>,
    now: nat,
    later: nat,
    id: u64,
)
    requires
        now <= later,
    ensures
        live(entries_of(pruned(store, now), id), later) == live(entries_of(store, id), later),
{
    let a = live(entries_of(pruned(store, now), id), later);
    let b = live(entries_of(store, id), later);
    assert forall|f: [u8; 32]| #[trigger] a.contains_key(f) <==> b.contains_key(f) by {
        if b.contains_key(f) {
            assert(live(store[id], now).contains_key(f));
        }
    }
    assert(a =~= b);
}

/// The tokens that are read are those that the prefix has in the request at hand: they
/// depend on which prefixes are cached, and not on what the entries say of them.
pub proof fn law_tokens_are_those_of_the_request(
    store: Map<u64, Map<[u8; 32], CacheEntry>>,
    other: Map<u64, Map<[u8; 32], CacheEntry>>,
    now: nat,
    id: u64,
    profile: ProfileModel,
)
    requires
        live(entries_of(store, id), now).dom() == live(entries_of(other, id), now).dom(),
    ensures
        lookup_result(store, now, id, profile) == lookup_result(other, now, id, profile),
{
    lemma_match_by_keys(
        live(entries_of(store, id), now),
        live(entries_of(other, id), now),
        profile,
        lookback_start(profile),
        profile.breakpoints.len() as int,
    );
}

proof fn lemma_match_by_keys(
    a: Map<[u8; 32], CacheEntry>,
    b: Map<[u8; 32], CacheEntry>,
    profile: ProfileModel,
    low: int,
    n: int,
)
    requires
        a.dom() == b.dom(),
    ensures
        latest_match(a, profile, low, n) == latest_match(b, profile, low, n),
    decreases n - low,
{
    if n > low {
        lemma_match_by_keys(a, b, profile, low, n - 1);
        assert(a.dom().contains(profile.fingerprint(n - 1)) == b.dom().contains(
            profile.fingerprint(n - 1),
        ));
    }
}

/// A credential without an entry that has not expired reads nothing, and the whole
/// request is to be written.
pub proof fn law_first_request_writes_everything(
    store: Map<u64, Map<[u8; 32], CacheEntry>>,
    now: nat,
    id: u64,
    profile: ProfileModel,
)
    requires
        profile.wf(),
        profile.breakpoints.len() > 0,
        !has_live(entries_of(store, id), now),
    ensures
        ({
            let result = lookup_result(store, now, id, profile);
            &&& result.cache_read_input_tokens == 0
            &&& result.cache_creation_input_tokens == profile.total
        }),
{
    law_hit_is_the_latest_of_the_last_ten(live(entries_of(store, id), now), profile);
}

/// Looking up changes no later lookup, of whatever credential.
pub proof fn law_lookup_leaves_later_lookups_alone(
    store: Map<u64, Map<[u8; 32], CacheEntry>>,
    now: nat,
    looked_up: ProfileModel,
    later: nat,
    id: u64,
    profile: ProfileModel,
)
    requires
        now <= later,
    ensures
        lookup_result(after_lookup(store, now, looked_up), later, id, profile) == lookup_result(
            store,
            later,
            id,
            profile,
        ),
{
    lemma_live_of_pruned(store, now, later, id);
}

/// What is recorded for one credential changes no later lookup of another.
pub proof fn law_credentials_do_not_share(
    store: Map<u64, Map<[u8; 32], CacheEntry>>,
    now: nat,
    id: u64,
    recorded_profile: ProfileModel,
    later: nat,
    other: u64,
    profile: ProfileModel,
)
    requires
        now <= later,
        id != other,
    ensures
        lookup_result(after_update(store, now, id, recorded_profile), later, other, profile)
            == lookup_result(store, later, other, profile),
{
    lemma_live_of_pruned(store, now, later, other);
    assert(entries_of(after_update(store, now, id, recorded_profile), other) == entries_of(
        pruned(store, now),
        other,
    ));
}

/// `tokens` is the greatest of `base`, if there is one, and of the counts that the first
/// `n` breakpoints with the fingerprint have.
pub open spec fn is_greatest_count(
    tokens: i32,
    base: Option<i32>,
    profile: ProfileModel,
    n: nat,
    fingerprint: [u8; 32],
) -> bool {
    &&& base is Some ==> tokens >= base->0
    &&& forall|i: int|
        0 <= i < n && #[trigger] profile.fingerprint(i) == fingerprint ==> tokens
            >= profile.cumulative(i)
    &&& base == Some(tokens) || exists|i: int|
        0 <= i < n && #[trigger] profile.fingerprint(i) == fingerprint && tokens
            == profile.cumulative(i)
}

/// Recording keeps every entry that has not expired: its lifetime and its end stay what
/// the first writing made them, whatever lifetime is asked for now. Its token count is
/// the greatest of what it was and of the counts of the breakpoints that it is recorded
/// for; the entries of other credentials stay as they are.
pub proof fn law_recording_does_not_extend_entries(
    store: Map<u64, Map<[u8; 32], CacheEntry>>,
    now: nat,
    id: u64,
    profile: ProfileModel,
    owner: u64,
    fingerprint: [u8; 32],
)
    requires
        live(entries_of(store, owner), now).contains_key(fingerprint),
    ensures
        ({
            let before = store[owner][fingerprint];
            let after = entries_of(after_update(store, now, id, profile), owner);
            &&& after.contains_key(fingerprint)
            &&& after[fingerprint].expires_at == before.expires_at
            &&& after[fingerprint].ttl == before.ttl
            &&& owner == id ==> is_greatest_count(
                after[fingerprint].token_count,
                Some(before.token_count),
                profile,
                profile.breakpoints.len(),
                fingerprint,
            )
            &&& owner != id ==> after[fingerprint] == before
        }),
{
    assert(has_live(store[owner], now));
    let before = entries_of(pruned(store, now), owner);
    assert(before.contains_key(fingerprint));
    if owner == id {
        lemma_recorded_keeps(before, now, profile, profile.breakpoints.len(), fingerprint);
    }
}

/// The fingerprint of the breakpoint `i` is that of no other breakpoint of the profile.
pub open spec fn is_single(profile: ProfileModel, i: int) -> bool {
    forall|k: int|
        0 <= k < profile.breakpoints.len() && k != i ==> #[trigger] profile.fingerprint(k)
            != profile.fingerprint(i)
}

/// An entry that has not expired and is recorded again for one breakpoint keeps its
/// lifetime and its end, and has the greater of the two token counts.
pub proof fn law_recorded_again_takes_the_greater(
    store: Map<u64, Map<[u8; 32], CacheEntry>>,
    now: nat,
    id: u64,
    profile: ProfileModel,
    i: int,
)
    requires
        0 <= i < profile.breakpoints.len(),
        is_single(profile, i),
        live(entries_of(store, id), now).contains_key(profile.fingerprint(i)),
    ensures
        ({
            let before = store[id][profile.fingerprint(i)];
            let after = after_update(store, now, id, profile)[id];
            &&& after.contains_key(profile.fingerprint(i))
            &&& after[profile.fingerprint(i)] == (CacheEntry {
                token_count: greater(before.token_count, profile.cumulative(i)),
                ttl: before.ttl,
                expires_at: before.expires_at,
            })
        }),
{
    law_recording_does_not_extend_entries(store, now, id, profile, id, profile.fingerprint(i));
}

proof fn lemma_recorded_keeps(
    entries: Map<[u8; 32], CacheEntry>,
    now: nat,
    profile: ProfileModel,
    n: nat,
    fingerprint: [u8; 32],
)
    requires
        entries.contains_key(fingerprint),
    ensures
        ({
            let after = recorded(entries, now, profile, n);
            &&& after.contains_key(fingerprint)
            &&& after[fingerprint].expires_at == entries[fingerprint].expires_at
            &&& after[fingerprint].ttl == entries[fingerprint].ttl
            &&& is_greatest_count(
                after[fingerprint].token_count,
                Some(entries[fingerprint].token_count),
                profile,
                n,
                fingerprint,
            )
        }),
    decreases n,
{
    if n > 0 {
        lemma_recorded_keeps(entries, now, profile, (n - 1) as nat, fingerprint);
        let before = recorded(entries, now, profile, (n - 1) as nat)[fingerprint];
        lemma_greatest_count_grows(
            before.token_count,
            Some(entries[fingerprint].token_count),
            profile,
            n,
            fingerprint,
        );
    }
}

proof fn lemma_greatest_count_grows(
    tokens: i32,
    base: Option<i32>,
    profile: ProfileModel,
    n: nat,
    fingerprint: [u8; 32],
)
    requires
        n > 0,
        is_greatest_count(tokens, base, profile, (n - 1) as nat, fingerprint),
    ensures
        is_greatest_count(
            if profile.fingerprint(n - 1) == fingerprint {
                greater(tokens, profile.cumulative(n - 1))
            } else {
                tokens
            },
            base,
            profile,
            n,
            fingerprint,
        ),
{
    if profile.fingerprint(n - 1) == fingerprint && tokens < profile.cumulative(n - 1) {
        assert(profile.fingerprint(n - 1) == fingerprint && profile.cumulative(n - 1)
            == greater(tokens, profile.cumulative(n - 1)));
    } else if base != Some(tokens) {
        let i = choose|i: int|
            0 <= i < n - 1 && #[trigger] profile.fingerprint(i) == fingerprint && tokens
                == profile.cumulative(i);
        assert(0 <= i < n && profile.fingerprint(i) == fingerprint);
    }
}

/// Recording leaves the prefix of every breakpoint.
pub proof fn lemma_recorded_contains(
    entries: Map<[u8; 32], CacheEntry>,
    now: nat,
    profile: ProfileModel,
    n: nat,
    i: int,
)
    requires
        0 <= i < n,
    ensures
        recorded(entries, now, profile, n).contains_key(profile.fingerprint(i)),
    decreases n,
{
    if i < n - 1 {
        lemma_recorded_contains(entries, now, profile, (n - 1) as nat, i);
    }
}

/// The prefix of a breakpoint that was not cached before, or whose entry has expired, is
/// cached afresh: with the lifetime of the first breakpoint that it is recorded for, for
/// that lifetime from now on, and with the greatest of the counts of the breakpoints that
/// it is recorded for. Nothing of an expired entry is left.
pub proof fn law_new_entry_lives_for_its_lifetime(
    store: Map<u64, Map<[u8; 32], CacheEntry>>,
    now: Instant,
    id: u64,
    profile: ProfileModel,
    i: int,
)
    requires
        0 <= i < profile.breakpoints.len(),
        !live(entries_of(store, id), now.total()).contains_key(profile.fingerprint(i)),
        forall|k: int|
            0 <= k < i ==> #[trigger] profile.fingerprint(k) != profile.fingerprint(i),
    ensures
        ({
            let after = after_update(store, now.total(), id, profile)[id];
            let entry = after[profile.fingerprint(i)];
            &&& after.contains_key(profile.fingerprint(i))
            &&& entry.ttl == profile.breakpoints[i].ttl
            &&& entry.expires_at == now.total() + profile.breakpoints[i].ttl.total()
            &&& is_greatest_count(
                entry.token_count,
                None,
                profile,
                profile.breakpoints.len(),
                profile.fingerprint(i),
            )
            &&& is_single(profile, i) ==> entry.token_count == profile.cumulative(i)
        }),
{
    let before = entries_of(pruned(store, now.total()), id);
    assert(!before.contains_key(profile.fingerprint(i)));
    lemma_recorded_afresh(before, now, profile, profile.breakpoints.len(), i);
}

proof fn lemma_recorded_afresh(
    entries: Map<[u8; 32], CacheEntry>,
    now: Instant,
    profile: ProfileModel,
    n: nat,
    i: int,
)
    requires
        0 <= i < n,
        !entries.contains_key(profile.fingerprint(i)),
        forall|k: int|
            0 <= k < i ==> #[trigger] profile.fingerprint(k) != profile.fingerprint(i),
    ensures
        ({
            let after = recorded(entries, now.total(), profile, n);
            let entry = after[profile.fingerprint(i)];
            &&& after.contains_key(profile.fingerprint(i))
            &&& entry.ttl == profile.breakpoints[i].ttl
            &&& entry.expires_at == now.total() + profile.breakpoints[i].ttl.total()
            &&& is_greatest_count(entry.token_count, None, profile, n, profile.fingerprint(i))
        }),
    decreases n,
{
    let fingerprint = profile.fingerprint(i);
    if i < n - 1 {
        lemma_recorded_afresh(entries, now, profile, (n - 1) as nat, i);
        let before = recorded(entries, now.total(), profile, (n - 1) as nat)[fingerprint];
        lemma_greatest_count_grows(before.token_count, None, profile, n, fingerprint);
    } else {
        let before = recorded(entries, now.total(), profile, i as nat);
        if before.contains_key(fingerprint) {
            lemma_recorded_only(entries, now.total(), profile, i as nat, fingerprint);
        }
        assert(profile.fingerprint(i) == fingerprint);
    }
}

/// Recording the same profile twice is recording it once: while no entry has come to its
/// end in between, the second time changes nothing, of whatever credential. Every
/// lifetime must be above zero, else the first recording leaves entries that have expired
/// at once.
pub proof fn law_recording_twice_is_recording_once(
    store: Map<u64, Map<[u8; 32], CacheEntry>>,
    now: Instant,
    later: nat,
    id: u64,
    profile: ProfileModel,
)
    requires
        now.total() <= later,
        forall|i: int|
            0 <= i < profile.breakpoints.len() ==> (
            #[trigger] profile.breakpoints[i]).ttl.total() > 0,
        ({
            let once = after_update(store, now.total(), id, profile);
            forall|owner: u64, fingerprint: [u8; 32]|
                once.contains_key(owner) && #[trigger] once[owner].contains_key(fingerprint) ==> !(
                now.total() < once[owner][fingerprint].expires_at <= later)
        }),
    ensures
        ({
            let once = after_update(store, now.total(), id, profile);
            after_update(once, later, id, profile) == once
        }),
{
    let n = profile.breakpoints.len();
    let left = pruned(store, now.total());
    let once = after_update(store, now.total(), id, profile);
    assert forall|owner: u64, fingerprint: [u8; 32]|
        once.contains_key(owner) && #[trigger] once[owner].contains_key(
            fingerprint,
        ) implies once[owner][fingerprint].expires_at > later by {
        if owner == id {
            lemma_recorded_ends_later(
                entries_of(left, id),
                now,
                profile,
                n,
                fingerprint,
            );
        }
    }
    assert forall|owner: u64| #[trigger] once.contains_key(owner) implies live(
        once[owner],
        later,
    ) == once[owner] by {
        assert(live(once[owner], later) =~= once[owner]);
    }
    let twice = after_update(once, later, id, profile);
    assert(entries_of(pruned(once, later), id) =~= once[id]) by {
        if !has_live(once[id], later) {
            assert forall|f: [u8; 32]| !once[id].contains_key(f) by {
                if once[id].contains_key(f) {
                    assert(live(once[id], later).contains_key(f));
                }
            }
        }
    }
    assert forall|i: int| 0 <= i < n implies once[id].contains_key(
        #[trigger] profile.fingerprint(i),
    ) && once[id][profile.fingerprint(i)].token_count >= profile.cumulative(i) by {
        lemma_recorded_contains(entries_of(left, id), now.total(), profile, n, i);
        lemma_recorded_covers(entries_of(left, id), now.total(), profile, n, i);
    }
    lemma_recorded_nothing_new(once[id], later, profile, n);
    assert forall|owner: u64| #[trigger] once.contains_key(owner) <==> twice.contains_key(
        owner,
    ) by {
        if once.contains_key(owner) && owner != id {
            assert(has_live(store[owner], now.total()));
            let f = choose|f: [u8; 32]| #[trigger]
                live(store[owner], now.total()).contains_key(f);
            assert(once[owner].contains_key(f));
            assert(live(once[owner], later).contains_key(f));
        }
    }
    assert(twice =~= once);
}

proof fn lemma_recorded_ends_later(
    entries: Map<[u8; 32], CacheEntry>,
    now: Instant,
    profile: ProfileModel,
    n: nat,
    fingerprint: [u8; 32],
)
    requires
        n <= profile.breakpoints.len(),
        forall|i: int|
            0 <= i < profile.breakpoints.len() ==> (
            #[trigger] profile.breakpoints[i]).ttl.total() > 0,
        forall|f: [u8; 32]| #[trigger]
            entries.contains_key(f) ==> entries[f].expires_at > now.total(),
        recorded(entries, now.total(), profile, n).contains_key(fingerprint),
    ensures
        recorded(entries, now.total(), profile, n)[fingerprint].expires_at > now.total(),
    decreases n,
{
    if n > 0 {
        let before = recorded(entries, now.total(), profile, (n - 1) as nat);
        if before.contains_key(fingerprint) {
            lemma_recorded_ends_later(entries, now, profile, (n - 1) as nat, fingerprint);
        } else {
            assert(profile.breakpoints[n - 1].ttl.total() > 0);
        }
    }
}

proof fn lemma_recorded_covers(
    entries: Map<[u8; 32], CacheEntry>,
    now: nat,
    profile: ProfileModel,
    n: nat,
    i: int,
)
    requires
        0 <= i < n,
    ensures
        recorded(entries, now, profile, n)[profile.fingerprint(i)].token_count
            >= profile.cumulative(i),
    decreases n,
{
    if i < n - 1 {
        lemma_recorded_covers(entries, now, profile, (n - 1) as nat, i);
        lemma_recorded_contains(entries, now, profile, (n - 1) as nat, i);
    }
}

proof fn lemma_recorded_nothing_new(
    entries: Map<[u8; 32], CacheEntry>,
    now: nat,
    profile: ProfileModel,
    n: nat,
)
    requires
        forall|i: int|
            0 <= i < n ==> entries.contains_key(#[trigger] profile.fingerprint(i))
                && entries[profile.fingerprint(i)].token_count >= profile.cumulative(i),
    ensures
        recorded(entries, now, profile, n) == entries,
    decreases n,
{
    if n > 0 {
        lemma_recorded_nothing_new(entries, now, profile, (n - 1) as nat);
        assert(entries.contains_key(profile.fingerprint(n - 1)));
        assert(recorded(entries, now, profile, n) =~= entries);
    }
}

/// After recording, no entry is left that had expired before: what the store holds, of
/// whatever credential, has not expired or was written just now.
pub proof fn law_recording_drops_what_has_expired(
    store: Map<u64, Map<[u8; 32], CacheEntry>>,
    now: nat,
    id: u64,
    profile: ProfileModel,
    owner: u64,
    fingerprint: [u8; 32],
)
    requires
        entries_of(after_update(store, now, id, profile), owner).contains_key(fingerprint),
    ensures
        live(entries_of(store, owner), now).contains_key(fingerprint) || owner == id && exists|
            i: int,
        |
            0 <= i < profile.breakpoints.len() && #[trigger] profile.fingerprint(i) == fingerprint,
{
    if owner == id {
        lemma_recorded_only(
            entries_of(pruned(store, now), id),
            now,
            profile,
            profile.breakpoints.len(),
            fingerprint,
        );
    }
}

/// What recording leaves was there before or is the prefix of a breakpoint.
pub proof fn lemma_recorded_only(
    entries: Map<[u8; 32], CacheEntry>,
    now: nat,
    profile: ProfileModel,
    n: nat,
    fingerprint: [u8; 32],
)
    requires
        recorded(entries, now, profile, n).contains_key(fingerprint),
    ensures
        entries.contains_key(fingerprint) || exists|i: int|
            0 <= i < n && #[trigger] profile.fingerprint(i) == fingerprint,
    decreases n,
{
    if n > 0 && profile.fingerprint(n - 1) != fingerprint {
        lemma_recorded_only(entries, now, profile, (n - 1) as nat, fingerprint);
    }
}

/// A request whose last prefix was recorded, and has not expired since, is read from the
/// cache as a whole, and nothing is to be written.
pub proof fn law_recorded_request_is_read_whole(
    store: Map<u64, Map<[u8; 32], CacheEntry>>,
    now: nat,
    id: u64,
    recorded_profile: ProfileModel,
    later: nat,
    profile: ProfileModel,
)
    requires
        recorded_profile.wf(),
        profile.wf(),
        recorded_profile.breakpoints.len() > 0,
        profile.breakpoints.len() > 0,
        profile.fingerprint(profile.breakpoints.len() - 1) == recorded_profile.fingerprint(
            recorded_profile.breakpoints.len() - 1,
        ),
        later < after_update(store, now, id, recorded_profile)[id][profile.fingerprint(
            profile.breakpoints.len() - 1,
        )].expires_at,
    ensures
        ({
            let after = after_update(store, now, id, recorded_profile);
            let result = lookup_result(after, later, id, profile);
            &&& result.cache_read_input_tokens == profile.total
            &&& result.cache_creation_input_tokens == 0
        }),
{
    let n = recorded_profile.breakpoints.len();
    lemma_recorded_contains(
        entries_of(pruned(store, now), id),
        now,
        recorded_profile,
        n,
        n - 1,
    );
}

/// `longer` is `request` with further messages at its end.
pub open spec fn extends(request: RequestModel, longer: RequestModel) -> bool {
    &&& longer.model == request.model
    &&& longer.tool_choice == request.tool_choice
    &&& longer.tools == request.tools
    &&& longer.system == request.system
    &&& request.messages.is_prefix_of(longer.messages)
}

/// The blocks of further messages follow those of the first.
pub proof fn lemma_messages_extend(
    messages: Seq<MessageModel>,
    longer: Seq<MessageModel>,
    n: nat,
    m: nat,
)
    requires
        messages.is_prefix_of(longer),
        n <= messages.len(),
        n <= m,
    ensures
        first_messages_blocks(longer, n) == first_messages_blocks(messages, n),
        first_messages_blocks(messages, n).is_prefix_of(first_messages_blocks(longer, m)),
    decreases n + m,
{
    if n > 0 {
        assert(messages[n - 1] == longer[n - 1]);
        lemma_messages_extend(messages, longer, (n - 1) as nat, (n - 1) as nat);
    }
    if m > n {
        lemma_messages_extend(messages, longer, n, (m - 1) as nat);
    }
}

/// The blocks of a longer request begin with those of the shorter one.
pub proof fn lemma_blocks_extend(request: RequestModel, longer: RequestModel)
    requires
        extends(request, longer),
    ensures
        request_blocks(request).is_prefix_of(request_blocks(longer)),
{
    lemma_messages_extend(
        request.messages,
        longer.messages,
        request.messages.len(),
        longer.messages.len(),
    );
    let tail = first_messages_blocks(request.messages, request.messages.len());
    let longer_tail = first_messages_blocks(longer.messages, longer.messages.len());
    assert(request_blocks(longer).take(request_blocks(request).len() as int)
        =~= request_blocks(request));
}

/// What is known of the first blocks does not depend on those after them.
pub proof fn lemma_prefix_blocks(
    seed: Seq<u8>,
    blocks: Seq<PendingModel>,
    longer: Seq<PendingModel>,
    max_ttl: Duration,
    n: nat,
)
    requires
        blocks.is_prefix_of(longer),
        n <= blocks.len(),
    ensures
        prefix_tokens(longer, n) == prefix_tokens(blocks, n),
        active_ttl(longer, max_ttl, n) == active_ttl(blocks, max_ttl, n),
        breakpoints_among(longer, max_ttl, n) == breakpoints_among(blocks, max_ttl, n),
        n > 0 ==> prefix_fingerprint(seed, longer, (n - 1) as nat) == prefix_fingerprint(
            seed,
            blocks,
            (n - 1) as nat,
        ),
    decreases n,
{
    if n > 0 {
        assert(longer[n - 1] == blocks[n - 1]);
        lemma_prefix_blocks(seed, blocks, longer, max_ttl, (n - 1) as nat);
    }
}

proof fn lemma_breakpoints_grow(blocks: Seq<PendingModel>, max_ttl: Duration, m: nat, n: nat)
    requires
        m <= n,
    ensures
        breakpoints_among(blocks, max_ttl, m).is_prefix_of(breakpoints_among(blocks, max_ttl, n)),
    decreases n - m,
{
    if m < n {
        lemma_breakpoints_grow(blocks, max_ttl, m, (n - 1) as nat);
    }
}

/// Messages at the end of a request leave what stands before them as it was: the
/// breakpoints of the shorter request are the first breakpoints of the longer one, with
/// the same fingerprints. The tokens of the prefixes are the same too, but at the last
/// breakpoint of the shorter request, which covers the total of that request and so may
/// have more.
pub proof fn law_appended_messages_keep_the_prefix(
    request: RequestModel,
    longer: RequestModel,
    max_ttl: Duration,
    total: i32,
    longer_total: i32,
)
    requires
        extends(request, longer),
        request_blocks(longer).len() <= usize::MAX,
    ensures
        ({
            let before = request_profile(request, max_ttl, total);
            let after = request_profile(longer, max_ttl, longer_total);
            let n = before.breakpoints.len();
            &&& before.breakpoints.is_prefix_of(after.breakpoints)
            &&& forall|i: int|
                0 <= i < n ==> #[trigger] after.fingerprint(i) == before.fingerprint(i)
            &&& forall|i: int|
                0 <= i < n - 1 ==> #[trigger] after.cumulative(i) == before.cumulative(i)
            &&& 0 < n < after.breakpoints.len() ==> after.cumulative(n - 1) <= before.cumulative(
                n - 1,
            )
        }),
{
    let before = request_profile(request, max_ttl, total);
    let after = request_profile(longer, max_ttl, longer_total);
    let blocks = request_blocks(request);
    let longer_blocks = request_blocks(longer);
    let seed = request_seed(request);
    let n = before.breakpoints.len();
    lemma_blocks_extend(request, longer);
    assert(request_seed(longer) == seed);
    lemma_prefix_blocks(seed, blocks, longer_blocks, max_ttl, blocks.len());
    lemma_breakpoints_grow(longer_blocks, max_ttl, blocks.len(), longer_blocks.len());
    lemma_breakpoints_in_order(blocks, max_ttl, blocks.len());
    lemma_breakpoints_in_order(longer_blocks, max_ttl, longer_blocks.len());
    assert forall|i: int| 0 <= i < n implies after.breakpoints[i] == before.breakpoints[i] by {
        assert(before.breakpoints == after.breakpoints.subrange(0, n as int));
    }
    assert forall|i: int| 0 <= i < n implies #[trigger] after.fingerprint(i) == before.fingerprint(
        i,
    ) by {
        let at = before.breakpoints[i].block_index;
        assert(after.breakpoints[i] == before.breakpoints[i]);
        lemma_prefix_blocks(seed, blocks, longer_blocks, max_ttl, (at + 1) as nat);
    }
    assert forall|i: int|
        0 <= i < n && i < after.breakpoints.len() - 1 implies #[trigger] after.cumulative(
        i,
    ) == prefix_tokens(blocks, (before.breakpoints[i].block_index + 1) as nat) by {
        let at = before.breakpoints[i].block_index;
        assert(after.breakpoints[i] == before.breakpoints[i]);
        lemma_prefix_blocks(seed, blocks, longer_blocks, max_ttl, (at + 1) as nat);
        assert(after.breakpoints[i].block_index < after.breakpoints[after.breakpoints.len()
            - 1].block_index);
    }
    assert forall|i: int| 0 <= i < n - 1 implies #[trigger] after.cumulative(i)
        == before.cumulative(i) by {
        assert(before.breakpoints[i].block_index < before.breakpoints[n - 1].block_index);
    }
}

/// After a request was recorded, a longer request with the same beginning reads at least
/// that beginning from the cache, while it has fewer than ten new breakpoints and the
/// beginning has not expired: the breakpoint that is hit is the last one of the recorded
/// request or a later one. With token counts that an `i32` can hold, no fewer tokens are
/// read than that beginning has.
pub proof fn law_appended_turn_reads_the_recorded_prefix(
    store: Map<u64, Map<[u8; 32], CacheEntry>>,
    now: nat,
    id: u64,
    request: RequestModel,
    longer: RequestModel,
    max_ttl: Duration,
    total: i32,
    longer_total: i32,
    later: nat,
)
    requires
        extends(request, longer),
        request_blocks(longer).len() <= usize::MAX,
        ({
            let before = request_profile(request, max_ttl, total);
            let after = request_profile(longer, max_ttl, longer_total);
            let n = before.breakpoints.len();
            &&& n > 0
            &&& after.breakpoints.len() - n < 10
            &&& later < after_update(store, now, id, before)[id][before.fingerprint(
                n - 1,
            )].expires_at
        }),
    ensures
        ({
            let before = request_profile(request, max_ttl, total);
            let after = request_profile(longer, max_ttl, longer_total);
            let n = before.breakpoints.len();
            let left = after_update(store, now, id, before);
            match hit(live(entries_of(left, id), later), after) {
                Some(i) => i >= n - 1,
                None => false,
            }
        }),
        (forall|i: int|
            0 <= i < request_blocks(longer).len() ==> (
            #[trigger] request_blocks(longer)[i]).tokens >= 0) ==> ({
            let before = request_profile(request, max_ttl, total);
            let after = request_profile(longer, max_ttl, longer_total);
            let left = after_update(store, now, id, before);
            lookup_result(left, later, id, after).cache_read_input_tokens >= lesser(
                after.cumulative(before.breakpoints.len() - 1),
                after.total,
            )
        }),
{
    let before = request_profile(request, max_ttl, total);
    let after = request_profile(longer, max_ttl, longer_total);
    let n = before.breakpoints.len();
    let left = after_update(store, now, id, before);
    law_appended_messages_keep_the_prefix(request, longer, max_ttl, total, longer_total);
    lemma_recorded_contains(entries_of(pruned(store, now), id), now, before, n, n - 1);
    let entries = live(entries_of(left, id), later);
    assert(after.fingerprint(n - 1) == before.fingerprint(n - 1));
    assert(entries.contains_key(after.fingerprint(n - 1)));
    law_hit_is_the_latest_of_the_last_ten(entries, after);
    let blocks = request_blocks(longer);
    if forall|i: int| 0 <= i < blocks.len() ==> (#[trigger] blocks[i]).tokens >= 0 {
        lemma_blocks_profile_wf(request_seed(longer), blocks, max_ttl, longer_total);
        let i = hit(entries, after)->0;
        lemma_cumulative_grows(request_seed(longer), blocks, max_ttl, longer_total, n - 1, i);
    }
}

proof fn lemma_prefix_tokens_grow(blocks: Seq<PendingModel>, m: nat, n: nat)
    requires
        m <= n <= blocks.len(),
        forall|i: int| 0 <= i < blocks.len() ==> (#[trigger] blocks[i]).tokens >= 0,
    ensures
        prefix_tokens(blocks, m) <= prefix_tokens(blocks, n),
    decreases n - m,
{
    if m < n {
        lemma_prefix_tokens_grow(blocks, m, (n - 1) as nat);
    }
}

/// Without negative counts, later breakpoints have no fewer tokens.
pub proof fn lemma_cumulative_grows(
    seed: Seq<u8>,
    blocks: Seq<PendingModel>,
    max_ttl: Duration,
    total: i32,
    i: int,
    j: int,
)
    requires
        blocks.len() <= usize::MAX,
        0 <= i <= j < blocks_profile(seed, blocks, max_ttl, total).breakpoints.len(),
        forall|k: int| 0 <= k < blocks.len() ==> (#[trigger] blocks[k]).tokens >= 0,
    ensures
        blocks_profile(seed, blocks, max_ttl, total).cumulative(i) <= blocks_profile(
            seed,
            blocks,
            max_ttl,
            total,
        ).cumulative(j),
{
    let profile = blocks_profile(seed, blocks, max_ttl, total);
    let last = profile.breakpoints.len() - 1;
    lemma_breakpoints_in_order(blocks, max_ttl, blocks.len());
    if i < j {
        let at_i = profile.breakpoints[i].block_index;
        let at_j = profile.breakpoints[j].block_index;
        assert(at_i < at_j < blocks.len());
        assert(at_i < profile.breakpoints[last].block_index);
        lemma_prefix_tokens_grow(blocks, (at_i + 1) as nat, (at_j + 1) as nat);
        if j < last {
            assert(at_j < profile.breakpoints[last].block_index);
        }
    }
}

/// Two requests say the same but for cache markers, billing headers and token counts.
pub open spec fn same_content(a: RequestModel, b: RequestModel) -> bool {
    &&& a.model == b.model
    &&& a.tool_choice == b.tool_choice
    &&& a.tools.len() == b.tools.len()
    &&& forall|i: int|
        0 <= i < a.tools.len() ==> without_cache_control((#[trigger] a.tools[i]).value)
            == without_cache_control(b.tools[i].value)
    &&& a.system.len() == b.system.len()
    &&& forall|i: int|
        0 <= i < a.system.len() ==> masked_system_block(
            without_cache_control((#[trigger] a.system[i]).value),
        ) == masked_system_block(without_cache_control(b.system[i].value))
    &&& a.messages.len() == b.messages.len()
    &&& forall|i: int|
        0 <= i < a.messages.len() ==> (#[trigger] a.messages[i]).role == b.messages[i].role
            && blocks_of(a.messages[i].content) == blocks_of(b.messages[i].content) && (
        a.messages[i].content is String <==> b.messages[i].content is String)
}

/// Two sequences of blocks have the same values.
pub open spec fn same_values(a: Seq<PendingModel>, b: Seq<PendingModel>) -> bool {
    &&& a.len() == b.len()
    &&& forall|i: int| 0 <= i < a.len() ==> (#[trigger] a[i]).value == b[i].value
}

proof fn lemma_same_messages(a: Seq<MessageModel>, b: Seq<MessageModel>, n: nat)
    requires
        a.len() == b.len(),
        n <= a.len(),
        forall|i: int|
            0 <= i < a.len() ==> (#[trigger] a[i]).role == b[i].role && blocks_of(a[i].content)
                == blocks_of(b[i].content) && (a[i].content is String <==> b[i].content is String),
    ensures
        same_values(first_messages_blocks(a, n), first_messages_blocks(b, n)),
    decreases n,
{
    if n > 0 {
        lemma_same_messages(a, b, (n - 1) as nat);
        assert(a[n - 1].role == b[n - 1].role);
        assert(same_values(
            message_blocks((n - 1) as usize, a[n - 1]),
            message_blocks((n - 1) as usize, b[n - 1]),
        ));
    }
}

proof fn lemma_same_values(seed: Seq<u8>, a: Seq<PendingModel>, b: Seq<PendingModel>, i: nat)
    requires
        same_values(a, b),
        i < a.len(),
    ensures
        prefix_fingerprint(seed, a, i) == prefix_fingerprint(seed, b, i),
    decreases i,
{
    assert(a[i as int].value == b[i as int].value);
    if i > 0 {
        lemma_same_values(seed, a, b, (i - 1) as nat);
    }
}

/// Fingerprints depend neither on cache markers, nor on what a billing header says, nor
/// on token counts, nor on the order of keys: requests with the same content have the
/// same fingerprint at every block, whatever their totals and their longest lifetimes.
pub proof fn law_same_content_has_the_same_fingerprints(
    a: RequestModel,
    b: RequestModel,
    max_ttl_a: Duration,
    max_ttl_b: Duration,
    total_a: i32,
    total_b: i32,
)
    requires
        same_content(a, b),
        request_blocks(a).len() <= usize::MAX,
    ensures
        ({
            let p = request_profile(a, max_ttl_a, total_a);
            let q = request_profile(b, max_ttl_b, total_b);
            &&& p.blocks.len() == q.blocks.len()
            &&& forall|i: int|
                0 <= i < p.blocks.len() ==> (#[trigger] p.blocks[i]).prefix_fingerprint
                    == q.blocks[i].prefix_fingerprint
        }),
{
    let p = request_profile(a, max_ttl_a, total_a);
    let q = request_profile(b, max_ttl_b, total_b);
    lemma_same_messages(a.messages, b.messages, a.messages.len());
    assert(same_values(tools_blocks(a.tools), tools_blocks(b.tools))) by {
        assert forall|i: int| 0 <= i < a.tools.len() implies (
        #[trigger] tools_blocks(a.tools)[i]).value == tools_blocks(b.tools)[i].value by {
            assert(without_cache_control(a.tools[i].value) == without_cache_control(
                b.tools[i].value,
            ));
        }
    }
    assert(same_values(system_blocks(a.system), system_blocks(b.system))) by {
        assert forall|i: int| 0 <= i < a.system.len() implies (
        #[trigger] system_blocks(a.system)[i]).value == system_blocks(b.system)[i].value by {
            assert(masked_system_block(without_cache_control(a.system[i].value))
                == masked_system_block(without_cache_control(b.system[i].value)));
        }
    }
    assert(same_values(request_blocks(a), request_blocks(b)));
    assert(request_seed(a) == request_seed(b));
    lemma_breakpoints_in_order(request_blocks(a), max_ttl_a, request_blocks(a).len());
    lemma_breakpoints_in_order(request_blocks(b), max_ttl_b, request_blocks(b).len());
    assert forall|i: int| 0 <= i < p.blocks.len() implies (
    #[trigger] p.blocks[i]).prefix_fingerprint == q.blocks[i].prefix_fingerprint by {
        lemma_same_values(request_seed(a), request_blocks(a), request_blocks(b), i as nat);
        assert(p.blocks[i].prefix_fingerprint == prefix_fingerprint(
            request_seed(a),
            request_blocks(a),
            i as nat,
        ));
        assert(q.blocks[i].prefix_fingerprint == prefix_fingerprint(
            request_seed(a),
            request_blocks(b),
            i as nat,
        ));
    }
}

/// Two billing headers that differ in nothing but their text are fingerprinted alike.
pub proof fn law_billing_headers_are_masked(
    fields: Map<Seq<char>, JsonModel>,
    text: Seq<char>,
    other_text: Seq<char>,
)
    requires
        is_billing_header(JsonModel::Object(fields.insert("text"@, JsonModel::String(text)))),
        is_billing_header(JsonModel::Object(fields.insert("text"@, JsonModel::String(other_text)))),
    ensures
        masked_system_block(JsonModel::Object(fields.insert("text"@, JsonModel::String(text))))
            == masked_system_block(
            JsonModel::Object(fields.insert("text"@, JsonModel::String(other_text))),
        ),
{
    let mask = JsonModel::String("__anthropic_billing_header__"@);
    assert(fields.insert("text"@, JsonModel::String(text)).insert("text"@, mask)
        =~= fields.insert("text"@, JsonModel::String(other_text)).insert("text"@, mask));
}

/// Taking the cache markers out of a value leaves none, so that doing it again changes
/// nothing.
pub proof fn law_markers_are_gone(value: JsonModel)
    ensures
        without_cache_control(without_cache_control(value)) == without_cache_control(value),
    decreases value,
{
    match value {
        JsonModel::Array(items) => {
            let once = without_cache_control(value)->Array_0;
            let twice = without_cache_control(without_cache_control(value))->Array_0;
            assert forall|i: int| 0 <= i < items.len() implies once[i] == twice[i] by {
                law_markers_are_gone(items[i]);
            }
            assert(once =~= twice);
        },
        JsonModel::Object(fields) => {
            let once = without_cache_control(value)->Object_0;
            let twice = without_cache_control(without_cache_control(value))->Object_0;
            assert forall|key: Seq<char>| once.contains_key(key) implies once[key]
                == twice[key] by {
                law_markers_are_gone(fields[key]);
            }
            assert(once =~= twice);
        },
        _ => {},
    }
}

proof fn lemma_breakpoint_at(blocks: Seq<PendingModel>, max_ttl: Duration, n: nat, i: int)
    requires
        0 <= i < n <= blocks.len() <= usize::MAX,
    ensures
        match ttl_at(blocks, max_ttl, i) {
            Some(ttl) => exists|k: int|
                0 <= k < breakpoints_among(blocks, max_ttl, n).len()
                    && #[trigger] breakpoints_among(blocks, max_ttl, n)[k] == (CacheBreakpoint {
                    block_index: i as usize,
                    ttl,
                }),
            None => forall|k: int|
                0 <= k < breakpoints_among(blocks, max_ttl, n).len() ==> (
                #[trigger] breakpoints_among(blocks, max_ttl, n)[k]).block_index != i,
        },
    decreases n,
{
    let before = breakpoints_among(blocks, max_ttl, (n - 1) as nat);
    let after = breakpoints_among(blocks, max_ttl, n);
    if i < n - 1 {
        lemma_breakpoint_at(blocks, max_ttl, (n - 1) as nat, i);
        if let Some(ttl) = ttl_at(blocks, max_ttl, i) {
            let k = choose|k: int|
                0 <= k < before.len() && #[trigger] before[k] == (CacheBreakpoint {
                    block_index: i as usize,
                    ttl,
                });
            assert(after[k] == before[k]);
        }
    } else {
        lemma_breakpoints_in_order(blocks, max_ttl, (n - 1) as nat);
        if let Some(ttl) = ttl_at(blocks, max_ttl, i) {
            assert(after[after.len() - 1] == (CacheBreakpoint { block_index: i as usize, ttl }));
        }
    }
}

/// There is a breakpoint at exactly those blocks that have a lifetime: one of their own,
/// one that they inherit, or one to fall back on.
pub proof fn law_breakpoints_stand_where_lifetimes_are(
    seed: Seq<u8>,
    blocks: Seq<PendingModel>,
    max_ttl: Duration,
    total: i32,
    i: int,
)
    requires
        0 <= i < blocks.len() <= usize::MAX,
    ensures
        ({
            let breakpoints = blocks_profile(seed, blocks, max_ttl, total).breakpoints;
            match ttl_at(blocks, max_ttl, i) {
                Some(ttl) => exists|k: int|
                    0 <= k < breakpoints.len() && #[trigger] breakpoints[k] == (CacheBreakpoint {
                        block_index: i as usize,
                        ttl,
                    }),
                None => forall|k: int|
                    0 <= k < breakpoints.len() ==> (#[trigger] breakpoints[k]).block_index != i,
            }
        }),
{
    let breakpoints = blocks_profile(seed, blocks, max_ttl, total).breakpoints;
    lemma_breakpoint_at(blocks, max_ttl, blocks.len(), i);
    if let Some(ttl) = ttl_at(blocks, max_ttl, i) {
        let k = choose|k: int|
            0 <= k < breakpoints_among(blocks, max_ttl, blocks.len()).len()
                && #[trigger] breakpoints_among(blocks, max_ttl, blocks.len())[k] == (
            CacheBreakpoint { block_index: i as usize, ttl });
        assert(breakpoints[k] == (CacheBreakpoint { block_index: i as usize, ttl }));
    }
}

/// Where the blocks of the message `m` begin among the blocks of a request.
pub open spec fn message_start(request: RequestModel, m: int) -> int {
    let front = request.tools.len() + request.system.len();
    let before = first_messages_blocks(request.messages, m as nat);
    (front + before.len()) as int
}

/// Where the message `m` ends among the blocks of a request.
pub open spec fn message_end(request: RequestModel, m: int) -> int {
    message_start(request, m) + blocks_of(request.messages[m].content).len() - 1
}

/// The blocks of a message stand one after the other.
pub proof fn lemma_message_block(request: RequestModel, m: int, i: int)
    requires
        0 <= m < request.messages.len(),
        0 <= i < blocks_of(request.messages[m].content).len(),
    ensures
        0 <= message_start(request, m) + i < request_blocks(request).len(),
        request_blocks(request)[message_start(request, m) + i] == message_block(
            m as usize,
            request.messages[m],
            i,
        ),
{
    let messages = request.messages;
    let before = first_messages_blocks(messages, m as nat);
    let after = first_messages_blocks(messages, (m + 1) as nat);
    let all = first_messages_blocks(messages, messages.len());
    lemma_messages_extend(messages, messages, (m + 1) as nat, messages.len());
    assert(after[before.len() + i] == message_block(m as usize, messages[m], i));
    assert(all[before.len() + i] == all.subrange(0, after.len() as int)[before.len() + i]);
}

/// The lifetime of the breakpoint at the end of a message: what its marker asks for;
/// without a marker the lifetime that was asked for last before it, be it by a marker or
/// by the end of the tools or of the system prompt; and the default one where nothing was
/// asked for.
pub proof fn law_message_ends_inherit_the_lifetime(
    request: RequestModel,
    max_ttl: Duration,
    m: int,
)
    requires
        0 <= m < request.messages.len(),
        blocks_of(request.messages[m].content).len() > 0,
    ensures
        ({
            let blocks = request_blocks(request);
            let content = request.messages[m].content;
            let end = message_end(request, m);
            ttl_at(blocks, max_ttl, end) == match content_marker(
                content,
                blocks_of(content).len() - 1,
            ) {
                Some(ttl) => Some(ttl.shorter(max_ttl)),
                None => match active_ttl(blocks, max_ttl, end as nat) {
                    Some(ttl) => Some(ttl),
                    None => Some(Duration::from_secs(DEFAULT_CACHE_TTL_SECS).shorter(max_ttl)),
                },
            }
        }),
{
    lemma_message_block(request, m, blocks_of(request.messages[m].content).len() - 1);
}

/// The lifetime that was asked for last is the one of the latest block that asks for one:
/// after a block with a lifetime of its own it stays what that block asks for, as long as
/// no other block asks.
pub proof fn law_the_latest_lifetime_is_inherited(
    blocks: Seq<PendingModel>,
    max_ttl: Duration,
    source: int,
    n: nat,
)
    requires
        0 <= source < n <= blocks.len(),
        own_ttl(blocks, max_ttl, source) is Some,
        forall|k: int| source < k < n ==> own_ttl(blocks, max_ttl, k) is None,
    ensures
        active_ttl(blocks, max_ttl, n) == own_ttl(blocks, max_ttl, source),
    decreases n,
{
    if source < n - 1 {
        assert(own_ttl(blocks, max_ttl, n - 1) is None);
        law_the_latest_lifetime_is_inherited(blocks, max_ttl, source, (n - 1) as nat);
    }
}

/// No block of a content has a marker.
pub open spec fn is_unmarked(content: JsonModel) -> bool {
    forall|i: int|
        0 <= i < blocks_of(content).len() ==> #[trigger] content_marker(content, i) is None
}

/// A message that ends with a marker sets the lifetime of the messages without markers
/// that follow it: their ends have it too.
pub proof fn law_a_marked_message_sets_the_lifetime_after_it(
    request: RequestModel,
    max_ttl: Duration,
    m: int,
    k: int,
)
    requires
        0 <= m < k < request.messages.len(),
        blocks_of(request.messages[m].content).len() > 0,
        content_marker(
            request.messages[m].content,
            blocks_of(request.messages[m].content).len() - 1,
        ) is Some,
        forall|j: int| m < j <= k ==> is_unmarked((#[trigger] request.messages[j]).content),
        blocks_of(request.messages[k].content).len() > 0,
    ensures
        ({
            let content = request.messages[m].content;
            let asked = content_marker(content, blocks_of(content).len() - 1)->0;
            ttl_at(request_blocks(request), max_ttl, message_end(request, k)) == Some(
                asked.shorter(max_ttl),
            )
        }),
{
    let blocks = request_blocks(request);
    let messages = request.messages;
    let source = message_end(request, m);
    let end = message_end(request, k);
    lemma_message_block(request, m, blocks_of(messages[m].content).len() - 1);
    lemma_message_block(request, k, blocks_of(messages[k].content).len() - 1);
    lemma_unmarked_blocks(messages, (m + 1) as nat, (k + 1) as nat);
    let from = first_messages_blocks(messages, (m + 1) as nat);
    let upto = first_messages_blocks(messages, (k + 1) as nat);
    let all = first_messages_blocks(messages, messages.len());
    let front = request.tools.len() + request.system.len();
    lemma_messages_extend(messages, messages, (m + 1) as nat, (k + 1) as nat);
    lemma_messages_extend(messages, messages, (k + 1) as nat, messages.len());
    assert(source == front + from.len() - 1);
    assert(end == front + upto.len() - 1);
    assert(from.len() + blocks_of(messages[k].content).len() <= upto.len()) by {
        lemma_messages_extend(messages, messages, (m + 1) as nat, k as nat);
    }
    assert forall|x: int| source < x <= end implies own_ttl(blocks, max_ttl, x) is None by {
        assert(all.subrange(0, upto.len() as int)[x - front] == upto[x - front]);
        assert(blocks[x] == upto[x - front]);
    }
    law_the_latest_lifetime_is_inherited(blocks, max_ttl, source, end as nat);
    law_message_ends_inherit_the_lifetime(request, max_ttl, k);
    assert(is_unmarked(messages[k].content));
}

proof fn lemma_unmarked_blocks(messages: Seq<MessageModel>, m: nat, n: nat)
    requires
        m <= n <= messages.len(),
        forall|j: int| m <= j < n ==> is_unmarked((#[trigger] messages[j]).content),
    ensures
        forall|x: int|
            first_messages_blocks(messages, m).len() <= x < first_messages_blocks(messages, n).len()
                ==> (#[trigger] first_messages_blocks(messages, n)[x]).breakpoint_ttl is None
                || first_messages_blocks(messages, n)[x].ttl_is_fallback,
    decreases n,
{
    if m < n {
        lemma_unmarked_blocks(messages, m, (n - 1) as nat);
        let before = first_messages_blocks(messages, (n - 1) as nat);
        let more = message_blocks((n - 1) as usize, messages[n - 1]);
        let all = first_messages_blocks(messages, n);
        assert(is_unmarked(messages[n - 1].content));
        assert forall|x: int|
            first_messages_blocks(messages, m).len() <= x < all.len() implies (
        #[trigger] all[x]).breakpoint_ttl is None || all[x].ttl_is_fallback by {
            if x < before.len() {
                assert(all[x] == before[x]);
            } else {
                assert(all[x] == more[x - before.len()]);
                assert(content_marker(messages[n - 1].content, x - before.len()) is None);
            }
        }
    }
}

/// With one tool, one system block, a first message of one block whose marker asks for an
/// hour, and two texts after it, the breakpoints stand at all five blocks: the first two
/// with the default lifetime, the others with an hour.
pub proof fn law_texts_after_an_hour_keep_the_hour(
    request: RequestModel,
    max_ttl: Duration,
    total: i32,
)
    requires
        request.tools.len() == 1,
        cache_ttl(request.tools[0].value) is None,
        request.system.len() == 1,
        cache_ttl(request.system[0].value) is None,
        request.messages.len() == 3,
        ({
            let content = request.messages[0].content;
            &&& content is Array
            &&& content->Array_0.len() == 1
            &&& cache_ttl(content->Array_0[0]) == Some(Duration::from_secs(ONE_HOUR_CACHE_TTL_SECS))
        }),
        request.messages[1].content is String,
        request.messages[2].content is String,
    ensures
        ({
            let short = Duration::from_secs(DEFAULT_CACHE_TTL_SECS).shorter(max_ttl);
            let long = Duration::from_secs(ONE_HOUR_CACHE_TTL_SECS).shorter(max_ttl);
            request_profile(request, max_ttl, total).breakpoints == seq![
                CacheBreakpoint { block_index: 0, ttl: short },
                CacheBreakpoint { block_index: 1, ttl: short },
                CacheBreakpoint { block_index: 2, ttl: long },
                CacheBreakpoint { block_index: 3, ttl: long },
                CacheBreakpoint { block_index: 4, ttl: long },
            ]
        }),
{
    let blocks = request_blocks(request);
    let messages = request.messages;
    reveal_with_fuel(first_messages_blocks, 4);
    assert(first_messages_blocks(messages, 3).len() == 3);
    assert(blocks.len() == 5);
    assert(blocks[0] == tool_block(request.tools, 0));
    assert(blocks[1] == system_block(request.system, 0));
    lemma_message_block(request, 0, 0);
    lemma_message_block(request, 1, 0);
    lemma_message_block(request, 2, 0);
    assert(blocks[2] == message_block(0, messages[0], 0));
    assert(blocks[3] == message_block(1, messages[1], 0));
    assert(blocks[4] == message_block(2, messages[2], 0));
    reveal_with_fuel(active_ttl, 5);
    reveal_with_fuel(breakpoints_among, 6);
}

proof fn lemma_message_end_has_ttl(messages: Seq<MessageModel>, n: nat)
    ensures
        forall|i: int|
            0 <= i < first_messages_blocks(messages, n).len() ==> ((
            #[trigger] first_messages_blocks(messages, n)[i]).is_message_end ==>
                first_messages_blocks(messages, n)[i].breakpoint_ttl is Some),
        first_messages_blocks(messages, n).len() > 0 ==> first_messages_blocks(
            messages,
            n,
        ).last().is_message_end,
    decreases n,
{
    if n > 0 {
        lemma_message_end_has_ttl(messages, (n - 1) as nat);
        let before = first_messages_blocks(messages, (n - 1) as nat);
        let more = message_blocks((n - 1) as usize, messages[n - 1]);
        let all = first_messages_blocks(messages, n);
        assert(all == before + more);
        assert forall|i: int|
            0 <= i < all.len() && (#[trigger] all[i]).is_message_end implies all[i].breakpoint_ttl
            is Some by {
            if i < before.len() {
                assert(all[i] == before[i]);
            } else {
                assert(all[i] == more[i - before.len()]);
            }
        }
        if more.len() > 0 {
            assert(all.last() == more.last());
        } else {
            assert(all =~= before);
        }
    }
}

/// The block that ends the list of tools, the system prompt or a message.
pub open spec fn ends_a_list(request: RequestModel, i: int) -> bool {
    ||| i == request.tools.len() - 1
    ||| request.system.len() > 0 && i == request.tools.len() + request.system.len() - 1
    ||| request_blocks(request)[i].is_message_end
}

proof fn lemma_list_end_has_ttl(request: RequestModel, i: int)
    requires
        0 <= i < request_blocks(request).len(),
        ends_a_list(request, i),
    ensures
        request_blocks(request)[i].breakpoint_ttl is Some,
{
    let blocks = request_blocks(request);
    let t = request.tools.len();
    let y = request.system.len();
    let tail = first_messages_blocks(request.messages, request.messages.len());
    lemma_message_end_has_ttl(request.messages, request.messages.len());
    if i < t {
        assert(blocks[i] == tool_block(request.tools, i));
    } else if i < t + y {
        assert(blocks[i] == system_block(request.system, i - t));
    } else {
        assert(blocks[i] == tail[i - t - y]);
    }
}

/// The end of the tools, the end of the system prompt and the end of every message are
/// breakpoints.
pub proof fn law_list_ends_are_breakpoints(
    request: RequestModel,
    max_ttl: Duration,
    total: i32,
    i: int,
)
    requires
        0 <= i < request_blocks(request).len() <= usize::MAX,
        ends_a_list(request, i),
    ensures
        exists|k: int|
            0 <= k < request_profile(request, max_ttl, total).breakpoints.len() && (
            #[trigger] request_profile(request, max_ttl, total).breakpoints[k]).block_index == i,
{
    let blocks = request_blocks(request);
    lemma_list_end_has_ttl(request, i);
    lemma_breakpoint_at(blocks, max_ttl, blocks.len(), i);
    let ttl = ttl_at(blocks, max_ttl, i)->0;
    let k = choose|k: int|
        0 <= k < breakpoints_among(blocks, max_ttl, blocks.len()).len()
            && #[trigger] breakpoints_among(blocks, max_ttl, blocks.len())[k] == (CacheBreakpoint {
            block_index: i as usize,
            ttl,
        });
    assert(request_profile(request, max_ttl, total).breakpoints[k].block_index == i);
}

/// The last block of a request is its last breakpoint.
pub proof fn law_last_block_is_the_last_breakpoint(
    request: RequestModel,
    max_ttl: Duration,
    total: i32,
)
    requires
        0 < request_blocks(request).len() <= usize::MAX,
    ensures
        request_profile(request, max_ttl, total).wf(),
        request_profile(request, max_ttl, total).breakpoints.len() > 0,
        request_profile(request, max_ttl, total).breakpoints.last().block_index == request_blocks(
            request,
        ).len() - 1,
{
    let blocks = request_blocks(request);
    let profile = request_profile(request, max_ttl, total);
    let tail = first_messages_blocks(request.messages, request.messages.len());
    lemma_message_end_has_ttl(request.messages, request.messages.len());
    if tail.len() > 0 {
        assert(blocks[blocks.len() - 1] == tail.last());
    }
    lemma_blocks_profile_wf(request_seed(request), blocks, max_ttl, total);
    law_list_ends_are_breakpoints(request, max_ttl, total, blocks.len() - 1);
    let k = choose|k: int|
        0 <= k < profile.breakpoints.len() && (#[trigger] profile.breakpoints[k]).block_index
            == blocks.len() - 1;
    if k < profile.breakpoints.len() - 1 {
        assert(profile.breakpoints[k].block_index < profile.breakpoints[profile.breakpoints.len()
            - 1].block_index);
    }
}

/// A lifetime is the default one or an hour, cut to the longest that is supported.
pub open spec fn is_a_lifetime(ttl: Duration, max_ttl: Duration) -> bool {
    ||| ttl == Duration::from_secs(DEFAULT_CACHE_TTL_SECS).shorter(max_ttl)
    ||| ttl == Duration::from_secs(ONE_HOUR_CACHE_TTL_SECS).shorter(max_ttl)
}

proof fn lemma_lifetimes(request: RequestModel, max_ttl: Duration, n: nat)
    requires
        n <= request_blocks(request).len(),
    ensures
        match active_ttl(request_blocks(request), max_ttl, n) {
            Some(ttl) => is_a_lifetime(ttl, max_ttl),
            None => true,
        },
        forall|k: int|
            0 <= k < breakpoints_among(request_blocks(request), max_ttl, n).len() ==> is_a_lifetime(
                (#[trigger] breakpoints_among(request_blocks(request), max_ttl, n)[k]).ttl,
                max_ttl,
            ),
    decreases n,
{
    if n > 0 {
        lemma_lifetimes(request, max_ttl, (n - 1) as nat);
        lemma_asked_lifetime(request, n - 1);
        let before = breakpoints_among(request_blocks(request), max_ttl, (n - 1) as nat);
        let after = breakpoints_among(request_blocks(request), max_ttl, n);
        assert forall|k: int| 0 <= k < after.len() implies is_a_lifetime(
            (#[trigger] after[k]).ttl,
            max_ttl,
        ) by {
            if k < before.len() {
                assert(after[k] == before[k]);
            }
        }
    }
}

proof fn lemma_asked_lifetime(request: RequestModel, i: int)
    requires
        0 <= i < request_blocks(request).len(),
    ensures
        match request_blocks(request)[i].breakpoint_ttl {
            Some(ttl) => ttl == Duration::from_secs(DEFAULT_CACHE_TTL_SECS) || ttl
                == Duration::from_secs(ONE_HOUR_CACHE_TTL_SECS),
            None => true,
        },
{
    let t = request.tools.len();
    let y = request.system.len();
    let tail = first_messages_blocks(request.messages, request.messages.len());
    lemma_asked_in_messages(request.messages, request.messages.len());
    if i >= t + y {
        assert(request_blocks(request)[i] == tail[i - t - y]);
    }
}

proof fn lemma_asked_in_messages(messages: Seq<MessageModel>, n: nat)
    ensures
        forall|i: int|
            0 <= i < first_messages_blocks(messages, n).len() ==> match (
            #[trigger] first_messages_blocks(messages, n)[i]).breakpoint_ttl {
                Some(ttl) => ttl == Duration::from_secs(DEFAULT_CACHE_TTL_SECS) || ttl
                    == Duration::from_secs(ONE_HOUR_CACHE_TTL_SECS),
                None => true,
            },
    decreases n,
{
    if n > 0 {
        lemma_asked_in_messages(messages, (n - 1) as nat);
        let before = first_messages_blocks(messages, (n - 1) as nat);
        let more = message_blocks((n - 1) as usize, messages[n - 1]);
        let all = first_messages_blocks(messages, n);
        assert forall|i: int| 0 <= i < all.len() implies match (
        #[trigger] all[i]).breakpoint_ttl {
            Some(ttl) => ttl == Duration::from_secs(DEFAULT_CACHE_TTL_SECS) || ttl
                == Duration::from_secs(ONE_HOUR_CACHE_TTL_SECS),
            None => true,
        } by {
            if i < before.len() {
                assert(all[i] == before[i]);
            } else {
                assert(all[i] == more[i - before.len()]);
            }
        }
    }
}

/// Every breakpoint of a request lives for the default time or for an hour, and never
/// longer than what is supported.
pub proof fn law_lifetimes_are_supported(request: RequestModel, max_ttl: Duration, total: i32)
    ensures
        ({
            let breakpoints = request_profile(request, max_ttl, total).breakpoints;
            forall|k: int|
                0 <= k < breakpoints.len() ==> is_a_lifetime(
                    (#[trigger] breakpoints[k]).ttl,
                    max_ttl,
                ) && breakpoints[k].ttl.total() <= max_ttl.total()
        }),
{
    lemma_lifetimes(request, max_ttl, request_blocks(request).len());
}

/// Without negative counts, no prefix has a negative count.
pub proof fn lemma_prefix_tokens_nonnegative(blocks: Seq<PendingModel>, n: nat)
    requires
        n <= blocks.len(),
        forall|i: int| 0 <= i < blocks.len() ==> (#[trigger] blocks[i]).tokens >= 0,
    ensures
        prefix_tokens(blocks, n) >= 0,
    decreases n,
{
    if n > 0 {
        lemma_prefix_tokens_nonnegative(blocks, (n - 1) as nat);
    }
}

/// For every request with a block, and with token counts that an `i32` can hold, what is
/// read and what is written make up the total of the request, in every state of the
/// store. A negative total counts as zero.
pub proof fn law_every_request_is_covered(
    store: Map<u64, Map<[u8; 32], CacheEntry>>,
    now: nat,
    id: u64,
    request: RequestModel,
    max_ttl: Duration,
    total: i32,
)
    requires
        0 < request_blocks(request).len() <= usize::MAX,
        forall|i: int|
            0 <= i < request_blocks(request).len() ==> (
            #[trigger] request_blocks(request)[i]).tokens >= 0,
    ensures
        ({
            let result = lookup_result(store, now, id, request_profile(request, max_ttl, total));
            result.cache_read_input_tokens + result.cache_creation_input_tokens == greater(
                total,
                0,
            )
        }),
{
    let profile = request_profile(request, max_ttl, total);
    let entries = live(entries_of(store, id), now);
    law_last_block_is_the_last_breakpoint(request, max_ttl, total);
    law_hit_is_the_latest_of_the_last_ten(entries, profile);
    if let Some(i) = hit(entries, profile) {
        let at = profile.breakpoints[i].block_index;
        lemma_prefix_tokens_nonnegative(request_blocks(request), (at + 1) as nat);
        assert(profile.cumulative(i) >= 0);
    }
    law_read_and_creation_cover_the_request(store, now, id, profile);
}

/// A request that says the same as one that was recorded, whose last prefix has not
/// expired since, is read from the cache as a whole, and nothing is to be written.
pub proof fn law_repeated_request_is_read_whole(
    store: Map<u64, Map<[u8; 32], CacheEntry>>,
    now: nat,
    id: u64,
    first: RequestModel,
    second: RequestModel,
    max_ttl: Duration,
    first_total: i32,
    second_total: i32,
    later: nat,
)
    requires
        same_content(first, second),
        0 < request_blocks(first).len() <= usize::MAX,
        ({
            let profile = request_profile(first, max_ttl, first_total);
            later < after_update(store, now, id, profile)[id][profile.fingerprint(
                profile.breakpoints.len() - 1,
            )].expires_at
        }),
    ensures
        ({
            let after = after_update(store, now, id, request_profile(first, max_ttl, first_total));
            let profile = request_profile(second, max_ttl, second_total);
            let result = lookup_result(after, later, id, profile);
            &&& result.cache_read_input_tokens == profile.total
            &&& result.cache_creation_input_tokens == 0
        }),
{
    let p = request_profile(first, max_ttl, first_total);
    let q = request_profile(second, max_ttl, second_total);
    law_same_content_has_the_same_fingerprints(
        first,
        second,
        max_ttl,
        max_ttl,
        first_total,
        second_total,
    );
    law_last_block_is_the_last_breakpoint(first, max_ttl, first_total);
    law_last_block_is_the_last_breakpoint(second, max_ttl, second_total);
    assert(p.blocks[p.blocks.len() - 1].prefix_fingerprint == q.blocks[q.blocks.len()
        - 1].prefix_fingerprint);
    law_recorded_request_is_read_whole(store, now, id, p, later, q);
}

} // verus!
