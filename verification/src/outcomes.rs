//! What lookups and recordings do, said of the entries in the store.

use crate::laws::{
    is_greatest_count, law_hit_is_the_latest_of_the_last_ten, law_new_entry_lives_for_its_lifetime,
    law_recording_does_not_extend_entries, law_recording_drops_what_has_expired,
    lemma_recorded_contains,
};
use crate::profile::{ttl_breakdown, ProfileModel};
use crate::store::{
    after_lookup, after_update, entries_of, hit, live, lookup_result, pruned, CacheEntry,
    CacheResult,
};
use crate::time::Instant;
use vstd::prelude::*;

verus! {

/// The store holds an entry of the credential for the fingerprint whose end has not come.
pub open spec fn holds_live(
    store: Map<u64, Map<[u8; 32], CacheEntry>>,
    id: u64,
    fingerprint: [u8; 32],
    now: nat,
) -> bool {
    store.contains_key(id) && store[id].contains_key(fingerprint)
        && store[id][fingerprint].expires_at > now
}

/// The fingerprint of the prefix that the breakpoint `k` ends.
pub open spec fn prefix_of(profile: ProfileModel, k: int) -> [u8; 32] {
    profile.blocks[profile.breakpoints[k].block_index as int].prefix_fingerprint
}

/// The token count at the breakpoint `k`.
pub open spec fn count_at(profile: ProfileModel, k: int) -> i32 {
    profile.blocks[profile.breakpoints[k].block_index as int].cumulative_tokens
}

/// The result reads `read` tokens and writes `written`, all of them for an hour if that
/// is the lifetime of the last breakpoint, else all of them for five minutes.
pub open spec fn reads_and_writes(
    result: CacheResult,
    profile: ProfileModel,
    read: int,
    written: int,
) -> bool {
    let hour = profile.breakpoints.last().ttl.secs * 1_000_000_000
        + profile.breakpoints.last().ttl.nanos == 3_600_000_000_000;
    &&& result.cache_read_input_tokens == read
    &&& result.cache_creation_input_tokens == written
    &&& result.cache_creation_5m_input_tokens == if hour {
        0
    } else {
        written
    }
    &&& result.cache_creation_1h_input_tokens == if hour {
        written
    } else {
        0
    }
}

/// A profile without breakpoints reads and writes nothing.
pub proof fn law_without_breakpoints_nothing_is_done(
    store: Map<u64, Map<[u8; 32], CacheEntry>>,
    now: nat,
    id: u64,
    profile: ProfileModel,
)
    requires
        profile.breakpoints.len() == 0,
    ensures
        ({
            let result = lookup_result(store, now, id, profile);
            &&& result.cache_read_input_tokens == 0
            &&& result.cache_creation_input_tokens == 0
            &&& result.cache_creation_5m_input_tokens == 0
            &&& result.cache_creation_1h_input_tokens == 0
        }),
        after_lookup(store, now, profile) == store,
{
}

/// A lookup reads the prefix of the latest of the last ten breakpoints for which the
/// credential has an entry whose end has not come: as many tokens as the request counts
/// there, and no more than its total. The rest of the total is written. A negative count
/// is read as zero, and what is written is never more than an `i32` can hold.
pub proof fn law_the_latest_live_prefix_is_read(
    store: Map<u64, Map<[u8; 32], CacheEntry>>,
    now: nat,
    id: u64,
    profile: ProfileModel,
    k: int,
)
    requires
        profile.total >= 0,
        count_at(profile, profile.breakpoints.len() - 1) >= profile.total,
        0 <= k < profile.breakpoints.len(),
        k >= profile.breakpoints.len() - 10,
        holds_live(store, id, prefix_of(profile, k), now),
        forall|j: int|
            k < j < profile.breakpoints.len() ==> !holds_live(
                store,
                id,
                #[trigger] prefix_of(profile, j),
                now,
            ),
    ensures
        ({
            let prefix = if count_at(profile, k) <= profile.total {
                count_at(profile, k)
            } else {
                profile.total
            };
            let rest = profile.total - prefix;
            reads_and_writes(
                lookup_result(store, now, id, profile),
                profile,
                if prefix >= 0 {
                    prefix as int
                } else {
                    0
                },
                if rest <= i32::MAX {
                    rest
                } else {
                    i32::MAX as int
                },
            )
        }),
{
    let entries = live(entries_of(store, id), now);
    law_hit_is_the_latest_of_the_last_ten(entries, profile);
    assert(entries.contains_key(profile.fingerprint(k)));
    let i = hit(entries, profile)->0;
    if i > k {
        assert(entries.contains_key(prefix_of(profile, i)));
    }
    assert(i == k);
}

/// Where the credential has no entry whose end has not come for any of the last ten
/// breakpoints, nothing is read and the whole total is written.
pub proof fn law_without_a_live_prefix_all_is_written(
    store: Map<u64, Map<[u8; 32], CacheEntry>>,
    now: nat,
    id: u64,
    profile: ProfileModel,
)
    requires
        profile.total >= 0,
        profile.breakpoints.len() > 0,
        count_at(profile, profile.breakpoints.len() - 1) >= profile.total,
        forall|j: int|
            0 <= j < profile.breakpoints.len() && j >= profile.breakpoints.len() - 10
                ==> !holds_live(store, id, #[trigger] prefix_of(profile, j), now),
    ensures
        reads_and_writes(
            lookup_result(store, now, id, profile),
            profile,
            0,
            profile.total as int,
        ),
{
    let entries = live(entries_of(store, id), now);
    law_hit_is_the_latest_of_the_last_ten(entries, profile);
    if let Some(i) = hit(entries, profile) {
        assert(entries.contains_key(prefix_of(profile, i)));
    }
}

/// New tokens are what the last breakpoint counts, up to the total, beyond what was
/// matched, and they go to its lifetime: an hour, or else five minutes.
pub proof fn law_new_tokens_go_to_one_lifetime(profile: ProfileModel, matched: i32)
    ensures
        ({
            let last = profile.breakpoints.len() - 1;
            let (five_minutes, one_hour) = ttl_breakdown(profile, matched);
            let ttl = profile.breakpoints[last].ttl;
            let covered = if count_at(profile, last) <= profile.total {
                count_at(profile, last)
            } else {
                profile.total
            };
            let beyond = covered - matched;
            let new = if beyond <= 0 {
                0
            } else if beyond <= i32::MAX {
                beyond
            } else {
                i32::MAX as int
            };
            if profile.breakpoints.len() == 0 {
                five_minutes == 0 && one_hour == 0
            } else if ttl.secs * 1_000_000_000 + ttl.nanos == 3_600_000_000_000 {
                five_minutes == 0 && one_hour == new
            } else {
                five_minutes == new && one_hour == 0
            }
        }),
{
}

/// Pruning keeps exactly the entries whose end has not come, as they are, and no
/// credential without any.
pub proof fn law_pruning_keeps_what_is_live(
    store: Map<u64, Map<[u8; 32], CacheEntry>>,
    now: nat,
    id: u64,
    fingerprint: [u8; 32],
)
    ensures
        ({
            let left = pruned(store, now);
            &&& left.contains_key(id) && left[id].contains_key(fingerprint) <==> holds_live(
                store,
                id,
                fingerprint,
                now,
            )
            &&& holds_live(store, id, fingerprint, now) ==> left[id][fingerprint]
                == store[id][fingerprint]
            &&& left.contains_key(id) ==> exists|f: [u8; 32]| #[trigger]
                holds_live(store, id, f, now)
        }),
{
    if holds_live(store, id, fingerprint, now) {
        assert(live(store[id], now).contains_key(fingerprint));
    }
    if pruned(store, now).contains_key(id) {
        let f = choose|f: [u8; 32]| #[trigger] live(store[id], now).contains_key(f);
        assert(holds_live(store, id, f, now));
    }
}

/// A lookup of a profile with breakpoints leaves exactly the entries whose end has not
/// come, as they are.
pub proof fn law_lookups_leave_what_is_live(
    store: Map<u64, Map<[u8; 32], CacheEntry>>,
    now: nat,
    profile: ProfileModel,
    id: u64,
    fingerprint: [u8; 32],
)
    requires
        profile.breakpoints.len() > 0,
    ensures
        ({
            let left = after_lookup(store, now, profile);
            &&& left.contains_key(id) && left[id].contains_key(fingerprint) <==> holds_live(
                store,
                id,
                fingerprint,
                now,
            )
            &&& holds_live(store, id, fingerprint, now) ==> left[id][fingerprint]
                == store[id][fingerprint]
        }),
{
    law_pruning_keeps_what_is_live(store, now, id, fingerprint);
}

/// What a recording leaves of other credentials: exactly the entries whose end has not
/// come, as they are.
pub proof fn law_recording_leaves_other_credentials_alone(
    store: Map<u64, Map<[u8; 32], CacheEntry>>,
    now: nat,
    id: u64,
    profile: ProfileModel,
    owner: u64,
    fingerprint: [u8; 32],
)
    requires
        owner != id,
    ensures
        ({
            let after = after_update(store, now, id, profile);
            &&& after.contains_key(owner) && after[owner].contains_key(fingerprint) <==> holds_live(
                store,
                owner,
                fingerprint,
                now,
            )
            &&& holds_live(store, owner, fingerprint, now) ==> after[owner][fingerprint]
                == store[owner][fingerprint]
        }),
{
    law_pruning_keeps_what_is_live(store, now, owner, fingerprint);
}

/// What a recording leaves of its own credential: the entries whose end had not come, and
/// one for the prefix of every breakpoint; no other.
pub proof fn law_recording_leaves_every_breakpoint(
    store: Map<u64, Map<[u8; 32], CacheEntry>>,
    now: nat,
    id: u64,
    profile: ProfileModel,
    fingerprint: [u8; 32],
)
    ensures
        ({
            let after = after_update(store, now, id, profile);
            &&& after.contains_key(id)
            &&& after[id].contains_key(fingerprint) <==> holds_live(store, id, fingerprint, now)
                || exists|k: int|
                0 <= k < profile.breakpoints.len() && #[trigger] prefix_of(profile, k)
                    == fingerprint
        }),
{
    let after = after_update(store, now, id, profile);
    let n = profile.breakpoints.len();
    if after[id].contains_key(fingerprint) {
        law_recording_drops_what_has_expired(store, now, id, profile, id, fingerprint);
        if !live(entries_of(store, id), now).contains_key(fingerprint) {
            let k = choose|k: int|
                0 <= k < n && #[trigger] profile.fingerprint(k) == fingerprint;
            assert(prefix_of(profile, k) == fingerprint);
        }
    }
    if holds_live(store, id, fingerprint, now) {
        assert(live(entries_of(store, id), now).contains_key(fingerprint));
        law_recording_does_not_extend_entries(store, now, id, profile, id, fingerprint);
    }
    if exists|k: int| 0 <= k < n && #[trigger] prefix_of(profile, k) == fingerprint {
        let k = choose|k: int| 0 <= k < n && #[trigger] prefix_of(profile, k) == fingerprint;
        lemma_recorded_contains(entries_of(pruned(store, now), id), now, profile, n, k);
        assert(profile.fingerprint(k) == fingerprint);
    }
}

/// `tokens` is the greatest of `base`, if there is one, and of the counts at the
/// breakpoints whose prefix has the fingerprint.
pub open spec fn is_greatest(
    tokens: i32,
    base: Option<i32>,
    profile: ProfileModel,
    fingerprint: [u8; 32],
) -> bool {
    &&& base is Some ==> tokens >= base->0
    &&& forall|k: int|
        0 <= k < profile.breakpoints.len() && #[trigger] prefix_of(profile, k) == fingerprint
            ==> tokens >= count_at(profile, k)
    &&& base == Some(tokens) || exists|k: int|
        0 <= k < profile.breakpoints.len() && #[trigger] prefix_of(profile, k) == fingerprint
            && tokens == count_at(profile, k)
}

proof fn lemma_greatest(
    tokens: i32,
    base: Option<i32>,
    profile: ProfileModel,
    fingerprint: [u8; 32],
)
    requires
        is_greatest_count(tokens, base, profile, profile.breakpoints.len(), fingerprint),
    ensures
        is_greatest(tokens, base, profile, fingerprint),
{
    let n = profile.breakpoints.len();
    assert forall|k: int|
        0 <= k < n && #[trigger] prefix_of(profile, k) == fingerprint implies tokens >= count_at(
        profile,
        k,
    ) by {
        assert(profile.fingerprint(k) == fingerprint);
    }
    if base != Some(tokens) {
        let k = choose|k: int|
            0 <= k < n && #[trigger] profile.fingerprint(k) == fingerprint && tokens
                == profile.cumulative(k);
        assert(prefix_of(profile, k) == fingerprint);
    }
}

/// Recording again what is cached, and whose end has not come, leaves its end and its
/// lifetime alone; its count is the greatest that it has had.
pub proof fn law_live_entries_keep_their_end(
    store: Map<u64, Map<[u8; 32], CacheEntry>>,
    now: nat,
    id: u64,
    profile: ProfileModel,
    fingerprint: [u8; 32],
)
    requires
        holds_live(store, id, fingerprint, now),
    ensures
        ({
            let before = store[id][fingerprint];
            let after = after_update(store, now, id, profile)[id][fingerprint];
            &&& after.expires_at == before.expires_at
            &&& after.ttl == before.ttl
            &&& is_greatest(after.token_count, Some(before.token_count), profile, fingerprint)
        }),
{
    assert(live(entries_of(store, id), now).contains_key(fingerprint));
    law_recording_does_not_extend_entries(store, now, id, profile, id, fingerprint);
    lemma_greatest(
        after_update(store, now, id, profile)[id][fingerprint].token_count,
        Some(store[id][fingerprint].token_count),
        profile,
        fingerprint,
    );
}

/// Recording what is not cached, or whose end has come, makes an entry that lives from
/// now on for the lifetime of the first breakpoint with that prefix, with the greatest
/// count of the breakpoints with it.
pub proof fn law_new_entries_live_from_now_on(
    store: Map<u64, Map<[u8; 32], CacheEntry>>,
    now: Instant,
    id: u64,
    profile: ProfileModel,
    k: int,
)
    requires
        0 <= k < profile.breakpoints.len(),
        forall|j: int| 0 <= j < k ==> #[trigger] prefix_of(profile, j) != prefix_of(profile, k),
        !holds_live(
            store,
            id,
            prefix_of(profile, k),
            (now.secs * 1_000_000_000 + now.nanos) as nat,
        ),
    ensures
        ({
            let ttl = profile.breakpoints[k].ttl;
            let entry = after_update(store, now.total(), id, profile)[id][prefix_of(profile, k)];
            &&& entry.ttl == ttl
            &&& entry.expires_at == (now.secs + ttl.secs) * 1_000_000_000 + now.nanos + ttl.nanos
            &&& is_greatest(entry.token_count, None, profile, prefix_of(profile, k))
        }),
{
    assert forall|j: int| 0 <= j < k implies #[trigger] profile.fingerprint(j)
        != profile.fingerprint(k) by {
        assert(prefix_of(profile, j) != prefix_of(profile, k));
    }
    law_new_entry_lives_for_its_lifetime(store, now, id, profile, k);
    lemma_greatest(
        after_update(store, now.total(), id, profile)[id][prefix_of(profile, k)].token_count,
        None,
        profile,
        prefix_of(profile, k),
    );
}

/// An entry that was written is read until its lifetime is over, and not from then on:
/// after a profile was recorded where nothing was cached, it is read as a whole as long
/// as less time has passed than its last breakpoint lives; once as much has passed as the
/// longest of its lifetimes, nothing of it is read.
pub proof fn law_entries_are_read_for_their_lifetime(
    now: Instant,
    id: u64,
    profile: ProfileModel,
    later: Instant,
)
    requires
        profile.total >= 0,
        profile.breakpoints.len() > 0,
        count_at(profile, profile.breakpoints.len() - 1) >= profile.total,
        forall|j: int|
            0 <= j < profile.breakpoints.len() - 1 ==> #[trigger] prefix_of(profile, j)
                != prefix_of(profile, profile.breakpoints.len() - 1),
    ensures
        ({
            let store = after_update(Map::empty(), now.total(), id, profile);
            let result = lookup_result(store, later.total(), id, profile);
            let ttl = profile.breakpoints.last().ttl;
            let passed = (later.secs - now.secs) * 1_000_000_000 + later.nanos - now.nanos;
            &&& passed < ttl.secs * 1_000_000_000 + ttl.nanos ==> reads_and_writes(
                result,
                profile,
                profile.total as int,
                0,
            )
            &&& (forall|k: int|
                0 <= k < profile.breakpoints.len() ==> passed >= (
                #[trigger] profile.breakpoints[k]).ttl.secs * 1_000_000_000
                    + profile.breakpoints[k].ttl.nanos) ==> reads_and_writes(
                result,
                profile,
                0,
                profile.total as int,
            )
        }),
{
    let empty = Map::<u64, Map<[u8; 32], CacheEntry>>::empty();
    let store = after_update(empty, now.total(), id, profile);
    let n = profile.breakpoints.len();
    let last = n - 1;
    let ttl = profile.breakpoints[last].ttl;
    let passed = (later.secs - now.secs) * 1_000_000_000 + later.nanos - now.nanos;
    law_new_entries_live_from_now_on(empty, now, id, profile, last);
    law_recording_leaves_every_breakpoint(
        empty,
        now.total(),
        id,
        profile,
        prefix_of(profile, last),
    );
    if passed < ttl.secs * 1_000_000_000 + ttl.nanos {
        assert(holds_live(store, id, prefix_of(profile, last), later.total()));
        law_the_latest_live_prefix_is_read(store, later.total(), id, profile, last);
    }
    if forall|k: int|
        0 <= k < n ==> passed >= (#[trigger] profile.breakpoints[k]).ttl.secs * 1_000_000_000
            + profile.breakpoints[k].ttl.nanos {
        assert forall|j: int| 0 <= j < n implies !holds_live(
            store,
            id,
            #[trigger] prefix_of(profile, j),
            later.total(),
        ) by {
            let k = lemma_first_with_prefix(profile, j);
            law_new_entries_live_from_now_on(empty, now, id, profile, k);
            assert(passed >= profile.breakpoints[k].ttl.secs * 1_000_000_000
                + profile.breakpoints[k].ttl.nanos);
        }
        law_without_a_live_prefix_all_is_written(store, later.total(), id, profile);
    }
}

proof fn lemma_first_with_prefix(profile: ProfileModel, j: int) -> (k: int)
    requires
        0 <= j,
    ensures
        0 <= k <= j,
        prefix_of(profile, k) == prefix_of(profile, j),
        forall|i: int| 0 <= i < k ==> #[trigger] prefix_of(profile, i) != prefix_of(profile, k),
    decreases j,
{
    if exists|i: int| 0 <= i < j && #[trigger] prefix_of(profile, i) == prefix_of(profile, j) {
        let i = choose|i: int|
            0 <= i < j && #[trigger] prefix_of(profile, i) == prefix_of(profile, j);
        lemma_first_with_prefix(profile, i)
    } else {
        j
    }
}

} // verus!
