//! The store of cached prefixes: for each credential the entries by fingerprint.

use crate::digest::same_digest;
use crate::profile::{
    compute_ttl_breakdown, new_tokens, ttl_breakdown, CacheProfile, ProfileModel,
};
use crate::time::{Duration, Instant};
use crate::tokens::{greater, lesser, max_tokens, min_tokens, saturating_difference};
use std::collections::HashMap;
use vstd::prelude::*;
use vstd::std_specs::hash::spec_keys_iter;
use vstd::std_specs::iter::IteratorSpec;

verus! {

broadcast use vstd::std_specs::hash::group_hash_axioms;

/// How many of the last breakpoints of a request are looked up.
pub const PREFIX_LOOKBACK_LIMIT: usize = 10;

/// What the cache does for a request, in tokens.
#[derive(Debug, Clone, Copy)]
pub struct CacheResult {
    pub cache_read_input_tokens: i32,
    pub cache_creation_input_tokens: i32,
    pub cache_creation_5m_input_tokens: i32,
    pub cache_creation_1h_input_tokens: i32,
}

impl CacheResult {
    /// Nothing read and nothing written.
    pub open spec fn nothing() -> CacheResult {
        CacheResult {
            cache_read_input_tokens: 0,
            cache_creation_input_tokens: 0,
            cache_creation_5m_input_tokens: 0,
            cache_creation_1h_input_tokens: 0,
        }
    }
}

impl Default for CacheResult {
    fn default() -> (result: Self)
        ensures
            result == CacheResult::nothing(),
    {
        CacheResult {
            cache_read_input_tokens: 0,
            cache_creation_input_tokens: 0,
            cache_creation_5m_input_tokens: 0,
            cache_creation_1h_input_tokens: 0,
        }
    }
}

/// A cached prefix: its tokens, its lifetime, and the time of its end in nanoseconds of
/// the clock.
#[derive(Debug, Clone, Copy)]
pub struct CacheEntry {
    pub token_count: i32,
    pub ttl: Duration,
    pub expires_at: u128,
}

/// A cached prefix under its fingerprint.
#[derive(Debug, Clone, Copy)]
pub struct StoredEntry {
    pub fingerprint: [u8; 32],
    pub entry: CacheEntry,
}

/// The entries of one credential as a map from fingerprints.
pub open spec fn entries_model(entries: Seq<StoredEntry>) -> Map<[u8; 32], CacheEntry>
    decreases entries.len(),
{
    if entries.len() == 0 {
        Map::empty()
    } else {
        entries_model(entries.drop_last()).insert(entries.last().fingerprint, entries.last().entry)
    }
}

/// No fingerprint occurs twice.
pub open spec fn distinct(entries: Seq<StoredEntry>) -> bool {
    forall|i: int, j: int|
        0 <= i < j < entries.len() ==> (#[trigger] entries[i]).fingerprint != (
        #[trigger] entries[j]).fingerprint
}

/// The entries of every credential are distinct.
pub open spec fn all_distinct(by_credential: Map<u64, Vec<StoredEntry>>) -> bool {
    forall|id: u64| #[trigger] by_credential.contains_key(id) ==> distinct(by_credential[id]@)
}

/// The entries of every credential as maps from fingerprints.
pub open spec fn store_model(by_credential: Map<u64, Vec<StoredEntry>>) -> Map<
    u64,
    Map<[u8; 32], CacheEntry>,
> {
    by_credential.map_values(|entries: Vec<StoredEntry>| entries_model(entries@))
}

/// The entries that have not expired.
pub open spec fn live(entries: Map<[u8; 32], CacheEntry>, now: nat) -> Map<[u8; 32], CacheEntry> {
    Map::new(
        |fingerprint: [u8; 32]|
            entries.contains_key(fingerprint) && entries[fingerprint].expires_at > now,
        |fingerprint: [u8; 32]| entries[fingerprint],
    )
}

/// Some entry has not expired.
pub open spec fn has_live(entries: Map<[u8; 32], CacheEntry>, now: nat) -> bool {
    exists|fingerprint: [u8; 32]| #[trigger] live(entries, now).contains_key(fingerprint)
}

/// The store without what has expired, and without the credentials that have nothing left.
pub open spec fn pruned(store: Map<u64, Map<[u8; 32], CacheEntry>>, now: nat) -> Map<
    u64,
    Map<[u8; 32], CacheEntry>,
> {
    Map::new(
        |id: u64| store.contains_key(id) && has_live(store[id], now),
        |id: u64| live(store[id], now),
    )
}

/// The entries of a credential that has some, else none.
pub open spec fn entries_of(store: Map<u64, Map<[u8; 32], CacheEntry>>, id: u64) -> Map<
    [u8; 32],
    CacheEntry,
> {
    if store.contains_key(id) {
        store[id]
    } else {
        Map::empty()
    }
}

/// The latest of the breakpoints from `low` up to, but not including, `n` whose prefix
/// is among the entries.
pub open spec fn latest_match(
    entries: Map<[u8; 32], CacheEntry>,
    profile: ProfileModel,
    low: int,
    n: int,
) -> Option<int>
    decreases n - low,
{
    if n <= low {
        None
    } else if entries.contains_key(profile.fingerprint(n - 1)) {
        Some(n - 1)
    } else {
        latest_match(entries, profile, low, n - 1)
    }
}

/// The first of the breakpoints that are looked up.
pub open spec fn lookback_start(profile: ProfileModel) -> int {
    if profile.breakpoints.len() > PREFIX_LOOKBACK_LIMIT {
        profile.breakpoints.len() - PREFIX_LOOKBACK_LIMIT
    } else {
        0
    }
}

/// The breakpoint whose prefix is read from the cache.
pub open spec fn hit(entries: Map<[u8; 32], CacheEntry>, profile: ProfileModel) -> Option<int> {
    latest_match(entries, profile, lookback_start(profile), profile.breakpoints.len() as int)
}

/// The tokens that the matched prefix has in this request; zero without a match.
pub open spec fn matched_tokens(
    entries: Map<[u8; 32], CacheEntry>,
    profile: ProfileModel,
) -> i32 {
    match hit(entries, profile) {
        Some(i) => lesser(profile.cumulative(i), profile.total),
        None => 0,
    }
}

/// What the cache does for a request of a credential at a time.
pub open spec fn lookup_result(
    store: Map<u64, Map<[u8; 32], CacheEntry>>,
    now: nat,
    id: u64,
    profile: ProfileModel,
) -> CacheResult {
    if profile.breakpoints.len() == 0 {
        CacheResult::nothing()
    } else {
        let matched = matched_tokens(live(entries_of(store, id), now), profile);
        CacheResult {
            cache_read_input_tokens: greater(matched, 0),
            cache_creation_input_tokens: new_tokens(profile, matched),
            cache_creation_5m_input_tokens: ttl_breakdown(profile, matched).0,
            cache_creation_1h_input_tokens: ttl_breakdown(profile, matched).1,
        }
    }
}

/// The store after a lookup: what has expired is gone. A request without breakpoints is
/// not looked up.
pub open spec fn after_lookup(
    store: Map<u64, Map<[u8; 32], CacheEntry>>,
    now: nat,
    profile: ProfileModel,
) -> Map<u64, Map<[u8; 32], CacheEntry>> {
    if profile.breakpoints.len() == 0 {
        store
    } else {
        pruned(store, now)
    }
}

/// The entry that a breakpoint leaves: a new one lives from now on for its lifetime; one
/// that is there keeps its lifetime and its end, and its tokens only grow.
pub open spec fn recorded_entry(
    entries: Map<[u8; 32], CacheEntry>,
    now: nat,
    profile: ProfileModel,
    i: int,
) -> CacheEntry {
    let tokens = profile.cumulative(i);
    let ttl = profile.breakpoints[i].ttl;
    if entries.contains_key(profile.fingerprint(i)) {
        let existing = entries[profile.fingerprint(i)];
        CacheEntry {
            token_count: greater(existing.token_count, tokens),
            ttl: existing.ttl,
            expires_at: existing.expires_at,
        }
    } else {
        CacheEntry { token_count: tokens, ttl, expires_at: (now + ttl.total()) as u128 }
    }
}

/// The entries after the first `n` breakpoints have been recorded.
pub open spec fn recorded(
    entries: Map<[u8; 32], CacheEntry>,
    now: nat,
    profile: ProfileModel,
    n: nat,
) -> Map<[u8; 32], CacheEntry>
    decreases n,
{
    if n == 0 {
        entries
    } else {
        let before = recorded(entries, now, profile, (n - 1) as nat);
        before.insert(
            profile.fingerprint(n - 1),
            recorded_entry(before, now, profile, n - 1),
        )
    }
}

/// The store after the breakpoints of a request have been recorded for a credential.
pub open spec fn after_update(
    store: Map<u64, Map<[u8; 32], CacheEntry>>,
    now: nat,
    id: u64,
    profile: ProfileModel,
) -> Map<u64, Map<[u8; 32], CacheEntry>> {
    let left = pruned(store, now);
    left.insert(id, recorded(entries_of(left, id), now, profile, profile.breakpoints.len()))
}

proof fn lemma_entries_push(entries: Seq<StoredEntry>, stored: StoredEntry)
    ensures
        entries_model(entries.push(stored)) == entries_model(entries).insert(
            stored.fingerprint,
            stored.entry,
        ),
{
    assert(entries.push(stored).drop_last() =~= entries);
}

proof fn lemma_entries_model(entries: Seq<StoredEntry>)
    requires
        distinct(entries),
    ensures
        forall|i: int|
            0 <= i < entries.len() ==> entries_model(entries).contains_key(
                (#[trigger] entries[i]).fingerprint,
            ) && entries_model(entries)[entries[i].fingerprint] == entries[i].entry,
        forall|fingerprint: [u8; 32]|
            #![trigger entries_model(entries).contains_key(fingerprint)]
            entries_model(entries).contains_key(fingerprint) ==> exists|i: int|
                0 <= i < entries.len() && (#[trigger] entries[i]).fingerprint == fingerprint,
    decreases entries.len(),
{
    if entries.len() > 0 {
        let front = entries.drop_last();
        lemma_entries_model(front);
        assert forall|i: int| 0 <= i < entries.len() implies entries_model(entries).contains_key(
            (#[trigger] entries[i]).fingerprint,
        ) && entries_model(entries)[entries[i].fingerprint] == entries[i].entry by {
            if i < front.len() {
                assert(front[i] == entries[i]);
                assert(entries[i].fingerprint != entries[entries.len() - 1].fingerprint);
            }
        }
        assert forall|fingerprint: [u8; 32]|
            #![trigger entries_model(entries).contains_key(fingerprint)]
            entries_model(entries).contains_key(fingerprint) implies exists|i: int|
            0 <= i < entries.len() && (#[trigger] entries[i]).fingerprint == fingerprint by {
            if fingerprint == entries.last().fingerprint {
                assert(entries[entries.len() - 1].fingerprint == fingerprint);
            } else {
                assert(entries_model(front).contains_key(fingerprint));
                let i = choose|i: int|
                    0 <= i < front.len() && (#[trigger] front[i]).fingerprint == fingerprint;
                assert(entries[i].fingerprint == fingerprint);
            }
        }
    }
}

proof fn lemma_live_insert(
    entries: Map<[u8; 32], CacheEntry>,
    fingerprint: [u8; 32],
    entry: CacheEntry,
    now: nat,
)
    requires
        !entries.contains_key(fingerprint),
    ensures
        live(entries.insert(fingerprint, entry), now) == if entry.expires_at > now {
            live(entries, now).insert(fingerprint, entry)
        } else {
            live(entries, now)
        },
{
    let after = live(entries.insert(fingerprint, entry), now);
    if entry.expires_at > now {
        assert(after =~= live(entries, now).insert(fingerprint, entry));
    } else {
        assert(after =~= live(entries, now));
    }
}

/// The entries that have not expired.
fn keep_live(entries: &Vec<StoredEntry>, now: Instant) -> (kept: Vec<StoredEntry>)
    requires
        distinct(entries@),
    ensures
        distinct(kept@),
        entries_model(kept@) == live(entries_model(entries@), now.total()),
{
    let now_nanos = now.as_nanos();
    let mut kept: Vec<StoredEntry> = Vec::new();
    let mut i: usize = 0;
    assert(entries@.take(0) =~= Seq::empty());
    assert(live(Map::empty(), now.total()) =~= Map::empty());
    while i < entries.len()
        invariant
            i <= entries@.len(),
            now_nanos == now.total(),
            distinct(entries@),
            distinct(kept@),
            entries_model(kept@) == live(entries_model(entries@.take(i as int)), now.total()),
        decreases entries@.len() - i,
    {
        let stored = entries[i];
        let ghost before = entries@.take(i as int);
        proof {
            assert(distinct(before));
            lemma_entries_model(before);
            assert(before.push(stored) =~= entries@.take(i + 1));
            lemma_entries_push(before, stored);
            assert(!entries_model(before).contains_key(stored.fingerprint));
            lemma_live_insert(
                entries_model(before),
                stored.fingerprint,
                stored.entry,
                now.total(),
            );
            lemma_entries_model(kept@);
            assert forall|j: int| 0 <= j < kept@.len() implies (#[trigger] kept@[j]).fingerprint
                != stored.fingerprint by {
                assert(entries_model(kept@).contains_key(kept@[j].fingerprint));
            }
            lemma_entries_push(kept@, stored);
        }
        if stored.entry.expires_at > now_nanos {
            kept.push(stored);
        }
        i = i + 1;
    }
    assert(entries@.take(i as int) =~= entries@);
    kept
}

/// The credentials that have entries.
fn credential_ids(by_credential: &HashMap<u64, Vec<StoredEntry>>) -> (ids: Vec<u64>)
    ensures
        ids@.no_duplicates(),
        forall|id: u64| #[trigger] ids@.contains(id) <==> by_credential@.contains_key(id),
{
    let mut ids: Vec<u64> = Vec::new();
    let ghost all = spec_keys_iter(by_credential).remaining().unref();
    for id in keys: by_credential.keys()
        invariant
            keys.seq().unref() == all,
            ids@ == all.take(keys.index() as int),
    {
        ids.push(*id);
        assert(ids@ =~= all.take(keys.index() + 1));
    }
    assert(ids@ =~= all);
    assert forall|id: u64| #[trigger] ids@.contains(id) <==> by_credential@.contains_key(id) by {
        assert(all.to_set().contains(id) <==> all.contains(id));
    }
    ids
}

/// Drops what has expired, and the credentials that have nothing left.
pub fn prune_expired(by_credential: &mut HashMap<u64, Vec<StoredEntry>>, now: Instant)
    requires
        all_distinct(old(by_credential)@),
    ensures
        all_distinct(final(by_credential)@),
        store_model(final(by_credential)@) == pruned(
            store_model(old(by_credential)@),
            now.total(),
        ),
{
    let ghost before = by_credential@;
    let ids = credential_ids(by_credential);
    assert forall|i: int| 0 <= i < ids@.len() implies before.contains_key(#[trigger] ids@[i]) by {
        assert(ids@.contains(ids@[i]));
    }
    let mut k: usize = 0;
    while k < ids.len()
        invariant
            k <= ids@.len(),
            ids@.no_duplicates(),
            all_distinct(before),
            all_distinct(by_credential@),
            forall|id: u64| #[trigger] ids@.contains(id) <==> before.contains_key(id),
            forall|i: int|
                k <= i < ids@.len() ==> by_credential@.contains_key(#[trigger] ids@[i])
                    && by_credential@[ids@[i]] == before[ids@[i]],
            forall|id: u64| #[trigger]
                by_credential@.contains_key(id) ==> before.contains_key(id),
            forall|i: int|
                0 <= i < k ==> (by_credential@.contains_key(#[trigger] ids@[i]) <==> has_live(
                    entries_model(before[ids@[i]]@),
                    now.total(),
                )) && (by_credential@.contains_key(ids@[i]) ==> entries_model(
                    by_credential@[ids@[i]]@,
                ) == live(entries_model(before[ids@[i]]@), now.total())),
        decreases ids@.len() - k,
    {
        let id = ids[k];
        assert(ids@.contains(id));
        if let Some(entries) = by_credential.remove(&id) {
            let kept = keep_live(&entries, now);
            proof {
                lemma_entries_model(kept@);
                if kept@.len() > 0 {
                    assert(live(entries_model(before[id]@), now.total()).contains_key(
                        kept@[0].fingerprint,
                    ));
                } else {
                    assert(!has_live(entries_model(before[id]@), now.total()));
                }
            }
            if kept.len() > 0 {
                by_credential.insert(id, kept);
            }
        }
        k = k + 1;
    }
    let ghost after = store_model(by_credential@);
    let ghost expected = pruned(store_model(before), now.total());
    assert(after =~= expected) by {
        assert forall|id: u64| #[trigger] after.contains_key(id) <==> expected.contains_key(id) by {
            if before.contains_key(id) {
                assert(ids@.contains(id));
                let i = choose|i: int| 0 <= i < ids@.len() && ids@[i] == id;
                assert(ids@[i] == id);
            }
        }
        assert forall|id: u64| #[trigger] after.contains_key(id) implies after[id]
            == expected[id] by {
            assert(ids@.contains(id));
            let i = choose|i: int| 0 <= i < ids@.len() && ids@[i] == id;
            assert(ids@[i] == id);
        }
    }
}

/// The cached prefixes of all credentials.
pub struct CachedCheckpointStore {
    by_credential: HashMap<u64, Vec<StoredEntry>>,
}

impl View for CachedCheckpointStore {
    type V = Map<u64, Map<[u8; 32], CacheEntry>>;

    closed spec fn view(&self) -> Map<u64, Map<[u8; 32], CacheEntry>> {
        store_model(self.by_credential@)
    }
}

impl Default for CachedCheckpointStore {
    fn default() -> (store: Self)
        ensures
            store@ == Map::<u64, Map<[u8; 32], CacheEntry>>::empty(),
    {
        CachedCheckpointStore::new()
    }
}

/// The place of a fingerprint among the entries.
fn find(entries: &Vec<StoredEntry>, fingerprint: &[u8; 32]) -> (place: Option<usize>)
    requires
        distinct(entries@),
    ensures
        match place {
            Some(i) => i < entries@.len() && entries@[i as int].fingerprint == *fingerprint
                && entries_model(entries@).contains_key(*fingerprint)
                && entries_model(entries@)[*fingerprint] == entries@[i as int].entry,
            None => !entries_model(entries@).contains_key(*fingerprint),
        },
{
    proof {
        lemma_entries_model(entries@);
    }
    let mut i: usize = 0;
    while i < entries.len()
        invariant
            i <= entries@.len(),
            forall|j: int| 0 <= j < i ==> (#[trigger] entries@[j]).fingerprint != *fingerprint,
            forall|j: int|
                0 <= j < entries@.len() ==> entries_model(entries@).contains_key(
                    (#[trigger] entries@[j]).fingerprint,
                ) && entries_model(entries@)[entries@[j].fingerprint] == entries@[j].entry,
        decreases entries@.len() - i,
    {
        if same_digest(&entries[i].fingerprint, fingerprint) {
            return Some(i);
        }
        i = i + 1;
    }
    None
}

/// Records one breakpoint among the entries of a credential.
fn record_breakpoint(
    entries: &mut Vec<StoredEntry>,
    fingerprint: [u8; 32],
    tokens: i32,
    ttl: Duration,
    now: Instant,
)
    requires
        distinct(old(entries)@),
    ensures
        distinct(final(entries)@),
        entries_model(final(entries)@) == entries_model(old(entries)@).insert(
            fingerprint,
            if entries_model(old(entries)@).contains_key(fingerprint) {
                let existing = entries_model(old(entries)@)[fingerprint];
                CacheEntry {
                    token_count: greater(existing.token_count, tokens),
                    ttl: existing.ttl,
                    expires_at: existing.expires_at,
                }
            } else {
                CacheEntry {
                    token_count: tokens,
                    ttl,
                    expires_at: (now.total() + ttl.total()) as u128,
                }
            },
        ),
{
    let ghost before = entries@;
    match find(entries, &fingerprint) {
        Some(i) => {
            let existing = entries[i].entry;
            let entry = CacheEntry {
                token_count: max_tokens(existing.token_count, tokens),
                ttl: existing.ttl,
                expires_at: existing.expires_at,
            };
            entries.set(i, StoredEntry { fingerprint, entry });
            proof {
                assert(distinct(entries@));
                lemma_entries_model(before);
                lemma_entries_model(entries@);
                let expected = entries_model(before).insert(fingerprint, entry);
                assert(entries_model(entries@) =~= expected) by {
                    assert forall|f: [u8; 32]| #[trigger]
                        entries_model(entries@).contains_key(f) <==> expected.contains_key(f) by {
                        if entries_model(entries@).contains_key(f) {
                            let j = choose|j: int|
                                0 <= j < entries@.len() && (#[trigger] entries@[j]).fingerprint
                                    == f;
                            assert(before[j].fingerprint == f);
                        }
                        if entries_model(before).contains_key(f) {
                            let j = choose|j: int|
                                0 <= j < before.len() && (#[trigger] before[j]).fingerprint == f;
                            assert(entries@[j].fingerprint == f);
                        }
                        assert(entries@[i as int].fingerprint == fingerprint);
                    }
                    assert forall|f: [u8; 32]| #[trigger]
                        entries_model(entries@).contains_key(f) implies entries_model(entries@)[f]
                        == expected[f] by {
                        let j = choose|j: int|
                            0 <= j < entries@.len() && (#[trigger] entries@[j]).fingerprint == f;
                        if j != i {
                            assert(before[j].fingerprint == f);
                            assert(before[i as int].fingerprint == fingerprint);
                        }
                    }
                }
            }
        },
        None => {
            let stored = StoredEntry {
                fingerprint,
                entry: CacheEntry {
                    token_count: tokens,
                    ttl,
                    expires_at: now.as_nanos() + ttl.as_nanos(),
                },
            };
            proof {
                lemma_entries_model(before);
                lemma_entries_push(before, stored);
            }
            entries.push(stored);
        },
    }
}

impl CachedCheckpointStore {
    #[verifier::type_invariant]
    spec fn no_duplicates(self) -> bool {
        all_distinct(self.by_credential@)
    }

    /// An empty store.
    pub fn new() -> (store: Self)
        ensures
            store@ == Map::<u64, Map<[u8; 32], CacheEntry>>::empty(),
    {
        let store = CachedCheckpointStore { by_credential: HashMap::new() };
        assert(store@ =~= Map::<u64, Map<[u8; 32], CacheEntry>>::empty());
        store
    }

    /// Looks up the longest recent prefix of a request that is cached for a credential,
    /// and tells what the cache does for the request.
    pub fn compute(&mut self, now: Instant, credential_id: u64, profile: &CacheProfile) -> (result:
        CacheResult)
        ensures
            result == lookup_result(old(self)@, now.total(), credential_id, profile@),
            final(self)@ == after_lookup(old(self)@, now.total(), profile@),
    {
        let breakpoints = profile.cacheable_breakpoints();
        if breakpoints.len() == 0 {
            return CacheResult::default();
        }
        let total = profile.total_input_tokens();
        let last = breakpoints[breakpoints.len() - 1];
        let last_breakpoint_tokens = min_tokens(last.cumulative_tokens, total);

        proof {
            use_type_invariant(&*self);
        }
        let mut by_credential: HashMap<u64, Vec<StoredEntry>> = HashMap::new();
        std::mem::swap(&mut by_credential, &mut self.by_credential);
        prune_expired(&mut by_credential, now);
        let ghost store = store_model(by_credential@);
        let ghost entries = entries_of(store, credential_id);
        assert(entries == live(entries_of(old(self)@, credential_id), now.total())) by {
            let kept = live(entries_of(old(self)@, credential_id), now.total());
            assert(entries =~= kept);
        }

        let mut matched: i32 = 0;
        match by_credential.get(&credential_id) {
            None => {
                assert(hit(entries, profile@) is None) by {
                    lemma_no_entries_no_match(
                        entries,
                        profile@,
                        lookback_start(profile@),
                        profile@.breakpoints.len() as int,
                    );
                }
            },
            Some(stored) => {
                let count = breakpoints.len();
                let low = if count > PREFIX_LOOKBACK_LIMIT {
                    count - PREFIX_LOOKBACK_LIMIT
                } else {
                    0
                };
                matched = match_latest(stored, profile, low);
            },
        }
        let new_tokens = max_tokens(saturating_difference(last_breakpoint_tokens, matched), 0);
        let (cache_5m, cache_1h) = compute_ttl_breakdown(profile, matched);
        self.by_credential = by_credential;
        CacheResult {
            cache_read_input_tokens: max_tokens(matched, 0),
            cache_creation_input_tokens: new_tokens,
            cache_creation_5m_input_tokens: cache_5m,
            cache_creation_1h_input_tokens: cache_1h,
        }
    }

    /// Records the breakpoints of a request for a credential.
    pub fn update(&mut self, now: Instant, credential_id: u64, profile: &CacheProfile)
        ensures
            final(self)@ == after_update(old(self)@, now.total(), credential_id, profile@),
    {
        proof {
            use_type_invariant(&*self);
        }
        let mut by_credential: HashMap<u64, Vec<StoredEntry>> = HashMap::new();
        std::mem::swap(&mut by_credential, &mut self.by_credential);
        prune_expired(&mut by_credential, now);
        let ghost left = store_model(by_credential@);
        let mut entries: Vec<StoredEntry> = match by_credential.remove(&credential_id) {
            Some(entries) => entries,
            None => Vec::new(),
        };
        let ghost before = entries_model(entries@);
        assert(before == entries_of(left, credential_id));
        let breakpoints = profile.cacheable_breakpoints();
        let mut i: usize = 0;
        while i < breakpoints.len()
            invariant
                profile@.wf(),
                breakpoints@ == profile@.resolved_breakpoints(),
                i <= breakpoints@.len(),
                distinct(entries@),
                entries_model(entries@) == recorded(before, now.total(), profile@, i as nat),
            decreases breakpoints@.len() - i,
        {
            let breakpoint = breakpoints[i];
            let fingerprint = profile.fingerprint_at(breakpoint.block_index);
            record_breakpoint(
                &mut entries,
                fingerprint,
                breakpoint.cumulative_tokens,
                breakpoint.ttl,
                now,
            );
            i = i + 1;
        }
        by_credential.insert(credential_id, entries);
        assert(store_model(by_credential@) =~= after_update(
            old(self)@,
            now.total(),
            credential_id,
            profile@,
        ));
        self.by_credential = by_credential;
    }
}

proof fn lemma_no_entries_no_match(
    entries: Map<[u8; 32], CacheEntry>,
    profile: ProfileModel,
    low: int,
    n: int,
)
    requires
        entries == Map::<[u8; 32], CacheEntry>::empty(),
    ensures
        latest_match(entries, profile, low, n) is None,
    decreases n - low,
{
    if n > low {
        lemma_no_entries_no_match(entries, profile, low, n - 1);
    }
}

/// The tokens of the latest breakpoint from `low` on whose prefix is among the entries;
/// zero if there is none.
fn match_latest(entries: &Vec<StoredEntry>, profile: &CacheProfile, low: usize) -> (tokens: i32)
    requires
        distinct(entries@),
    ensures
        tokens == match latest_match(
            entries_model(entries@),
            profile@,
            low as int,
            profile@.breakpoints.len() as int,
        ) {
            Some(i) => lesser(profile@.cumulative(i), profile@.total),
            None => 0,
        },
{
    let breakpoints = profile.cacheable_breakpoints();
    let mut n: usize = breakpoints.len();
    while n > low
        invariant
            distinct(entries@),
            profile@.wf(),
            breakpoints@ == profile@.resolved_breakpoints(),
            n <= breakpoints@.len(),
            latest_match(
                entries_model(entries@),
                profile@,
                low as int,
                profile@.breakpoints.len() as int,
            ) == latest_match(entries_model(entries@), profile@, low as int, n as int),
        decreases n,
    {
        n = n - 1;
        let breakpoint = breakpoints[n];
        let fingerprint = profile.fingerprint_at(breakpoint.block_index);
        if find(entries, &fingerprint).is_some() {
            return min_tokens(breakpoint.cumulative_tokens, profile.total_input_tokens());
        }
    }
    0
}

} // verus!
