//! The tracker: a shared store of cached prefixes with a clock.

use crate::digest::{length_prefixed, prefix_length};
use crate::encode::{is_known, json_bytes, json_to_vec};
use crate::flatten::{flatten_cacheable_blocks, has_own_numbers, request_blocks, PendingBlock};
use crate::json::{add_member, canonicalize_json, Json, JsonModel};
use crate::laws::law_hit_is_the_latest_of_the_last_ten;
use crate::profile::{blocks_profile, CacheProfile, ProfileModel};
use crate::request::{MessagesRequest, RequestModel};
use crate::store::{
    after_lookup, after_update, entries_of, live, lookup_result, CacheEntry, CacheResult,
    CachedCheckpointStore,
};
use crate::time::{Clock, Duration, Instant};
use vstd::prelude::*;

verus! {

/// A mutex of `parking_lot`, opaque here.
#[verifier::external_type_specification]
#[verifier::external_body]
#[verifier::reject_recursive_types(R)]
#[verifier::reject_recursive_types(T)]
pub struct ExMutex<R, T: ?Sized>(parking_lot::lock_api::Mutex<R, T>);

/// The raw lock of `parking_lot`, opaque here.
#[verifier::external_type_specification]
#[verifier::external_body]
pub struct ExRawMutex(parking_lot::RawMutex);

/// `parking_lot::Mutex::new` makes a mutex that holds the store. What it holds later
/// depends on the threads that share it: nothing is promised of it.
#[verifier::external_body]
fn new_mutex(store: CachedCheckpointStore) -> parking_lot::Mutex<CachedCheckpointStore> {
    parking_lot::Mutex::new(store)
}

/// What is done under the lock: when, by which clock, for which credential, and with
/// which profile.
struct Order<'a> {
    clock: &'a Clock,
    now: Instant,
    credential_id: u64,
    profile: &'a CacheProfile,
}

impl Order<'_> {
    /// The time is one that the clock told.
    spec fn is_timed(self) -> bool {
        self.clock.has_read(self.now)
    }

    /// The store `after` is what a lookup or a recording by this order leaves of `before`.
    spec fn is_obeyed(
        self,
        before: Map<u64, Map<[u8; 32], CacheEntry>>,
        after: Map<u64, Map<[u8; 32], CacheEntry>>,
    ) -> bool {
        ||| after == after_lookup(before, self.now.total(), self.profile@)
        ||| after == after_update(before, self.now.total(), self.credential_id, self.profile@)
    }
}

/// `parking_lot::Mutex::lock` waits for the lock and gives access to what the mutex
/// holds: whatever store the threads before have left. `step` gets that store and the
/// order, and the store that it hands back is held when the lock is let go. A step that
/// locks the same mutex would wait forever. The order must have its time from a clock, and
/// what a step leaves must be what a lookup or a recording by the order leaves.
#[verifier::external_body]
fn with_lock<'a, T, F: FnOnce(CachedCheckpointStore, Order<'a>) -> (CachedCheckpointStore, T)>(
    mutex: &parking_lot::Mutex<CachedCheckpointStore>,
    order: Order<'a>,
    step: F,
) -> (result: T)
    requires
        order.is_timed(),
        forall|store: CachedCheckpointStore| #[trigger] step.requires((store, order)),
        forall|before: CachedCheckpointStore, after: CachedCheckpointStore, result: T| #[trigger]
            step.ensures((before, order), (after, result)) ==> order.is_obeyed(before@, after@),
    ensures
        exists|before: CachedCheckpointStore, after: CachedCheckpointStore| #[trigger]
            step.ensures((before, order), (after, result)),
{
    let mut guard = mutex.lock();
    let (store, result) = step(std::mem::take(&mut *guard), order);
    *guard = store;
    result
}

/// Looks up a profile in the store that the lock gives access to.
fn lookup_step(store: CachedCheckpointStore, order: Order<'_>) -> (out: (
    CachedCheckpointStore,
    CacheResult,
))
    ensures
        out.1 == lookup_result(
            store@,
            order.now.total(),
            order.credential_id,
            order.profile@,
        ),
        out.0@ == after_lookup(store@, order.now.total(), order.profile@),
{
    let mut store = store;
    let result = store.compute(order.now, order.credential_id, order.profile);
    (store, result)
}

/// Records a profile in the store that the lock gives access to.
fn record_step(store: CachedCheckpointStore, order: Order<'_>) -> (out: (
    CachedCheckpointStore,
    (),
))
    ensures
        out.0@ == after_update(
            store@,
            order.now.total(),
            order.credential_id,
            order.profile@,
        ),
{
    let mut store = store;
    store.update(order.now, order.credential_id, order.profile);
    (store, ())
}

/// The JSON object of the settings that every prefix of a request depends on.
pub open spec fn prelude_value(request: RequestModel) -> JsonModel {
    JsonModel::Object(
        Map::<Seq<char>, JsonModel>::empty().insert(
            "model"@,
            JsonModel::String(request.model),
        ).insert("tool_choice"@, request.tool_choice),
    )
}

/// What stands in front of the first block in the fingerprints of a request.
pub open spec fn request_seed(request: RequestModel) -> Seq<u8> {
    length_prefixed(json_bytes(prelude_value(request)))
}

/// The profile of a request.
pub open spec fn request_profile(
    request: RequestModel,
    max_ttl: Duration,
    total_input_tokens: i32,
) -> ProfileModel {
    blocks_profile(
        request_seed(request),
        request_blocks(request),
        max_ttl,
        total_input_tokens,
    )
}

/// The JSON texts that are digested for a request say exactly what the request says: no
/// other value has the text of its settings or of one of its blocks, and the text of the
/// settings is longer than a digest.
pub open spec fn has_own_texts(request: RequestModel) -> bool {
    &&& is_known(prelude_value(request))
    &&& forall|i: int|
        0 <= i < request_blocks(request).len() ==> is_known(
            (#[trigger] request_blocks(request)[i]).value,
        )
    &&& request_seed(request).len() > 32
}

/// The result is what a lookup gives in some state of the store at some time.
pub open spec fn lookup_outcome(
    store: Map<u64, Map<[u8; 32], CacheEntry>>,
    now: Instant,
    id: u64,
    profile: ProfileModel,
    result: CacheResult,
) -> bool {
    result == lookup_result(store, now.total(), id, profile)
}

/// Tracks which prefixes of requests are cached, for any number of threads.
pub struct CacheTracker {
    entries: parking_lot::Mutex<CachedCheckpointStore>,
    clock: Clock,
    max_supported_ttl: Duration,
}

impl CacheTracker {
    /// The longest lifetime that an entry can have.
    pub closed spec fn max_ttl(&self) -> Duration {
        self.max_supported_ttl
    }

    /// The mutex of the tracker was made to hold `store`, and its clock was started.
    pub closed spec fn was_made_with(&self, store: CachedCheckpointStore) -> bool {
        call_ensures(new_mutex, (store,), self.entries) && self.clock.is_started()
    }

    /// The reading is one that the clock of the tracker told.
    pub closed spec fn has_read(&self, now: Instant) -> bool {
        self.clock.has_read(now)
    }

    /// A lookup of the profile for the credential at the time `now`, made under a lock that
    /// gave access to the store `before` and then held `after`, told the result.
    pub closed spec fn is_lookup(
        &self,
        now: Instant,
        credential_id: u64,
        profile: &CacheProfile,
        before: CachedCheckpointStore,
        after: CachedCheckpointStore,
        result: CacheResult,
    ) -> bool {
        let order = Order { clock: &self.clock, now, credential_id, profile };
        call_ensures(lookup_step, (before, order), (after, result))
    }

    /// A recording of the profile for the credential at the time `now`, made under a lock
    /// that gave access to the store `before`, then held `after`.
    pub closed spec fn is_recording(
        &self,
        now: Instant,
        credential_id: u64,
        profile: &CacheProfile,
        before: CachedCheckpointStore,
        after: CachedCheckpointStore,
    ) -> bool {
        let order = Order { clock: &self.clock, now, credential_id, profile };
        call_ensures(record_step, (before, order), (after, ()))
    }

    /// The profile was looked up for the credential at the time `now`, under the lock of
    /// the tracker, and the result was told.
    pub closed spec fn has_looked_up(
        &self,
        now: Instant,
        credential_id: u64,
        profile: &CacheProfile,
        result: CacheResult,
    ) -> bool {
        let order = Order { clock: &self.clock, now, credential_id, profile };
        &&& call_ensures(with_lock, (&self.entries, order, lookup_step), result)
        &&& exists|before: CachedCheckpointStore, after: CachedCheckpointStore| #[trigger]
            self.is_lookup(now, credential_id, profile, before, after, result)
    }

    /// The profile was recorded for the credential at the time `now`, under the lock of
    /// the tracker.
    pub closed spec fn has_recorded(
        &self,
        now: Instant,
        credential_id: u64,
        profile: &CacheProfile,
    ) -> bool {
        let order = Order { clock: &self.clock, now, credential_id, profile };
        &&& call_ensures(with_lock, (&self.entries, order, record_step), ())
        &&& exists|before: CachedCheckpointStore, after: CachedCheckpointStore| #[trigger]
            self.is_recording(now, credential_id, profile, before, after)
    }

    /// A tracker with an empty store.
    pub fn new(max_supported_ttl: Duration) -> (tracker: Self)
        ensures
            tracker.max_ttl() == max_supported_ttl,
            exists|store: CachedCheckpointStore|
                store@ == Map::<u64, Map<[u8; 32], CacheEntry>>::empty()
                    && #[trigger] tracker.was_made_with(store),
    {
        let store = CachedCheckpointStore::new();
        let ghost empty = store;
        let tracker = CacheTracker {
            entries: new_mutex(store),
            clock: Clock::start(),
            max_supported_ttl,
        };
        assert(tracker.was_made_with(empty));
        tracker
    }

    /// Builds the profile of a request.
    pub fn build_profile(&self, payload: &MessagesRequest, total_input_tokens: i32) -> (profile:
        CacheProfile)
        ensures
            profile@ == request_profile(payload@, self.max_ttl(), total_input_tokens),
            has_own_texts(payload@),
            has_own_numbers(payload@),
    {
        let blocks = flatten_cacheable_blocks(payload);

        let mut members: Vec<(String, Json)> = Vec::new();
        add_member(&mut members, "model", Json::String(payload.model.clone()));
        let tool_choice = match &payload.tool_choice {
            Some(choice) => choice.clone(),
            None => Json::Null,
        };
        add_member(&mut members, "tool_choice", tool_choice);
        let prelude = canonicalize_json(Json::Object(members));
        let seed = prefix_length(&json_to_vec(&prelude));
        assert(blocks@.map_values(|block: PendingBlock| block@) =~= request_blocks(payload@));
        proof {
            let fields = prelude_value(payload@)->Object_0;
            reveal_strlit("model");
            reveal_strlit("tool_choice");
            assert("model"@.len() == 5 && "tool_choice"@.len() == 11);
            assert(fields.contains_key("model"@) && fields.contains_key("tool_choice"@));
        }
        let profile = CacheProfile::from_blocks(
            seed,
            &blocks,
            self.max_supported_ttl,
            total_input_tokens,
        );
        assert forall|i: int| 0 <= i < request_blocks(payload@).len() implies is_known(
            (#[trigger] request_blocks(payload@)[i]).value,
        ) by {
            assert(request_blocks(payload@)[i] == blocks@[i]@);
        }
        profile
    }

    /// Tells what the cache does for a request of a credential now. The result is the one
    /// for whatever the store holds at that moment; a profile without breakpoints is not
    /// looked up.
    pub fn compute(&self, credential_id: u64, profile: &CacheProfile) -> (result: CacheResult)
        ensures
            exists|store: Map<u64, Map<[u8; 32], CacheEntry>>, now: Instant| #[trigger]
                lookup_outcome(store, now, credential_id, profile@, result),
            profile@.breakpoints.len() > 0 ==> exists|now: Instant|
                self.has_read(now) && #[trigger] self.has_looked_up(
                    now,
                    credential_id,
                    profile,
                    result,
                ),
            profile@.breakpoints.len() == 0 ==> result == CacheResult::nothing(),
            0 <= result.cache_read_input_tokens <= profile@.total,
            0 <= result.cache_creation_input_tokens,
            result.cache_creation_5m_input_tokens + result.cache_creation_1h_input_tokens
                == result.cache_creation_input_tokens,
            profile@.breakpoints.len() > 0 && (forall|i: int|
                0 <= i < profile@.breakpoints.len() ==> #[trigger] profile@.cumulative(i) >= 0)
                ==> result.cache_read_input_tokens + result.cache_creation_input_tokens
                == profile@.total,
    {
        if profile.last_cacheable_breakpoint().is_none() {
            let result = CacheResult::default();
            assert(lookup_outcome(
                Map::empty(),
                Instant { secs: 0, nanos: 0 },
                credential_id,
                profile@,
                result,
            ));
            return result;
        }
        let now = self.clock.now();
        let order = Order { clock: &self.clock, now, credential_id, profile };
        let result = with_lock(&self.entries, order, lookup_step);
        proof {
            let (before, after) = choose|
                before: CachedCheckpointStore,
                after: CachedCheckpointStore,
            | #[trigger] call_ensures(lookup_step, (before, order), (after, result));
            assert(self.is_lookup(now, credential_id, profile, before, after, result));
            law_a_lookup_is_made_in_the_held_store(
                self,
                now,
                credential_id,
                profile,
                before,
                after,
                result,
            );
            assert(lookup_outcome(before@, now, credential_id, profile@, result));
        }
        assert(self.has_looked_up(now, credential_id, profile, result));
        proof {
            let (store, now) = choose|
                store: Map<u64, Map<[u8; 32], CacheEntry>>,
                now: Instant,
            | #[trigger] lookup_outcome(store, now, credential_id, profile@, result);
            law_hit_is_the_latest_of_the_last_ten(
                live(entries_of(store, credential_id), now.total()),
                profile@,
            );
        }
        result
    }

    /// Records the breakpoints of a request of a credential now.
    pub fn update(&self, credential_id: u64, profile: &CacheProfile)
        ensures
            exists|now: Instant|
                self.has_read(now) && #[trigger] self.has_recorded(now, credential_id, profile),
    {
        let now = self.clock.now();
        let order = Order { clock: &self.clock, now, credential_id, profile };
        with_lock(&self.entries, order, record_step);
        proof {
            let (before, after) = choose|
                before: CachedCheckpointStore,
                after: CachedCheckpointStore,
            | #[trigger] call_ensures(record_step, (before, order), (after, ()));
            assert(self.is_recording(now, credential_id, profile, before, after));
        }
        assert(self.has_recorded(now, credential_id, profile));
    }
}

/// A lookup of the tracker tells what the cache does at the time of the lookup with the
/// store that is held then, and leaves that store but for what has expired.
pub proof fn law_a_lookup_is_made_in_the_held_store(
    tracker: &CacheTracker,
    now: Instant,
    credential_id: u64,
    profile: &CacheProfile,
    before: CachedCheckpointStore,
    after: CachedCheckpointStore,
    result: CacheResult,
)
    requires
        tracker.is_lookup(now, credential_id, profile, before, after, result),
    ensures
        result == lookup_result(before@, now.total(), credential_id, profile@),
        after@ == after_lookup(before@, now.total(), profile@),
{
}

/// A recording of the tracker leaves the store that is held then with the breakpoints of
/// the profile recorded at the time of the recording.
pub proof fn law_a_recording_is_made_in_the_held_store(
    tracker: &CacheTracker,
    now: Instant,
    credential_id: u64,
    profile: &CacheProfile,
    before: CachedCheckpointStore,
    after: CachedCheckpointStore,
)
    requires
        tracker.is_recording(now, credential_id, profile, before, after),
    ensures
        after@ == after_update(before@, now.total(), credential_id, profile@),
{
}

/// What the tracker builds is the profile of the request, with the longest lifetime that
/// the tracker was made for.
pub proof fn law_the_profile_of_the_request_is_built(
    max_supported_ttl: Duration,
    tracker: CacheTracker,
    payload: &MessagesRequest,
    total_input_tokens: i32,
    profile: CacheProfile,
)
    requires
        call_ensures(CacheTracker::new, (max_supported_ttl,), tracker),
        call_ensures(CacheTracker::build_profile, (&tracker, payload, total_input_tokens), profile),
    ensures
        profile@ == request_profile(payload@, max_supported_ttl, total_input_tokens),
        has_own_texts(payload@),
        has_own_numbers(payload@),
{
}

/// What the tracker tells of a profile with breakpoints is told by a lookup at a time
/// that its clock read.
pub proof fn law_the_tracker_looks_up_by_its_clock(
    tracker: &CacheTracker,
    credential_id: u64,
    profile: &CacheProfile,
    result: CacheResult,
)
    requires
        call_ensures(CacheTracker::compute, (tracker, credential_id, profile), result),
        profile@.breakpoints.len() > 0,
    ensures
        exists|now: Instant, before: CachedCheckpointStore, after: CachedCheckpointStore|
            tracker.has_read(now) && #[trigger] tracker.is_lookup(
                now,
                credential_id,
                profile,
                before,
                after,
                result,
            ),
{
}

/// What the tracker is told to record is recorded at a time that its clock read.
pub proof fn law_the_tracker_records_by_its_clock(
    tracker: &CacheTracker,
    credential_id: u64,
    profile: &CacheProfile,
)
    requires
        call_ensures(CacheTracker::update, (tracker, credential_id, profile), ()),
    ensures
        exists|now: Instant, before: CachedCheckpointStore, after: CachedCheckpointStore|
            tracker.has_read(now) && #[trigger] tracker.is_recording(
                now,
                credential_id,
                profile,
                before,
                after,
            ),
{
}

} // verus!
