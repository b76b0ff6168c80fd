use cache_tracker::flatten::PendingBlock;
use cache_tracker::json::Json;
use cache_tracker::store::CachedCheckpointStore;
use cache_tracker::time::{Duration, Instant};
use cache_tracker::{CacheProfile, CacheResult};

const FIVE_MINUTES: Duration = Duration { secs: 300, nanos: 0 };
const ONE_HOUR: Duration = Duration { secs: 3600, nanos: 0 };

fn at(secs: u64) -> Instant {
    Instant { secs, nanos: 0 }
}

fn block(label: &str, tokens: i32, ttl: Option<Duration>) -> PendingBlock {
    PendingBlock {
        value: Json::String(label.to_string()),
        tokens,
        breakpoint_ttl: ttl,
        ttl_is_fallback: false,
        message_index: Some(0),
        is_message_end: true,
    }
}

fn profile(blocks: Vec<PendingBlock>, total: i32) -> CacheProfile {
    CacheProfile::from_blocks(vec![], &blocks, ONE_HOUR, total)
}

fn turns(n: usize, total: i32) -> CacheProfile {
    let blocks = (0..n).map(|i| block(&format!("turn {i}"), 10, Some(FIVE_MINUTES))).collect();
    profile(blocks, total)
}

fn counts(result: CacheResult) -> (i32, i32, i32, i32) {
    (
        result.cache_read_input_tokens,
        result.cache_creation_input_tokens,
        result.cache_creation_5m_input_tokens,
        result.cache_creation_1h_input_tokens,
    )
}

#[test]
fn the_first_request_is_written_whole() {
    let mut store = CachedCheckpointStore::new();
    assert_eq!(counts(store.compute(at(0), 1, &turns(3, 50))), (0, 50, 50, 0));
    let hour = profile(vec![block("a", 10, Some(ONE_HOUR))], 50);
    assert_eq!(counts(store.compute(at(0), 1, &hour)), (0, 50, 0, 50));
}

#[test]
fn a_recorded_request_is_read_whole() {
    let mut store = CachedCheckpointStore::new();
    store.update(at(0), 1, &turns(3, 50));
    assert_eq!(counts(store.compute(at(1), 1, &turns(3, 50))), (50, 0, 0, 0));
    assert_eq!(counts(store.compute(at(1), 1, &turns(3, 70))), (70, 0, 0, 0));
}

#[test]
fn a_longer_request_reads_the_recorded_prefix() {
    let mut store = CachedCheckpointStore::new();
    store.update(at(0), 1, &turns(3, 50));
    assert_eq!(counts(store.compute(at(1), 1, &turns(5, 90))), (30, 60, 60, 0));
}

#[test]
fn a_shorter_request_reads_its_own_prefix() {
    let mut store = CachedCheckpointStore::new();
    store.update(at(0), 1, &turns(3, 50));
    assert_eq!(counts(store.compute(at(1), 1, &turns(2, 25))), (25, 0, 0, 0));
}

#[test]
fn only_the_last_ten_breakpoints_are_looked_up() {
    let mut store = CachedCheckpointStore::new();
    store.update(at(0), 1, &turns(1, 10));
    assert_eq!(counts(store.compute(at(1), 1, &turns(10, 100))), (10, 90, 90, 0));
    assert_eq!(counts(store.compute(at(1), 1, &turns(11, 110))), (0, 110, 110, 0));
}

#[test]
fn entries_expire_at_the_end_of_their_lifetime() {
    let mut store = CachedCheckpointStore::new();
    store.update(at(100), 1, &turns(1, 10));
    let just_before = Instant { secs: 399, nanos: 999_999_999 };
    assert_eq!(counts(store.compute(just_before, 1, &turns(1, 10))), (10, 0, 0, 0));
    assert_eq!(counts(store.compute(at(400), 1, &turns(1, 10))), (0, 10, 10, 0));
}

#[test]
fn lookups_do_not_extend_entries() {
    let mut store = CachedCheckpointStore::new();
    store.update(at(0), 1, &turns(1, 10));
    assert_eq!(counts(store.compute(at(299), 1, &turns(1, 10))), (10, 0, 0, 0));
    assert_eq!(counts(store.compute(at(301), 1, &turns(1, 10))), (0, 10, 10, 0));
}

#[test]
fn recording_again_does_not_extend_entries() {
    let mut store = CachedCheckpointStore::new();
    store.update(at(0), 1, &turns(1, 10));
    store.update(at(200), 1, &turns(1, 10));
    assert_eq!(counts(store.compute(at(299), 1, &turns(1, 10))), (10, 0, 0, 0));
    assert_eq!(counts(store.compute(at(300), 1, &turns(1, 10))), (0, 10, 10, 0));
    let mut store = CachedCheckpointStore::new();
    store.update(at(0), 1, &turns(1, 10));
    store.update(at(1), 1, &profile(vec![block("turn 0", 10, Some(ONE_HOUR))], 10));
    assert_eq!(counts(store.compute(at(301), 1, &turns(1, 10))), (0, 10, 10, 0));
}

#[test]
fn recording_twice_is_recording_once() {
    let mut once = CachedCheckpointStore::new();
    once.update(at(0), 1, &turns(3, 50));
    let mut twice = CachedCheckpointStore::new();
    twice.update(at(0), 1, &turns(3, 50));
    twice.update(at(299), 1, &turns(3, 50));
    for time in [299, 300] {
        assert_eq!(
            counts(once.compute(at(time), 1, &turns(3, 50))),
            counts(twice.compute(at(time), 1, &turns(3, 50)))
        );
    }
}

#[test]
fn an_expired_entry_is_recorded_afresh() {
    let mut store = CachedCheckpointStore::new();
    store.update(at(0), 1, &turns(1, 10));
    store.update(at(300), 1, &turns(1, 10));
    assert_eq!(counts(store.compute(at(599), 1, &turns(1, 10))), (10, 0, 0, 0));
}

#[test]
fn an_hour_outlives_five_minutes() {
    let mut store = CachedCheckpointStore::new();
    let mixed = profile(
        vec![block("a", 10, Some(ONE_HOUR)), block("b", 10, Some(FIVE_MINUTES))],
        20,
    );
    store.update(at(0), 1, &mixed);
    assert_eq!(counts(store.compute(at(299), 1, &mixed)), (20, 0, 0, 0));
    assert_eq!(counts(store.compute(at(300), 1, &mixed)), (10, 10, 10, 0));
    assert_eq!(counts(store.compute(at(3600), 1, &mixed)), (0, 20, 20, 0));
}

#[test]
fn credentials_have_entries_of_their_own() {
    let mut store = CachedCheckpointStore::default();
    store.update(at(0), 1, &turns(2, 20));
    store.update(at(0), 3, &turns(1, 10));
    assert_eq!(counts(store.compute(at(1), 2, &turns(2, 20))), (0, 20, 20, 0));
    assert_eq!(counts(store.compute(at(1), 1, &turns(2, 20))), (20, 0, 0, 0));
    assert_eq!(counts(store.compute(at(1), 3, &turns(2, 20))), (10, 10, 10, 0));
}

#[test]
fn the_tokens_read_are_those_of_the_request() {
    let mut store = CachedCheckpointStore::new();
    store.update(at(0), 1, &profile(vec![block("a", 500, Some(FIVE_MINUTES))], 500));
    let small = profile(
        vec![block("a", 10, Some(FIVE_MINUTES)), block("b", 10, Some(FIVE_MINUTES))],
        20,
    );
    assert_eq!(counts(store.compute(at(1), 1, &small)), (10, 10, 10, 0));
}

#[test]
fn no_more_is_read_than_the_total() {
    let mut store = CachedCheckpointStore::new();
    let heavy = profile(
        vec![block("a", 80, Some(FIVE_MINUTES)), block("b", 10, Some(FIVE_MINUTES))],
        50,
    );
    store.update(at(0), 1, &profile(vec![block("a", 80, Some(FIVE_MINUTES))], 50));
    assert_eq!(counts(store.compute(at(1), 1, &heavy)), (50, 0, 0, 0));
}

#[test]
fn a_negative_prefix_is_not_read() {
    let mut store = CachedCheckpointStore::new();
    let odd = profile(
        vec![block("a", -5, Some(FIVE_MINUTES)), block("b", 10, Some(FIVE_MINUTES))],
        20,
    );
    store.update(at(0), 1, &profile(vec![block("a", -5, Some(FIVE_MINUTES))], 0));
    assert_eq!(counts(store.compute(at(1), 1, &odd)), (0, 25, 25, 0));
}

#[test]
fn a_profile_without_breakpoints_is_not_looked_up() {
    let mut store = CachedCheckpointStore::new();
    store.update(at(0), 1, &profile(vec![], 30));
    assert_eq!(counts(store.compute(at(1), 1, &profile(vec![], 30))), (0, 0, 0, 0));
    assert_eq!(counts(store.compute(at(1), 1, &turns(1, 10))), (0, 10, 10, 0));
}

#[test]
fn a_lifetime_of_nothing_is_over_at_once() {
    let mut store = CachedCheckpointStore::new();
    let brief = CacheProfile::from_blocks(
        vec![],
        &vec![block("a", 10, Some(ONE_HOUR))],
        Duration::from_secs(0),
        10,
    );
    store.update(at(5), 1, &brief);
    assert_eq!(counts(store.compute(at(5), 1, &brief)), (0, 10, 10, 0));
}

#[test]
fn a_default_result_is_nothing() {
    assert_eq!(counts(CacheResult::default()), (0, 0, 0, 0));
}

#[test]
fn lengths_of_time_are_compared_by_their_nanoseconds() {
    let long = Duration { secs: 1, nanos: 500_000_000 };
    let short = Duration::from_secs(1);
    assert_eq!(long.as_nanos(), 1_500_000_000);
    assert_eq!(long.min(short), short);
    assert_eq!(Instant { secs: 2, nanos: 7 }.as_nanos(), 2_000_000_007);
}
