use cachesim::cache::{Cache, CacheAccessResult, RunTraceResult};
use cachesim::trace::{Operation, TraceEntry, Traces};

fn load(address: u64) -> TraceEntry {
    TraceEntry { operation: Operation::DataLoad, address, size: 1 }
}

#[test]
fn direct_mapped_conflict_run() {
    // Geometry s=0 (one set), E=1, b=0; three loads where the middle one
    // conflicts. The first miss fills the only slot; every later miss
    // finds the set full and evicts.
    let mut cache = Cache::init(0, 1, 0);
    assert_eq!(cache.run_one_trace(load(0x10)), RunTraceResult::MissInsert);
    assert_eq!(cache.run_one_trace(load(0x20)), RunTraceResult::MissReplace);
    assert_eq!(cache.run_one_trace(load(0x10)), RunTraceResult::MissReplace);
}

#[test]
fn direct_mapped_conflict_totals() {
    let mut cache = Cache::init(0, 1, 0);
    let mut traces = Traces::empty();
    traces.push(load(0x10));
    traces.push(load(0x20));
    traces.push(load(0x10));
    let (hits, misses, evicts) = cache.run_traces(traces);
    assert_eq!((hits, misses), (0, 3));
    assert_eq!(evicts, 2);
}

#[test]
fn modify_counts_two_accesses() {
    // Geometry s=0, E=1, b=0; a single `M` record makes two accesses:
    // miss-insert then a forced hit.
    let mut cache = Cache::init(0, 1, 0);
    let record = TraceEntry { operation: Operation::DataModify, address: 0x10, size: 1 };
    assert_eq!(cache.run_one_trace(record), RunTraceResult::MissInsertHit);
}

#[test]
fn modify_totals_from_text() {
    let mut cache = Cache::init(0, 1, 0);
    let traces = Traces::from_text("M 10,1\n").unwrap();
    let (hits, misses, evicts) = cache.run_traces(traces);
    assert_eq!((hits, misses, evicts), (1, 1, 0));
}

#[test]
fn instruction_fetches_are_skipped() {
    let mut cache = Cache::init(0, 1, 0);
    let traces = Traces::from_text("I 10,1\n").unwrap();
    let (hits, misses, evicts) = cache.run_traces(traces);
    assert_eq!((hits, misses, evicts), (0, 0, 0));
}

#[test]
fn second_access_to_same_address_hits() {
    let mut cache = Cache::init(2, 2, 4);
    assert_eq!(cache.run_one_trace(load(0x1234)), RunTraceResult::MissInsert);
    assert_eq!(cache.run_one_trace(load(0x1234)), RunTraceResult::Hit);
}

#[test]
fn distinct_tags_evict_first_inserted() {
    // One set, associativity 2: the first two distinct tags insert, the
    // third evicts, and the victim is the first tag inserted.
    let mut cache = Cache::init(0, 2, 0);
    assert_eq!(cache.run_one_trace(load(0x100)), RunTraceResult::MissInsert);
    assert_eq!(cache.run_one_trace(load(0x200)), RunTraceResult::MissInsert);
    assert_eq!(cache.run_one_trace(load(0x300)), RunTraceResult::MissReplace);
    // 0x100 was evicted, 0x200 and 0x300 are still resident.
    assert!(matches!(cache.access(0x100), CacheAccessResult::Miss(_)));
    assert!(matches!(cache.access(0x200), CacheAccessResult::Hit(_, _)));
    assert!(matches!(cache.access(0x300), CacheAccessResult::Hit(_, _)));
}

#[test]
fn reaccess_promotes_entry() {
    // One set, associativity 3: fill with A, B, C, re-access A, then a
    // fresh tag D evicts B (the least recently used), never A.
    let mut cache = Cache::init(0, 3, 0);
    assert_eq!(cache.run_one_trace(load(0xa00)), RunTraceResult::MissInsert);
    assert_eq!(cache.run_one_trace(load(0xb00)), RunTraceResult::MissInsert);
    assert_eq!(cache.run_one_trace(load(0xc00)), RunTraceResult::MissInsert);
    assert_eq!(cache.run_one_trace(load(0xa00)), RunTraceResult::Hit);
    assert_eq!(cache.run_one_trace(load(0xd00)), RunTraceResult::MissReplace);
    assert!(matches!(cache.access(0xb00), CacheAccessResult::Miss(_)));
    assert!(matches!(cache.access(0xa00), CacheAccessResult::Hit(_, _)));
    assert!(matches!(cache.access(0xc00), CacheAccessResult::Hit(_, _)));
    assert!(matches!(cache.access(0xd00), CacheAccessResult::Hit(_, _)));
}

#[test]
fn set_capacity_is_respected() {
    // Associativity 1, three conflicting loads: every access after the
    // first evicts exactly one entry, so the set never grew past one.
    let mut cache = Cache::init(0, 1, 0);
    let traces = Traces::from_text("L 100,1\nL 200,1\nL 300,1\n").unwrap();
    let (hits, misses, evicts) = cache.run_traces(traces);
    assert_eq!((hits, misses, evicts), (0, 3, 2));
}

#[test]
fn addresses_in_different_sets_do_not_conflict() {
    // s=1 gives two sets with b=0: addresses 0b0 and 0b1 land in
    // different sets, so two conflicting tags per set fit.
    let mut cache = Cache::init(1, 1, 0);
    assert_eq!(cache.run_one_trace(load(0b10)), RunTraceResult::MissInsert);
    assert_eq!(cache.run_one_trace(load(0b11)), RunTraceResult::MissInsert);
    assert_eq!(cache.run_one_trace(load(0b10)), RunTraceResult::Hit);
    assert_eq!(cache.run_one_trace(load(0b11)), RunTraceResult::Hit);
}

#[test]
fn store_behaves_like_load() {
    let mut cache = Cache::init(0, 1, 0);
    let store = TraceEntry { operation: Operation::DataStore, address: 0x40, size: 4 };
    assert_eq!(cache.run_one_trace(store), RunTraceResult::MissInsert);
    assert_eq!(cache.run_one_trace(store), RunTraceResult::Hit);
}

#[test]
fn modify_hit_counts_double() {
    let mut cache = Cache::init(0, 1, 0);
    let traces = Traces::from_text("M 10,1\nM 10,1\n").unwrap();
    let (hits, misses, evicts) = cache.run_traces(traces);
    // First modify: miss + forced hit; second: both accesses hit.
    assert_eq!((hits, misses, evicts), (3, 1, 0));
}
