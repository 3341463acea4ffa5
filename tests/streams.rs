use celldb::optimization::{QueryOperation, QueryPlan};
use celldb::registry::Coordination;
use celldb::streaming::{StreamingConfig, StreamingEngine, STREAM_TTL_NANOS};
use celldb::types::{
    CellRegistration, CoordinationStrategy, PerformanceHints, PrincipalId, QueryError, QueryType,
    Record, StreamHandle,
};

fn pid(s: &str) -> PrincipalId {
    PrincipalId::new(s.to_string())
}

fn config() -> StreamingConfig {
    StreamingConfig {
        default_batch_size: 5,
        max_concurrent_streams: 10,
        stream_timeout_seconds: 3600,
        buffer_size: 100,
        prefetch_enabled: true,
        max_stream_records: 100,
    }
}

fn plan(cells: &[&str]) -> QueryPlan {
    QueryPlan {
        id: "stream-plan".to_string(),
        query_type: QueryType::CrossCell,
        target_cells: cells.iter().map(|c| pid(c)).collect(),
        operations: vec![QueryOperation::Sort("ts".to_string()), QueryOperation::Filter("x".to_string())],
        coordination_strategy: CoordinationStrategy::Parallel,
        streaming_config: None,
    }
}

fn records(from: u64, n: u64) -> Vec<Record> {
    (from..from + n).map(|i| Record::new(format!("record_{}", i), i)).collect()
}

fn registry(cells: &[&str]) -> Coordination {
    Coordination::init(
        cells
            .iter()
            .map(|c| CellRegistration {
                cell_id: pid(c),
                name: c.to_string(),
                schema_version: 1,
                capabilities: vec![],
                performance_hints: PerformanceHints {
                    typical_response_time_ms: 50,
                    max_concurrent_queries: 2,
                    preferred_batch_size: 5,
                    subnet_location: None,
                },
            })
            .collect(),
    )
}

#[test]
fn first_batch_comes_from_initial_refill_and_expiry_is_enforced() {
    let mut engine = StreamingEngine::init(config());
    let h = engine.create_stream(plan(&["A", "B", "C"]), "s1".to_string(), 1_000).unwrap();
    assert_eq!(h.created_at, 1_000);
    assert_eq!(h.expires_at, 1_000 + STREAM_TTL_NANOS);
    assert_eq!(engine.refill_request(&h, 5, 2_000), Ok(5));
    let batch = engine.get_next_batch(&h, 5, 2_000, records(0, 5)).unwrap();
    assert_eq!(batch.records, records(0, 5));
    assert!(batch.has_more);
    assert_eq!(batch.batch_number, 1);
    let late = h.expires_at + 1;
    assert!(matches!(engine.get_next_batch(&h, 5, late, vec![]), Err(QueryError::StreamingFailed(_))));
    assert!(matches!(engine.refill_request(&h, 5, late), Err(QueryError::StreamingFailed(_))));
}

#[test]
fn batches_cover_the_data_once_in_order() {
    let mut engine = StreamingEngine::init(config());
    let h = engine.create_stream(plan(&["A"]), "s".to_string(), 0).unwrap();
    let mut seen: Vec<Record> = Vec::new();
    let mut next: u64 = 0;
    let mut numbers = Vec::new();
    for _ in 0..4 {
        let want = engine.refill_request(&h, 4, 1).unwrap() as u64;
        let fetched = records(next, want.min(6));
        next += fetched.len() as u64;
        let b = engine.get_next_batch(&h, 4, 1, fetched).unwrap();
        numbers.push(b.batch_number);
        seen.extend(b.records);
    }
    assert_eq!(seen, records(0, 16));
    assert_eq!(numbers, vec![1, 2, 3, 4]);
}

#[test]
fn buffered_records_are_served_without_refill() {
    let mut engine = StreamingEngine::init(config());
    let h = engine.create_stream(plan(&["A"]), "s".to_string(), 0).unwrap();
    let b = engine.get_next_batch(&h, 2, 1, records(0, 5)).unwrap();
    assert_eq!(b.records, records(0, 2));
    assert_eq!(b.estimated_remaining, Some(3));
    assert_eq!(engine.refill_request(&h, 2, 1), Ok(0));
    let b = engine.get_next_batch(&h, 2, 1, vec![]).unwrap();
    assert_eq!(b.records, records(2, 2));
}

#[test]
fn short_refill_completes_the_stream() {
    let mut engine = StreamingEngine::init(config());
    let h = engine.create_stream(plan(&["A"]), "s".to_string(), 0).unwrap();
    let b = engine.get_next_batch(&h, 5, 1, records(0, 3)).unwrap();
    assert_eq!(b.records.len(), 3);
    assert!(!b.has_more);
    assert_eq!(b.estimated_remaining, None);
    assert_eq!(engine.refill_request(&h, 5, 1), Ok(0));
    let b = engine.get_next_batch(&h, 5, 1, vec![]).unwrap();
    assert!(b.records.is_empty());
    assert!(!b.has_more);
}

#[test]
fn close_is_idempotent() {
    let mut engine = StreamingEngine::init(config());
    let h = engine.create_stream(plan(&["A"]), "s".to_string(), 0).unwrap();
    assert_eq!(engine.get_active_stream_count(), 1);
    assert_eq!(engine.close_stream(&h), Ok(()));
    assert_eq!(engine.close_stream(&h), Ok(()));
    assert_eq!(engine.get_active_stream_count(), 0);
    assert!(matches!(engine.get_next_batch(&h, 1, 1, vec![]), Err(QueryError::StreamingFailed(_))));
}

#[test]
fn unknown_handle_is_not_found() {
    let mut engine = StreamingEngine::init(config());
    let h = StreamHandle { id: "nope".to_string(), created_at: 0, expires_at: u64::MAX };
    assert!(matches!(engine.get_next_batch(&h, 1, 1, vec![]), Err(QueryError::StreamingFailed(_))));
}

#[test]
fn duplicate_stream_id_is_refused() {
    let mut engine = StreamingEngine::init(config());
    engine.create_stream(plan(&["A"]), "s".to_string(), 0).unwrap();
    assert!(matches!(engine.create_stream(plan(&["A"]), "s".to_string(), 0), Err(QueryError::StreamingFailed(_))));
}

#[test]
fn open_stream_checks_targets_and_optimizes() {
    let reg = registry(&["A", "B"]);
    let mut engine = StreamingEngine::init(config());
    let r = engine.open_stream(&reg, plan(&["A", "Z"]), "s".to_string(), 0);
    assert_eq!(r, Err(QueryError::CellUnavailable(pid("Z"))));
    assert!(matches!(engine.open_stream(&reg, plan(&[]), "t".to_string(), 0), Err(QueryError::InvalidQuery(_))));
    let h = engine.open_stream(&reg, plan(&["A", "B"]), "u".to_string(), 0).unwrap();
    assert_eq!(h.id, "u");
    assert_eq!(engine.get_active_stream_count(), 1);
}

#[test]
fn streams_survive_upgrade() {
    let mut engine = StreamingEngine::init(config());
    let h = engine.create_stream(plan(&["A"]), "s".to_string(), 0).unwrap();
    engine.get_next_batch(&h, 2, 1, records(0, 4)).unwrap();
    let mut restored = StreamingEngine::post_upgrade(engine.pre_upgrade());
    assert_eq!(restored.get_active_stream_count(), 1);
    let b = restored.get_next_batch(&h, 2, 1, vec![]).unwrap();
    assert_eq!(b.records, records(2, 2));
    assert_eq!(b.batch_number, 2);
}

#[test]
fn refill_keeps_a_cursor_per_target() {
    let mut engine = StreamingEngine::init(config());
    let h = engine.create_stream(plan(&["A", "B"]), "s".to_string(), 0).unwrap();
    assert_eq!(engine.next_refill(&h.id, 5), Some((0, 0, 5)));
    assert!(engine.record_refill(&h.id, 0, 5, 3));
    assert_eq!(engine.next_refill(&h.id, 2), Some((1, 0, 2)));
    assert!(engine.record_refill(&h.id, 1, 2, 2));
    assert_eq!(engine.next_refill(&h.id, 4), Some((1, 2, 4)));
    assert!(engine.record_refill(&h.id, 1, 4, 1));
    assert_eq!(engine.next_refill(&h.id, 4), None);
    assert!(!engine.record_refill(&h.id, 0, 4, 1));
    assert_eq!(engine.next_refill(&h.id, 0), None);
    assert_eq!(engine.next_refill(&"other".to_string(), 3), None);
}

#[test]
fn zero_batch_size_is_refused() {
    let mut engine = StreamingEngine::init(config());
    let h = engine.create_stream(plan(&["A"]), "s".to_string(), 0).unwrap();
    assert!(matches!(engine.get_next_batch(&h, 0, 1, vec![]), Err(QueryError::InvalidQuery(_))));
    let late = h.expires_at + 1;
    assert!(matches!(engine.get_next_batch(&h, 0, late, vec![]), Err(QueryError::StreamingFailed(_))));
}
