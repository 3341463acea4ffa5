use celldb::coordination::{
    CellOutcome, CellResponse, ComplexityLevel, ExecutionStrategy, PARALLEL_CALL_CYCLES,
    SEQUENTIAL_CALL_CYCLES,
};
use celldb::optimization::{OptimizationConfig, QueryOptimizer};
use celldb::registry::{Coordination, CoordinationSnapshot};
use celldb::types::{
    BatchQuery, BatchQueryOptions, CellCapability, CellRegistration, ConsistencyLevel,
    PerformanceHints, PrincipalId, QueryError, Record, ResultFormat,
};

fn pid(s: &str) -> PrincipalId {
    PrincipalId::new(s.to_string())
}

fn registration(id: &str, latency: u32, caps: Vec<CellCapability>) -> CellRegistration {
    CellRegistration {
        cell_id: pid(id),
        name: format!("cell {}", id),
        schema_version: 1,
        capabilities: caps,
        performance_hints: PerformanceHints {
            typical_response_time_ms: latency,
            max_concurrent_queries: 4,
            preferred_batch_size: 50,
            subnet_location: None,
        },
    }
}

fn batch_query(sql: &str, targets: &[&str]) -> BatchQuery {
    BatchQuery {
        query_sql: sql.to_string(),
        target_cells: targets.iter().map(|t| pid(t)).collect(),
        options: BatchQueryOptions {
            max_results: None,
            timeout_ms: Some(1000),
            consistency_level: ConsistencyLevel::Eventual,
            result_format: ResultFormat::Json,
        },
    }
}

fn rec(content: &str, ts: u64) -> Record {
    Record::new(content.to_string(), ts)
}

fn responded(records: Vec<Record>, total: u64, time: u64) -> CellOutcome {
    CellOutcome::Responded(CellResponse { records, total_count: total, response_time_ms: time })
}

fn managed_registry() -> Coordination {
    let mut c = Coordination::new();
    c.add_authorized_manager(pid("manager"));
    c
}

#[test]
fn join_and_group_by_is_medium() {
    let sql = "SELECT region, COUNT(*) FROM sales JOIN shops ON sales.shop = shops.id GROUP BY region";
    assert_eq!(Coordination::estimate_query_complexity(sql), ComplexityLevel::Medium);
}

#[test]
fn complexity_ignores_case() {
    let sql = "select * from a join b on a.x = b.x group by a.y";
    assert_eq!(Coordination::estimate_query_complexity(sql), ComplexityLevel::Medium);
}

#[test]
fn complexity_buckets() {
    assert_eq!(Coordination::estimate_query_complexity("SELECT * FROM t"), ComplexityLevel::Low);
    assert_eq!(Coordination::estimate_query_complexity("SELECT DISTINCT a FROM t ORDER BY a"), ComplexityLevel::Low);
    assert_eq!(
        Coordination::estimate_query_complexity("SELECT a FROM t UNION SELECT a FROM u"),
        ComplexityLevel::Medium
    );
    assert_eq!(
        Coordination::estimate_query_complexity("SELECT a FROM t JOIN u GROUP BY a HAVING COUNT(*) > 1"),
        ComplexityLevel::High
    );
}

#[test]
fn complexity_of_uppercase_text() {
    let text: Vec<char> = "A JOIN B UNION C".chars().collect();
    assert_eq!(Coordination::complexity_of_uppercase(&text), ComplexityLevel::Medium);
    let lower: Vec<char> = "a join b union c".chars().collect();
    assert_eq!(Coordination::complexity_of_uppercase(&lower), ComplexityLevel::Low);
}

#[test]
fn execution_time_and_resources() {
    assert_eq!(Coordination::estimate_execution_time(3, ComplexityLevel::Medium), 450);
    assert_eq!(Coordination::estimate_execution_time(0, ComplexityLevel::High), 800);
    let r = Coordination::calculate_resource_needs(&ExecutionStrategy::Parallel, 2);
    assert_eq!(r.estimated_cycles, 4_000_000);
    assert_eq!(r.memory_estimate, 2 * 1024 * 1024);
    let r = Coordination::calculate_resource_needs(&ExecutionStrategy::Sequential, 3);
    assert_eq!(r.estimated_cycles, 4_500_000);
    let r = Coordination::calculate_resource_needs(&ExecutionStrategy::Streaming, 3);
    assert_eq!(r.estimated_cycles, 3_000_000);
}

#[test]
fn batch_strategy_table() {
    assert_eq!(Coordination::strategy_for(1, ComplexityLevel::High), ExecutionStrategy::Sequential);
    assert_eq!(Coordination::strategy_for(3, ComplexityLevel::Low), ExecutionStrategy::Parallel);
    assert_eq!(Coordination::strategy_for(5, ComplexityLevel::Medium), ExecutionStrategy::Sequential);
    assert_eq!(Coordination::strategy_for(6, ComplexityLevel::High), ExecutionStrategy::Streaming);
    assert_eq!(Coordination::strategy_for(6, ComplexityLevel::Medium), ExecutionStrategy::Parallel);
}

#[test]
fn strategy_is_repeatable() {
    let q = batch_query("SELECT * FROM t JOIN u", &["a", "b"]);
    let p1 = Coordination::create_execution_plan(&q);
    let p2 = Coordination::create_execution_plan(&q);
    assert_eq!(p1, p2);
    assert_eq!(p1.strategy, ExecutionStrategy::Parallel);
    assert_eq!(p1.estimated_duration, 200);
}

#[test]
fn registered_cell_can_be_looked_up() {
    let mut c = managed_registry();
    let r = c.register_cell(&pid("manager"), registration("A", 120, vec![CellCapability::BatchOperations]));
    assert_eq!(r, Ok(()));
    assert!(c.is_registered(&pid("A")));
    assert_eq!(c.lookup(&pid("A")), Some(&registration("A", 120, vec![CellCapability::BatchOperations])));
    assert_eq!(c.get_registered_cell_count(), 1);
}

#[test]
fn registration_overwrites_same_identity() {
    let mut c = managed_registry();
    c.register_cell(&pid("manager"), registration("A", 120, vec![])).unwrap();
    c.register_cell(&pid("manager"), registration("A", 300, vec![CellCapability::StreamingSupport])).unwrap();
    assert_eq!(c.get_registered_cell_count(), 1);
    assert_eq!(c.lookup(&pid("A")).unwrap().performance_hints.typical_response_time_ms, 300);
}

#[test]
fn unauthorized_registration_fails() {
    let mut c = managed_registry();
    let r = c.register_cell(&pid("stranger"), registration("A", 120, vec![]));
    assert!(matches!(r, Err(QueryError::RegistrationFailed(_))));
    assert!(!c.is_registered(&pid("A")));
    assert_eq!(c.lookup(&pid("A")), None);
}

#[test]
fn unknown_target_is_unavailable() {
    let mut c = managed_registry();
    c.register_cell(&pid("manager"), registration("A", 100, vec![])).unwrap();
    let q = batch_query("SELECT 1", &["A", "B", "C"]);
    assert_eq!(c.plan_coordinated_query(&q), Err(QueryError::CellUnavailable(pid("B"))));
    assert!(!c.validate_cell_access(&q.target_cells));
    assert_eq!(c.first_unavailable(&q.target_cells), Some(1));
}

#[test]
fn query_without_targets_is_invalid() {
    let c = managed_registry();
    let q = batch_query("SELECT 1", &[]);
    assert!(matches!(c.plan_coordinated_query(&q), Err(QueryError::InvalidQuery(_))));
}

#[test]
fn single_cell_batch_query_runs_sequentially() {
    let mut c = managed_registry();
    c.register_cell(&pid("manager"), registration("A", 100, vec![CellCapability::BatchOperations])).unwrap();
    let q = batch_query("SELECT * FROM items", &["A"]);
    let plan = c.plan_coordinated_query(&q).unwrap();
    assert_eq!(plan.strategy, ExecutionStrategy::Sequential);
    let outcomes = vec![responded(vec![rec("{\"id\":1}", 5), rec("{\"id\":2}", 9)], 7, 12)];
    let results = Coordination::execute_coordinated_query(&plan, &q.target_cells, &outcomes).unwrap();
    assert_eq!(results.total_count, 7);
    assert_eq!(results.records.len(), 2);
    assert_eq!(results.cell_stats.len(), 1);
    assert_eq!(results.cell_stats[0].1.cycles_consumed, SEQUENTIAL_CALL_CYCLES);
    assert_eq!(results.cell_stats[0].1.records_returned, 2);
    let mut optimizer = QueryOptimizer::init(OptimizationConfig {
        cache_enabled: true,
        cache_ttl_seconds: 60,
        max_cache_entries: 8,
        cost_optimization_enabled: false,
        adaptive_batching: false,
    });
    let signature = QueryOptimizer::batch_query_signature(&q);
    let aggregated = optimizer.aggregate_results(results, "q".to_string(), signature, 100);
    assert_eq!(optimizer.get_historical_performance(&QueryOptimizer::batch_query_signature(&q)).unwrap().execution_time_ms, 12);
    assert_eq!(aggregated.total_count, 7);
    assert_eq!(aggregated.records, vec![rec("{\"id\":2}", 9), rec("{\"id\":1}", 5)]);
    assert_eq!(aggregated.execution_time_ms, 12);
}

#[test]
fn parallel_keeps_partial_results() {
    let targets = vec![pid("A"), pid("B"), pid("C")];
    let outcomes = vec![
        responded(vec![rec("a", 1)], 3, 10),
        CellOutcome::Failed,
        responded(vec![rec("c1", 2), rec("c2", 3)], 4, 30),
    ];
    let r = Coordination::execute_parallel_query(&targets, &outcomes).unwrap();
    assert_eq!(r.total_count, 7);
    assert_eq!(r.records, vec![rec("a", 1), rec("c1", 2), rec("c2", 3)]);
    assert!(r.cell_stats[0].1.succeeded);
    assert!(!r.cell_stats[1].1.succeeded);
    assert_eq!(r.cell_stats[1].0, pid("B"));
    assert_eq!(r.cell_stats[2].1.cycles_consumed, PARALLEL_CALL_CYCLES);
}

#[test]
fn parallel_fails_when_every_cell_fails() {
    let targets = vec![pid("A"), pid("B")];
    let outcomes = vec![CellOutcome::Failed, CellOutcome::Failed];
    assert!(matches!(
        Coordination::execute_parallel_query(&targets, &outcomes),
        Err(QueryError::CoordinationFailed(_))
    ));
}

#[test]
fn sequential_aborts_on_failure() {
    let targets = vec![pid("A"), pid("B")];
    let outcomes = vec![responded(vec![rec("a", 1)], 1, 10), CellOutcome::Failed];
    assert!(matches!(
        Coordination::execute_sequential_query(&targets, &outcomes),
        Err(QueryError::CoordinationFailed(_))
    ));
}

#[test]
fn streaming_combination_tolerates_failure() {
    let targets = vec![pid("A"), pid("B")];
    let outcomes = vec![CellOutcome::Failed, responded(vec![rec("b", 4)], 1, 10)];
    let r = Coordination::execute_streaming_query(&targets, &outcomes).unwrap();
    assert_eq!(r.total_count, 1);
    assert_eq!(r.records, vec![rec("b", 4)]);
}

#[test]
fn latency_estimate_is_mean_of_hints() {
    let mut c = managed_registry();
    c.register_cell(&pid("manager"), registration("A", 100, vec![])).unwrap();
    c.register_cell(&pid("manager"), registration("B", 301, vec![])).unwrap();
    assert_eq!(c.estimated_latency(&vec![pid("A"), pid("B")]), 200);
    assert_eq!(c.estimated_latency(&vec![]), 0);
}

#[test]
fn init_and_upgrade_keep_registrations() {
    let c = Coordination::init(vec![registration("A", 1, vec![]), registration("B", 2, vec![]), registration("A", 3, vec![])]);
    assert_eq!(c.get_registered_cell_count(), 2);
    assert_eq!(c.lookup(&pid("A")).unwrap().performance_hints.typical_response_time_ms, 3);
    let snapshot: CoordinationSnapshot = c.pre_upgrade();
    let restored = Coordination::post_upgrade(snapshot);
    assert_eq!(restored.get_registered_cell_count(), 2);
    assert!(restored.is_registered(&pid("B")));
    assert!(!restored.is_authorized_manager(&pid("manager")));
}

#[test]
fn check_targets_reports_first_missing() {
    let c = Coordination::init(vec![registration("A", 1, vec![])]);
    assert_eq!(c.check_targets(&vec![pid("A")]), Ok(()));
    assert_eq!(c.check_targets(&vec![pid("A"), pid("X"), pid("Y")]), Err(QueryError::CellUnavailable(pid("X"))));
}

#[test]
fn sequential_stops_contacting_after_failure() {
    let ok = vec![responded(vec![], 0, 1)];
    let failed = vec![responded(vec![], 0, 1), CellOutcome::Failed];
    assert!(Coordination::should_contact(ExecutionStrategy::Sequential, &ok));
    assert!(!Coordination::should_contact(ExecutionStrategy::Sequential, &failed));
    assert!(Coordination::should_contact(ExecutionStrategy::Parallel, &failed));
    assert!(Coordination::should_contact(ExecutionStrategy::Streaming, &failed));
}

#[test]
fn reported_totals_must_fit() {
    assert!(celldb::coordination::reported_total_fits(&vec![responded(vec![], u64::MAX - 1, 1), responded(vec![], 1, 1)]));
    assert!(!celldb::coordination::reported_total_fits(&vec![responded(vec![], u64::MAX, 1), responded(vec![], 1, 1)]));
}
