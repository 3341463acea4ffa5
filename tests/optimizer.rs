use celldb::aggregation::{apply_global_sorting, deduplicate_results};
use celldb::coordination::CoordinatedResults;
use celldb::optimization::{
    OptimizationConfig, QueryExecutionRecord, QueryOperation, QueryOptimizer, QueryPlan,
    QuerySignature,
};
use celldb::registry::Coordination;
use celldb::types::{
    CellExecutionStats, CellRegistration, CoordinationStrategy, PerformanceHints, PrincipalId,
    QueryType, Record,
};

fn pid(s: &str) -> PrincipalId {
    PrincipalId::new(s.to_string())
}

fn rec(content: &str, ts: u64) -> Record {
    Record::new(content.to_string(), ts)
}

fn config(max: u64) -> OptimizationConfig {
    OptimizationConfig {
        cache_enabled: true,
        cache_ttl_seconds: 60,
        max_cache_entries: max,
        cost_optimization_enabled: true,
        adaptive_batching: false,
    }
}

fn signature(cells: &[&str], ops: u64) -> QuerySignature {
    QuerySignature {
        query_type: QueryType::CrossCell,
        target_cells: cells.iter().map(|c| pid(c)).collect(),
        operation_count: ops,
    }
}

fn stat(time: u64, cycles: u64) -> CellExecutionStats {
    CellExecutionStats { response_time_ms: time, records_returned: 1, cycles_consumed: cycles, cache_hit: false, succeeded: true }
}

fn history_record(id: &str, time: u64, cells: &[&str], success: bool, ts: u64) -> QueryExecutionRecord {
    QueryExecutionRecord {
        query_signature: signature(&[id], 0),
        execution_time_ms: time,
        cycles_consumed: 0,
        cells_involved: cells.iter().map(|c| pid(c)).collect(),
        success,
        timestamp: ts,
    }
}

fn plan(cells: &[&str], ops: Vec<QueryOperation>) -> QueryPlan {
    QueryPlan {
        id: "plan".to_string(),
        query_type: QueryType::Join,
        target_cells: cells.iter().map(|c| pid(c)).collect(),
        operations: ops,
        coordination_strategy: CoordinationStrategy::Sequential,
        streaming_config: None,
    }
}

fn registration(id: &str, latency: u32) -> CellRegistration {
    CellRegistration {
        cell_id: pid(id),
        name: id.to_string(),
        schema_version: 2,
        capabilities: vec![],
        performance_hints: PerformanceHints {
            typical_response_time_ms: latency,
            max_concurrent_queries: 1,
            preferred_batch_size: 10,
            subnet_location: Some("eu".to_string()),
        },
    }
}

#[test]
fn operation_costs() {
    assert_eq!(QueryOptimizer::estimate_operation_cost(&QueryOperation::Filter("x".to_string())), 1);
    assert_eq!(QueryOptimizer::estimate_operation_cost(&QueryOperation::Limit(3)), 1);
    assert_eq!(QueryOptimizer::estimate_operation_cost(&QueryOperation::Sort("x".to_string())), 3);
    assert_eq!(QueryOptimizer::estimate_operation_cost(&QueryOperation::Aggregate("x".to_string())), 4);
    assert_eq!(QueryOptimizer::estimate_operation_cost(&QueryOperation::Join("x".to_string())), 5);
}

#[test]
fn operations_ordered_cheapest_first_stably() {
    let ops = vec![
        QueryOperation::Join("j".to_string()),
        QueryOperation::Limit(10),
        QueryOperation::Sort("s".to_string()),
        QueryOperation::Filter("f".to_string()),
        QueryOperation::Aggregate("a".to_string()),
    ];
    let ordered = QueryOptimizer::optimize_operation_order(ops);
    assert_eq!(
        ordered,
        vec![
            QueryOperation::Limit(10),
            QueryOperation::Filter("f".to_string()),
            QueryOperation::Sort("s".to_string()),
            QueryOperation::Aggregate("a".to_string()),
            QueryOperation::Join("j".to_string()),
        ]
    );
}

#[test]
fn streamed_strategy_table() {
    assert_eq!(QueryOptimizer::optimize_coordination_strategy(1, 900), CoordinationStrategy::Sequential);
    assert_eq!(QueryOptimizer::optimize_coordination_strategy(3, 199), CoordinationStrategy::Parallel);
    assert_eq!(QueryOptimizer::optimize_coordination_strategy(2, 200), CoordinationStrategy::Sequential);
    assert_eq!(QueryOptimizer::optimize_coordination_strategy(4, 149), CoordinationStrategy::AdaptiveParallel);
    assert_eq!(QueryOptimizer::optimize_coordination_strategy(8, 150), CoordinationStrategy::PipelinedStreaming);
    assert_eq!(QueryOptimizer::optimize_coordination_strategy(9, 1), CoordinationStrategy::PipelinedStreaming);
}

#[test]
fn optimize_plan_uses_declared_latency() {
    let registry = Coordination::init(vec![registration("A", 100), registration("B", 250)]);
    let p = plan(&["A", "B"], vec![QueryOperation::Join("j".to_string()), QueryOperation::Filter("f".to_string())]);
    let optimized = QueryOptimizer::optimize_plan(p, &registry);
    assert_eq!(optimized.coordination_strategy, CoordinationStrategy::Parallel);
    assert_eq!(optimized.operations[0], QueryOperation::Filter("f".to_string()));
    let p = plan(&["A", "B"], vec![]);
    let registry = Coordination::init(vec![registration("A", 100), registration("B", 400)]);
    assert_eq!(QueryOptimizer::optimize_plan(p, &registry).coordination_strategy, CoordinationStrategy::Sequential);
}

#[test]
fn signature_ignores_parameters() {
    let a = QueryOptimizer::generate_query_signature(&plan(&["A", "B"], vec![QueryOperation::Filter("x > 1".to_string())]));
    let b = QueryOptimizer::generate_query_signature(&plan(&["A", "B"], vec![QueryOperation::Filter("x > 2".to_string())]));
    assert!(a.same_as(&b));
    let c = QueryOptimizer::generate_query_signature(&plan(&["B", "A"], vec![QueryOperation::Filter("x > 2".to_string())]));
    assert!(!a.same_as(&c));
    assert_eq!(a.operation_count, 1);
}

#[test]
fn cache_round_trip_until_expiry() {
    let mut o = QueryOptimizer::init(config(4));
    let payload = vec![rec("r1", 3), rec("r2", 2)];
    o.cache_put(signature(&["A"], 1), payload.clone(), 100, 1_000, 5);
    assert_eq!(o.cache_get(&signature(&["A"], 1), 1_050), Some(payload.clone()));
    assert_eq!(o.cache_get(&signature(&["A"], 1), 1_099), Some(payload));
    assert_eq!(o.cache_get(&signature(&["A"], 1), 1_100), None);
    assert_eq!(o.cache_get(&signature(&["B"], 1), 1_000), None);
    assert_eq!(o.get_cache_hits(), 2);
    assert_eq!(o.get_cache_entry_count(), 1);
}

#[test]
fn cache_evicts_oldest_when_full() {
    let mut o = QueryOptimizer::init(config(2));
    o.cache_put(signature(&["A"], 1), vec![rec("a", 1)], 100, 0, 0);
    o.cache_put(signature(&["B"], 1), vec![rec("b", 1)], 100, 0, 0);
    o.cache_put(signature(&["C"], 1), vec![rec("c", 1)], 100, 0, 0);
    assert_eq!(o.get_cache_entry_count(), 2);
    assert_eq!(o.cache_get(&signature(&["A"], 1), 1), None);
    assert_eq!(o.cache_get(&signature(&["C"], 1), 1), Some(vec![rec("c", 1)]));
}

#[test]
fn disabled_cache_stores_nothing() {
    let mut cfg = config(4);
    cfg.cache_enabled = false;
    let mut o = QueryOptimizer::init(cfg);
    o.cache_put(signature(&["A"], 1), vec![rec("a", 1)], 100, 0, 0);
    assert_eq!(o.cache_get(&signature(&["A"], 1), 1), None);
}

#[test]
fn dedup_keeps_first_occurrence() {
    let records = vec![rec("x", 1), rec("y", 2), rec("x", 1), rec("z", 2)];
    assert_eq!(deduplicate_results(&records), vec![rec("x", 1), rec("y", 2), rec("z", 2)]);
}

#[test]
fn sorting_is_newest_first_then_by_content() {
    let records = vec![rec("a", 1), rec("d", 5), rec("c", 0), rec("b", 5), rec("e", 3)];
    assert_eq!(
        apply_global_sorting(records),
        vec![rec("b", 5), rec("d", 5), rec("e", 3), rec("a", 1), rec("c", 0)]
    );
}

#[test]
fn equal_timestamps_do_not_depend_on_arrival_order() {
    let mut o = QueryOptimizer::init(config(4));
    let one = CoordinatedResults {
        records: vec![rec("{\"id\":\"x\"}", 0), rec("{\"id\":\"y\"}", 0), rec("ab", 0)],
        total_count: 3,
        cell_stats: vec![],
    };
    let other = CoordinatedResults {
        records: vec![rec("ab", 0), rec("{\"id\":\"y\"}", 0), rec("{\"id\":\"x\"}", 0), rec("ab", 0)],
        total_count: 4,
        cell_stats: vec![],
    };
    let r1 = o.aggregate_results(one, "a".to_string(), signature(&[], 0), 1);
    let r2 = o.aggregate_results(other, "b".to_string(), signature(&[], 0), 2);
    assert_eq!(r1.records, r2.records);
    assert_eq!(r1.records, vec![rec("ab", 0), rec("{\"id\":\"x\"}", 0), rec("{\"id\":\"y\"}", 0)]);
    assert_eq!(r1.execution_time_ms, 0);
}

#[test]
fn history_is_looked_up_by_signature() {
    let mut o = QueryOptimizer::init(config(4));
    o.record_execution(history_record("A", 10, &["A"], true, 1));
    o.record_execution(history_record("B", 20, &["B"], true, 2));
    o.record_execution(history_record("A", 30, &["A"], false, 3));
    let found = o.get_historical_performance(&signature(&["A"], 0)).unwrap();
    assert_eq!(found.execution_time_ms, 30);
    assert!(o.get_historical_performance(&signature(&["C"], 0)).is_none());
}

#[test]
fn aggregation_ignores_order_and_duplicates() {
    let mut o = QueryOptimizer::init(config(4));
    let first = CoordinatedResults {
        records: vec![rec("a", 10), rec("b", 30), rec("c", 20)],
        total_count: 3,
        cell_stats: vec![(pid("A"), stat(10, 100))],
    };
    let second = CoordinatedResults {
        records: vec![rec("c", 20), rec("a", 10), rec("c", 20), rec("b", 30), rec("a", 10)],
        total_count: 5,
        cell_stats: vec![(pid("A"), stat(10, 100))],
    };
    let r1 = o.aggregate_results(first, "q1".to_string(), signature(&["A"], 0), 5);
    let r2 = o.aggregate_results(second, "q2".to_string(), signature(&["A"], 0), 6);
    assert_eq!(r1.records, r2.records);
    assert_eq!(r1.records, vec![rec("b", 30), rec("c", 20), rec("a", 10)]);
}

#[test]
fn aggregation_statistics() {
    let mut o = QueryOptimizer::init(config(4));
    let results = CoordinatedResults {
        records: vec![rec("a", 1)],
        total_count: 9,
        cell_stats: vec![(pid("A"), stat(10, 100)), (pid("B"), stat(21, 50))],
    };
    let r = o.aggregate_results(results, "q".to_string(), signature(&["A", "B"], 0), 77);
    assert_eq!(r.total_count, 9);
    assert_eq!(r.execution_time_ms, 15);
    assert_eq!(r.query_id, "q");
    assert_eq!(r.cell_statistics.len(), 2);
    assert_eq!(o.get_average_latency(), 15);
    let stats = o.get_execution_stats(10, 80);
    assert_eq!(stats.total_queries, 1);
    assert_eq!(stats.successful_queries, 1);
    assert_eq!(stats.most_queried_cells, vec![(pid("A"), 1), (pid("B"), 1)]);
}

#[test]
fn execution_stats_over_window() {
    let mut o = QueryOptimizer::init(config(4));
    o.record_execution(history_record("old", 1000, &["A"], true, 10));
    o.record_execution(history_record("q1", 10, &["A", "B"], true, 100));
    o.record_execution(history_record("q2", 30, &["B"], false, 150));
    o.record_execution(history_record("q3", 20, &["C", "B"], true, 200));
    let stats = o.get_execution_stats(150, 250);
    assert_eq!(stats.total_queries, 3);
    assert_eq!(stats.successful_queries, 2);
    assert_eq!(stats.failed_queries, 1);
    assert_eq!(stats.average_execution_time, 20);
    assert_eq!(stats.most_queried_cells, vec![(pid("B"), 3), (pid("A"), 1), (pid("C"), 1)]);
    assert_eq!(o.get_average_latency(), 265);
    let empty = o.get_execution_stats(0, 1_000);
    assert_eq!(empty.total_queries, 0);
    assert_eq!(empty.average_execution_time, 0);
    assert!(empty.most_queried_cells.is_empty());
}

#[test]
fn top_cells_limited_to_ten() {
    let mut o = QueryOptimizer::init(config(4));
    let names: Vec<String> = (0..12).map(|i| format!("cell{}", i)).collect();
    let refs: Vec<&str> = names.iter().map(|s| s.as_str()).collect();
    o.record_execution(history_record("q", 1, &refs, true, 5));
    o.record_execution(history_record("q", 1, &["cell11"], true, 5));
    let stats = o.get_execution_stats(100, 10);
    assert_eq!(stats.most_queried_cells.len(), 10);
    assert_eq!(stats.most_queried_cells[0], (pid("cell11"), 2));
    assert_eq!(stats.most_queried_cells[1], (pid("cell0"), 1));
}

#[test]
fn optimizer_upgrade_keeps_cache_and_history() {
    let mut o = QueryOptimizer::init(config(4));
    o.cache_put(signature(&["A"], 1), vec![rec("a", 1)], 100, 0, 0);
    o.record_execution(history_record("q", 40, &["A"], true, 5));
    let restored = QueryOptimizer::post_upgrade(o.pre_upgrade());
    assert_eq!(restored.get_average_latency(), 40);
    assert_eq!(restored.get_cache_entry_count(), 1);
}

#[test]
fn caching_strategy_reports_unexpired_hit() {
    let mut o = QueryOptimizer::init(config(4));
    let p = plan(&["A"], vec![QueryOperation::Limit(1)]);
    assert_eq!(o.apply_caching_strategy(&p, 0), None);
    let sig = QueryOptimizer::generate_query_signature(&p);
    o.cache_put(sig, vec![rec("a", 1)], 10, 0, 42);
    assert_eq!(o.apply_caching_strategy(&p, 5), Some(42));
    assert_eq!(o.apply_caching_strategy(&p, 10), None);
    assert_eq!(o.get_cache_hits(), 0);
}
