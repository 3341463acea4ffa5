//! Cost heuristics, execution planning for batch queries, and the
//! combination of the cells' responses into one coordinated result.
use vstd::prelude::*;
use crate::registry::Coordination;
use crate::types::{
    append_records, BatchQuery, CellExecutionStats, PrincipalId, QueryError, Record,
};

verus! {

/// How a batch query's cells are contacted.
#[derive(Clone, Copy, Debug, PartialEq, Eq, Structural)]
pub enum ExecutionStrategy {
    Parallel,
    Sequential,
    Streaming,
}

/// Complexity tier of a query's text.
#[derive(Clone, Copy, Debug, PartialEq, Eq, Structural)]
pub enum ComplexityLevel {
    Low,
    Medium,
    High,
}

#[derive(Clone, Copy, Debug, PartialEq, Eq, Structural)]
pub struct ResourceRequirements {
    pub estimated_cycles: u64,
    pub memory_estimate: u64,
}

#[derive(Clone, Copy, Debug, PartialEq, Eq, Structural)]
pub struct ExecutionPlan {
    pub strategy: ExecutionStrategy,
    pub estimated_duration: u64,
    pub resource_requirements: ResourceRequirements,
}

/// The upper-case form of a text, as `str::to_uppercase` gives it.
pub uninterp spec fn upper_of(s: Seq<char>) -> Seq<char>;

/// Relies on `str::to_uppercase`: the result depends on the text alone. The
/// characters of the result are handed back one by one.
#[verifier::external_body]
fn uppercase_chars(s: &str) -> (r: Vec<char>)
    ensures
        r@ == upper_of(s@),
{
    s.to_uppercase().chars().collect()
}

/// `pat` occurs in `text` at position `i`.
pub open spec fn occurs_at(text: Seq<char>, pat: Seq<char>, i: int) -> bool {
    0 <= i && i + pat.len() <= text.len() && text.subrange(i, i + pat.len()) == pat
}

pub open spec fn occurs_in(text: Seq<char>, pat: Seq<char>) -> bool {
    exists|i: int| occurs_at(text, pat, i)
}

pub open spec fn keyword(k: int) -> Seq<char> {
    if k == 0 {
        seq!['J', 'O', 'I', 'N']
    } else if k == 1 {
        seq!['G', 'R', 'O', 'U', 'P', ' ', 'B', 'Y']
    } else if k == 2 {
        seq!['O', 'R', 'D', 'E', 'R', ' ', 'B', 'Y']
    } else if k == 3 {
        seq!['H', 'A', 'V', 'I', 'N', 'G']
    } else if k == 4 {
        seq!['D', 'I', 'S', 'T', 'I', 'N', 'C', 'T']
    } else {
        seq!['U', 'N', 'I', 'O', 'N']
    }
}

pub open spec fn keyword_weight(k: int) -> int {
    if k == 0 {
        2
    } else if k == 1 {
        2
    } else if k == 2 {
        1
    } else if k == 3 {
        2
    } else if k == 4 {
        1
    } else {
        3
    }
}

/// Sum of the weights of the first `n` keywords that occur in `text`.
pub open spec fn keyword_score(text: Seq<char>, n: int) -> int
    decreases n,
{
    if n <= 0 {
        0
    } else {
        keyword_score(text, n - 1) + if occurs_in(text, keyword(n - 1)) {
            keyword_weight(n - 1)
        } else {
            0
        }
    }
}

pub open spec fn complexity_of_score(score: int) -> ComplexityLevel {
    if score <= 2 {
        ComplexityLevel::Low
    } else if score <= 5 {
        ComplexityLevel::Medium
    } else {
        ComplexityLevel::High
    }
}

/// Complexity of an upper-case query text: the weights of the six keywords
/// that occur in it, bucketed.
pub open spec fn complexity_of_text(upper: Seq<char>) -> ComplexityLevel {
    complexity_of_score(keyword_score(upper, 6))
}

pub open spec fn execution_strategy_for(cell_count: int, complexity: ComplexityLevel) -> ExecutionStrategy {
    if cell_count == 1 {
        ExecutionStrategy::Sequential
    } else if 2 <= cell_count <= 5 {
        if complexity == ComplexityLevel::Low {
            ExecutionStrategy::Parallel
        } else {
            ExecutionStrategy::Sequential
        }
    } else if complexity == ComplexityLevel::High {
        ExecutionStrategy::Streaming
    } else {
        ExecutionStrategy::Parallel
    }
}

pub open spec fn base_time(complexity: ComplexityLevel) -> int {
    match complexity {
        ComplexityLevel::Low => 100,
        ComplexityLevel::Medium => 300,
        ComplexityLevel::High => 800,
    }
}

pub open spec fn cycles_per_cell(strategy: ExecutionStrategy) -> int {
    match strategy {
        ExecutionStrategy::Parallel => 2_000_000,
        ExecutionStrategy::Sequential => 1_500_000,
        ExecutionStrategy::Streaming => 1_000_000,
    }
}

/// Largest cell count for which the estimates fit in a `u64`.
pub const MAX_PLANNED_CELLS: u64 = 9_223_372_036_854;

/// Memory assumed per cell.
pub const MEBIBYTE: u64 = 1024 * 1024;

/// Whether `pat` occurs in `text`.
fn occurs(text: &Vec<char>, pat: &Vec<char>) -> (r: bool)
    ensures
        r == occurs_in(text@, pat@),
{
    if pat.len() == 0 {
        assert(text@.subrange(0, 0) =~= pat@);
        assert(occurs_at(text@, pat@, 0));
        return true;
    }
    let mut i: usize = 0;
    while pat.len() <= text.len() - i
        invariant
            pat@.len() > 0,
            i <= text@.len(),
            forall|j: int| 0 <= j < i ==> !occurs_at(text@, pat@, j),
        decreases text@.len() - i,
    {
        let mut k: usize = 0;
        let mut matching = true;
        while matching && k < pat.len()
            invariant
                i + pat@.len() <= text@.len(),
                text@.len() <= usize::MAX,
                k <= pat@.len(),
                forall|m: int| 0 <= m < k ==> text@[i + m] == pat@[m],
                !matching ==> k < pat@.len() && text@[i + k] != pat@[k as int],
            decreases pat@.len() - k + if matching { 1int } else { 0 },
        {
            if text[i + k] == pat[k] {
                k += 1;
            } else {
                matching = false;
            }
        }
        if k == pat.len() {
            assert(text@.subrange(i as int, i + pat@.len()) =~= pat@);
            assert(occurs_at(text@, pat@, i as int));
            return true;
        }
        assert(text@.subrange(i as int, i + pat@.len())[k as int] != pat@[k as int]);
        i += 1;
    }
    assert forall|j: int| !occurs_at(text@, pat@, j) by {}
    false
}

fn keyword_chars(k: usize) -> (r: Vec<char>)
    requires
        k < 6,
    ensures
        r@ == keyword(k as int),
{
    let r = if k == 0 {
        vec!['J', 'O', 'I', 'N']
    } else if k == 1 {
        vec!['G', 'R', 'O', 'U', 'P', ' ', 'B', 'Y']
    } else if k == 2 {
        vec!['O', 'R', 'D', 'E', 'R', ' ', 'B', 'Y']
    } else if k == 3 {
        vec!['H', 'A', 'V', 'I', 'N', 'G']
    } else if k == 4 {
        vec!['D', 'I', 'S', 'T', 'I', 'N', 'C', 'T']
    } else {
        vec!['U', 'N', 'I', 'O', 'N']
    };
    assert(r@ =~= keyword(k as int));
    r
}

fn keyword_weight_of(k: usize) -> (r: u32)
    requires
        k < 6,
    ensures
        r as int == keyword_weight(k as int),
{
    if k == 0 {
        2
    } else if k == 1 {
        2
    } else if k == 2 {
        1
    } else if k == 3 {
        2
    } else if k == 4 {
        1
    } else {
        3
    }
}

impl Coordination {
    /// Complexity of a query text, judged case-insensitively.
    pub fn estimate_query_complexity(sql: &str) -> (r: ComplexityLevel)
        ensures
            r == complexity_of_text(upper_of(sql@)),
    {
        let upper = uppercase_chars(sql);
        Self::complexity_of_uppercase(&upper)
    }

    /// Complexity of a query text that is already in upper case.
    pub fn complexity_of_uppercase(upper: &Vec<char>) -> (r: ComplexityLevel)
        ensures
            r == complexity_of_text(upper@),
    {
        let mut score: u32 = 0;
        let mut k: usize = 0;
        while k < 6
            invariant
                k <= 6,
                score as int == keyword_score(upper@, k as int),
                score <= 3 * k,
            decreases 6 - k,
        {
            let kw = keyword_chars(k);
            if occurs(upper, &kw) {
                score = score + keyword_weight_of(k);
            }
            k += 1;
        }
        if score <= 2 {
            ComplexityLevel::Low
        } else if score <= 5 {
            ComplexityLevel::Medium
        } else {
            ComplexityLevel::High
        }
    }

    /// Estimated duration in milliseconds: a base by complexity and 50 ms per cell.
    pub fn estimate_execution_time(cell_count: usize, complexity: ComplexityLevel) -> (r: u64)
        requires
            cell_count * 50 + 800 <= u64::MAX,
        ensures
            r as int == base_time(complexity) + 50 * cell_count,
    {
        let base: u64 = match complexity {
            ComplexityLevel::Low => 100,
            ComplexityLevel::Medium => 300,
            ComplexityLevel::High => 800,
        };
        base + cell_count as u64 * 50
    }

    /// Estimated cycles (by strategy, per cell) and memory (1 MiB per cell).
    pub fn calculate_resource_needs(strategy: &ExecutionStrategy, cell_count: usize) -> (r: ResourceRequirements)
        requires
            cell_count * 2_000_000 <= u64::MAX,
        ensures
            r.estimated_cycles as int == cycles_per_cell(*strategy) * cell_count,
            r.memory_estimate as int == cell_count * MEBIBYTE,
    {
        let per_cell: u64 = match strategy {
            ExecutionStrategy::Parallel => 2_000_000,
            ExecutionStrategy::Sequential => 1_500_000,
            ExecutionStrategy::Streaming => 1_000_000,
        };
        ResourceRequirements {
            estimated_cycles: cell_count as u64 * per_cell,
            memory_estimate: cell_count as u64 * MEBIBYTE,
        }
    }

    /// Plan of a batch query: its strategy, from the cell count and the
    /// complexity of its text, with the estimates for that strategy.
    pub fn create_execution_plan(query: &BatchQuery) -> (r: ExecutionPlan)
        requires
            query.target_cells@.len() * 2_000_000 <= u64::MAX,
        ensures
            r.strategy == execution_strategy_for(
                query.target_cells@.len() as int,
                complexity_of_text(upper_of(query.query_sql@)),
            ),
            r.estimated_duration as int == base_time(complexity_of_text(upper_of(query.query_sql@)))
                + 50 * query.target_cells@.len(),
            r.resource_requirements.estimated_cycles as int == cycles_per_cell(r.strategy)
                * query.target_cells@.len(),
            r.resource_requirements.memory_estimate as int == query.target_cells@.len() * MEBIBYTE,
    {
        let cell_count = query.target_cells.len();
        let complexity = Self::estimate_query_complexity(query.query_sql.as_str());
        let strategy = Self::strategy_for(cell_count, complexity);
        ExecutionPlan {
            strategy,
            estimated_duration: Self::estimate_execution_time(cell_count, complexity),
            resource_requirements: Self::calculate_resource_needs(&strategy, cell_count),
        }
    }

    /// The strategy for a batch query over `cell_count` cells of the given complexity.
    pub fn strategy_for(cell_count: usize, complexity: ComplexityLevel) -> (r: ExecutionStrategy)
        ensures
            r == execution_strategy_for(cell_count as int, complexity),
    {
        if cell_count == 1 {
            ExecutionStrategy::Sequential
        } else if 2 <= cell_count && cell_count <= 5 {
            match complexity {
                ComplexityLevel::Low => ExecutionStrategy::Parallel,
                _ => ExecutionStrategy::Sequential,
            }
        } else {
            match complexity {
                ComplexityLevel::High => ExecutionStrategy::Streaming,
                _ => ExecutionStrategy::Parallel,
            }
        }
    }

    /// Checks a batch query's targets against the registry, then plans it.
    pub fn plan_coordinated_query(&self, query: &BatchQuery) -> (r: Result<ExecutionPlan, QueryError>)
        ensures
            r is Ok <==> query.target_cells@.len() > 0 && query.target_cells@.len() <= MAX_PLANNED_CELLS
                && forall|k: int|
                0 <= k < query.target_cells@.len() ==> self.registered(#[trigger] query.target_cells@[k]@),
            query.target_cells@.len() == 0 ==> r matches Err(QueryError::InvalidQuery(_)),
            query.target_cells@.len() > MAX_PLANNED_CELLS ==> r matches Err(QueryError::ResourceExhausted),
            0 < query.target_cells@.len() <= MAX_PLANNED_CELLS && r is Err ==> (r matches Err(
                QueryError::CellUnavailable(id),
            ) && exists|k: int|
                0 <= k < query.target_cells@.len() && query.target_cells@[k]@ == id@ && !self.registered(id@)
                    && forall|j: int| 0 <= j < k ==> self.registered(#[trigger] query.target_cells@[j]@)),
            r matches Ok(plan) ==> plan == Self::spec_plan(query),
    {
        if query.target_cells.len() as u64 > MAX_PLANNED_CELLS {
            return Err(QueryError::ResourceExhausted);
        }
        match self.check_targets(&query.target_cells) {
            Ok(()) => Ok(Self::create_execution_plan(query)),
            Err(e) => Err(e),
        }
    }

    /// The plan that `create_execution_plan` gives `query`.
    pub open spec fn spec_plan(query: &BatchQuery) -> ExecutionPlan {
        let n = query.target_cells@.len() as int;
        let c = complexity_of_text(upper_of(query.query_sql@));
        let s = execution_strategy_for(n, c);
        ExecutionPlan {
            strategy: s,
            estimated_duration: (base_time(c) + 50 * n) as u64,
            resource_requirements: ResourceRequirements {
                estimated_cycles: (cycles_per_cell(s) * n) as u64,
                memory_estimate: (n * MEBIBYTE) as u64,
            },
        }
    }
}

/// What one cell answered to a query.
#[derive(Clone, Debug, PartialEq, Eq)]
pub struct CellResponse {
    pub records: Vec<Record>,
    pub total_count: u64,
    pub response_time_ms: u64,
}

/// The outcome of contacting one cell: its response, or a failure (an error,
/// a timeout, or no contact at all).
#[derive(Clone, Debug, PartialEq, Eq)]
pub enum CellOutcome {
    Responded(CellResponse),
    Failed,
}

/// Records, reported total and per-cell statistics of a coordinated query,
/// before aggregation.
#[derive(Clone, Debug, PartialEq, Eq)]
pub struct CoordinatedResults {
    pub records: Vec<Record>,
    pub total_count: u64,
    pub cell_stats: Vec<(PrincipalId, CellExecutionStats)>,
}

/// Cycles assumed for one cell call in each mode of execution.
pub const PARALLEL_CALL_CYCLES: u64 = 1_000_000;

pub const SEQUENTIAL_CALL_CYCLES: u64 = 800_000;

pub const STREAMING_CALL_CYCLES: u64 = 500_000;

/// The records of the cells that responded, in the cells' order.
pub open spec fn responded_records(outcomes: Seq<CellOutcome>) -> Seq<Record>
    decreases outcomes.len(),
{
    if outcomes.len() == 0 {
        seq![]
    } else {
        responded_records(outcomes.drop_last()) + match outcomes.last() {
            CellOutcome::Responded(resp) => resp.records@,
            CellOutcome::Failed => seq![],
        }
    }
}

/// Sum of the totals that the responding cells reported.
pub open spec fn reported_total(outcomes: Seq<CellOutcome>) -> int
    decreases outcomes.len(),
{
    if outcomes.len() == 0 {
        0
    } else {
        reported_total(outcomes.drop_last()) + match outcomes.last() {
            CellOutcome::Responded(resp) => resp.total_count as int,
            CellOutcome::Failed => 0,
        }
    }
}

pub open spec fn all_failed(outcomes: Seq<CellOutcome>) -> bool {
    forall|k: int| 0 <= k < outcomes.len() ==> #[trigger] outcomes[k] is Failed
}

pub open spec fn any_failed(outcomes: Seq<CellOutcome>) -> bool {
    exists|k: int| 0 <= k < outcomes.len() && #[trigger] outcomes[k] is Failed
}

/// The statistics recorded for one cell's outcome.
pub open spec fn stats_of(outcome: CellOutcome, cycles: u64) -> CellExecutionStats {
    match outcome {
        CellOutcome::Responded(resp) => CellExecutionStats {
            response_time_ms: resp.response_time_ms,
            records_returned: resp.records@.len() as u64,
            cycles_consumed: cycles,
            cache_hit: false,
            succeeded: true,
        },
        CellOutcome::Failed => CellExecutionStats {
            response_time_ms: 0,
            records_returned: 0,
            cycles_consumed: 0,
            cache_hit: false,
            succeeded: false,
        },
    }
}

/// `r` holds the responding cells' records and reported total, and one
/// statistic per target, in order.
pub open spec fn combines(
    r: CoordinatedResults,
    targets: Seq<PrincipalId>,
    outcomes: Seq<CellOutcome>,
    cycles: u64,
) -> bool {
    &&& r.records@ == responded_records(outcomes)
    &&& r.total_count as int == reported_total(outcomes)
    &&& r.cell_stats@.len() == targets.len()
    &&& forall|k: int|
        0 <= k < targets.len() ==> (#[trigger] r.cell_stats@[k]).0@ == targets[k]@ && r.cell_stats@[k].1
            == stats_of(outcomes[k], cycles)
}

pub proof fn lemma_reported_total_prefix(outcomes: Seq<CellOutcome>, i: int)
    requires
        0 <= i <= outcomes.len(),
    ensures
        0 <= reported_total(outcomes.subrange(0, i)) <= reported_total(outcomes),
    decreases outcomes.len(),
{
    if outcomes.len() > 0 {
        if i == outcomes.len() {
            assert(outcomes.subrange(0, i) =~= outcomes);
            lemma_reported_total_prefix(outcomes.drop_last(), i - 1);
            assert(outcomes.drop_last().subrange(0, i - 1) =~= outcomes.drop_last());
        } else {
            lemma_reported_total_prefix(outcomes.drop_last(), i);
            assert(outcomes.drop_last().subrange(0, i) =~= outcomes.subrange(0, i));
        }
    }
}

/// Combines the outcomes of the targets' calls, each responding cell
/// charged `cycles`.
fn combine_outcomes(targets: &Vec<PrincipalId>, outcomes: &Vec<CellOutcome>, cycles: u64) -> (r:
    CoordinatedResults)
    requires
        outcomes@.len() == targets@.len(),
        reported_total(outcomes@) <= u64::MAX,
    ensures
        combines(r, targets@, outcomes@, cycles),
{
    let mut records: Vec<Record> = Vec::new();
    let mut total: u64 = 0;
    let mut stats: Vec<(PrincipalId, CellExecutionStats)> = Vec::new();
    let mut i: usize = 0;
    while i < outcomes.len()
        invariant
            outcomes@.len() == targets@.len(),
            reported_total(outcomes@) <= u64::MAX,
            i <= outcomes@.len(),
            records@ == responded_records(outcomes@.subrange(0, i as int)),
            total as int == reported_total(outcomes@.subrange(0, i as int)),
            stats@.len() == i,
            forall|k: int|
                0 <= k < i ==> (#[trigger] stats@[k]).0@ == targets@[k]@ && stats@[k].1 == stats_of(
                    outcomes@[k],
                    cycles,
                ),
        decreases outcomes@.len() - i,
    {
        let ghost pre = outcomes@.subrange(0, i as int);
        let ghost next = outcomes@.subrange(0, i + 1);
        assert(next.drop_last() =~= pre);
        proof {
            lemma_reported_total_prefix(outcomes@, i + 1);
        }
        let stat = match &outcomes[i] {
            CellOutcome::Responded(resp) => {
                append_records(&mut records, &resp.records);
                total = total + resp.total_count;
                CellExecutionStats {
                    response_time_ms: resp.response_time_ms,
                    records_returned: resp.records.len() as u64,
                    cycles_consumed: cycles,
                    cache_hit: false,
                    succeeded: true,
                }
            },
            CellOutcome::Failed => CellExecutionStats {
                response_time_ms: 0,
                records_returned: 0,
                cycles_consumed: 0,
                cache_hit: false,
                succeeded: false,
            },
        };
        stats.push((targets[i].duplicate(), stat));
        i += 1;
    }
    assert(outcomes@.subrange(0, i as int) =~= outcomes@);
    CoordinatedResults { records, total_count: total, cell_stats: stats }
}

/// Whether the totals that the responding cells reported sum to at most
/// `u64::MAX`.
pub fn reported_total_fits(outcomes: &Vec<CellOutcome>) -> (r: bool)
    ensures
        r == (reported_total(outcomes@) <= u64::MAX),
{
    let mut total: u64 = 0;
    let mut i: usize = 0;
    while i < outcomes.len()
        invariant
            i <= outcomes@.len(),
            total as int == reported_total(outcomes@.subrange(0, i as int)),
        decreases outcomes@.len() - i,
    {
        assert(outcomes@.subrange(0, i + 1).drop_last() =~= outcomes@.subrange(0, i as int));
        if let CellOutcome::Responded(resp) = &outcomes[i] {
            if resp.total_count > u64::MAX - total {
                proof {
                    lemma_reported_total_prefix(outcomes@, i + 1);
                }
                return false;
            }
            total = total + resp.total_count;
        }
        i += 1;
    }
    assert(outcomes@.subrange(0, i as int) =~= outcomes@);
    true
}

impl Coordination {
    /// Combines the outcomes of calls made to all targets at once. A failing
    /// cell is recorded in the statistics and the others are kept; the query
    /// fails only when every target failed.
    pub fn execute_parallel_query(targets: &Vec<PrincipalId>, outcomes: &Vec<CellOutcome>) -> (r: Result<
        CoordinatedResults,
        QueryError,
    >)
        requires
            outcomes@.len() == targets@.len(),
            reported_total(outcomes@) <= u64::MAX,
        ensures
            r is Err <==> targets@.len() > 0 && all_failed(outcomes@),
            r is Err ==> r matches Err(QueryError::CoordinationFailed(_)),
            r matches Ok(res) ==> combines(res, targets@, outcomes@, PARALLEL_CALL_CYCLES),
    {
        Self::tolerant_combine(targets, outcomes, PARALLEL_CALL_CYCLES)
    }

    /// Combines the outcomes of calls made one cell after another, in the
    /// targets' order. The first failure aborts the query: the cells after it
    /// are not contacted, and their outcomes are `Failed`.
    pub fn execute_sequential_query(targets: &Vec<PrincipalId>, outcomes: &Vec<CellOutcome>) -> (r: Result<
        CoordinatedResults,
        QueryError,
    >)
        requires
            outcomes@.len() == targets@.len(),
            reported_total(outcomes@) <= u64::MAX,
        ensures
            r is Err <==> any_failed(outcomes@),
            r is Err ==> r matches Err(QueryError::CoordinationFailed(_)),
            r matches Ok(res) ==> combines(res, targets@, outcomes@, SEQUENTIAL_CALL_CYCLES),
    {
        let mut i: usize = 0;
        while i < outcomes.len()
            invariant
                i <= outcomes@.len(),
                forall|k: int| 0 <= k < i ==> !(#[trigger] outcomes@[k] is Failed),
            decreases outcomes@.len() - i,
        {
            if let CellOutcome::Failed = &outcomes[i] {
                assert(outcomes@[i as int] is Failed);
                return Err(QueryError::CoordinationFailed("a cell failed during sequential execution".to_string()));
            }
            i += 1;
        }
        Ok(combine_outcomes(targets, outcomes, SEQUENTIAL_CALL_CYCLES))
    }

    /// Combines the outcomes of cells read incrementally; like parallel
    /// execution, it tolerates failing cells unless all of them fail.
    pub fn execute_streaming_query(targets: &Vec<PrincipalId>, outcomes: &Vec<CellOutcome>) -> (r: Result<
        CoordinatedResults,
        QueryError,
    >)
        requires
            outcomes@.len() == targets@.len(),
            reported_total(outcomes@) <= u64::MAX,
        ensures
            r is Err <==> targets@.len() > 0 && all_failed(outcomes@),
            r is Err ==> r matches Err(QueryError::CoordinationFailed(_)),
            r matches Ok(res) ==> combines(res, targets@, outcomes@, STREAMING_CALL_CYCLES),
    {
        Self::tolerant_combine(targets, outcomes, STREAMING_CALL_CYCLES)
    }

    fn tolerant_combine(targets: &Vec<PrincipalId>, outcomes: &Vec<CellOutcome>, cycles: u64) -> (r: Result<
        CoordinatedResults,
        QueryError,
    >)
        requires
            outcomes@.len() == targets@.len(),
            reported_total(outcomes@) <= u64::MAX,
        ensures
            r is Err <==> targets@.len() > 0 && all_failed(outcomes@),
            r is Err ==> r matches Err(QueryError::CoordinationFailed(_)),
            r matches Ok(res) ==> combines(res, targets@, outcomes@, cycles),
    {
        let mut i: usize = 0;
        let mut responded = false;
        while i < outcomes.len()
            invariant
                i <= outcomes@.len(),
                !responded ==> forall|k: int| 0 <= k < i ==> #[trigger] outcomes@[k] is Failed,
                responded ==> !all_failed(outcomes@),
            decreases outcomes@.len() - i,
        {
            if let CellOutcome::Responded(_) = &outcomes[i] {
                responded = true;
            }
            i += 1;
        }
        if outcomes.len() > 0 && !responded {
            return Err(QueryError::CoordinationFailed("every target cell failed".to_string()));
        }
        Ok(combine_outcomes(targets, outcomes, cycles))
    }

    /// Combines the outcomes by the plan's strategy.
    pub fn execute_coordinated_query(
        plan: &ExecutionPlan,
        targets: &Vec<PrincipalId>,
        outcomes: &Vec<CellOutcome>,
    ) -> (r: Result<CoordinatedResults, QueryError>)
        requires
            outcomes@.len() == targets@.len(),
            reported_total(outcomes@) <= u64::MAX,
        ensures
            r is Err <==> match plan.strategy {
                ExecutionStrategy::Sequential => any_failed(outcomes@),
                _ => targets@.len() > 0 && all_failed(outcomes@),
            },
            r is Err ==> r matches Err(QueryError::CoordinationFailed(_)),
            r matches Ok(res) ==> combines(
                res,
                targets@,
                outcomes@,
                match plan.strategy {
                    ExecutionStrategy::Parallel => PARALLEL_CALL_CYCLES,
                    ExecutionStrategy::Sequential => SEQUENTIAL_CALL_CYCLES,
                    ExecutionStrategy::Streaming => STREAMING_CALL_CYCLES,
                },
            ),
    {
        match plan.strategy {
            ExecutionStrategy::Parallel => Self::execute_parallel_query(targets, outcomes),
            ExecutionStrategy::Sequential => Self::execute_sequential_query(targets, outcomes),
            ExecutionStrategy::Streaming => Self::execute_streaming_query(targets, outcomes),
        }
    }
    /// Whether the next cell is to be contacted, given the outcomes of the
    /// cells before it: a sequential execution stops at the first failure.
    pub fn should_contact(strategy: ExecutionStrategy, previous: &Vec<CellOutcome>) -> (r: bool)
        ensures
            r == !(strategy == ExecutionStrategy::Sequential && any_failed(previous@)),
    {
        match strategy {
            ExecutionStrategy::Sequential => {
                let mut i: usize = 0;
                while i < previous.len()
                    invariant
                        strategy == ExecutionStrategy::Sequential,
                        i <= previous@.len(),
                        forall|k: int| 0 <= k < i ==> !(#[trigger] previous@[k] is Failed),
                    decreases previous@.len() - i,
                {
                    if let CellOutcome::Failed = &previous[i] {
                        assert(previous@[i as int] is Failed);
                        return false;
                    }
                    i += 1;
                }
                true
            },
            _ => true,
        }
    }
}

} // verus!
