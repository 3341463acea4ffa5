//! Query planning for streamed queries, the TTL result cache, the execution
//! history, and the aggregation of coordinated results.
use vstd::prelude::*;
use crate::registry::Coordination;
use crate::streaming::StreamingConfig;
use crate::aggregation::{aggregated, apply_global_sorting, deduplicate_results};
use crate::coordination::CoordinatedResults;
use crate::types::{
    append_records, BatchQueryResult, CellExecutionStats, CoordinationStrategy, PrincipalId, QueryType, Record,
};

verus! {

/// One step of a query plan.
#[derive(Clone, Debug, PartialEq, Eq)]
pub enum QueryOperation {
    Filter(String),
    Sort(String),
    Join(String),
    Aggregate(String),
    Limit(u64),
}

/// A query over several cells, to be streamed.
#[derive(Clone, Debug, PartialEq, Eq)]
pub struct QueryPlan {
    pub id: String,
    pub query_type: QueryType,
    pub target_cells: Vec<PrincipalId>,
    pub operations: Vec<QueryOperation>,
    pub coordination_strategy: CoordinationStrategy,
    pub streaming_config: Option<StreamingConfig>,
}

#[derive(Clone, Copy, Debug, PartialEq, Eq, Structural)]
pub struct OptimizationConfig {
    pub cache_enabled: bool,
    pub cache_ttl_seconds: u64,
    pub max_cache_entries: u64,
    pub cost_optimization_enabled: bool,
    pub adaptive_batching: bool,
}

pub open spec fn operation_cost(op: QueryOperation) -> u32 {
    match op {
        QueryOperation::Filter(_) => 1,
        QueryOperation::Sort(_) => 3,
        QueryOperation::Join(_) => 5,
        QueryOperation::Aggregate(_) => 4,
        QueryOperation::Limit(_) => 1,
    }
}

/// The operations of `s` whose cost is `c`, in their order.
pub open spec fn with_cost(s: Seq<QueryOperation>, c: u32) -> Seq<QueryOperation>
    decreases s.len(),
{
    if s.len() == 0 {
        seq![]
    } else if operation_cost(s.last()) == c {
        with_cost(s.drop_last(), c).push(s.last())
    } else {
        with_cost(s.drop_last(), c)
    }
}

/// The operations ordered by ascending cost; equal costs keep their order.
pub open spec fn cheapest_first(s: Seq<QueryOperation>) -> Seq<QueryOperation> {
    with_cost(s, 1) + with_cost(s, 3) + with_cost(s, 4) + with_cost(s, 5)
}

/// The strategy for a streamed query over `cell_count` cells whose mean
/// latency is `latency` milliseconds.
pub open spec fn coordination_strategy_for(cell_count: int, latency: int) -> CoordinationStrategy {
    if cell_count == 1 {
        CoordinationStrategy::Sequential
    } else if 2 <= cell_count <= 3 {
        if latency < 200 {
            CoordinationStrategy::Parallel
        } else {
            CoordinationStrategy::Sequential
        }
    } else if 4 <= cell_count <= 8 {
        if latency < 150 {
            CoordinationStrategy::AdaptiveParallel
        } else {
            CoordinationStrategy::PipelinedStreaming
        }
    } else {
        CoordinationStrategy::PipelinedStreaming
    }
}

pub open spec fn ids_view(s: Seq<PrincipalId>) -> Seq<Seq<char>> {
    s.map_values(|p: PrincipalId| p@)
}

/// Shape of a query, used as the key of the result cache: its type, its
/// target cells in order, and its number of operations. The operations'
/// parameters are not part of it.
#[derive(Clone, Debug, PartialEq, Eq)]
pub struct QuerySignature {
    pub query_type: QueryType,
    pub target_cells: Vec<PrincipalId>,
    pub operation_count: u64,
}

impl View for QuerySignature {
    type V = (QueryType, Seq<Seq<char>>, u64);

    open spec fn view(&self) -> (QueryType, Seq<Seq<char>>, u64) {
        (self.query_type, ids_view(self.target_cells@), self.operation_count)
    }
}

/// Copies of the identities of `ids`.
pub fn copy_ids(ids: &Vec<PrincipalId>) -> (r: Vec<PrincipalId>)
    ensures
        r@ == ids@,
{
    let mut r: Vec<PrincipalId> = Vec::new();
    let mut i: usize = 0;
    while i < ids.len()
        invariant
            i <= ids@.len(),
            r@ == ids@.subrange(0, i as int),
        decreases ids@.len() - i,
    {
        r.push(ids[i].duplicate());
        i += 1;
        assert(r@ =~= ids@.subrange(0, i as int));
    }
    assert(ids@.subrange(0, i as int) =~= ids@);
    r
}

impl QuerySignature {
    /// Whether two signatures are the same.
    pub fn same_as(&self, other: &QuerySignature) -> (r: bool)
        ensures
            r == (self@ == other@),
    {
        if self.query_type != other.query_type || self.operation_count != other.operation_count
            || self.target_cells.len() != other.target_cells.len() {
            assert(ids_view(self.target_cells@).len() == self.target_cells@.len());
            return false;
        }
        let mut i: usize = 0;
        while i < self.target_cells.len()
            invariant
                self.target_cells@.len() == other.target_cells@.len(),
                i <= self.target_cells@.len(),
                forall|j: int| 0 <= j < i ==> self.target_cells@[j]@ == other.target_cells@[j]@,
            decreases self.target_cells@.len() - i,
        {
            if !self.target_cells[i].same_as(&other.target_cells[i]) {
                assert(ids_view(self.target_cells@)[i as int] != ids_view(other.target_cells@)[i as int]);
                return false;
            }
            i += 1;
        }
        assert(ids_view(self.target_cells@) =~= ids_view(other.target_cells@));
        true
    }

    /// An identical copy.
    pub fn duplicate(&self) -> (r: QuerySignature)
        ensures
            r@ == self@,
    {
        let cells = copy_ids(&self.target_cells);
        QuerySignature {
            query_type: self.query_type,
            target_cells: cells,
            operation_count: self.operation_count,
        }
    }
}

/// A cached result, served while `now < expires_at`.
#[derive(Clone, Debug, PartialEq, Eq)]
pub struct CachedQueryResult {
    pub query_signature: QuerySignature,
    pub result: Vec<Record>,
    pub cached_at: u64,
    pub expires_at: u64,
    pub hit_count: u64,
    pub estimated_cycles_saved: u64,
}

/// One entry of the execution history.
#[derive(Clone, Debug, PartialEq, Eq)]
pub struct QueryExecutionRecord {
    pub query_signature: QuerySignature,
    pub execution_time_ms: u64,
    pub cycles_consumed: u64,
    pub cells_involved: Vec<PrincipalId>,
    pub success: bool,
    pub timestamp: u64,
}

/// Position of the entry for `sig` in `entries`, or -1 when there is none.
pub open spec fn cache_index(entries: Seq<CachedQueryResult>, sig: (QueryType, Seq<Seq<char>>, u64)) -> int
    decreases entries.len(),
{
    if entries.len() == 0 {
        -1
    } else if entries.last().query_signature@ == sig {
        entries.len() - 1
    } else {
        cache_index(entries.drop_last(), sig)
    }
}

pub open spec fn signatures_distinct(entries: Seq<CachedQueryResult>) -> bool {
    forall|i: int, j: int|
        0 <= i < entries.len() && 0 <= j < entries.len() && i != j ==> entries[i].query_signature@
            != entries[j].query_signature@
}

pub proof fn lemma_cache_index(entries: Seq<CachedQueryResult>, sig: (QueryType, Seq<Seq<char>>, u64))
    ensures
        -1 <= cache_index(entries, sig) < entries.len(),
        cache_index(entries, sig) >= 0 ==> entries[cache_index(entries, sig)].query_signature@ == sig,
        cache_index(entries, sig) == -1 <==> forall|i: int|
            0 <= i < entries.len() ==> entries[i].query_signature@ != sig,
    decreases entries.len(),
{
    if entries.len() > 0 {
        lemma_cache_index(entries.drop_last(), sig);
        if entries.last().query_signature@ != sig && cache_index(entries, sig) == -1 {
            assert forall|i: int| 0 <= i < entries.len() implies entries[i].query_signature@ != sig by {
                if i < entries.len() - 1 {
                    assert(entries.drop_last()[i] == entries[i]);
                }
            }
        }
    }
}

pub proof fn lemma_cache_index_at(entries: Seq<CachedQueryResult>, sig: (QueryType, Seq<Seq<char>>, u64), k: int)
    requires
        signatures_distinct(entries),
        0 <= k < entries.len(),
        entries[k].query_signature@ == sig,
    ensures
        cache_index(entries, sig) == k,
{
    lemma_cache_index(entries, sig);
}

/// Expiry of an entry stored at `now` for `ttl` (saturating).
pub open spec fn expiry(now: u64, ttl: u64) -> u64 {
    if now + ttl <= u64::MAX {
        (now + ttl) as u64
    } else {
        u64::MAX
    }
}

/// Sum of the response times of the cells' statistics.
pub open spec fn response_time_total(stats: Seq<(PrincipalId, CellExecutionStats)>) -> int
    decreases stats.len(),
{
    if stats.len() == 0 {
        0
    } else {
        response_time_total(stats.drop_last()) + stats.last().1.response_time_ms
    }
}

/// Sum of the cycles that the cells' statistics report.
pub open spec fn cycles_total(stats: Seq<(PrincipalId, CellExecutionStats)>) -> int
    decreases stats.len(),
{
    if stats.len() == 0 {
        0
    } else {
        cycles_total(stats.drop_last()) + stats.last().1.cycles_consumed
    }
}

pub open spec fn mean_response_time(stats: Seq<(PrincipalId, CellExecutionStats)>) -> int {
    if stats.len() == 0 {
        0
    } else {
        response_time_total(stats) / stats.len() as int
    }
}

pub proof fn lemma_cycles_total_prefix(stats: Seq<(PrincipalId, CellExecutionStats)>, i: int)
    requires
        0 <= i <= stats.len(),
    ensures
        0 <= cycles_total(stats.subrange(0, i)) <= cycles_total(stats),
    decreases stats.len(),
{
    if stats.len() > 0 {
        if i == stats.len() {
            assert(stats.subrange(0, i) =~= stats);
            lemma_cycles_total_prefix(stats.drop_last(), i - 1);
            assert(stats.drop_last().subrange(0, i - 1) =~= stats.drop_last());
        } else {
            lemma_cycles_total_prefix(stats.drop_last(), i);
            assert(stats.drop_last().subrange(0, i) =~= stats.subrange(0, i));
        }
    }
}

/// The entry that `cache_put` stores.
pub open spec fn new_entry(
    signature: QuerySignature,
    payload: Vec<Record>,
    ttl: u64,
    now: u64,
    cycles_saved: u64,
) -> CachedQueryResult {
    CachedQueryResult {
        query_signature: signature,
        result: payload,
        cached_at: now,
        expires_at: expiry(now, ttl),
        hit_count: 0,
        estimated_cycles_saved: cycles_saved,
    }
}

/// The cache after storing `entry` with room for `max` entries: an entry with
/// the same signature is replaced in place; otherwise, when the cache is
/// full, the oldest entry leaves.
pub open spec fn cache_after_put(cache: Seq<CachedQueryResult>, entry: CachedQueryResult, max: u64) -> Seq<
    CachedQueryResult,
> {
    let i = cache_index(cache, entry.query_signature@);
    if i >= 0 {
        cache.update(i, entry)
    } else if cache.len() >= max {
        cache.subrange(1, cache.len() as int).push(entry)
    } else {
        cache.push(entry)
    }
}

/// What a lookup of `sig` at `now` serves from `cache`.
pub open spec fn cache_lookup(cache: Seq<CachedQueryResult>, sig: (QueryType, Seq<Seq<char>>, u64), now: u64) -> Option<
    Seq<Record>,
> {
    let i = cache_index(cache, sig);
    if i >= 0 && now < cache[i].expires_at {
        Some(cache[i].result@)
    } else {
        None
    }
}

pub proof fn lemma_cache_after_put(cache: Seq<CachedQueryResult>, entry: CachedQueryResult, max: u64)
    requires
        signatures_distinct(cache),
        cache.len() <= max,
        max > 0,
    ensures
        ({
            let c = cache_after_put(cache, entry, max);
            &&& signatures_distinct(c)
            &&& c.len() <= max
            &&& c[cache_index(c, entry.query_signature@)] == entry
            &&& cache_index(c, entry.query_signature@) >= 0
            &&& forall|k: (QueryType, Seq<Seq<char>>, u64)|
                k != entry.query_signature@ && #[trigger] cache_index(c, k) >= 0 ==> cache_index(cache, k)
                    >= 0 && c[cache_index(c, k)] == cache[cache_index(cache, k)]
        }),
{
    let sig = entry.query_signature@;
    let c = cache_after_put(cache, entry, max);
    lemma_cache_index(cache, sig);
    let i = cache_index(cache, sig);
    if i >= 0 {
        assert forall|a: int, b: int|
            0 <= a < c.len() && 0 <= b < c.len() && a != b implies c[a].query_signature@ != c[b].query_signature@ by {
            if a != i {
                assert(c[a] == cache[a]);
            }
            if b != i {
                assert(c[b] == cache[b]);
            }
        }
        lemma_cache_index_at(c, sig, i);
        assert forall|k: (QueryType, Seq<Seq<char>>, u64)|
            k != sig && #[trigger] cache_index(c, k) >= 0 implies cache_index(cache, k) >= 0 && c[cache_index(
                c,
                k,
            )] == cache[cache_index(cache, k)] by {
            lemma_cache_index(c, k);
            let j = cache_index(c, k);
            assert(c[j] == cache[j]);
            lemma_cache_index_at(cache, k, j);
        }
    } else {
        let shift: int = if cache.len() >= max {
            1
        } else {
            0
        };
        let kept = cache.subrange(shift, cache.len() as int);
        let n = kept.len() as int;
        assert(c == kept.push(entry));
        assert(forall|j: int| 0 <= j < n ==> #[trigger] c[j] == cache[j + shift]);
        assert forall|a: int, b: int|
            0 <= a < c.len() && 0 <= b < c.len() && a != b implies c[a].query_signature@ != c[b].query_signature@ by {
            if a < n && b < n {
                assert(c[a] == cache[a + shift] && c[b] == cache[b + shift]);
            } else if a < n {
                assert(c[a] == cache[a + shift]);
            } else if b < n {
                assert(c[b] == cache[b + shift]);
            }
        }
        lemma_cache_index_at(c, sig, n);
        assert forall|k: (QueryType, Seq<Seq<char>>, u64)|
            k != sig && #[trigger] cache_index(c, k) >= 0 implies cache_index(cache, k) >= 0 && c[cache_index(
                c,
                k,
            )] == cache[cache_index(cache, k)] by {
            lemma_cache_index(c, k);
            let j = cache_index(c, k);
            assert(j < n);
            assert(c[j] == cache[j + shift]);
            lemma_cache_index_at(cache, k, j + shift);
        }
    }
}

/// A result put in the cache is served by a lookup of the same signature
/// until it expires, and not from then on.
pub proof fn lemma_cache_round_trip(
    cache: Seq<CachedQueryResult>,
    max: u64,
    signature: QuerySignature,
    payload: Vec<Record>,
    ttl: u64,
    now: u64,
    cycles_saved: u64,
    later: u64,
)
    requires
        signatures_distinct(cache),
        cache.len() <= max,
        max > 0,
    ensures
        cache_lookup(
            cache_after_put(cache, new_entry(signature, payload, ttl, now, cycles_saved), max),
            signature@,
            later,
        ) == if later < expiry(now, ttl) {
            Some(payload@)
        } else {
            None::<Seq<Record>>
        },
{
    lemma_cache_after_put(cache, new_entry(signature, payload, ttl, now, cycles_saved), max);
}

/// The tally of cells, as (identity, count) pairs in order of first appearance.
pub open spec fn tally_view(t: Seq<(PrincipalId, u64)>) -> Seq<(Seq<char>, u64)> {
    t.map_values(|e: (PrincipalId, u64)| (e.0@, e.1))
}

pub open spec fn tally_index(t: Seq<(Seq<char>, u64)>, id: Seq<char>) -> int
    decreases t.len(),
{
    if t.len() == 0 {
        -1
    } else if t.last().0 == id {
        t.len() - 1
    } else {
        tally_index(t.drop_last(), id)
    }
}

/// Counts one more query of `id` (saturating).
pub open spec fn tally_add(t: Seq<(Seq<char>, u64)>, id: Seq<char>) -> Seq<(Seq<char>, u64)> {
    let i = tally_index(t, id);
    if i >= 0 {
        t.update(i, (id, if t[i].1 < u64::MAX { (t[i].1 + 1) as u64 } else { u64::MAX }))
    } else {
        t.push((id, 1u64))
    }
}

pub open spec fn tally_cells(t: Seq<(Seq<char>, u64)>, cells: Seq<PrincipalId>) -> Seq<(Seq<char>, u64)>
    decreases cells.len(),
{
    if cells.len() == 0 {
        t
    } else {
        tally_add(tally_cells(t, cells.drop_last()), cells.last()@)
    }
}

/// Start of a window of `window` nanoseconds that ends at `now`.
pub open spec fn window_start(now: u64, window: u64) -> u64 {
    if now >= window {
        (now - window) as u64
    } else {
        0
    }
}

/// The history records at or after `start`, in order.
pub open spec fn in_window(h: Seq<QueryExecutionRecord>, start: u64) -> Seq<QueryExecutionRecord>
    decreases h.len(),
{
    if h.len() == 0 {
        seq![]
    } else if h.last().timestamp >= start {
        in_window(h.drop_last(), start).push(h.last())
    } else {
        in_window(h.drop_last(), start)
    }
}

pub open spec fn success_count(h: Seq<QueryExecutionRecord>) -> int
    decreases h.len(),
{
    if h.len() == 0 {
        0
    } else {
        success_count(h.drop_last()) + if h.last().success {
            1int
        } else {
            0
        }
    }
}

pub open spec fn execution_time_total(h: Seq<QueryExecutionRecord>) -> int
    decreases h.len(),
{
    if h.len() == 0 {
        0
    } else {
        execution_time_total(h.drop_last()) + h.last().execution_time_ms
    }
}

pub open spec fn mean_execution_time(h: Seq<QueryExecutionRecord>) -> int {
    if h.len() == 0 {
        0
    } else {
        execution_time_total(h) / h.len() as int
    }
}

/// How often each cell was involved in the records of `h`.
pub open spec fn cell_tally(h: Seq<QueryExecutionRecord>) -> Seq<(Seq<char>, u64)>
    decreases h.len(),
{
    if h.len() == 0 {
        seq![]
    } else {
        tally_cells(cell_tally(h.drop_last()), h.last().cells_involved@)
    }
}

pub open spec fn count_split(s: Seq<(Seq<char>, u64)>, c: u64) -> int
    decreases s.len(),
{
    if s.len() == 0 {
        0
    } else if s.last().1 < c {
        count_split(s.drop_last(), c)
    } else {
        s.len() as int
    }
}

/// Tally entries by descending count; equal counts keep their order.
pub open spec fn rank_by_count(s: Seq<(Seq<char>, u64)>) -> Seq<(Seq<char>, u64)>
    decreases s.len(),
{
    if s.len() == 0 {
        seq![]
    } else {
        let r = rank_by_count(s.drop_last());
        let k = count_split(r, s.last().1);
        r.subrange(0, k) + seq![s.last()] + r.subrange(k, r.len() as int)
    }
}

/// Number of cells listed as the most queried.
pub const TOP_CELLS: usize = 10;

pub open spec fn top_cells(t: Seq<(Seq<char>, u64)>) -> Seq<(Seq<char>, u64)> {
    let r = rank_by_count(t);
    if r.len() <= TOP_CELLS {
        r
    } else {
        r.subrange(0, TOP_CELLS as int)
    }
}

pub open spec fn cache_hit_total(c: Seq<CachedQueryResult>) -> int
    decreases c.len(),
{
    if c.len() == 0 {
        0
    } else {
        cache_hit_total(c.drop_last()) + c.last().hit_count
    }
}

pub proof fn lemma_rank_len(s: Seq<(Seq<char>, u64)>)
    ensures
        rank_by_count(s).len() == s.len(),
    decreases s.len(),
{
    if s.len() > 0 {
        lemma_rank_len(s.drop_last());
        lemma_count_split_facts(rank_by_count(s.drop_last()), s.last().1);
    }
}

pub proof fn lemma_count_split_facts(s: Seq<(Seq<char>, u64)>, c: u64)
    ensures
        0 <= count_split(s, c) <= s.len(),
        forall|j: int| count_split(s, c) <= j < s.len() ==> (#[trigger] s[j]).1 < c,
        count_split(s, c) > 0 ==> s[count_split(s, c) - 1].1 >= c,
    decreases s.len(),
{
    if s.len() > 0 {
        lemma_count_split_facts(s.drop_last(), c);
        if s.last().1 < c {
            assert forall|j: int| count_split(s, c) <= j < s.len() implies (#[trigger] s[j]).1 < c by {
                if j < s.len() - 1 {
                    assert(s.drop_last()[j] == s[j]);
                }
            }
            if count_split(s, c) > 0 {
                assert(s.drop_last()[count_split(s, c) - 1] == s[count_split(s, c) - 1]);
            }
        }
    }
}

/// The ranking lists counts from the largest down.
pub proof fn lemma_rank_descending(s: Seq<(Seq<char>, u64)>)
    ensures
        rank_by_count(s).len() == s.len(),
        forall|i: int, j: int|
            0 <= i < j < rank_by_count(s).len() ==> rank_by_count(s)[i].1 >= rank_by_count(s)[j].1,
    decreases s.len(),
{
    lemma_rank_len(s);
    if s.len() > 0 {
        let x = s.last();
        lemma_rank_descending(s.drop_last());
        let q = rank_by_count(s.drop_last());
        let k = count_split(q, x.1);
        lemma_count_split_facts(q, x.1);
        let r = rank_by_count(s);
        assert(r == q.subrange(0, k) + seq![x] + q.subrange(k, q.len() as int));
        assert forall|j: int| 0 <= j < r.len() implies #[trigger] r[j] == if j < k {
            q[j]
        } else if j == k {
            x
        } else {
            q[j - 1]
        } by {}
        assert forall|i: int, j: int| 0 <= i < j < r.len() implies r[i].1 >= r[j].1 by {
            if j == k && i < k {
                assert(q[k - 1].1 >= x.1);
            } else if i == k {
                assert(q[j - 1].1 < x.1);
            }
        }
    }
}

/// Query statistics over a time window.
#[derive(Clone, Debug, PartialEq, Eq)]
pub struct QueryStats {
    pub total_queries: u64,
    pub successful_queries: u64,
    pub failed_queries: u64,
    pub average_execution_time: u64,
    pub cache_hits: u128,
    pub cache_entries: u64,
    pub most_queried_cells: Vec<(PrincipalId, u64)>,
}

/// Counts one more query of `id` in `tally`.
fn tally_add_exec(tally: &mut Vec<(PrincipalId, u64)>, id: &PrincipalId)
    ensures
        tally_view(final(tally)@) == tally_add(tally_view(old(tally)@), id@),
{
    let ghost t = tally_view(tally@);
    let mut i: usize = tally.len();
    assert(t.subrange(0, i as int) =~= t);
    while i > 0
        invariant
            i <= tally@.len(),
            tally == old(tally),
            t == tally_view(tally@),
            tally_index(t, id@) == tally_index(t.subrange(0, i as int), id@),
        decreases i,
    {
        assert(t.subrange(0, i as int).drop_last() =~= t.subrange(0, i - 1));
        if tally[i - 1].0.same_as(id) {
            let count = tally[i - 1].1;
            let next = if count < u64::MAX {
                count + 1
            } else {
                u64::MAX
            };
            tally.set(i - 1, (id.duplicate(), next));
            assert(tally_view(tally@) =~= tally_add(t, id@));
            return;
        }
        i -= 1;
    }
    tally.push((id.duplicate(), 1));
    assert(tally_view(tally@) =~= tally_add(t, id@));
}

/// Orders tally entries by descending count, keeping the order of equal counts.
fn rank_cells(tally: Vec<(PrincipalId, u64)>) -> (r: Vec<(PrincipalId, u64)>)
    ensures
        tally_view(r@) == rank_by_count(tally_view(tally@)),
{
    let ghost all = tally_view(tally@);
    let mut rest = tally;
    let mut out: Vec<(PrincipalId, u64)> = Vec::new();
    let ghost mut taken: int = 0;
    while rest.len() > 0
        invariant
            0 <= taken <= all.len(),
            tally_view(rest@) == all.subrange(taken, all.len() as int),
            tally_view(out@) == rank_by_count(all.subrange(0, taken)),
        decreases rest@.len(),
    {
        assert(tally_view(rest@).len() == rest@.len());
        assert(tally_view(rest@)[0] == all.subrange(taken, all.len() as int)[0]);
        let ghost before = tally_view(rest@);
        let x = rest.remove(0);
        assert(tally_view(rest@) =~= before.subrange(1, before.len() as int));
        let ghost q = tally_view(out@);
        let mut k: usize = out.len();
        assert(q.subrange(0, k as int) =~= q);
        while k > 0 && out[k - 1].1 < x.1
            invariant
                tally_view(out@) == q,
                k <= q.len(),
                count_split(q, x.1) == count_split(q.subrange(0, k as int), x.1),
            decreases k,
        {
            assert(q.subrange(0, k as int).drop_last() =~= q.subrange(0, k - 1));
            k -= 1;
        }
        proof {
            if k > 0 {
                assert(q.subrange(0, k as int).last() == q[k - 1]);
            }
        }
        let ghost xv = (x.0@, x.1);
        out.insert(k, x);
        proof {
            let next = all.subrange(0, taken + 1);
            assert(next.drop_last() =~= all.subrange(0, taken));
            assert(next.last() == xv);
            assert(tally_view(out@) =~= q.subrange(0, k as int) + seq![xv] + q.subrange(k as int, q.len() as int));
            taken = taken + 1;
            assert(tally_view(rest@) =~= all.subrange(taken, all.len() as int));
        }
    }
    assert(all.subrange(0, taken) =~= all);
    out
}

/// Strategy selection depends on nothing but the cell count, the latency and
/// the complexity: equal inputs give equal strategies, for streamed and for
/// batch queries alike.
pub proof fn lemma_strategy_is_a_function(
    count1: int,
    latency1: int,
    complexity1: crate::coordination::ComplexityLevel,
    count2: int,
    latency2: int,
    complexity2: crate::coordination::ComplexityLevel,
)
    requires
        count1 == count2,
        latency1 == latency2,
        complexity1 == complexity2,
    ensures
        coordination_strategy_for(count1, latency1) == coordination_strategy_for(count2, latency2),
        crate::coordination::execution_strategy_for(count1, complexity1)
            == crate::coordination::execution_strategy_for(count2, complexity2),
{
}

/// Whether the cycles of the cells' statistics sum to at most `u64::MAX`.
pub fn cycles_total_fits(stats: &Vec<(PrincipalId, CellExecutionStats)>) -> (r: bool)
    ensures
        r == (cycles_total(stats@) <= u64::MAX),
{
    let mut total: u64 = 0;
    let mut i: usize = 0;
    while i < stats.len()
        invariant
            i <= stats@.len(),
            total as int == cycles_total(stats@.subrange(0, i as int)),
        decreases stats@.len() - i,
    {
        assert(stats@.subrange(0, i + 1).drop_last() =~= stats@.subrange(0, i as int));
        if stats[i].1.cycles_consumed > u64::MAX - total {
            proof {
                lemma_cycles_total_prefix(stats@, i + 1);
            }
            return false;
        }
        total = total + stats[i].1.cycles_consumed;
        i += 1;
    }
    assert(stats@.subrange(0, i as int) =~= stats@);
    true
}

/// The cache rebuilt from `entries`, each stored in turn.
pub open spec fn cache_restored(entries: Seq<CachedQueryResult>, max: u64) -> Seq<CachedQueryResult>
    decreases entries.len(),
{
    if entries.len() == 0 {
        seq![]
    } else {
        cache_after_put(cache_restored(entries.drop_last(), max), entries.last(), max)
    }
}

/// What the optimizer hands over across an upgrade.
pub struct OptimizerSnapshot {
    pub config: OptimizationConfig,
    pub cache: Vec<CachedQueryResult>,
    pub history: Vec<QueryExecutionRecord>,
}

/// Query planning, the result cache and the execution history.
pub struct QueryOptimizer {
    config: OptimizationConfig,
    cache: Vec<CachedQueryResult>,
    history: Vec<QueryExecutionRecord>,
}

impl QueryOptimizer {
    /// Fixed cost weight of an operation kind.
    pub fn estimate_operation_cost(operation: &QueryOperation) -> (r: u32)
        ensures
            r == operation_cost(*operation),
    {
        match operation {
            QueryOperation::Filter(_) => 1,
            QueryOperation::Sort(_) => 3,
            QueryOperation::Join(_) => 5,
            QueryOperation::Aggregate(_) => 4,
            QueryOperation::Limit(_) => 1,
        }
    }

    /// Orders operations by ascending cost, keeping the order of equal costs.
    pub fn optimize_operation_order(operations: Vec<QueryOperation>) -> (r: Vec<QueryOperation>)
        ensures
            r@ == cheapest_first(operations@),
    {
        let ghost all = operations@;
        let mut rest = operations;
        let mut cost1: Vec<QueryOperation> = Vec::new();
        let mut cost3: Vec<QueryOperation> = Vec::new();
        let mut cost4: Vec<QueryOperation> = Vec::new();
        let mut cost5: Vec<QueryOperation> = Vec::new();
        let ghost mut taken: int = 0;
        while rest.len() > 0
            invariant
                0 <= taken <= all.len(),
                rest@ == all.subrange(taken, all.len() as int),
                cost1@ == with_cost(all.subrange(0, taken), 1),
                cost3@ == with_cost(all.subrange(0, taken), 3),
                cost4@ == with_cost(all.subrange(0, taken), 4),
                cost5@ == with_cost(all.subrange(0, taken), 5),
            decreases rest@.len(),
        {
            let op = rest.remove(0);
            let ghost next = all.subrange(0, taken + 1);
            assert(next.drop_last() =~= all.subrange(0, taken));
            assert(next.last() == op);
            let c = Self::estimate_operation_cost(&op);
            if c == 1 {
                cost1.push(op);
            } else if c == 3 {
                cost3.push(op);
            } else if c == 4 {
                cost4.push(op);
            } else {
                cost5.push(op);
            }
            proof {
                taken = taken + 1;
                assert(rest@ =~= all.subrange(taken, all.len() as int));
            }
        }
        assert(all.subrange(0, taken) =~= all);
        cost1.append(&mut cost3);
        cost1.append(&mut cost4);
        cost1.append(&mut cost5);
        cost1
    }

    /// The strategy for a streamed query, from its cell count and mean latency.
    pub fn optimize_coordination_strategy(cell_count: usize, average_latency: u64) -> (r:
        CoordinationStrategy)
        ensures
            r == coordination_strategy_for(cell_count as int, average_latency as int),
    {
        if cell_count == 1 {
            CoordinationStrategy::Sequential
        } else if 2 <= cell_count && cell_count <= 3 {
            if average_latency < 200 {
                CoordinationStrategy::Parallel
            } else {
                CoordinationStrategy::Sequential
            }
        } else if 4 <= cell_count && cell_count <= 8 {
            if average_latency < 150 {
                CoordinationStrategy::AdaptiveParallel
            } else {
                CoordinationStrategy::PipelinedStreaming
            }
        } else {
            CoordinationStrategy::PipelinedStreaming
        }
    }

    /// Optimizes a plan: picks its strategy from its cell count and the mean
    /// latency that its cells declared, and orders its operations cheapest first.
    pub fn optimize_plan(query_plan: QueryPlan, registry: &Coordination) -> (r: QueryPlan)
        ensures
            r.id == query_plan.id,
            r.query_type == query_plan.query_type,
            r.target_cells == query_plan.target_cells,
            r.streaming_config == query_plan.streaming_config,
            r.operations@ == cheapest_first(query_plan.operations@),
            r.coordination_strategy == coordination_strategy_for(
                query_plan.target_cells@.len() as int,
                registry.mean_latency(query_plan.target_cells@),
            ),
    {
        let latency = registry.estimated_latency(&query_plan.target_cells);
        let strategy = Self::optimize_coordination_strategy(query_plan.target_cells.len(), latency);
        let QueryPlan { id, query_type, target_cells, operations, coordination_strategy: _, streaming_config } =
            query_plan;
        QueryPlan {
            id,
            query_type,
            target_cells,
            operations: Self::optimize_operation_order(operations),
            coordination_strategy: strategy,
            streaming_config,
        }
    }

    /// The signature of a plan: its type, its targets and its number of operations.
    pub fn generate_query_signature(query_plan: &QueryPlan) -> (r: QuerySignature)
        ensures
            r@ == (query_plan.query_type, ids_view(query_plan.target_cells@), query_plan.operations@.len() as u64),
    {
        QuerySignature {
            query_type: query_plan.query_type,
            target_cells: copy_ids(&query_plan.target_cells),
            operation_count: query_plan.operations.len() as u64,
        }
    }
}

impl QueryOptimizer {
    pub closed spec fn config(&self) -> OptimizationConfig {
        self.config
    }

    pub closed spec fn cache(&self) -> Seq<CachedQueryResult> {
        self.cache@
    }

    pub closed spec fn history(&self) -> Seq<QueryExecutionRecord> {
        self.history@
    }

    pub open spec fn wf(&self) -> bool {
        &&& signatures_distinct(self.cache())
        &&& self.cache().len() <= self.config().max_cache_entries
    }

    pub open spec fn caching(&self) -> bool {
        self.config().cache_enabled && self.config().max_cache_entries > 0
    }

    /// An optimizer with an empty cache and an empty history.
    pub fn init(config: OptimizationConfig) -> (r: QueryOptimizer)
        ensures
            r.wf(),
            r.config() == config,
            r.cache().len() == 0,
            r.history().len() == 0,
    {
        QueryOptimizer { config, cache: Vec::new(), history: Vec::new() }
    }

    fn find_cached(&self, signature: &QuerySignature) -> (r: Option<usize>)
        ensures
            match r {
                Some(i) => i as int == cache_index(self.cache(), signature@),
                None => cache_index(self.cache(), signature@) == -1,
            },
    {
        let mut i: usize = self.cache.len();
        assert(self.cache@.subrange(0, i as int) =~= self.cache@);
        while i > 0
            invariant
                i <= self.cache@.len(),
                cache_index(self.cache@, signature@) == cache_index(self.cache@.subrange(0, i as int), signature@),
            decreases i,
        {
            assert(self.cache@.subrange(0, i as int).drop_last() =~= self.cache@.subrange(0, i - 1));
            if self.cache[i - 1].query_signature.same_as(signature) {
                return Some(i - 1);
            }
            i -= 1;
        }
        None
    }

    /// Caches `payload` under `signature` until `now + ttl`, replacing an
    /// earlier entry for the same signature. When the cache is full, its
    /// oldest entry is evicted. Nothing is cached when caching is disabled or
    /// the cache may hold no entry at all.
    pub fn cache_put(
        &mut self,
        signature: QuerySignature,
        payload: Vec<Record>,
        ttl: u64,
        now: u64,
        cycles_saved: u64,
    )
        requires
            old(self).wf(),
        ensures
            final(self).wf(),
            final(self).config() == old(self).config(),
            final(self).history() == old(self).history(),
            !old(self).caching() ==> final(self).cache() == old(self).cache(),
            old(self).caching() ==> final(self).cache() == cache_after_put(
                old(self).cache(),
                new_entry(signature, payload, ttl, now, cycles_saved),
                old(self).config().max_cache_entries,
            ),
    {
        if !self.config.cache_enabled || self.config.max_cache_entries == 0 {
            return;
        }
        let ghost old_cache = self.cache@;
        let ghost expected = new_entry(signature, payload, ttl, now, cycles_saved);
        let entry = CachedQueryResult {
            query_signature: signature,
            result: payload,
            cached_at: now,
            expires_at: if ttl <= u64::MAX - now {
                now + ttl
            } else {
                u64::MAX
            },
            hit_count: 0,
            estimated_cycles_saved: cycles_saved,
        };
        assert(entry == expected);
        self.put_entry(entry);
    }

    /// Stores `entry` as `cache_after_put` describes.
    fn put_entry(&mut self, entry: CachedQueryResult)
        requires
            old(self).wf(),
            old(self).caching(),
        ensures
            final(self).wf(),
            final(self).config() == old(self).config(),
            final(self).history() == old(self).history(),
            final(self).cache() == cache_after_put(old(self).cache(), entry, old(self).config().max_cache_entries),
    {
        let ghost old_cache = self.cache@;
        let ghost expected = entry;
        proof {
            lemma_cache_index(old_cache, expected.query_signature@);
        }
        match self.find_cached(&entry.query_signature) {
            Some(i) => {
                self.cache.set(i, entry);
            },
            None => {
                if self.cache.len() as u64 >= self.config.max_cache_entries {
                    self.cache.remove(0);
                    assert(self.cache@ =~= old_cache.subrange(1, old_cache.len() as int));
                }
                self.cache.push(entry);
            },
        }
        proof {
            lemma_cache_after_put(old_cache, expected, self.config.max_cache_entries);
        }
    }

    /// The cached result for `signature`, if it has not expired at `now`.
    /// Each result served counts one hit on its entry (saturating).
    pub fn cache_get(&mut self, signature: &QuerySignature, now: u64) -> (r: Option<Vec<Record>>)
        requires
            old(self).wf(),
        ensures
            final(self).wf(),
            final(self).config() == old(self).config(),
            final(self).history() == old(self).history(),
            ({
                let i = cache_index(old(self).cache(), signature@);
                &&& r is Some <==> cache_lookup(old(self).cache(), signature@, now) is Some
                &&& r is Some <==> i >= 0 && now < old(self).cache()[i].expires_at
                &&& r is None ==> final(self).cache() == old(self).cache()
                &&& r matches Some(v) ==> {
                    &&& cache_lookup(old(self).cache(), signature@, now) == Some(v@)
                    &&& v@ == old(self).cache()[i].result@
                    &&& final(self).cache().len() == old(self).cache().len()
                    &&& forall|j: int|
                        0 <= j < old(self).cache().len() && j != i ==> #[trigger] final(self).cache()[j]
                            == old(self).cache()[j]
                    &&& final(self).cache()[i].query_signature == old(self).cache()[i].query_signature
                    &&& final(self).cache()[i].result == old(self).cache()[i].result
                    &&& final(self).cache()[i].cached_at == old(self).cache()[i].cached_at
                    &&& final(self).cache()[i].expires_at == old(self).cache()[i].expires_at
                    &&& final(self).cache()[i].estimated_cycles_saved == old(self).cache()[i].estimated_cycles_saved
                    &&& final(self).cache()[i].hit_count as int == if old(self).cache()[i].hit_count
                        < u64::MAX {
                        old(self).cache()[i].hit_count + 1
                    } else {
                        u64::MAX as int
                    }
                }
            }),
    {
        proof {
            lemma_cache_index(self.cache@, signature@);
        }
        match self.find_cached(signature) {
            None => None,
            Some(i) => {
                if now >= self.cache[i].expires_at {
                    return None;
                }
                let ghost old_cache = self.cache@;
                let mut entry = self.cache.remove(i);
                if entry.hit_count < u64::MAX {
                    entry.hit_count = entry.hit_count + 1;
                }
                let mut served: Vec<Record> = Vec::new();
                append_records(&mut served, &entry.result);
                self.cache.insert(i, entry);
                proof {
                    let c = self.cache@;
                    assert forall|j: int| 0 <= j < old_cache.len() && j != i implies #[trigger] c[j]
                        == old_cache[j] by {}
                    assert(c[i as int].query_signature@ == old_cache[i as int].query_signature@);
                    assert forall|a: int, b: int|
                        0 <= a < c.len() && 0 <= b < c.len() && a != b implies c[a].query_signature@
                            != c[b].query_signature@ by {
                        assert(c[a].query_signature@ == old_cache[a].query_signature@);
                        assert(c[b].query_signature@ == old_cache[b].query_signature@);
                    }
                }
                Some(served)
            },
        }
    }

    /// Appends a record to the execution history.
    pub fn record_execution(&mut self, record: QueryExecutionRecord)
        ensures
            final(self).history() == old(self).history().push(record),
            final(self).cache() == old(self).cache(),
            final(self).config() == old(self).config(),
    {
        self.history.push(record);
    }

    /// Aggregates coordinated results: the records are deduplicated and
    /// ordered newest first, the cells' statistics are kept, and the mean
    /// response time becomes the execution time. The execution is appended
    /// to the history under the query's signature, as a success at `now`.
    pub fn aggregate_results(
        &mut self,
        results: CoordinatedResults,
        query_id: String,
        signature: QuerySignature,
        now: u64,
    ) -> (r:
        BatchQueryResult)
        requires
            cycles_total(results.cell_stats@) <= u64::MAX,
        ensures
            r.query_id == query_id,
            r.records@ == aggregated(results.records@),
            r.total_count == results.total_count,
            r.cell_statistics == results.cell_stats,
            r.execution_time_ms as int == mean_response_time(results.cell_stats@),
            final(self).cache() == old(self).cache(),
            final(self).config() == old(self).config(),
            final(self).history().len() == old(self).history().len() + 1,
            final(self).history().drop_last() == old(self).history(),
            final(self).history().last().query_signature == signature,
            final(self).history().last().execution_time_ms == r.execution_time_ms,
            final(self).history().last().cycles_consumed as int == cycles_total(results.cell_stats@),
            ids_view(final(self).history().last().cells_involved@) == ids_view(
                results.cell_stats@.map_values(|s: (PrincipalId, CellExecutionStats)| s.0),
            ),
            final(self).history().last().success,
            final(self).history().last().timestamp == now,
    {
        let unique = deduplicate_results(&results.records);
        let records = apply_global_sorting(unique);
        let stats = &results.cell_stats;
        let mut time_total: u128 = 0;
        let mut cycles: u64 = 0;
        let mut cells: Vec<PrincipalId> = Vec::new();
        let mut i: usize = 0;
        while i < stats.len()
            invariant
                i <= stats@.len(),
                cycles_total(stats@) <= u64::MAX,
                time_total as int == response_time_total(stats@.subrange(0, i as int)),
                time_total <= i * (u64::MAX as int),
                cycles as int == cycles_total(stats@.subrange(0, i as int)),
                cells@.len() == i,
                forall|j: int| 0 <= j < i ==> (#[trigger] cells@[j])@ == stats@[j].0@,
            decreases stats@.len() - i,
        {
            assert(stats@.subrange(0, i + 1).drop_last() =~= stats@.subrange(0, i as int));
            proof {
                lemma_cycles_total_prefix(stats@, i + 1);
            }
            time_total = time_total + stats[i].1.response_time_ms as u128;
            cycles = cycles + stats[i].1.cycles_consumed;
            cells.push(stats[i].0.duplicate());
            i += 1;
        }
        assert(stats@.subrange(0, i as int) =~= stats@);
        let mean: u64 = if stats.len() == 0 {
            0
        } else {
            proof {
                assert((time_total as int) / (stats@.len() as int) <= u64::MAX) by (nonlinear_arith)
                    requires
                        time_total <= stats@.len() * (u64::MAX as int),
                        stats@.len() > 0,
                ;
            }
            (time_total / stats.len() as u128) as u64
        };
        assert(ids_view(cells@) =~= ids_view(
            stats@.map_values(|s: (PrincipalId, CellExecutionStats)| s.0),
        ));
        self.history.push(
            QueryExecutionRecord {
                query_signature: signature,
                execution_time_ms: mean,
                cycles_consumed: cycles,
                cells_involved: cells,
                success: true,
                timestamp: now,
            },
        );
        assert(self.history@.drop_last() =~= old(self).history@);
        BatchQueryResult {
            query_id,
            execution_time_ms: mean,
            records,
            total_count: results.total_count,
            cell_statistics: results.cell_stats,
        }
    }
    /// Mean execution time over the whole history.
    pub fn get_average_latency(&self) -> (r: u64)
        ensures
            r as int == mean_execution_time(self.history()),
    {
        let h = &self.history;
        let mut total: u128 = 0;
        let mut i: usize = 0;
        while i < h.len()
            invariant
                i <= h@.len(),
                total as int == execution_time_total(h@.subrange(0, i as int)),
                total <= i * (u64::MAX as int),
            decreases h@.len() - i,
        {
            assert(h@.subrange(0, i + 1).drop_last() =~= h@.subrange(0, i as int));
            total = total + h[i].execution_time_ms as u128;
            i += 1;
        }
        assert(h@.subrange(0, i as int) =~= h@);
        if h.len() == 0 {
            0
        } else {
            proof {
                assert((total as int) / (h@.len() as int) <= u64::MAX) by (nonlinear_arith)
                    requires
                        total <= h@.len() * (u64::MAX as int),
                        h@.len() > 0,
                ;
            }
            (total / h.len() as u128) as u64
        }
    }

    /// Sum of the hits of the cached entries.
    pub fn get_cache_hits(&self) -> (r: u128)
        ensures
            r as int == cache_hit_total(self.cache()),
    {
        let c = &self.cache;
        let mut total: u128 = 0;
        let mut i: usize = 0;
        while i < c.len()
            invariant
                i <= c@.len(),
                total as int == cache_hit_total(c@.subrange(0, i as int)),
                total <= i * (u64::MAX as int),
            decreases c@.len() - i,
        {
            assert(c@.subrange(0, i + 1).drop_last() =~= c@.subrange(0, i as int));
            total = total + c[i].hit_count as u128;
            i += 1;
        }
        assert(c@.subrange(0, i as int) =~= c@);
        total
    }

    /// Number of cached entries.
    pub fn get_cache_entry_count(&self) -> (r: u64)
        ensures
            r as int == self.cache().len(),
    {
        self.cache.len() as u64
    }

    /// Statistics of the queries recorded from `now - time_window` on: their
    /// number, successes and failures, mean execution time, the cache's hits,
    /// and the ten cells most often involved (ties in order of first
    /// appearance).
    pub fn get_execution_stats(&self, time_window: u64, now: u64) -> (r: QueryStats)
        requires
            self.wf(),
        ensures
            ({
                let w = in_window(self.history(), window_start(now, time_window));
                &&& r.total_queries as int == w.len()
                &&& r.successful_queries as int == success_count(w)
                &&& r.failed_queries as int == w.len() - success_count(w)
                &&& r.average_execution_time as int == mean_execution_time(w)
                &&& tally_view(r.most_queried_cells@) == top_cells(cell_tally(w))
            }),
            r.most_queried_cells@.len() <= TOP_CELLS,
            forall|i: int, j: int|
                0 <= i < j < r.most_queried_cells@.len() ==> r.most_queried_cells@[i].1
                    >= r.most_queried_cells@[j].1,
            r.cache_hits as int == cache_hit_total(self.cache()),
            r.cache_entries as int == self.cache().len(),
    {
        let start: u64 = if now >= time_window {
            now - time_window
        } else {
            0
        };
        let h = &self.history;
        let ghost hs = h@;
        let mut total: u64 = 0;
        let mut successes: u64 = 0;
        let mut time_total: u128 = 0;
        let mut tally: Vec<(PrincipalId, u64)> = Vec::new();
        let mut i: usize = 0;
        while i < h.len()
            invariant
                hs == h@,
                i <= hs.len(),
                total as int == in_window(hs.subrange(0, i as int), start).len(),
                successes as int == success_count(in_window(hs.subrange(0, i as int), start)),
                time_total as int == execution_time_total(in_window(hs.subrange(0, i as int), start)),
                successes <= total <= i,
                time_total <= total * (u64::MAX as int),
                tally_view(tally@) == cell_tally(in_window(hs.subrange(0, i as int), start)),
            decreases hs.len() - i,
        {
            let ghost pre = hs.subrange(0, i as int);
            assert(hs.subrange(0, i + 1).drop_last() =~= pre);
            assert(hs.subrange(0, i + 1).last() == hs[i as int]);
            let rec = &h[i];
            if rec.timestamp >= start {
                let ghost w = in_window(pre, start);
                let ghost t0 = tally_view(tally@);
                let ghost w2 = w.push(*rec);
                assert(w2.drop_last() =~= w);
                total = total + 1;
                if rec.success {
                    successes = successes + 1;
                }
                time_total = time_total + rec.execution_time_ms as u128;
                let cells = &rec.cells_involved;
                let mut j: usize = 0;
                assert(cells@.subrange(0, 0) =~= Seq::<PrincipalId>::empty());
                while j < cells.len()
                    invariant
                        j <= cells@.len(),
                        tally_view(tally@) == tally_cells(t0, cells@.subrange(0, j as int)),
                    decreases cells@.len() - j,
                {
                    assert(cells@.subrange(0, j + 1).drop_last() =~= cells@.subrange(0, j as int));
                    tally_add_exec(&mut tally, &cells[j]);
                    j += 1;
                }
                assert(cells@.subrange(0, j as int) =~= cells@);
            }
            i += 1;
        }
        assert(hs.subrange(0, i as int) =~= hs);
        let mean: u64 = if total == 0 {
            0
        } else {
            proof {
                assert((time_total as int) / (total as int) <= u64::MAX) by (nonlinear_arith)
                    requires
                        time_total <= total * (u64::MAX as int),
                        total > 0,
                ;
            }
            (time_total / total as u128) as u64
        };
        let mut ranked = rank_cells(tally);
        proof {
            lemma_rank_len(tally_view(tally@));
            lemma_rank_descending(tally_view(tally@));
        }
        ranked.truncate(TOP_CELLS);
        assert(tally_view(ranked@) =~= top_cells(cell_tally(in_window(hs, start))));
        assert forall|i: int, j: int| 0 <= i < j < ranked@.len() implies ranked@[i].1 >= ranked@[j].1 by {
            assert(tally_view(ranked@)[i].1 == ranked@[i].1);
            assert(tally_view(ranked@)[j].1 == ranked@[j].1);
        }
        QueryStats {
            total_queries: total,
            successful_queries: successes,
            failed_queries: total - successes,
            average_execution_time: mean,
            cache_hits: self.get_cache_hits(),
            cache_entries: self.get_cache_entry_count(),
            most_queried_cells: ranked,
        }
    }
    /// Hands the cache and the history over before an upgrade.
    pub fn pre_upgrade(self) -> (r: OptimizerSnapshot)
        ensures
            r.config == self.config(),
            r.cache@ == self.cache(),
            r.history@ == self.history(),
    {
        OptimizerSnapshot { config: self.config, cache: self.cache, history: self.history }
    }

    /// Rebuilds the optimizer after an upgrade: the history as it was, and
    /// the cache by storing its entries again in order (an entry of a cache
    /// that held distinct signatures within its bound comes back as it was).
    pub fn post_upgrade(snapshot: OptimizerSnapshot) -> (r: QueryOptimizer)
        ensures
            r.wf(),
            r.config() == snapshot.config,
            r.history() == snapshot.history@,
            r.cache() == if r.caching() {
                cache_restored(snapshot.cache@, snapshot.config.max_cache_entries)
            } else {
                Seq::<CachedQueryResult>::empty()
            },
    {
        let OptimizerSnapshot { config, cache, history } = snapshot;
        let mut r = QueryOptimizer { config, cache: Vec::new(), history };
        if !config.cache_enabled || config.max_cache_entries == 0 {
            return r;
        }
        let ghost all = cache@;
        let mut rest = cache;
        let ghost mut taken: int = 0;
        assert(all.subrange(0, 0) =~= Seq::<CachedQueryResult>::empty());
        while rest.len() > 0
            invariant
                r.wf(),
                r.caching(),
                r.config() == config,
                r.history() == snapshot.history@,
                0 <= taken <= all.len(),
                rest@ == all.subrange(taken, all.len() as int),
                r.cache() == cache_restored(all.subrange(0, taken), config.max_cache_entries),
            decreases rest@.len(),
        {
            let entry = rest.remove(0);
            proof {
                let next = all.subrange(0, taken + 1);
                assert(next.drop_last() =~= all.subrange(0, taken));
                assert(next.last() == entry);
            }
            r.put_entry(entry);
            proof {
                taken = taken + 1;
                assert(rest@ =~= all.subrange(taken, all.len() as int));
            }
        }
        assert(all.subrange(0, taken) =~= all);
        r
    }
    /// Consults the cache for the plan's signature without serving from it:
    /// when an unexpired entry exists, the cycles that it is estimated to
    /// save. Execution does not use the cached result.
    pub fn apply_caching_strategy(&self, query_plan: &QueryPlan, now: u64) -> (r: Option<u64>)
        ensures
            ({
                let sig = (query_plan.query_type, ids_view(query_plan.target_cells@), query_plan.operations@.len() as u64);
                &&& r is Some <==> cache_lookup(self.cache(), sig, now) is Some
                &&& r matches Some(c) ==> c == self.cache()[cache_index(self.cache(), sig)].estimated_cycles_saved
            }),
    {
        let signature = Self::generate_query_signature(query_plan);
        proof {
            lemma_cache_index(self.cache@, signature@);
        }
        match self.find_cached(&signature) {
            Some(i) => {
                if now < self.cache[i].expires_at {
                    Some(self.cache[i].estimated_cycles_saved)
                } else {
                    None
                }
            },
            None => None,
        }
    }
    /// The optimizer's configuration.
    pub fn get_config(&self) -> (r: OptimizationConfig)
        ensures
            r == self.config(),
    {
        self.config
    }
    /// The cache signature of a batch query: a single-cell or cross-cell
    /// query over its targets, with no operations.
    pub fn batch_query_signature(query: &crate::types::BatchQuery) -> (r: QuerySignature)
        ensures
            r@ == (
                if query.target_cells@.len() == 1 {
                    QueryType::SingleCell
                } else {
                    QueryType::CrossCell
                },
                ids_view(query.target_cells@),
                0u64,
            ),
    {
        QuerySignature {
            query_type: if query.target_cells.len() == 1 {
                QueryType::SingleCell
            } else {
                QueryType::CrossCell
            },
            target_cells: copy_ids(&query.target_cells),
            operation_count: 0,
        }
    }
    /// The most recent execution recorded under `signature`.
    pub fn get_historical_performance(&self, signature: &QuerySignature) -> (r: Option<&QueryExecutionRecord>)
        ensures
            match r {
                Some(rec) => exists|i: int|
                    0 <= i < self.history().len() && self.history()[i] == *rec && rec.query_signature@
                        == signature@ && forall|j: int|
                        i < j < self.history().len() ==> (#[trigger] self.history()[j]).query_signature@
                            != signature@,
                None => forall|j: int|
                    0 <= j < self.history().len() ==> (#[trigger] self.history()[j]).query_signature@
                        != signature@,
            },
    {
        let mut i: usize = self.history.len();
        while i > 0
            invariant
                i <= self.history@.len(),
                forall|j: int|
                    i <= j < self.history@.len() ==> (#[trigger] self.history@[j]).query_signature@ != signature@,
            decreases i,
        {
            if self.history[i - 1].query_signature.same_as(signature) {
                let ghost k = i - 1;
                assert(self.history()[k] == self.history@[k]);
                return Some(&self.history[i - 1]);
            }
            i -= 1;
        }
        None
    }
}

} // verus!
