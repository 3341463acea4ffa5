//! Plain data shared by the coordinator's components.
use vstd::prelude::*;

verus! {

/// Identity of a principal (a data cell or a caller), held as its canonical
/// text form.
#[derive(Clone, Debug, PartialEq, Eq)]
pub struct PrincipalId {
    pub text: String,
}

impl View for PrincipalId {
    type V = Seq<char>;

    open spec fn view(&self) -> Seq<char> {
        self.text@
    }
}

impl PrincipalId {
    pub fn new(text: String) -> (r: PrincipalId)
        ensures
            r@ == text@,
    {
        PrincipalId { text }
    }

    /// Whether two identities are the same.
    pub fn same_as(&self, other: &PrincipalId) -> (r: bool)
        ensures
            r == (self@ == other@),
    {
        self.text == other.text
    }

    /// An identical copy.
    pub fn duplicate(&self) -> (r: PrincipalId)
        ensures
            r == *self,
    {
        PrincipalId { text: self.text.clone() }
    }
}

/// A record returned by a cell. `content` is the record's canonical encoding,
/// which also serves as its fingerprint; `timestamp` is the value of its
/// `timestamp` field, or 0 when it has none.
#[derive(Clone, Debug, PartialEq, Eq)]
pub struct Record {
    pub content: String,
    pub timestamp: u64,
}

impl View for Record {
    type V = (Seq<char>, u64);

    open spec fn view(&self) -> (Seq<char>, u64) {
        (self.content@, self.timestamp)
    }
}

impl Record {
    pub fn new(content: String, timestamp: u64) -> (r: Record)
        ensures
            r.content == content,
            r.timestamp == timestamp,
    {
        Record { content, timestamp }
    }

    /// Whether two records have the same fingerprint and timestamp.
    pub fn same_as(&self, other: &Record) -> (r: bool)
        ensures
            r == (self@ == other@),
    {
        self.timestamp == other.timestamp && self.content == other.content
    }

    /// An identical copy.
    pub fn duplicate(&self) -> (r: Record)
        ensures
            r == *self,
    {
        Record { content: self.content.clone(), timestamp: self.timestamp }
    }
}

/// Appends copies of `src`'s records to `dst`, in order.
pub fn append_records(dst: &mut Vec<Record>, src: &Vec<Record>)
    ensures
        final(dst)@ == old(dst)@ + src@,
{
    let mut i: usize = 0;
    while i < src.len()
        invariant
            i <= src@.len(),
            dst@ == old(dst)@ + src@.subrange(0, i as int),
        decreases src@.len() - i,
    {
        dst.push(src[i].duplicate());
        i += 1;
        assert(src@.subrange(0, i as int) == src@.subrange(0, i - 1) + seq![src@[i - 1]]);
    }
    assert(src@.subrange(0, src@.len() as int) == src@);
}

/// Capabilities that a cell advertises when it is registered.
#[derive(Clone, Copy, Debug, PartialEq, Eq, Structural)]
pub enum CellCapability {
    FullTextSearch,
    GeospatialQueries,
    AdvancedIndexing,
    StreamingSupport,
    BatchOperations,
}

/// Performance profile that a cell declares at registration.
#[derive(Clone, Debug, PartialEq, Eq)]
pub struct PerformanceHints {
    pub typical_response_time_ms: u32,
    pub max_concurrent_queries: u32,
    pub preferred_batch_size: u32,
    pub subnet_location: Option<String>,
}

/// What the registry holds for one cell.
#[derive(Clone, Debug, PartialEq, Eq)]
pub struct CellRegistration {
    pub cell_id: PrincipalId,
    pub name: String,
    pub schema_version: u32,
    pub capabilities: Vec<CellCapability>,
    pub performance_hints: PerformanceHints,
}

/// Shape of a query, as the caller declares it.
#[derive(Clone, Copy, Debug, PartialEq, Eq, Structural)]
pub enum QueryType {
    SingleCell,
    CrossCell,
    Aggregation,
    Join,
    Search,
}

/// How the cells of a planned query are contacted.
#[derive(Clone, Copy, Debug, PartialEq, Eq, Structural)]
pub enum CoordinationStrategy {
    Sequential,
    Parallel,
    AdaptiveParallel,
    PipelinedStreaming,
}

/// Read consistency requested from the cells (advisory, not enforced).
#[derive(Clone, Copy, Debug, PartialEq, Eq, Structural)]
pub enum ConsistencyLevel {
    Strong,
    Eventual,
    Weak,
}

/// Format in which the caller wants results.
#[derive(Clone, Copy, Debug, PartialEq, Eq, Structural)]
pub enum ResultFormat {
    Json,
    Binary,
    Streaming,
}

#[derive(Clone, Debug, PartialEq, Eq)]
pub struct BatchQueryOptions {
    pub max_results: Option<u64>,
    pub timeout_ms: Option<u64>,
    pub consistency_level: ConsistencyLevel,
    pub result_format: ResultFormat,
}

/// A one-shot query over a set of cells. The query's parameters travel to
/// the cells with it and play no part in coordination.
#[derive(Clone, Debug, PartialEq, Eq)]
pub struct BatchQuery {
    pub query_sql: String,
    pub target_cells: Vec<PrincipalId>,
    pub options: BatchQueryOptions,
}

/// Statistics of one cell's part in a query.
#[derive(Clone, Copy, Debug, PartialEq, Eq, Structural)]
pub struct CellExecutionStats {
    pub response_time_ms: u64,
    pub records_returned: u64,
    pub cycles_consumed: u64,
    pub cache_hit: bool,
    pub succeeded: bool,
}

/// Result of a batch query.
#[derive(Clone, Debug, PartialEq, Eq)]
pub struct BatchQueryResult {
    pub query_id: String,
    pub execution_time_ms: u64,
    pub records: Vec<Record>,
    pub total_count: u64,
    pub cell_statistics: Vec<(PrincipalId, CellExecutionStats)>,
}

/// Handle of a live stream.
#[derive(Clone, Debug, PartialEq, Eq)]
pub struct StreamHandle {
    pub id: String,
    pub created_at: u64,
    pub expires_at: u64,
}

impl StreamHandle {
    /// An identical copy.
    pub fn duplicate(&self) -> (r: StreamHandle)
        ensures
            r == *self,
    {
        StreamHandle { id: self.id.clone(), created_at: self.created_at, expires_at: self.expires_at }
    }
}

/// One batch drawn from a stream.
#[derive(Clone, Debug, PartialEq, Eq)]
pub struct StreamBatch {
    pub stream_handle: StreamHandle,
    pub batch_number: u32,
    pub records: Vec<Record>,
    pub has_more: bool,
    pub estimated_remaining: Option<u64>,
}

/// Errors of the coordinator.
#[derive(Clone, Debug, PartialEq, Eq)]
pub enum QueryError {
    PermissionDenied(String),
    OptimizationFailed(String),
    ExecutionFailed(String),
    CoordinationFailed(String),
    AggregationFailed(String),
    StreamingFailed(String),
    RegistrationFailed(String),
    InvalidQuery(String),
    CellUnavailable(PrincipalId),
    TimeoutExceeded,
    ResourceExhausted,
}

} // verus!
