//! Cursor-based streams: buffered records drawn from the cells in batches.
use vstd::prelude::*;
use crate::optimization::{cheapest_first, coordination_strategy_for, QueryOptimizer, QueryPlan};
use crate::registry::Coordination;
use crate::types::{append_records, QueryError, Record, StreamBatch, StreamHandle};

verus! {

#[derive(Clone, Copy, Debug, PartialEq, Eq, Structural)]
pub struct StreamingConfig {
    pub default_batch_size: u32,
    pub max_concurrent_streams: u32,
    pub stream_timeout_seconds: u64,
    pub buffer_size: u32,
    pub prefetch_enabled: bool,
    /// Once this many records have been fetched for a stream, a refill that
    /// falls short completes it.
    pub max_stream_records: u64,
}

/// Lifetime of a stream: one hour, in nanoseconds.
pub const STREAM_TTL_NANOS: u64 = 3_600_000_000_000;

/// State of one live stream.
#[derive(Clone, Debug, PartialEq, Eq)]
pub struct StreamState {
    pub handle: StreamHandle,
    pub query_plan: QueryPlan,
    pub current_position: u64,
    pub buffer: Vec<Record>,
    pub is_complete: bool,
    pub error_state: Option<String>,
    pub records_fetched: u64,
    /// For each target cell, how many of its records were fetched.
    pub target_offsets: Vec<u64>,
    /// For each target cell, whether it returned fewer records than asked.
    pub exhausted_targets: Vec<bool>,
}

/// Expiry of a stream created at `now` (saturating).
pub open spec fn stream_expiry(now: u64) -> u64 {
    if now + STREAM_TTL_NANOS <= u64::MAX {
        (now + STREAM_TTL_NANOS) as u64
    } else {
        u64::MAX
    }
}

/// Position of the stream `id` in `streams`, or -1 when there is none.
pub open spec fn stream_index(streams: Seq<StreamState>, id: Seq<char>) -> int
    decreases streams.len(),
{
    if streams.len() == 0 {
        -1
    } else if streams.last().handle.id@ == id {
        streams.len() - 1
    } else {
        stream_index(streams.drop_last(), id)
    }
}

pub open spec fn stream_ids_distinct(streams: Seq<StreamState>) -> bool {
    forall|i: int, j: int|
        0 <= i < streams.len() && 0 <= j < streams.len() && i != j ==> streams[i].handle.id@
            != streams[j].handle.id@
}

pub proof fn lemma_stream_index(streams: Seq<StreamState>, id: Seq<char>)
    ensures
        -1 <= stream_index(streams, id) < streams.len(),
        stream_index(streams, id) >= 0 ==> streams[stream_index(streams, id)].handle.id@ == id,
        stream_index(streams, id) == -1 <==> forall|i: int|
            0 <= i < streams.len() ==> streams[i].handle.id@ != id,
    decreases streams.len(),
{
    if streams.len() > 0 {
        lemma_stream_index(streams.drop_last(), id);
        if streams.last().handle.id@ != id && stream_index(streams, id) == -1 {
            assert forall|i: int| 0 <= i < streams.len() implies streams[i].handle.id@ != id by {
                if i < streams.len() - 1 {
                    assert(streams.drop_last()[i] == streams[i]);
                }
            }
        }
    }
}

pub proof fn lemma_stream_index_at(streams: Seq<StreamState>, id: Seq<char>, k: int)
    requires
        stream_ids_distinct(streams),
        0 <= k < streams.len(),
        streams[k].handle.id@ == id,
    ensures
        stream_index(streams, id) == k,
{
    lemma_stream_index(streams, id);
}

/// How many records a refill asks for before a batch of `batch_size`: what
/// the buffer lacks, unless the stream is complete.
pub open spec fn refill_size(s: StreamState, batch_size: u32) -> int {
    if s.is_complete || s.buffer@.len() >= batch_size {
        0
    } else {
        batch_size - s.buffer@.len()
    }
}

/// One batch drawn from a stream: the buffer followed by the fetched records
/// is the batch followed by the new buffer, and the cursor advances by the
/// batch's length.
pub open spec fn batch_step(s0: StreamState, s1: StreamState, fetched: Seq<Record>, delivered: Seq<Record>) -> bool {
    &&& s0.buffer@ + fetched == delivered + s1.buffer@
    &&& s1.current_position == s0.current_position + delivered.len()
}

pub open spec fn flatten(b: Seq<Seq<Record>>) -> Seq<Record>
    decreases b.len(),
{
    if b.len() == 0 {
        seq![]
    } else {
        flatten(b.drop_last()) + b.last()
    }
}

/// Over any sequence of batches drawn from one stream, the cursor never
/// decreases, and the batches, followed by what is left in the buffer, are
/// the initial buffer followed by all the records fetched, in order: no
/// record is skipped or delivered twice.
pub proof fn lemma_stream_single_pass(
    states: Seq<StreamState>,
    fetched: Seq<Seq<Record>>,
    batches: Seq<Seq<Record>>,
)
    requires
        states.len() == batches.len() + 1,
        fetched.len() == batches.len(),
        forall|k: int|
            0 <= k < batches.len() ==> batch_step(states[k], #[trigger] states[k + 1], fetched[k], batches[k]),
    ensures
        forall|i: int, j: int| 0 <= i <= j < states.len() ==> states[i].current_position <= states[j].current_position,
        states[0].buffer@ + flatten(fetched) == flatten(batches) + states.last().buffer@,
        states.last().current_position == states[0].current_position + flatten(batches).len(),
    decreases batches.len(),
{
    if batches.len() > 0 {
        let n = batches.len() - 1;
        let s2 = states.drop_last();
        assert forall|k: int| 0 <= k < n implies batch_step(s2[k], #[trigger] s2[k + 1], fetched.drop_last()[k], batches.drop_last()[k]) by {
            assert(s2[k] == states[k] && s2[k + 1] == states[k + 1]);
        }
        lemma_stream_single_pass(s2, fetched.drop_last(), batches.drop_last());
        assert(batch_step(states[n], states[n + 1], fetched[n], batches[n]));
        assert(s2.last() == states[n]);
        assert(states[0].buffer@ + flatten(fetched) =~= (states[0].buffer@ + flatten(fetched.drop_last())) + fetched[n]);
        assert(flatten(batches) + states.last().buffer@ =~= flatten(batches.drop_last()) + (batches[n] + states.last().buffer@));
        assert forall|i: int, j: int| 0 <= i <= j < states.len() implies states[i].current_position
            <= states[j].current_position by {
            if j == states.len() - 1 && i < j {
                assert(s2[i] == states[i]);
                assert(states[i].current_position <= states[n].current_position);
            } else if j < states.len() - 1 {
                assert(s2[i] == states[i] && s2[j] == states[j]);
            }
        }
    }
}


/// Every target cell of the stream is at offset 0 and not exhausted.
pub open spec fn fresh_cursors(s: StreamState) -> bool {
    &&& s.target_offsets@.len() == s.query_plan.target_cells@.len()
    &&& s.exhausted_targets@.len() == s.query_plan.target_cells@.len()
    &&& forall|k: int|
        0 <= k < s.query_plan.target_cells@.len() ==> s.target_offsets@[k] == 0 && !#[trigger] s.exhausted_targets@[k]
}

/// Target `k` of the stream may still be asked for records.
pub open spec fn open_target(s: StreamState, k: int) -> bool {
    &&& 0 <= k < s.query_plan.target_cells@.len()
    &&& k < s.target_offsets@.len()
    &&& k < s.exhausted_targets@.len()
    &&& !s.exhausted_targets@[k]
}

/// Records fetched for a stream after `more` arrive (saturating).
pub open spec fn fetched_after(s: StreamState, more: int) -> u64 {
    if s.records_fetched + more <= u64::MAX {
        (s.records_fetched + more) as u64
    } else {
        u64::MAX
    }
}

/// Length of the batch of `batch_size` drawn when `fetched` records arrive.
pub open spec fn batch_len(s: StreamState, batch_size: u32, fetched: int) -> int {
    if s.buffer@.len() + fetched >= batch_size {
        batch_size as int
    } else {
        s.buffer@.len() + fetched
    }
}

/// What the stream engine hands over across an upgrade.
pub struct StreamingSnapshot {
    pub config: StreamingConfig,
    pub streams: Vec<StreamState>,
}

/// The live streams.
pub struct StreamingEngine {
    config: StreamingConfig,
    streams: Vec<StreamState>,
}

impl StreamingEngine {
    pub closed spec fn config(&self) -> StreamingConfig {
        self.config
    }

    pub closed spec fn streams(&self) -> Seq<StreamState> {
        self.streams@
    }

    pub open spec fn wf(&self) -> bool {
        stream_ids_distinct(self.streams())
    }

    /// The live stream `id`, when there is one.
    pub open spec fn live(&self, id: Seq<char>) -> bool {
        stream_index(self.streams(), id) >= 0
    }

    pub open spec fn stream(&self, id: Seq<char>) -> StreamState {
        self.streams()[stream_index(self.streams(), id)]
    }

    /// The stream `id` can be read at `now`: it exists and has not expired.
    pub open spec fn readable(&self, id: Seq<char>, now: u64) -> bool {
        self.live(id) && now <= self.stream(id).handle.expires_at
    }

    /// An engine with no stream.
    pub fn init(config: StreamingConfig) -> (r: StreamingEngine)
        ensures
            r.wf(),
            r.config() == config,
            r.streams().len() == 0,
    {
        StreamingEngine { config, streams: Vec::new() }
    }

    fn find_stream(&self, id: &String) -> (r: Option<usize>)
        ensures
            match r {
                Some(i) => i as int == stream_index(self.streams(), id@),
                None => stream_index(self.streams(), id@) == -1,
            },
    {
        let mut i: usize = self.streams.len();
        assert(self.streams@.subrange(0, i as int) =~= self.streams@);
        while i > 0
            invariant
                i <= self.streams@.len(),
                stream_index(self.streams@, id@) == stream_index(self.streams@.subrange(0, i as int), id@),
            decreases i,
        {
            assert(self.streams@.subrange(0, i as int).drop_last() =~= self.streams@.subrange(0, i - 1));
            if self.streams[i - 1].handle.id == *id {
                return Some(i - 1);
            }
            i -= 1;
        }
        None
    }

    /// Opens a stream for `query_plan` under the fresh identifier `stream_id`,
    /// expiring an hour after `now`, with an empty buffer at position 0. An
    /// identifier that a live stream already uses is refused.
    pub fn create_stream(&mut self, query_plan: QueryPlan, stream_id: String, now: u64) -> (r: Result<
        StreamHandle,
        QueryError,
    >)
        requires
            old(self).wf(),
        ensures
            final(self).wf(),
            final(self).config() == old(self).config(),
            r is Ok <==> !old(self).live(stream_id@),
            r is Err ==> (r matches Err(QueryError::StreamingFailed(_)) && final(self).streams() == old(
                self,
            ).streams()),
            r matches Ok(h) ==> {
                &&& h.id@ == stream_id@
                &&& h.created_at == now
                &&& h.expires_at == stream_expiry(now)
                &&& final(self).streams().drop_last() == old(self).streams()
                &&& final(self).streams().len() == old(self).streams().len() + 1
                &&& final(self).streams().last() == (StreamState {
                    handle: h,
                    query_plan,
                    current_position: 0,
                    buffer: final(self).streams().last().buffer,
                    is_complete: false,
                    error_state: None,
                    records_fetched: 0,
                    target_offsets: final(self).streams().last().target_offsets,
                    exhausted_targets: final(self).streams().last().exhausted_targets,
                })
                &&& final(self).streams().last().buffer@.len() == 0
                &&& fresh_cursors(final(self).streams().last())
            },
    {
        proof {
            lemma_stream_index(self.streams@, stream_id@);
        }
        if self.find_stream(&stream_id).is_some() {
            return Err(QueryError::StreamingFailed("a live stream already has this identifier".to_string()));
        }
        let expires_at = if now <= u64::MAX - STREAM_TTL_NANOS {
            now + STREAM_TTL_NANOS
        } else {
            u64::MAX
        };
        let handle = StreamHandle { id: stream_id, created_at: now, expires_at };
        let result = handle.duplicate();
        let n = query_plan.target_cells.len();
        let mut target_offsets: Vec<u64> = Vec::new();
        let mut exhausted_targets: Vec<bool> = Vec::new();
        let mut k: usize = 0;
        while k < n
            invariant
                k <= n,
                target_offsets@.len() == k,
                exhausted_targets@.len() == k,
                forall|j: int| 0 <= j < k ==> target_offsets@[j] == 0 && !exhausted_targets@[j],
            decreases n - k,
        {
            target_offsets.push(0);
            exhausted_targets.push(false);
            k += 1;
        }
        let state = StreamState {
            handle,
            query_plan,
            current_position: 0,
            buffer: Vec::new(),
            is_complete: false,
            error_state: None,
            records_fetched: 0,
            target_offsets,
            exhausted_targets,
        };
        let ghost old_streams = self.streams@;
        self.streams.push(state);
        proof {
            let c = self.streams@;
            assert forall|a: int, b: int|
                0 <= a < c.len() && 0 <= b < c.len() && a != b implies c[a].handle.id@ != c[b].handle.id@ by {
                if a < old_streams.len() && b < old_streams.len() {
                    assert(c[a] == old_streams[a] && c[b] == old_streams[b]);
                } else if a < old_streams.len() {
                    assert(c[a] == old_streams[a]);
                } else {
                    assert(c[b] == old_streams[b]);
                }
            }
            assert(c.drop_last() =~= old_streams);
        }
        Ok(result)
    }

    /// How many records to fetch from the cells before the next batch of
    /// `batch_size` can be drawn from the stream `handle`.
    pub fn refill_request(&self, handle: &StreamHandle, batch_size: u32, now: u64) -> (r: Result<u32, QueryError>)
        ensures
            r is Ok <==> self.readable(handle.id@, now),
            r is Err ==> r matches Err(QueryError::StreamingFailed(_)),
            r matches Ok(n) ==> n as int == refill_size(self.stream(handle.id@), batch_size),
    {
        proof {
            lemma_stream_index(self.streams@, handle.id@);
        }
        match self.find_stream(&handle.id) {
            None => Err(QueryError::StreamingFailed("stream not found or expired".to_string())),
            Some(i) => {
                let s = &self.streams[i];
                if now > s.handle.expires_at {
                    return Err(QueryError::StreamingFailed("stream not found or expired".to_string()));
                }
                if s.is_complete || s.buffer.len() >= batch_size as usize {
                    Ok(0)
                } else {
                    Ok(batch_size - s.buffer.len() as u32)
                }
            },
        }
    }

    /// Number of live streams (saturating at `u32::MAX`).
    pub fn get_active_stream_count(&self) -> (r: u32)
        ensures
            r as int == if self.streams().len() <= u32::MAX {
                self.streams().len() as int
            } else {
                u32::MAX as int
            },
    {
        if self.streams.len() <= u32::MAX as usize {
            self.streams.len() as u32
        } else {
            u32::MAX
        }
    }

    /// Closes the stream `handle`; closing an unknown stream does nothing.
    pub fn close_stream(&mut self, handle: &StreamHandle) -> (r: Result<(), QueryError>)
        requires
            old(self).wf(),
        ensures
            r is Ok,
            final(self).wf(),
            final(self).config() == old(self).config(),
            !final(self).live(handle.id@),
            old(self).live(handle.id@) ==> final(self).streams() == old(self).streams().remove(
                stream_index(old(self).streams(), handle.id@),
            ),
            !old(self).live(handle.id@) ==> final(self).streams() == old(self).streams(),
    {
        proof {
            lemma_stream_index(self.streams@, handle.id@);
        }
        match self.find_stream(&handle.id) {
            None => {},
            Some(i) => {
                let ghost old_streams = self.streams@;
                self.streams.remove(i);
                proof {
                    let c = self.streams@;
                    assert(forall|j: int| 0 <= j < c.len() ==> #[trigger] c[j] == old_streams[if j < i { j } else { j + 1 }]);
                    assert forall|a: int, b: int|
                        0 <= a < c.len() && 0 <= b < c.len() && a != b implies c[a].handle.id@ != c[b].handle.id@ by {
                        assert(c[a] == old_streams[if a < i { a } else { a + 1 }]);
                        assert(c[b] == old_streams[if b < i { b } else { b + 1 }]);
                    }
                    assert forall|j: int| 0 <= j < c.len() implies c[j].handle.id@ != handle.id@ by {
                        assert(c[j] == old_streams[if j < i { j } else { j + 1 }]);
                    }
                    lemma_stream_index(c, handle.id@);
                }
            },
        }
        Ok(())
    }
    /// Draws the next batch of at most `batch_size` records from the stream
    /// `handle`. `fetched` holds the records that the refill of
    /// `refill_request` brought from the cells (none when no refill was asked
    /// for); they join the buffer, and the batch is drained from its front. A
    /// refill that brings fewer records than asked for, or that reaches the
    /// record ceiling, completes the stream. A batch size of 0 is refused.
    pub fn get_next_batch(&mut self, handle: &StreamHandle, batch_size: u32, now: u64, fetched: Vec<Record>) -> (r:
        Result<StreamBatch, QueryError>)
        requires
            old(self).wf(),
        ensures
            final(self).wf(),
            final(self).config() == old(self).config(),
            r is Err ==> final(self).streams() == old(self).streams(),
            !old(self).readable(handle.id@, now) ==> r matches Err(QueryError::StreamingFailed(_)),
            old(self).readable(handle.id@, now) && batch_size == 0 ==> r matches Err(QueryError::InvalidQuery(_)),
            old(self).readable(handle.id@, now) && batch_size > 0 ==> ({
                let i = stream_index(old(self).streams(), handle.id@);
                let s0 = old(self).streams()[i];
                let n = batch_len(s0, batch_size, fetched@.len() as int);
                let asked = refill_size(s0, batch_size);
                &&& r is Err <==> s0.current_position + n > u64::MAX
                &&& r is Err ==> (r matches Err(QueryError::ResourceExhausted))
                &&& r matches Ok(b) ==> {
                    let s1 = final(self).streams()[i];
                    &&& final(self).streams() == old(self).streams().update(i, s1)
                    &&& batch_step(s0, s1, fetched@, b.records@)
                    &&& b.records@.len() == n
                    &&& s1.handle == s0.handle
                    &&& s1.query_plan == s0.query_plan
                    &&& s1.error_state == s0.error_state
                    &&& s1.target_offsets == s0.target_offsets
                    &&& s1.exhausted_targets == s0.exhausted_targets
                    &&& s1.records_fetched == fetched_after(s0, fetched@.len() as int)
                    &&& s1.is_complete == (s0.is_complete || (asked > 0 && (fetched@.len() < asked
                        || s1.records_fetched >= old(self).config().max_stream_records)))
                    &&& b.stream_handle == s0.handle
                    &&& b.has_more == (!s1.is_complete || s1.buffer@.len() > 0)
                    &&& b.batch_number == (s1.current_position / batch_size as u64) as u32
                    &&& b.estimated_remaining == if b.has_more {
                        Some(s1.buffer@.len() as u64)
                    } else {
                        None
                    }
                }
            }),
    {
        proof {
            lemma_stream_index(self.streams@, handle.id@);
        }
        let i = match self.find_stream(&handle.id) {
            None => {
                return Err(QueryError::StreamingFailed("stream not found or expired".to_string()));
            },
            Some(i) => i,
        };
        if now > self.streams[i].handle.expires_at {
            return Err(QueryError::StreamingFailed("stream not found or expired".to_string()));
        }
        if batch_size == 0 {
            return Err(QueryError::InvalidQuery("a batch holds at least one record".to_string()));
        }
        let wanted = batch_size as usize;
        let buffered = self.streams[i].buffer.len();
        let n: usize = if buffered >= wanted || fetched.len() >= wanted - buffered {
            wanted
        } else {
            buffered + fetched.len()
        };
        if n as u64 > u64::MAX - self.streams[i].current_position {
            return Err(QueryError::ResourceExhausted);
        }
        let asked: usize = if self.streams[i].is_complete || buffered >= wanted {
            0
        } else {
            wanted - buffered
        };
        let ghost old_streams = self.streams@;
        let ghost s0 = old_streams[i as int];
        let mut state = self.streams.remove(i);
        let fetched_len = fetched.len();
        let mut incoming = fetched;
        state.buffer.append(&mut incoming);
        state.records_fetched = if (fetched_len as u64) <= u64::MAX - state.records_fetched {
            state.records_fetched + fetched_len as u64
        } else {
            u64::MAX
        };
        if asked > 0 && (fetched_len < asked || state.records_fetched >= self.config.max_stream_records) {
            state.is_complete = true;
        }
        let ghost joined = state.buffer@;
        let mut batch = state.buffer.split_off(n);
        std::mem::swap(&mut batch, &mut state.buffer);
        assert(joined =~= batch@ + state.buffer@);
        state.current_position = state.current_position + n as u64;
        let has_more = !state.is_complete || state.buffer.len() > 0;
        let estimated_remaining = if has_more {
            Some(state.buffer.len() as u64)
        } else {
            None
        };
        let result = StreamBatch {
            stream_handle: state.handle.duplicate(),
            batch_number: (state.current_position / batch_size as u64) as u32,
            records: batch,
            has_more,
            estimated_remaining,
        };
        self.streams.insert(i, state);
        proof {
            let c = self.streams@;
            assert(c =~= old_streams.update(i as int, c[i as int]));
            assert forall|a: int, b: int|
                0 <= a < c.len() && 0 <= b < c.len() && a != b implies c[a].handle.id@ != c[b].handle.id@ by {
                assert(c[a].handle == old_streams[a].handle);
                assert(c[b].handle == old_streams[b].handle);
            }
        }
        Ok(result)
    }
    /// Stores `state`, replacing a stream with the same identifier.
    fn store_stream(&mut self, state: StreamState)
        requires
            old(self).wf(),
        ensures
            final(self).wf(),
            final(self).config() == old(self).config(),
            final(self).live(state.handle.id@),
            final(self).stream(state.handle.id@) == state,
            forall|x: Seq<char>|
                x != state.handle.id@ ==> (#[trigger] final(self).live(x) == old(self).live(x) && (final(self).live(x)
                    ==> final(self).stream(x) == old(self).stream(x))),
    {
        let ghost old_streams = self.streams@;
        let ghost id = state.handle.id@;
        proof {
            lemma_stream_index(old_streams, id);
        }
        let pos: usize;
        match self.find_stream(&state.handle.id) {
            Some(i) => {
                self.streams.set(i, state);
                pos = i;
            },
            None => {
                pos = self.streams.len();
                self.streams.push(state);
            },
        }
        proof {
            let c = self.streams@;
            assert forall|a: int, b: int|
                0 <= a < c.len() && 0 <= b < c.len() && a != b implies c[a].handle.id@ != c[b].handle.id@ by {
                if a != pos {
                    assert(c[a] == old_streams[a]);
                }
                if b != pos {
                    assert(c[b] == old_streams[b]);
                }
            }
            lemma_stream_index_at(c, id, pos as int);
            assert forall|x: Seq<char>| x != id implies #[trigger] self.live(x) == old(self).live(x) && (self.live(x)
                ==> self.stream(x) == old(self).stream(x)) by {
                lemma_stream_index(old_streams, x);
                lemma_stream_index(c, x);
                let k = stream_index(old_streams, x);
                if k >= 0 {
                    assert(c[k] == old_streams[k]);
                    lemma_stream_index_at(c, x, k);
                } else {
                    assert forall|j: int| 0 <= j < c.len() implies c[j].handle.id@ != x by {
                        if j != pos {
                            assert(c[j] == old_streams[j]);
                        }
                    }
                }
            }
        }
    }

    /// Hands the live streams over before an upgrade.
    pub fn pre_upgrade(self) -> (r: StreamingSnapshot)
        ensures
            r.config == self.config(),
            r.streams@ == self.streams(),
    {
        StreamingSnapshot { config: self.config, streams: self.streams }
    }

    /// Rebuilds the engine after an upgrade; of two streams with the same
    /// identifier, the later one stays.
    pub fn post_upgrade(snapshot: StreamingSnapshot) -> (r: StreamingEngine)
        ensures
            r.wf(),
            r.config() == snapshot.config,
            forall|id: Seq<char>|
                #[trigger] r.live(id) == (stream_index(snapshot.streams@, id) >= 0) && (r.live(id) ==> r.stream(id)
                    == snapshot.streams@[stream_index(snapshot.streams@, id)]),
    {
        let StreamingSnapshot { config, streams } = snapshot;
        let mut r = StreamingEngine::init(config);
        let ghost all = streams@;
        let mut rest = streams;
        let ghost mut taken: int = 0;
        while rest.len() > 0
            invariant
                r.wf(),
                r.config() == config,
                0 <= taken <= all.len(),
                rest@ == all.subrange(taken, all.len() as int),
                forall|id: Seq<char>|
                    #[trigger] r.live(id) == (stream_index(all.subrange(0, taken), id) >= 0) && (r.live(id)
                        ==> r.stream(id) == all.subrange(0, taken)[stream_index(all.subrange(0, taken), id)]),
            decreases rest@.len(),
        {
            let state = rest.remove(0);
            let ghost prev = r;
            let ghost id0 = state.handle.id@;
            r.store_stream(state);
            proof {
                let next = all.subrange(0, taken + 1);
                assert(next.drop_last() =~= all.subrange(0, taken));
                assert forall|id: Seq<char>|
                    #[trigger] r.live(id) == (stream_index(next, id) >= 0) && (r.live(id) ==> r.stream(id)
                        == next[stream_index(next, id)]) by {
                    if id != id0 {
                        assert(prev.live(id) == r.live(id));
                        lemma_stream_index(all.subrange(0, taken), id);
                        if stream_index(next, id) >= 0 {
                            assert(next[stream_index(next, id)] == all.subrange(0, taken)[stream_index(
                                all.subrange(0, taken),
                                id,
                            )]);
                        }
                    }
                }
                taken = taken + 1;
                assert(rest@ =~= all.subrange(taken, all.len() as int));
            }
        }
        assert(all.subrange(0, taken) =~= all);
        r
    }
    /// Opens a stream for `query_plan`: its targets are checked against the
    /// registry, the plan is optimized, and the stream is created.
    pub fn open_stream(
        &mut self,
        registry: &Coordination,
        query_plan: QueryPlan,
        stream_id: String,
        now: u64,
    ) -> (r: Result<StreamHandle, QueryError>)
        requires
            old(self).wf(),
        ensures
            final(self).wf(),
            final(self).config() == old(self).config(),
            ({
                let targets = query_plan.target_cells@;
                let valid = targets.len() > 0 && forall|k: int|
                    0 <= k < targets.len() ==> registry.registered(#[trigger] targets[k]@);
                &&& r is Ok <==> valid && !old(self).live(stream_id@)
                &&& targets.len() == 0 ==> (r matches Err(QueryError::InvalidQuery(_)))
                &&& (targets.len() > 0 && !valid) ==> (r matches Err(QueryError::CellUnavailable(id)) && exists|k: int|
                    0 <= k < targets.len() && targets[k]@ == id@ && !registry.registered(id@) && forall|j: int|
                        0 <= j < k ==> registry.registered(#[trigger] targets[j]@))
                &&& r is Err ==> final(self).streams() == old(self).streams()
                &&& r matches Ok(h) ==> {
                    let s = final(self).streams().last();
                    &&& h.id@ == stream_id@
                    &&& h.created_at == now
                    &&& h.expires_at == stream_expiry(now)
                    &&& final(self).streams().drop_last() == old(self).streams()
                    &&& final(self).streams().len() == old(self).streams().len() + 1
                    &&& s.handle == h
                    &&& s.current_position == 0
                    &&& s.buffer@.len() == 0
                    &&& !s.is_complete
                    &&& s.query_plan.operations@ == cheapest_first(query_plan.operations@)
                    &&& s.query_plan.coordination_strategy == coordination_strategy_for(
                        targets.len() as int,
                        registry.mean_latency(query_plan.target_cells@),
                    )
                    &&& s.query_plan.target_cells == query_plan.target_cells
                    &&& s.query_plan.id == query_plan.id
                    &&& s.query_plan.query_type == query_plan.query_type
                    &&& s.query_plan.streaming_config == query_plan.streaming_config
                    &&& s.error_state is None
                    &&& s.records_fetched == 0
                    &&& fresh_cursors(s)
                }
            }),
    {
        match registry.check_targets(&query_plan.target_cells) {
            Err(e) => Err(e),
            Ok(()) => {
                let optimized = QueryOptimizer::optimize_plan(query_plan, registry);
                self.create_stream(optimized, stream_id, now)
            },
        }
    }
    /// The plan of the live stream `id` and the number of records fetched
    /// for it so far, which tell a refill where to read.
    pub fn stream_progress(&self, id: &String) -> (r: Option<(&QueryPlan, u64)>)
        ensures
            match r {
                Some((plan, fetched)) => self.live(id@) && *plan == self.stream(id@).query_plan && fetched
                    == self.stream(id@).records_fetched,
                None => !self.live(id@),
            },
    {
        proof {
            lemma_stream_index(self.streams@, id@);
        }
        match self.find_stream(id) {
            Some(i) => Some((&self.streams[i].query_plan, self.streams[i].records_fetched)),
            None => None,
        }
    }
    /// The next request of a refill that still lacks `wanted` records: the
    /// first target cell that is not exhausted, its own offset, and `wanted`
    /// as the limit. None when the stream is unknown, nothing is wanted, or
    /// every target is exhausted.
    pub fn next_refill(&self, id: &String, wanted: u32) -> (r: Option<(usize, u64, u64)>)
        ensures
            match r {
                Some((k, offset, limit)) => {
                    &&& self.live(id@)
                    &&& wanted > 0
                    &&& open_target(self.stream(id@), k as int)
                    &&& forall|j: int| 0 <= j < k ==> !open_target(self.stream(id@), j)
                    &&& offset == self.stream(id@).target_offsets@[k as int]
                    &&& limit == wanted as u64
                },
                None => !self.live(id@) || wanted == 0 || forall|j: int| !open_target(self.stream(id@), j),
            },
    {
        proof {
            lemma_stream_index(self.streams@, id@);
        }
        if wanted == 0 {
            return None;
        }
        let i = match self.find_stream(id) {
            None => {
                return None;
            },
            Some(i) => i,
        };
        let s = &self.streams[i];
        let mut k: usize = 0;
        while k < s.query_plan.target_cells.len() && k < s.target_offsets.len() && k < s.exhausted_targets.len()
            invariant
                *s == self.stream(id@),
                self.live(id@),
                wanted > 0,
                forall|j: int| 0 <= j < k ==> !open_target(*s, j),
            decreases s.query_plan.target_cells@.len() - k,
        {
            if !s.exhausted_targets[k] {
                return Some((k, s.target_offsets[k], wanted as u64));
            }
            k += 1;
        }
        None
    }

    /// Records that target `target` of the stream `id`, asked for `asked`
    /// records, returned `returned`: its offset moves forward by exactly
    /// that many (saturating), and it is exhausted when it returned fewer
    /// than asked. Returns whether the stream and the target exist.
    pub fn record_refill(&mut self, id: &String, target: usize, asked: u64, returned: u64) -> (r: bool)
        requires
            old(self).wf(),
        ensures
            final(self).wf(),
            final(self).config() == old(self).config(),
            r == (old(self).live(id@) && open_target(old(self).stream(id@), target as int)),
            !r ==> final(self).streams() == old(self).streams(),
            r ==> ({
                let i = stream_index(old(self).streams(), id@);
                let s0 = old(self).streams()[i];
                let s1 = final(self).streams()[i];
                &&& final(self).streams() == old(self).streams().update(i, s1)
                &&& s1.target_offsets@ == s0.target_offsets@.update(
                    target as int,
                    if s0.target_offsets@[target as int] + returned <= u64::MAX {
                        (s0.target_offsets@[target as int] + returned) as u64
                    } else {
                        u64::MAX
                    },
                )
                &&& s1.exhausted_targets@ == s0.exhausted_targets@.update(target as int, returned < asked)
                &&& s1.handle == s0.handle
                &&& s1.query_plan == s0.query_plan
                &&& s1.current_position == s0.current_position
                &&& s1.buffer == s0.buffer
                &&& s1.is_complete == s0.is_complete
                &&& s1.error_state == s0.error_state
                &&& s1.records_fetched == s0.records_fetched
            }),
    {
        proof {
            lemma_stream_index(self.streams@, id@);
        }
        let i = match self.find_stream(id) {
            None => {
                return false;
            },
            Some(i) => i,
        };
        {
            let s = &self.streams[i];
            if target >= s.query_plan.target_cells.len() || target >= s.target_offsets.len()
                || target >= s.exhausted_targets.len() || s.exhausted_targets[target] {
                return false;
            }
        }
        let ghost old_streams = self.streams@;
        let mut state = self.streams.remove(i);
        let offset = state.target_offsets[target];
        let moved = if returned <= u64::MAX - offset {
            offset + returned
        } else {
            u64::MAX
        };
        state.target_offsets.set(target, moved);
        state.exhausted_targets.set(target, returned < asked);
        self.streams.insert(i, state);
        proof {
            let c = self.streams@;
            assert(c =~= old_streams.update(i as int, c[i as int]));
            assert forall|a: int, b: int|
                0 <= a < c.len() && 0 <= b < c.len() && a != b implies c[a].handle.id@ != c[b].handle.id@ by {
                assert(c[a].handle == old_streams[a].handle);
                assert(c[b].handle == old_streams[b].handle);
            }
        }
        true
    }
}

} // verus!
