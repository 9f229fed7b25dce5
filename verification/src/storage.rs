//! The storage engine: routing records into time-aligned chunks.

use vstd::prelude::*;
use vstd::arithmetic::div_mod::{
    lemma_fundamental_div_mod, lemma_fundamental_div_mod_converse, lemma_mod_bound,
};
use crate::chunk::{
    range_filter, rm_has, series_has, series_lookup, ChunkError, ChunkView, SeriesView, TimeChunk,
};
use crate::record::{Record, RecordView};

verus! {

/// Start of the chunk window that contains `timestamp`, for windows of
/// `duration` seconds: the greatest multiple of `duration` at most
/// `timestamp` (spec division on `int` rounds toward negative infinity
/// for a positive divisor).
pub open spec fn spec_chunk_id(timestamp: int, duration: int) -> int {
    (timestamp / duration) * duration
}

/// Aligns a timestamp down to the start of its chunk window.
pub fn chunk_id_for_timestamp(timestamp: i64, chunk_duration_secs: i64) -> (id: i64)
    requires
        chunk_duration_secs >= 1,
        spec_chunk_id(timestamp as int, chunk_duration_secs as int) >= i64::MIN,
    ensures
        id == spec_chunk_id(timestamp as int, chunk_duration_secs as int),
{
    let rem: i64 = timestamp % chunk_duration_secs;
    proof {
        let t = timestamp as int;
        let d = chunk_duration_secs as int;
        lemma_mod_bound(t, d);
        lemma_fundamental_div_mod(t, d);
        assert((t / d) * d == d * (t / d)) by (nonlinear_arith);
        if timestamp < 0 {
            let m = (-t) % d;
            lemma_mod_bound(-t, d);
            lemma_fundamental_div_mod(-t, d);
            let q = (-t) / d;
            if m == 0 {
                assert(t == (-q) * d + 0) by (nonlinear_arith)
                    requires
                        -t == d * q + m,
                        m == 0,
                ;
                lemma_fundamental_div_mod_converse(t, d, -q, 0);
            } else {
                assert(t == (-q - 1) * d + (d - m)) by (nonlinear_arith)
                    requires
                        -t == d * q + m,
                ;
                lemma_fundamental_div_mod_converse(t, d, -q - 1, d - m);
            }
        }
    }
    if rem < 0 {
        timestamp - (rem + chunk_duration_secs)
    } else {
        timestamp - rem
    }
}

} // verus!

verus! {

/// Errors surfaced by the storage engine.
#[derive(Debug)]
pub enum StorageError {
    ChunkNotFound(String),
    ChunkError(ChunkError),
    InvalidTimeRange(String),
    PersistenceError(String),
}

/// Performance-testing switches.
#[derive(Clone, Copy, Debug)]
pub struct DebugSettings {
    /// Skip disk operations when possible.
    pub memory_mode: bool,
    /// Skip write-ahead-log writes.
    pub disable_wal: bool,
    /// Batch size for bulk operations.
    pub batch_size: usize,
}

/// The in-memory core of the store: the chunk map, kept sorted by window
/// start, and the configuration that routes records into it.
///
/// File and log I/O live outside: callers write the byte images this type
/// and the codec produce, and feed bytes read back through the recovery
/// entry points.
pub struct StorageEngine {
    /// Chunks sorted by ascending `start_time`; windows never overlap.
    pub chunks: Vec<TimeChunk>,
    /// Window length in seconds; positive.
    pub chunk_duration_secs: i64,
    /// Whether full chunks should be offered for persistence.
    pub persistence_enabled: bool,
    /// Performance-testing switches.
    pub debug: DebugSettings,
}

/// Records of metric `m` in the chunk whose window starts at `id`; empty if
/// no such chunk.
pub open spec fn chunks_lookup(cs: Seq<ChunkView>, id: int, m: Seq<char>) -> Seq<RecordView>
    decreases cs.len(),
{
    if cs.len() == 0 {
        Seq::empty()
    } else if cs[0].start_time == id {
        series_lookup(cs[0].series, m)
    } else {
        chunks_lookup(cs.drop_first(), id, m)
    }
}

/// A chunk whose window starts at `id` is present.
pub open spec fn chunks_has(cs: Seq<ChunkView>, id: int) -> bool
    decreases cs.len(),
{
    if cs.len() == 0 {
        false
    } else {
        cs[0].start_time == id || chunks_has(cs.drop_first(), id)
    }
}

/// All records of metric `m`, chunks in ascending window order.
pub open spec fn chunks_records(cs: Seq<ChunkView>, m: Seq<char>) -> Seq<RecordView>
    decreases cs.len(),
{
    if cs.len() == 0 {
        Seq::empty()
    } else {
        series_lookup(cs[0].series, m) + chunks_records(cs.drop_first(), m)
    }
}

/// The records of metric `m` with timestamps in `[s, e)`, chunks in
/// ascending window order.
pub open spec fn chunks_range(cs: Seq<ChunkView>, s: int, e: int, m: Seq<char>) -> Seq<RecordView>
    decreases cs.len(),
{
    if cs.len() == 0 {
        Seq::empty()
    } else {
        range_filter(series_lookup(cs[0].series, m), s, e) + chunks_range(cs.drop_first(), s, e, m)
    }
}

/// Some chunk's primary index holds the metric.
pub open spec fn chunks_has_metric(cs: Seq<ChunkView>, m: Seq<char>) -> bool
    decreases cs.len(),
{
    if cs.len() == 0 {
        false
    } else {
        series_has(cs[0].series, m) || chunks_has_metric(cs.drop_first(), m)
    }
}

/// Some chunk's secondary index lists `m` under `rt`.
pub open spec fn chunks_has_rm(cs: Seq<ChunkView>, rt: Seq<char>, m: Seq<char>) -> bool
    decreases cs.len(),
{
    if cs.len() == 0 {
        false
    } else {
        rm_has(cs[0].resource_metrics, rt, m) || chunks_has_rm(cs.drop_first(), rt, m)
    }
}

/// The records of `rs` whose metric name is `m`, in order.
pub open spec fn by_metric(rs: Seq<RecordView>, m: Seq<char>) -> Seq<RecordView>
    decreases rs.len(),
{
    if rs.len() == 0 {
        Seq::empty()
    } else {
        let rest = by_metric(rs.drop_last(), m);
        if rs.last().metric_name == m {
            rest.push(rs.last())
        } else {
            rest
        }
    }
}

/// `p` spells a prefix of `m`.
pub open spec fn is_prefix(p: Seq<char>, m: Seq<char>) -> bool {
    p.len() <= m.len() && m.subrange(0, p.len() as int) == p
}

impl StorageEngine {
    /// The chunk map as mathematics.
    pub open spec fn chunk_views(self) -> Seq<ChunkView> {
        self.chunks.deep_view()
    }

    pub open spec fn duration(self) -> int {
        self.chunk_duration_secs as int
    }

    /// The engine's invariant: a positive window length; chunks that are
    /// each well-formed, inside their windows and uncompressed, aligned to
    /// the window length, exactly one window long, and strictly sorted by
    /// window start (so windows never overlap).
    pub open spec fn wf(self) -> bool {
        &&& self.chunk_duration_secs >= 1
        &&& forall|i: int|
            0 <= i < self.chunk_views().len() ==> (#[trigger] self.chunk_views()[i]).wf()
                && self.chunk_views()[i].in_window() && self.chunk_views()[i].compression_state
                is Uncompressed
        &&& forall|i: int|
            0 <= i < self.chunk_views().len() ==> (#[trigger] self.chunk_views()[i]).start_time
                == spec_chunk_id(self.chunk_views()[i].start_time, self.duration())
        &&& forall|i: int|
            0 <= i < self.chunk_views().len() ==> (#[trigger] self.chunk_views()[i]).end_time
                == self.chunk_views()[i].start_time + self.duration()
        &&& forall|i: int, j: int|
            0 <= i < j < self.chunk_views().len() ==> (#[trigger] self.chunk_views()[i]).start_time
                < (#[trigger] self.chunk_views()[j]).start_time
    }

    /// An empty engine with the given window length.
    pub fn new(chunk_duration_secs: i64) -> (e: Self)
        requires
            chunk_duration_secs >= 1,
        ensures
            e.wf(),
            e.chunk_views().len() == 0,
            e.duration() == chunk_duration_secs as int,
            e.persistence_enabled,
            forall|id: int, m: Seq<char>| #[trigger] chunks_lookup(e.chunk_views(), id, m)
                == Seq::<RecordView>::empty(),
            forall|id: int| !(#[trigger] chunks_has(e.chunk_views(), id)),
    {
        let e = StorageEngine {
            chunks: Vec::new(),
            chunk_duration_secs,
            persistence_enabled: true,
            debug: DebugSettings { memory_mode: false, disable_wal: false, batch_size: 500 },
        };
        proof {
            assert(e.chunk_views() =~= Seq::<ChunkView>::empty());
        }
        e
    }

    /// The configured window length in seconds.
    pub fn chunk_duration(&self) -> (r: i64)
        ensures
            r == self.chunk_duration_secs,
    {
        self.chunk_duration_secs
    }

    /// Turns persistence on or off.
    pub fn set_persistence(&mut self, enabled: bool)
        ensures
            final(self).persistence_enabled == enabled,
            final(self).chunks == old(self).chunks,
            final(self).chunk_duration_secs == old(self).chunk_duration_secs,
            final(self).debug == old(self).debug,
    {
        self.persistence_enabled = enabled;
    }

    /// Writes the performance-testing switches and synchronizes the
    /// persistence flag with memory mode.
    pub fn set_debug_settings(
        &mut self,
        memory_mode: bool,
        disable_wal: bool,
        batch_size: Option<usize>,
    ) -> (r: Result<(), StorageError>)
        ensures
            r is Ok,
            final(self).debug.memory_mode == memory_mode,
            final(self).debug.disable_wal == disable_wal,
            final(self).debug.batch_size == (match batch_size {
                Some(n) => n,
                None => old(self).debug.batch_size,
            }),
            final(self).persistence_enabled == !memory_mode,
            final(self).chunks == old(self).chunks,
            final(self).chunk_duration_secs == old(self).chunk_duration_secs,
    {
        self.debug.memory_mode = memory_mode;
        self.debug.disable_wal = disable_wal;
        match batch_size {
            Some(n) => {
                self.debug.batch_size = n;
            },
            None => {},
        }
        self.persistence_enabled = !memory_mode;
        Ok(())
    }
}

} // verus!

verus! {

/// Window starts are pairwise distinct.
pub open spec fn starts_unique(cs: Seq<ChunkView>) -> bool {
    forall|i: int, j: int|
        0 <= i < j < cs.len() ==> (#[trigger] cs[i]).start_time != (#[trigger] cs[j]).start_time
}

/// The recursive chunk membership test agrees with the quantified one.
pub proof fn lemma_chunks_has_iff(cs: Seq<ChunkView>, id: int)
    ensures
        chunks_has(cs, id) <==> exists|i: int|
            0 <= i < cs.len() && (#[trigger] cs[i]).start_time == id,
    decreases cs.len(),
{
    if cs.len() > 0 {
        lemma_chunks_has_iff(cs.drop_first(), id);
        let d = cs.drop_first();
        assert(forall|i: int| 0 <= i < d.len() ==> d[i] == cs[i + 1]);
        if chunks_has(cs, id) && cs[0].start_time != id {
            let i = choose|i: int| 0 <= i < d.len() && (#[trigger] d[i]).start_time == id;
            assert(cs[i + 1].start_time == id);
        }
        if exists|i: int| 0 <= i < cs.len() && (#[trigger] cs[i]).start_time == id {
            let i = choose|i: int| 0 <= i < cs.len() && (#[trigger] cs[i]).start_time == id;
            if i > 0 {
                assert(d[i - 1].start_time == id);
            }
        }
    }
}

/// Looking up the window start of the chunk at `i` finds that chunk.
pub proof fn lemma_chunks_at(cs: Seq<ChunkView>, i: int, m: Seq<char>)
    requires
        starts_unique(cs),
        0 <= i < cs.len(),
    ensures
        chunks_has(cs, cs[i].start_time),
        chunks_lookup(cs, cs[i].start_time, m) == series_lookup(cs[i].series, m),
    decreases i,
{
    if i == 0 {
    } else {
        let d = cs.drop_first();
        assert(forall|j: int| 0 <= j < d.len() ==> d[j] == cs[j + 1]);
        lemma_chunks_at(d, i - 1, m);
    }
}

/// Replacing one chunk with one of the same window rewrites that window's
/// contents and nothing else.
pub proof fn lemma_chunks_update(cs: Seq<ChunkView>, i: int, c2: ChunkView, id: int, m: Seq<char>)
    requires
        starts_unique(cs),
        0 <= i < cs.len(),
        c2.start_time == cs[i].start_time,
    ensures
        chunks_lookup(cs.update(i, c2), id, m) == (if id == cs[i].start_time {
            series_lookup(c2.series, m)
        } else {
            chunks_lookup(cs, id, m)
        }),
        chunks_has(cs.update(i, c2), id) == chunks_has(cs, id),
    decreases i,
{
    let u = cs.update(i, c2);
    if i == 0 {
        assert(u.drop_first() =~= cs.drop_first());
    } else {
        let d = cs.drop_first();
        assert(forall|j: int| 0 <= j < d.len() ==> d[j] == cs[j + 1]);
        lemma_chunks_update(d, i - 1, c2, id, m);
        assert(u.drop_first() =~= d.update(i - 1, c2));
        assert(u[0] == cs[0]);
        assert(cs[0].start_time != cs[i].start_time);
    }
}

/// Inserting a chunk with a fresh window adds that window and keeps the
/// rest.
pub proof fn lemma_chunks_insert(cs: Seq<ChunkView>, pos: int, c: ChunkView, id: int, m: Seq<char>)
    requires
        !chunks_has(cs, c.start_time),
        0 <= pos <= cs.len(),
    ensures
        chunks_lookup(cs.insert(pos, c), id, m) == (if id == c.start_time {
            series_lookup(c.series, m)
        } else {
            chunks_lookup(cs, id, m)
        }),
        chunks_has(cs.insert(pos, c), id) == (chunks_has(cs, id) || id == c.start_time),
    decreases pos,
{
    let u = cs.insert(pos, c);
    assert(u.len() == cs.len() + 1);
    if pos == 0 {
        assert(u[0] == c);
        assert(u.drop_first() =~= cs);
    } else {
        let d = cs.drop_first();
        lemma_chunks_insert(d, pos - 1, c, id, m);
        assert(u.drop_first() =~= d.insert(pos - 1, c));
        assert(u[0] == cs[0]);
        assert(cs[0].start_time != c.start_time);
    }
}

/// Index of the chunk whose window starts at `id`, if present.
fn find_chunk(chunks: &Vec<TimeChunk>, id: i64) -> (r: Option<usize>)
    ensures
        match r {
            Some(i) => i < chunks@.len() && chunks.deep_view()[i as int].start_time == id as int,
            None => !chunks_has(chunks.deep_view(), id as int),
        },
{
    let mut i: usize = 0;
    while i < chunks.len()
        invariant
            i <= chunks@.len(),
            forall|j: int|
                0 <= j < i as int ==> (#[trigger] chunks.deep_view()[j]).start_time != id as int,
        decreases chunks@.len() - i,
    {
        if chunks[i].start_time == id {
            proof {
                assert(chunks.deep_view()[i as int].start_time == id as int);
            }
            return Some(i);
        }
        i = i + 1;
    }
    proof {
        lemma_chunks_has_iff(chunks.deep_view(), id as int);
    }
    None
}

/// Where a chunk with window start `id` belongs in the sorted map.
fn find_insert_pos(chunks: &Vec<TimeChunk>, id: i64) -> (pos: usize)
    requires
        forall|i: int, j: int|
            0 <= i < j < chunks.deep_view().len() ==> (
            #[trigger] chunks.deep_view()[i]).start_time < (
            #[trigger] chunks.deep_view()[j]).start_time,
        !chunks_has(chunks.deep_view(), id as int),
    ensures
        pos <= chunks@.len(),
        forall|j: int|
            0 <= j < pos as int ==> (#[trigger] chunks.deep_view()[j]).start_time < id as int,
        forall|j: int|
            pos as int <= j < chunks.deep_view().len() ==> (
            #[trigger] chunks.deep_view()[j]).start_time > id as int,
{
    proof {
        lemma_chunks_has_iff(chunks.deep_view(), id as int);
    }
    let mut i: usize = 0;
    while i < chunks.len()
        invariant
            i <= chunks@.len(),
            forall|j: int|
                0 <= j < i as int ==> (#[trigger] chunks.deep_view()[j]).start_time < id as int,
            forall|i2: int, j2: int|
                0 <= i2 < j2 < chunks.deep_view().len() ==> (
                #[trigger] chunks.deep_view()[i2]).start_time < (
                #[trigger] chunks.deep_view()[j2]).start_time,
            forall|j: int|
                0 <= j < chunks.deep_view().len() ==> (#[trigger] chunks.deep_view()[j]).start_time
                    != id as int,
        decreases chunks@.len() - i,
    {
        if chunks[i].start_time > id {
            return i;
        }
        proof {
            assert(chunks.deep_view()[i as int].start_time < id as int);
        }
        i = i + 1;
    }
    i
}

} // verus!

verus! {

/// The change a batch makes to the chunk map: the targeted window gains the
/// batch's records (grouped under their metrics, order kept), every other
/// window is untouched, and the window itself exists afterwards exactly when
/// it existed before or was created now.
pub open spec fn batch_effect(
    oldcs: Seq<ChunkView>,
    newcs: Seq<ChunkView>,
    cid: int,
    rs: Seq<RecordView>,
    created: bool,
) -> bool {
    &&& forall|m: Seq<char>|
        #[trigger] chunks_lookup(newcs, cid, m) == chunks_lookup(oldcs, cid, m) + by_metric(rs, m)
    &&& forall|id: int, m: Seq<char>|
        id != cid ==> #[trigger] chunks_lookup(newcs, id, m) == chunks_lookup(oldcs, id, m)
    &&& forall|id: int|
        #[trigger] chunks_has(newcs, id) == (chunks_has(oldcs, id) || (id == cid && created))
}

impl StorageEngine {
    /// Places a batch of records into the chunk whose window starts at
    /// `chunk_id`, creating it on demand.
    ///
    /// A record outside the window stops the batch with a `ChunkError`; the
    /// records placed before it stay placed.
    pub fn insert_batch(&mut self, chunk_id: i64, records: Vec<Record>) -> (r: Result<
        (),
        StorageError,
    >)
        requires
            old(self).wf(),
            chunk_id as int == spec_chunk_id(chunk_id as int, old(self).duration()),
            chunk_id as int + old(self).duration() <= i64::MAX,
        ensures
            final(self).wf(),
            final(self).chunk_duration_secs == old(self).chunk_duration_secs,
            final(self).persistence_enabled == old(self).persistence_enabled,
            final(self).debug == old(self).debug,
            match r {
                Ok(()) => (forall|k: int|
                    0 <= k < records.deep_view().len() ==> chunk_id as int <= (
                    #[trigger] records.deep_view()[k]).timestamp < chunk_id as int + old(
                        self,
                    ).duration()) && batch_effect(
                    old(self).chunk_views(),
                    final(self).chunk_views(),
                    chunk_id as int,
                    records.deep_view(),
                    records.deep_view().len() > 0,
                ),
                Err(e) => e is ChunkError && (exists|k: int|
                    0 <= k < records.deep_view().len() && !(chunk_id as int <= (
                    #[trigger] records.deep_view()[k]).timestamp < chunk_id as int + old(
                        self,
                    ).duration()) && batch_effect(
                        old(self).chunk_views(),
                        final(self).chunk_views(),
                        chunk_id as int,
                        records.deep_view().take(k),
                        true,
                    )),
            },
    {
        let ghost oldcs = self.chunk_views();
        let ghost rvs = records.deep_view();
        if records.len() == 0 {
            proof {
                assert forall|m: Seq<char>| #[trigger] chunks_lookup(oldcs, chunk_id as int, m)
                    == chunks_lookup(oldcs, chunk_id as int, m) + by_metric(rvs, m) by {
                    assert(by_metric(rvs, m) == Seq::<RecordView>::empty());
                    assert(chunks_lookup(oldcs, chunk_id as int, m) + Seq::<RecordView>::empty()
                        =~= chunks_lookup(oldcs, chunk_id as int, m));
                }
            }
            return Ok(());
        }
        let duration = self.chunk_duration_secs;
        let (pos, created) = match find_chunk(&self.chunks, chunk_id) {
            Some(i) => (i, false),
            None => {
                let pos = find_insert_pos(&self.chunks, chunk_id);
                let fresh = TimeChunk::new(chunk_id, chunk_id + duration);
                let ghost freshv = fresh.deep_view();
                self.chunks.insert(pos, fresh);
                proof {
                    assert(self.chunk_views() =~= oldcs.insert(pos as int, freshv));
                    oldcs.insert_ensures(pos as int, freshv);
                    assert(freshv.series =~= Seq::<SeriesView>::empty());
                    lemma_chunks_has_iff(oldcs, chunk_id as int);
                }
                (pos, true)
            },
        };
        let ghost midcs = self.chunk_views();
        let ghost c0 = midcs[pos as int];
        let mut c = self.chunks.remove(pos);
        proof {
            assert(c.deep_view() == c0);
            assert(c0.start_time == chunk_id as int);
            assert(rvs.take(0) =~= Seq::<RecordView>::empty());
            assert forall|m: Seq<char>| #[trigger] series_lookup(c.deep_view().series, m)
                == series_lookup(c0.series, m) + by_metric(rvs.take(0), m) by {
                assert(by_metric(rvs.take(0), m) == Seq::<RecordView>::empty());
                assert(series_lookup(c0.series, m) + Seq::<RecordView>::empty() =~= series_lookup(
                    c0.series,
                    m,
                ));
            }
        }
        let mut k: usize = 0;
        let mut failed: bool = false;
        while k < records.len() && !failed
            invariant
                k <= records@.len(),
                rvs == records.deep_view(),
                c.deep_view().wf(),
                c.deep_view().in_window(),
                c.deep_view().start_time == c0.start_time,
                c.deep_view().end_time == c0.end_time,
                c.deep_view().compression_state == c0.compression_state,
                !failed ==> forall|m: Seq<char>| #[trigger] series_lookup(c.deep_view().series, m)
                    == series_lookup(c0.series, m) + by_metric(rvs.take(k as int), m),
                !failed ==> forall|j: int|
                    0 <= j < k as int ==> c0.start_time <= (#[trigger] rvs[j]).timestamp
                        < c0.end_time,
                failed ==> (k as int) < rvs.len() && !(c0.start_time <= rvs[k as int].timestamp
                    < c0.end_time) && (forall|m: Seq<char>| #[trigger] series_lookup(
                    c.deep_view().series,
                    m,
                ) == series_lookup(c0.series, m) + by_metric(rvs.take(k as int), m)),
                c0.wf(),
                c0.in_window(),
            decreases records@.len() - k + (if failed {
                0int
            } else {
                1int
            }),
        {
            let rec = records[k].clone();
            let ghost rv = rec@;
            let ghost cpre = c.deep_view();
            match c.append(rec) {
                Ok(()) => {
                    proof {
                        assert(rvs[k as int] == rv);
                        assert forall|m: Seq<char>| #[trigger] series_lookup(
                            c.deep_view().series,
                            m,
                        ) == series_lookup(c0.series, m) + by_metric(rvs.take(k as int + 1), m) by {
                            assert(rvs.take(k as int + 1).drop_last() =~= rvs.take(k as int));
                            assert(rvs.take(k as int + 1).last() == rv);
                            if m == rv.metric_name {
                                assert(c.deep_view().records_for(m) == cpre.records_for(m).push(
                                    rv,
                                ));
                                assert(by_metric(rvs.take(k as int + 1), m) == by_metric(
                                    rvs.take(k as int),
                                    m,
                                ).push(rv));
                                assert((series_lookup(c0.series, m) + by_metric(
                                    rvs.take(k as int),
                                    m,
                                )).push(rv) =~= series_lookup(c0.series, m) + by_metric(
                                    rvs.take(k as int),
                                    m,
                                ).push(rv));
                            } else {
                                assert(c.deep_view().records_for(m) == cpre.records_for(m));
                                assert(by_metric(rvs.take(k as int + 1), m) == by_metric(
                                    rvs.take(k as int),
                                    m,
                                ));
                            }
                        }
                    }
                    k = k + 1;
                },
                Err(_) => {
                    failed = true;
                },
            }
        }
        let ghost cfin = c.deep_view();
        let ghost kk = k as int;
        self.chunks.insert(pos, c);
        proof {
            assert(self.chunk_views() =~= midcs.update(pos as int, cfin));
            lemma_batch_final(oldcs, midcs, self.chunk_views(), pos as int, c0, cfin, chunk_id as int, created, self.duration());
            assert forall|m: Seq<char>| #[trigger] chunks_lookup(
                self.chunk_views(),
                chunk_id as int,
                m,
            ) == chunks_lookup(oldcs, chunk_id as int, m) + by_metric(rvs.take(kk), m) by {
                assert(series_lookup(cfin.series, m) == series_lookup(c0.series, m) + by_metric(
                    rvs.take(kk),
                    m,
                ));
            }
        }
        if failed {
            proof {
                assert(!(chunk_id as int <= rvs[kk].timestamp < chunk_id as int + self.duration()));
                assert(batch_effect(oldcs, self.chunk_views(), chunk_id as int, rvs.take(kk), true));
            }
            return Err(
                StorageError::ChunkError(
                    ChunkError::OutOfTimeRange("record outside its chunk window".to_owned()),
                ),
            );
        }
        proof {
            assert(rvs.take(rvs.len() as int) =~= rvs);
            assert forall|m: Seq<char>| #[trigger] chunks_lookup(
                self.chunk_views(),
                chunk_id as int,
                m,
            ) == chunks_lookup(oldcs, chunk_id as int, m) + by_metric(rvs, m) by {
                assert(by_metric(rvs.take(kk), m) == by_metric(rvs, m));
            }
            if !created {
                assert(chunks_has(oldcs, chunk_id as int)) by {
                    lemma_chunks_has_iff(oldcs, chunk_id as int);
                }
            }
            assert(batch_effect(oldcs, self.chunk_views(), chunk_id as int, rvs, rvs.len() > 0));
        }
        Ok(())
    }
}

/// Combines the map surgery of a batch — an optional insertion of a fresh
/// chunk, then the replacement of the filled one — into the overall effect.
proof fn lemma_batch_final(
    oldcs: Seq<ChunkView>,
    midcs: Seq<ChunkView>,
    newcs: Seq<ChunkView>,
    pos: int,
    c0: ChunkView,
    cfin: ChunkView,
    cid: int,
    created: bool,
    duration: int,
)
    requires
        duration >= 1,
        0 <= pos < midcs.len(),
        midcs[pos] == c0,
        c0.start_time == cid,
        cfin.start_time == c0.start_time,
        cfin.end_time == c0.end_time,
        cfin.wf(),
        cfin.in_window(),
        cfin.compression_state == c0.compression_state,
        newcs == midcs.update(pos, cfin),
        created ==> pos <= oldcs.len() && !chunks_has(oldcs, cid) && midcs == oldcs.insert(
            pos,
            c0,
        ) && c0.series == Seq::<SeriesView>::empty() && c0.wf() && c0.in_window()
            && c0.compression_state is Uncompressed && c0.end_time == cid + duration && cid
            == spec_chunk_id(cid, duration),
        !created ==> midcs == oldcs,
        engine_chunks_wf(oldcs, duration),
        created ==> (forall|j: int| 0 <= j < pos ==> (#[trigger] oldcs[j]).start_time < cid)
            && (forall|j: int| pos <= j < oldcs.len() ==> (#[trigger] oldcs[j]).start_time > cid),
    ensures
        engine_chunks_wf(newcs, duration),
        forall|m: Seq<char>|
            #[trigger] chunks_lookup(newcs, cid, m) == series_lookup(cfin.series, m),
        forall|m: Seq<char>|
            #[trigger] chunks_lookup(oldcs, cid, m) == series_lookup(c0.series, m),
        forall|id: int, m: Seq<char>|
            id != cid ==> #[trigger] chunks_lookup(newcs, id, m) == chunks_lookup(oldcs, id, m),
        forall|id: int| #[trigger] chunks_has(newcs, id) == (chunks_has(oldcs, id) || id == cid),
        starts_unique(midcs),
{
    if created {
        oldcs.insert_ensures(pos, c0);
        assert forall|i: int, j: int| 0 <= i < j < midcs.len() implies (
        #[trigger] midcs[i]).start_time < (#[trigger] midcs[j]).start_time by {
            if j < pos {
                assert(midcs[i] == oldcs[i] && midcs[j] == oldcs[j]);
            } else if i < pos && j == pos {
                assert(midcs[i] == oldcs[i]);
            } else if i < pos {
                assert(midcs[i] == oldcs[i] && midcs[j] == oldcs[j - 1]);
            } else if i == pos {
                assert(midcs[j] == oldcs[j - 1]);
            } else {
                assert(midcs[i] == oldcs[i - 1] && midcs[j] == oldcs[j - 1]);
            }
        }
        assert forall|i: int| 0 <= i < midcs.len() implies (#[trigger] midcs[i]).wf()
            && midcs[i].in_window() && midcs[i].compression_state is Uncompressed && midcs[i].start_time
            == spec_chunk_id(midcs[i].start_time, duration) && midcs[i].end_time
            == midcs[i].start_time + duration by {
            if i < pos {
                assert(midcs[i] == oldcs[i]);
            } else if i == pos {
                assert(midcs[i] == c0);
            } else {
                assert(midcs[i] == oldcs[i - 1]);
            }
        }
    }
    assert(starts_unique(midcs));
    assert forall|i: int| 0 <= i < newcs.len() implies (#[trigger] newcs[i]).wf()
        && newcs[i].in_window() && newcs[i].compression_state is Uncompressed && newcs[i].start_time
        == spec_chunk_id(newcs[i].start_time, duration) && newcs[i].end_time == newcs[i].start_time
        + duration by {
        if i != pos {
            assert(newcs[i] == midcs[i]);
        } else {
            assert(newcs[i] == cfin);
            assert(midcs[pos] == c0);
        }
    }
    assert forall|i: int, j: int| 0 <= i < j < newcs.len() implies (
    #[trigger] newcs[i]).start_time < (#[trigger] newcs[j]).start_time by {
        assert(newcs[i].start_time == midcs[i].start_time);
        assert(newcs[j].start_time == midcs[j].start_time);
    }
    assert forall|m: Seq<char>| #[trigger] chunks_lookup(newcs, cid, m) == series_lookup(
        cfin.series,
        m,
    ) by {
        lemma_chunks_update(midcs, pos, cfin, cid, m);
    }
    assert forall|m: Seq<char>| #[trigger] chunks_lookup(oldcs, cid, m) == series_lookup(
        c0.series,
        m,
    ) by {
        if created {
            lemma_chunks_lookup_absent(oldcs, cid, m);
            assert(series_lookup(c0.series, m) == Seq::<RecordView>::empty());
        } else {
            lemma_chunks_at(oldcs, pos, m);
        }
    }
    assert forall|id: int, m: Seq<char>| id != cid implies #[trigger] chunks_lookup(newcs, id, m)
        == chunks_lookup(oldcs, id, m) by {
        lemma_chunks_update(midcs, pos, cfin, id, m);
        if created {
            lemma_chunks_insert(oldcs, pos, c0, id, m);
        }
    }
    assert forall|id: int| #[trigger] chunks_has(newcs, id) == (chunks_has(oldcs, id) || id == cid) by {
        lemma_chunks_update(midcs, pos, cfin, id, Seq::<char>::empty());
        if created {
            lemma_chunks_insert(oldcs, pos, c0, id, Seq::<char>::empty());
        } else {
            lemma_chunks_at(oldcs, pos, Seq::<char>::empty());
        }
    }
}

/// The per-chunk engine invariant, as a predicate on the map alone.
pub open spec fn engine_chunks_wf(cs: Seq<ChunkView>, duration: int) -> bool {
    &&& forall|i: int|
        0 <= i < cs.len() ==> (#[trigger] cs[i]).wf() && cs[i].in_window()
            && cs[i].compression_state is Uncompressed
    &&& forall|i: int|
        0 <= i < cs.len() ==> (#[trigger] cs[i]).start_time == spec_chunk_id(
            cs[i].start_time,
            duration,
        )
    &&& forall|i: int|
        0 <= i < cs.len() ==> (#[trigger] cs[i]).end_time == cs[i].start_time + duration
    &&& forall|i: int, j: int|
        0 <= i < j < cs.len() ==> (#[trigger] cs[i]).start_time < (#[trigger] cs[j]).start_time
}

/// Looking up a window that no chunk starts finds nothing.
pub proof fn lemma_chunks_lookup_absent(cs: Seq<ChunkView>, id: int, m: Seq<char>)
    requires
        !chunks_has(cs, id),
    ensures
        chunks_lookup(cs, id, m) == Seq::<RecordView>::empty(),
    decreases cs.len(),
{
    if cs.len() > 0 {
        lemma_chunks_lookup_absent(cs.drop_first(), id, m);
    }
}

} // verus!

verus! {

/// A timestamp lies inside the window it aligns to.
pub proof fn lemma_align_window(ts: int, d: int)
    requires
        d >= 1,
    ensures
        spec_chunk_id(ts, d) <= ts < spec_chunk_id(ts, d) + d,
{
    lemma_fundamental_div_mod(ts, d);
    lemma_mod_bound(ts, d);
    assert((ts / d) * d == d * (ts / d)) by (nonlinear_arith);
}

/// Alignment is idempotent: a window start aligns to itself.
pub proof fn lemma_align_idempotent(ts: int, d: int)
    requires
        d >= 1,
    ensures
        spec_chunk_id(spec_chunk_id(ts, d), d) == spec_chunk_id(ts, d),
{
    let q = ts / d;
    let c = q * d;
    assert(c == d * q + 0) by (nonlinear_arith)
        requires
            c == q * d,
    ;
    lemma_fundamental_div_mod_converse(c, d, q, 0);
    assert((c / d) * d == c) by (nonlinear_arith)
        requires
            c / d == q,
            c == q * d,
    ;
}

impl StorageEngine {
    /// Routes one record into the chunk holding its timestamp, creating the
    /// chunk on demand. In-memory placement never fails: alignment puts the
    /// record inside the chosen window.
    pub fn insert(&mut self, record: Record) -> (r: Result<(), StorageError>)
        requires
            old(self).wf(),
            spec_chunk_id(record@.timestamp, old(self).duration()) >= i64::MIN,
            spec_chunk_id(record@.timestamp, old(self).duration()) + old(self).duration()
                <= i64::MAX,
        ensures
            final(self).wf(),
            final(self).chunk_duration_secs == old(self).chunk_duration_secs,
            final(self).persistence_enabled == old(self).persistence_enabled,
            final(self).debug == old(self).debug,
            r is Ok,
            ({
                let cid = spec_chunk_id(record@.timestamp, old(self).duration());
                &&& chunks_lookup(final(self).chunk_views(), cid, record@.metric_name)
                    == chunks_lookup(old(self).chunk_views(), cid, record@.metric_name).push(
                    record@,
                )
                &&& forall|id: int, m: Seq<char>|
                    !(id == cid && m == record@.metric_name) ==> #[trigger] chunks_lookup(
                        final(self).chunk_views(),
                        id,
                        m,
                    ) == chunks_lookup(old(self).chunk_views(), id, m)
                &&& forall|id: int|
                    #[trigger] chunks_has(final(self).chunk_views(), id) == (chunks_has(
                        old(self).chunk_views(),
                        id,
                    ) || id == cid)
            }),
    {
        let ghost rv = record@;
        let cid = chunk_id_for_timestamp(record.timestamp, self.chunk_duration_secs);
        proof {
            lemma_align_window(rv.timestamp, self.duration());
            lemma_align_idempotent(rv.timestamp, self.duration());
        }
        let mut batch: Vec<Record> = Vec::new();
        batch.push(record);
        let ghost rvs = batch.deep_view();
        proof {
            assert(rvs =~= seq![rv]);
        }
        let res = self.insert_batch(cid, batch);
        proof {
            if res is Err {
                let k = choose|k: int|
                    0 <= k < rvs.len() && !(cid as int <= (#[trigger] rvs[k]).timestamp < cid as int
                        + old(self).duration()) && batch_effect(
                        old(self).chunk_views(),
                        self.chunk_views(),
                        cid as int,
                        rvs.take(k),
                        true,
                    );
                assert(rvs[k] == rv);
                assert(false);
            }
            assert forall|m: Seq<char>| #[trigger] by_metric(rvs, m) == (if m == rv.metric_name {
                seq![rv]
            } else {
                Seq::<RecordView>::empty()
            }) by {
                assert(rvs.drop_last() =~= Seq::<RecordView>::empty());
                assert(rvs.last() == rv);
                assert(by_metric(Seq::<RecordView>::empty(), m) == Seq::<RecordView>::empty());
                if m == rv.metric_name {
                    assert(by_metric(rvs, m) =~= seq![rv]);
                }
            }
            assert(chunks_lookup(old(self).chunk_views(), cid as int, rv.metric_name) + seq![rv]
                =~= chunks_lookup(old(self).chunk_views(), cid as int, rv.metric_name).push(rv));
            assert forall|id: int, m: Seq<char>|
                !(id == cid as int && m == rv.metric_name) implies #[trigger] chunks_lookup(
                self.chunk_views(),
                id,
                m,
            ) == chunks_lookup(old(self).chunk_views(), id, m) by {
                if id == cid as int {
                    assert(chunks_lookup(self.chunk_views(), id, m) == chunks_lookup(
                        old(self).chunk_views(),
                        id,
                        m,
                    ) + by_metric(rvs, m));
                    assert(chunks_lookup(old(self).chunk_views(), id, m)
                        + Seq::<RecordView>::empty() =~= chunks_lookup(
                        old(self).chunk_views(),
                        id,
                        m,
                    ));
                }
            }
        }
        match res {
            Ok(()) => Ok(()),
            Err(e) => Err(e),
        }
    }
}

} // verus!

verus! {

/// Extending the chunk prefix extends the range query result.
proof fn lemma_chunks_range_snoc(cs: Seq<ChunkView>, k: int, s: int, e: int, m: Seq<char>)
    requires
        0 <= k < cs.len(),
    ensures
        chunks_range(cs.take(k + 1), s, e, m) == chunks_range(cs.take(k), s, e, m) + range_filter(
            series_lookup(cs[k].series, m),
            s,
            e,
        ),
    decreases k,
{
    if k == 0 {
        assert(cs.take(1) =~= seq![cs[0]]);
        assert(cs.take(1).drop_first() =~= Seq::<ChunkView>::empty());
        assert(cs.take(0) =~= Seq::<ChunkView>::empty());
        assert(chunks_range(cs.take(1), s, e, m) =~= chunks_range(cs.take(0), s, e, m)
            + range_filter(series_lookup(cs[0].series, m), s, e));
    } else {
        lemma_chunks_range_snoc(cs.drop_first(), k - 1, s, e, m);
        assert(cs.take(k + 1).drop_first() =~= cs.drop_first().take(k));
        assert(cs.take(k).drop_first() =~= cs.drop_first().take(k - 1));
        assert(cs.take(k + 1)[0] == cs[0]);
        assert(cs.take(k)[0] == cs[0]);
        assert(cs.drop_first()[k - 1] == cs[k]);
        assert(chunks_range(cs.take(k), s, e, m) + range_filter(series_lookup(cs[k].series, m), s, e)
            =~= range_filter(series_lookup(cs[0].series, m), s, e) + (chunks_range(
            cs.drop_first().take(k - 1),
            s,
            e,
            m,
        ) + range_filter(series_lookup(cs.drop_first()[k - 1].series, m), s, e)));
    }
}

/// Extending the chunk prefix extends the per-metric record stream.
proof fn lemma_chunks_records_snoc(cs: Seq<ChunkView>, k: int, m: Seq<char>)
    requires
        0 <= k < cs.len(),
    ensures
        chunks_records(cs.take(k + 1), m) == chunks_records(cs.take(k), m) + series_lookup(
            cs[k].series,
            m,
        ),
    decreases k,
{
    if k == 0 {
        assert(cs.take(1) =~= seq![cs[0]]);
        assert(cs.take(1).drop_first() =~= Seq::<ChunkView>::empty());
        assert(cs.take(0) =~= Seq::<ChunkView>::empty());
        assert(chunks_records(cs.take(1), m) =~= chunks_records(cs.take(0), m) + series_lookup(
            cs[0].series,
            m,
        ));
    } else {
        lemma_chunks_records_snoc(cs.drop_first(), k - 1, m);
        assert(cs.take(k + 1).drop_first() =~= cs.drop_first().take(k));
        assert(cs.take(k).drop_first() =~= cs.drop_first().take(k - 1));
        assert(cs.take(k + 1)[0] == cs[0]);
        assert(cs.take(k)[0] == cs[0]);
        assert(cs.drop_first()[k - 1] == cs[k]);
        assert(chunks_records(cs.take(k), m) + series_lookup(cs[k].series, m) =~= series_lookup(
            cs[0].series,
            m,
        ) + (chunks_records(cs.drop_first().take(k - 1), m) + series_lookup(
            cs.drop_first()[k - 1].series,
            m,
        )));
    }
}

/// A window disjoint from the query range contributes nothing.
proof fn lemma_filter_outside(rs: Seq<RecordView>, s: int, e: int, ws: int, we: int)
    requires
        forall|k: int| 0 <= k < rs.len() ==> ws <= (#[trigger] rs[k]).timestamp < we,
        e <= ws || s >= we,
    ensures
        range_filter(rs, s, e) == Seq::<RecordView>::empty(),
    decreases rs.len(),
{
    if rs.len() > 0 {
        lemma_filter_outside(rs.drop_last(), s, e, ws, we);
        assert(forall|k: int| 0 <= k < rs.len() - 1 ==> rs.drop_last()[k] == rs[k]);
    }
}

/// Every record a lookup returns lies inside its chunk's window.
proof fn lemma_lookup_in_window(cv: ChunkView, m: Seq<char>)
    requires
        cv.wf(),
        cv.in_window(),
    ensures
        forall|k: int|
            0 <= k < series_lookup(cv.series, m).len() ==> cv.start_time <= (
            #[trigger] series_lookup(cv.series, m)[k]).timestamp < cv.end_time,
{
    crate::chunk::lemma_lookup_props(cv.series, m);
    if series_has(cv.series, m) {
        let i = choose|i: int|
            0 <= i < cv.series.len() && (#[trigger] cv.series[i]).name == m && series_lookup(
                cv.series,
                m,
            ) == cv.series[i].records;
        assert forall|k: int| 0 <= k < series_lookup(cv.series, m).len() implies cv.start_time <= (
        #[trigger] series_lookup(cv.series, m)[k]).timestamp < cv.end_time by {
            assert(cv.series[i].records[k] == series_lookup(cv.series, m)[k]);
        }
    }
}

/// Appends every record of `v`, consuming it.
pub(crate) fn push_all_records(out: &mut Vec<Record>, v: Vec<Record>)
    ensures
        final(out).deep_view() == old(out).deep_view() + v.deep_view(),
{
    let ghost prev = *out;
    let ghost vv = v;
    let mut v = v;
    out.append(&mut v);
    proof {
        assert(out@ == prev@ + vv@);
        assert(out.deep_view() =~= prev.deep_view() + vv.deep_view());
    }
}

impl StorageEngine {
    /// The records of `metric` with timestamps in `[start, end)`, drawn from
    /// every overlapping chunk in ascending window order; records inside one
    /// chunk keep their stored order. Fails exactly when the range is empty
    /// or inverted.
    pub fn query_range(&self, start: i64, end: i64, metric: &str) -> (r: Result<
        Vec<Record>,
        StorageError,
    >)
        requires
            self.wf(),
        ensures
            match r {
                Ok(v) => (start as int) < end as int && v.deep_view() == chunks_range(
                    self.chunk_views(),
                    start as int,
                    end as int,
                    metric@,
                ),
                Err(e) => e is InvalidTimeRange && start as int >= end as int,
            },
    {
        if start >= end {
            return Err(
                StorageError::InvalidTimeRange("start time must be before end time".to_owned()),
            );
        }
        let ghost cs = self.chunk_views();
        let ghost s = start as int;
        let ghost e = end as int;
        let ghost m = metric@;
        let mut out: Vec<Record> = Vec::new();
        let mut i: usize = 0;
        proof {
            assert(cs.take(0) =~= Seq::<ChunkView>::empty());
            assert(out.deep_view() =~= chunks_range(cs.take(0), s, e, m));
        }
        while i < self.chunks.len()
            invariant
                i <= self.chunks@.len(),
                self.wf(),
                cs == self.chunk_views(),
                s == start as int,
                e == end as int,
                m == metric@,
                out.deep_view() == chunks_range(cs.take(i as int), s, e, m),
            decreases self.chunks@.len() - i,
        {
            let c = &self.chunks[i];
            proof {
                assert(c.deep_view() == cs[i as int]);
                lemma_chunks_range_snoc(cs, i as int, s, e, m);
            }
            if end <= c.start_time || start >= c.end_time {
                proof {
                    lemma_lookup_in_window(cs[i as int], m);
                    lemma_filter_outside(
                        series_lookup(cs[i as int].series, m),
                        s,
                        e,
                        cs[i as int].start_time,
                        cs[i as int].end_time,
                    );
                    assert(out.deep_view() + Seq::<RecordView>::empty() =~= out.deep_view());
                }
            } else {
                match c.get_range(start, end, metric) {
                    Ok(v) => {
                        push_all_records(&mut out, v);
                    },
                    Err(_) => {
                        proof {
                            crate::chunk::lemma_lookup_props(cs[i as int].series, m);
                            assert(range_filter(series_lookup(cs[i as int].series, m), s, e)
                                == Seq::<RecordView>::empty());
                            assert(out.deep_view() + Seq::<RecordView>::empty() =~= out.deep_view());
                        }
                    },
                }
            }
            i = i + 1;
        }
        proof {
            assert(cs.take(self.chunks@.len() as int) =~= cs);
        }
        Ok(out)
    }

    /// The stored record of `metric` with the greatest timestamp, across all
    /// chunks; absence is a normal outcome, not an error.
    pub fn get_latest(&self, metric: &str) -> (r: Result<Option<Record>, StorageError>)
        requires
            self.wf(),
        ensures
            r is Ok,
            match r->Ok_0 {
                Some(rec) => chunks_records(self.chunk_views(), metric@).contains(rec@)
                    && rec@.metric_name == metric@ && forall|k: int|
                    0 <= k < chunks_records(self.chunk_views(), metric@).len() ==> (
                    #[trigger] chunks_records(self.chunk_views(), metric@)[k]).timestamp
                        <= rec@.timestamp,
                None => chunks_records(self.chunk_views(), metric@).len() == 0,
            },
    {
        let ghost cs = self.chunk_views();
        let ghost m = metric@;
        let mut best: Option<Record> = None;
        let mut i: usize = 0;
        proof {
            assert(cs.take(0) =~= Seq::<ChunkView>::empty());
        }
        while i < self.chunks.len()
            invariant
                i <= self.chunks@.len(),
                self.wf(),
                cs == self.chunk_views(),
                m == metric@,
                match best {
                    Some(b) => chunks_records(cs.take(i as int), m).contains(b@) && b@.metric_name
                        == m && forall|k: int|
                        0 <= k < chunks_records(cs.take(i as int), m).len() ==> (
                        #[trigger] chunks_records(cs.take(i as int), m)[k]).timestamp
                            <= b@.timestamp,
                    None => chunks_records(cs.take(i as int), m).len() == 0,
                },
            decreases self.chunks@.len() - i,
        {
            let c = &self.chunks[i];
            proof {
                assert(c.deep_view() == cs[i as int]);
                lemma_chunks_records_snoc(cs, i as int, m);
                crate::chunk::lemma_lookup_props(cs[i as int].series, m);
            }
            let ghost prefix = chunks_records(cs.take(i as int), m);
            let ghost whole = chunks_records(cs.take(i as int + 1), m);
            let ghost here = series_lookup(cs[i as int].series, m);
            match c.get_latest(metric) {
                Some(candidate) => {
                    proof {
                        let j = choose|j: int| 0 <= j < here.len() && here[j] == candidate@;
                        assert(whole[prefix.len() + j] == candidate@);
                        assert(whole.contains(candidate@));
                    }
                    let replace: bool = match &best {
                        None => true,
                        Some(b) => candidate.timestamp > b.timestamp,
                    };
                    proof {
                        if best is Some {
                            let b = best->Some_0;
                            let j = choose|j: int| 0 <= j < prefix.len() && prefix[j] == b@;
                            assert(whole[j] == b@);
                            assert(whole.contains(b@));
                        }
                        assert forall|k: int| 0 <= k < whole.len() implies (
                        #[trigger] whole[k]).timestamp <= (if replace {
                            candidate@
                        } else {
                            best->Some_0@
                        }).timestamp by {
                            if k < prefix.len() {
                                assert(whole[k] == prefix[k]);
                            } else {
                                assert(whole[k] == here[k - prefix.len()]);
                            }
                        }
                    }
                    if replace {
                        best = Some(candidate);
                    }
                },
                None => {
                    proof {
                        assert(here == Seq::<RecordView>::empty());
                        assert(whole =~= prefix);
                    }
                },
            }
            i = i + 1;
        }
        proof {
            assert(cs.take(self.chunks@.len() as int) =~= cs);
        }
        Ok(best)
    }
}

} // verus!

verus! {

/// Membership in a pushed sequence.
pub proof fn lemma_contains_push<T>(s: Seq<T>, x: T, y: T)
    ensures
        s.push(x).contains(y) == (s.contains(y) || y == x),
{
    if s.contains(y) {
        let j = choose|j: int| 0 <= j < s.len() && s[j] == y;
        assert(s.push(x)[j] == y);
    }
    if y == x {
        assert(s.push(x)[s.len() as int] == y);
    }
    if s.push(x).contains(y) {
        let j = choose|j: int| 0 <= j < s.push(x).len() && s.push(x)[j] == y;
        if j < s.len() {
            assert(s[j] == y);
        }
    }
}

/// Extending the chunk prefix extends metric presence.
proof fn lemma_chunks_has_metric_snoc(cs: Seq<ChunkView>, k: int, m: Seq<char>)
    requires
        0 <= k < cs.len(),
    ensures
        chunks_has_metric(cs.take(k + 1), m) == (chunks_has_metric(cs.take(k), m) || series_has(
            cs[k].series,
            m,
        )),
    decreases k,
{
    if k == 0 {
        assert(cs.take(1) =~= seq![cs[0]]);
        assert(cs.take(1).drop_first() =~= Seq::<ChunkView>::empty());
        assert(cs.take(0) =~= Seq::<ChunkView>::empty());
    } else {
        lemma_chunks_has_metric_snoc(cs.drop_first(), k - 1, m);
        assert(cs.take(k + 1).drop_first() =~= cs.drop_first().take(k));
        assert(cs.take(k).drop_first() =~= cs.drop_first().take(k - 1));
        assert(cs.take(k + 1)[0] == cs[0]);
        assert(cs.take(k)[0] == cs[0]);
        assert(cs.drop_first()[k - 1] == cs[k]);
    }
}

/// Extending the chunk prefix extends secondary-index presence.
proof fn lemma_chunks_has_rm_snoc(cs: Seq<ChunkView>, k: int, rt: Seq<char>, m: Seq<char>)
    requires
        0 <= k < cs.len(),
    ensures
        chunks_has_rm(cs.take(k + 1), rt, m) == (chunks_has_rm(cs.take(k), rt, m) || rm_has(
            cs[k].resource_metrics,
            rt,
            m,
        )),
    decreases k,
{
    if k == 0 {
        assert(cs.take(1) =~= seq![cs[0]]);
        assert(cs.take(1).drop_first() =~= Seq::<ChunkView>::empty());
        assert(cs.take(0) =~= Seq::<ChunkView>::empty());
    } else {
        lemma_chunks_has_rm_snoc(cs.drop_first(), k - 1, rt, m);
        assert(cs.take(k + 1).drop_first() =~= cs.drop_first().take(k));
        assert(cs.take(k).drop_first() =~= cs.drop_first().take(k - 1));
        assert(cs.take(k + 1)[0] == cs[0]);
        assert(cs.take(k)[0] == cs[0]);
        assert(cs.drop_first()[k - 1] == cs[k]);
    }
}

impl StorageEngine {
    /// Every metric name that begins with `prefix`, over all chunks, each
    /// name listed once.
    pub fn get_matching_metrics(&self, prefix: &str) -> (r: Result<Vec<String>, StorageError>)
        requires
            self.wf(),
        ensures
            r is Ok,
            ({
                let v = r->Ok_0;
                &&& forall|j: int, l: int|
                    0 <= j < l < v.deep_view().len() ==> v.deep_view()[j] != v.deep_view()[l]
                &&& forall|m: Seq<char>|
                    #[trigger] v.deep_view().contains(m) == (chunks_has_metric(
                        self.chunk_views(),
                        m,
                    ) && is_prefix(prefix@, m))
            }),
    {
        let ghost cs = self.chunk_views();
        let ghost p = prefix@;
        let mut out: Vec<String> = Vec::new();
        let mut i: usize = 0;
        proof {
            assert(cs.take(0) =~= Seq::<ChunkView>::empty());
            assert forall|m: Seq<char>| !(#[trigger] out.deep_view().contains(m)) by {
                assert(out.deep_view().len() == 0);
            }
        }
        while i < self.chunks.len()
            invariant
                i <= self.chunks@.len(),
                self.wf(),
                cs == self.chunk_views(),
                p == prefix@,
                forall|j: int, l: int|
                    0 <= j < l < out.deep_view().len() ==> out.deep_view()[j] != out.deep_view()[l],
                forall|m: Seq<char>|
                    #[trigger] out.deep_view().contains(m) == (chunks_has_metric(
                        cs.take(i as int),
                        m,
                    ) && is_prefix(p, m)),
            decreases self.chunks@.len() - i,
        {
            let c = &self.chunks[i];
            proof {
                assert(c.deep_view() == cs[i as int]);
            }
            let names = c.get_metrics_list();
            let ghost ns = names.deep_view();
            let mut j: usize = 0;
            proof {
                assert(ns.take(0) =~= Seq::<Seq<char>>::empty());
            }
            while j < names.len()
                invariant
                    j <= names@.len(),
                    ns == names.deep_view(),
                    p == prefix@,
                    cs == self.chunk_views(),
                    i < cs.len(),
                    forall|a: int, l: int|
                        0 <= a < l < out.deep_view().len() ==> out.deep_view()[a]
                            != out.deep_view()[l],
                    forall|m: Seq<char>|
                        #[trigger] out.deep_view().contains(m) == ((chunks_has_metric(
                            cs.take(i as int),
                            m,
                        ) || ns.take(j as int).contains(m)) && is_prefix(p, m)),
                decreases names@.len() - j,
            {
                let name = &names[j];
                proof {
                    assert(ns[j as int] == name@);
                    assert(ns.take(j as int + 1) =~= ns.take(j as int).push(name@));
                }
                let matches_prefix = crate::strutil::str_starts_with(name.as_str(), prefix);
                let already = crate::chunk::contains_string(&out, name.as_str());
                if matches_prefix && !already {
                    let ghost prev = out;
                    let cloned = name.clone();
                    out.push(cloned);
                    proof {
                        crate::codec::lemma_deep_view_push(prev, out, cloned);
                        assert forall|m: Seq<char>| #[trigger] out.deep_view().contains(m) == ((
                        chunks_has_metric(cs.take(i as int), m) || ns.take(j as int + 1).contains(
                            m,
                        )) && is_prefix(p, m)) by {
                            lemma_contains_push(prev.deep_view(), name@, m);
                            lemma_contains_push(ns.take(j as int), name@, m);
                        }
                        assert forall|a: int, l: int|
                            0 <= a < l < out.deep_view().len() implies out.deep_view()[a]
                            != out.deep_view()[l] by {
                            if l == out.deep_view().len() - 1 {
                                assert(out.deep_view()[a] == prev.deep_view()[a]);
                                assert(prev.deep_view().contains(prev.deep_view()[a])) by {
                                    assert(prev.deep_view()[a] == prev.deep_view()[a]);
                                }
                            } else {
                                assert(out.deep_view()[a] == prev.deep_view()[a]);
                                assert(out.deep_view()[l] == prev.deep_view()[l]);
                            }
                        }
                    }
                } else {
                    proof {
                        assert forall|m: Seq<char>| #[trigger] out.deep_view().contains(m) == ((
                        chunks_has_metric(cs.take(i as int), m) || ns.take(j as int + 1).contains(
                            m,
                        )) && is_prefix(p, m)) by {
                            lemma_contains_push(ns.take(j as int), name@, m);
                            if m == name@ && is_prefix(p, m) && !matches_prefix {
                            }
                        }
                    }
                }
                j = j + 1;
            }
            proof {
                assert(ns.take(names@.len() as int) =~= ns);
                lemma_chunks_has_metric_snoc(cs, i as int, p);
                crate::chunk::lemma_series_has_iff(cs[i as int].series, p);
                assert forall|m: Seq<char>| #[trigger] out.deep_view().contains(m) == (
                chunks_has_metric(cs.take(i as int + 1), m) && is_prefix(p, m)) by {
                    lemma_chunks_has_metric_snoc(cs, i as int, m);
                    crate::chunk::lemma_series_has_iff(cs[i as int].series, m);
                    if ns.contains(m) {
                        let a = choose|a: int| 0 <= a < ns.len() && ns[a] == m;
                        assert(cs[i as int].series[a].name == m);
                    }
                    if series_has(cs[i as int].series, m) {
                        let a = choose|a: int|
                            0 <= a < cs[i as int].series.len() && (
                            #[trigger] cs[i as int].series[a]).name == m;
                        assert(ns[a] == m);
                        assert(ns.contains(m));
                    }
                }
            }
            i = i + 1;
        }
        proof {
            assert(cs.take(self.chunks@.len() as int) =~= cs);
        }
        Ok(out)
    }

    /// Every metric name the secondary indexes record for `resource_type`,
    /// each listed once.
    pub fn get_metrics_by_resource_type(&self, resource_type: &str) -> (r: Result<
        Vec<String>,
        StorageError,
    >)
        requires
            self.wf(),
        ensures
            r is Ok,
            ({
                let v = r->Ok_0;
                &&& forall|j: int, l: int|
                    0 <= j < l < v.deep_view().len() ==> v.deep_view()[j] != v.deep_view()[l]
                &&& forall|m: Seq<char>|
                    #[trigger] v.deep_view().contains(m) == chunks_has_rm(
                        self.chunk_views(),
                        resource_type@,
                        m,
                    )
            }),
    {
        let ghost cs = self.chunk_views();
        let ghost rt = resource_type@;
        let mut out: Vec<String> = Vec::new();
        let mut i: usize = 0;
        proof {
            assert(cs.take(0) =~= Seq::<ChunkView>::empty());
            assert forall|m: Seq<char>| !(#[trigger] out.deep_view().contains(m)) by {
                assert(out.deep_view().len() == 0);
            }
        }
        while i < self.chunks.len()
            invariant
                i <= self.chunks@.len(),
                self.wf(),
                cs == self.chunk_views(),
                rt == resource_type@,
                forall|j: int, l: int|
                    0 <= j < l < out.deep_view().len() ==> out.deep_view()[j] != out.deep_view()[l],
                forall|m: Seq<char>|
                    #[trigger] out.deep_view().contains(m) == chunks_has_rm(
                        cs.take(i as int),
                        rt,
                        m,
                    ),
            decreases self.chunks@.len() - i,
        {
            let c = &self.chunks[i];
            proof {
                assert(c.deep_view() == cs[i as int]);
            }
            let names = c.metrics_for_resource(resource_type);
            let ghost ns = names.deep_view();
            let mut j: usize = 0;
            proof {
                assert(ns.take(0) =~= Seq::<Seq<char>>::empty());
            }
            while j < names.len()
                invariant
                    j <= names@.len(),
                    ns == names.deep_view(),
                    rt == resource_type@,
                    cs == self.chunk_views(),
                    i < cs.len(),
                    forall|m2: Seq<char>| #[trigger] ns.contains(m2) == rm_has(
                        cs[i as int].resource_metrics,
                        rt,
                        m2,
                    ),
                    forall|a: int, l: int|
                        0 <= a < l < out.deep_view().len() ==> out.deep_view()[a]
                            != out.deep_view()[l],
                    forall|m: Seq<char>|
                        #[trigger] out.deep_view().contains(m) == (chunks_has_rm(
                            cs.take(i as int),
                            rt,
                            m,
                        ) || ns.take(j as int).contains(m)),
                decreases names@.len() - j,
            {
                let name = &names[j];
                proof {
                    assert(ns[j as int] == name@);
                    assert(ns.take(j as int + 1) =~= ns.take(j as int).push(name@));
                }
                let already = crate::chunk::contains_string(&out, name.as_str());
                if !already {
                    let ghost prev = out;
                    let cloned = name.clone();
                    out.push(cloned);
                    proof {
                        crate::codec::lemma_deep_view_push(prev, out, cloned);
                        assert forall|m: Seq<char>| #[trigger] out.deep_view().contains(m) == ((
                        chunks_has_rm(cs.take(i as int), rt, m) || ns.take(j as int + 1).contains(
                            m,
                        ))) by {
                            lemma_contains_push(prev.deep_view(), name@, m);
                            lemma_contains_push(ns.take(j as int), name@, m);
                            if m == name@ {
                                assert(ns.contains(m)) by {
                                    assert(ns[j as int] == m);
                                }
                            }
                        }
                        assert forall|a: int, l: int|
                            0 <= a < l < out.deep_view().len() implies out.deep_view()[a]
                            != out.deep_view()[l] by {
                            if l == out.deep_view().len() - 1 {
                                assert(out.deep_view()[a] == prev.deep_view()[a]);
                                assert(prev.deep_view().contains(prev.deep_view()[a])) by {
                                    assert(prev.deep_view()[a] == prev.deep_view()[a]);
                                }
                            } else {
                                assert(out.deep_view()[a] == prev.deep_view()[a]);
                                assert(out.deep_view()[l] == prev.deep_view()[l]);
                            }
                        }
                    }
                } else {
                    proof {
                        assert forall|m: Seq<char>| #[trigger] out.deep_view().contains(m) == ((
                        chunks_has_rm(cs.take(i as int), rt, m) || ns.take(j as int + 1).contains(
                            m,
                        ))) by {
                            lemma_contains_push(ns.take(j as int), name@, m);
                            if m == name@ {
                                assert(ns.contains(m)) by {
                                    assert(ns[j as int] == m);
                                }
                            }
                        }
                    }
                }
                j = j + 1;
            }
            proof {
                assert(ns.take(names@.len() as int) =~= ns);
                assert forall|m: Seq<char>| #[trigger] out.deep_view().contains(m) == chunks_has_rm(
                    cs.take(i as int + 1),
                    rt,
                    m,
                ) by {
                    lemma_chunks_has_rm_snoc(cs, i as int, rt, m);
                }
            }
            i = i + 1;
        }
        proof {
            assert(cs.take(self.chunks@.len() as int) =~= cs);
        }
        Ok(out)
    }
}

} // verus!

verus! {

/// The chunks whose windows start at or after the cutoff, in order.
pub open spec fn retain_chunks(cs: Seq<ChunkView>, cutoff: int) -> Seq<ChunkView>
    decreases cs.len(),
{
    if cs.len() == 0 {
        Seq::empty()
    } else if cs[0].start_time >= cutoff {
        seq![cs[0]] + retain_chunks(cs.drop_first(), cutoff)
    } else {
        retain_chunks(cs.drop_first(), cutoff)
    }
}

/// The ranges of several metrics, concatenated.
pub open spec fn concat_ranges(cs: Seq<ChunkView>, ms: Seq<Seq<char>>, s: int, e: int) -> Seq<
    RecordView,
>
    decreases ms.len(),
{
    if ms.len() == 0 {
        Seq::empty()
    } else {
        chunks_range(cs, s, e, ms[0]) + concat_ranges(cs, ms.drop_first(), s, e)
    }
}

/// Extending the metric list extends the concatenated result.
proof fn lemma_concat_ranges_snoc(cs: Seq<ChunkView>, ms: Seq<Seq<char>>, k: int, s: int, e: int)
    requires
        0 <= k < ms.len(),
    ensures
        concat_ranges(cs, ms.take(k + 1), s, e) == concat_ranges(cs, ms.take(k), s, e)
            + chunks_range(cs, s, e, ms[k]),
    decreases k,
{
    if k == 0 {
        assert(ms.take(1) =~= seq![ms[0]]);
        assert(ms.take(1).drop_first() =~= Seq::<Seq<char>>::empty());
        assert(ms.take(0) =~= Seq::<Seq<char>>::empty());
        assert(concat_ranges(cs, ms.take(1), s, e) =~= concat_ranges(cs, ms.take(0), s, e)
            + chunks_range(cs, s, e, ms[0]));
    } else {
        lemma_concat_ranges_snoc(cs, ms.drop_first(), k - 1, s, e);
        assert(ms.take(k + 1).drop_first() =~= ms.drop_first().take(k));
        assert(ms.take(k).drop_first() =~= ms.drop_first().take(k - 1));
        assert(ms.take(k + 1)[0] == ms[0]);
        assert(ms.take(k)[0] == ms[0]);
        assert(ms.drop_first()[k - 1] == ms[k]);
        assert(concat_ranges(cs, ms.take(k), s, e) + chunks_range(cs, s, e, ms[k]) =~= chunks_range(
            cs,
            s,
            e,
            ms[0],
        ) + (concat_ranges(cs, ms.drop_first().take(k - 1), s, e) + chunks_range(
            cs,
            s,
            e,
            ms.drop_first()[k - 1],
        )));
    }
}

/// The window starts of the dirty chunks, in map order.
pub open spec fn dirty_starts(cs: Seq<ChunkView>) -> Seq<int>
    decreases cs.len(),
{
    if cs.len() == 0 {
        Seq::empty()
    } else if cs[0].dirty {
        seq![cs[0].start_time] + dirty_starts(cs.drop_first())
    } else {
        dirty_starts(cs.drop_first())
    }
}

/// Extending the chunk prefix extends the dirty-start list.
proof fn lemma_dirty_starts_snoc(cs: Seq<ChunkView>, k: int)
    requires
        0 <= k < cs.len(),
    ensures
        dirty_starts(cs.take(k + 1)) == dirty_starts(cs.take(k)) + (if cs[k].dirty {
            seq![cs[k].start_time]
        } else {
            Seq::<int>::empty()
        }),
    decreases k,
{
    if k == 0 {
        assert(cs.take(1) =~= seq![cs[0]]);
        assert(cs.take(1).drop_first() =~= Seq::<ChunkView>::empty());
        assert(cs.take(0) =~= Seq::<ChunkView>::empty());
        assert(dirty_starts(cs.take(1)) =~= dirty_starts(cs.take(0)) + (if cs[0].dirty {
            seq![cs[0].start_time]
        } else {
            Seq::<int>::empty()
        }));
    } else {
        lemma_dirty_starts_snoc(cs.drop_first(), k - 1);
        assert(cs.take(k + 1).drop_first() =~= cs.drop_first().take(k));
        assert(cs.take(k).drop_first() =~= cs.drop_first().take(k - 1));
        assert(cs.take(k + 1)[0] == cs[0]);
        assert(cs.take(k)[0] == cs[0]);
        assert(cs.drop_first()[k - 1] == cs[k]);
        assert(dirty_starts(cs.take(k)) + (if cs[k].dirty {
            seq![cs[k].start_time]
        } else {
            Seq::<int>::empty()
        }) =~= dirty_starts(cs.take(k + 1)));
    }
}

impl StorageEngine {
    /// The window starts of the chunks mutated since their last flush, in
    /// ascending order.
    pub fn dirty_chunk_ids(&self) -> (r: Vec<i64>)
        requires
            self.wf(),
        ensures
            Seq::new(r@.len(), |j: int| r@[j] as int) == dirty_starts(self.chunk_views()),
    {
        let ghost cs = self.chunk_views();
        let mut r: Vec<i64> = Vec::new();
        let mut i: usize = 0;
        proof {
            assert(cs.take(0) =~= Seq::<ChunkView>::empty());
            assert(Seq::new(r@.len(), |j: int| r@[j] as int) =~= dirty_starts(cs.take(0)));
        }
        while i < self.chunks.len()
            invariant
                i <= self.chunks@.len(),
                cs == self.chunk_views(),
                Seq::new(r@.len(), |j: int| r@[j] as int) == dirty_starts(cs.take(i as int)),
            decreases self.chunks@.len() - i,
        {
            proof {
                lemma_dirty_starts_snoc(cs, i as int);
                assert(self.chunks@[i as int].deep_view() == cs[i as int]);
            }
            if self.chunks[i].is_dirty() {
                r.push(self.chunks[i].start_time);
                proof {
                    assert(Seq::new(r@.len(), |j: int| r@[j] as int) =~= dirty_starts(
                        cs.take(i as int + 1),
                    ));
                }
            } else {
                proof {
                    assert(Seq::new(r@.len(), |j: int| r@[j] as int) =~= dirty_starts(
                        cs.take(i as int + 1),
                    ));
                }
            }
            i = i + 1;
        }
        proof {
            assert(cs.take(self.chunks@.len() as int) =~= cs);
        }
        r
    }

    /// True when a chunk with this window start exists and is over the size
    /// thresholds.
    pub fn chunk_is_full(&self, chunk_id: i64) -> (r: bool)
        requires
            self.wf(),
        ensures
            r ==> chunks_has(self.chunk_views(), chunk_id as int),
            !r ==> (forall|i: int|
                0 <= i < self.chunk_views().len() && (#[trigger] self.chunk_views()[i]).start_time
                    == chunk_id as int ==> !(self.chunk_views()[i].total() > 10_000
                    || crate::chunk::cap_usize(
                    crate::chunk::series_size(self.chunk_views()[i].series),
                ) > 1_000_000)),
            r ==> (exists|i: int|
                0 <= i < self.chunk_views().len() && (#[trigger] self.chunk_views()[i]).start_time
                    == chunk_id as int && (self.chunk_views()[i].total() > 10_000
                    || crate::chunk::cap_usize(
                    crate::chunk::series_size(self.chunk_views()[i].series),
                ) > 1_000_000)),
    {
        match find_chunk(&self.chunks, chunk_id) {
            Some(i) => {
                let full = self.chunks[i].is_full();
                proof {
                    lemma_chunks_has_iff(self.chunk_views(), chunk_id as int);
                    if !full {
                        assert forall|a: int|
                            0 <= a < self.chunk_views().len() && (
                            #[trigger] self.chunk_views()[a]).start_time == chunk_id as int implies
                            !(self.chunk_views()[a].total() > 10_000 || crate::chunk::cap_usize(
                            crate::chunk::series_size(self.chunk_views()[a].series),
                        ) > 1_000_000) by {
                            assert(a == i as int);
                        }
                    }
                }
                full
            },
            None => {
                proof {
                    lemma_chunks_has_iff(self.chunk_views(), chunk_id as int);
                }
                false
            },
        }
    }

    /// A deep copy of the chunk with this window start, for flushing outside
    /// any lock.
    pub fn clone_chunk(&self, chunk_id: i64) -> (r: Option<TimeChunk>)
        requires
            self.wf(),
        ensures
            match r {
                Some(c) => exists|i: int|
                    0 <= i < self.chunk_views().len() && (#[trigger] self.chunk_views()[i]).start_time
                        == chunk_id as int && c.deep_view() == self.chunk_views()[i],
                None => !chunks_has(self.chunk_views(), chunk_id as int),
            },
    {
        match find_chunk(&self.chunks, chunk_id) {
            Some(i) => {
                let c = crate::chunk::clone_chunk_data(&self.chunks[i]);
                proof {
                    assert(self.chunk_views()[i as int].start_time == chunk_id as int && c.deep_view()
                        == self.chunk_views()[i as int]);
                }
                Some(c)
            },
            None => None,
        }
    }

    /// Clears the dirty mark of the chunk with this window start, after a
    /// successful flush.
    pub fn mark_chunk_clean(&mut self, chunk_id: i64)
        requires
            old(self).wf(),
        ensures
            final(self).wf(),
            final(self).chunk_duration_secs == old(self).chunk_duration_secs,
            final(self).persistence_enabled == old(self).persistence_enabled,
            final(self).debug == old(self).debug,
            final(self).chunk_views().len() == old(self).chunk_views().len(),
            forall|i: int|
                0 <= i < old(self).chunk_views().len() ==> #[trigger] final(self).chunk_views()[i]
                    == (if old(self).chunk_views()[i].start_time == chunk_id as int {
                    ChunkView { dirty: false, ..old(self).chunk_views()[i] }
                } else {
                    old(self).chunk_views()[i]
                }),
    {
        let ghost oldcs = self.chunk_views();
        match find_chunk(&self.chunks, chunk_id) {
            Some(i) => {
                let mut c = self.chunks.remove(i);
                c.mark_clean();
                let ghost cv = c.deep_view();
                self.chunks.insert(i, c);
                proof {
                    assert(self.chunk_views() =~= oldcs.update(i as int, cv));
                    assert forall|a: int| 0 <= a < oldcs.len() implies
                        #[trigger] self.chunk_views()[a] == (if oldcs[a].start_time
                        == chunk_id as int {
                        ChunkView { dirty: false, ..oldcs[a] }
                    } else {
                        oldcs[a]
                    }) by {
                        if a == i as int {
                            assert(cv =~= (ChunkView { dirty: false, ..oldcs[a] }));
                        } else {
                            assert(oldcs[a].start_time != chunk_id as int);
                        }
                    }
                }
            },
            None => {
                proof {
                    lemma_chunks_has_iff(oldcs, chunk_id as int);
                }
            },
        }
    }

    /// Drops every chunk whose window starts before the cutoff. The flush
    /// that precedes retention runs at the caller, where the files live.
    pub fn cleanup_old_chunks(&mut self, cutoff: i64) -> (r: Result<(), StorageError>)
        requires
            old(self).wf(),
        ensures
            r is Ok,
            final(self).wf(),
            final(self).chunk_duration_secs == old(self).chunk_duration_secs,
            final(self).persistence_enabled == old(self).persistence_enabled,
            final(self).debug == old(self).debug,
            final(self).chunk_views() == retain_chunks(old(self).chunk_views(), cutoff as int),
    {
        let ghost oldcs = self.chunk_views();
        let total = self.chunks.len();
        let mut kept: Vec<TimeChunk> = Vec::new();
        proof {
            assert(oldcs.skip(0) =~= oldcs);
            assert(kept.deep_view() + retain_chunks(oldcs.skip(0), cutoff as int) =~= retain_chunks(
                oldcs,
                cutoff as int,
            ));
        }
        let mut p: usize = 0;
        while self.chunks.len() > 0
            invariant
                p <= total,
                total as int == oldcs.len(),
                self.chunk_duration_secs == old(self).chunk_duration_secs,
                self.persistence_enabled == old(self).persistence_enabled,
                self.debug == old(self).debug,
                old(self).wf(),
                oldcs == old(self).chunk_views(),
                p as int + self.chunks@.len() == oldcs.len(),
                self.chunks.deep_view() == oldcs.skip(p as int),
                retain_chunks(oldcs, cutoff as int) == kept.deep_view() + retain_chunks(
                    oldcs.skip(p as int),
                    cutoff as int,
                ),
            decreases self.chunks@.len(),
        {
            let ghost preq = self.chunks@;
            let ghost predeep = self.chunks.deep_view();
            let c = self.chunks.remove(0);
            let ghost cv = c.deep_view();
            proof {
                preq.remove_ensures(0);
                assert(cv == oldcs.skip(p as int)[0]);
                assert forall|j: int| 0 <= j < self.chunks.deep_view().len() implies
                    #[trigger] self.chunks.deep_view()[j] == oldcs.skip(p as int + 1)[j] by {
                    assert(self.chunks@[j] == preq[j + 1]);
                    assert(predeep[j + 1] == preq[j + 1].deep_view());
                    assert(predeep[j + 1] == oldcs.skip(p as int)[j + 1]);
                }
                assert(self.chunks.deep_view() =~= oldcs.skip(p as int + 1));
                assert(oldcs.skip(p as int).drop_first() =~= oldcs.skip(p as int + 1));
            }
            if c.start_time >= cutoff {
                let ghost prev = kept;
                kept.push(c);
                proof {
                    crate::codec::lemma_deep_view_push(prev, kept, c);
                    assert(kept.deep_view() + retain_chunks(oldcs.skip(p as int + 1), cutoff as int)
                        =~= prev.deep_view() + (seq![cv] + retain_chunks(
                        oldcs.skip(p as int + 1),
                        cutoff as int,
                    )));
                }
            }
            p = p + 1;
        }
        proof {
            assert(oldcs.skip(oldcs.len() as int) =~= Seq::<ChunkView>::empty());
            assert(retain_chunks(Seq::<ChunkView>::empty(), cutoff as int)
                == Seq::<ChunkView>::empty());
            assert(kept.deep_view() + Seq::<ChunkView>::empty() =~= kept.deep_view());
        }
        self.chunks = kept;
        proof {
            assert(engine_chunks_wf(oldcs, old(self).duration()));
            lemma_retain_wf(oldcs, cutoff as int, old(self).duration());
            assert(engine_chunks_wf(self.chunk_views(), self.duration()));
        }
        Ok(())
    }
}

/// Retention keeps the engine invariant: the kept chunks are a subsequence.
proof fn lemma_retain_wf(cs: Seq<ChunkView>, cutoff: int, duration: int)
    requires
        engine_chunks_wf(cs, duration),
        duration >= 1,
    ensures
        engine_chunks_wf(retain_chunks(cs, cutoff), duration),
    decreases cs.len(),
{
    if cs.len() > 0 {
        let d = cs.drop_first();
        assert(forall|i: int| 0 <= i < d.len() ==> d[i] == cs[i + 1]);
        assert(engine_chunks_wf(d, duration));
        lemma_retain_wf(d, cutoff, duration);
        let r = retain_chunks(cs, cutoff);
        let rd = retain_chunks(d, cutoff);
        if cs[0].start_time >= cutoff {
            assert(r == seq![cs[0]] + rd);
            lemma_retain_members(d, cutoff);
            assert forall|i: int, j: int| 0 <= i < j < r.len() implies (
            #[trigger] r[i]).start_time < (#[trigger] r[j]).start_time by {
                if i == 0 {
                    assert(r[j] == rd[j - 1]);
                    let a = choose|a: int| 0 <= a < d.len() && d[a] == rd[j - 1];
                    assert(d[a] == cs[a + 1]);
                } else {
                    assert(r[i] == rd[i - 1] && r[j] == rd[j - 1]);
                }
            }
            assert forall|i: int| 0 <= i < r.len() implies (#[trigger] r[i]).wf()
                && r[i].in_window() && r[i].compression_state is Uncompressed && r[i].start_time
                == spec_chunk_id(r[i].start_time, duration) && r[i].end_time == r[i].start_time
                + duration by {
                if i > 0 {
                    assert(r[i] == rd[i - 1]);
                }
            }
        }
    }
}

/// Every kept chunk is one of the originals.
proof fn lemma_retain_members(cs: Seq<ChunkView>, cutoff: int)
    ensures
        forall|j: int|
            0 <= j < retain_chunks(cs, cutoff).len() ==> cs.contains(
                #[trigger] retain_chunks(cs, cutoff)[j],
            ),
        retain_chunks(cs, cutoff).len() <= cs.len(),
    decreases cs.len(),
{
    if cs.len() > 0 {
        let d = cs.drop_first();
        lemma_retain_members(d, cutoff);
        let r = retain_chunks(cs, cutoff);
        let rd = retain_chunks(d, cutoff);
        assert forall|j: int| 0 <= j < r.len() implies cs.contains(#[trigger] r[j]) by {
            let base: int = if cs[0].start_time >= cutoff {
                1
            } else {
                0
            };
            if base == 1 && j == 0 {
                assert(cs[0] == r[0]);
            } else {
                assert(r[j] == rd[j - base]);
                let a = choose|a: int| 0 <= a < d.len() && d[a] == rd[j - base];
                assert(cs[a + 1] == r[j]);
            }
        }
    }
}

} // verus!

verus! {

/// Alignment is monotone in the timestamp.
pub proof fn lemma_align_monotone(a: int, b: int, d: int)
    requires
        d >= 1,
        a <= b,
    ensures
        spec_chunk_id(a, d) <= spec_chunk_id(b, d),
{
    vstd::arithmetic::div_mod::lemma_div_is_ordered(a, b, d);
    assert((a / d) * d <= (b / d) * d) by (nonlinear_arith)
        requires
            a / d <= b / d,
            d >= 1,
    ;
}

/// Every record a range query returns has a timestamp in the range.
pub proof fn lemma_chunks_range_bounds(cs: Seq<ChunkView>, s: int, e: int, m: Seq<char>)
    ensures
        forall|k: int|
            0 <= k < chunks_range(cs, s, e, m).len() ==> s <= (#[trigger] chunks_range(
                cs,
                s,
                e,
                m,
            )[k]).timestamp < e,
    decreases cs.len(),
{
    if cs.len() > 0 {
        let d = cs.drop_first();
        lemma_chunks_range_bounds(d, s, e, m);
        lemma_range_filter_bounds(series_lookup(cs[0].series, m), s, e);
        assert forall|k: int| 0 <= k < chunks_range(cs, s, e, m).len() implies s <= (
        #[trigger] chunks_range(cs, s, e, m)[k]).timestamp < e by {
            let head = range_filter(series_lookup(cs[0].series, m), s, e);
            if k < head.len() {
                assert(chunks_range(cs, s, e, m)[k] == head[k]);
            } else {
                assert(chunks_range(cs, s, e, m)[k] == chunks_range(d, s, e, m)[k - head.len()]);
            }
        }
    }
}

/// Every filtered record satisfies the range bound.
pub proof fn lemma_range_filter_bounds(rs: Seq<RecordView>, s: int, e: int)
    ensures
        forall|k: int|
            0 <= k < range_filter(rs, s, e).len() ==> s <= (#[trigger] range_filter(
                rs,
                s,
                e,
            )[k]).timestamp < e,
    decreases rs.len(),
{
    if rs.len() > 0 {
        lemma_range_filter_bounds(rs.drop_last(), s, e);
        let f = range_filter(rs, s, e);
        let fd = range_filter(rs.drop_last(), s, e);
        assert forall|k: int| 0 <= k < f.len() implies s <= (#[trigger] f[k]).timestamp < e by {
            if k < fd.len() {
                assert(f[k] == fd[k]);
            } else {
                assert(f[k] == rs.last());
            }
        }
    }
}

} // verus!

verus! {

/// A metric present in some well-formed chunk has at least one record.
pub proof fn lemma_has_metric_records_nonempty(cs: Seq<ChunkView>, m: Seq<char>)
    requires
        forall|i: int| 0 <= i < cs.len() ==> (#[trigger] cs[i]).wf(),
        chunks_has_metric(cs, m),
    ensures
        chunks_records(cs, m).len() > 0,
    decreases cs.len(),
{
    let d = cs.drop_first();
    assert(forall|i: int| 0 <= i < d.len() ==> d[i] == cs[i + 1]);
    if series_has(cs[0].series, m) {
        crate::chunk::lemma_lookup_props(cs[0].series, m);
    } else {
        lemma_has_metric_records_nonempty(d, m);
    }
}

} // verus!

verus! {

/// The records of `rs` that belong to window `id` and metric `m` for
/// windows of `d` seconds, in batch order.
pub open spec fn batch_placed(rs: Seq<RecordView>, d: int, id: int, m: Seq<char>) -> Seq<
    RecordView,
>
    decreases rs.len(),
{
    if rs.len() == 0 {
        Seq::empty()
    } else {
        let rest = batch_placed(rs.drop_last(), d, id, m);
        if spec_chunk_id(rs.last().timestamp, d) == id && rs.last().metric_name == m {
            rest.push(rs.last())
        } else {
            rest
        }
    }
}

/// Some record of `rs` belongs to window `id`.
pub open spec fn batch_hits(rs: Seq<RecordView>, d: int, id: int) -> bool {
    exists|k: int| 0 <= k < rs.len() && spec_chunk_id((#[trigger] rs[k]).timestamp, d) == id
}

} // verus!

verus! {

/// Every record a multi-metric query returns has a timestamp in the range.
pub proof fn lemma_raw_results_bounds(cs: Seq<ChunkView>, ms: Seq<Seq<char>>, s: int, e: int)
    ensures
        forall|k: int|
            0 <= k < crate::query::raw_results(cs, ms, s, e).len() ==> s <= (
            #[trigger] crate::query::raw_results(cs, ms, s, e)[k]).timestamp < e,
    decreases ms.len(),
{
    if ms.len() > 0 {
        lemma_raw_results_bounds(cs, ms.drop_first(), s, e);
        lemma_chunks_range_bounds(cs, s, e, ms[0]);
        assert forall|k: int|
            0 <= k < crate::query::raw_results(cs, ms, s, e).len() implies s <= (
        #[trigger] crate::query::raw_results(cs, ms, s, e)[k]).timestamp < e by {
            let head = chunks_range(cs, s, e, ms[0]);
            if k < head.len() {
                assert(crate::query::raw_results(cs, ms, s, e)[k] == head[k]);
            } else {
                assert(crate::query::raw_results(cs, ms, s, e)[k] == crate::query::raw_results(
                    cs,
                    ms.drop_first(),
                    s,
                    e,
                )[k - head.len()]);
            }
        }
    }
}

} // verus!
