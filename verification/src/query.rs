//! The read-side facade: range queries over several metrics, optional
//! aggregation grouping, prefix and resource-type lookup, and time-chunked
//! grouping. Numeric folds over the opaque 64-bit values happen at the
//! caller; this module delivers each group's members exactly.

use vstd::prelude::*;
use crate::record::{Record, RecordView};
use crate::storage::{
    chunks_has_metric, chunks_has_rm, chunks_range, chunks_records, is_prefix, spec_chunk_id,
    StorageEngine,
};

verus! {

/// A range query over one or more metrics, optionally aggregated, optionally
/// per interval bucket.
#[derive(Debug)]
pub struct TimeSeriesQuery {
    pub start_time: i64,
    pub end_time: i64,
    pub metrics: Vec<String>,
    pub aggregation: Option<Aggregation>,
    /// Bucket length in seconds for per-interval aggregation.
    pub interval: Option<u64>,
}

/// How values of a group are folded at the caller.
#[derive(Clone, Copy, Debug, PartialEq, Eq, Structural)]
pub enum Aggregation {
    Mean,
    Max,
    Min,
    Count,
    Sum,
}

/// Errors surfaced by queries.
#[derive(Debug)]
pub enum QueryError {
    StorageError(String),
    InvalidTimeRange(String),
    MetricNotFound(String),
}

/// What the metric and secondary indexes currently hold, for inspection.
#[derive(Debug)]
pub struct DebugMetricsInfo {
    pub metrics: Vec<String>,
    pub resource_metrics: Vec<(String, Vec<String>)>,
    pub storage_info: String,
}

/// A query-time bucket of records; its length is a query parameter,
/// independent of the storage chunk length.
#[derive(Debug)]
pub struct TimeChunk {
    pub start_time: i64,
    pub end_time: i64,
    pub records: Vec<Record>,
}

/// One aggregation group: the records' values, with the identity of the
/// group's first record. The caller folds `values` into one number.
#[derive(Debug)]
pub struct AggregateGroup {
    /// Timestamp of the group's first record.
    pub timestamp: i64,
    pub metric_name: String,
    pub resource_type: String,
    pub context: Vec<(String, String)>,
    /// The grouped values, in stored order.
    pub values: Vec<u64>,
    /// How many records the group holds; the length of `values`.
    pub count: usize,
}

/// A query result: raw records, or one group per aggregation bucket.
#[derive(Debug)]
pub enum QueryOutput {
    Raw(Vec<Record>),
    Aggregated(Vec<AggregateGroup>),
}

/// The records of `rs` whose timestamps align to `key` for buckets of
/// `iv` seconds.
pub open spec fn by_interval(rs: Seq<RecordView>, iv: int, key: int) -> Seq<RecordView>
    decreases rs.len(),
{
    if rs.len() == 0 {
        Seq::empty()
    } else {
        let rest = by_interval(rs.drop_last(), iv, key);
        if spec_chunk_id(rs.last().timestamp, iv) == key {
            rest.push(rs.last())
        } else {
            rest
        }
    }
}

/// The raw results a query's metric list produces, in metric order.
pub open spec fn raw_results(
    cs: Seq<crate::chunk::ChunkView>,
    ms: Seq<Seq<char>>,
    s: int,
    e: int,
) -> Seq<RecordView>
    decreases ms.len(),
{
    if ms.len() == 0 {
        Seq::empty()
    } else {
        chunks_range(cs, s, e, ms[0]) + raw_results(cs, ms.drop_first(), s, e)
    }
}

/// The read-side facade over the storage engine it owns.
pub struct QueryEngine {
    pub storage: StorageEngine,
}

impl QueryEngine {
    /// A facade over the given engine.
    pub fn new(storage: StorageEngine) -> (r: Self)
        ensures
            r.storage == storage,
    {
        QueryEngine { storage }
    }

    /// The engine underneath, for persistence-side work.
    pub fn storage(&self) -> (r: &StorageEngine)
        ensures
            r == self.storage,
    {
        &self.storage
    }

    /// The engine underneath, for writes driven from outside.
    pub fn storage_mut(&mut self) -> (r: &mut StorageEngine)
        ensures
            *r == old(self).storage,
            final(self).storage == *final(r),
    {
        &mut self.storage
    }

    /// Stores one record.
    pub fn store_record(&mut self, record: Record) -> (r: Result<(), QueryError>)
        requires
            old(self).storage.wf(),
            spec_chunk_id(record@.timestamp, old(self).storage.duration()) >= i64::MIN,
            spec_chunk_id(record@.timestamp, old(self).storage.duration()) + old(
                self,
            ).storage.duration() <= i64::MAX,
        ensures
            final(self).storage.wf(),
            r is Ok,
            ({
                let cid = spec_chunk_id(record@.timestamp, old(self).storage.duration());
                &&& crate::storage::chunks_lookup(
                    final(self).storage.chunk_views(),
                    cid,
                    record@.metric_name,
                ) == crate::storage::chunks_lookup(
                    old(self).storage.chunk_views(),
                    cid,
                    record@.metric_name,
                ).push(record@)
                &&& forall|id: int, m: Seq<char>|
                    !(id == cid && m == record@.metric_name) ==> #[trigger] crate::storage::chunks_lookup(
                        final(self).storage.chunk_views(),
                        id,
                        m,
                    ) == crate::storage::chunks_lookup(old(self).storage.chunk_views(), id, m)
                &&& forall|id: int|
                    #[trigger] crate::storage::chunks_has(final(self).storage.chunk_views(), id)
                        == (crate::storage::chunks_has(old(self).storage.chunk_views(), id) || id
                        == cid)
            }),
            final(self).storage.chunk_duration_secs == old(self).storage.chunk_duration_secs,
    {
        match self.storage.insert(record) {
            Ok(()) => Ok(()),
            Err(_) => Err(QueryError::StorageError("insert failed".to_owned())),
        }
    }

    /// Stores a batch, record by record: each record is appended to its
    /// aligned window's series, windows are created on demand, and nothing
    /// else changes. The caller writes the whole batch to the log first, in
    /// one buffer.
    pub fn store_records(&mut self, records: Vec<Record>) -> (r: Result<(), QueryError>)
        requires
            old(self).storage.wf(),
            forall|k: int|
                0 <= k < records.deep_view().len() ==> spec_chunk_id(
                    (#[trigger] records.deep_view()[k]).timestamp,
                    old(self).storage.duration(),
                ) >= i64::MIN && spec_chunk_id(
                    records.deep_view()[k].timestamp,
                    old(self).storage.duration(),
                ) + old(self).storage.duration() <= i64::MAX,
        ensures
            final(self).storage.wf(),
            r is Ok,
            final(self).storage.chunk_duration_secs == old(self).storage.chunk_duration_secs,
            forall|id: int, m: Seq<char>|
                #[trigger] crate::storage::chunks_lookup(
                    final(self).storage.chunk_views(),
                    id,
                    m,
                ) == crate::storage::chunks_lookup(old(self).storage.chunk_views(), id, m)
                    + crate::storage::batch_placed(
                    records.deep_view(),
                    old(self).storage.duration(),
                    id,
                    m,
                ),
            forall|id: int|
                #[trigger] crate::storage::chunks_has(final(self).storage.chunk_views(), id) == (
                crate::storage::chunks_has(old(self).storage.chunk_views(), id)
                    || crate::storage::batch_hits(
                    records.deep_view(),
                    old(self).storage.duration(),
                    id,
                )),
    {
        let ghost rvs = records.deep_view();
        let ghost d = old(self).storage.duration();
        let ghost oldcs = old(self).storage.chunk_views();
        let mut i: usize = 0;
        let n = records.len();
        let mut records = records;
        proof {
            assert forall|id: int, m: Seq<char>| #[trigger] crate::storage::chunks_lookup(
                self.storage.chunk_views(),
                id,
                m,
            ) == crate::storage::chunks_lookup(oldcs, id, m) + crate::storage::batch_placed(
                rvs.take(0),
                d,
                id,
                m,
            ) by {
                assert(rvs.take(0) =~= Seq::<RecordView>::empty());
                assert(crate::storage::batch_placed(rvs.take(0), d, id, m)
                    == Seq::<RecordView>::empty());
                assert(crate::storage::chunks_lookup(oldcs, id, m) + Seq::<RecordView>::empty()
                    =~= crate::storage::chunks_lookup(oldcs, id, m));
            }
        }
        while i < n
            invariant
                i <= n,
                n as int == rvs.len(),
                records.deep_view() == rvs,
                d == old(self).storage.duration(),
                oldcs == old(self).storage.chunk_views(),
                self.storage.wf(),
                self.storage.chunk_duration_secs == old(self).storage.chunk_duration_secs,
                forall|k: int|
                    0 <= k < rvs.len() ==> spec_chunk_id((#[trigger] rvs[k]).timestamp, d)
                        >= i64::MIN && spec_chunk_id(rvs[k].timestamp, d) + d <= i64::MAX,
                forall|id: int, m: Seq<char>|
                    #[trigger] crate::storage::chunks_lookup(self.storage.chunk_views(), id, m)
                        == crate::storage::chunks_lookup(oldcs, id, m)
                        + crate::storage::batch_placed(rvs.take(i as int), d, id, m),
                forall|id: int|
                    #[trigger] crate::storage::chunks_has(self.storage.chunk_views(), id) == (
                    crate::storage::chunks_has(oldcs, id) || crate::storage::batch_hits(
                        rvs.take(i as int),
                        d,
                        id,
                    )),
            decreases n - i,
        {
            let rec = records[i].clone();
            let ghost rv = rvs[i as int];
            let ghost precs = self.storage.chunk_views();
            proof {
                assert(rec@ == rvs[i as int]);
            }
            match self.storage.insert(rec) {
                Ok(()) => {},
                Err(_) => {
                    proof {
                        assert(false);
                    }
                    return Err(QueryError::StorageError("insert failed".to_owned()));
                },
            }
            proof {
                let cid = spec_chunk_id(rv.timestamp, d);
                assert forall|id: int, m: Seq<char>| #[trigger] crate::storage::chunks_lookup(
                    self.storage.chunk_views(),
                    id,
                    m,
                ) == crate::storage::chunks_lookup(oldcs, id, m) + crate::storage::batch_placed(
                    rvs.take(i as int + 1),
                    d,
                    id,
                    m,
                ) by {
                    assert(rvs.take(i as int + 1).drop_last() =~= rvs.take(i as int));
                    assert(rvs.take(i as int + 1).last() == rv);
                    if id == cid && m == rv.metric_name {
                        assert(crate::storage::chunks_lookup(self.storage.chunk_views(), id, m)
                            == crate::storage::chunks_lookup(precs, id, m).push(rv));
                        assert((crate::storage::chunks_lookup(oldcs, id, m)
                            + crate::storage::batch_placed(rvs.take(i as int), d, id, m)).push(rv)
                            =~= crate::storage::chunks_lookup(oldcs, id, m)
                            + crate::storage::batch_placed(rvs.take(i as int), d, id, m).push(rv));
                    } else {
                        assert(crate::storage::chunks_lookup(self.storage.chunk_views(), id, m)
                            == crate::storage::chunks_lookup(precs, id, m));
                        assert(crate::storage::batch_placed(rvs.take(i as int + 1), d, id, m)
                            == crate::storage::batch_placed(rvs.take(i as int), d, id, m));
                    }
                }
                assert forall|id: int| #[trigger] crate::storage::chunks_has(
                    self.storage.chunk_views(),
                    id,
                ) == (crate::storage::chunks_has(oldcs, id) || crate::storage::batch_hits(
                    rvs.take(i as int + 1),
                    d,
                    id,
                )) by {
                    if crate::storage::batch_hits(rvs.take(i as int), d, id) {
                        let k = choose|k: int|
                            0 <= k < rvs.take(i as int).len() && spec_chunk_id(
                                (#[trigger] rvs.take(i as int)[k]).timestamp,
                                d,
                            ) == id;
                        assert(rvs.take(i as int + 1)[k] == rvs.take(i as int)[k]);
                        assert(crate::storage::batch_hits(rvs.take(i as int + 1), d, id));
                    }
                    if id == cid {
                        assert(rvs.take(i as int + 1)[i as int] == rv);
                        assert(crate::storage::batch_hits(rvs.take(i as int + 1), d, id));
                    }
                    if crate::storage::batch_hits(rvs.take(i as int + 1), d, id) && id != cid
                        && !crate::storage::batch_hits(rvs.take(i as int), d, id) {
                        let k = choose|k: int|
                            0 <= k < rvs.take(i as int + 1).len() && spec_chunk_id(
                                (#[trigger] rvs.take(i as int + 1)[k]).timestamp,
                                d,
                            ) == id;
                        if k < i as int {
                            assert(rvs.take(i as int)[k] == rvs.take(i as int + 1)[k]);
                        }
                        assert(false);
                    }
                }
            }
            i = i + 1;
        }
        proof {
            assert(rvs.take(n as int) =~= rvs);
        }
        Ok(())
    }

    /// The record with the greatest timestamp for a metric; absence is a
    /// normal outcome.
    pub fn query_latest(&self, metric: &str) -> (r: Result<Option<Record>, QueryError>)
        requires
            self.storage.wf(),
        ensures
            r is Ok,
            match r->Ok_0 {
                Some(rec) => chunks_records(self.storage.chunk_views(), metric@).contains(rec@)
                    && rec@.metric_name == metric@ && forall|k: int|
                    0 <= k < chunks_records(self.storage.chunk_views(), metric@).len() ==> (
                    #[trigger] chunks_records(self.storage.chunk_views(), metric@)[k]).timestamp
                        <= rec@.timestamp,
                None => chunks_records(self.storage.chunk_views(), metric@).len() == 0,
            },
    {
        match self.storage.get_latest(metric) {
            Ok(r) => Ok(r),
            Err(_) => Ok(None),
        }
    }

    /// The latest record of the first metric that begins with the prefix;
    /// `None` exactly when no stored metric bears the prefix.
    pub fn get_metrics_by_prefix(&self, prefix: &str) -> (r: Result<Option<Record>, QueryError>)
        requires
            self.storage.wf(),
        ensures
            r is Ok,
            match r->Ok_0 {
                Some(rec) => chunks_has_metric(self.storage.chunk_views(), rec@.metric_name)
                    && is_prefix(prefix@, rec@.metric_name) && chunks_records(
                    self.storage.chunk_views(),
                    rec@.metric_name,
                ).contains(rec@) && forall|k: int|
                    0 <= k < chunks_records(self.storage.chunk_views(), rec@.metric_name).len()
                        ==> (#[trigger] chunks_records(
                        self.storage.chunk_views(),
                        rec@.metric_name,
                    )[k]).timestamp <= rec@.timestamp,
                None => forall|m: Seq<char>|
                    !(#[trigger] chunks_has_metric(self.storage.chunk_views(), m) && is_prefix(
                        prefix@,
                        m,
                    )),
            },
    {
        let metrics = match self.storage.get_matching_metrics(prefix) {
            Ok(ms) => ms,
            Err(_) => {
                proof {
                    assert(false);
                }
                return Ok(None);
            },
        };
        if metrics.len() == 0 {
            proof {
                assert forall|m: Seq<char>|
                    !(#[trigger] chunks_has_metric(self.storage.chunk_views(), m) && is_prefix(
                        prefix@,
                        m,
                    )) by {
                    if chunks_has_metric(self.storage.chunk_views(), m) && is_prefix(prefix@, m) {
                        assert(metrics.deep_view().contains(m));
                    }
                }
            }
            return Ok(None);
        }
        let first = &metrics[0];
        proof {
            assert(metrics.deep_view().contains(first@)) by {
                assert(metrics.deep_view()[0] == first@);
            }
            crate::storage::lemma_has_metric_records_nonempty(
                self.storage.chunk_views(),
                first@,
            );
        }
        match self.storage.get_latest(first.as_str()) {
            Ok(Some(rec)) => {
                proof {
                    assert(rec@.metric_name == first@);
                }
                Ok(Some(rec))
            },
            Ok(None) => {
                proof {
                    assert(false);
                }
                Ok(None)
            },
            Err(_) => {
                proof {
                    assert(false);
                }
                Ok(None)
            },
        }
    }

    /// Every metric the secondary indexes record for a resource type.
    pub fn get_metrics_by_resource_type(&self, resource_type: &str) -> (r: Result<
        Vec<String>,
        QueryError,
    >)
        requires
            self.storage.wf(),
        ensures
            r is Ok,
            forall|m: Seq<char>|
                #[trigger] r->Ok_0.deep_view().contains(m) == chunks_has_rm(
                    self.storage.chunk_views(),
                    resource_type@,
                    m,
                ),
    {
        match self.storage.get_metrics_by_resource_type(resource_type) {
            Ok(ms) => Ok(ms),
            Err(_) => Err(QueryError::StorageError("lookup failed".to_owned())),
        }
    }

    /// The records of every metric recorded for a resource type, inside the
    /// range, concatenated metric by metric.
    pub fn query_by_resource_type(&self, resource_type: &str, start_time: i64, end_time: i64) -> (r:
        Result<Vec<Record>, QueryError>)
        requires
            self.storage.wf(),
        ensures
            match r {
                Ok(v) => start_time < end_time && (exists|ms: Seq<Seq<char>>|
                    (forall|j: int, l: int| 0 <= j < l < ms.len() ==> ms[j] != ms[l]) && (forall|
                        m: Seq<char>,
                    |
                        #[trigger] ms.contains(m) == chunks_has_rm(
                            self.storage.chunk_views(),
                            resource_type@,
                            m,
                        )) && v.deep_view() == raw_results(
                        self.storage.chunk_views(),
                        ms,
                        start_time as int,
                        end_time as int,
                    )),
                Err(e) => e is InvalidTimeRange && start_time >= end_time,
            },
    {
        if start_time >= end_time {
            return Err(
                QueryError::InvalidTimeRange("start time must be before end time".to_owned()),
            );
        }
        let metrics = match self.storage.get_metrics_by_resource_type(resource_type) {
            Ok(ms) => ms,
            Err(_) => {
                return Err(
                    QueryError::InvalidTimeRange("start time must be before end time".to_owned()),
                );
            },
        };
        match self.collect_ranges(&metrics, start_time, end_time) {
            Ok(v) => {
                proof {
                    let ms = metrics.deep_view();
                    assert((forall|j: int, l: int| 0 <= j < l < ms.len() ==> ms[j] != ms[l]) && (
                    forall|m: Seq<char>|
                        #[trigger] ms.contains(m) == chunks_has_rm(
                            self.storage.chunk_views(),
                            resource_type@,
                            m,
                        )) && v.deep_view() == raw_results(
                        self.storage.chunk_views(),
                        ms,
                        start_time as int,
                        end_time as int,
                    ));
                }
                Ok(v)
            },
            Err(e) => Err(e),
        }
    }

    /// The ranges of each listed metric, concatenated in list order.
    fn collect_ranges(&self, metrics: &Vec<String>, start_time: i64, end_time: i64) -> (r: Result<
        Vec<Record>,
        QueryError,
    >)
        requires
            self.storage.wf(),
            start_time < end_time,
        ensures
            r is Ok,
            r->Ok_0.deep_view() == raw_results(
                self.storage.chunk_views(),
                metrics.deep_view(),
                start_time as int,
                end_time as int,
            ),
    {
        let ghost ms = metrics.deep_view();
        let ghost cs = self.storage.chunk_views();
        let mut out: Vec<Record> = Vec::new();
        let mut i: usize = 0;
        proof {
            assert(ms.take(0) =~= Seq::<Seq<char>>::empty());
            assert(out.deep_view() =~= raw_results(cs, ms.take(0), start_time as int, end_time as int));
        }
        while i < metrics.len()
            invariant
                i <= metrics@.len(),
                self.storage.wf(),
                cs == self.storage.chunk_views(),
                ms == metrics.deep_view(),
                start_time < end_time,
                out.deep_view() == raw_results(cs, ms.take(i as int), start_time as int, end_time as int),
            decreases metrics@.len() - i,
        {
            proof {
                assert(ms[i as int] == metrics@[i as int]@);
                lemma_raw_results_snoc(cs, ms, i as int, start_time as int, end_time as int);
            }
            match self.storage.query_range(start_time, end_time, metrics[i].as_str()) {
                Ok(v) => {
                    let ghost prev = out.deep_view();
                    let ghost vv = v.deep_view();
                    crate::storage::push_all_records(&mut out, v);
                    proof {
                        assert(out.deep_view() == prev + vv);
                    }
                },
                Err(_) => {
                    proof {
                        assert(false);
                    }
                },
            }
            i = i + 1;
        }
        proof {
            assert(ms.take(metrics@.len() as int) =~= ms);
        }
        Ok(out)
    }

    /// Runs a query: raw concatenated records when no aggregation is asked,
    /// else one group per bucket per metric, for the caller to fold.
    pub fn query_range(&self, query: &TimeSeriesQuery) -> (r: Result<QueryOutput, QueryError>)
        requires
            self.storage.wf(),
            match query.interval {
                Some(iv) => iv >= 1 && iv <= i64::MAX && spec_chunk_id(
                    query.start_time as int,
                    iv as int,
                ) >= i64::MIN,
                None => true,
            },
        ensures
            match r {
                Ok(out) => query.start_time < query.end_time && (match out {
                    QueryOutput::Raw(v) => query.aggregation is None && v.deep_view()
                        == raw_results(
                        self.storage.chunk_views(),
                        query.metrics.deep_view(),
                        query.start_time as int,
                        query.end_time as int,
                    ),
                    QueryOutput::Aggregated(gs) => query.aggregation is Some && groups_ok(
                        gs@,
                        self.storage.chunk_views(),
                        query.metrics.deep_view(),
                        query.start_time as int,
                        query.end_time as int,
                        query.interval,
                    ),
                }),
                Err(e) => e is InvalidTimeRange && query.start_time >= query.end_time,
            },
    {
        if query.start_time >= query.end_time {
            return Err(
                QueryError::InvalidTimeRange("start time must be before end time".to_owned()),
            );
        }
        match &query.aggregation {
            None => {
                let v = match self.collect_ranges(&query.metrics, query.start_time, query.end_time) {
                    Ok(v) => v,
                    Err(e) => {
                        return Err(e);
                    },
                };
                Ok(QueryOutput::Raw(v))
            },
            Some(_) => {
                let gs = match self.collect_groups(
                    &query.metrics,
                    query.start_time,
                    query.end_time,
                    &query.interval,
                ) {
                    Ok(gs) => gs,
                    Err(e) => {
                        return Err(e);
                    },
                };
                Ok(QueryOutput::Aggregated(gs))
            },
        }
    }
}

/// Extending the metric list extends the concatenated raw results.
proof fn lemma_raw_results_snoc(
    cs: Seq<crate::chunk::ChunkView>,
    ms: Seq<Seq<char>>,
    k: int,
    s: int,
    e: int,
)
    requires
        0 <= k < ms.len(),
    ensures
        raw_results(cs, ms.take(k + 1), s, e) == raw_results(cs, ms.take(k), s, e) + chunks_range(
            cs,
            s,
            e,
            ms[k],
        ),
    decreases k,
{
    if k == 0 {
        assert(ms.take(1) =~= seq![ms[0]]);
        assert(ms.take(1).drop_first() =~= Seq::<Seq<char>>::empty());
        assert(ms.take(0) =~= Seq::<Seq<char>>::empty());
        assert(raw_results(cs, ms.take(1), s, e) =~= raw_results(cs, ms.take(0), s, e)
            + chunks_range(cs, s, e, ms[0]));
    } else {
        lemma_raw_results_snoc(cs, ms.drop_first(), k - 1, s, e);
        assert(ms.take(k + 1).drop_first() =~= ms.drop_first().take(k));
        assert(ms.take(k).drop_first() =~= ms.drop_first().take(k - 1));
        assert(ms.take(k + 1)[0] == ms[0]);
        assert(ms.take(k)[0] == ms[0]);
        assert(ms.drop_first()[k - 1] == ms[k]);
        assert(raw_results(cs, ms.take(k), s, e) + chunks_range(cs, s, e, ms[k]) =~= chunks_range(
            cs,
            s,
            e,
            ms[0],
        ) + (raw_results(cs, ms.drop_first().take(k - 1), s, e) + chunks_range(
            cs,
            s,
            e,
            ms.drop_first()[k - 1],
        )));
    }
}

} // verus!

verus! {

/// The stored values of a record sequence, in order.
pub open spec fn values_of(rs: Seq<RecordView>) -> Seq<u64> {
    Seq::new(rs.len(), |i: int| rs[i].value)
}

/// The plain aggregation groups of a query without an interval: one group
/// per metric with any records in range, in metric order, carrying the
/// metric, its values and the first record's timestamp.
pub open spec fn plain_groups(
    cs: Seq<crate::chunk::ChunkView>,
    ms: Seq<Seq<char>>,
    s: int,
    e: int,
) -> Seq<(Seq<char>, Seq<u64>, int)>
    decreases ms.len(),
{
    if ms.len() == 0 {
        Seq::empty()
    } else {
        let rs = chunks_range(cs, s, e, ms[0]);
        let rest = plain_groups(cs, ms.drop_first(), s, e);
        if rs.len() == 0 {
            rest
        } else {
            seq![(ms[0], values_of(rs), rs[0].timestamp)] + rest
        }
    }
}

/// What the aggregation path promises of its groups.
///
/// Without an interval the groups are exactly one per metric with records in
/// range, in metric order. With an interval, each group holds exactly the
/// values of one bucket of one metric — the bucket its first record's
/// timestamp aligns to — and no two groups of one metric share a bucket.
pub open spec fn groups_ok(
    gs: Seq<AggregateGroup>,
    cs: Seq<crate::chunk::ChunkView>,
    ms: Seq<Seq<char>>,
    s: int,
    e: int,
    interval: Option<u64>,
) -> bool {
    match interval {
        None => {
            let pg = plain_groups(cs, ms, s, e);
            &&& gs.len() == pg.len()
            &&& forall|j: int|
                0 <= j < gs.len() ==> (#[trigger] gs[j]).metric_name@ == pg[j].0 && gs[j].values@
                    == pg[j].1 && gs[j].timestamp as int == pg[j].2 && gs[j].count as int
                    == pg[j].1.len()
        },
        Some(iv) => {
            &&& forall|j: int|
                0 <= j < gs.len() ==> ({
                    let g = #[trigger] gs[j];
                    let key = spec_chunk_id(g.timestamp as int, iv as int);
                    &&& ms.contains(g.metric_name@)
                    &&& g.count as int == g.values@.len()
                    &&& g.count > 0
                    &&& g.values@ == values_of(
                        by_interval(chunks_range(cs, s, e, g.metric_name@), iv as int, key),
                    )
                })
            &&& forall|mi: int, key: int|
                0 <= mi < ms.len() && #[trigger] by_interval(
                    chunks_range(cs, s, e, ms[mi]),
                    iv as int,
                    key,
                ).len() > 0 ==> exists|j: int|
                    0 <= j < gs.len() && (#[trigger] gs[j]).metric_name@ == ms[mi]
                        && spec_chunk_id(gs[j].timestamp as int, iv as int) == key
            &&& (forall|l1: int, l2: int| 0 <= l1 < l2 < ms.len() ==> ms[l1] != ms[l2]) ==> (forall|
                j1: int,
                j2: int,
            |
                0 <= j1 < j2 < gs.len() ==> !((#[trigger] gs[j1]).metric_name@ == (
                #[trigger] gs[j2]).metric_name@ && spec_chunk_id(gs[j1].timestamp as int, iv as int)
                    == spec_chunk_id(gs[j2].timestamp as int, iv as int)))
        },
    }
}

impl QueryEngine {
    /// Builds the aggregation groups of a query; see [`groups_ok`].
    fn collect_groups(
        &self,
        metrics: &Vec<String>,
        start_time: i64,
        end_time: i64,
        interval: &Option<u64>,
    ) -> (r: Result<Vec<AggregateGroup>, QueryError>)
        requires
            self.storage.wf(),
            start_time < end_time,
            match interval {
                Some(iv) => iv >= 1 && iv <= i64::MAX && spec_chunk_id(
                    start_time as int,
                    iv as int,
                ) >= i64::MIN,
                None => true,
            },
        ensures
            r is Ok,
            groups_ok(
                r->Ok_0@,
                self.storage.chunk_views(),
                metrics.deep_view(),
                start_time as int,
                end_time as int,
                *interval,
            ),
    {
        let ghost ms = metrics.deep_view();
        let ghost cs = self.storage.chunk_views();
        let ghost s = start_time as int;
        let ghost e = end_time as int;
        let mut out: Vec<AggregateGroup> = Vec::new();
        let mut i: usize = 0;
        proof {
            assert(ms.take(0) =~= Seq::<Seq<char>>::empty());
        }
        while i < metrics.len()
            invariant
                i <= metrics@.len(),
                self.storage.wf(),
                cs == self.storage.chunk_views(),
                ms == metrics.deep_view(),
                s == start_time as int,
                e == end_time as int,
                s < e,
                match interval {
                    Some(iv) => iv >= 1 && iv <= i64::MAX && spec_chunk_id(s, iv as int)
                        >= i64::MIN,
                    None => true,
                },
                groups_ok(out@, cs, ms.take(i as int), s, e, *interval),
            decreases metrics@.len() - i,
        {
            proof {
                assert(ms[i as int] == metrics@[i as int]@);
            }
            let rs = match self.storage.query_range(start_time, end_time, metrics[i].as_str()) {
                Ok(v) => v,
                Err(_) => {
                    proof {
                        assert(false);
                    }
                    return Err(QueryError::StorageError("query failed".to_owned()));
                },
            };
            match interval {
                None => {
                    proof {
                        lemma_plain_groups_snoc(cs, ms, i as int, s, e);
                    }
                    if rs.len() > 0 {
                        let first = &rs[0];
                        let mut values: Vec<u64> = Vec::new();
                        let mut k: usize = 0;
                        while k < rs.len()
                            invariant
                                k <= rs@.len(),
                                values@.len() == k as int,
                                forall|x: int|
                                    0 <= x < k as int ==> values@[x] == rs.deep_view()[x].value,
                            decreases rs@.len() - k,
                        {
                            values.push(rs[k].value);
                            proof {
                                assert(rs@[k as int]@ == rs.deep_view()[k as int]);
                            }
                            k = k + 1;
                        }
                        let count = values.len();
                        let g = AggregateGroup {
                            timestamp: first.timestamp,
                            metric_name: first.metric_name.clone(),
                            resource_type: first.resource_type.clone(),
                            context: crate::record::clone_context(&first.context),
                            values,
                            count,
                        };
                        let ghost prev = out@;
                        out.push(g);
                        proof {
                            let pgfull = plain_groups(cs, ms.take(i as int + 1), s, e);
                            let pg = plain_groups(cs, ms.take(i as int), s, e);
                            assert(rs.deep_view() == chunks_range(cs, s, e, ms[i as int]));
                            assert(rs.deep_view()[0] == rs@[0]@);
                            assert(g.metric_name@ == rs.deep_view()[0].metric_name);
                            assert(rs.deep_view()[0].metric_name == ms[i as int]) by {
                                lemma_chunks_range_names(cs, s, e, ms[i as int]);
                            }
                            assert(g.values@ =~= values_of(rs.deep_view()));
                            assert(pgfull == pg + seq![
                                (
                                    ms[i as int],
                                    values_of(rs.deep_view()),
                                    rs.deep_view()[0].timestamp,
                                ),
                            ]);
                            assert forall|j: int| 0 <= j < out@.len() implies (
                            #[trigger] out@[j]).metric_name@ == pgfull[j].0 && out@[j].values@
                                == pgfull[j].1 && out@[j].timestamp as int == pgfull[j].2
                                && out@[j].count as int == pgfull[j].1.len() by {
                                if j < prev.len() {
                                    assert(out@[j] == prev[j]);
                                    assert(pgfull[j] == pg[j]);
                                } else {
                                    assert(out@[j] == g);
                                    assert(pgfull[j] == (
                                        ms[i as int],
                                        values_of(rs.deep_view()),
                                        rs.deep_view()[0].timestamp,
                                    ));
                                }
                            }
                        }
                    } else {
                        proof {
                            assert(rs.deep_view() == chunks_range(cs, s, e, ms[i as int]));
                            assert(plain_groups(cs, ms.take(i as int + 1), s, e) == plain_groups(
                                cs,
                                ms.take(i as int),
                                s,
                                e,
                            ));
                        }
                    }
                },
                Some(iv) => {
                    proof {
                        assert(rs.deep_view() == chunks_range(cs, s, e, ms[i as int]));
                        crate::storage::lemma_chunks_range_bounds(cs, s, e, ms[i as int]);
                        lemma_chunks_range_names(cs, s, e, ms[i as int]);
                    }
                    let ghost oldout = out@;
                    self.group_metric_by_interval(&mut out, rs, *iv, start_time, end_time);
                    proof {
                        let msx = ms.take(i as int + 1);
                        assert(forall|l: int| 0 <= l < i as int ==> ms.take(i as int)[l] == msx[l]);
                        assert forall|j: int|
                            0 <= j < out@.len() implies ({
                            let g = #[trigger] out@[j];
                            let key = spec_chunk_id(g.timestamp as int, iv as int);
                            &&& msx.contains(g.metric_name@)
                            &&& g.count as int == g.values@.len()
                            &&& g.count > 0
                            &&& g.values@ == values_of(
                                by_interval(chunks_range(cs, s, e, g.metric_name@), iv as int, key),
                            )
                        }) by {
                            if j < oldout.len() {
                                assert(out@[j] == oldout[j]);
                                assert(ms.take(i as int).contains(oldout[j].metric_name@));
                                let x = choose|x: int|
                                    0 <= x < ms.take(i as int).len() && ms.take(i as int)[x]
                                        == oldout[j].metric_name@;
                                assert(msx[x] == oldout[j].metric_name@);
                            } else {
                                let g = out@[j];
                                let x = choose|x: int|
                                    0 <= x < rs.deep_view().len() && (
                                    #[trigger] rs.deep_view()[x]).metric_name == g.metric_name@;
                                assert(g.metric_name@ == ms[i as int]);
                                assert(msx[i as int] == ms[i as int]);
                            }
                        }
                        assert forall|mi: int, key: int|
                            0 <= mi < msx.len() && #[trigger] by_interval(
                                chunks_range(cs, s, e, msx[mi]),
                                iv as int,
                                key,
                            ).len() > 0 implies exists|j: int|
                            0 <= j < out@.len() && (#[trigger] out@[j]).metric_name@ == msx[mi]
                                && spec_chunk_id(out@[j].timestamp as int, iv as int) == key by {
                            if mi < i as int {
                                assert(msx[mi] == ms.take(i as int)[mi]);
                                let j = choose|j: int|
                                    0 <= j < oldout.len() && (#[trigger] oldout[j]).metric_name@
                                        == ms.take(i as int)[mi] && spec_chunk_id(
                                        oldout[j].timestamp as int,
                                        iv as int,
                                    ) == key;
                                assert(out@[j] == oldout[j]);
                                assert(out@[j].metric_name@ == msx[mi] && spec_chunk_id(
                                    out@[j].timestamp as int,
                                    iv as int,
                                ) == key);
                            } else {
                                assert(msx[mi] == ms[i as int]);
                                assert(rs.deep_view() == chunks_range(cs, s, e, ms[i as int]));
                                let j = choose|j: int|
                                    oldout.len() <= j < out@.len() && spec_chunk_id(
                                        (#[trigger] out@[j]).timestamp as int,
                                        iv as int,
                                    ) == key;
                                let x = choose|x: int|
                                    0 <= x < rs.deep_view().len() && (
                                    #[trigger] rs.deep_view()[x]).metric_name
                                        == out@[j].metric_name@;
                                assert(out@[j].metric_name@ == ms[i as int]);
                            }
                        }
                        if forall|l1: int, l2: int| 0 <= l1 < l2 < msx.len() ==> msx[l1] != msx[l2] {
                            assert(forall|l1: int, l2: int|
                                0 <= l1 < l2 < ms.take(i as int).len() ==> ms.take(i as int)[l1]
                                    != ms.take(i as int)[l2]);
                            assert forall|j1: int, j2: int|
                                0 <= j1 < j2 < out@.len() implies !((
                            #[trigger] out@[j1]).metric_name@ == (#[trigger] out@[j2]).metric_name@
                                && spec_chunk_id(out@[j1].timestamp as int, iv as int)
                                == spec_chunk_id(out@[j2].timestamp as int, iv as int)) by {
                                if j2 < oldout.len() {
                                    assert(out@[j1] == oldout[j1] && out@[j2] == oldout[j2]);
                                } else if j1 < oldout.len() {
                                    assert(out@[j1] == oldout[j1]);
                                    assert(ms.take(i as int).contains(oldout[j1].metric_name@));
                                    let l = choose|l: int|
                                        0 <= l < ms.take(i as int).len() && ms.take(i as int)[l]
                                            == oldout[j1].metric_name@;
                                    let x = choose|x: int|
                                        0 <= x < rs.deep_view().len() && (
                                        #[trigger] rs.deep_view()[x]).metric_name
                                            == out@[j2].metric_name@;
                                    assert(out@[j2].metric_name@ == ms[i as int]);
                                    assert(msx[l] == oldout[j1].metric_name@);
                                    assert(msx[i as int] == ms[i as int]);
                                } else {
                                }
                            }
                        }
                    }
                },
            }
            i = i + 1;
        }
        proof {
            assert(ms.take(metrics@.len() as int) =~= ms);
        }
        Ok(out)
    }
}

/// Extending the metric list extends the plain group list.
proof fn lemma_plain_groups_snoc(
    cs: Seq<crate::chunk::ChunkView>,
    ms: Seq<Seq<char>>,
    k: int,
    s: int,
    e: int,
)
    requires
        0 <= k < ms.len(),
    ensures
        plain_groups(cs, ms.take(k + 1), s, e) == plain_groups(cs, ms.take(k), s, e) + (if
        chunks_range(cs, s, e, ms[k]).len() == 0 {
            Seq::<(Seq<char>, Seq<u64>, int)>::empty()
        } else {
            seq![
                (
                    ms[k],
                    values_of(chunks_range(cs, s, e, ms[k])),
                    chunks_range(cs, s, e, ms[k])[0].timestamp,
                ),
            ]
        }),
    decreases k,
{
    if k == 0 {
        assert(ms.take(1) =~= seq![ms[0]]);
        assert(ms.take(1).drop_first() =~= Seq::<Seq<char>>::empty());
        assert(ms.take(0) =~= Seq::<Seq<char>>::empty());
        assert(plain_groups(cs, ms.take(0), s, e) =~= Seq::<(Seq<char>, Seq<u64>, int)>::empty());
        if chunks_range(cs, s, e, ms[0]).len() == 0 {
            assert(plain_groups(cs, ms.take(1), s, e) =~= plain_groups(cs, ms.take(0), s, e));
        } else {
            assert(plain_groups(cs, ms.take(1), s, e) =~= plain_groups(cs, ms.take(0), s, e)
                + seq![
                (
                    ms[0],
                    values_of(chunks_range(cs, s, e, ms[0])),
                    chunks_range(cs, s, e, ms[0])[0].timestamp,
                ),
            ]);
        }
    } else {
        lemma_plain_groups_snoc(cs, ms.drop_first(), k - 1, s, e);
        assert(ms.take(k + 1).drop_first() =~= ms.drop_first().take(k));
        assert(ms.take(k).drop_first() =~= ms.drop_first().take(k - 1));
        assert(ms.take(k + 1)[0] == ms[0]);
        assert(ms.take(k)[0] == ms[0]);
        assert(ms.drop_first()[k - 1] == ms[k]);
        assert(plain_groups(cs, ms.take(k), s, e) + (if chunks_range(cs, s, e, ms[k]).len() == 0 {
            Seq::<(Seq<char>, Seq<u64>, int)>::empty()
        } else {
            seq![
                (
                    ms[k],
                    values_of(chunks_range(cs, s, e, ms[k])),
                    chunks_range(cs, s, e, ms[k])[0].timestamp,
                ),
            ]
        }) =~= plain_groups(cs, ms.take(k + 1), s, e));
    }
}

/// Every record a range query returns bears the queried metric name.
pub proof fn lemma_chunks_range_names(
    cs: Seq<crate::chunk::ChunkView>,
    s: int,
    e: int,
    m: Seq<char>,
)
    requires
        forall|i: int| 0 <= i < cs.len() ==> (#[trigger] cs[i]).wf(),
    ensures
        forall|k: int|
            0 <= k < chunks_range(cs, s, e, m).len() ==> (#[trigger] chunks_range(
                cs,
                s,
                e,
                m,
            )[k]).metric_name == m,
    decreases cs.len(),
{
    if cs.len() > 0 {
        let d = cs.drop_first();
        assert(forall|i: int| 0 <= i < d.len() ==> d[i] == cs[i + 1]);
        lemma_chunks_range_names(d, s, e, m);
        crate::chunk::lemma_lookup_props(cs[0].series, m);
        lemma_range_filter_sub(crate::chunk::series_lookup(cs[0].series, m), s, e);
        assert forall|k: int| 0 <= k < chunks_range(cs, s, e, m).len() implies (
        #[trigger] chunks_range(cs, s, e, m)[k]).metric_name == m by {
            let head = crate::chunk::range_filter(crate::chunk::series_lookup(cs[0].series, m), s, e);
            if k < head.len() {
                assert(chunks_range(cs, s, e, m)[k] == head[k]);
            } else {
                assert(chunks_range(cs, s, e, m)[k] == chunks_range(d, s, e, m)[k - head.len()]);
            }
        }
    }
}

/// Every filtered record is one of the originals.
pub proof fn lemma_range_filter_sub(rs: Seq<RecordView>, s: int, e: int)
    ensures
        forall|k: int|
            0 <= k < crate::chunk::range_filter(rs, s, e).len() ==> rs.contains(
                #[trigger] crate::chunk::range_filter(rs, s, e)[k],
            ),
    decreases rs.len(),
{
    if rs.len() > 0 {
        lemma_range_filter_sub(rs.drop_last(), s, e);
        let f = crate::chunk::range_filter(rs, s, e);
        let fd = crate::chunk::range_filter(rs.drop_last(), s, e);
        assert forall|k: int| 0 <= k < f.len() implies rs.contains(#[trigger] f[k]) by {
            if k < fd.len() {
                assert(f[k] == fd[k]);
                let a = choose|a: int| 0 <= a < rs.drop_last().len() && rs.drop_last()[a] == fd[k];
                assert(rs[a] == f[k]);
            } else {
                assert(f[k] == rs.last());
                assert(rs[rs.len() - 1] == f[k]);
            }
        }
    }
}

} // verus!

verus! {

impl QueryEngine {
    /// Splits one metric's range result into per-bucket groups appended to
    /// `out`: each new group holds exactly the values of the bucket its
    /// timestamp aligns to, and some record of the input names its metric.
    fn group_metric_by_interval(
        &self,
        out: &mut Vec<AggregateGroup>,
        rs: Vec<Record>,
        iv: u64,
        start_time: i64,
        end_time: i64,
    )
        requires
            iv >= 1,
            iv <= i64::MAX,
            spec_chunk_id(start_time as int, iv as int) >= i64::MIN,
            forall|x: int|
                0 <= x < rs.deep_view().len() ==> start_time as int <= (
                #[trigger] rs.deep_view()[x]).timestamp < end_time as int,
        ensures
            final(out)@.len() >= old(out)@.len(),
            forall|j: int| 0 <= j < old(out)@.len() ==> final(out)@[j] == old(out)@[j],
            forall|j: int|
                old(out)@.len() <= j < final(out)@.len() ==> ({
                    let g = #[trigger] final(out)@[j];
                    let key = spec_chunk_id(g.timestamp as int, iv as int);
                    &&& g.count as int == g.values@.len()
                    &&& g.count > 0
                    &&& g.values@ == values_of(by_interval(rs.deep_view(), iv as int, key))
                    &&& exists|x: int|
                        0 <= x < rs.deep_view().len() && (#[trigger] rs.deep_view()[x]).metric_name
                            == g.metric_name@
                }),
            forall|key: int|
                #[trigger] by_interval(rs.deep_view(), iv as int, key).len() > 0 ==> exists|j: int|
                    old(out)@.len() <= j < final(out)@.len() && spec_chunk_id(
                        (#[trigger] final(out)@[j]).timestamp as int,
                        iv as int,
                    ) == key,
            forall|j1: int, j2: int|
                old(out)@.len() <= j1 < j2 < final(out)@.len() ==> spec_chunk_id(
                    (#[trigger] final(out)@[j1]).timestamp as int,
                    iv as int,
                ) != spec_chunk_id((#[trigger] final(out)@[j2]).timestamp as int, iv as int),
    {
        let ghost rvs = rs.deep_view();
        let base: usize = out.len();
        let mut keys: Vec<i64> = Vec::new();
        let mut k: usize = 0;
        proof {
            assert(rvs.take(0) =~= Seq::<RecordView>::empty());
        }
        while k < rs.len()
            invariant
                k <= rs@.len(),
                rvs == rs.deep_view(),
                iv >= 1,
                iv <= i64::MAX,
                spec_chunk_id(start_time as int, iv as int) >= i64::MIN,
                forall|x: int|
                    0 <= x < rvs.len() ==> start_time as int <= (#[trigger] rvs[x]).timestamp
                        < end_time as int,
                base as int == old(out)@.len(),
                out@.len() == base as int + keys@.len(),
                forall|j: int| 0 <= j < base as int ==> out@[j] == old(out)@[j],
                forall|j1: int, j2: int| 0 <= j1 < j2 < keys@.len() ==> keys@[j1] != keys@[j2],
                forall|j: int|
                    0 <= j < keys@.len() ==> (#[trigger] keys@[j]) as int == spec_chunk_id(
                        out@[base as int + j].timestamp as int,
                        iv as int,
                    ),
                forall|j: int|
                    0 <= j < keys@.len() ==> ({
                        let g = #[trigger] out@[base as int + j];
                        &&& g.count as int == g.values@.len()
                        &&& g.count > 0
                        &&& g.values@ == values_of(
                            by_interval(rvs.take(k as int), iv as int, keys@[j] as int),
                        )
                        &&& exists|x: int|
                            0 <= x < rvs.len() && (#[trigger] rvs[x]).metric_name
                                == g.metric_name@
                    }),
                forall|k2: int|
                    #[trigger] by_interval(rvs.take(k as int), iv as int, k2).len() > 0
                        ==> keys@.contains(k2 as i64) || !(i64::MIN <= k2 <= i64::MAX),
            decreases rs@.len() - k,
        {
            let rec = &rs[k];
            let ghost rv = rvs[k as int];
            proof {
                assert(rs@[k as int]@ == rv);
                lemma_align_monotone_local(start_time as int, rv.timestamp, iv as int);
            }
            let key = crate::storage::chunk_id_for_timestamp(rec.timestamp, iv as i64);
            let ghost keyi = key as int;
            proof {
                assert(keyi == spec_chunk_id(rv.timestamp, iv as int));
            }
            let mut pos: usize = 0;
            while pos < keys.len() && keys[pos] != key
                invariant
                    pos <= keys@.len(),
                    forall|j: int| 0 <= j < pos as int ==> keys@[j] != key,
                decreases keys@.len() - pos,
            {
                pos = pos + 1;
            }
            let ghost oldout = out@;
            let ghost oldkeys = keys@;
            if pos < keys.len() {
                let _bound = out.len();
                let mut g = out.remove(base + pos);
                g.values.push(rec.value);
                g.count = g.values.len();
                let ghost g2 = g;
                out.insert(base + pos, g);
                proof {
                    assert(out@ =~= oldout.update(base as int + pos as int, g2));
                }
            } else {
                let g = AggregateGroup {
                    timestamp: rec.timestamp,
                    metric_name: rec.metric_name.clone(),
                    resource_type: rec.resource_type.clone(),
                    context: crate::record::clone_context(&rec.context),
                    values: vec![rec.value],
                    count: 1,
                };
                let ghost g2 = g;
                out.push(g);
                keys.push(key);
                proof {
                    assert(out@ =~= oldout.push(g2));
                    assert(g2.values@ =~= seq![rv.value]);
                    assert(g2.metric_name@ == rv.metric_name);
                    assert(g2.timestamp == rs@[k as int].timestamp);
                }
            }
            proof {
                lemma_group_step(rvs, k as int, iv as int, keyi);
                assert forall|j: int|
                    0 <= j < keys@.len() implies ({
                    let g = #[trigger] out@[base as int + j];
                    &&& g.count as int == g.values@.len()
                    &&& g.count > 0
                    &&& g.values@ == values_of(
                        by_interval(rvs.take(k as int + 1), iv as int, keys@[j] as int),
                    )
                    &&& exists|x: int|
                        0 <= x < rvs.len() && (#[trigger] rvs[x]).metric_name == g.metric_name@
                }) by {
                    if j < oldkeys.len() {
                        if oldkeys[j] == key {
                            assert(j == pos as int);
                            assert(values_of(
                                by_interval(rvs.take(k as int + 1), iv as int, keyi),
                            ) =~= values_of(by_interval(rvs.take(k as int), iv as int, keyi)).push(
                                rv.value,
                            ));
                            assert(out@[base as int + j].values@ =~= oldout[base as int + j].values@.push(
                                rv.value,
                            ));
                        } else {
                            assert(out@[base as int + j] == oldout[base as int + j]);
                            assert(values_of(
                                by_interval(rvs.take(k as int + 1), iv as int, oldkeys[j] as int),
                            ) == values_of(
                                by_interval(rvs.take(k as int), iv as int, oldkeys[j] as int),
                            ));
                            if (pos as int) < oldkeys.len() {
                                assert(out@[base as int + j] == oldout.update(
                                    base as int + pos as int,
                                    out@[base as int + pos as int],
                                )[base as int + j]);
                            }
                            assert(rvs[k as int].metric_name == rv.metric_name);
                        }
                    } else {
                        assert(keys@[j] == key);
                        assert(out@[base as int + j].values@ =~= seq![rv.value]);
                        assert(by_interval(rvs.take(k as int), iv as int, keyi).len() == 0) by {
                            if by_interval(rvs.take(k as int), iv as int, keyi).len() > 0 {
                                assert(oldkeys.contains(keyi as i64));
                                let x = choose|x: int|
                                    0 <= x < oldkeys.len() && oldkeys[x] == keyi as i64;
                            }
                        }
                        assert(values_of(by_interval(rvs.take(k as int + 1), iv as int, keyi))
                            =~= seq![rv.value]);
                        assert(rvs[k as int].metric_name == out@[base as int + j].metric_name@);
                    }
                }
                assert forall|k2: int|
                    #[trigger] by_interval(rvs.take(k as int + 1), iv as int, k2).len() > 0 implies
                    keys@.contains(k2 as i64) || !(i64::MIN <= k2 <= i64::MAX) by {
                    if k2 != keyi {
                        if by_interval(rvs.take(k as int), iv as int, k2).len() > 0 {
                            if i64::MIN <= k2 <= i64::MAX {
                                assert(oldkeys.contains(k2 as i64));
                                let x = choose|x: int|
                                    0 <= x < oldkeys.len() && oldkeys[x] == k2 as i64;
                                assert(keys@[x] == k2 as i64);
                            }
                        }
                    } else {
                        if (pos as int) < oldkeys.len() {
                            assert(keys@[pos as int] == key);
                        } else {
                            assert(keys@[keys@.len() - 1] == key);
                        }
                    }
                }
            }
            k = k + 1;
        }
        proof {
            assert(rvs.take(rs@.len() as int) =~= rvs);
            assert forall|j: int|
                base as int <= j < out@.len() implies ({
                let g = #[trigger] out@[j];
                let key = spec_chunk_id(g.timestamp as int, iv as int);
                &&& g.count as int == g.values@.len()
                &&& g.count > 0
                &&& g.values@ == values_of(by_interval(rvs, iv as int, key))
                &&& exists|x: int|
                    0 <= x < rvs.len() && (#[trigger] rvs[x]).metric_name == g.metric_name@
            }) by {
                let jj = j - base as int;
                assert(out@[base as int + jj] == out@[j]);
                assert(keys@[jj] as int == spec_chunk_id(
                    out@[base as int + jj].timestamp as int,
                    iv as int,
                ));
                assert(out@[base as int + jj].values@ == values_of(
                    by_interval(rvs.take(rs@.len() as int), iv as int, keys@[jj] as int),
                ));
            }
            assert forall|key: int| #[trigger] by_interval(rvs, iv as int, key).len()
                > 0 implies exists|j: int|
                base as int <= j < out@.len() && spec_chunk_id(
                    (#[trigger] out@[j]).timestamp as int,
                    iv as int,
                ) == key by {
                lemma_by_interval_members(rvs, iv as int, key);
                let member = by_interval(rvs, iv as int, key)[0];
                let x = choose|x: int| 0 <= x < rvs.len() && rvs[x] == member;
                crate::storage::lemma_align_monotone(
                    start_time as int,
                    member.timestamp,
                    iv as int,
                );
                crate::storage::lemma_align_window(member.timestamp, iv as int);
                assert(i64::MIN <= key <= i64::MAX);
                assert(by_interval(rvs.take(rs@.len() as int), iv as int, key).len() > 0);
                assert(keys@.contains(key as i64));
                let jj = choose|jj: int| 0 <= jj < keys@.len() && keys@[jj] == key as i64;
                assert(spec_chunk_id(out@[base as int + jj].timestamp as int, iv as int) == key);
            }
            assert forall|j1: int, j2: int|
                base as int <= j1 < j2 < out@.len() implies spec_chunk_id(
                (#[trigger] out@[j1]).timestamp as int,
                iv as int,
            ) != spec_chunk_id((#[trigger] out@[j2]).timestamp as int, iv as int) by {
                let a = j1 - base as int;
                let b = j2 - base as int;
                assert(keys@[a] as int == spec_chunk_id(
                    out@[base as int + a].timestamp as int,
                    iv as int,
                ));
                assert(keys@[b] as int == spec_chunk_id(
                    out@[base as int + b].timestamp as int,
                    iv as int,
                ));
                assert(keys@[a] != keys@[b]);
            }
        }
    }
}

/// Every bucket member is one of the originals and aligns to the bucket.
proof fn lemma_by_interval_members(rs: Seq<RecordView>, iv: int, key: int)
    ensures
        forall|x: int|
            0 <= x < by_interval(rs, iv, key).len() ==> rs.contains(
                #[trigger] by_interval(rs, iv, key)[x],
            ) && spec_chunk_id(by_interval(rs, iv, key)[x].timestamp, iv) == key,
    decreases rs.len(),
{
    if rs.len() > 0 {
        lemma_by_interval_members(rs.drop_last(), iv, key);
        let f = by_interval(rs, iv, key);
        let fd = by_interval(rs.drop_last(), iv, key);
        assert forall|x: int|
            0 <= x < f.len() implies rs.contains(#[trigger] f[x]) && spec_chunk_id(
            f[x].timestamp,
            iv,
        ) == key by {
            if x < fd.len() {
                assert(f[x] == fd[x]);
                let a = choose|a: int| 0 <= a < rs.drop_last().len() && rs.drop_last()[a] == fd[x];
                assert(rs[a] == f[x]);
            } else {
                assert(f[x] == rs.last());
                assert(rs[rs.len() - 1] == f[x]);
            }
        }
    }
}

/// One record extends exactly its own bucket.
proof fn lemma_group_step(rvs: Seq<RecordView>, k: int, iv: int, keyi: int)
    requires
        0 <= k < rvs.len(),
        keyi == spec_chunk_id(rvs[k].timestamp, iv),
    ensures
        by_interval(rvs.take(k + 1), iv, keyi) == by_interval(rvs.take(k), iv, keyi).push(rvs[k]),
        forall|k2: int|
            k2 != keyi ==> #[trigger] by_interval(rvs.take(k + 1), iv, k2) == by_interval(
                rvs.take(k),
                iv,
                k2,
            ),
{
    assert(rvs.take(k + 1).drop_last() =~= rvs.take(k));
    assert(rvs.take(k + 1).last() == rvs[k]);
    assert forall|k2: int| k2 != keyi implies #[trigger] by_interval(rvs.take(k + 1), iv, k2)
        == by_interval(rvs.take(k), iv, k2) by {
    }
}

/// Local name for the alignment monotonicity fact.
proof fn lemma_align_monotone_local(a: int, b: int, d: int)
    requires
        d >= 1,
        a <= b,
        spec_chunk_id(a, d) >= i64::MIN,
    ensures
        spec_chunk_id(b, d) >= i64::MIN,
{
    crate::storage::lemma_align_monotone(a, b, d);
}

} // verus!

verus! {

/// The record-stream helpers the analytical folds rest on: they extract the
/// exact value and timestamp streams a range query delivered, in order; the
/// numeric work on those streams happens at the caller.
pub struct TimeSeriesFunctions;

impl TimeSeriesFunctions {
    /// The stored values of the records, in order.
    pub fn values(records: &Vec<Record>) -> (r: Vec<u64>)
        ensures
            r@ == values_of(records.deep_view()),
    {
        let mut r: Vec<u64> = Vec::new();
        let mut i: usize = 0;
        while i < records.len()
            invariant
                i <= records@.len(),
                r@.len() == i as int,
                forall|j: int|
                    0 <= j < i as int ==> r@[j] == (#[trigger] records.deep_view()[j]).value,
            decreases records@.len() - i,
        {
            r.push(records[i].value);
            proof {
                assert(records@[i as int]@ == records.deep_view()[i as int]);
            }
            i = i + 1;
        }
        proof {
            assert(r@ =~= values_of(records.deep_view()));
        }
        r
    }

    /// The timestamps of the records, in order.
    pub fn timestamps(records: &Vec<Record>) -> (r: Vec<i64>)
        ensures
            r@.len() == records.deep_view().len(),
            forall|j: int|
                0 <= j < r@.len() ==> r@[j] as int == (#[trigger] records.deep_view()[j]).timestamp,
    {
        let mut r: Vec<i64> = Vec::new();
        let mut i: usize = 0;
        while i < records.len()
            invariant
                i <= records@.len(),
                r@.len() == i as int,
                forall|j: int|
                    0 <= j < i as int ==> r@[j] as int == (
                    #[trigger] records.deep_view()[j]).timestamp,
            decreases records@.len() - i,
        {
            r.push(records[i].timestamp);
            proof {
                assert(records@[i as int]@ == records.deep_view()[i as int]);
            }
            i = i + 1;
        }
        r
    }
}

} // verus!

verus! {

/// What the time-chunked query promises of its buckets: strictly ascending
/// window starts, each bucket exactly one window long and holding exactly
/// its window's records in query order, and a bucket for every window with
/// records.
pub open spec fn time_chunks_ok(out: Seq<TimeChunk>, rr: Seq<RecordView>, size: u64) -> bool {
    &&& forall|j: int, l: int|
        0 <= j < l < out.len() ==> (#[trigger] out[j]).start_time < (#[trigger] out[l]).start_time
    &&& forall|j: int|
        0 <= j < out.len() ==> ({
            let b = #[trigger] out[j];
            &&& b.end_time as int == b.start_time as int + size as int
            &&& b.records.deep_view().len() > 0
            &&& b.records.deep_view() == by_interval(rr, size as int, b.start_time as int)
        })
    &&& forall|key: int|
        #[trigger] by_interval(rr, size as int, key).len() > 0 ==> exists|j: int|
            0 <= j < out.len() && (#[trigger] out[j]).start_time as int == key
}

impl QueryEngine {
    /// Buckets the resource type's records in `[start_time, end_time)` into
    /// windows of `chunk_size_secs` seconds — a query-time grouping,
    /// independent of the storage chunk length — sorted ascending by window
    /// start.
    pub fn query_time_chunked(
        &self,
        resource_type: &str,
        start_time: i64,
        end_time: i64,
        chunk_size_secs: u64,
    ) -> (r: Result<Vec<TimeChunk>, QueryError>)
        requires
            self.storage.wf(),
            1 <= chunk_size_secs <= i64::MAX,
            spec_chunk_id(start_time as int, chunk_size_secs as int) >= i64::MIN,
            end_time as int - 1 + chunk_size_secs as int <= i64::MAX,
        ensures
            match r {
                Ok(out) => start_time < end_time && (exists|ms: Seq<Seq<char>>|
                    (forall|j: int, l: int| 0 <= j < l < ms.len() ==> ms[j] != ms[l]) && (forall|
                        m: Seq<char>,
                    |
                        #[trigger] ms.contains(m) == chunks_has_rm(
                            self.storage.chunk_views(),
                            resource_type@,
                            m,
                        )) && time_chunks_ok(
                        out@,
                        raw_results(
                            self.storage.chunk_views(),
                            ms,
                            start_time as int,
                            end_time as int,
                        ),
                        chunk_size_secs,
                    )),
                Err(e) => e is InvalidTimeRange && start_time >= end_time,
            },
    {
        if start_time >= end_time {
            return Err(
                QueryError::InvalidTimeRange("start time must be before end time".to_owned()),
            );
        }
        let ghost cs = self.storage.chunk_views();
        let ghost s = start_time as int;
        let ghost e = end_time as int;
        let metrics = match self.storage.get_metrics_by_resource_type(resource_type) {
            Ok(ms) => ms,
            Err(_) => {
                proof {
                    assert(false);
                }
                return Err(QueryError::StorageError("lookup failed".to_owned()));
            },
        };
        let records = match self.collect_ranges(&metrics, start_time, end_time) {
            Ok(v) => v,
            Err(_) => {
                proof {
                    assert(false);
                }
                return Err(QueryError::StorageError("query failed".to_owned()));
            },
        };
        let ghost ms = metrics.deep_view();
        let ghost rvs = records.deep_view();
        proof {
            crate::storage::lemma_raw_results_bounds(cs, ms, s, e);
        }
        let size = chunk_size_secs as i64;
        let mut out: Vec<TimeChunk> = Vec::new();
        let mut k: usize = 0;
        proof {
            assert(rvs.take(0) =~= Seq::<RecordView>::empty());
        }
        while k < records.len()
            invariant
                k <= records@.len(),
                rvs == records.deep_view(),
                1 <= chunk_size_secs <= i64::MAX,
                size == chunk_size_secs as i64,
                s == start_time as int,
                e == end_time as int,
                spec_chunk_id(s, size as int) >= i64::MIN,
                e - 1 + size as int <= i64::MAX,
                forall|x: int| 0 <= x < rvs.len() ==> s <= (#[trigger] rvs[x]).timestamp < e,
                forall|j: int, l: int|
                    0 <= j < l < out@.len() ==> (#[trigger] out@[j]).start_time < (
                    #[trigger] out@[l]).start_time,
                forall|j: int|
                    0 <= j < out@.len() ==> ({
                        let b = #[trigger] out@[j];
                        &&& b.end_time as int == b.start_time as int + size as int
                        &&& b.records.deep_view().len() > 0
                        &&& b.records.deep_view() == by_interval(
                            rvs.take(k as int),
                            size as int,
                            b.start_time as int,
                        )
                    }),
                forall|key: int|
                    #[trigger] by_interval(rvs.take(k as int), size as int, key).len() > 0
                        ==> exists|j: int|
                        0 <= j < out@.len() && (#[trigger] out@[j]).start_time as int == key,
            decreases records@.len() - k,
        {
            let rec = records[k].clone();
            let ghost rv = rvs[k as int];
            proof {
                assert(records@[k as int]@ == rv);
                assert(rec@ == rv);
                crate::storage::lemma_align_monotone(s, rv.timestamp, size as int);
                crate::storage::lemma_align_window(rv.timestamp, size as int);
            }
            let key = crate::storage::chunk_id_for_timestamp(rec.timestamp, size);
            let ghost keyi = key as int;
            let mut pos: usize = 0;
            while pos < out.len() && out[pos].start_time < key
                invariant
                    pos <= out@.len(),
                    forall|j: int, l: int|
                        0 <= j < l < out@.len() ==> (#[trigger] out@[j]).start_time < (
                        #[trigger] out@[l]).start_time,
                    forall|j: int| 0 <= j < pos as int ==> (#[trigger] out@[j]).start_time < key,
                decreases out@.len() - pos,
            {
                pos = pos + 1;
            }
            let ghost oldout = out@;
            let hit = pos < out.len() && out[pos].start_time == key;
            if hit {
                let mut b = out.remove(pos);
                let ghost prevrecs = b.records;
                b.records.push(rec);
                proof {
                    crate::codec::lemma_deep_view_push(prevrecs, b.records, rec);
                }
                let ghost b2 = b;
                out.insert(pos, b);
                proof {
                    assert(out@ =~= oldout.update(pos as int, b2));
                }
            } else {
                let mut recs: Vec<Record> = Vec::new();
                recs.push(rec);
                let b = TimeChunk { start_time: key, end_time: key + size, records: recs };
                let ghost b2 = b;
                let ghost prev = out@;
                out.insert(pos, b);
                proof {
                    prev.insert_ensures(pos as int, b2);
                    assert(b2.records.deep_view() =~= seq![rv]);
                    assert forall|j: int, l: int|
                        0 <= j < l < out@.len() implies (#[trigger] out@[j]).start_time < (
                    #[trigger] out@[l]).start_time by {
                        if l < pos as int {
                        } else if j < pos as int && l == pos as int {
                        } else if j < pos as int {
                            assert(out@[l] == prev[l - 1]);
                        } else if j == pos as int {
                            assert(out@[l] == prev[l - 1]);
                            if (pos as int) < prev.len() {
                                assert(prev[pos as int].start_time > key);
                            }
                        } else {
                            assert(out@[j] == prev[j - 1] && out@[l] == prev[l - 1]);
                        }
                    }
                }
            }
            proof {
                lemma_group_step(rvs, k as int, size as int, keyi);
                assert forall|j: int|
                    0 <= j < out@.len() implies ({
                    let b = #[trigger] out@[j];
                    &&& b.end_time as int == b.start_time as int + size as int
                    &&& b.records.deep_view().len() > 0
                    &&& b.records.deep_view() == by_interval(
                        rvs.take(k as int + 1),
                        size as int,
                        b.start_time as int,
                    )
                }) by {
                    if hit {
                        if j == pos as int {
                            assert(out@[j].records.deep_view() =~= oldout[pos as int
                            ].records.deep_view().push(rv));
                        } else {
                            assert(out@[j] == oldout[j]);
                            assert(out@[j].start_time as int != keyi);
                        }
                    } else {
                        if j == pos as int {
                            assert(by_interval(rvs.take(k as int), size as int, keyi).len()
                                == 0) by {
                                if by_interval(rvs.take(k as int), size as int, keyi).len() > 0 {
                                    let w = choose|w: int|
                                        0 <= w < oldout.len() && (
                                        #[trigger] oldout[w]).start_time as int == keyi;
                                    if w < pos as int {
                                        assert(oldout[w].start_time < key);
                                    } else {
                                        if (pos as int) < oldout.len() {
                                            assert(oldout[pos as int].start_time > key
                                                || oldout[pos as int].start_time == key);
                                            assert(oldout[pos as int].start_time != key);
                                            if w > pos as int {
                                                assert(oldout[w].start_time
                                                    > oldout[pos as int].start_time);
                                            }
                                        }
                                    }
                                    assert(false);
                                }
                            }
                            assert(out@[j].records.deep_view() =~= seq![rv]);
                            assert(by_interval(rvs.take(k as int + 1), size as int, keyi)
                                =~= seq![rv]);
                        } else if j < pos as int {
                            assert(out@[j] == oldout[j]);
                            assert(out@[j].start_time as int != keyi);
                        } else {
                            assert(out@[j] == oldout[j - 1]);
                            assert(out@[j].start_time as int != keyi) by {
                                assert(oldout[j - 1].start_time > key || oldout[j
                                    - 1].start_time == key || oldout[j - 1].start_time < key);
                                if j - 1 >= pos as int {
                                    if oldout[j - 1].start_time == key {
                                        assert(!hit);
                                        if (pos as int) < oldout.len() {
                                            assert(oldout[pos as int].start_time
                                                <= oldout[j - 1].start_time);
                                        }
                                        assert(false);
                                    }
                                } else {
                                    assert(oldout[j - 1].start_time < key);
                                }
                            }
                        }
                    }
                }
                assert forall|key2: int|
                    #[trigger] by_interval(rvs.take(k as int + 1), size as int, key2).len()
                        > 0 implies exists|j: int|
                    0 <= j < out@.len() && (#[trigger] out@[j]).start_time as int == key2 by {
                    if key2 == keyi {
                        assert(out@[pos as int].start_time as int == keyi);
                    } else {
                        let w = choose|w: int|
                            0 <= w < oldout.len() && (#[trigger] oldout[w]).start_time as int
                                == key2;
                        if hit {
                            if w == pos as int {
                                assert(out@[w].start_time as int == key2);
                            } else {
                                assert(out@[w] == oldout[w]);
                            }
                        } else {
                            if w < pos as int {
                                assert(out@[w] == oldout[w]);
                            } else {
                                assert(out@[w + 1] == oldout[w]);
                            }
                        }
                    }
                }
            }
            k = k + 1;
        }
        proof {
            assert(rvs.take(records@.len() as int) =~= rvs);
            assert(time_chunks_ok(out@, raw_results(cs, ms, s, e), chunk_size_secs)) by {
                assert(rvs == raw_results(cs, ms, s, e));
            }
        }
        Ok(out)
    }
}

} // verus!
