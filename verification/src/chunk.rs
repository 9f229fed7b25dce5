//! Time-bucketed chunks: all records whose timestamps fall in one half-open
//! window, indexed by metric name and, secondarily, by resource type.

use vstd::prelude::*;
use crate::record::{Record, RecordView};

verus! {

/// How far record compression has proceeded on this chunk.
#[derive(Clone, Copy, Debug, PartialEq, Eq, Structural)]
pub enum CompressionState {
    Uncompressed,
    Compressed,
    InProgress,
}

/// Errors raised by chunk operations.
#[derive(Debug)]
pub enum ChunkError {
    OutOfTimeRange(String),
    CompressionFailed(String),
    DiskWriteFailed(String),
    ValidationFailed(String),
    DataCorrupted(String),
    IndexError(String),
    SerializationFailed(String),
    DeserializationFailed(String),
    DiskReadFailed(String),
}

/// The stored 64-bit pattern of a compression ratio of one, the ratio of the
/// identity compressor.
pub const RATIO_ONE_BITS: u64 = 0x3FF0000000000000;

/// Bookkeeping carried with each chunk.
#[derive(Debug)]
pub struct ChunkMetadata {
    /// When the chunk was created, Unix seconds.
    pub created_at: i64,
    /// When the chunk was last read or written, Unix seconds.
    pub last_access: i64,
    /// 64-bit pattern of the achieved compression ratio.
    pub compression_ratio_bits: u64,
    /// Number of records over all metrics, saturating at the machine limit.
    pub record_count: usize,
}

/// All records of one metric, in insertion order.
#[derive(Debug)]
pub struct MetricSeries {
    pub name: String,
    pub records: Vec<Record>,
}

/// The metric names seen for one resource type.
#[derive(Debug)]
pub struct ResourceMetrics {
    pub resource_type: String,
    pub metrics: Vec<String>,
}

/// A bucket of records with timestamps in `[start_time, end_time)`.
#[derive(Debug)]
pub struct TimeChunk {
    pub start_time: i64,
    pub end_time: i64,
    /// Primary index: one series per metric name.
    pub series: Vec<MetricSeries>,
    /// Secondary index: resource type to the metrics it contributed.
    pub resource_metrics: Vec<ResourceMetrics>,
    pub metadata: ChunkMetadata,
    pub compression_state: CompressionState,
    /// Mutated since the last successful flush. Not persisted.
    pub dirty: bool,
}

#[verifier::ext_equal]
pub ghost struct SeriesView {
    pub name: Seq<char>,
    pub records: Seq<RecordView>,
}

#[verifier::ext_equal]
pub ghost struct ResourceMetricsView {
    pub resource_type: Seq<char>,
    pub metrics: Seq<Seq<char>>,
}

#[verifier::ext_equal]
pub ghost struct ChunkView {
    pub start_time: int,
    pub end_time: int,
    pub series: Seq<SeriesView>,
    pub resource_metrics: Seq<ResourceMetricsView>,
    pub created_at: int,
    pub last_access: int,
    pub compression_ratio_bits: u64,
    pub record_count: int,
    pub compression_state: CompressionState,
    pub dirty: bool,
}

impl View for MetricSeries {
    type V = SeriesView;

    open spec fn view(&self) -> SeriesView {
        SeriesView { name: self.name@, records: self.records.deep_view() }
    }
}

impl DeepView for MetricSeries {
    type V = SeriesView;

    open spec fn deep_view(&self) -> SeriesView {
        self.view()
    }
}

impl View for ResourceMetrics {
    type V = ResourceMetricsView;

    open spec fn view(&self) -> ResourceMetricsView {
        ResourceMetricsView { resource_type: self.resource_type@, metrics: self.metrics.deep_view() }
    }
}

impl DeepView for ResourceMetrics {
    type V = ResourceMetricsView;

    open spec fn deep_view(&self) -> ResourceMetricsView {
        self.view()
    }
}

impl View for TimeChunk {
    type V = ChunkView;

    open spec fn view(&self) -> ChunkView {
        ChunkView {
            start_time: self.start_time as int,
            end_time: self.end_time as int,
            series: self.series.deep_view(),
            resource_metrics: self.resource_metrics.deep_view(),
            created_at: self.metadata.created_at as int,
            last_access: self.metadata.last_access as int,
            compression_ratio_bits: self.metadata.compression_ratio_bits,
            record_count: self.metadata.record_count as int,
            compression_state: self.compression_state,
            dirty: self.dirty,
        }
    }
}

impl DeepView for TimeChunk {
    type V = ChunkView;

    open spec fn deep_view(&self) -> ChunkView {
        self.view()
    }
}

/// Total number of records over a sequence of series.
pub open spec fn series_total(ss: Seq<SeriesView>) -> int
    decreases ss.len(),
{
    if ss.len() == 0 {
        0
    } else {
        ss[0].records.len() + series_total(ss.drop_first())
    }
}

/// An integer capped at the machine word.
pub open spec fn cap_usize(n: int) -> int {
    if n > usize::MAX as int {
        usize::MAX as int
    } else {
        n
    }
}

/// The metric's series, scanning in index order; empty if absent.
pub open spec fn series_lookup(ss: Seq<SeriesView>, m: Seq<char>) -> Seq<RecordView>
    decreases ss.len(),
{
    if ss.len() == 0 {
        Seq::empty()
    } else if ss[0].name == m {
        ss[0].records
    } else {
        series_lookup(ss.drop_first(), m)
    }
}

/// The primary index holds the metric.
pub open spec fn series_has(ss: Seq<SeriesView>, m: Seq<char>) -> bool
    decreases ss.len(),
{
    if ss.len() == 0 {
        false
    } else {
        ss[0].name == m || series_has(ss.drop_first(), m)
    }
}

/// The secondary index lists metric `m` under resource type `rt`.
pub open spec fn rm_has(rms: Seq<ResourceMetricsView>, rt: Seq<char>, m: Seq<char>) -> bool
    decreases rms.len(),
{
    if rms.len() == 0 {
        false
    } else if rms[0].resource_type == rt {
        rms[0].metrics.contains(m)
    } else {
        rm_has(rms.drop_first(), rt, m)
    }
}

/// Series names are unique, each series is non-empty, and every record sits
/// under its own metric name.
pub open spec fn series_wf(ss: Seq<SeriesView>) -> bool {
    &&& forall|i: int, j: int|
        0 <= i < j < ss.len() ==> #[trigger] ss[i].name != #[trigger] ss[j].name
    &&& forall|i: int| 0 <= i < ss.len() ==> (#[trigger] ss[i]).records.len() > 0
    &&& forall|i: int, k: int|
        0 <= i < ss.len() && 0 <= k < (#[trigger] ss[i]).records.len() ==> (
        #[trigger] ss[i].records[k]).metric_name == ss[i].name
}

/// Resource types are unique and each entry's metric list has no repeats.
pub open spec fn rm_wf(rms: Seq<ResourceMetricsView>) -> bool {
    &&& forall|i: int, j: int|
        0 <= i < j < rms.len() ==> #[trigger] rms[i].resource_type != #[trigger] rms[j].resource_type
    &&& forall|i: int, k: int, l: int|
        0 <= i < rms.len() && 0 <= k < l < (#[trigger] rms[i]).metrics.len()
            ==> #[trigger] rms[i].metrics[k] != #[trigger] rms[i].metrics[l]
}

impl ChunkView {
    /// The primary index holds the metric.
    pub open spec fn has_metric(self, m: Seq<char>) -> bool {
        series_has(self.series, m)
    }

    /// The records stored for a metric, in insertion order; empty if the
    /// metric is absent.
    pub open spec fn records_for(self, m: Seq<char>) -> Seq<RecordView> {
        series_lookup(self.series, m)
    }

    /// Number of records over all metrics.
    pub open spec fn total(self) -> int {
        series_total(self.series)
    }

    /// The secondary index lists metric `m` under `rt`.
    pub open spec fn has_resource_metric(self, rt: Seq<char>, m: Seq<char>) -> bool {
        rm_has(self.resource_metrics, rt, m)
    }

    /// Structural soundness of the two indexes and the bookkeeping:
    /// sound primary and secondary indexes, a record count that matches the
    /// contents (saturating at the machine word), and coverage of every
    /// `(resource_type, metric)` pair of the primary index by the secondary.
    pub open spec fn wf(self) -> bool {
        &&& self.start_time < self.end_time
        &&& series_wf(self.series)
        &&& rm_wf(self.resource_metrics)
        &&& self.record_count == cap_usize(self.total())
        &&& forall|i: int, k: int|
            0 <= i < self.series.len() && 0 <= k < (#[trigger] self.series[i]).records.len()
                ==> self.has_resource_metric(
                (#[trigger] self.series[i].records[k]).resource_type,
                self.series[i].name,
            )
    }

    /// Every record's timestamp lies inside the chunk window.
    pub open spec fn in_window(self) -> bool {
        forall|i: int, k: int|
            0 <= i < self.series.len() && 0 <= k < self.series[i].records.len()
                ==> self.start_time <= (#[trigger] self.series[i].records[k]).timestamp
                < self.end_time
    }

    /// The timestamp can be stored here.
    pub open spec fn accepts(self, ts: int) -> bool {
        self.start_time <= ts < self.end_time
    }
}

} // verus!

verus! {

// --- how the index spec functions react to updates --------------------------

pub proof fn lemma_series_wf_drop(ss: Seq<SeriesView>)
    requires
        series_wf(ss),
        ss.len() > 0,
    ensures
        series_wf(ss.drop_first()),
{
    let d = ss.drop_first();
    assert(forall|i: int| 0 <= i < d.len() ==> d[i] == ss[i + 1]);
}

/// The recursive membership test agrees with the quantified one.
pub proof fn lemma_series_has_iff(ss: Seq<SeriesView>, m: Seq<char>)
    ensures
        series_has(ss, m) <==> exists|i: int| 0 <= i < ss.len() && (#[trigger] ss[i]).name == m,
    decreases ss.len(),
{
    if ss.len() > 0 {
        lemma_series_has_iff(ss.drop_first(), m);
        let d = ss.drop_first();
        assert(forall|i: int| 0 <= i < d.len() ==> d[i] == ss[i + 1]);
        if series_has(ss, m) && ss[0].name != m {
            let i = choose|i: int| 0 <= i < d.len() && (#[trigger] d[i]).name == m;
            assert(ss[i + 1].name == m);
        }
        if exists|i: int| 0 <= i < ss.len() && (#[trigger] ss[i]).name == m {
            let i = choose|i: int| 0 <= i < ss.len() && (#[trigger] ss[i]).name == m;
            if i > 0 {
                assert(d[i - 1].name == m);
            }
        }
    }
}

/// What the lookup returns, for any metric: a series of the index, every
/// record of it named after the metric.
pub proof fn lemma_lookup_props(ss: Seq<SeriesView>, m: Seq<char>)
    requires
        series_wf(ss),
    ensures
        series_has(ss, m) ==> exists|i: int|
            0 <= i < ss.len() && (#[trigger] ss[i]).name == m && series_lookup(ss, m)
                == ss[i].records,
        !series_has(ss, m) ==> series_lookup(ss, m) == Seq::<RecordView>::empty(),
        forall|k: int|
            0 <= k < series_lookup(ss, m).len() ==> (#[trigger] series_lookup(ss, m)[k]).metric_name
                == m,
        series_has(ss, m) ==> series_lookup(ss, m).len() > 0,
    decreases ss.len(),
{
    if ss.len() > 0 {
        lemma_series_wf_drop(ss);
        lemma_lookup_props(ss.drop_first(), m);
        let d = ss.drop_first();
        assert(forall|i: int| 0 <= i < d.len() ==> d[i] == ss[i + 1]);
        if ss[0].name != m && series_has(d, m) {
            let i = choose|i: int|
                0 <= i < d.len() && (#[trigger] d[i]).name == m && series_lookup(d, m)
                    == d[i].records;
            assert(ss[i + 1].name == m && series_lookup(ss, m) == ss[i + 1].records);
        }
    }
}

/// Looking up the name of the series at `i` finds exactly that series.
pub proof fn lemma_lookup_at(ss: Seq<SeriesView>, i: int)
    requires
        series_wf(ss),
        0 <= i < ss.len(),
    ensures
        series_has(ss, ss[i].name),
        series_lookup(ss, ss[i].name) == ss[i].records,
    decreases i,
{
    if i == 0 {
    } else {
        lemma_series_wf_drop(ss);
        let d = ss.drop_first();
        assert(forall|j: int| 0 <= j < d.len() ==> d[j] == ss[j + 1]);
        lemma_lookup_at(d, i - 1);
    }
}

/// Replacing one series with one of the same name rewrites that metric's
/// records and nothing else.
pub proof fn lemma_lookup_update(ss: Seq<SeriesView>, i: int, s2: SeriesView, m: Seq<char>)
    requires
        series_wf(ss),
        0 <= i < ss.len(),
        s2.name == ss[i].name,
    ensures
        series_lookup(ss.update(i, s2), m) == (if m == ss[i].name {
            s2.records
        } else {
            series_lookup(ss, m)
        }),
        series_has(ss.update(i, s2), m) == series_has(ss, m),
    decreases i,
{
    let u = ss.update(i, s2);
    if i == 0 {
        assert(u.drop_first() =~= ss.drop_first());
    } else {
        lemma_series_wf_drop(ss);
        let d = ss.drop_first();
        assert(forall|j: int| 0 <= j < d.len() ==> d[j] == ss[j + 1]);
        lemma_lookup_update(d, i - 1, s2, m);
        assert(u.drop_first() =~= d.update(i - 1, s2));
        assert(u[0] == ss[0]);
        assert(ss[0].name != ss[i].name);
    }
}

/// Appending a series for a new metric adds that metric and keeps the rest.
pub proof fn lemma_lookup_push(ss: Seq<SeriesView>, s2: SeriesView, m: Seq<char>)
    requires
        !series_has(ss, s2.name),
    ensures
        series_lookup(ss.push(s2), m) == (if m == s2.name {
            s2.records
        } else {
            series_lookup(ss, m)
        }),
        series_has(ss.push(s2), m) == (series_has(ss, m) || m == s2.name),
    decreases ss.len(),
{
    let u = ss.push(s2);
    assert(u.len() == ss.len() + 1);
    if ss.len() == 0 {
        assert(u[0] == s2);
        assert(u.drop_first() =~= Seq::<SeriesView>::empty());
        assert(series_lookup(Seq::<SeriesView>::empty(), m) == Seq::<RecordView>::empty());
        assert(!series_has(Seq::<SeriesView>::empty(), m));
    } else {
        lemma_lookup_push(ss.drop_first(), s2, m);
        assert(u.drop_first() =~= ss.drop_first().push(s2));
        assert(u[0] == ss[0]);
    }
}

pub proof fn lemma_total_update(ss: Seq<SeriesView>, i: int, s2: SeriesView)
    requires
        0 <= i < ss.len(),
    ensures
        series_total(ss.update(i, s2)) == series_total(ss) - ss[i].records.len()
            + s2.records.len(),
    decreases i,
{
    let u = ss.update(i, s2);
    if i == 0 {
        assert(u.drop_first() =~= ss.drop_first());
    } else {
        lemma_total_update(ss.drop_first(), i - 1, s2);
        assert(u.drop_first() =~= ss.drop_first().update(i - 1, s2));
        assert(u[0] == ss[0]);
    }
}

pub proof fn lemma_total_push(ss: Seq<SeriesView>, s2: SeriesView)
    ensures
        series_total(ss.push(s2)) == series_total(ss) + s2.records.len(),
    decreases ss.len(),
{
    let u = ss.push(s2);
    if ss.len() == 0 {
        assert(u.drop_first() =~= Seq::<SeriesView>::empty());
        assert(series_total(u.drop_first()) == 0);
    } else {
        lemma_total_push(ss.drop_first(), s2);
        assert(u.drop_first() =~= ss.drop_first().push(s2));
        assert(u[0] == ss[0]);
    }
}

// --- the same for the secondary index ----------------------------------------

/// A resource type is present in the secondary index.
pub open spec fn rm_has_type(rms: Seq<ResourceMetricsView>, rt: Seq<char>) -> bool
    decreases rms.len(),
{
    if rms.len() == 0 {
        false
    } else {
        rms[0].resource_type == rt || rm_has_type(rms.drop_first(), rt)
    }
}

pub proof fn lemma_rm_wf_drop(rms: Seq<ResourceMetricsView>)
    requires
        rm_wf(rms),
        rms.len() > 0,
    ensures
        rm_wf(rms.drop_first()),
{
    let d = rms.drop_first();
    assert(forall|i: int| 0 <= i < d.len() ==> d[i] == rms[i + 1]);
}

pub proof fn lemma_rm_has_type_iff(rms: Seq<ResourceMetricsView>, rt: Seq<char>)
    ensures
        rm_has_type(rms, rt) <==> exists|i: int|
            0 <= i < rms.len() && (#[trigger] rms[i]).resource_type == rt,
    decreases rms.len(),
{
    if rms.len() > 0 {
        lemma_rm_has_type_iff(rms.drop_first(), rt);
        let d = rms.drop_first();
        assert(forall|i: int| 0 <= i < d.len() ==> d[i] == rms[i + 1]);
        if rm_has_type(rms, rt) && rms[0].resource_type != rt {
            let i = choose|i: int| 0 <= i < d.len() && (#[trigger] d[i]).resource_type == rt;
            assert(rms[i + 1].resource_type == rt);
        }
        if exists|i: int| 0 <= i < rms.len() && (#[trigger] rms[i]).resource_type == rt {
            let i = choose|i: int| 0 <= i < rms.len() && (#[trigger] rms[i]).resource_type == rt;
            if i > 0 {
                assert(d[i - 1].resource_type == rt);
            }
        }
    }
}

/// Membership under the entry at `i` is membership in that entry's list.
pub proof fn lemma_rm_has_at(rms: Seq<ResourceMetricsView>, i: int, m: Seq<char>)
    requires
        rm_wf(rms),
        0 <= i < rms.len(),
    ensures
        rm_has(rms, rms[i].resource_type, m) == rms[i].metrics.contains(m),
    decreases i,
{
    if i == 0 {
    } else {
        lemma_rm_wf_drop(rms);
        let d = rms.drop_first();
        assert(forall|j: int| 0 <= j < d.len() ==> d[j] == rms[j + 1]);
        lemma_rm_has_at(d, i - 1, m);
        assert(rms[0].resource_type != rms[i].resource_type);
    }
}

/// Replacing one entry with one of the same resource type rewrites that
/// type's metric set and nothing else.
pub proof fn lemma_rm_update(
    rms: Seq<ResourceMetricsView>,
    i: int,
    e2: ResourceMetricsView,
    rt: Seq<char>,
    m: Seq<char>,
)
    requires
        rm_wf(rms),
        0 <= i < rms.len(),
        e2.resource_type == rms[i].resource_type,
    ensures
        rm_has(rms.update(i, e2), rt, m) == (if rt == rms[i].resource_type {
            e2.metrics.contains(m)
        } else {
            rm_has(rms, rt, m)
        }),
    decreases i,
{
    let u = rms.update(i, e2);
    if i == 0 {
        assert(u.drop_first() =~= rms.drop_first());
    } else {
        lemma_rm_wf_drop(rms);
        let d = rms.drop_first();
        assert(forall|j: int| 0 <= j < d.len() ==> d[j] == rms[j + 1]);
        lemma_rm_update(d, i - 1, e2, rt, m);
        assert(u.drop_first() =~= d.update(i - 1, e2));
        assert(u[0] == rms[0]);
        assert(rms[0].resource_type != rms[i].resource_type);
    }
}

/// Appending an entry for a new resource type adds its pairs and keeps the
/// rest.
pub proof fn lemma_rm_push(
    rms: Seq<ResourceMetricsView>,
    e2: ResourceMetricsView,
    rt: Seq<char>,
    m: Seq<char>,
)
    requires
        !rm_has_type(rms, e2.resource_type),
    ensures
        rm_has(rms.push(e2), rt, m) == (rm_has(rms, rt, m) || (rt == e2.resource_type
            && e2.metrics.contains(m))),
    decreases rms.len(),
{
    let u = rms.push(e2);
    assert(u.len() == rms.len() + 1);
    if rms.len() == 0 {
        assert(u[0] == e2);
        assert(u.drop_first() =~= Seq::<ResourceMetricsView>::empty());
        assert(!rm_has(Seq::<ResourceMetricsView>::empty(), rt, m));
    } else {
        lemma_rm_push(rms.drop_first(), e2, rt, m);
        assert(u.drop_first() =~= rms.drop_first().push(e2));
        assert(u[0] == rms[0]);
    }
}

} // verus!

verus! {

/// Estimated bytes per stored record, for sizing chunks.
pub const RECORD_BYTES: usize = 112;

/// Estimated in-memory size: per metric, the name's bytes plus a fixed cost
/// per record.
pub open spec fn series_size(ss: Seq<SeriesView>) -> int
    decreases ss.len(),
{
    if ss.len() == 0 {
        0
    } else {
        vstd::utf8::encode_utf8(ss[0].name).len() + ss[0].records.len() * (RECORD_BYTES as int)
            + series_size(ss.drop_first())
    }
}

/// Relies on `std::time::SystemTime::now` and `duration_since(UNIX_EPOCH)`
/// (std): the wall clock as Unix seconds; zero before the epoch. Nothing
/// more can be promised of a clock reading.
#[verifier::external_body]
fn now_seconds() -> (r: i64)
    ensures
        r >= 0,
{
    match std::time::SystemTime::now().duration_since(std::time::UNIX_EPOCH) {
        Ok(d) => i64::try_from(d.as_secs()).unwrap_or(i64::MAX),
        Err(_) => 0,
    }
}

/// Index of the series for `name`, if any.
fn find_series(series: &Vec<MetricSeries>, name: &str) -> (r: Option<usize>)
    ensures
        match r {
            Some(i) => i < series@.len() && series.deep_view()[i as int].name == name@,
            None => !series_has(series.deep_view(), name@),
        },
{
    let mut i: usize = 0;
    while i < series.len()
        invariant
            i <= series@.len(),
            forall|j: int| 0 <= j < i as int ==> series.deep_view()[j].name != name@,
        decreases series@.len() - i,
    {
        if crate::strutil::str_eq(series[i].name.as_str(), name) {
            proof {
                assert(series.deep_view()[i as int].name == name@);
            }
            return Some(i);
        }
        i = i + 1;
    }
    proof {
        lemma_series_has_iff(series.deep_view(), name@);
    }
    None
}

/// Whether some element of `v` spells `s`.
pub(crate) fn contains_string(v: &Vec<String>, s: &str) -> (r: bool)
    ensures
        r == v.deep_view().contains(s@),
{
    let mut i: usize = 0;
    while i < v.len()
        invariant
            i <= v@.len(),
            forall|j: int| 0 <= j < i as int ==> v.deep_view()[j] != s@,
        decreases v@.len() - i,
    {
        if crate::strutil::str_eq(v[i].as_str(), s) {
            proof {
                assert(v.deep_view()[i as int] == s@);
            }
            return true;
        }
        i = i + 1;
    }
    proof {
        if v.deep_view().contains(s@) {
            let j = choose|j: int| 0 <= j < v.deep_view().len() && v.deep_view()[j] == s@;
            assert(false);
        }
    }
    false
}

/// Index of the secondary-index entry for `rt`, if any.
fn find_resource_entry(rms: &Vec<ResourceMetrics>, rt: &str) -> (r: Option<usize>)
    ensures
        match r {
            Some(i) => i < rms@.len() && rms.deep_view()[i as int].resource_type == rt@,
            None => !rm_has_type(rms.deep_view(), rt@),
        },
{
    let mut i: usize = 0;
    while i < rms.len()
        invariant
            i <= rms@.len(),
            forall|j: int| 0 <= j < i as int ==> rms.deep_view()[j].resource_type != rt@,
        decreases rms@.len() - i,
    {
        if crate::strutil::str_eq(rms[i].resource_type.as_str(), rt) {
            proof {
                assert(rms.deep_view()[i as int].resource_type == rt@);
            }
            return Some(i);
        }
        i = i + 1;
    }
    proof {
        lemma_rm_has_type_iff(rms.deep_view(), rt@);
    }
    None
}

/// Notes the pair `(rt, m)` in the secondary index, once.
fn add_resource_metric(rms: &mut Vec<ResourceMetrics>, rt: &String, m: &String)
    requires
        rm_wf(old(rms).deep_view()),
    ensures
        rm_wf(final(rms).deep_view()),
        forall|rt2: Seq<char>, m2: Seq<char>|
            #[trigger] rm_has(final(rms).deep_view(), rt2, m2) == (rm_has(
                old(rms).deep_view(),
                rt2,
                m2,
            ) || (rt2 == rt@ && m2 == m@)),
{
    let ghost olddv = rms.deep_view();
    match find_resource_entry(rms, rt.as_str()) {
        Some(i) => {
            let mut entry = rms.remove(i);
            let ghost oldentry = entry.deep_view();
            let already = contains_string(&entry.metrics, m.as_str());
            if !already {
                let ghost oldms = entry.metrics;
                let cloned = m.clone();
                let ghost pushed = cloned;
                entry.metrics.push(cloned);
                proof {
                    crate::codec::lemma_deep_view_push(oldms, entry.metrics, pushed);
                }
            }
            let ghost e2 = entry.deep_view();
            rms.insert(i, entry);
            proof {
                assert(rms.deep_view() =~= olddv.update(i as int, e2));
                assert(e2.resource_type == olddv[i as int].resource_type);
                assert forall|m2: Seq<char>| #[trigger] e2.metrics.contains(m2) == (
                oldentry.metrics.contains(m2) || m2 == m@) by {
                    if already {
                        assert(e2 == oldentry);
                        if m2 == m@ {
                            assert(oldentry.metrics.contains(m2));
                        }
                    } else {
                        assert(e2.metrics == oldentry.metrics.push(m@));
                        if oldentry.metrics.contains(m2) {
                            let j = choose|j: int|
                                0 <= j < oldentry.metrics.len() && oldentry.metrics[j] == m2;
                            assert(e2.metrics[j] == m2);
                            assert(e2.metrics.contains(m2));
                        }
                        if m2 == m@ {
                            assert(e2.metrics[e2.metrics.len() - 1] == m2);
                            assert(e2.metrics.contains(m2));
                        }
                        if e2.metrics.contains(m2) {
                            let j = choose|j: int|
                                0 <= j < e2.metrics.len() && e2.metrics[j] == m2;
                            if j < oldentry.metrics.len() {
                                assert(oldentry.metrics[j] == m2);
                                assert(oldentry.metrics.contains(m2));
                            } else {
                                assert(m2 == m@);
                            }
                        }
                    }
                }
                assert forall|a: int, k: int, l: int|
                    0 <= a < rms.deep_view().len() && 0 <= k < l < (#[trigger] rms.deep_view()[a]).metrics.len() implies
                    #[trigger] rms.deep_view()[a].metrics[k] != #[trigger] rms.deep_view()[a].metrics[l] by {
                    if a == i as int && !already && l == e2.metrics.len() - 1 {
                        assert(oldentry.metrics[k] == e2.metrics[k]);
                        assert(!oldentry.metrics.contains(m@));
                    }
                }
                assert forall|rt2: Seq<char>, m2: Seq<char>| #[trigger] rm_has(
                    rms.deep_view(),
                    rt2,
                    m2,
                ) == (rm_has(olddv, rt2, m2) || (rt2 == rt@ && m2 == m@)) by {
                    lemma_rm_update(olddv, i as int, e2, rt2, m2);
                    if rt2 == rt@ {
                        lemma_rm_has_at(olddv, i as int, m2);
                    }
                }
            }
        },
        None => {
            let mut metrics: Vec<String> = Vec::new();
            metrics.push(m.clone());
            let entry = ResourceMetrics { resource_type: rt.clone(), metrics };
            let ghost e2 = entry.deep_view();
            let ghost prev = *rms;
            rms.push(entry);
            proof {
                crate::codec::lemma_deep_view_push(prev, *rms, entry);
                assert(e2.metrics =~= seq![m@]);
                assert forall|rt2: Seq<char>, m2: Seq<char>| #[trigger] rm_has(
                    rms.deep_view(),
                    rt2,
                    m2,
                ) == (rm_has(olddv, rt2, m2) || (rt2 == rt@ && m2 == m@)) by {
                    lemma_rm_push(olddv, e2, rt2, m2);
                    if rm_has(olddv, rt@, m2) {
                        lemma_rm_has_type_iff(olddv, rt@);
                        lemma_rm_has_implies_type(olddv, rt@, m2);
                    }
                    if m2 == m@ {
                        assert(e2.metrics[0] == m2);
                        assert(e2.metrics.contains(m2));
                    }
                    if e2.metrics.contains(m2) {
                        let j = choose|j: int| 0 <= j < e2.metrics.len() && e2.metrics[j] == m2;
                        assert(j == 0);
                        assert(m2 == m@);
                    }
                }
                lemma_rm_has_type_iff(olddv, rt@);
                assert forall|a: int, b: int|
                    0 <= a < b < rms.deep_view().len() implies #[trigger] rms.deep_view()[a].resource_type
                    != #[trigger] rms.deep_view()[b].resource_type by {
                    if b == rms.deep_view().len() - 1 {
                        assert(rms.deep_view()[a] == olddv[a]);
                    }
                }
            }
        },
    }
}

/// If a pair is listed under a type, the type is present.
proof fn lemma_rm_has_implies_type(rms: Seq<ResourceMetricsView>, rt: Seq<char>, m: Seq<char>)
    requires
        rm_has(rms, rt, m),
    ensures
        rm_has_type(rms, rt),
    decreases rms.len(),
{
    if rms.len() > 0 && rms[0].resource_type != rt {
        lemma_rm_has_implies_type(rms.drop_first(), rt, m);
    }
}

} // verus!

verus! {

impl TimeChunk {
    /// An empty chunk for the window `[start_time, end_time)`.
    pub fn new(start_time: i64, end_time: i64) -> (c: Self)
        requires
            start_time < end_time,
        ensures
            c@.wf(),
            c@.in_window(),
            c@.start_time == start_time as int,
            c@.end_time == end_time as int,
            c@.record_count == 0,
            c@.series.len() == 0,
            c@.compression_state is Uncompressed,
            c@.compression_ratio_bits == RATIO_ONE_BITS,
            c@.dirty,
            c@.created_at == c@.last_access,
            forall|m: Seq<char>| !(#[trigger] c@.has_metric(m)) && c@.records_for(m)
                == Seq::<RecordView>::empty(),
            forall|rt: Seq<char>, m: Seq<char>| !(#[trigger] c@.has_resource_metric(rt, m)),
    {
        let now = now_seconds();
        let c = TimeChunk {
            start_time,
            end_time,
            series: Vec::new(),
            resource_metrics: Vec::new(),
            metadata: ChunkMetadata {
                created_at: now,
                last_access: now,
                compression_ratio_bits: RATIO_ONE_BITS,
                record_count: 0,
            },
            compression_state: CompressionState::Uncompressed,
            dirty: true,
        };
        proof {
            assert(c@.series =~= Seq::<SeriesView>::empty());
            assert(c@.resource_metrics =~= Seq::<ResourceMetricsView>::empty());
        }
        c
    }

    /// The timestamp falls inside this chunk's window.
    pub fn can_accept(&self, timestamp: i64) -> (r: bool)
        ensures
            r == self@.accepts(timestamp as int),
    {
        timestamp >= self.start_time && timestamp < self.end_time
    }

    /// Adds a record to both indexes.
    ///
    /// Fails with `OutOfTimeRange` exactly when the record's timestamp lies
    /// outside the window; nothing changes then. On success the record is
    /// appended to its metric's series and the pair
    /// `(resource_type, metric_name)` is noted in the secondary index.
    pub fn append(&mut self, record: Record) -> (r: Result<(), ChunkError>)
        requires
            old(self)@.wf(),
        ensures
            final(self)@.wf(),
            final(self)@.start_time == old(self)@.start_time,
            final(self)@.end_time == old(self)@.end_time,
            final(self)@.compression_state == old(self)@.compression_state,
            final(self)@.created_at == old(self)@.created_at,
            match r {
                Ok(()) => {
                    &&& old(self)@.accepts(record@.timestamp)
                    &&& final(self)@.records_for(record@.metric_name) == old(self)@.records_for(
                        record@.metric_name,
                    ).push(record@)
                    &&& forall|m: Seq<char>|
                        m != record@.metric_name ==> #[trigger] final(self)@.records_for(m) == old(
                            self,
                        )@.records_for(m)
                    &&& forall|m: Seq<char>|
                        #[trigger] final(self)@.has_metric(m) == (old(self)@.has_metric(m) || m
                            == record@.metric_name)
                    &&& forall|rt: Seq<char>, m: Seq<char>|
                        #[trigger] final(self)@.has_resource_metric(rt, m) == (old(
                            self,
                        )@.has_resource_metric(rt, m) || (rt == record@.resource_type && m
                            == record@.metric_name))
                    &&& final(self)@.dirty
                    &&& final(self)@.total() == old(self)@.total() + 1
                    &&& old(self)@.in_window() ==> final(self)@.in_window()
                },
                Err(e) => {
                    &&& e is OutOfTimeRange
                    &&& !old(self)@.accepts(record@.timestamp)
                    &&& final(self)@ == old(self)@
                },
            },
    {
        if !self.can_accept(record.timestamp) {
            return Err(
                ChunkError::OutOfTimeRange("record timestamp outside chunk window".to_owned()),
            );
        }
        let ghost rv = record@;
        let ghost oldss = self.series.deep_view();
        let ghost oldrm = self.resource_metrics.deep_view();
        add_resource_metric(&mut self.resource_metrics, &record.resource_type, &record.metric_name);
        match find_series(&self.series, record.metric_name.as_str()) {
            Some(i) => {
                let mut s = self.series.remove(i);
                let ghost olds = s.deep_view();
                let ghost oldrecs = s.records;
                s.records.push(record);
                proof {
                    crate::codec::lemma_deep_view_push(oldrecs, s.records, record);
                }
                let ghost s2 = s.deep_view();
                self.series.insert(i, s);
                proof {
                    assert(self.series.deep_view() =~= oldss.update(i as int, s2));
                    assert(s2.name == oldss[i as int].name);
                    assert(s2.records == olds.records.push(rv));
                    lemma_lookup_at(oldss, i as int);
                    assert(olds.records == series_lookup(oldss, rv.metric_name));
                    assert forall|m: Seq<char>| #[trigger] series_lookup(
                        self.series.deep_view(),
                        m,
                    ) == (if m == rv.metric_name {
                        series_lookup(oldss, m).push(rv)
                    } else {
                        series_lookup(oldss, m)
                    }) by {
                        lemma_lookup_update(oldss, i as int, s2, m);
                    }
                    assert forall|m: Seq<char>| #[trigger] series_has(self.series.deep_view(), m)
                        == (series_has(oldss, m) || m == rv.metric_name) by {
                        lemma_lookup_update(oldss, i as int, s2, m);
                        if m == rv.metric_name {
                            lemma_series_has_iff(oldss, m);
                        }
                    }
                    lemma_total_update(oldss, i as int, s2);
                    lemma_shape_update(oldss, i as int, s2, rv);
                }
            },
            None => {
                let name = record.metric_name.clone();
                let mut recs: Vec<Record> = Vec::new();
                recs.push(record);
                let s = MetricSeries { name, records: recs };
                let ghost s2 = s.deep_view();
                let ghost prev = self.series;
                self.series.push(s);
                proof {
                    crate::codec::lemma_deep_view_push(prev, self.series, s);
                    assert(s2.records =~= seq![rv]);
                    assert(s2.name == rv.metric_name);
                    lemma_lookup_props(oldss, rv.metric_name);
                    assert(series_lookup(oldss, rv.metric_name) == Seq::<RecordView>::empty());
                    assert(s2.records =~= series_lookup(oldss, rv.metric_name).push(rv));
                    assert forall|m: Seq<char>| #[trigger] series_lookup(
                        self.series.deep_view(),
                        m,
                    ) == (if m == rv.metric_name {
                        series_lookup(oldss, m).push(rv)
                    } else {
                        series_lookup(oldss, m)
                    }) by {
                        lemma_lookup_push(oldss, s2, m);
                        if m == rv.metric_name {
                            lemma_lookup_props(oldss, m);
                        }
                    }
                    assert forall|m: Seq<char>| #[trigger] series_has(self.series.deep_view(), m)
                        == (series_has(oldss, m) || m == rv.metric_name) by {
                        lemma_lookup_push(oldss, s2, m);
                    }
                    lemma_total_push(oldss, s2);
                    lemma_shape_push(oldss, s2, rv);
                }
            },
        }
        self.metadata.record_count = self.metadata.record_count.saturating_add(1);
        self.metadata.last_access = now_seconds();
        self.dirty = true;
        proof {
            lemma_append_wf(oldss, oldrm, self.series.deep_view(), self.resource_metrics.deep_view(), rv, old(self)@, self@);
        }
        Ok(())
    }
}

/// The structural invariant survives an append: uniqueness is kept, the new
/// record sits under its own name, and the secondary index covers the one
/// new pair.
proof fn lemma_append_wf(
    oldss: Seq<SeriesView>,
    oldrm: Seq<ResourceMetricsView>,
    newss: Seq<SeriesView>,
    newrm: Seq<ResourceMetricsView>,
    rv: RecordView,
    oldcv: ChunkView,
    newcv: ChunkView,
)
    requires
        oldcv.wf(),
        oldcv.series == oldss,
        oldcv.resource_metrics == oldrm,
        newcv.series == newss,
        newcv.resource_metrics == newrm,
        newcv.start_time == oldcv.start_time,
        newcv.end_time == oldcv.end_time,
        rm_wf(newrm),
        forall|rt2: Seq<char>, m2: Seq<char>|
            #[trigger] rm_has(newrm, rt2, m2) == (rm_has(oldrm, rt2, m2) || (rt2
                == rv.resource_type && m2 == rv.metric_name)),
        forall|m: Seq<char>|
            #[trigger] series_lookup(newss, m) == (if m == rv.metric_name {
                series_lookup(oldss, m).push(rv)
            } else {
                series_lookup(oldss, m)
            }),
        forall|m: Seq<char>|
            #[trigger] series_has(newss, m) == (series_has(oldss, m) || m == rv.metric_name),
        oldcv.accepts(rv.timestamp),
        newcv.record_count == cap_usize(series_total(newss)),
        series_total(newss) == series_total(oldss) + 1,
        series_wf_update_shape(oldss, newss, rv),
    ensures
        newcv.wf(),
        oldcv.in_window() ==> newcv.in_window(),
{
    assert forall|i: int, k: int|
        0 <= i < newss.len() && 0 <= k < (#[trigger] newss[i]).records.len() implies rm_has(
        newrm,
        (#[trigger] newss[i].records[k]).resource_type,
        newss[i].name,
    ) by {
        lemma_append_series_shape(oldss, newss, rv, i, k);
        if !(newss[i].records[k] == rv && newss[i].name == rv.metric_name) {
            assert(rm_has(oldrm, newss[i].records[k].resource_type, newss[i].name));
        }
    }
    if oldcv.in_window() {
        assert forall|i: int, k: int|
            0 <= i < newss.len() && 0 <= k < (#[trigger] newss[i]).records.len() implies
            newcv.start_time <= (#[trigger] newss[i].records[k]).timestamp < newcv.end_time by {
            lemma_append_series_shape(oldss, newss, rv, i, k);
        }
    }
}

/// The series after an append are the old ones with one record added, in one
/// of the two legal shapes.
pub open spec fn series_wf_update_shape(
    oldss: Seq<SeriesView>,
    newss: Seq<SeriesView>,
    rv: RecordView,
) -> bool {
    series_wf(oldss) && series_wf(newss) && (forall|i: int, k: int|
        0 <= i < newss.len() && 0 <= k < (#[trigger] newss[i]).records.len() ==> (
        (#[trigger] newss[i].records[k]) == rv && newss[i].name == rv.metric_name) || (exists|
            i2: int,
            k2: int,
        |
            0 <= i2 < oldss.len() && 0 <= k2 < oldss[i2].records.len()
                && #[trigger] oldss[i2].records[k2] == newss[i].records[k] && oldss[i2].name
                == newss[i].name))
}

/// An in-place series extension has the legal shape.
proof fn lemma_shape_update(oldss: Seq<SeriesView>, i: int, s2: SeriesView, rv: RecordView)
    requires
        series_wf(oldss),
        0 <= i < oldss.len(),
        s2.name == oldss[i].name,
        s2.records == oldss[i].records.push(rv),
        rv.metric_name == s2.name,
    ensures
        series_wf_update_shape(oldss, oldss.update(i, s2), rv),
{
    let newss = oldss.update(i, s2);
    assert forall|a: int, k: int|
        0 <= a < newss.len() && 0 <= k < (#[trigger] newss[a]).records.len() implies (
    #[trigger] newss[a].records[k]).metric_name == newss[a].name by {
        if a == i && k == oldss[i].records.len() {
        } else if a == i {
            assert(newss[a].records[k] == oldss[a].records[k]);
        } else {
            assert(newss[a] == oldss[a]);
        }
    }
    assert forall|a: int, k: int|
        0 <= a < newss.len() && 0 <= k < (#[trigger] newss[a]).records.len() implies ((
    #[trigger] newss[a].records[k]) == rv && newss[a].name == rv.metric_name) || (exists|
        i2: int,
        k2: int,
    |
        0 <= i2 < oldss.len() && 0 <= k2 < oldss[i2].records.len()
            && #[trigger] oldss[i2].records[k2] == newss[a].records[k] && oldss[i2].name
            == newss[a].name) by {
        if a == i && k == oldss[i].records.len() {
        } else if a == i {
            assert(oldss[a].records[k] == newss[a].records[k] && oldss[a].name == newss[a].name);
        } else {
            assert(oldss[a].records[k] == newss[a].records[k] && oldss[a].name == newss[a].name);
        }
    }
}

/// A series appended for a new metric has the legal shape.
proof fn lemma_shape_push(oldss: Seq<SeriesView>, s2: SeriesView, rv: RecordView)
    requires
        series_wf(oldss),
        !series_has(oldss, s2.name),
        s2.name == rv.metric_name,
        s2.records == seq![rv],
    ensures
        series_wf_update_shape(oldss, oldss.push(s2), rv),
{
    let newss = oldss.push(s2);
    lemma_series_has_iff(oldss, s2.name);
    assert forall|a: int, b: int| 0 <= a < b < newss.len() implies #[trigger] newss[a].name
        != #[trigger] newss[b].name by {
        if b == oldss.len() {
            assert(newss[a] == oldss[a]);
        } else {
            assert(newss[a] == oldss[a] && newss[b] == oldss[b]);
        }
    }
    assert forall|a: int, k: int|
        0 <= a < newss.len() && 0 <= k < (#[trigger] newss[a]).records.len() implies (
    #[trigger] newss[a].records[k]).metric_name == newss[a].name by {
        if a == oldss.len() {
            assert(newss[a].records[k] == rv);
        } else {
            assert(newss[a] == oldss[a]);
        }
    }
    assert forall|a: int, k: int|
        0 <= a < newss.len() && 0 <= k < (#[trigger] newss[a]).records.len() implies ((
    #[trigger] newss[a].records[k]) == rv && newss[a].name == rv.metric_name) || (exists|
        i2: int,
        k2: int,
    |
        0 <= i2 < oldss.len() && 0 <= k2 < oldss[i2].records.len()
            && #[trigger] oldss[i2].records[k2] == newss[a].records[k] && oldss[i2].name
            == newss[a].name) by {
        if a == oldss.len() {
            assert(newss[a].records[k] == rv);
        } else {
            assert(newss[a] == oldss[a]);
            assert(oldss[a].records[k] == newss[a].records[k] && oldss[a].name == newss[a].name);
        }
    }
}

/// Helper to open the shape predicate at one position.
proof fn lemma_append_series_shape(
    oldss: Seq<SeriesView>,
    newss: Seq<SeriesView>,
    rv: RecordView,
    i: int,
    k: int,
)
    requires
        series_wf_update_shape(oldss, newss, rv),
        0 <= i < newss.len(),
        0 <= k < newss[i].records.len(),
    ensures
        (newss[i].records[k] == rv && newss[i].name == rv.metric_name) || (exists|i2: int, k2: int|
            0 <= i2 < oldss.len() && 0 <= k2 < oldss[i2].records.len()
                && #[trigger] oldss[i2].records[k2] == newss[i].records[k] && oldss[i2].name
                == newss[i].name),
{
}

} // verus!

verus! {

/// Records with timestamps in `[s, e)`, keeping their order.
pub open spec fn range_filter(rs: Seq<RecordView>, s: int, e: int) -> Seq<RecordView>
    decreases rs.len(),
{
    if rs.len() == 0 {
        Seq::empty()
    } else {
        let rest = range_filter(rs.drop_last(), s, e);
        if s <= rs.last().timestamp < e {
            rest.push(rs.last())
        } else {
            rest
        }
    }
}

/// Adjacent timestamps never decrease.
pub open spec fn nondecreasing(rs: Seq<RecordView>) -> bool {
    forall|k: int| 0 < k < rs.len() ==> (#[trigger] rs[k]).timestamp >= rs[k - 1].timestamp
}

/// The same records with timestamps rewritten to deltas: each one minus its
/// predecessor (minus zero for the first).
pub open spec fn delta_encode(rs: Seq<RecordView>) -> Seq<RecordView> {
    Seq::new(
        rs.len(),
        |k: int|
            RecordView {
                timestamp: rs[k].timestamp - (if k == 0 {
                    0int
                } else {
                    rs[k - 1].timestamp
                }),
                ..rs[k]
            },
    )
}

/// An owned copy of a record vector, element for element.
pub fn clone_records(v: &Vec<Record>) -> (r: Vec<Record>)
    ensures
        r.deep_view() == v.deep_view(),
{
    let mut r: Vec<Record> = Vec::new();
    let mut i: usize = 0;
    while i < v.len()
        invariant
            i <= v@.len(),
            r@.len() == i as int,
            forall|j: int| 0 <= j < i as int ==> #[trigger] r.deep_view()[j] == v.deep_view()[j],
        decreases v@.len() - i,
    {
        let rec = v[i].clone();
        let ghost prev = r;
        r.push(rec);
        proof {
            assert forall|j: int| 0 <= j < i as int + 1 implies #[trigger] r.deep_view()[j]
                == v.deep_view()[j] by {
                if j < i as int {
                    assert(r@[j] == prev@[j]);
                    assert(prev.deep_view()[j] == v.deep_view()[j]);
                }
            }
        }
        i = i + 1;
    }
    proof {
        assert(r.deep_view() =~= v.deep_view());
    }
    r
}

/// An owned copy of a string vector.
pub fn clone_strings(v: &Vec<String>) -> (r: Vec<String>)
    ensures
        r.deep_view() == v.deep_view(),
{
    let mut r: Vec<String> = Vec::new();
    let mut i: usize = 0;
    while i < v.len()
        invariant
            i <= v@.len(),
            r@.len() == i as int,
            forall|j: int| 0 <= j < i as int ==> #[trigger] r.deep_view()[j] == v.deep_view()[j],
        decreases v@.len() - i,
    {
        let s = v[i].clone();
        let ghost prev = r;
        r.push(s);
        proof {
            assert forall|j: int| 0 <= j < i as int + 1 implies #[trigger] r.deep_view()[j]
                == v.deep_view()[j] by {
                if j < i as int {
                    assert(r@[j] == prev@[j]);
                    assert(prev.deep_view()[j] == v.deep_view()[j]);
                }
            }
        }
        i = i + 1;
    }
    proof {
        assert(r.deep_view() =~= v.deep_view());
    }
    r
}

impl TimeChunk {
    /// Estimated in-memory size, saturating at the machine word.
    pub fn get_size(&self) -> (r: usize)
        ensures
            r as int == cap_usize(series_size(self@.series)),
    {
        let ghost ss = self@.series;
        let mut acc: usize = 0;
        let mut i: usize = 0;
        proof {
            assert(ss.take(0) =~= Seq::<SeriesView>::empty());
        }
        while i < self.series.len()
            invariant
                i <= self.series@.len(),
                ss == self.series.deep_view(),
                acc as int == cap_usize(series_size(ss.take(i as int))),
            decreases self.series@.len() - i,
        {
            let s = &self.series[i];
            let name_len = s.name.as_str().as_bytes().len();
            let rec_bytes = s.records.len().checked_mul(RECORD_BYTES).unwrap_or(usize::MAX);
            let add = name_len.saturating_add(rec_bytes);
            acc = acc.saturating_add(add);
            proof {
                lemma_series_size_snoc(ss, i as int);
                assert(ss[i as int] == s.deep_view());
            }
            i = i + 1;
        }
        proof {
            assert(ss.take(self.series@.len() as int) =~= ss);
        }
        acc
    }

    /// The chunk should be flushed: more than 10,000 records or an estimated
    /// size above 1,000,000 bytes.
    pub fn is_full(&self) -> (r: bool)
        requires
            self@.wf(),
        ensures
            r == (self@.total() > 10_000 || cap_usize(series_size(self@.series)) > 1_000_000),
    {
        self.metadata.record_count > 10_000 || self.get_size() > 1_000_000
    }

    pub fn is_dirty(&self) -> (r: bool)
        ensures
            r == self@.dirty,
    {
        self.dirty
    }

    pub fn mark_clean(&mut self)
        ensures
            final(self)@ == (ChunkView { dirty: false, ..old(self)@ }),
    {
        self.dirty = false;
    }

    /// The records of `metric` with `start <= timestamp < end`, in stored
    /// order. A query window that misses the chunk window yields an empty
    /// result; an absent metric is an `IndexError`.
    pub fn get_range(&self, start: i64, end: i64, metric: &str) -> (r: Result<
        Vec<Record>,
        ChunkError,
    >)
        requires
            self@.wf(),
        ensures
            ({
                let outside = start as int >= self@.end_time || (end as int) <= self@.start_time;
                match r {
                    Ok(v) => (outside && v.deep_view() == Seq::<RecordView>::empty()) || (!outside
                        && self@.has_metric(metric@) && v.deep_view() == range_filter(
                        self@.records_for(metric@),
                        start as int,
                        end as int,
                    )),
                    Err(e) => e is IndexError && !outside && !self@.has_metric(metric@),
                }
            }),
    {
        if start >= self.end_time || end <= self.start_time {
            let v: Vec<Record> = Vec::new();
            proof {
                assert(v.deep_view() =~= Seq::<RecordView>::empty());
            }
            return Ok(v);
        }
        match find_series(&self.series, metric) {
            None => Err(ChunkError::IndexError("metric not found".to_owned())),
            Some(i) => {
                proof {
                    lemma_lookup_at(self@.series, i as int);
                }
                let s = &self.series[i];
                let ghost rs = s.deep_view().records;
                let mut out: Vec<Record> = Vec::new();
                let mut k: usize = 0;
                proof {
                    assert(rs.take(0) =~= Seq::<RecordView>::empty());
                    assert(out.deep_view() =~= range_filter(rs.take(0), start as int, end as int));
                }
                while k < s.records.len()
                    invariant
                        k <= s.records@.len(),
                        rs == s.records.deep_view(),
                        out.deep_view() == range_filter(rs.take(k as int), start as int, end as int),
                    decreases s.records@.len() - k,
                {
                    proof {
                        assert(rs.take(k as int + 1).drop_last() =~= rs.take(k as int));
                        assert(rs.take(k as int + 1).last() == rs[k as int]);
                    }
                    if s.records[k].timestamp >= start && s.records[k].timestamp < end {
                        let rec = s.records[k].clone();
                        let ghost prev = out;
                        out.push(rec);
                        proof {
                            crate::codec::lemma_deep_view_push(prev, out, rec);
                            assert(rs[k as int] == s.records.deep_view()[k as int]);
                        }
                    }
                    k = k + 1;
                }
                proof {
                    assert(rs.take(s.records@.len() as int) =~= rs);
                }
                Ok(out)
            },
        }
    }

    /// An owned copy of the records of `metric`, or an `IndexError` if it is
    /// absent. Refreshes the access time.
    pub fn get_metric(&mut self, metric: &str) -> (r: Result<Vec<Record>, ChunkError>)
        requires
            old(self)@.wf(),
        ensures
            final(self)@.wf(),
            final(self)@ == (ChunkView { last_access: final(self)@.last_access, ..old(self)@ }),
            match r {
                Ok(v) => old(self)@.has_metric(metric@) && v.deep_view() == old(self)@.records_for(
                    metric@,
                ),
                Err(e) => e is IndexError && !old(self)@.has_metric(metric@),
            },
    {
        self.metadata.last_access = now_seconds();
        match find_series(&self.series, metric) {
            None => Err(ChunkError::IndexError("metric not found".to_owned())),
            Some(i) => {
                proof {
                    lemma_lookup_at(self@.series, i as int);
                }
                Ok(clone_records(&self.series[i].records))
            },
        }
    }

    /// The stored record of `metric` with the greatest timestamp, computed
    /// explicitly: insertion order is not trusted to be time order.
    pub fn get_latest(&self, metric: &str) -> (r: Option<Record>)
        requires
            self@.wf(),
        ensures
            match r {
                Some(rec) => self@.has_metric(metric@) && self@.records_for(metric@).contains(rec@)
                    && rec@.metric_name == metric@ && forall|k: int|
                    0 <= k < self@.records_for(metric@).len() ==> (#[trigger] self@.records_for(
                        metric@,
                    )[k]).timestamp <= rec@.timestamp,
                None => !self@.has_metric(metric@),
            },
    {
        match find_series(&self.series, metric) {
            None => None,
            Some(i) => {
                proof {
                    lemma_lookup_at(self@.series, i as int);
                    lemma_lookup_props(self@.series, metric@);
                }
                let s = &self.series[i];
                let ghost rs = s.deep_view().records;
                let mut best: usize = 0;
                let mut k: usize = 1;
                while k < s.records.len()
                    invariant
                        rs == s.records.deep_view(),
                        rs.len() > 0,
                        (best as int) < rs.len(),
                        1 <= k <= rs.len(),
                        forall|j: int| 0 <= j < k as int ==> (#[trigger] rs[j]).timestamp
                            <= rs[best as int].timestamp,
                    decreases s.records@.len() - k,
                {
                    if s.records[k].timestamp > s.records[best].timestamp {
                        best = k;
                    }
                    k = k + 1;
                }
                let rec = s.records[best].clone();
                proof {
                    assert(rs.contains(rec@)) by {
                        assert(rs[best as int] == rec@);
                    }
                }
                Some(rec)
            },
        }
    }

    /// The metric names of the primary index, in index order.
    pub fn get_metrics_list(&self) -> (r: Vec<String>)
        ensures
            r.deep_view() == Seq::new(self@.series.len(), |i: int| self@.series[i].name),
    {
        let ghost ss = self@.series;
        let mut out: Vec<String> = Vec::new();
        let mut i: usize = 0;
        while i < self.series.len()
            invariant
                i <= self.series@.len(),
                ss == self.series.deep_view(),
                out@.len() == i as int,
                forall|j: int| 0 <= j < i as int ==> #[trigger] out.deep_view()[j] == ss[j].name,
            decreases self.series@.len() - i,
        {
            let name = self.series[i].name.clone();
            let ghost prev = out;
            out.push(name);
            proof {
                assert forall|j: int| 0 <= j < i as int + 1 implies #[trigger] out.deep_view()[j]
                    == ss[j].name by {
                    if j < i as int {
                        assert(out@[j] == prev@[j]);
                        assert(prev.deep_view()[j] == ss[j].name);
                    }
                }
            }
            i = i + 1;
        }
        proof {
            assert(out.deep_view() =~= Seq::new(ss.len(), |i: int| ss[i].name));
        }
        out
    }

    /// The metric names recorded for a resource type, or empty if none.
    pub fn metrics_for_resource(&self, resource_type: &str) -> (r: Vec<String>)
        requires
            self@.wf(),
        ensures
            forall|m: Seq<char>|
                #[trigger] r.deep_view().contains(m) == self@.has_resource_metric(
                    resource_type@,
                    m,
                ),
    {
        match find_resource_entry(&self.resource_metrics, resource_type) {
            None => {
                let out: Vec<String> = Vec::new();
                proof {
                    assert forall|m: Seq<char>| !(#[trigger] rm_has(
                        self@.resource_metrics,
                        resource_type@,
                        m,
                    )) by {
                        if rm_has(self@.resource_metrics, resource_type@, m) {
                            lemma_rm_has_implies_type(self@.resource_metrics, resource_type@, m);
                        }
                    }
                    assert(out.deep_view() =~= Seq::<Seq<char>>::empty());
                }
                out
            },
            Some(i) => {
                let out = clone_strings(&self.resource_metrics[i].metrics);
                proof {
                    assert forall|m: Seq<char>| #[trigger] out.deep_view().contains(m)
                        == self@.has_resource_metric(resource_type@, m) by {
                        lemma_rm_has_at(self@.resource_metrics, i as int, m);
                    }
                }
                out
            },
        }
    }

    /// The stored 64-bit pattern of the compression ratio this chunk's
    /// identity compressor achieves.
    pub fn calculate_compression_ratio(&self) -> (r: u64)
        ensures
            r == RATIO_ONE_BITS,
    {
        RATIO_ONE_BITS
    }
}

/// Extending the series list extends the size estimate.
proof fn lemma_series_size_snoc(ss: Seq<SeriesView>, k: int)
    requires
        0 <= k < ss.len(),
    ensures
        series_size(ss.take(k + 1)) == series_size(ss.take(k)) + vstd::utf8::encode_utf8(
            ss[k].name,
        ).len() + ss[k].records.len() * (RECORD_BYTES as int),
    decreases k,
{
    if k == 0 {
        assert(ss.take(1) =~= seq![ss[0]]);
        assert(ss.take(1).drop_first() =~= Seq::<SeriesView>::empty());
        assert(ss.take(0) =~= Seq::<SeriesView>::empty());
    } else {
        lemma_series_size_snoc(ss.drop_first(), k - 1);
        assert(ss.take(k + 1).drop_first() =~= ss.drop_first().take(k));
        assert(ss.take(k).drop_first() =~= ss.drop_first().take(k - 1));
        assert(ss.take(k + 1)[0] == ss[0]);
        assert(ss.take(k)[0] == ss[0]);
        assert(ss.drop_first()[k - 1] == ss[k]);
    }
}

} // verus!

verus! {

impl TimeChunk {
    /// Checks the stored data against the window: the window is non-empty,
    /// every record lies inside it, and each series' timestamps never
    /// decrease. `Ok` exactly when all three hold.
    pub fn validate(&self) -> (r: Result<(), ChunkError>)
        ensures
            r is Ok <==> (self@.start_time < self@.end_time && self@.in_window() && (forall|i: int|
                0 <= i < self@.series.len() ==> nondecreasing(
                    (#[trigger] self@.series[i]).records,
                ))),
            r is Err ==> r->Err_0 is ValidationFailed,
    {
        if self.start_time >= self.end_time {
            return Err(ChunkError::ValidationFailed("window is empty".to_owned()));
        }
        let ghost ss = self@.series;
        let mut i: usize = 0;
        while i < self.series.len()
            invariant
                i <= self.series@.len(),
                ss == self.series.deep_view(),
                self@.start_time < self@.end_time,
                forall|a: int, k: int|
                    0 <= a < i as int && 0 <= k < (#[trigger] ss[a]).records.len()
                        ==> self@.start_time <= (#[trigger] ss[a].records[k]).timestamp
                        < self@.end_time,
                forall|a: int| 0 <= a < i as int ==> nondecreasing((#[trigger] ss[a]).records),
            decreases self.series@.len() - i,
        {
            let s = &self.series[i];
            let ghost rs = s.deep_view().records;
            proof {
                assert(ss[i as int] == s.deep_view());
            }
            let mut k: usize = 0;
            while k < s.records.len()
                invariant
                    k <= s.records@.len(),
                    rs == s.records.deep_view(),
                    ss == self.series.deep_view(),
                    (i as int) < ss.len(),
                    ss[i as int].records == rs,
                    self@.start_time < self@.end_time,
                    forall|j: int|
                        0 <= j < k as int ==> self@.start_time <= (#[trigger] rs[j]).timestamp
                            < self@.end_time,
                    forall|j: int| 0 < j < k as int ==> (#[trigger] rs[j]).timestamp >= rs[j
                        - 1].timestamp,
                decreases s.records@.len() - k,
            {
                let rec = &s.records[k];
                if rec.timestamp < self.start_time || rec.timestamp >= self.end_time {
                    proof {
                        assert(ss[i as int].records == rs);
                        assert(!(self@.start_time <= (self@.series[i as int].records[
                            k as int
                        ]).timestamp < self@.end_time));
                        assert(!self@.in_window());
                    }
                    return Err(
                        ChunkError::ValidationFailed("record outside chunk window".to_owned()),
                    );
                }
                if k > 0 && s.records[k].timestamp < s.records[k - 1].timestamp {
                    proof {
                        assert(ss[i as int].records == rs);
                        assert(!nondecreasing(ss[i as int].records)) by {
                            assert(rs[k as int].timestamp < rs[k as int - 1].timestamp);
                        }
                    }
                    return Err(
                        ChunkError::ValidationFailed("timestamps out of order".to_owned()),
                    );
                }
                k = k + 1;
            }
            i = i + 1;
        }
        Ok(())
    }

    /// Rewrites each series' timestamps to deltas and marks the chunk
    /// compressed. Value compression is the identity.
    pub fn compress(&mut self) -> (r: Result<(), ChunkError>)
        requires
            old(self)@.wf(),
            old(self)@.in_window(),
            old(self)@.compression_state is Uncompressed,
            old(self)@.end_time - old(self)@.start_time <= i64::MAX,
        ensures
            r is Ok,
            final(self)@.compression_state is Compressed,
            final(self)@.dirty,
            final(self)@.compression_ratio_bits == RATIO_ONE_BITS,
            final(self)@.start_time == old(self)@.start_time,
            final(self)@.end_time == old(self)@.end_time,
            final(self)@.record_count == old(self)@.record_count,
            final(self)@.resource_metrics == old(self)@.resource_metrics,
            final(self)@.series.len() == old(self)@.series.len(),
            forall|i: int|
                0 <= i < old(self)@.series.len() ==> (#[trigger] final(self)@.series[i]).name
                    == old(self)@.series[i].name && final(self)@.series[i].records == delta_encode(
                    old(self)@.series[i].records,
                ),
    {
        self.compression_state = CompressionState::InProgress;
        let ghost oldss = self@.series;
        let mut i: usize = 0;
        while i < self.series.len()
            invariant
                i <= self.series@.len(),
                self.series@.len() == oldss.len(),
                old(self)@.wf(),
                old(self)@.in_window(),
                old(self)@.end_time - old(self)@.start_time <= i64::MAX,
                oldss == old(self)@.series,
                self.start_time == old(self).start_time,
                self.end_time == old(self).end_time,
                self.resource_metrics == old(self).resource_metrics,
                self.metadata == old(self).metadata,
                forall|a: int|
                    i as int <= a < oldss.len() ==> #[trigger] self.series.deep_view()[a]
                        == oldss[a],
                forall|a: int|
                    0 <= a < i as int ==> (#[trigger] self.series.deep_view()[a]).name
                        == oldss[a].name && self.series.deep_view()[a].records == delta_encode(
                        oldss[a].records,
                    ),
            decreases self.series@.len() - i,
        {
            let ghost pre = self.series.deep_view();
            let mut s = self.series.remove(i);
            let ghost olds = s.deep_view();
            let ghost presv = self.series.deep_view();
            proof {
                assert(olds == pre[i as int]);
                assert(pre[i as int] == oldss[i as int]);
            }
            let mut out: Vec<Record> = Vec::new();
            let mut last: i64 = 0;
            let mut k: usize = 0;
            while k < s.records.len()
                invariant
                    k <= s.records@.len(),
                    olds == s.deep_view(),
                    old(self)@.wf(),
                    old(self)@.in_window(),
                    old(self)@.end_time - old(self)@.start_time <= i64::MAX,
                    oldss == old(self)@.series,
                    (i as int) < oldss.len(),
                    olds == oldss[i as int],
                    out@.len() == k as int,
                    forall|j: int|
                        0 <= j < k as int ==> #[trigger] out.deep_view()[j] == delta_encode(
                            olds.records,
                        )[j],
                    last as int == (if k == 0 {
                        0int
                    } else {
                        olds.records[k as int - 1].timestamp
                    }),
                decreases s.records@.len() - k,
            {
                proof {
                    assert(olds.records[k as int] == s.records.deep_view()[k as int]);
                    assert(old(self)@.start_time <= olds.records[k as int].timestamp < old(
                        self,
                    )@.end_time);
                    if k > 0 {
                        assert(old(self)@.start_time <= olds.records[k as int - 1].timestamp < old(
                            self,
                        )@.end_time);
                    }
                }
                let mut rec = s.records[k].clone();
                let ts = rec.timestamp;
                rec.timestamp = ts - last;
                let ghost newv = rec@;
                let ghost prev = out;
                out.push(rec);
                last = ts;
                proof {
                    crate::codec::lemma_deep_view_push(prev, out, rec);
                    assert(newv =~= delta_encode(olds.records)[k as int]);
                }
                k = k + 1;
            }
            s.records = out;
            let ghost s2 = s.deep_view();
            self.series.insert(i, s);
            proof {
                assert(self.series.deep_view() =~= pre.update(i as int, s2));
                assert(s2.name == olds.name);
                assert(s2.records =~= delta_encode(olds.records));
            }
            i = i + 1;
        }
        self.compression_state = CompressionState::Compressed;
        self.metadata.compression_ratio_bits = RATIO_ONE_BITS;
        self.dirty = true;
        Ok(())
    }
}

} // verus!

verus! {

/// A deep copy of a chunk, field for field.
pub fn clone_chunk_data(c: &TimeChunk) -> (r: TimeChunk)
    ensures
        r.deep_view() == c.deep_view(),
{
    let mut series: Vec<MetricSeries> = Vec::new();
    let mut i: usize = 0;
    while i < c.series.len()
        invariant
            i <= c.series@.len(),
            series@.len() == i as int,
            forall|j: int|
                0 <= j < i as int ==> #[trigger] series.deep_view()[j] == c.series.deep_view()[j],
        decreases c.series@.len() - i,
    {
        let s = MetricSeries {
            name: c.series[i].name.clone(),
            records: clone_records(&c.series[i].records),
        };
        let ghost sv = s.deep_view();
        let ghost prev = series;
        series.push(s);
        proof {
            assert forall|j: int| 0 <= j < i as int + 1 implies #[trigger] series.deep_view()[j]
                == c.series.deep_view()[j] by {
                if j < i as int {
                    assert(series@[j] == prev@[j]);
                    assert(prev.deep_view()[j] == c.series.deep_view()[j]);
                } else {
                    assert(series@[j].deep_view() == sv);
                    assert(sv =~= c.series.deep_view()[j]);
                }
            }
        }
        i = i + 1;
    }
    let mut resource_metrics: Vec<ResourceMetrics> = Vec::new();
    let mut k: usize = 0;
    while k < c.resource_metrics.len()
        invariant
            k <= c.resource_metrics@.len(),
            resource_metrics@.len() == k as int,
            forall|j: int|
                0 <= j < k as int ==> #[trigger] resource_metrics.deep_view()[j]
                    == c.resource_metrics.deep_view()[j],
        decreases c.resource_metrics@.len() - k,
    {
        let e = ResourceMetrics {
            resource_type: c.resource_metrics[k].resource_type.clone(),
            metrics: clone_strings(&c.resource_metrics[k].metrics),
        };
        let ghost ev = e.deep_view();
        let ghost prev = resource_metrics;
        resource_metrics.push(e);
        proof {
            assert forall|j: int| 0 <= j < k as int + 1 implies
                #[trigger] resource_metrics.deep_view()[j] == c.resource_metrics.deep_view()[j] by {
                if j < k as int {
                    assert(resource_metrics@[j] == prev@[j]);
                    assert(prev.deep_view()[j] == c.resource_metrics.deep_view()[j]);
                } else {
                    assert(resource_metrics@[j].deep_view() == ev);
                    assert(ev =~= c.resource_metrics.deep_view()[j]);
                }
            }
        }
        k = k + 1;
    }
    let r = TimeChunk {
        start_time: c.start_time,
        end_time: c.end_time,
        series,
        resource_metrics,
        metadata: ChunkMetadata {
            created_at: c.metadata.created_at,
            last_access: c.metadata.last_access,
            compression_ratio_bits: c.metadata.compression_ratio_bits,
            record_count: c.metadata.record_count,
        },
        compression_state: c.compression_state,
        dirty: c.dirty,
    };
    proof {
        assert(r.deep_view().series =~= c.deep_view().series);
        assert(r.deep_view().resource_metrics =~= c.deep_view().resource_metrics);
        assert(r.deep_view() =~= c.deep_view());
    }
    r
}

} // verus!
