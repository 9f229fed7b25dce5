//! The store's global guarantees, stated and proved once over the
//! specification functions the public contracts use.

use vstd::prelude::*;
use crate::chunk::{range_filter, series_lookup, ChunkView};
use crate::record::RecordView;
use crate::storage::{
    chunks_has_metric, chunks_lookup, chunks_range, chunks_records, is_prefix, spec_chunk_id,
    StorageEngine,
};
use crate::query::{groups_ok, plain_groups, AggregateGroup};

verus! {

/// Alignment: in a well-formed engine every chunk's window start is a
/// multiple of the chunk duration, its window is exactly one duration long,
/// and every stored record's timestamp lies inside its chunk's window.
pub proof fn lemma_alignment(e: StorageEngine, i: int, j: int, k: int)
    requires
        e.wf(),
        0 <= i < e.chunk_views().len(),
        0 <= j < e.chunk_views()[i].series.len(),
        0 <= k < e.chunk_views()[i].series[j].records.len(),
    ensures
        e.chunk_views()[i].start_time == spec_chunk_id(
            e.chunk_views()[i].start_time,
            e.duration(),
        ),
        e.chunk_views()[i].end_time == e.chunk_views()[i].start_time + e.duration(),
        e.chunk_views()[i].start_time <= e.chunk_views()[i].series[j].records[k].timestamp
            < e.chunk_views()[i].end_time,
{
}

/// A timestamp inside an aligned window aligns to that window's start.
proof fn lemma_window_unique(c: int, t: int, d: int)
    requires
        d >= 1,
        c == spec_chunk_id(c, d),
        c <= t < c + d,
    ensures
        spec_chunk_id(t, d) == c,
{
    vstd::arithmetic::div_mod::lemma_fundamental_div_mod_converse(t, d, c / d, t - c);
    assert(t == (c / d) * d + (t - c)) by (nonlinear_arith)
        requires
            c == (c / d) * d,
    ;
    assert((t / d) * d == (c / d) * d) by (nonlinear_arith)
        requires
            t / d == c / d,
    ;
}

/// Disjointness: the windows of two distinct chunks in a well-formed engine
/// never overlap.
pub proof fn lemma_disjoint_windows(e: StorageEngine, i: int, j: int)
    requires
        e.wf(),
        0 <= i < e.chunk_views().len(),
        0 <= j < e.chunk_views().len(),
        i != j,
    ensures
        e.chunk_views()[i].end_time <= e.chunk_views()[j].start_time || e.chunk_views()[j].end_time
            <= e.chunk_views()[i].start_time,
{
    let cs = e.chunk_views();
    let d = e.duration();
    if i < j {
        lemma_ordered_windows(e, i, j);
    } else {
        lemma_ordered_windows(e, j, i);
    }
}

/// Of two chunks in map order, the earlier window ends before the later
/// begins.
proof fn lemma_ordered_windows(e: StorageEngine, i: int, j: int)
    requires
        e.wf(),
        0 <= i < j < e.chunk_views().len(),
    ensures
        e.chunk_views()[i].end_time <= e.chunk_views()[j].start_time,
{
    let cs = e.chunk_views();
    let d = e.duration();
    let a = cs[i].start_time;
    let b = cs[j].start_time;
    assert(a < b);
    if b < a + d {
        lemma_window_unique(a, b, d);
        assert(spec_chunk_id(b, d) == b);
        assert(false);
    }
}

/// A record found under one window is part of the metric's full stream.
pub proof fn lemma_lookup_in_records(
    cs: Seq<ChunkView>,
    id: int,
    m: Seq<char>,
    rv: RecordView,
)
    requires
        chunks_lookup(cs, id, m).contains(rv),
    ensures
        chunks_records(cs, m).contains(rv),
    decreases cs.len(),
{
    if cs.len() > 0 {
        let head = series_lookup(cs[0].series, m);
        if cs[0].start_time == id {
            let x = choose|x: int| 0 <= x < head.len() && head[x] == rv;
            assert(chunks_records(cs, m)[x] == rv);
        } else {
            lemma_lookup_in_records(cs.drop_first(), id, m, rv);
            let x = choose|x: int|
                0 <= x < chunks_records(cs.drop_first(), m).len() && chunks_records(
                    cs.drop_first(),
                    m,
                )[x] == rv;
            assert(chunks_records(cs, m)[head.len() + x] == rv);
        }
    }
}

/// Read-your-writes: once a record sits under its chunk — as a successful
/// insert guarantees — any value the latest-query contract admits carries a
/// timestamp at least as great as the record's.
pub proof fn lemma_read_your_writes(
    cs: Seq<ChunkView>,
    id: int,
    m: Seq<char>,
    rv: RecordView,
    latest: RecordView,
)
    requires
        chunks_lookup(cs, id, m).contains(rv),
        forall|k: int|
            0 <= k < chunks_records(cs, m).len() ==> (#[trigger] chunks_records(
                cs,
                m,
            )[k]).timestamp <= latest.timestamp,
    ensures
        chunks_records(cs, m).len() > 0,
        latest.timestamp >= rv.timestamp,
{
    lemma_lookup_in_records(cs, id, m, rv);
    let x = choose|x: int|
        0 <= x < chunks_records(cs, m).len() && chunks_records(cs, m)[x] == rv;
    assert(chunks_records(cs, m)[x].timestamp <= latest.timestamp);
}

/// A record inside the queried range is kept by the range filter.
proof fn lemma_range_filter_complete(rs: Seq<RecordView>, s: int, e: int, i: int)
    requires
        0 <= i < rs.len(),
        s <= rs[i].timestamp < e,
    ensures
        range_filter(rs, s, e).contains(rs[i]),
    decreases rs.len(),
{
    if i == rs.len() - 1 {
        let f = range_filter(rs, s, e);
        assert(f[f.len() - 1] == rs[i]);
    } else {
        assert(rs.drop_last()[i] == rs[i]);
        lemma_range_filter_complete(rs.drop_last(), s, e, i);
        let fd = range_filter(rs.drop_last(), s, e);
        let x = choose|x: int| 0 <= x < fd.len() && fd[x] == rs[i];
        assert(range_filter(rs, s, e)[x] == rs[i]);
    }
}

/// Range completeness: every stored record of the metric whose timestamp
/// lies in `[s, e)` appears in the range query's result.
pub proof fn lemma_range_complete(
    cs: Seq<ChunkView>,
    id: int,
    m: Seq<char>,
    rv: RecordView,
    s: int,
    e: int,
)
    requires
        chunks_lookup(cs, id, m).contains(rv),
        s <= rv.timestamp < e,
    ensures
        chunks_range(cs, s, e, m).contains(rv),
    decreases cs.len(),
{
    if cs.len() > 0 {
        let head = range_filter(series_lookup(cs[0].series, m), s, e);
        if cs[0].start_time == id {
            let x = choose|x: int|
                0 <= x < series_lookup(cs[0].series, m).len() && series_lookup(cs[0].series, m)[x]
                    == rv;
            lemma_range_filter_complete(series_lookup(cs[0].series, m), s, e, x);
            let y = choose|y: int| 0 <= y < head.len() && head[y] == rv;
            assert(chunks_range(cs, s, e, m)[y] == rv);
        } else {
            lemma_range_complete(cs.drop_first(), id, m, rv, s, e);
            let y = choose|y: int|
                0 <= y < chunks_range(cs.drop_first(), s, e, m).len() && chunks_range(
                    cs.drop_first(),
                    s,
                    e,
                    m,
                )[y] == rv;
            assert(chunks_range(cs, s, e, m)[head.len() + y] == rv);
        }
    }
}

/// Prefix monotonicity: under the prefix query's membership contract, a
/// metric present in any chunk is reported for every prefix of its name.
pub proof fn lemma_prefix_monotone(
    v: Seq<Seq<char>>,
    cs: Seq<ChunkView>,
    m: Seq<char>,
    p: Seq<char>,
)
    requires
        forall|m2: Seq<char>|
            #[trigger] v.contains(m2) == (chunks_has_metric(cs, m2) && is_prefix(p, m2)),
        chunks_has_metric(cs, m),
        is_prefix(p, m),
    ensures
        v.contains(m),
{
}

/// Aggregate round-trip: aggregating one metric without an interval yields
/// exactly one group, and its count is the number of records the plain range
/// query returns.
pub proof fn lemma_aggregate_count(
    gs: Seq<AggregateGroup>,
    cs: Seq<ChunkView>,
    m: Seq<char>,
    s: int,
    e: int,
)
    requires
        groups_ok(gs, cs, seq![m], s, e, None),
        chunks_range(cs, s, e, m).len() > 0,
    ensures
        gs.len() == 1,
        gs[0].count as int == chunks_range(cs, s, e, m).len(),
{
    let ms = seq![m];
    assert(ms[0] == m);
    assert(ms.drop_first() =~= Seq::<Seq<char>>::empty());
    assert(plain_groups(cs, ms.drop_first(), s, e) == Seq::<(Seq<char>, Seq<u64>, int)>::empty());
    let pg = plain_groups(cs, ms, s, e);
    assert(pg =~= seq![
        (m, crate::query::values_of(chunks_range(cs, s, e, m)), chunks_range(cs, s, e, m)[0].timestamp),
    ]);
}

} // verus!
