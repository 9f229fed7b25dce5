use emberdb::query::{Aggregation, QueryEngine, QueryOutput, TimeSeriesQuery};
use emberdb::record::Record;
use emberdb::storage::StorageEngine;
use emberdb::wal;

fn rec(ts: i64, metric: &str, value: f64, rt: &str) -> Record {
    Record {
        timestamp: ts,
        metric_name: metric.to_string(),
        value: value.to_bits(),
        context: Vec::new(),
        resource_type: rt.to_string(),
    }
}

/// Appends the record both to the in-memory store and to a byte image of
/// the write-ahead log, as the write path does before placing a record.
fn insert_logged(engine: &mut StorageEngine, log: &mut Vec<u8>, r: Record) {
    let frame = wal::frame_record(&r).unwrap();
    log.extend_from_slice(&frame);
    engine.insert(r).unwrap();
}

#[test]
fn single_insert_latest() {
    let mut engine = StorageEngine::new(3600);
    let mut log: Vec<u8> = Vec::new();
    insert_logged(&mut engine, &mut log, rec(1000, "m", 42.0, "O"));

    let got = engine.get_latest("m").unwrap().unwrap();
    assert_eq!(got.timestamp, 1000);
    assert_eq!(f64::from_bits(got.value), 42.0);
    assert_eq!(got.metric_name, "m");
    assert_eq!(got.resource_type, "O");

    // Drop the process state; reconstruct from the log alone.
    drop(engine);
    let mut recovered = StorageEngine::new(3600);
    for r in wal::replay(&log) {
        recovered.insert(r).unwrap();
    }
    let again = recovered.get_latest("m").unwrap().unwrap();
    assert_eq!(again.timestamp, 1000);
    assert_eq!(f64::from_bits(again.value), 42.0);
}

#[test]
fn chunk_boundary() {
    let mut engine = StorageEngine::new(3600);
    engine.insert(rec(3599, "m", 1.0, "O")).unwrap();
    engine.insert(rec(3600, "m", 2.0, "O")).unwrap();

    assert_eq!(engine.chunks.len(), 2);
    assert_eq!(engine.chunks[0].start_time, 0);
    assert_eq!(engine.chunks[1].start_time, 3600);

    let both = engine.query_range(0, 7200, "m").unwrap();
    assert_eq!(both.len(), 2);
    assert_eq!(both[0].timestamp, 3599);
    assert_eq!(both[1].timestamp, 3600);

    let late = engine.query_range(3600, 7200, "m").unwrap();
    assert_eq!(late.len(), 1);
    assert_eq!(f64::from_bits(late[0].value), 2.0);
}

#[test]
fn prefix_resolution() {
    let mut engine = StorageEngine::new(3600);
    engine.insert(rec(10, "P1|C1|mmHg", 120.0, "O")).unwrap();
    engine.insert(rec(20, "P1|C2|bpm", 70.0, "O")).unwrap();
    engine.insert(rec(30, "P2|C1|mmHg", 118.0, "O")).unwrap();

    let mut p1 = engine.get_matching_metrics("P1|").unwrap();
    p1.sort();
    assert_eq!(p1, vec!["P1|C1|mmHg".to_string(), "P1|C2|bpm".to_string()]);

    let p2 = engine.get_matching_metrics("P2|C1|").unwrap();
    assert_eq!(p2, vec!["P2|C1|mmHg".to_string()]);
}

fn fold_mean(values: &[u64]) -> f64 {
    let sum: f64 = values.iter().map(|b| f64::from_bits(*b)).sum();
    sum / values.len() as f64
}

#[test]
fn aggregation() {
    let mut engine = StorageEngine::new(3600);
    for (ts, v) in [(100i64, 10.0f64), (200, 20.0), (300, 30.0), (400, 40.0)] {
        engine.insert(rec(ts, "m", v, "O")).unwrap();
    }
    let qe = QueryEngine::new(engine);

    let whole = TimeSeriesQuery {
        start_time: 0,
        end_time: 500,
        metrics: vec!["m".to_string()],
        aggregation: Some(Aggregation::Mean),
        interval: None,
    };
    match qe.query_range(&whole).unwrap() {
        QueryOutput::Aggregated(groups) => {
            assert_eq!(groups.len(), 1);
            assert_eq!(groups[0].count, 4);
            assert_eq!(fold_mean(&groups[0].values), 25.0);
            assert_eq!(groups[0].timestamp, 100);
        },
        QueryOutput::Raw(_) => panic!("expected groups"),
    }

    let bucketed = TimeSeriesQuery {
        start_time: 0,
        end_time: 500,
        metrics: vec!["m".to_string()],
        aggregation: Some(Aggregation::Mean),
        interval: Some(200),
    };
    match qe.query_range(&bucketed).unwrap() {
        QueryOutput::Aggregated(mut groups) => {
            groups.sort_by_key(|g| g.timestamp);
            assert_eq!(groups.len(), 3);
            // Buckets [0,200): 10; [200,400): 20, 30; [400,600): 40.
            assert_eq!(fold_mean(&groups[0].values), 10.0);
            assert_eq!(fold_mean(&groups[1].values), 25.0);
            assert_eq!(fold_mean(&groups[2].values), 40.0);
        },
        QueryOutput::Raw(_) => panic!("expected groups"),
    }

    let raw = TimeSeriesQuery {
        start_time: 0,
        end_time: 250,
        metrics: vec!["m".to_string()],
        aggregation: None,
        interval: None,
    };
    match qe.query_range(&raw).unwrap() {
        QueryOutput::Raw(v) => {
            assert_eq!(v.len(), 2);
        },
        QueryOutput::Aggregated(_) => panic!("expected raw records"),
    }
}

#[test]
fn crash_recovery() {
    let mut engine = StorageEngine::new(3600);
    let mut log: Vec<u8> = Vec::new();
    for i in 0..50i64 {
        insert_logged(&mut engine, &mut log, rec(1000 + i, "m", i as f64, "O"));
    }
    assert!(log.len() > 0);

    // Terminate without flushing; reconstruct from the log.
    drop(engine);
    let mut recovered = StorageEngine::new(3600);
    for r in wal::replay(&log) {
        recovered.insert(r).unwrap();
    }
    let all = recovered.query_range(0, 10_000, "m").unwrap();
    assert_eq!(all.len(), 50);

    // Flush: a chunk image exists for each dirty chunk and reads back; the
    // log can then be emptied.
    let dirty = recovered.dirty_chunk_ids();
    assert_eq!(dirty, vec![0]);
    let snapshot = recovered.clone_chunk(0).unwrap();
    let image = emberdb::persistence::encode_chunk(&snapshot).unwrap();
    assert!(image.len() > 0);
    let reloaded = emberdb::persistence::decode_chunk(&image).unwrap();
    assert_eq!(reloaded.start_time, 0);
    assert_eq!(reloaded.end_time, 3600);
    assert_eq!(reloaded.metadata.record_count, 50);
    recovered.mark_chunk_clean(0);
    assert!(recovered.dirty_chunk_ids().is_empty());

    let empty_log: Vec<u8> = Vec::new();
    assert!(wal::replay(&empty_log).is_empty());
}

#[test]
fn wal_truncation_yields_prefix() {
    let records: Vec<Record> = (0..5i64).map(|i| rec(i, "m", i as f64, "O")).collect();
    let log = wal::frame_records(&records).unwrap();
    for cut in 0..=log.len() {
        let replayed = wal::replay(&log[..cut]);
        assert!(replayed.len() <= 5);
        for (j, r) in replayed.iter().enumerate() {
            assert_eq!(r.timestamp, j as i64);
            assert_eq!(f64::from_bits(r.value), j as f64);
        }
    }
    let full = wal::replay(&log);
    assert_eq!(full.len(), 5);
}

#[test]
fn time_chunked_grouping() {
    let mut engine = StorageEngine::new(3600);
    engine.insert(rec(100, "hr", 70.0, "Observation")).unwrap();
    engine.insert(rec(250, "hr", 71.0, "Observation")).unwrap();
    engine.insert(rec(450, "spo2", 98.0, "Observation")).unwrap();
    engine.insert(rec(500, "flow", 1.0, "DeviceMetric")).unwrap();
    let qe = QueryEngine::new(engine);

    let buckets = qe.query_time_chunked("Observation", 0, 1000, 200).unwrap();
    assert_eq!(buckets.len(), 3);
    assert_eq!(buckets[0].start_time, 0);
    assert_eq!(buckets[0].end_time, 200);
    assert_eq!(buckets[0].records.len(), 1);
    assert_eq!(buckets[1].start_time, 200);
    assert_eq!(buckets[1].records.len(), 1);
    assert_eq!(buckets[1].records[0].timestamp, 250);
    assert_eq!(buckets[2].start_time, 400);
    assert_eq!(buckets[2].records.len(), 1);
    assert_eq!(buckets[2].records[0].metric_name, "spo2");

    assert!(qe.query_time_chunked("Observation", 10, 10, 200).is_err());
}

#[test]
fn prefix_lookup_returns_latest_or_none() {
    let mut engine = StorageEngine::new(3600);
    engine.insert(rec(100, "P1|C1|mmHg", 120.0, "O")).unwrap();
    engine.insert(rec(900, "P1|C1|mmHg", 125.0, "O")).unwrap();
    let qe = QueryEngine::new(engine);

    let hit = qe.get_metrics_by_prefix("P1|").unwrap().unwrap();
    assert_eq!(hit.metric_name, "P1|C1|mmHg");
    assert_eq!(hit.timestamp, 900);
    assert_eq!(f64::from_bits(hit.value), 125.0);

    assert!(qe.get_metrics_by_prefix("P9|").unwrap().is_none());
}

#[test]
fn store_records_places_whole_batch() {
    let engine = StorageEngine::new(3600);
    let mut qe = QueryEngine::new(engine);
    let batch: Vec<Record> = vec![
        rec(100, "a", 1.0, "O"),
        rec(3700, "a", 2.0, "O"),
        rec(200, "b", 3.0, "O"),
    ];
    qe.store_records(batch).unwrap();
    let a = qe.storage().query_range(0, 8000, "a").unwrap();
    assert_eq!(a.len(), 2);
    let b = qe.storage().query_range(0, 8000, "b").unwrap();
    assert_eq!(b.len(), 1);
    assert_eq!(f64::from_bits(b[0].value), 3.0);
}
