use emberdb::record::Record;
use emberdb::storage::StorageEngine;

fn rec(ts: i64, metric: &str, value: f64, rt: &str) -> Record {
    Record {
        timestamp: ts,
        metric_name: metric.to_string(),
        value: value.to_bits(),
        context: Vec::new(),
        resource_type: rt.to_string(),
    }
}

#[test]
fn it_works() {
    assert!(true);
}

#[test]
fn mod_it_works() {
    assert!(true);
}

#[test]
fn test_basic_operations() {
    let mut storage = StorageEngine::new(3600);
    storage.set_persistence(false);

    let record = rec(1000, "test", 42.0, "Observation");

    assert!(storage.insert(record).is_ok());

    let result = storage.get_latest("test");
    assert!(result.is_ok());
    assert_eq!(f64::from_bits(result.unwrap().unwrap().value), 42.0);
}

#[test]
fn rejects_inverted_range() {
    let storage = StorageEngine::new(3600);
    assert!(storage.query_range(100, 100, "m").is_err());
    assert!(storage.query_range(200, 100, "m").is_err());
}

#[test]
fn latest_absent_metric_is_none() {
    let storage = StorageEngine::new(3600);
    assert!(storage.get_latest("missing").unwrap().is_none());
}

#[test]
fn negative_timestamps_align_down() {
    let mut storage = StorageEngine::new(3600);
    storage.insert(rec(-1, "m", 5.0, "O")).unwrap();
    // The record lands in the window [-3600, 0), not [0, 3600).
    let hits = storage.query_range(-3600, 0, "m").unwrap();
    assert_eq!(hits.len(), 1);
    let misses = storage.query_range(0, 3600, "m").unwrap();
    assert_eq!(misses.len(), 0);
    assert_eq!(emberdb::storage::chunk_id_for_timestamp(-1, 3600), -3600);
    assert_eq!(emberdb::storage::chunk_id_for_timestamp(3599, 3600), 0);
    assert_eq!(emberdb::storage::chunk_id_for_timestamp(3600, 3600), 3600);
}

#[test]
fn resource_type_index_answers_queries() {
    let mut storage = StorageEngine::new(3600);
    let mut r1 = rec(100, "hr", 70.0, "Observation");
    r1.context.push(("device".to_string(), "d1".to_string()));
    storage.insert(r1).unwrap();
    storage.insert(rec(200, "spo2", 98.0, "Observation")).unwrap();
    storage.insert(rec(300, "flow", 1.5, "DeviceMetric")).unwrap();

    let mut obs = storage.get_metrics_by_resource_type("Observation").unwrap();
    obs.sort();
    assert_eq!(obs, vec!["hr".to_string(), "spo2".to_string()]);
    let dm = storage.get_metrics_by_resource_type("DeviceMetric").unwrap();
    assert_eq!(dm, vec!["flow".to_string()]);
    assert!(storage.get_metrics_by_resource_type("Medication").unwrap().is_empty());
}

#[test]
fn cleanup_drops_old_windows() {
    let mut storage = StorageEngine::new(3600);
    storage.insert(rec(100, "m", 1.0, "O")).unwrap();
    storage.insert(rec(4000, "m", 2.0, "O")).unwrap();
    storage.cleanup_old_chunks(3600).unwrap();
    let left = storage.query_range(0, 8000, "m").unwrap();
    assert_eq!(left.len(), 1);
    assert_eq!(left[0].timestamp, 4000);
}
