use emberdb::codec;
use emberdb::config::parse_duration;
use emberdb::persistence::{chunk_file_name, decode_chunk, encode_chunk, list_chunks, parse_chunk_file_name, PersistenceManager};
use emberdb::record::Record;
use emberdb::chunk::{CompressionState, TimeChunk};
use emberdb::wal;

fn rec(ts: i64, metric: &str, value: f64, rt: &str) -> Record {
    Record {
        timestamp: ts,
        metric_name: metric.to_string(),
        value: value.to_bits(),
        context: vec![("device".to_string(), "d7".to_string())],
        resource_type: rt.to_string(),
    }
}

#[test]
fn record_payload_round_trip() {
    let r = rec(-12345, "P1|8867-4|bpm", 72.5, "Observation");
    let payload = codec::encode_record(&r).unwrap();
    let back = codec::decode_record(&payload).unwrap();
    assert_eq!(back.timestamp, -12345);
    assert_eq!(back.metric_name, "P1|8867-4|bpm");
    assert_eq!(f64::from_bits(back.value), 72.5);
    assert_eq!(back.context, vec![("device".to_string(), "d7".to_string())]);
    assert_eq!(back.resource_type, "Observation");
}

#[test]
fn truncated_payload_is_rejected() {
    let r = rec(7, "m", 1.0, "O");
    let payload = codec::encode_record(&r).unwrap();
    assert!(codec::decode_record(&payload[..payload.len() - 1]).is_none());
    assert!(codec::decode_record(&[]).is_none());
}

#[test]
fn wal_skips_torn_tail_only() {
    let records: Vec<Record> = vec![rec(1, "a", 1.0, "O"), rec(2, "b", 2.0, "O")];
    let mut log = wal::frame_records(&records).unwrap();
    // A torn third record: a full length prefix, half a payload.
    let third = wal::frame_record(&rec(3, "c", 3.0, "O")).unwrap();
    log.extend_from_slice(&third[..third.len() / 2]);
    let replayed = wal::replay(&log);
    assert_eq!(replayed.len(), 2);
    assert_eq!(replayed[0].metric_name, "a");
    assert_eq!(replayed[1].metric_name, "b");
}

#[test]
fn chunk_file_names_round_trip() {
    assert_eq!(chunk_file_name(3600), "3600.chunk");
    assert_eq!(chunk_file_name(0), "0.chunk");
    assert_eq!(chunk_file_name(-7200), "-7200.chunk");
    assert_eq!(parse_chunk_file_name("3600.chunk"), Some(3600));
    assert_eq!(parse_chunk_file_name("-7200.chunk"), Some(-7200));
    assert_eq!(parse_chunk_file_name("3600.tmp"), None);
    assert_eq!(parse_chunk_file_name("x.chunk"), None);
    assert_eq!(parse_chunk_file_name(".chunk"), None);
}

#[test]
fn list_chunks_sorts_ids() {
    let names = vec![
        "7200.chunk".to_string(),
        "0.chunk".to_string(),
        "notes.txt".to_string(),
        "3600.chunk".to_string(),
    ];
    assert_eq!(list_chunks(&names), vec![0, 3600, 7200]);
}

#[test]
fn parse_duration_forms() {
    assert_eq!(parse_duration("300s"), Ok(300));
    assert_eq!(parse_duration("5m"), Ok(300));
    assert_eq!(parse_duration("2h"), Ok(7200));
    assert_eq!(parse_duration("1d"), Ok(86400));
    assert!(parse_duration("12x").is_err());
    assert!(parse_duration("s").is_err());
    assert!(parse_duration("").is_err());
    assert!(parse_duration("99999999999999999999999999d").is_err());
}

#[test]
fn chunk_image_round_trip() {
    let mut chunk = TimeChunk::new(0, 3600);
    chunk.append(rec(10, "hr", 70.0, "Observation")).unwrap();
    chunk.append(rec(20, "hr", 71.0, "Observation")).unwrap();
    chunk.append(rec(30, "spo2", 98.0, "Observation")).unwrap();
    let image = encode_chunk(&chunk).unwrap();
    let back = decode_chunk(&image).unwrap();
    assert_eq!(back.start_time, 0);
    assert_eq!(back.end_time, 3600);
    assert_eq!(back.metadata.record_count, 3);
    assert!(!back.is_dirty());
    let hr = back.get_range(0, 3600, "hr").unwrap();
    assert_eq!(hr.len(), 2);
    assert_eq!(f64::from_bits(hr[1].value), 71.0);
    assert!(decode_chunk(&image[..image.len() - 1]).is_err());
}

#[test]
fn chunk_validate_and_compress() {
    let mut chunk = TimeChunk::new(0, 3600);
    chunk.append(rec(100, "m", 1.0, "O")).unwrap();
    chunk.append(rec(250, "m", 2.0, "O")).unwrap();
    assert!(chunk.validate().is_ok());
    assert!(chunk.can_accept(3599));
    assert!(!chunk.can_accept(3600));
    assert!(chunk.append(rec(9999, "m", 3.0, "O")).is_err());

    assert!(matches!(chunk.compression_state, CompressionState::Uncompressed));
    chunk.compress().unwrap();
    assert!(matches!(chunk.compression_state, CompressionState::Compressed));
    // Timestamps are now deltas: 100, then 150.
    assert_eq!(chunk.series[0].records[0].timestamp, 100);
    assert_eq!(chunk.series[0].records[1].timestamp, 150);
    assert!(chunk.is_dirty());
}

#[test]
fn chunk_rejects_out_of_window_record() {
    let mut chunk = TimeChunk::new(0, 3600);
    let err = chunk.append(rec(4000, "m", 1.0, "O"));
    assert!(err.is_err());
    assert_eq!(chunk.metadata.record_count, 0);
}

#[test]
fn active_records_prune_on_durable_chunk() {
    let mut pm = PersistenceManager::new();
    pm.note_record(&"hr".to_string(), 100);
    pm.note_record(&"spo2".to_string(), 4000);
    pm.note_record(&"hr".to_string(), 200);
    assert_eq!(pm.active_records.len(), 2);
    pm.mark_chunk_durable(0, 3600).unwrap();
    assert_eq!(pm.active_records.len(), 1);
    assert_eq!(pm.active_records[0].0, "spo2");
}

#[test]
fn touching_window_is_empty_not_an_error() {
    let chunk = TimeChunk::new(0, 3600);
    // Query windows that only touch the chunk's half-open window miss it
    // entirely, even for metrics the chunk has never seen.
    assert_eq!(chunk.get_range(3600, 4000, "missing").unwrap().len(), 0);
    assert_eq!(chunk.get_range(-100, 0, "missing").unwrap().len(), 0);
    // An overlapping window with an absent metric is the strict error.
    assert!(chunk.get_range(0, 10, "missing").is_err());
}

#[test]
fn new_chunk_clock_fields_agree() {
    let chunk = TimeChunk::new(0, 3600);
    assert_eq!(chunk.metadata.created_at, chunk.metadata.last_access);
}
