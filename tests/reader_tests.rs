use binary_logger::reader::classify_argument;
use binary_logger::record::encode_payload;
use binary_logger::{register_string, LogReader, LogValue, StringRegistry};

#[test]
fn test_empty_log() {
    let data: Vec<u8> = Vec::new();
    let reg = StringRegistry::new();
    let mut reader = LogReader::new(&data);
    assert!(reader.read_entry(&reg).is_none());
}

#[test]
fn test_single_timestamp() {
    let mut data = Vec::new();
    let now = std::time::SystemTime::now()
        .duration_since(std::time::UNIX_EPOCH)
        .unwrap()
        .as_micros() as u64;

    data.push(1);
    data.extend_from_slice(&now.to_le_bytes());

    let reg = StringRegistry::new();
    let mut reader = LogReader::new(&data);
    assert!(reader.read_entry(&reg).is_none());
}

#[test]
fn test_primitive_types() {
    let mut data = Vec::new();
    let base_ts = 1234567890u64;

    data.push(1);
    data.extend_from_slice(&base_ts.to_le_bytes());

    data.push(0);
    data.extend_from_slice(&100u16.to_le_bytes());
    data.extend_from_slice(&1u16.to_le_bytes());

    let payload_len = 4 + 1 + 8;
    data.extend_from_slice(&(payload_len as u16).to_le_bytes());
    data.extend_from_slice(&42i32.to_le_bytes());
    data.push(1);
    data.extend_from_slice(&3.14f64.to_le_bytes());

    let reg = StringRegistry::new();
    let mut reader = LogReader::new(&data);
    let entry = reader.read_entry(&reg).unwrap();

    assert_eq!(entry.format_id, 1);

    let mut pos = 0;
    let i32_val = i32::from_le_bytes(entry.raw_values[pos..pos + 4].try_into().unwrap());
    pos += 4;
    let bool_val = entry.raw_values[pos] != 0;
    pos += 1;
    let f64_val = f64::from_le_bytes(entry.raw_values[pos..pos + 8].try_into().unwrap());

    assert_eq!(i32_val, 42);
    assert!(bool_val);
    assert!((f64_val - 3.14).abs() < f64::EPSILON);
}

fn base_marker(data: &mut Vec<u8>, base_ts: u64) {
    data.push(1);
    data.push(0);
    data.extend_from_slice(&0u16.to_le_bytes());
    data.extend_from_slice(&0u16.to_le_bytes());
    data.extend_from_slice(&8u16.to_le_bytes());
    data.extend_from_slice(&base_ts.to_le_bytes());
}

#[test]
fn test_multiple_records() {
    let mut data = Vec::new();
    data.extend_from_slice(&(100u64).to_le_bytes());
    let base_ts = 1234567890u64;
    base_marker(&mut data, base_ts);

    for (i, (rel_ts, fmt_id)) in [(100u16, 1u16), (200u16, 2u16), (300u16, 3u16)].iter().enumerate() {
        data.push(0);
        data.push(0);
        data.extend_from_slice(&rel_ts.to_le_bytes());
        data.extend_from_slice(&fmt_id.to_le_bytes());
        let mut payload = Vec::new();
        payload.push(1);
        payload.extend_from_slice(&4u32.to_le_bytes());
        payload.extend_from_slice(&(42 + i as i32).to_le_bytes());
        data.extend_from_slice(&(payload.len() as u16).to_le_bytes());
        data.extend_from_slice(&payload);
    }

    let reg = StringRegistry::new();
    let mut reader = LogReader::new(&data);
    let mut entries = Vec::new();
    while let Some(entry) = reader.read_entry(&reg) {
        entries.push(entry);
    }

    assert_eq!(entries.len(), 3, "Expected 3 entries, got {}", entries.len());

    let mut last_ts = 0u64;
    for entry in &entries {
        assert!(entry.timestamp > last_ts, "Timestamps should be monotonically increasing");
        last_ts = entry.timestamp;
    }

    for entry in &entries {
        assert!(!entry.raw_values.is_empty(), "Entry should have raw values");
    }
}

#[test]
fn test_complex_record() {
    let mut data = Vec::new();
    data.extend_from_slice(&(100u64).to_le_bytes());
    let base_ts = 1234567890u64;
    base_marker(&mut data, base_ts);

    let mut reg = StringRegistry::new();
    let fmt = "Complex test with {} values: [{}, {}, {}]";
    let fmt_id = register_string(&mut reg, fmt);

    data.push(0);
    data.push(0);
    data.extend_from_slice(&100u16.to_le_bytes());
    data.extend_from_slice(&fmt_id.to_le_bytes());

    let mut payload = Vec::new();
    payload.push(4);
    payload.extend_from_slice(&4u32.to_le_bytes());
    payload.extend_from_slice(&42i32.to_le_bytes());
    payload.extend_from_slice(&4u32.to_le_bytes());
    payload.extend_from_slice(&[1, 2, 3, 4]);
    payload.extend_from_slice(&1u32.to_le_bytes());
    payload.push(1);
    payload.extend_from_slice(&8u32.to_le_bytes());
    payload.extend_from_slice(&3.14f64.to_le_bytes());

    data.extend_from_slice(&(payload.len() as u16).to_le_bytes());
    data.extend_from_slice(&payload);

    let mut reader = LogReader::new(&data);
    let entry = reader.read_entry(&reg).expect("Failed to read entry");

    assert!(!entry.raw_values.is_empty(), "Entry should have raw values");
    let ts_micros = entry.timestamp as u128;
    assert!(ts_micros >= base_ts as u128, "Timestamp should be after base timestamp");
    assert_eq!(entry.format_string.as_deref(), Some(fmt));
}

#[test]
fn test_parameter_extraction() {
    let mut log_data = Vec::new();
    log_data.extend_from_slice(&(20u64).to_le_bytes());
    log_data.push(0);
    log_data.push(0);
    log_data.extend_from_slice(&(1u16).to_le_bytes());
    log_data.extend_from_slice(&(1u16).to_le_bytes());

    let mut payload = Vec::new();
    payload.push(3);
    payload.extend_from_slice(&4u32.to_le_bytes());
    payload.extend_from_slice(&42i32.to_le_bytes());
    payload.extend_from_slice(&1u32.to_le_bytes());
    payload.push(1);
    payload.extend_from_slice(&4u32.to_le_bytes());
    payload.extend_from_slice(&[1, 2, 3, 4]);

    log_data.extend_from_slice(&(payload.len() as u16).to_le_bytes());
    log_data.extend_from_slice(&payload);

    let reg = StringRegistry::new();
    let mut reader = LogReader::new(&log_data);
    let entry = reader.read_entry(&reg).expect("Failed to read entry");

    assert_eq!(entry.format_id, 1);
    let raw = &entry.raw_values;
    assert!(!raw.is_empty(), "Raw values should not be empty");
    assert_eq!(raw[0], 3, "Expected 3 arguments");
    if !entry.parameters.is_empty() {
        assert_eq!(entry.parameters.len(), 3, "Expected 3 parameters");
    }
}

#[test]
fn test_relative_timestamps() {
    let mut data = Vec::new();
    data.extend_from_slice(&(100u64).to_le_bytes());
    let base_ts = 1234567890u64;
    base_marker(&mut data, base_ts);

    for (rel_ts, fmt_id) in [(100u16, 1u16), (200u16, 2u16)] {
        data.push(0);
        data.push(0);
        data.extend_from_slice(&rel_ts.to_le_bytes());
        data.extend_from_slice(&fmt_id.to_le_bytes());
        let payload = vec![0];
        data.extend_from_slice(&(payload.len() as u16).to_le_bytes());
        data.extend_from_slice(&payload);
    }

    let reg = StringRegistry::new();
    let mut reader = LogReader::new(&data);
    let mut entries = Vec::new();
    while let Some(entry) = reader.read_entry(&reg) {
        entries.push(entry);
    }

    assert!(entries.len() >= 1, "Expected at least 1 entry, got {}", entries.len());

    if entries.len() >= 2 {
        let ts1 = entries[0].timestamp as u128;
        let ts2 = entries[1].timestamp as u128;
        let diff = ts2 - ts1;
        assert!(diff > 0, "Second timestamp should be after first");
        assert!(diff <= 1000, "Timestamp difference should be reasonable");
    }
}

#[test]
fn multi_argument_payload_layout() {
    let i = 7i32.to_le_bytes().to_vec();
    let b = vec![1u8];
    let f = 2.5f64.to_le_bytes().to_vec();
    let payload = encode_payload(&vec![i.clone(), b.clone(), f.clone()]).unwrap();
    let mut expected = vec![3u8, 4, 0, 0, 0];
    expected.extend_from_slice(&i);
    expected.extend_from_slice(&[1, 0, 0, 0, 1, 8, 0, 0, 0]);
    expected.extend_from_slice(&f);
    assert_eq!(payload, expected);

    let mut data = vec![0u8; 8];
    data.extend_from_slice(&[0, 0, 0, 0, 1, 0]);
    data.extend_from_slice(&(payload.len() as u16).to_le_bytes());
    data.extend_from_slice(&payload);
    let reg = StringRegistry::new();
    let mut reader = LogReader::new(&data);
    let entry = reader.read_entry(&reg).unwrap();
    assert_eq!(entry.parameters.len(), 3);
    assert!(matches!(entry.parameters[0], LogValue::Integer(7)));
    assert!(matches!(entry.parameters[1], LogValue::Boolean(true)));
    match entry.parameters[2] {
        LogValue::Float(bits) => assert_eq!(f64::from_bits(bits), 2.5),
        ref other => panic!("expected a float, got {:?}", other),
    }
}

#[test]
fn payload_limits() {
    assert!(encode_payload(&vec![vec![0u8; 1019]]).is_ok());
    assert!(encode_payload(&vec![vec![0u8; 1020]]).is_err());
    assert!(encode_payload(&vec![vec![]; 204]).is_ok());
    assert!(encode_payload(&vec![vec![]; 256]).is_err());
    assert_eq!(encode_payload(&vec![]).unwrap(), vec![0u8]);
}

#[test]
fn truncated_stream_stops_cleanly() {
    let mut data = vec![0u8; 8];
    for k in 0..3u16 {
        let payload = encode_payload(&vec![(k as i32).to_le_bytes().to_vec()]).unwrap();
        data.extend_from_slice(&[0, 0, 0, 0]);
        data.extend_from_slice(&(k + 1).to_le_bytes());
        data.extend_from_slice(&(payload.len() as u16).to_le_bytes());
        data.extend_from_slice(&payload);
    }
    // cut three bytes into the last payload
    data.truncate(8 + 17 * 2 + 8 + 3);
    let reg = StringRegistry::new();
    let mut reader = LogReader::new(&data);
    let a = reader.read_entry(&reg).unwrap();
    let b = reader.read_entry(&reg).unwrap();
    assert!(matches!(a.parameters[0], LogValue::Integer(0)));
    assert!(matches!(b.parameters[0], LogValue::Integer(1)));
    // the clamped frame keeps what is left of its payload, and no argument
    let c = reader.read_entry(&reg).unwrap();
    assert_eq!(c.raw_values.len(), 3);
    assert!(c.parameters.is_empty());
    assert!(reader.read_entry(&reg).is_none());
    assert!(!reader.malformed());
    assert!(reader.read_entry(&reg).is_none());
}

#[test]
fn truncated_header_and_bad_type_stop() {
    let mut data = vec![0u8; 8];
    data.extend_from_slice(&[0, 0, 5, 0, 1]);
    let reg = StringRegistry::new();
    let mut reader = LogReader::new(&data);
    assert!(!reader.malformed());
    assert!(reader.read_entry(&reg).is_none());
    assert!(reader.malformed());

    let mut bad = vec![0u8; 8];
    bad.extend_from_slice(&[2, 0, 0, 0, 1, 0, 0, 0]);
    bad.extend_from_slice(&[0, 0, 0, 0, 1, 0, 1, 0, 0]);
    let mut reader = LogReader::new(&bad);
    assert!(reader.read_entry(&reg).is_none());
    assert!(reader.malformed());
    assert!(reader.read_entry(&reg).is_none());
    assert!(reader.malformed());
}

#[test]
fn exhausted_stream_is_not_malformed() {
    let data = vec![0u8; 8];
    let reg = StringRegistry::new();
    let mut reader = LogReader::new(&data);
    assert!(reader.read_entry(&reg).is_none());
    assert!(!reader.malformed());

    let mut marker_only = vec![0u8; 8];
    marker_only.extend_from_slice(&[1, 0, 3, 0, 0, 0, 0, 0]);
    let mut reader = LogReader::new(&marker_only);
    assert!(reader.read_entry(&reg).is_none());
    assert!(!reader.malformed());
}

#[test]
fn rebase_frame_with_full_base() {
    let mut data = vec![0u8; 8];
    data.extend_from_slice(&[1, 0, 0, 0, 9, 0, 8, 0]);
    data.extend_from_slice(&500u64.to_le_bytes());
    data.extend_from_slice(&[0, 0, 25, 0, 9, 0, 0, 0]);
    let reg = StringRegistry::new();
    let mut reader = LogReader::new(&data);
    let first = reader.read_entry(&reg).unwrap();
    assert_eq!(first.timestamp, 500);
    assert_eq!(first.format_id, 9);
    let second = reader.read_entry(&reg).unwrap();
    assert_eq!(second.timestamp, 525);
    assert!(second.raw_values.is_empty());
    assert!(second.format_string.is_none());
}

#[test]
fn classification_by_length() {
    assert!(matches!(classify_argument(&[0]), LogValue::Boolean(false)));
    assert!(matches!(classify_argument(&[2]), LogValue::Boolean(true)));
    assert!(matches!(classify_argument(&[0xff, 0xff, 0xff, 0xff]), LogValue::Integer(-1)));
    assert!(matches!(classify_argument(&[0, 0, 0, 0x80]), LogValue::Integer(i32::MIN)));
    assert!(matches!(classify_argument(&1u64.to_le_bytes()), LogValue::Float(1)));
    match classify_argument(b"hello") {
        LogValue::String(s) => assert_eq!(s, "hello"),
        other => panic!("unexpected {:?}", other),
    }
    match classify_argument(&[0xff, 0xfe, 0xfd]) {
        LogValue::Unknown(b) => assert_eq!(b, vec![0xff, 0xfe, 0xfd]),
        other => panic!("unexpected {:?}", other),
    }
}
