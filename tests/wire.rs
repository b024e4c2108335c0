use sigmiot::remote_log::{remote_logger_set_enable, RecordOutcome, RemoteLogger, RemoteLoggerEntry};
use sigmiot::sensors::{SensorData, SensorManager, REFERENCE_TYPE};
use sigmiot::channel::TelemetryChannel;
use sigmiot::decode::{decode_message, WireError};
use sigmiot::wire::{encode_message, LogRecord, Status, TelemetryMessage};
use sigmiot::ws::{get_protobuf_data, Session};

fn record(level: &str, message: &str, timestamp: u64) -> LogRecord {
    LogRecord { log_level: level.to_string(), log_message: message.to_string(), log_timestamp: timestamp }
}

#[test]
fn empty_message_bytes() {
    let m = TelemetryMessage { status: Status::Good, snapshots: vec![], diagnostics: vec![] };
    assert_eq!(encode_message(&m), vec![0x08, 0x00, 0x12, 0x00, 0x1a, 0x00]);
}

#[test]
fn small_message_bytes() {
    let mut s = SensorData::new("A", vec!["t".to_string()], "r".to_string());
    s.push_value("x", 1.0f32.to_bits(), "u");
    let m = TelemetryMessage { status: Status::Good, snapshots: vec![s], diagnostics: vec![record("W", "m", 5)] };
    let expected: Vec<u8> = vec![
        0x08, 0x00,
        0x12, 0x18,
        0x0a, 0x16,
        0x0a, 0x01, b'A', 0x12, 0x01, b't', 0x1a, 0x01, b'r',
        0x22, 0x0b, 0x0a, 0x01, b'x', 0x15, 0x00, 0x00, 0x80, 0x3f, 0x1a, 0x01, b'u',
        0x1a, 0x0a,
        0x0a, 0x08, 0x0a, 0x01, b'W', 0x12, 0x01, b'm', 0x18, 0x05,
    ];
    assert_eq!(encode_message(&m), expected);
}

#[test]
fn error_status_and_long_varint() {
    let m = TelemetryMessage { status: Status::Error, snapshots: vec![], diagnostics: vec![record("E", "", 300)] };
    let b = encode_message(&m);
    assert_eq!(&b[0..2], &[0x08, 0x01]);
    assert!(b.ends_with(&[0x18, 0xac, 0x02]));
}

#[test]
fn round_trip_keeps_snapshots_and_diagnostics() {
    let mut a = SensorData::new("BME280", vec!["thp".to_string(), "x".to_string()], "room1".to_string());
    a.push_value("temperature", 21.5f32.to_bits(), "°C");
    a.push_value("humidity", 40.0f32.to_bits(), "%");
    a.push_value("pressure", 1013.25f32.to_bits(), "hPa");
    let mut b = SensorData::new("GY30", vec!["illuminance".to_string()], "Küche".to_string());
    b.push_value("illuminance", f32::NAN.to_bits(), "lx");
    let m = TelemetryMessage {
        status: Status::Good,
        snapshots: vec![a, b],
        diagnostics: vec![record("WARN", "low", 1), record("INFO", "ok ✓", u64::MAX), record("", "", 0)],
    };
    let d = decode_message(&encode_message(&m)).unwrap();
    assert_eq!(d.status, Status::Good);
    assert_eq!(d.snapshots.len(), 2);
    for (x, y) in d.snapshots.iter().zip(m.snapshots.iter()) {
        assert_eq!(x.get_name(), y.get_name());
        assert_eq!(x.get_types(), y.get_types());
        assert_eq!(x.get_location(), y.get_location());
        assert_eq!(x.get_values().len(), y.get_values().len());
        for (p, q) in x.get_values().iter().zip(y.get_values().iter()) {
            assert_eq!(p.value_name, q.value_name);
            assert_eq!(p.value, q.value);
            assert_eq!(p.unit, q.unit);
        }
    }
    assert_eq!(d.diagnostics.len(), 3);
    for (x, y) in d.diagnostics.iter().zip(m.diagnostics.iter()) {
        assert_eq!(x.log_level, y.log_level);
        assert_eq!(x.log_message, y.log_message);
        assert_eq!(x.log_timestamp, y.log_timestamp);
    }
}

#[test]
fn error_status_skips_snapshots_keeps_logs() {
    let mut a = SensorData::new("A", vec![], String::new());
    a.push_value("v", 0, "");
    let m = TelemetryMessage { status: Status::Error, snapshots: vec![a], diagnostics: vec![record("ERROR", "fault", 7)] };
    let d = decode_message(&encode_message(&m)).unwrap();
    assert_eq!(d.status, Status::Error);
    assert!(d.snapshots.is_empty());
    assert_eq!(d.diagnostics.len(), 1);
    assert_eq!(d.diagnostics[0].log_message, "fault");
}

#[test]
fn absent_sections_decode_empty() {
    let d = decode_message(&[]).unwrap();
    assert_eq!(d.status, Status::Good);
    assert!(d.snapshots.is_empty());
    assert!(d.diagnostics.is_empty());
    let d = decode_message(&[0x08, 0x00]).unwrap();
    assert!(d.snapshots.is_empty() && d.diagnostics.is_empty());
}

#[test]
fn unknown_fields_are_skipped() {
    let d = decode_message(&[0x20, 0x05, 0x2a, 0x01, 0xff, 0x08, 0x00]).unwrap();
    assert_eq!(d.status, Status::Good);
}

#[test]
fn malformed_payloads_are_refused() {
    assert_eq!(decode_message(&[0x08]).err(), Some(WireError::Malformed));
    assert_eq!(decode_message(&[0x12, 0x05, 0x00]).err(), Some(WireError::Malformed));
    assert_eq!(decode_message(&[0x00, 0x00]).err(), Some(WireError::Malformed));
    assert_eq!(decode_message(&[0x0b]).err(), Some(WireError::Malformed));
    assert_eq!(decode_message(&[0x12, 0x00, 0x0a, 0x01, 0x00]).err(), Some(WireError::Malformed));
    assert_eq!(decode_message(&[0x1a, 0x04, 0x0a, 0x02, 0x0a, 0xff]).err(), Some(WireError::Malformed));
    assert_eq!(decode_message(&[0x1a, 0x05, 0x0a, 0x03, 0x0a, 0x01, 0xff]).err(), Some(WireError::Malformed));
    let eleven = [0x18u8, 0x80, 0x80, 0x80, 0x80, 0x80, 0x80, 0x80, 0x80, 0x80, 0x80, 0x00];
    assert_eq!(decode_message(&eleven).err(), Some(WireError::Malformed));
}

#[test]
fn outgoing_message_drains_diagnostics() {
    let mut l = RemoteLogger::new();
    remote_logger_set_enable(&mut l, true);
    l.log(RemoteLoggerEntry { level: "INFO".to_string(), target: "t".to_string(), message: "hello".to_string(), timestamp: 9 });
    let mut s = SensorData::new("GY30", vec![REFERENCE_TYPE.to_string()], "room1".to_string());
    s.push_value("illuminance", 120.0f32.to_bits(), "lx");
    let bytes = get_protobuf_data(vec![s], &mut l);
    let d = decode_message(&bytes).unwrap();
    assert_eq!(d.snapshots.len(), 1);
    assert_eq!(d.diagnostics.len(), 1);
    assert_eq!(d.diagnostics[0].log_message, "hello");
    assert_eq!(d.diagnostics[0].log_timestamp, 9);
    let again = decode_message(&get_protobuf_data(vec![], &mut l)).unwrap();
    assert!(again.diagnostics.is_empty());
}

#[test]
fn end_to_end_low_light_warning_reaches_consumer() {
    let mut logger = RemoteLogger::new();
    let mut session = Session::new();
    session.accept(&mut logger);

    let mut m = SensorManager::new(1000).unwrap();
    m.add_sensor(SensorData::new("A", vec!["thp".to_string()], "room1".to_string()));
    m.add_sensor(SensorData::new("B", vec![REFERENCE_TYPE.to_string()], "room1".to_string()));
    m.push_value(0, "temperature", 21.5f32.to_bits(), "°C");
    m.push_value(0, "humidity", 40.0f32.to_bits(), "%");
    m.push_value(1, "illuminance", 50.0f32.to_bits(), "lx");

    let batch = m.cycle_publication().unwrap();
    let values = m.reference_values();
    let average = values.iter().map(|b| f32::from_bits(*b)).sum::<f32>() / values.len() as f32;
    assert!(average < 100.0);
    let warning = RemoteLoggerEntry {
        level: "WARN".to_string(),
        target: "sensors".to_string(),
        message: format!("illuminance is too low: {} lx", average),
        timestamp: 1,
    };
    assert_eq!(logger.log(warning), RecordOutcome::Stored);

    let mut channel = TelemetryChannel::new();
    channel.try_publish(batch).unwrap();
    let fresh = channel.try_get_data().unwrap();
    let frame = session.send(fresh, &mut logger);
    assert_eq!(session.frames(), 1);

    let d = decode_message(&frame).unwrap();
    assert_eq!(d.snapshots.len(), 2);
    assert_eq!(d.snapshots[0].get_name(), "A");
    assert_eq!(d.snapshots[0].get_values()[0].value, 21.5f32.to_bits());
    assert_eq!(d.snapshots[0].get_values()[1].value, 40.0f32.to_bits());
    assert_eq!(d.snapshots[1].get_values()[0].value, 50.0f32.to_bits());
    assert!(d.diagnostics.iter().any(|r| r.log_level == "WARN" && r.log_message.contains("illuminance")));
}
