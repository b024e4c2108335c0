use sigmiot::remote_log::{
    remote_logger_get_entries, remote_logger_publish_entry, remote_logger_set_enable, RecordOutcome,
    RemoteLogger, RemoteLoggerEntry, LOG_CHANNEL_SIZE,
};

fn entry(i: u64) -> RemoteLoggerEntry {
    RemoteLoggerEntry {
        level: "INFO".to_string(),
        target: "test".to_string(),
        message: format!("entry {}", i),
        timestamp: 1_700_000_000 + i,
    }
}

#[test]
fn inactive_sink_drops_entries() {
    let mut l = RemoteLogger::new();
    assert!(!l.enabled());
    assert_eq!(l.log(entry(0)), RecordOutcome::Inactive);
    assert!(remote_logger_get_entries(&mut l).is_empty());
}

#[test]
fn ring_keeps_oldest_and_reports_drop() {
    let mut l = RemoteLogger::new();
    remote_logger_set_enable(&mut l, true);
    assert_eq!(LOG_CHANNEL_SIZE, 21);
    let mut dropped = 0;
    for i in 0..(LOG_CHANNEL_SIZE as u64 + 1) {
        match l.log(entry(i)) {
            RecordOutcome::Stored => {}
            RecordOutcome::Full => dropped += 1,
            RecordOutcome::Inactive => panic!("sink is active"),
        }
    }
    assert_eq!(dropped, 1);
    let drained = remote_logger_get_entries(&mut l);
    assert_eq!(drained.len(), LOG_CHANNEL_SIZE);
    for (i, e) in drained.iter().enumerate() {
        assert_eq!(e.message, format!("entry {}", i));
        assert_eq!(e.timestamp, 1_700_000_000 + i as u64);
    }
    assert!(remote_logger_get_entries(&mut l).is_empty());
}

#[test]
fn publish_entry_ignores_flag_but_not_capacity() {
    let mut l = RemoteLogger::new();
    assert!(remote_logger_publish_entry(&mut l, entry(1)).is_ok());
    for i in 1..LOG_CHANNEL_SIZE as u64 {
        assert!(remote_logger_publish_entry(&mut l, entry(i + 1)).is_ok());
    }
    let back = remote_logger_publish_entry(&mut l, entry(99)).unwrap_err();
    assert_eq!(back.message, "entry 99");
    assert_eq!(remote_logger_get_entries(&mut l).len(), LOG_CHANNEL_SIZE);
}

#[test]
fn disabling_flushes_and_enabling_keeps() {
    let mut l = RemoteLogger::new();
    remote_logger_set_enable(&mut l, true);
    l.log(entry(1));
    l.log(entry(2));
    remote_logger_set_enable(&mut l, true);
    assert!(l.enabled());
    remote_logger_set_enable(&mut l, false);
    assert!(!l.enabled());
    remote_logger_set_enable(&mut l, true);
    assert!(remote_logger_get_entries(&mut l).is_empty());
}

#[test]
fn set_enable_alone_keeps_entries_and_flush_discards() {
    let mut l = RemoteLogger::new();
    l.set_enable(true);
    l.log(entry(1));
    l.set_enable(false);
    l.set_enable(true);
    l.log(entry(2));
    l.flush();
    assert!(l.enabled());
    assert!(remote_logger_get_entries(&mut l).is_empty());
    l.log(entry(3));
    let d = remote_logger_get_entries(&mut l);
    assert_eq!(d.len(), 1);
    assert_eq!(d[0].target, "test");
}
