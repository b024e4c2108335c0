use sigmiot::channel::{TelemetryChannel, DATA_CHANNEL_SIZE};
use sigmiot::sensors::{SensorData, SensorManager, REFERENCE_TYPE};

fn batch(name: &str, value: f32) -> Vec<SensorData> {
    let mut d = SensorData::new(name, vec![REFERENCE_TYPE.to_string()], "room1".to_string());
    d.push_value("illuminance", value.to_bits(), "lx");
    vec![d]
}

#[test]
fn latest_is_empty_before_any_publication() {
    let mut c = TelemetryChannel::new();
    assert!(c.get_data().is_empty());
    assert!(c.try_get_data().is_none());
}

#[test]
fn producer_waits_after_capacity() {
    let mut c = TelemetryChannel::new();
    assert_eq!(DATA_CHANNEL_SIZE, 2);
    assert!(c.try_publish(batch("a", 1.0)).is_ok());
    assert!(c.try_publish(batch("b", 2.0)).is_ok());
    let back = c.try_publish(batch("c", 3.0)).unwrap_err();
    assert_eq!(back[0].get_name(), "c");
    let first = c.try_get_data().unwrap();
    assert_eq!(first[0].get_name(), "a");
    assert!(c.try_publish(back).is_ok());
    assert_eq!(c.try_get_data().unwrap()[0].get_name(), "b");
    assert_eq!(c.try_get_data().unwrap()[0].get_name(), "c");
    assert!(c.try_get_data().is_none());
}

#[test]
fn poll_returns_newest_and_caches_it() {
    let mut c = TelemetryChannel::new();
    c.try_publish(batch("a", 1.0)).unwrap();
    c.try_publish(batch("b", 2.0)).unwrap();
    let latest = c.get_data();
    assert_eq!(latest[0].get_name(), "b");
    assert!(c.try_get_data().is_none());
    assert_eq!(c.get_data()[0].get_name(), "b");
}

#[test]
fn blocking_consumer_refreshes_cache() {
    let mut c = TelemetryChannel::new();
    c.try_publish(batch("a", 1.0)).unwrap();
    assert_eq!(c.try_get_data().unwrap()[0].get_name(), "a");
    assert_eq!(c.get_data()[0].get_name(), "a");
}

#[test]
fn cycles_with_reference_deliver_registered_sensors() {
    let mut m = SensorManager::new(1000).unwrap();
    m.add_sensor(SensorData::new("BME280", vec!["thp".to_string()], "room1".to_string()));
    m.add_sensor(SensorData::new("GY30", vec![REFERENCE_TYPE.to_string()], "room1".to_string()));
    let mut c = TelemetryChannel::new();
    for cycle in 0..3u32 {
        m.push_value(0, "temperature", (20.0 + cycle as f32).to_bits(), "°C");
        m.push_value(0, "humidity", 40.0f32.to_bits(), "%");
        m.push_value(1, "illuminance", 300.0f32.to_bits(), "lx");
        let b = m.cycle_publication().unwrap();
        c.try_publish(b).unwrap();
        let latest = c.get_data();
        assert_eq!(latest.len(), 2);
        assert_eq!(latest[0].get_name(), "BME280");
        assert_eq!(latest[1].get_name(), "GY30");
        let names: Vec<&str> = latest[0].get_values().iter().map(|v| v.value_name.as_str()).collect();
        assert_eq!(names, vec!["temperature", "humidity"]);
        assert_eq!(latest[0].get_values()[0].value, (20.0 + cycle as f32).to_bits());
        assert_eq!(latest[1].get_values()[0].value_name, "illuminance");
    }
}

#[test]
fn no_reference_sensor_nothing_delivered() {
    let mut m = SensorManager::new(1000).unwrap();
    m.add_sensor(SensorData::new("BME280", vec!["thp".to_string()], "room1".to_string()));
    m.push_value(0, "temperature", 21.0f32.to_bits(), "°C");
    let mut c = TelemetryChannel::new();
    for _ in 0..3 {
        if let Some(b) = m.cycle_publication() {
            c.try_publish(b).unwrap();
        }
    }
    assert!(c.try_get_data().is_none());
    assert!(c.get_data().is_empty());
}
