use sigmiot::sensors::{SensorData, SensorManager, REFERENCE_TYPE};

fn bits(v: f32) -> u32 {
    v.to_bits()
}

fn climate() -> SensorData {
    SensorData::new("BME280", vec!["thp".to_string()], "room1".to_string())
}

fn light() -> SensorData {
    SensorData::new("GY30", vec![REFERENCE_TYPE.to_string()], "room1".to_string())
}

#[test]
fn new_snapshot_has_identity_and_no_readings() {
    let d = SensorData::new("BME280", vec!["temperature".to_string(), "humidity".to_string()], "room1".to_string());
    assert_eq!(d.get_name(), "BME280");
    assert_eq!(d.get_location(), "room1");
    assert_eq!(d.get_types().len(), 2);
    assert_eq!(d.get_types()[1], "humidity");
    assert!(d.get_values().is_empty());
}

#[test]
fn push_value_appends_new_names_in_order() {
    let mut d = climate();
    d.push_value("temperature", bits(21.5), "°C");
    d.push_value("humidity", bits(40.0), "%");
    let vs = d.get_values();
    assert_eq!(vs.len(), 2);
    assert_eq!(vs[0].value_name, "temperature");
    assert_eq!(vs[0].value, bits(21.5));
    assert_eq!(vs[0].unit, "°C");
    assert_eq!(vs[1].value_name, "humidity");
    assert_eq!(vs[1].value, bits(40.0));
}

#[test]
fn push_value_twice_keeps_one_reading_with_latest_value() {
    let mut d = climate();
    d.push_value("temperature", bits(20.0), "°C");
    d.push_value("pressure", bits(1013.0), "hPa");
    d.push_value("temperature", bits(22.25), "K");
    let vs = d.get_values();
    assert_eq!(vs.len(), 2);
    let temps: Vec<_> = vs.iter().filter(|v| v.value_name == "temperature").collect();
    assert_eq!(temps.len(), 1);
    assert_eq!(temps[0].value, bits(22.25));
    assert_eq!(temps[0].unit, "°C");
    assert_eq!(vs[0].value_name, "temperature");
}

#[test]
fn clone_keeps_everything() {
    let mut d = light();
    d.push_value("illuminance", bits(50.0), "lx");
    let c = d.clone();
    assert_eq!(c.get_name(), "GY30");
    assert_eq!(c.get_types()[0], "illuminance");
    assert_eq!(c.get_values()[0].value, bits(50.0));
}

#[test]
fn manager_rejects_zero_period() {
    assert!(SensorManager::new(0).is_none());
    let m = SensorManager::new(1000).unwrap();
    assert_eq!(m.poll_interval_ms(), 1000);
    assert!(m.get_sensors().is_empty());
}

#[test]
fn manager_lookups() {
    let mut m = SensorManager::new(1000).unwrap();
    m.add_sensor(climate());
    m.add_sensor(light());
    m.push_value(0, "temperature", bits(21.5), "°C");
    m.push_value(1, "illuminance", bits(50.0), "lx");
    assert_eq!(m.get_sensors_by_type("illuminance"), vec![1]);
    assert_eq!(m.get_sensors_by_type("thp"), vec![0]);
    assert!(m.get_sensors_by_type("sound").is_empty());
    let d = m.get_sensor_data("GY30").unwrap();
    assert_eq!(d.get_values()[0].value_name, "illuminance");
    let vs = m.get_sensor_values("BME280").unwrap();
    assert_eq!(vs[0].value, bits(21.5));
    assert!(m.get_sensor_data("none").is_none());
    assert!(m.get_sensor_values("none").is_none());
}

#[test]
fn reference_check_and_values() {
    let mut m = SensorManager::new(500).unwrap();
    m.add_sensor(climate());
    assert!(!m.check_illuminance());
    assert!(m.cycle_publication().is_none());
    m.add_sensor(light());
    assert!(m.check_illuminance());
    assert!(m.reference_values().is_empty());
    m.push_value(1, "illuminance", bits(80.0), "lx");
    assert_eq!(m.reference_values(), vec![bits(80.0)]);
}

#[test]
fn cycle_publication_copies_all_snapshots_in_order() {
    let mut m = SensorManager::new(500).unwrap();
    m.add_sensor(climate());
    m.add_sensor(light());
    m.push_value(0, "temperature", bits(21.5), "°C");
    m.push_value(0, "humidity", bits(40.0), "%");
    m.push_value(1, "illuminance", bits(50.0), "lx");
    let batch = m.cycle_publication().unwrap();
    assert_eq!(batch.len(), 2);
    assert_eq!(batch[0].get_name(), "BME280");
    assert_eq!(batch[0].get_values().len(), 2);
    assert_eq!(batch[1].get_name(), "GY30");
    assert_eq!(batch[1].get_values()[0].value, bits(50.0));
}

#[test]
fn identity_setters() {
    let mut d = SensorData::new("", vec![], String::new());
    d.set_name("BME280".to_string());
    d.add_type("temperature".to_string());
    d.add_type("humidity".to_string());
    d.set_location("cellar".to_string());
    assert_eq!(d.get_name(), "BME280");
    assert_eq!(d.get_types(), &vec!["temperature".to_string(), "humidity".to_string()]);
    assert_eq!(d.get_location(), "cellar");
    assert!(d.get_values().is_empty());
}
