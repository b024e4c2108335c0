use sigmiot::channel::TelemetryChannel;
use sigmiot::markup::{get_http_data, render_markup, trunc_to_i32};
use sigmiot::remote_log::{remote_logger_get_entries, RecordOutcome, RemoteLogger, RemoteLoggerEntry};
use sigmiot::sensors::SensorData;
use sigmiot::ws::{hold_open, respond, to_records, Config, FrameType, Session, WebEvent, WebRequest};

fn entry(msg: &str) -> RemoteLoggerEntry {
    RemoteLoggerEntry { level: "INFO".to_string(), target: "ws".to_string(), message: msg.to_string(), timestamp: 3 }
}

#[test]
fn frame_types_that_keep_the_connection() {
    assert!(!hold_open(FrameType::Text(false)));
    assert!(!hold_open(FrameType::Text(true)));
    assert!(hold_open(FrameType::Binary(false)));
    assert!(hold_open(FrameType::Continue(true)));
    assert!(hold_open(FrameType::Ping));
    assert!(hold_open(FrameType::Pong));
    assert!(!hold_open(FrameType::Close));
    assert!(!hold_open(FrameType::SocketClose));
}

#[test]
fn text_frame_closes_and_flushes() {
    let mut logger = RemoteLogger::new();
    let mut s = Session::new();
    assert!(!s.is_connected());
    s.accept(&mut logger);
    assert!(s.is_connected());
    assert!(logger.enabled());
    assert_eq!(logger.log(entry("a")), RecordOutcome::Stored);
    assert!(s.receive(FrameType::Ping, &mut logger));
    assert_eq!(s.frames(), 1);
    assert!(!s.receive(FrameType::Text(false), &mut logger));
    assert_eq!(s.frames(), 2);
    assert!(!s.is_connected());
    assert!(!logger.enabled());
    s.accept(&mut logger);
    assert_eq!(s.frames(), 0);
    assert!(remote_logger_get_entries(&mut logger).is_empty());
}

#[test]
fn transport_error_close_flushes() {
    let mut logger = RemoteLogger::new();
    let mut s = Session::new();
    s.accept(&mut logger);
    logger.log(entry("b"));
    s.close(&mut logger);
    assert!(!s.is_connected());
    assert!(!logger.enabled());
    assert!(remote_logger_get_entries(&mut logger).is_empty());
}

#[test]
fn records_drop_the_source() {
    let r = to_records(&vec![entry("x"), entry("y")]);
    assert_eq!(r.len(), 2);
    assert_eq!(r[1].log_message, "y");
    assert_eq!(r[1].log_level, "INFO");
    assert_eq!(r[1].log_timestamp, 3);
}

#[test]
fn config_limits() {
    let c = Config::new();
    assert_eq!(c.max_connections(), 2);
    assert_eq!(c.max_frame_size(), 4096);
}

#[test]
fn web_requests() {
    assert_eq!(respond(Some(WebRequest::Request)), WebEvent::Event);
    assert_eq!(respond(Some(WebRequest::RequestWithPayload(7))), WebEvent::EventWithPayload(42));
    assert_eq!(respond(None), WebEvent::MalformedRequest);
}

#[test]
fn truncation_like_a_cast() {
    for v in [21.5f32, -1.5, 0.99, -0.0, 0.0, 40.0, 1013.25, 2147483520.0, -2147483648.0, 1e10, -1e10, 1e-40, 123456.78] {
        assert_eq!(trunc_to_i32(v.to_bits()), v as i32, "{}", v);
    }
    assert_eq!(trunc_to_i32(f32::NAN.to_bits()), 0);
    assert_eq!(trunc_to_i32(f32::INFINITY.to_bits()), i32::MAX);
    assert_eq!(trunc_to_i32(f32::NEG_INFINITY.to_bits()), i32::MIN);
    assert_eq!(trunc_to_i32(21.5f32.to_bits()), 21);
}

#[test]
fn markup_of_a_batch() {
    let mut a = SensorData::new("BME280", vec!["thp".to_string()], "room1".to_string());
    a.push_value("temperature", 21.5f32.to_bits(), "°C");
    a.push_value("humidity", (-3.7f32).to_bits(), "%");
    let b = SensorData::new("GY30", vec!["illuminance".to_string()], "room1".to_string());
    let text = render_markup(&vec![a, b]);
    assert_eq!(
        text,
        "<h2>BME280</h2>\n<ul>\n<li>temperature: 21 °C</li>\n<li>humidity: -3 %</li>\n</ul>\n<h2>GY30</h2>\n<ul>\n</ul>\n"
    );
    assert_eq!(render_markup(&vec![]), "");
}

#[test]
fn http_data_from_channel() {
    let mut c = TelemetryChannel::new();
    assert_eq!(get_http_data(&mut c), "");
    let mut a = SensorData::new("GY30", vec!["illuminance".to_string()], "room1".to_string());
    a.push_value("illuminance", 50.0f32.to_bits(), "lx");
    c.try_publish(vec![a]).unwrap();
    let expected = "<h2>GY30</h2>\n<ul>\n<li>illuminance: 50 lx</li>\n</ul>\n";
    assert_eq!(get_http_data(&mut c), expected);
    assert_eq!(get_http_data(&mut c), expected);
}
