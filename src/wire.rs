//! Wire format of telemetry messages.
//!
//! A message is a sequence of protobuf-style fields, each a tag (the varint
//! of `number * 8 + wire type`) followed by its payload:
//!
//! - message: 1 status (varint: 0 good, else error), 2 sensor section
//!   (length-delimited), 3 log section (length-delimited);
//! - sensor section: 1 snapshot, repeated;
//! - snapshot: 1 sensor name, 2 sensor type (repeated), 3 location,
//!   4 reading (repeated);
//! - reading: 1 name, 2 value (fixed32, binary32 bits), 3 unit;
//! - log section: 1 log record, repeated;
//! - log record: 1 level, 2 message, 3 timestamp (varint).
//!
//! Strings are UTF-8. The reader is in `decode`.
use vstd::prelude::*;
use vstd::utf8::encode_utf8;
use protobuf::CodedOutputStream;
use protobuf::rt::WireType;
use crate::sensors::{SensorData, SensorValue, ReadingView, SnapshotView, snapshots_view, readings_view};

verus! {

/// Largest field number protobuf accepts.
pub const FIELD_NUMBER_MAX: u32 = 0x1fff_ffff;

// ---------------------------------------------------------------------------
// Byte-level encoding

/// The base-128 varint of `v`: seven bits per byte, low bits first, the top
/// bit set on every byte but the last.
pub open spec fn varint(v: nat) -> Seq<u8>
    decreases v,
{
    if v < 128 {
        seq![v as u8]
    } else {
        seq![(v % 128 + 128) as u8] + varint(v / 128)
    }
}

/// The four little-endian bytes of `v`.
pub open spec fn le32(v: u32) -> Seq<u8> {
    seq![(v % 256) as u8, ((v / 256) % 256) as u8, ((v / 65536) % 256) as u8, (v / 16777216) as u8]
}

pub enum WireValue {
    Varint(nat),
    Fixed32(u32),
    Bytes(Seq<u8>),
}

pub struct WireField {
    pub number: nat,
    pub value: WireValue,
}

pub open spec fn wire_code(v: WireValue) -> nat {
    match v {
        WireValue::Varint(_) => 0,
        WireValue::Bytes(_) => 2,
        WireValue::Fixed32(_) => 5,
    }
}

pub open spec fn tag_bytes(number: nat, code: nat) -> Seq<u8> {
    varint(number * 8 + code)
}

pub open spec fn payload_bytes(v: WireValue) -> Seq<u8> {
    match v {
        WireValue::Varint(n) => varint(n),
        WireValue::Fixed32(x) => le32(x),
        WireValue::Bytes(b) => varint(b.len()) + b,
    }
}

pub open spec fn field_bytes(f: WireField) -> Seq<u8> {
    tag_bytes(f.number, wire_code(f.value)) + payload_bytes(f.value)
}

pub open spec fn fields_bytes(fs: Seq<WireField>) -> Seq<u8> {
    fs.map_values(|f: WireField| field_bytes(f)).flatten()
}

pub open spec fn str_field(number: nat, s: Seq<char>) -> WireField {
    WireField { number, value: WireValue::Bytes(encode_utf8(s)) }
}

pub open spec fn msg_field(number: nat, fs: Seq<WireField>) -> WireField {
    WireField { number, value: WireValue::Bytes(fields_bytes(fs)) }
}

// ---------------------------------------------------------------------------
// Messages

#[derive(PartialEq, Eq, Structural, Clone, Copy, Debug)]
pub enum Status {
    Good,
    Error,
}

pub open spec fn status_code(s: Status) -> nat {
    match s {
        Status::Good => 0,
        Status::Error => 1,
    }
}

/// One diagnostic entry as it travels on the wire.
#[derive(Debug)]
pub struct LogRecord {
    pub log_level: String,
    pub log_message: String,
    pub log_timestamp: u64,
}

pub struct RecordView {
    pub level: Seq<char>,
    pub message: Seq<char>,
    pub timestamp: u64,
}

impl View for LogRecord {
    type V = RecordView;

    open spec fn view(&self) -> RecordView {
        RecordView { level: self.log_level@, message: self.log_message@, timestamp: self.log_timestamp }
    }
}

pub open spec fn records_view(rs: Seq<LogRecord>) -> Seq<RecordView> {
    rs.map_values(|r: LogRecord| r@)
}

/// What one outgoing frame carries: a status, the snapshots of all sensors
/// and the diagnostic entries buffered since the last frame.
#[derive(Debug)]
pub struct TelemetryMessage {
    pub status: Status,
    pub snapshots: Vec<SensorData>,
    pub diagnostics: Vec<LogRecord>,
}

pub struct MessageView {
    pub status: Status,
    pub snapshots: Seq<SnapshotView>,
    pub diagnostics: Seq<RecordView>,
}

impl View for TelemetryMessage {
    type V = MessageView;

    open spec fn view(&self) -> MessageView {
        MessageView {
            status: self.status,
            snapshots: snapshots_view(self.snapshots@),
            diagnostics: records_view(self.diagnostics@),
        }
    }
}

pub open spec fn reading_fields(r: ReadingView) -> Seq<WireField> {
    seq![
        str_field(1, r.name),
        WireField { number: 2, value: WireValue::Fixed32(r.value) },
        str_field(3, r.unit),
    ]
}

pub open spec fn snapshot_fields(s: SnapshotView) -> Seq<WireField> {
    seq![str_field(1, s.name)]
        + s.types.map_values(|t: Seq<char>| str_field(2, t))
        + seq![str_field(3, s.location)]
        + s.readings.map_values(|r: ReadingView| msg_field(4, reading_fields(r)))
}

pub open spec fn sensor_section_fields(ss: Seq<SnapshotView>) -> Seq<WireField> {
    ss.map_values(|s: SnapshotView| msg_field(1, snapshot_fields(s)))
}

pub open spec fn record_fields(r: RecordView) -> Seq<WireField> {
    seq![
        str_field(1, r.level),
        str_field(2, r.message),
        WireField { number: 3, value: WireValue::Varint(r.timestamp as nat) },
    ]
}

pub open spec fn log_section_fields(rs: Seq<RecordView>) -> Seq<WireField> {
    rs.map_values(|r: RecordView| msg_field(1, record_fields(r)))
}

pub open spec fn message_fields(m: MessageView) -> Seq<WireField> {
    seq![
        WireField { number: 1, value: WireValue::Varint(status_code(m.status)) },
        msg_field(2, sensor_section_fields(m.snapshots)),
        msg_field(3, log_section_fields(m.diagnostics)),
    ]
}

/// The bytes of a telemetry message.
pub open spec fn message_bytes(m: MessageView) -> Seq<u8> {
    fields_bytes(message_fields(m))
}

proof fn lemma_fields_bytes_push(fs: Seq<WireField>, f: WireField)
    ensures
        fields_bytes(fs.push(f)) == fields_bytes(fs) + field_bytes(f),
{
    let g = |f: WireField| field_bytes(f);
    assert(fs.push(f).map_values(g) =~= fs.map_values(g).push(field_bytes(f)));
    fs.map_values(g).lemma_flatten_push(field_bytes(f));
}

// ---------------------------------------------------------------------------
// Writing, through protobuf's CodedOutputStream

pub enum WireKind {
    Varint,
    LengthDelimited,
    Fixed32,
}

pub open spec fn kind_code(k: WireKind) -> nat {
    match k {
        WireKind::Varint => 0,
        WireKind::LengthDelimited => 2,
        WireKind::Fixed32 => 5,
    }
}

/// Relies on protobuf's `CodedOutputStream::write_tag`: it appends the varint
/// of `field * 8 + wire type`; it asserts that the field number is in range.
#[verifier::external_body]
fn put_tag(out: &mut Vec<u8>, field: u32, kind: WireKind)
    requires
        1 <= field <= FIELD_NUMBER_MAX,
    ensures
        final(out)@ == old(out)@ + tag_bytes(field as nat, kind_code(kind)),
{
    let wire_type = match kind {
        WireKind::Varint => WireType::Varint,
        WireKind::LengthDelimited => WireType::LengthDelimited,
        WireKind::Fixed32 => WireType::Fixed32,
    };
    let mut os = CodedOutputStream::vec(out);
    os.write_tag(field, wire_type).unwrap();
    os.flush().unwrap();
}

/// Relies on protobuf's `CodedOutputStream::write_raw_varint64`: it appends
/// the base-128 varint of the value.
#[verifier::external_body]
fn put_varint(out: &mut Vec<u8>, v: u64)
    ensures
        final(out)@ == old(out)@ + varint(v as nat),
{
    let mut os = CodedOutputStream::vec(out);
    os.write_raw_varint64(v).unwrap();
    os.flush().unwrap();
}

/// Relies on protobuf's `CodedOutputStream::write_fixed32_no_tag`: it appends
/// the four little-endian bytes of the value.
#[verifier::external_body]
fn put_fixed32(out: &mut Vec<u8>, v: u32)
    ensures
        final(out)@ == old(out)@ + le32(v),
{
    let mut os = CodedOutputStream::vec(out);
    os.write_fixed32_no_tag(v).unwrap();
    os.flush().unwrap();
}

/// Relies on protobuf's `CodedOutputStream::write_raw_bytes`: it appends the
/// bytes as they are.
#[verifier::external_body]
fn put_raw_bytes(out: &mut Vec<u8>, b: &[u8])
    ensures
        final(out)@ == old(out)@ + b@,
{
    let mut os = CodedOutputStream::vec(out);
    os.write_raw_bytes(b).unwrap();
    os.flush().unwrap();
}

fn put_varint_field(out: &mut Vec<u8>, field: u32, v: u64)
    requires
        1 <= field <= FIELD_NUMBER_MAX,
    ensures
        final(out)@ == old(out)@ + field_bytes(WireField { number: field as nat, value: WireValue::Varint(v as nat) }),
{
    put_tag(out, field, WireKind::Varint);
    put_varint(out, v);
    assert(out@ =~= old(out)@ + field_bytes(WireField { number: field as nat, value: WireValue::Varint(v as nat) }));
}

fn put_fixed32_field(out: &mut Vec<u8>, field: u32, v: u32)
    requires
        1 <= field <= FIELD_NUMBER_MAX,
    ensures
        final(out)@ == old(out)@ + field_bytes(WireField { number: field as nat, value: WireValue::Fixed32(v) }),
{
    put_tag(out, field, WireKind::Fixed32);
    put_fixed32(out, v);
    assert(out@ =~= old(out)@ + field_bytes(WireField { number: field as nat, value: WireValue::Fixed32(v) }));
}

fn put_bytes_field(out: &mut Vec<u8>, field: u32, b: &[u8])
    requires
        1 <= field <= FIELD_NUMBER_MAX,
    ensures
        final(out)@ == old(out)@ + field_bytes(WireField { number: field as nat, value: WireValue::Bytes(b@) }),
{
    put_tag(out, field, WireKind::LengthDelimited);
    put_varint(out, b.len() as u64);
    put_raw_bytes(out, b);
    assert(out@ =~= old(out)@ + field_bytes(WireField { number: field as nat, value: WireValue::Bytes(b@) }));
}

fn put_string_field(out: &mut Vec<u8>, field: u32, s: &String)
    requires
        1 <= field <= FIELD_NUMBER_MAX,
    ensures
        final(out)@ == old(out)@ + field_bytes(str_field(field as nat, s@)),
{
    put_bytes_field(out, field, s.as_str().as_bytes());
}

fn encode_reading(r: &SensorValue) -> (out: Vec<u8>)
    ensures
        out@ == fields_bytes(reading_fields(r@)),
{
    let mut out: Vec<u8> = Vec::new();
    put_string_field(&mut out, 1, &r.value_name);
    put_fixed32_field(&mut out, 2, r.value);
    put_string_field(&mut out, 3, &r.unit);
    proof {
        let fs = reading_fields(r@);
        lemma_fields_bytes_push(Seq::empty(), fs[0]);
        lemma_fields_bytes_push(seq![fs[0]], fs[1]);
        lemma_fields_bytes_push(seq![fs[0], fs[1]], fs[2]);
        assert(Seq::<WireField>::empty().push(fs[0]) =~= seq![fs[0]]);
        assert(seq![fs[0]].push(fs[1]) =~= seq![fs[0], fs[1]]);
        assert(seq![fs[0], fs[1]].push(fs[2]) =~= fs);
        assert(fields_bytes(Seq::<WireField>::empty()) =~= Seq::<u8>::empty());
        assert(out@ =~= fields_bytes(fs));
    }
    out
}

fn encode_snapshot(s: &SensorData) -> (out: Vec<u8>)
    ensures
        out@ == fields_bytes(snapshot_fields(s@)),
{
    let mut out: Vec<u8> = Vec::new();
    let ghost mut done: Seq<WireField> = Seq::empty();
    assert(fields_bytes(done) =~= Seq::<u8>::empty());
    put_string_field(&mut out, 1, s.get_name());
    proof {
        lemma_fields_bytes_push(done, str_field(1, s@.name));
        done = done.push(str_field(1, s@.name));
    }
    let types = s.get_types();
    let mut i: usize = 0;
    while i < types.len()
        invariant
            0 <= i <= types.len(),
            crate::sensors::strings_view(types@) == s@.types,
            out@ == fields_bytes(done),
            done == seq![str_field(1, s@.name)] + s@.types.take(i as int).map_values(|t: Seq<char>| str_field(2, t)),
        decreases types.len() - i,
    {
        put_string_field(&mut out, 2, &types[i]);
        proof {
            assert(types@[i as int]@ == s@.types[i as int]);
            lemma_fields_bytes_push(done, str_field(2, s@.types[i as int]));
            done = done.push(str_field(2, s@.types[i as int]));
            assert(done =~= seq![str_field(1, s@.name)] + s@.types.take(i + 1).map_values(|t: Seq<char>| str_field(2, t)));
        }
        i = i + 1;
    }
    put_string_field(&mut out, 3, s.get_location());
    proof {
        lemma_fields_bytes_push(done, str_field(3, s@.location));
        done = done.push(str_field(3, s@.location));
        assert(s@.types.take(types@.len() as int) =~= s@.types);
    }
    let ghost head = done;
    let values = s.get_values();
    let mut j: usize = 0;
    while j < values.len()
        invariant
            0 <= j <= values.len(),
            readings_view(values@) == s@.readings,
            out@ == fields_bytes(done),
            done == head + s@.readings.take(j as int).map_values(|r: ReadingView| msg_field(4, reading_fields(r))),
        decreases values.len() - j,
    {
        let rb = encode_reading(&values[j]);
        put_bytes_field(&mut out, 4, rb.as_slice());
        proof {
            assert(values@[j as int]@ == s@.readings[j as int]);
            lemma_fields_bytes_push(done, msg_field(4, reading_fields(s@.readings[j as int])));
            done = done.push(msg_field(4, reading_fields(s@.readings[j as int])));
            assert(done =~= head + s@.readings.take(j + 1).map_values(|r: ReadingView| msg_field(4, reading_fields(r))));
        }
        j = j + 1;
    }
    proof {
        assert(s@.readings.take(values@.len() as int) =~= s@.readings);
        assert(done =~= snapshot_fields(s@));
    }
    out
}

fn encode_sensor_section(ss: &Vec<SensorData>) -> (out: Vec<u8>)
    ensures
        out@ == fields_bytes(sensor_section_fields(snapshots_view(ss@))),
{
    let mut out: Vec<u8> = Vec::new();
    let ghost mut done: Seq<WireField> = Seq::empty();
    assert(fields_bytes(done) =~= Seq::<u8>::empty());
    let ghost sv = snapshots_view(ss@);
    let mut i: usize = 0;
    while i < ss.len()
        invariant
            0 <= i <= ss.len(),
            sv == snapshots_view(ss@),
            out@ == fields_bytes(done),
            done == sensor_section_fields(sv.take(i as int)),
        decreases ss.len() - i,
    {
        let b = encode_snapshot(&ss[i]);
        put_bytes_field(&mut out, 1, b.as_slice());
        proof {
            lemma_fields_bytes_push(done, msg_field(1, snapshot_fields(sv[i as int])));
            done = done.push(msg_field(1, snapshot_fields(sv[i as int])));
            assert(done =~= sensor_section_fields(sv.take(i + 1)));
        }
        i = i + 1;
    }
    assert(sv.take(ss@.len() as int) =~= sv);
    out
}

fn encode_record(r: &LogRecord) -> (out: Vec<u8>)
    ensures
        out@ == fields_bytes(record_fields(r@)),
{
    let mut out: Vec<u8> = Vec::new();
    put_string_field(&mut out, 1, &r.log_level);
    put_string_field(&mut out, 2, &r.log_message);
    put_varint_field(&mut out, 3, r.log_timestamp);
    proof {
        let fs = record_fields(r@);
        lemma_fields_bytes_push(Seq::empty(), fs[0]);
        lemma_fields_bytes_push(seq![fs[0]], fs[1]);
        lemma_fields_bytes_push(seq![fs[0], fs[1]], fs[2]);
        assert(Seq::<WireField>::empty().push(fs[0]) =~= seq![fs[0]]);
        assert(seq![fs[0]].push(fs[1]) =~= seq![fs[0], fs[1]]);
        assert(seq![fs[0], fs[1]].push(fs[2]) =~= fs);
        assert(fields_bytes(Seq::<WireField>::empty()) =~= Seq::<u8>::empty());
        assert(out@ =~= fields_bytes(fs));
    }
    out
}

fn encode_log_section(rs: &Vec<LogRecord>) -> (out: Vec<u8>)
    ensures
        out@ == fields_bytes(log_section_fields(records_view(rs@))),
{
    let mut out: Vec<u8> = Vec::new();
    let ghost mut done: Seq<WireField> = Seq::empty();
    assert(fields_bytes(done) =~= Seq::<u8>::empty());
    let ghost rv = records_view(rs@);
    let mut i: usize = 0;
    while i < rs.len()
        invariant
            0 <= i <= rs.len(),
            rv == records_view(rs@),
            out@ == fields_bytes(done),
            done == log_section_fields(rv.take(i as int)),
        decreases rs.len() - i,
    {
        let b = encode_record(&rs[i]);
        put_bytes_field(&mut out, 1, b.as_slice());
        proof {
            lemma_fields_bytes_push(done, msg_field(1, record_fields(rv[i as int])));
            done = done.push(msg_field(1, record_fields(rv[i as int])));
            assert(done =~= log_section_fields(rv.take(i + 1)));
        }
        i = i + 1;
    }
    assert(rv.take(rs@.len() as int) =~= rv);
    out
}

/// Encodes a telemetry message; the same message always gives the same bytes.
pub fn encode_message(m: &TelemetryMessage) -> (out: Vec<u8>)
    ensures
        out@ == message_bytes(m@),
{
    let mut out: Vec<u8> = Vec::new();
    let code: u64 = match m.status {
        Status::Good => 0,
        Status::Error => 1,
    };
    put_varint_field(&mut out, 1, code);
    let sensors = encode_sensor_section(&m.snapshots);
    put_bytes_field(&mut out, 2, sensors.as_slice());
    let logs = encode_log_section(&m.diagnostics);
    put_bytes_field(&mut out, 3, logs.as_slice());
    proof {
        let fs = message_fields(m@);
        lemma_fields_bytes_push(Seq::empty(), fs[0]);
        lemma_fields_bytes_push(seq![fs[0]], fs[1]);
        lemma_fields_bytes_push(seq![fs[0], fs[1]], fs[2]);
        assert(Seq::<WireField>::empty().push(fs[0]) =~= seq![fs[0]]);
        assert(seq![fs[0]].push(fs[1]) =~= seq![fs[0], fs[1]]);
        assert(seq![fs[0], fs[1]].push(fs[2]) =~= fs);
        assert(fields_bytes(Seq::<WireField>::empty()) =~= Seq::<u8>::empty());
        assert(out@ =~= fields_bytes(fs));
    }
    out
}

} // verus!
