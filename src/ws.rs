//! Streaming protocol: the per-connection state machine that reacts to
//! inbound frames and to fresh telemetry, and the assembly of outgoing
//! telemetry messages.
use vstd::prelude::*;
use crate::sensors::{SensorData, SnapshotView, snapshots_view};
use crate::remote_log::{RemoteLogger, RemoteLoggerEntry, EntryView, LoggerView, entries_view,
    remote_logger_get_entries, remote_logger_set_enable, set_enable_step};
use crate::wire::{LogRecord, RecordView, TelemetryMessage, MessageView, Status, records_view, encode_message, message_bytes};

verus! {

/// Type of an inbound frame; the flag of the data frames marks a fragment.
#[derive(PartialEq, Eq, Structural, Clone, Copy, Debug)]
pub enum FrameType {
    Text(bool),
    Binary(bool),
    Ping,
    Pong,
    Close,
    SocketClose,
    Continue(bool),
}

/// Whether a connection stays open after a frame of this type: text frames
/// are not supported and, like close frames, end the connection.
pub open spec fn keeps_open(frame: FrameType) -> bool {
    match frame {
        FrameType::Text(_) => false,
        FrameType::Binary(_) => true,
        FrameType::Continue(_) => true,
        FrameType::Ping => true,
        FrameType::Pong => true,
        FrameType::Close => false,
        FrameType::SocketClose => false,
    }
}

pub fn hold_open(frame: FrameType) -> (r: bool)
    ensures
        r == keeps_open(frame),
{
    match frame {
        FrameType::Text(_) => false,
        FrameType::Binary(_) => true,
        FrameType::Continue(_) => true,
        FrameType::Ping => true,
        FrameType::Pong => true,
        FrameType::Close => false,
        FrameType::SocketClose => false,
    }
}

pub open spec fn record_of(e: EntryView) -> RecordView {
    RecordView { level: e.level, message: e.message, timestamp: e.timestamp }
}

pub open spec fn records_of(es: Seq<EntryView>) -> Seq<RecordView> {
    es.map_values(|e: EntryView| record_of(e))
}

/// The wire records of diagnostic entries, in order.
pub fn to_records(entries: &Vec<RemoteLoggerEntry>) -> (r: Vec<LogRecord>)
    ensures
        records_view(r@) == records_of(entries_view(entries@)),
{
    let ghost all = entries_view(entries@);
    let mut r: Vec<LogRecord> = Vec::new();
    let mut i: usize = 0;
    while i < entries.len()
        invariant
            0 <= i <= entries.len(),
            all == entries_view(entries@),
            r@.len() == i,
            forall|k: int| 0 <= k < i ==> (#[trigger] r@[k])@ == record_of(all[k]),
        decreases entries.len() - i,
    {
        let e = &entries[i];
        r.push(LogRecord { log_level: e.level.clone(), log_message: e.message.clone(), log_timestamp: e.timestamp });
        i = i + 1;
    }
    assert(records_view(r@) =~= records_of(all));
    r
}

/// The message sent for a fresh batch: good status, the batch, and the
/// diagnostic entries drained from the sink.
pub open spec fn outgoing_message(batch: Seq<SnapshotView>, entries: Seq<EntryView>) -> MessageView {
    MessageView { status: Status::Good, snapshots: batch, diagnostics: records_of(entries) }
}

/// Builds and encodes the message for a fresh batch, draining the
/// diagnostic sink into it.
pub fn get_protobuf_data(sensors_data: Vec<SensorData>, logger: &mut RemoteLogger) -> (out: Vec<u8>)
    ensures
        out@ == message_bytes(outgoing_message(snapshots_view(sensors_data@), old(logger)@.entries)),
        final(logger)@.entries == Seq::<EntryView>::empty(),
        final(logger)@.enabled == old(logger)@.enabled,
{
    let entries = remote_logger_get_entries(logger);
    let diagnostics = to_records(&entries);
    let msg = TelemetryMessage { status: Status::Good, snapshots: sensors_data, diagnostics };
    encode_message(&msg)
}

pub struct SessionView {
    pub connected: bool,
    pub frames: u32,
}

/// What the connection loop does after an event.
pub enum Action {
    /// Wait for the next event.
    Wait,
    /// Write these bytes as one binary frame, then wait.
    Send(Vec<u8>),
    /// Close the connection and wait for the next peer.
    Close,
}

/// State of the streaming endpoint: whether a peer is connected, and how
/// many frames went in or out on the current connection (for diagnostics
/// only; it wraps around).
pub struct Session {
    connected: bool,
    frames: u32,
}

impl View for Session {
    type V = SessionView;

    closed spec fn view(&self) -> SessionView {
        SessionView { connected: self.connected, frames: self.frames }
    }
}

pub open spec fn next_count(n: u32) -> u32 {
    if n == u32::MAX { 0 } else { (n + 1) as u32 }
}

/// The endpoint and sink after an inbound frame, and whether the connection
/// stays open; a closing frame deactivates (and so flushes) the sink.
pub open spec fn inbound_step(s: SessionView, l: LoggerView, frame: FrameType) -> (SessionView, LoggerView, bool) {
    if keeps_open(frame) {
        (SessionView { connected: s.connected, frames: next_count(s.frames) }, l, true)
    } else {
        (SessionView { connected: false, frames: next_count(s.frames) }, set_enable_step(l, false), false)
    }
}

impl Session {
    /// No peer connected.
    pub fn new() -> (r: Self)
        ensures
            r@ == (SessionView { connected: false, frames: 0 }),
    {
        Session { connected: false, frames: 0 }
    }

    pub fn is_connected(&self) -> (r: bool)
        ensures
            r == self@.connected,
    {
        self.connected
    }

    pub fn frames(&self) -> (r: u32)
        ensures
            r == self@.frames,
    {
        self.frames
    }

    /// A peer connected: the frame count starts over and the diagnostic
    /// sink is activated.
    pub fn accept(&mut self, logger: &mut RemoteLogger)
        requires
            old(logger).wf(),
        ensures
            final(logger).wf(),
            final(self)@ == (SessionView { connected: true, frames: 0 }),
            final(logger)@ == set_enable_step(old(logger)@, true),
    {
        self.connected = true;
        self.frames = 0;
        remote_logger_set_enable(logger, true);
    }

    fn count_frame(&mut self)
        ensures
            final(self)@ == (SessionView { frames: next_count(old(self)@.frames), ..old(self)@ }),
    {
        self.frames = if self.frames == u32::MAX { 0 } else { self.frames + 1 };
    }

    /// Ends the connection: the diagnostic sink is deactivated, which
    /// discards what it holds.
    pub fn close(&mut self, logger: &mut RemoteLogger)
        requires
            old(logger).wf(),
        ensures
            final(logger).wf(),
            final(self)@ == (SessionView { connected: false, ..old(self)@ }),
            final(logger)@ == set_enable_step(old(logger)@, false),
    {
        self.connected = false;
        remote_logger_set_enable(logger, false);
    }

    /// An inbound frame arrived; returns whether the connection stays open.
    pub fn receive(&mut self, frame: FrameType, logger: &mut RemoteLogger) -> (hold: bool)
        requires
            old(logger).wf(),
        ensures
            final(logger).wf(),
            (final(self)@, final(logger)@, hold) == inbound_step(old(self)@, old(logger)@, frame),
    {
        self.count_frame();
        let hold = hold_open(frame);
        if !hold {
            self.close(logger);
        }
        hold
    }

    /// A fresh batch is ready: returns the bytes of the frame to send, which
    /// carry the batch and the drained diagnostics.
    pub fn send(&mut self, sensors_data: Vec<SensorData>, logger: &mut RemoteLogger) -> (out: Vec<u8>)
        ensures
            final(self)@ == (SessionView { frames: next_count(old(self)@.frames), ..old(self)@ }),
            out@ == message_bytes(outgoing_message(snapshots_view(sensors_data@), old(logger)@.entries)),
            final(logger)@.entries == Seq::<EntryView>::empty(),
            final(logger)@.enabled == old(logger)@.enabled,
    {
        self.count_frame();
        get_protobuf_data(sensors_data, logger)
    }
}

/// Limits of the streaming endpoint: concurrent connections and the size
/// of one inbound frame.
pub struct Config {
    ws_max_con: usize,
    ws_max_frame_size: usize,
}

impl Config {
    /// Two connections at most, frames of at most 4096 bytes.
    pub fn new() -> (r: Self)
        ensures
            r.max_connections_spec() == 2,
            r.max_frame_size_spec() == 4096,
    {
        Config { ws_max_con: 2, ws_max_frame_size: 4096 }
    }

    pub closed spec fn max_connections_spec(&self) -> usize {
        self.ws_max_con
    }

    pub closed spec fn max_frame_size_spec(&self) -> usize {
        self.ws_max_frame_size
    }

    pub fn max_connections(&self) -> (r: usize)
        ensures
            r == self.max_connections_spec(),
    {
        self.ws_max_con
    }

    pub fn max_frame_size(&self) -> (r: usize)
        ensures
            r == self.max_frame_size_spec(),
    {
        self.ws_max_frame_size
    }
}

/// A request a peer may send as JSON in a text frame.
#[derive(PartialEq, Eq, Structural, Clone, Copy, Debug)]
pub enum WebRequest {
    Request,
    RequestWithPayload(u32),
}

/// The answer to a text-frame request.
#[derive(PartialEq, Eq, Structural, Clone, Copy, Debug)]
pub enum WebEvent {
    Event,
    EventWithPayload(u32),
    MalformedRequest,
}

pub open spec fn event_for(request: Option<WebRequest>) -> WebEvent {
    match request {
        Some(WebRequest::Request) => WebEvent::Event,
        Some(WebRequest::RequestWithPayload(_)) => WebEvent::EventWithPayload(42),
        None => WebEvent::MalformedRequest,
    }
}

/// The answer to a request; `None` stands for a text that is no request.
pub fn respond(request: Option<WebRequest>) -> (r: WebEvent)
    ensures
        r == event_for(request),
{
    match request {
        Some(WebRequest::Request) => WebEvent::Event,
        Some(WebRequest::RequestWithPayload(_)) => WebEvent::EventWithPayload(42),
        None => WebEvent::MalformedRequest,
    }
}

} // verus!
