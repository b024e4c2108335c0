//! Diagnostic sink: a bounded FIFO of log entries destined for the streaming
//! consumer, gated by an activation flag.
use vstd::prelude::*;
use embassy_sync::blocking_mutex::raw::NoopRawMutex;
use embassy_sync::channel::{Channel, TrySendError};

verus! {

/// How many diagnostic entries the ring holds.
pub const LOG_CHANNEL_SIZE: usize = 21;

/// One diagnostic entry: level name, source (target) of the log call,
/// message text, and seconds since the Unix epoch.
#[derive(Debug)]
pub struct RemoteLoggerEntry {
    pub level: String,
    pub target: String,
    pub message: String,
    pub timestamp: u64,
}

pub struct EntryView {
    pub level: Seq<char>,
    pub target: Seq<char>,
    pub message: Seq<char>,
    pub timestamp: u64,
}

impl View for RemoteLoggerEntry {
    type V = EntryView;

    open spec fn view(&self) -> EntryView {
        EntryView { level: self.level@, target: self.target@, message: self.message@, timestamp: self.timestamp }
    }
}

pub open spec fn entries_view(es: Seq<RemoteLoggerEntry>) -> Seq<EntryView> {
    es.map_values(|e: RemoteLoggerEntry| e@)
}

/// The ring of entries, held in an embassy-sync channel.
#[verifier::external_body]
pub struct LogQueue {
    inner: Channel<NoopRawMutex, RemoteLoggerEntry, LOG_CHANNEL_SIZE>,
}

/// The entries in the ring, oldest first.
pub uninterp spec fn queued_entries(q: LogQueue) -> Seq<EntryView>;

/// Relies on embassy_sync's `Channel::new`: a new channel holds nothing.
#[verifier::external_body]
fn log_queue_new() -> (r: LogQueue)
    ensures
        queued_entries(r) == Seq::<EntryView>::empty(),
{
    LogQueue { inner: Channel::new() }
}

/// Relies on embassy_sync's `Channel::try_send`: the message is appended
/// when fewer than the capacity wait, and handed back in `Full` otherwise.
#[verifier::external_body]
fn log_queue_try_send(q: &mut LogQueue, entry: RemoteLoggerEntry) -> (r: Result<(), RemoteLoggerEntry>)
    ensures
        queued_entries(*old(q)).len() < LOG_CHANNEL_SIZE ==> (r is Ok
            && queued_entries(*final(q)) == queued_entries(*old(q)).push(entry@)),
        queued_entries(*old(q)).len() >= LOG_CHANNEL_SIZE ==> (r matches Err(e) && e@ == entry@
            && queued_entries(*final(q)) == queued_entries(*old(q))),
{
    match q.inner.try_send(entry) {
        Ok(()) => Ok(()),
        Err(TrySendError::Full(e)) => Err(e),
    }
}

/// Relies on embassy_sync's `Channel::try_receive`: the oldest message is
/// removed and returned, or `Empty` when nothing waits.
#[verifier::external_body]
fn log_queue_try_receive(q: &mut LogQueue) -> (r: Option<RemoteLoggerEntry>)
    ensures
        queued_entries(*old(q)).len() > 0 ==> (r matches Some(e) && e@ == queued_entries(*old(q))[0]
            && queued_entries(*final(q)) == queued_entries(*old(q)).drop_first()),
        queued_entries(*old(q)).len() == 0 ==> (r is None && queued_entries(*final(q)) == queued_entries(*old(q))),
{
    q.inner.try_receive().ok()
}

/// What became of an entry offered to the sink.
#[derive(PartialEq, Eq, Structural, Clone, Copy, Debug)]
pub enum RecordOutcome {
    /// Appended to the ring.
    Stored,
    /// The ring was full: the entry was dropped.
    Full,
    /// The sink is inactive: the entry was dropped.
    Inactive,
}

pub struct LoggerView {
    pub enabled: bool,
    pub entries: Seq<EntryView>,
}

/// The sink after an entry is offered, and the outcome.
pub open spec fn record_step(l: LoggerView, e: EntryView) -> (LoggerView, RecordOutcome) {
    if !l.enabled {
        (l, RecordOutcome::Inactive)
    } else if l.entries.len() < LOG_CHANNEL_SIZE {
        (LoggerView { entries: l.entries.push(e), ..l }, RecordOutcome::Stored)
    } else {
        (l, RecordOutcome::Full)
    }
}

/// The sink after it is switched on or off: switching off discards what the
/// ring holds.
pub open spec fn set_enable_step(l: LoggerView, enabled: bool) -> LoggerView {
    if enabled {
        LoggerView { enabled: true, entries: l.entries }
    } else {
        LoggerView { enabled: false, entries: Seq::empty() }
    }
}

/// The sink that forwards diagnostic entries to a streaming consumer.
pub struct RemoteLogger {
    enabled: bool,
    ring: LogQueue,
}

impl View for RemoteLogger {
    type V = LoggerView;

    closed spec fn view(&self) -> LoggerView {
        LoggerView { enabled: self.enabled, entries: queued_entries(self.ring) }
    }
}

impl RemoteLogger {
    pub open spec fn wf(&self) -> bool {
        self@.entries.len() <= LOG_CHANNEL_SIZE
    }

    /// An inactive sink with an empty ring.
    pub fn new() -> (r: Self)
        ensures
            r.wf(),
            !r@.enabled,
            r@.entries == Seq::<EntryView>::empty(),
    {
        RemoteLogger { enabled: false, ring: log_queue_new() }
    }

    pub fn enabled(&self) -> (r: bool)
        ensures
            r == self@.enabled,
    {
        self.enabled
    }

    /// Sets the activation flag alone; the ring is left as it is.
    pub fn set_enable(&mut self, enabled: bool)
        ensures
            final(self)@.enabled == enabled,
            final(self)@.entries == old(self)@.entries,
    {
        self.enabled = enabled;
    }

    /// Offers an entry: stored when active and the ring has room, dropped
    /// otherwise. Never waits.
    pub fn log(&mut self, entry: RemoteLoggerEntry) -> (r: RecordOutcome)
        requires
            old(self).wf(),
        ensures
            final(self).wf(),
            (final(self)@, r) == record_step(old(self)@, entry@),
    {
        if !self.enabled {
            return RecordOutcome::Inactive;
        }
        match log_queue_try_send(&mut self.ring, entry) {
            Ok(()) => RecordOutcome::Stored,
            Err(_) => RecordOutcome::Full,
        }
    }

    /// Discards every entry in the ring.
    pub fn flush(&mut self)
        ensures
            final(self)@.enabled == old(self)@.enabled,
            final(self)@.entries == Seq::<EntryView>::empty(),
    {
        let _ = remote_logger_get_entries(self);
    }
}

/// Appends an entry to the ring, whether or not the sink is active; a full
/// ring hands the entry back.
pub fn remote_logger_publish_entry(logger: &mut RemoteLogger, entry: RemoteLoggerEntry) -> (r: Result<(), RemoteLoggerEntry>)
    requires
        old(logger).wf(),
    ensures
        final(logger).wf(),
        final(logger)@.enabled == old(logger)@.enabled,
        old(logger)@.entries.len() < LOG_CHANNEL_SIZE ==> (r is Ok && final(logger)@.entries == old(logger)@.entries.push(entry@)),
        old(logger)@.entries.len() >= LOG_CHANNEL_SIZE ==> (r matches Err(e) && e@ == entry@
            && final(logger)@.entries == old(logger)@.entries),
{
    log_queue_try_send(&mut logger.ring, entry)
}

/// Removes and returns every entry in the ring, oldest first.
pub fn remote_logger_get_entries(logger: &mut RemoteLogger) -> (r: Vec<RemoteLoggerEntry>)
    ensures
        entries_view(r@) == old(logger)@.entries,
        final(logger)@.entries == Seq::<EntryView>::empty(),
        final(logger)@.enabled == old(logger)@.enabled,
{
    let ghost q0 = logger@.entries;
    let mut entries: Vec<RemoteLoggerEntry> = Vec::new();
    let mut got = log_queue_try_receive(&mut logger.ring);
    while got.is_some()
        invariant
            entries@.len() < q0.len() || got is None,
            entries_view(entries@) == q0.take(entries@.len() as int),
            got is None ==> entries@.len() == q0.len() && queued_entries(logger.ring) =~= Seq::<EntryView>::empty(),
            got matches Some(e) ==> e@ == q0[entries@.len() as int]
                && queued_entries(logger.ring) == q0.subrange(entries@.len() as int + 1, q0.len() as int),
            logger.enabled == old(logger).enabled,
            q0 == old(logger)@.entries,
        decreases q0.len() - entries@.len(),
    {
        let e = got.unwrap();
        let ghost before = entries@;
        entries.push(e);
        proof {
            assert(entries_view(entries@) =~= q0.take(entries@.len() as int)) by {
                assert(entries_view(before) == q0.take(before.len() as int));
                assert forall|k: int| 0 <= k < entries@.len() implies entries_view(entries@)[k] == q0.take(entries@.len() as int)[k] by {
                    if k < before.len() {
                        assert(entries_view(before)[k] == q0.take(before.len() as int)[k]);
                    }
                }
            }
        }
        got = log_queue_try_receive(&mut logger.ring);
    }
    assert(q0.take(q0.len() as int) =~= q0);
    entries
}

/// Switches the sink on or off; switching off discards what the ring holds.
pub fn remote_logger_set_enable(logger: &mut RemoteLogger, enabled: bool)
    requires
        old(logger).wf(),
    ensures
        final(logger).wf(),
        final(logger)@ == set_enable_step(old(logger)@, enabled),
{
    if !enabled {
        logger.flush();
    }
    logger.set_enable(enabled);
}

} // verus!
