//! Properties that relate several operations of the library.
use vstd::prelude::*;
use crate::sensors::{ReadingView, SnapshotView, names_unique, has_reading, upsert, has_reference};
use crate::channel::{ChannelView, DATA_CHANNEL_SIZE, publish_step, take_step, latest_step};
use crate::remote_log::{EntryView, LoggerView, RecordOutcome, LOG_CHANNEL_SIZE, record_step, set_enable_step};
use crate::ws::{FrameType, SessionView, inbound_step};

verus! {

/// The channel as the library creates it.
pub open spec fn fresh_channel() -> ChannelView {
    ChannelView { queued: Seq::empty(), latest: Seq::empty() }
}

/// The channel after one sampling cycle over sensors whose snapshots are
/// `ss`: the batch is offered when a reference sensor is among them, and a
/// full channel leaves the producer waiting with the channel unchanged.
pub open spec fn sampling_cycle(c: ChannelView, ss: Seq<SnapshotView>) -> ChannelView {
    if has_reference(ss) { publish_step(c, ss).0 } else { c }
}

/// The channel after `n` sampling cycles without a consumer.
pub open spec fn cycles(c: ChannelView, ss: Seq<SnapshotView>, n: nat) -> ChannelView
    decreases n,
{
    if n == 0 { c } else { sampling_cycle(cycles(c, ss, (n - 1) as nat), ss) }
}

proof fn lemma_cycles_shape(ss: Seq<SnapshotView>, n: nat)
    requires
        has_reference(ss),
        n > 0,
    ensures
        cycles(fresh_channel(), ss, n).queued.len() > 0,
        cycles(fresh_channel(), ss, n).queued.len() <= DATA_CHANNEL_SIZE,
        forall|i: int| 0 <= i < cycles(fresh_channel(), ss, n).queued.len() ==> #[trigger] cycles(fresh_channel(), ss, n).queued[i] == ss,
    decreases n,
{
    if n > 1 {
        lemma_cycles_shape(ss, (n - 1) as nat);
        let c = cycles(fresh_channel(), ss, (n - 1) as nat);
        if c.queued.len() < DATA_CHANNEL_SIZE {
            assert forall|i: int| 0 <= i < c.queued.push(ss).len() implies #[trigger] c.queued.push(ss)[i] == ss by {
                if i < c.queued.len() {
                    assert(c.queued.push(ss)[i] == c.queued[i]);
                }
            }
        }
    } else {
        assert(cycles(fresh_channel(), ss, 0) == fresh_channel());
    }
}

/// After one or more sampling cycles with a reference sensor registered, a
/// poll of the channel returns exactly the registered sensors' snapshots,
/// in registration order and with all their readings.
pub proof fn lemma_latest_after_cycles(ss: Seq<SnapshotView>, n: nat)
    requires
        has_reference(ss),
        n > 0,
    ensures
        latest_step(cycles(fresh_channel(), ss, n)).1 == ss,
{
    lemma_cycles_shape(ss, n);
    let c = cycles(fresh_channel(), ss, n);
    assert(c.queued.last() == c.queued[c.queued.len() - 1]);
}

/// Without a reference sensor no cycle publishes: the channel stays as it
/// was created, a consumer waiting for fresh data never receives one, and
/// a poll returns the empty batch.
pub proof fn lemma_no_reference_no_delivery(ss: Seq<SnapshotView>, n: nat)
    requires
        !has_reference(ss),
    ensures
        cycles(fresh_channel(), ss, n) == fresh_channel(),
        take_step(cycles(fresh_channel(), ss, n)).1 is None,
        latest_step(cycles(fresh_channel(), ss, n)).1 == Seq::<SnapshotView>::empty(),
    decreases n,
{
    if n > 0 {
        lemma_no_reference_no_delivery(ss, (n - 1) as nat);
    }
}

proof fn lemma_upsert_props(rs: Seq<ReadingView>, name: Seq<char>, value: u32, unit: Seq<char>)
    requires
        names_unique(rs),
    ensures
        names_unique(upsert(rs, name, value, unit)),
        has_reading(upsert(rs, name, value, unit), name),
        forall|i: int| 0 <= i < upsert(rs, name, value, unit).len() && (#[trigger] upsert(rs, name, value, unit)[i]).name == name
            ==> upsert(rs, name, value, unit)[i].value == value,
{
    let r = upsert(rs, name, value, unit);
    if has_reading(rs, name) {
        let i = choose|i: int| 0 <= i < rs.len() && rs[i].name == name;
        assert(r[i].name == name);
        assert forall|j: int| 0 <= j < r.len() && (#[trigger] r[j]).name == name implies r[j].value == value by {
            if j != i {
                assert(r[j] == rs[j]);
            }
        }
        assert forall|a: int, b: int| 0 <= a < r.len() && 0 <= b < r.len() && a != b implies r[a].name != r[b].name by {
            assert(r[a].name == rs[a].name);
            assert(r[b].name == rs[b].name);
        }
    } else {
        assert(r[rs.len() as int].name == name);
        assert forall|j: int| 0 <= j < r.len() && (#[trigger] r[j]).name == name implies r[j].value == value by {
            if j < rs.len() {
                assert(r[j] == rs[j]);
            }
        }
        assert forall|a: int, b: int| 0 <= a < r.len() && 0 <= b < r.len() && a != b implies r[a].name != r[b].name by {
            if a < rs.len() {
                assert(r[a] == rs[a]);
            }
            if b < rs.len() {
                assert(r[b] == rs[b]);
            }
        }
    }
}

/// Storing two values under one name leaves exactly one reading of that
/// name, holding the later value.
pub proof fn lemma_push_value_twice(rs: Seq<ReadingView>, name: Seq<char>, v1: u32, u1: Seq<char>, v2: u32, u2: Seq<char>)
    requires
        names_unique(rs),
    ensures
        ({
            let r = upsert(upsert(rs, name, v1, u1), name, v2, u2);
            &&& names_unique(r)
            &&& exists|i: int| 0 <= i < r.len() && r[i].name == name && r[i].value == v2
                && forall|j: int| 0 <= j < r.len() && (#[trigger] r[j]).name == name ==> j == i
        }),
{
    lemma_upsert_props(rs, name, v1, u1);
    let r1 = upsert(rs, name, v1, u1);
    lemma_upsert_props(r1, name, v2, u2);
    let r = upsert(r1, name, v2, u2);
    let i = choose|i: int| 0 <= i < r.len() && r[i].name == name;
    assert(r[i].value == v2);
    assert forall|j: int| 0 <= j < r.len() && (#[trigger] r[j]).name == name implies j == i by {
        if j != i {
            assert(r[j].name != r[i].name);
        }
    }
}

/// The sink after each entry of `es` is offered in turn, and the outcomes.
pub open spec fn record_all(l: LoggerView, es: Seq<EntryView>) -> (LoggerView, Seq<RecordOutcome>)
    decreases es.len(),
{
    if es.len() == 0 {
        (l, Seq::empty())
    } else {
        let (l1, outs) = record_all(l, es.drop_last());
        let (l2, o) = record_step(l1, es.last());
        (l2, outs.push(o))
    }
}

/// The sink after draining it, and what the drain returns.
pub open spec fn drain_step(l: LoggerView) -> (LoggerView, Seq<EntryView>) {
    (LoggerView { entries: Seq::empty(), ..l }, l.entries)
}

proof fn lemma_record_prefix(l: LoggerView, es: Seq<EntryView>)
    requires
        l.enabled,
        l.entries == Seq::<EntryView>::empty(),
        es.len() <= LOG_CHANNEL_SIZE,
    ensures
        record_all(l, es).0 == (LoggerView { entries: es, ..l }),
        forall|i: int| 0 <= i < es.len() ==> #[trigger] record_all(l, es).1[i] == RecordOutcome::Stored,
        record_all(l, es).1.len() == es.len(),
    decreases es.len(),
{
    if es.len() == 0 {
        assert(es =~= Seq::<EntryView>::empty());
    } else {
        lemma_record_prefix(l, es.drop_last());
        assert(es.drop_last().push(es.last()) =~= es);
        let outs = record_all(l, es.drop_last()).1;
        assert forall|i: int| 0 <= i < es.len() implies #[trigger] record_all(l, es).1[i] == RecordOutcome::Stored by {
            if i < es.len() - 1 {
                assert(record_all(l, es).1[i] == outs[i]);
            }
        }
    }
}

/// Offering one entry more than the ring holds to an active, empty sink
/// keeps the first entries in arrival order and drops the last one, which
/// is reported; a drain returns the kept entries and a second drain
/// returns nothing.
pub proof fn lemma_ring_overflow(l: LoggerView, es: Seq<EntryView>)
    requires
        l.enabled,
        l.entries == Seq::<EntryView>::empty(),
        es.len() == LOG_CHANNEL_SIZE + 1,
    ensures
        ({
            let (l1, outs) = record_all(l, es);
            &&& l1.entries == es.take(LOG_CHANNEL_SIZE as int)
            &&& outs.len() == es.len()
            &&& forall|i: int| 0 <= i < LOG_CHANNEL_SIZE ==> #[trigger] outs[i] == RecordOutcome::Stored
            &&& outs[LOG_CHANNEL_SIZE as int] == RecordOutcome::Full
            &&& drain_step(l1).1 == es.take(LOG_CHANNEL_SIZE as int)
            &&& drain_step(drain_step(l1).0).1 == Seq::<EntryView>::empty()
        }),
{
    let front = es.drop_last();
    assert(front =~= es.take(LOG_CHANNEL_SIZE as int));
    lemma_record_prefix(l, front);
    let outs = record_all(l, es).1;
    assert forall|i: int| 0 <= i < LOG_CHANNEL_SIZE implies #[trigger] outs[i] == RecordOutcome::Stored by {
        assert(outs[i] == record_all(l, front).1[i]);
    }
}

/// Two publications into an empty channel are taken; a third finds it full
/// and leaves the producer waiting with nothing lost; once a consumer takes
/// one batch, the third is taken.
pub proof fn lemma_backpressure(c: ChannelView, a: Seq<SnapshotView>, b: Seq<SnapshotView>, x: Seq<SnapshotView>)
    requires
        c.queued == Seq::<Seq<SnapshotView>>::empty(),
    ensures
        ({
            let (c1, ok1) = publish_step(c, a);
            let (c2, ok2) = publish_step(c1, b);
            let (c3, ok3) = publish_step(c2, x);
            let (c4, got) = take_step(c3);
            let (c5, ok5) = publish_step(c4, x);
            &&& ok1 && ok2 && !ok3
            &&& c3 == c2
            &&& c2.queued == seq![a, b]
            &&& got == Some(a)
            &&& ok5
            &&& c5.queued == seq![b, x]
        }),
{
    let c2q = c.queued.push(a).push(b);
    assert(c2q =~= seq![a, b]);
    assert(c2q.drop_first() =~= seq![b]);
    assert(seq![b].push(x) =~= seq![b, x]);
}

/// A text frame ends the connection and flushes the diagnostic sink, so the
/// next connection starts with an empty sink.
pub proof fn lemma_text_frame_closes(s: SessionView, l: LoggerView, fragment: bool)
    ensures
        ({
            let (s1, l1, hold) = inbound_step(s, l, FrameType::Text(fragment));
            let l2 = set_enable_step(l1, true);
            &&& !hold
            &&& !s1.connected
            &&& !l1.enabled
            &&& l1.entries == Seq::<EntryView>::empty()
            &&& l2.enabled
            &&& l2.entries == Seq::<EntryView>::empty()
        }),
{
}

} // verus!
