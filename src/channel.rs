//! Telemetry channel: a bounded mailbox of published snapshot batches
//! between the sampling loop and its consumers, with a cache of the value
//! last handed out.
use vstd::prelude::*;
use embassy_sync::blocking_mutex::raw::NoopRawMutex;
use embassy_sync::channel::{Channel, TrySendError};
use crate::sensors::{SensorData, SnapshotView, snapshots_view, all_wf, names_unique};

verus! {

/// How many published batches may wait for a consumer.
pub const DATA_CHANNEL_SIZE: usize = 2;

/// The queue of published batches, held in an embassy-sync channel.
#[verifier::external_body]
pub struct DataQueue {
    inner: Channel<NoopRawMutex, Vec<SensorData>, DATA_CHANNEL_SIZE>,
}

/// The batches waiting in the queue, oldest first.
pub uninterp spec fn queued_batches(q: DataQueue) -> Seq<Seq<SnapshotView>>;

/// Every snapshot of the batch has readings with distinct names.
pub open spec fn batch_wf(b: Seq<SnapshotView>) -> bool {
    forall|i: int| 0 <= i < b.len() ==> names_unique(#[trigger] b[i].readings)
}

proof fn lemma_all_wf_batch(ss: Seq<SensorData>)
    ensures
        all_wf(ss) <==> batch_wf(snapshots_view(ss)),
{
    if all_wf(ss) {
        assert forall|i: int| 0 <= i < snapshots_view(ss).len() implies names_unique(#[trigger] snapshots_view(ss)[i].readings) by {
            assert(ss[i].wf());
        }
    }
    if batch_wf(snapshots_view(ss)) {
        assert forall|i: int| 0 <= i < ss.len() implies #[trigger] ss[i].wf() by {
            assert(names_unique(snapshots_view(ss)[i].readings));
        }
    }
}

/// Relies on embassy_sync's `Channel::new`: a new channel holds nothing.
#[verifier::external_body]
fn data_queue_new() -> (r: DataQueue)
    ensures
        queued_batches(r) == Seq::<Seq<SnapshotView>>::empty(),
{
    DataQueue { inner: Channel::new() }
}

/// Relies on embassy_sync's `Channel::try_send`: the message is appended
/// when fewer than the capacity wait, and handed back in `Full` otherwise.
#[verifier::external_body]
fn data_queue_try_send(q: &mut DataQueue, batch: Vec<SensorData>) -> (r: Result<(), Vec<SensorData>>)
    ensures
        queued_batches(*old(q)).len() < DATA_CHANNEL_SIZE ==> r is Ok
            && queued_batches(*final(q)) == queued_batches(*old(q)).push(snapshots_view(batch@)),
        queued_batches(*old(q)).len() >= DATA_CHANNEL_SIZE ==> (r matches Err(b) && b@ == batch@
            && queued_batches(*final(q)) == queued_batches(*old(q))),
{
    match q.inner.try_send(batch) {
        Ok(()) => Ok(()),
        Err(TrySendError::Full(b)) => Err(b),
    }
}

/// Relies on embassy_sync's `Channel::try_receive`: the oldest message is
/// removed and returned, or `Empty` when nothing waits.
#[verifier::external_body]
fn data_queue_try_receive(q: &mut DataQueue) -> (r: Option<Vec<SensorData>>)
    ensures
        queued_batches(*old(q)).len() > 0 ==> (r matches Some(b) && snapshots_view(b@) == queued_batches(*old(q))[0]
            && queued_batches(*final(q)) == queued_batches(*old(q)).drop_first()),
        queued_batches(*old(q)).len() == 0 ==> r is None && queued_batches(*final(q)) == queued_batches(*old(q)),
{
    q.inner.try_receive().ok()
}

/// Mathematical value of the channel: the waiting batches, oldest first, and
/// the batch last handed to a consumer.
pub struct ChannelView {
    pub queued: Seq<Seq<SnapshotView>>,
    pub latest: Seq<SnapshotView>,
}

/// The channel after a publication attempt, and whether the batch was taken.
/// A full channel takes nothing: the producer waits.
pub open spec fn publish_step(c: ChannelView, b: Seq<SnapshotView>) -> (ChannelView, bool) {
    if c.queued.len() < DATA_CHANNEL_SIZE {
        (ChannelView { queued: c.queued.push(b), latest: c.latest }, true)
    } else {
        (c, false)
    }
}

/// The channel after a consumer waiting for fresh data looks once, and what
/// it receives: the oldest waiting batch, which also becomes the latest.
pub open spec fn take_step(c: ChannelView) -> (ChannelView, Option<Seq<SnapshotView>>) {
    if c.queued.len() > 0 {
        (ChannelView { queued: c.queued.drop_first(), latest: c.queued[0] }, Some(c.queued[0]))
    } else {
        (c, None)
    }
}

/// The channel after a poll for the latest value, and the value: the newest
/// published batch if any waits (all waiting batches are consumed), else the
/// batch last handed out.
pub open spec fn latest_step(c: ChannelView) -> (ChannelView, Seq<SnapshotView>) {
    if c.queued.len() > 0 {
        let v = c.queued.last();
        (ChannelView { queued: Seq::empty(), latest: v }, v)
    } else {
        (c, c.latest)
    }
}

pub open spec fn channel_wf(c: ChannelView) -> bool {
    &&& c.queued.len() <= DATA_CHANNEL_SIZE
    &&& forall|i: int| 0 <= i < c.queued.len() ==> batch_wf(#[trigger] c.queued[i])
    &&& batch_wf(c.latest)
}

/// The mailbox between the sampling loop and the consumers of telemetry.
pub struct TelemetryChannel {
    queue: DataQueue,
    prev: Vec<SensorData>,
}

impl View for TelemetryChannel {
    type V = ChannelView;

    closed spec fn view(&self) -> ChannelView {
        ChannelView { queued: queued_batches(self.queue), latest: snapshots_view(self.prev@) }
    }
}

impl TelemetryChannel {
    pub open spec fn wf(&self) -> bool {
        channel_wf(self@)
    }

    /// An empty channel; its latest value is the empty batch.
    pub fn new() -> (r: Self)
        ensures
            r.wf(),
            r@.queued == Seq::<Seq<SnapshotView>>::empty(),
            r@.latest == Seq::<SnapshotView>::empty(),
    {
        let r = TelemetryChannel { queue: data_queue_new(), prev: Vec::new() };
        assert(r@.latest =~= Seq::<SnapshotView>::empty());
        r
    }

    /// Offers a batch without waiting: it is queued when there is room, and
    /// handed back when the channel is full (the producer then waits and
    /// offers it again).
    pub fn try_publish(&mut self, data: Vec<SensorData>) -> (r: Result<(), Vec<SensorData>>)
        requires
            old(self).wf(),
            all_wf(data@),
        ensures
            final(self).wf(),
            (final(self)@, r is Ok) == publish_step(old(self)@, snapshots_view(data@)),
            r matches Err(d) ==> d@ == data@,
    {
        proof { lemma_all_wf_batch(data@); }
        let r = data_queue_try_send(&mut self.queue, data);
        proof {
            assert forall|i: int| 0 <= i < self@.queued.len() implies batch_wf(#[trigger] self@.queued[i]) by {
                if i < old(self)@.queued.len() {
                    assert(self@.queued[i] == old(self)@.queued[i]);
                }
            }
        }
        r
    }

    /// Copies of the latest batch.
    fn copy_latest(&self) -> (r: Vec<SensorData>)
        requires
            all_wf(self.prev@),
        ensures
            snapshots_view(r@) == self@.latest,
            all_wf(r@),
    {
        let mut r: Vec<SensorData> = Vec::new();
        let mut i: usize = 0;
        while i < self.prev.len()
            invariant
                0 <= i <= self.prev.len(),
                all_wf(self.prev@),
                r@.len() == i,
                forall|k: int| 0 <= k < i ==> #[trigger] r@[k]@ == self.prev@[k]@,
                all_wf(r@),
            decreases self.prev.len() - i,
        {
            let c = self.prev[i].clone();
            assert(self.prev@[i as int].wf());
            assert(c.wf());
            let ghost before = r@;
            r.push(c);
            proof {
                assert forall|k: int| 0 <= k < r@.len() implies #[trigger] r@[k].wf() by {
                    if k < i {
                        assert(r@[k] == before[k]);
                    }
                }
            }
            i = i + 1;
        }
        assert(snapshots_view(r@) =~= self@.latest);
        r
    }

    /// Takes the oldest waiting batch, if any, without waiting; it becomes
    /// the latest value. `None` tells a consumer that waits for fresh data to
    /// wait for the next publication.
    pub fn try_get_data(&mut self) -> (r: Option<Vec<SensorData>>)
        requires
            old(self).wf(),
        ensures
            final(self).wf(),
            (final(self)@, match r { Some(b) => Some(snapshots_view(b@)), None => None }) == take_step(old(self)@),
            r matches Some(b) ==> all_wf(b@),
    {
        let got = data_queue_try_receive(&mut self.queue);
        match got {
            Some(b) => {
                proof {
                    assert(batch_wf(old(self)@.queued[0]));
                    lemma_all_wf_batch(b@);
                    assert forall|i: int| 0 <= i < self@.queued.len() implies batch_wf(#[trigger] self@.queued[i]) by {
                        assert(self@.queued[i] == old(self)@.queued[i + 1]);
                    }
                }
                self.prev = b;
                let out = self.copy_latest();
                proof { lemma_all_wf_batch(self.prev@); }
                Some(out)
            },
            None => None,
        }
    }

    /// The newest published batch, consuming every waiting batch, or the
    /// batch last handed out when nothing new was published (the empty batch
    /// before the first publication). Never waits.
    pub fn get_data(&mut self) -> (r: Vec<SensorData>)
        requires
            old(self).wf(),
        ensures
            final(self).wf(),
            (final(self)@, snapshots_view(r@)) == latest_step(old(self)@),
            all_wf(r@),
    {
        proof { lemma_all_wf_batch(self.prev@); }
        let ghost q0 = self@.queued;
        let mut got = data_queue_try_receive(&mut self.queue);
        let ghost mut k: int = 0;
        while got.is_some()
            invariant
                0 <= k < q0.len() || got is None,
                got is None ==> k == q0.len() && queued_batches(self.queue) == q0.subrange(k, q0.len() as int),
                got matches Some(b) ==> snapshots_view(b@) == q0[k] && queued_batches(self.queue) == q0.subrange(k + 1, q0.len() as int),
                q0.len() == 0 ==> got is None && self@.latest == old(self)@.latest,
                q0.len() > 0 && got is None ==> self@.latest == q0.last(),
                all_wf(self.prev@),
                q0 == old(self)@.queued,
                channel_wf(old(self)@),
            decreases q0.len() - k,
        {
            let b = got.unwrap();
            proof {
                assert(batch_wf(q0[k]));
                lemma_all_wf_batch(b@);
            }
            self.prev = b;
            got = data_queue_try_receive(&mut self.queue);
            proof {
                k = k + 1;
            }
        }
        proof {
            assert(queued_batches(self.queue) =~= Seq::<Seq<SnapshotView>>::empty());
            if q0.len() == 0 {
                assert(self@.queued =~= old(self)@.queued);
            }
            assert(self@ == latest_step(old(self)@).0);
        }
        self.copy_latest()
    }
}

} // verus!
