//! Where samples wait: a ring buffer per channel that keeps the latest
//! samples, dropping the oldest to make room, and the ingestion queue that
//! samples pass through, oldest first, between the stage that receives them
//! and the stage that processes them. The queue is bounded; a sample that
//! finds it full is dropped and counted.

use vstd::prelude::*;


use crossbeam::queue::SegQueue;
use ringbuf::ring_buffer::RbBase;
use ringbuf::{HeapRb, Rb};

use crate::telemetry::base::{ChannelId, DataPoint, TelemetryError, Timestamp};
use crate::telemetry::entries::{has_key, key_slot, keys_distinct, lemma_key_slot, upsert_entry};
use crate::telemetry::manager::last_n;

verus! {

#[verifier::external_type_specification]
#[verifier::external_body]
#[verifier::reject_recursive_types(T)]
pub struct ExSegQueue<T>(SegQueue<T>);

/// The samples a queue holds, oldest first.
pub uninterp spec fn queued(q: SegQueue<DataPoint>) -> Seq<DataPoint>;

/// `SegQueue::new`: an empty queue.
#[verifier::external_body]
fn empty_queue() -> (q: SegQueue<DataPoint>)
    ensures
        queued(q) == Seq::<DataPoint>::empty(),
{
    SegQueue::new()
}

/// `SegQueue::push`: `p` joins the queue behind the samples already in it.
#[verifier::external_body]
fn enqueue(q: &mut SegQueue<DataPoint>, p: DataPoint)
    ensures
        queued(*final(q)) == queued(*old(q)).push(p),
{
    q.push(p)
}

/// `SegQueue::pop`: the oldest sample leaves the queue, or `None` when it
/// is empty.
#[verifier::external_body]
fn dequeue(q: &mut SegQueue<DataPoint>) -> (r: Option<DataPoint>)
    ensures
        match r {
            Some(p) => queued(*old(q)).len() > 0 && p == queued(*old(q))[0] && queued(*final(q)) == queued(
                *old(q),
            ).drop_first(),
            None => queued(*old(q)).len() == 0 && queued(*final(q)) == queued(*old(q)),
        },
{
    q.pop()
}

/// `SegQueue::len`: how many samples the queue holds.
#[verifier::external_body]
fn queue_len(q: &SegQueue<DataPoint>) -> (n: usize)
    ensures
        n == queued(*q).len(),
{
    q.len()
}

/// A `ringbuf::HeapRb` of samples, opaque to proofs: what it holds is
/// [`ring_items`], and how many it was made for is [`ring_capacity`].
#[verifier::external_body]
pub struct SampleRing {
    rb: HeapRb<DataPoint>,
}

/// The samples a ring buffer holds, oldest first.
pub uninterp spec fn ring_items(rb: SampleRing) -> Seq<DataPoint>;

/// How many samples a ring buffer was made to hold.
pub uninterp spec fn ring_capacity(rb: SampleRing) -> nat;

/// `HeapRb::new`: an empty ring buffer for `capacity` samples. It panics
/// for a capacity of zero, which `requires` leaves out.
#[verifier::external_body]
fn new_ring(capacity: usize) -> (rb: SampleRing)
    requires
        capacity > 0,
    ensures
        ring_items(rb) == Seq::<DataPoint>::empty(),
        ring_capacity(rb) == capacity,
{
    SampleRing { rb: HeapRb::new(capacity) }
}

/// `Rb::is_full`: whether the buffer holds as many samples as it was made
/// for.
#[verifier::external_body]
fn ring_is_full(rb: &SampleRing) -> (full: bool)
    ensures
        full == (ring_items(*rb).len() >= ring_capacity(*rb)),
{
    rb.rb.is_full()
}

/// `Rb::pop`: the oldest sample leaves the buffer, or `None` when it is
/// empty.
#[verifier::external_body]
fn ring_pop(rb: &mut SampleRing) -> (r: Option<DataPoint>)
    ensures
        ring_capacity(*final(rb)) == ring_capacity(*old(rb)),
        match r {
            Some(p) => ring_items(*old(rb)).len() > 0 && p == ring_items(*old(rb))[0] && ring_items(*final(rb))
                == ring_items(*old(rb)).drop_first(),
            None => ring_items(*old(rb)).len() == 0 && ring_items(*final(rb)) == ring_items(*old(rb)),
        },
{
    rb.rb.pop()
}

/// `Rb::push`: `p` joins the buffer behind the samples in it, unless the
/// buffer is full, when `p` comes back and nothing changes.
#[verifier::external_body]
fn ring_push(rb: &mut SampleRing, p: DataPoint) -> (r: Result<(), DataPoint>)
    ensures
        ring_capacity(*final(rb)) == ring_capacity(*old(rb)),
        if ring_items(*old(rb)).len() < ring_capacity(*old(rb)) {
            r is Ok && ring_items(*final(rb)) == ring_items(*old(rb)).push(p)
        } else {
            r == Err::<(), DataPoint>(p) && ring_items(*final(rb)) == ring_items(*old(rb))
        },
{
    rb.rb.push(p)
}

/// `Rb::iter`: the samples in the buffer, oldest first, copied out.
#[verifier::external_body]
fn ring_contents(rb: &SampleRing) -> (v: Vec<DataPoint>)
    ensures
        v@ == ring_items(*rb),
{
    rb.rb.iter().copied().collect()
}

/// `Rb::clear`: the buffer is emptied.
#[verifier::external_body]
fn ring_clear(rb: &mut SampleRing)
    ensures
        ring_items(*final(rb)) == Seq::<DataPoint>::empty(),
        ring_capacity(*final(rb)) == ring_capacity(*old(rb)),
{
    let _ = rb.rb.clear();
}

/// `Rb::len`: how many samples the buffer holds.
#[verifier::external_body]
fn ring_len(rb: &SampleRing) -> (n: usize)
    ensures
        n == ring_items(*rb).len(),
{
    rb.rb.len()
}

/// The samples of each channel's ring buffer, oldest first.
pub open spec fn ring_views(entries: Seq<(ChannelId, SampleRing)>) -> Seq<(ChannelId, Seq<DataPoint>)> {
    entries.map_values(|e: (ChannelId, SampleRing)| (e.0, ring_items(e.1)))
}

/// A buffer holding `s`, with room for `capacity`, after `p` is pushed: the
/// oldest sample makes room when it is full.
pub open spec fn pushed(s: Seq<DataPoint>, p: DataPoint, capacity: nat) -> Seq<DataPoint> {
    if s.len() >= capacity {
        s.drop_first().push(p)
    } else {
        s.push(p)
    }
}

/// Whether a sample's time lies from `start` to `end`, both included.
pub open spec fn within(start: Timestamp, end: Timestamp) -> spec_fn(DataPoint) -> bool {
    |p: DataPoint| start.nanos <= p.timestamp.nanos && p.timestamp.nanos <= end.nanos
}

/// The samples held across `buffers`.
pub open spec fn sample_total(buffers: Seq<(ChannelId, Seq<DataPoint>)>) -> nat
    decreases buffers.len(),
{
    if buffers.len() == 0 {
        0
    } else {
        sample_total(buffers.drop_last()) + buffers.last().1.len()
    }
}

/// Counts over a telemetry buffer.
#[derive(Debug, Clone, Copy, PartialEq, Eq, Structural)]
pub struct BufferStats {
    pub channel_count: usize,
    pub total_samples: usize,
    pub total_capacity: usize,
    pub dropped_samples: u64,
}

/// Circular buffers of samples, one per channel: each keeps the latest
/// samples pushed to it, as many as the buffer's capacity.
pub struct TelemetryBuffer {
    channels: Vec<(ChannelId, SampleRing)>,
    capacity: usize,
    dropped_samples: u64,
}

impl TelemetryBuffer {
    /// The samples of each channel, oldest first, in the order the channels
    /// were first added.
    pub closed spec fn buffers(&self) -> Seq<(ChannelId, Seq<DataPoint>)> {
        ring_views(self.channels@)
    }

    /// How many samples each channel keeps.
    pub closed spec fn capacity(&self) -> nat {
        self.capacity as nat
    }

    /// How many samples were dropped to make room.
    pub closed spec fn dropped(&self) -> nat {
        self.dropped_samples as nat
    }

    /// No channel occurs twice, and each buffer has the common capacity,
    /// which is not zero, and holds no more than it.
    pub closed spec fn well_formed(&self) -> bool {
        &&& keys_distinct(self.channels@)
        &&& self.channels@.len() > 0 ==> self.capacity > 0
        &&& forall|i: int|
            0 <= i < self.channels@.len() ==> ring_capacity(#[trigger] self.channels@[i].1) == self.capacity
                && ring_items(self.channels@[i].1).len() <= self.capacity
    }

    /// A buffer with no channels whose channels will keep `capacity`
    /// samples each.
    pub fn new(capacity: usize) -> (b: TelemetryBuffer)
        ensures
            b.well_formed(),
            b.buffers() == Seq::<(ChannelId, Seq<DataPoint>)>::empty(),
            b.capacity() == capacity,
            b.dropped() == 0,
    {
        let b = TelemetryBuffer { channels: Vec::new(), capacity, dropped_samples: 0 };
        assert(b.buffers() =~= Seq::<(ChannelId, Seq<DataPoint>)>::empty());
        b
    }

    fn position(&self, channel_id: ChannelId) -> (r: Option<usize>)
        requires
            self.well_formed(),
        ensures
            match r {
                Some(i) => i < self.channels@.len() && self.channels@[i as int].0 == channel_id && key_slot(
                    self.buffers(),
                    channel_id,
                ) == i && has_key(self.buffers(), channel_id),
                None => !has_key(self.buffers(), channel_id),
            },
    {
        let ghost views = self.buffers();
        let mut i: usize = 0;
        while i < self.channels.len()
            invariant
                views == ring_views(self.channels@),
                i <= self.channels@.len(),
                keys_distinct(self.channels@),
                forall|j: int| 0 <= j < i ==> (#[trigger] self.channels@[j]).0 != channel_id,
            decreases self.channels@.len() - i,
        {
            if self.channels[i].0.0 == channel_id.0 {
                proof {
                    assert(keys_distinct(views));
                    lemma_key_slot(views, i as int);
                }
                return Some(i);
            }
            i = i + 1;
        }
        proof {
            if has_key(views, channel_id) {
                let j = choose|j: int| 0 <= j < views.len() && views[j].0 == channel_id;
                assert(self.channels@[j].0 == channel_id);
            }
        }
        None
    }

    /// Give `channel_id` an empty buffer, replacing the one it had.
    pub fn add_channel(&mut self, channel_id: ChannelId)
        requires
            old(self).well_formed(),
            old(self).capacity() > 0,
        ensures
            final(self).well_formed(),
            final(self).buffers() == upsert_entry(old(self).buffers(), channel_id, Seq::<DataPoint>::empty()),
            final(self).capacity() == old(self).capacity(),
            final(self).dropped() == old(self).dropped(),
    {
        let ring = new_ring(self.capacity);
        let ghost before = self.channels@;
        match self.position(channel_id) {
            Some(i) => {
                self.channels.set(i, (channel_id, ring));
                assert(ring_views(self.channels@) =~= ring_views(before).update(
                    i as int,
                    (channel_id, Seq::<DataPoint>::empty()),
                ));
            },
            None => {
                self.channels.push((channel_id, ring));
                assert(ring_views(self.channels@) =~= ring_views(before).push(
                    (channel_id, Seq::<DataPoint>::empty()),
                ));
            },
        }
        assert(keys_distinct(self.channels@)) by {
            assert forall|a: int, b: int| 0 <= a < b < self.channels@.len() implies self.channels@[a].0
                != self.channels@[b].0 by {
                assert(self.buffers()[a].0 == self.channels@[a].0);
                assert(self.buffers()[b].0 == self.channels@[b].0);
            }
        }
    }

    /// Push a sample to its channel's buffer, dropping the oldest sample
    /// when the buffer is full; an error when the channel has no buffer.
    pub fn push(&mut self, data_point: DataPoint) -> (r: Result<(), TelemetryError>)
        requires
            old(self).well_formed(),
            has_key(old(self).buffers(), data_point.channel_id) && old(self).buffers()[key_slot(
                old(self).buffers(),
                data_point.channel_id,
            )].1.len() >= old(self).capacity() ==> old(self).dropped() < u64::MAX,
        ensures
            final(self).well_formed(),
            final(self).capacity() == old(self).capacity(),
            ({
                let id = data_point.channel_id;
                let b = old(self).buffers();
                if has_key(b, id) {
                    let s = b[key_slot(b, id)].1;
                    &&& r == Ok::<(), TelemetryError>(())
                    &&& final(self).buffers() == b.update(
                        key_slot(b, id),
                        (id, pushed(s, data_point, old(self).capacity())),
                    )
                    &&& final(self).dropped() == old(self).dropped() + if s.len() >= old(self).capacity() {
                        1int
                    } else {
                        0int
                    }
                } else {
                    &&& r == Err::<(), TelemetryError>(TelemetryError::ChannelNotFound { id })
                    &&& final(self).buffers() == b
                    &&& final(self).dropped() == old(self).dropped()
                }
            }),
    {
        let id = data_point.channel_id;
        match self.position(id) {
            Some(i) => {
                let ghost before = self.channels@;
                let ghost s = ring_items(before[i as int].1);
                let (key, mut ring) = self.channels.remove(i);
                if ring_is_full(&ring) {
                    let _ = ring_pop(&mut ring);
                    self.dropped_samples = self.dropped_samples + 1;
                }
                let _ = ring_push(&mut ring, data_point);
                assert(ring_items(ring) == pushed(s, data_point, self.capacity as nat));
                self.channels.insert(i, (key, ring));
                assert(self.channels@ =~= before.update(i as int, (key, ring)));
                assert(ring_views(self.channels@) =~= ring_views(before).update(
                    i as int,
                    (id, pushed(s, data_point, self.capacity as nat)),
                ));
                assert forall|a: int, b: int| 0 <= a < b < self.channels@.len() implies self.channels@[a].0
                    != self.channels@[b].0 by {
                    assert(before[a].0 == self.channels@[a].0);
                    assert(before[b].0 == self.channels@[b].0);
                }
                Ok(())
            },
            None => Err(TelemetryError::ChannelNotFound { id }),
        }
    }

    /// The latest `count` samples of `channel_id`, oldest first, or all of
    /// them when it has fewer.
    pub fn get_latest(&self, channel_id: ChannelId, count: usize) -> (r: Result<Vec<DataPoint>, TelemetryError>)
        requires
            self.well_formed(),
        ensures
            ({
                let b = self.buffers();
                if has_key(b, channel_id) {
                    r matches Ok(v) && v@ == last_n(b[key_slot(b, channel_id)].1, count as nat)
                } else {
                    r == Err::<Vec<DataPoint>, TelemetryError>(TelemetryError::ChannelNotFound { id: channel_id })
                }
            }),
    {
        match self.position(channel_id) {
            Some(i) => {
                let all = ring_contents(&self.channels[i].1);
                let start = if all.len() > count {
                    all.len() - count
                } else {
                    0
                };
                let mut samples: Vec<DataPoint> = Vec::new();
                let mut k = start;
                while k < all.len()
                    invariant
                        start <= k <= all@.len(),
                        samples@ == all@.subrange(start as int, k as int),
                    decreases all@.len() - k,
                {
                    samples.push(all[k]);
                    k = k + 1;
                    assert(samples@ =~= all@.subrange(start as int, k as int));
                }
                assert(all@.subrange(0, all@.len() as int) =~= all@);
                Ok(samples)
            },
            None => Err(TelemetryError::ChannelNotFound { id: channel_id }),
        }
    }

    /// The samples of `channel_id` from `start` to `end`, both included,
    /// oldest first.
    pub fn get_range(&self, channel_id: ChannelId, start: Timestamp, end: Timestamp) -> (r: Result<
        Vec<DataPoint>,
        TelemetryError,
    >)
        requires
            self.well_formed(),
        ensures
            ({
                let b = self.buffers();
                if has_key(b, channel_id) {
                    r matches Ok(v) && v@ == b[key_slot(b, channel_id)].1.filter(within(start, end))
                } else {
                    r == Err::<Vec<DataPoint>, TelemetryError>(TelemetryError::ChannelNotFound { id: channel_id })
                }
            }),
    {
        match self.position(channel_id) {
            Some(i) => {
                let all = ring_contents(&self.channels[i].1);
                let ghost p = within(start, end);
                let mut samples: Vec<DataPoint> = Vec::new();
                let mut k: usize = 0;
                assert(all@.take(0).filter(p) =~= Seq::<DataPoint>::empty()) by {
                    reveal(Seq::filter);
                }
                while k < all.len()
                    invariant
                        p == within(start, end),
                        k <= all@.len(),
                        samples@ == all@.take(k as int).filter(p),
                    decreases all@.len() - k,
                {
                    proof {
                        reveal(Seq::filter);
                        assert(all@.take(k + 1).drop_last() =~= all@.take(k as int));
                    }
                    let sample = all[k];
                    if start.nanos <= sample.timestamp.nanos && sample.timestamp.nanos <= end.nanos {
                        samples.push(sample);
                    }
                    k = k + 1;
                }
                assert(all@.take(all@.len() as int) =~= all@);
                Ok(samples)
            },
            None => Err(TelemetryError::ChannelNotFound { id: channel_id }),
        }
    }

    /// Counts over the buffers: channels, samples held, room in all, and
    /// samples dropped.
    pub fn get_stats(&self) -> (stats: BufferStats)
        requires
            self.well_formed(),
            self.buffers().len() * self.capacity() <= usize::MAX,
        ensures
            stats.channel_count == self.buffers().len(),
            stats.total_samples == sample_total(self.buffers()),
            stats.total_capacity == self.buffers().len() * self.capacity(),
            stats.dropped_samples == self.dropped(),
    {
        let ghost views = self.buffers();
        let mut total_samples: usize = 0;
        let mut total_capacity: usize = 0;
        let mut i: usize = 0;
        while i < self.channels.len()
            invariant
                views == ring_views(self.channels@),
                i <= self.channels@.len(),
                views.len() * self.capacity <= usize::MAX,
                forall|j: int|
                    0 <= j < self.channels@.len() ==> ring_items(#[trigger] self.channels@[j].1).len() <= self.capacity,
                total_samples == sample_total(views.take(i as int)),
                total_samples <= i * self.capacity,
                total_capacity == i * self.capacity,
            decreases self.channels@.len() - i,
        {
            let n = ring_len(&self.channels[i].1);
            proof {
                assert(views.take(i + 1).drop_last() =~= views.take(i as int));
                assert(views[i as int].1 == ring_items(self.channels@[i as int].1));
                assert((i + 1) * self.capacity <= views.len() * self.capacity) by (nonlinear_arith)
                    requires
                        i + 1 <= views.len(),
                ;
                assert((i + 1) * self.capacity == i * self.capacity + self.capacity) by (nonlinear_arith);
            }
            total_samples = total_samples + n;
            total_capacity = total_capacity + self.capacity;
            i = i + 1;
        }
        assert(views.take(views.len() as int) =~= views);
        BufferStats {
            channel_count: self.channels.len(),
            total_samples,
            total_capacity,
            dropped_samples: self.dropped_samples,
        }
    }

    /// Empty every buffer and forget the dropped samples.
    pub fn clear(&mut self)
        requires
            old(self).well_formed(),
        ensures
            final(self).well_formed(),
            final(self).buffers() == old(self).buffers().map_values(
                |e: (ChannelId, Seq<DataPoint>)| (e.0, Seq::<DataPoint>::empty()),
            ),
            final(self).capacity() == old(self).capacity(),
            final(self).dropped() == 0,
    {
        let ghost before = self.channels@;
        let n = self.channels.len();
        let mut i: usize = 0;
        while i < n
            invariant
                n == before.len(),
                self.capacity == old(self).capacity,
                self.channels@.len() == n,
                i <= n,
                keys_distinct(before),
                n > 0 ==> self.capacity > 0,
                forall|j: int| 0 <= j < n ==> (#[trigger] self.channels@[j]).0 == before[j].0,
                forall|j: int|
                    0 <= j < n ==> ring_capacity(#[trigger] self.channels@[j].1) == self.capacity,
                forall|j: int| 0 <= j < i ==> ring_items(#[trigger] self.channels@[j].1) == Seq::<DataPoint>::empty(),
                forall|j: int|
                    i <= j < n ==> ring_items(#[trigger] self.channels@[j].1).len() <= self.capacity,
                forall|j: int| 0 <= j < n ==> ring_capacity(#[trigger] before[j].1) == self.capacity,
            decreases n - i,
        {
            let ghost prev = self.channels@;
            let (key, mut ring) = self.channels.remove(i);
            ring_clear(&mut ring);
            self.channels.insert(i, (key, ring));
            assert(self.channels@ =~= prev.update(i as int, (key, ring)));
            i = i + 1;
        }
        self.dropped_samples = 0;
        assert(ring_views(self.channels@) =~= ring_views(before).map_values(
            |e: (ChannelId, Seq<DataPoint>)| (e.0, Seq::<DataPoint>::empty()),
        ));
        assert forall|a: int, b: int| 0 <= a < b < self.channels@.len() implies self.channels@[a].0
            != self.channels@[b].0 by {
            assert(before[a].0 == self.channels@[a].0);
            assert(before[b].0 == self.channels@[b].0);
        }
    }
}

/// What pushing `ps`, in order, leaves in an empty buffer with room for
/// `capacity` samples.
pub open spec fn after_pushes(ps: Seq<DataPoint>, capacity: nat) -> Seq<DataPoint>
    decreases ps.len(),
{
    if ps.len() == 0 {
        Seq::empty()
    } else {
        pushed(after_pushes(ps.drop_last(), capacity), ps.last(), capacity)
    }
}

/// A buffer with room for `capacity` samples keeps the latest `capacity`
/// samples pushed to it, oldest first.
pub proof fn lemma_buffer_keeps_latest(ps: Seq<DataPoint>, capacity: nat)
    requires
        capacity > 0,
    ensures
        after_pushes(ps, capacity) == last_n(ps, capacity),
    decreases ps.len(),
{
    if ps.len() > 0 {
        lemma_buffer_keeps_latest(ps.drop_last(), capacity);
        let prev = last_n(ps.drop_last(), capacity);
        if ps.drop_last().len() >= capacity {
            assert(prev.drop_first().push(ps.last()) =~= last_n(ps, capacity));
        } else {
            assert(prev.push(ps.last()) =~= last_n(ps, capacity));
        }
    }
}

/// High-throughput ingestion queue of samples.
pub struct IngestionQueue {
    queue: SegQueue<DataPoint>,
    max_size: usize,
    dropped_count: u64,
}

impl IngestionQueue {
    /// The samples waiting, oldest first.
    pub closed spec fn points(&self) -> Seq<DataPoint> {
        queued(self.queue)
    }

    /// How many samples the queue takes.
    pub closed spec fn max_size(&self) -> nat {
        self.max_size as nat
    }

    /// How many samples found the queue full.
    pub closed spec fn dropped(&self) -> nat {
        self.dropped_count as nat
    }

    /// The queue holds no more samples than it takes.
    pub closed spec fn well_formed(&self) -> bool {
        queued(self.queue).len() <= self.max_size
    }

    /// An empty queue that takes `max_size` samples.
    pub fn new(max_size: usize) -> (q: IngestionQueue)
        ensures
            q.well_formed(),
            q.points() == Seq::<DataPoint>::empty(),
            q.max_size() == max_size,
            q.dropped() == 0,
    {
        IngestionQueue { queue: empty_queue(), max_size, dropped_count: 0 }
    }

    /// Queue `data_point` behind the waiting samples; when the queue is
    /// full it is dropped, counted, and refused.
    pub fn push(&mut self, data_point: DataPoint) -> (r: Result<(), TelemetryError>)
        requires
            old(self).well_formed(),
            old(self).points().len() >= old(self).max_size() ==> old(self).dropped() < u64::MAX,
        ensures
            final(self).well_formed(),
            final(self).max_size() == old(self).max_size(),
            if old(self).points().len() >= old(self).max_size() {
                &&& r == Err::<(), TelemetryError>(
                    TelemetryError::BufferOverflow { capacity: old(self).max_size() as usize },
                )
                &&& final(self).points() == old(self).points()
                &&& final(self).dropped() == old(self).dropped() + 1
            } else {
                &&& r == Ok::<(), TelemetryError>(())
                &&& final(self).points() == old(self).points().push(data_point)
                &&& final(self).dropped() == old(self).dropped()
            },
    {
        if queue_len(&self.queue) >= self.max_size {
            self.dropped_count = self.dropped_count + 1;
            return Err(TelemetryError::BufferOverflow { capacity: self.max_size });
        }
        enqueue(&mut self.queue, data_point);
        Ok(())
    }

    /// The oldest waiting sample, taken off the queue.
    pub fn pop(&mut self) -> (r: Option<DataPoint>)
        requires
            old(self).well_formed(),
        ensures
            final(self).well_formed(),
            final(self).max_size() == old(self).max_size(),
            final(self).dropped() == old(self).dropped(),
            match r {
                Some(p) => old(self).points().len() > 0 && p == old(self).points()[0] && final(self).points()
                    == old(self).points().drop_first(),
                None => old(self).points().len() == 0 && final(self).points() == old(self).points(),
            },
    {
        dequeue(&mut self.queue)
    }

    /// Up to `max_count` of the oldest waiting samples, taken off the queue
    /// in order.
    pub fn drain_batch(&mut self, max_count: usize) -> (batch: Vec<DataPoint>)
        requires
            old(self).well_formed(),
        ensures
            final(self).well_formed(),
            final(self).max_size() == old(self).max_size(),
            final(self).dropped() == old(self).dropped(),
            batch@ == old(self).points().take(
                if max_count < old(self).points().len() {
                    max_count as int
                } else {
                    old(self).points().len() as int
                },
            ),
            final(self).points() == old(self).points().skip(batch@.len() as int),
    {
        let ghost start = queued(self.queue);
        let mut batch: Vec<DataPoint> = Vec::new();
        let mut k: usize = 0;
        while k < max_count
            invariant_except_break
                k <= max_count,
                k <= start.len(),
                batch@ == start.take(k as int),
                queued(self.queue) == start.skip(k as int),
                self.max_size as nat >= start.len(),
                self.dropped_count == old(self).dropped_count,
                self.max_size == old(self).max_size,
            ensures
                k <= max_count,
                k <= start.len(),
                batch@ == start.take(k as int),
                queued(self.queue) == start.skip(k as int),
                k == max_count || k == start.len(),
                self.max_size as nat >= start.len(),
                self.dropped_count == old(self).dropped_count,
                self.max_size == old(self).max_size,
            decreases max_count - k,
        {
            match dequeue(&mut self.queue) {
                Some(p) => {
                    proof {
                        assert(start.skip(k as int)[0] == start[k as int]);
                        assert(start.skip(k as int).drop_first() =~= start.skip(k + 1));
                    }
                    batch.push(p);
                    k = k + 1;
                    assert(batch@ =~= start.take(k as int));
                },
                None => {
                    break;
                },
            }
        }
        batch
    }

    /// How many samples are waiting.
    pub fn len(&self) -> (n: usize)
        ensures
            n == self.points().len(),
    {
        queue_len(&self.queue)
    }

    /// Whether no sample is waiting.
    pub fn is_empty(&self) -> (b: bool)
        ensures
            b == (self.points().len() == 0),
    {
        queue_len(&self.queue) == 0
    }

    /// How many samples found the queue full.
    pub fn dropped_count(&self) -> (n: u64)
        ensures
            n == self.dropped(),
    {
        self.dropped_count
    }
}

/// A queue never holds more samples than it takes.
pub proof fn lemma_queue_bounded(q: &IngestionQueue)
    requires
        q.well_formed(),
    ensures
        q.points().len() <= q.max_size(),
{
}

} // verus!
