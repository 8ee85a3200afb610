use spatiax::telemetry::base::{ChannelId, DataPoint, DataQuality, TelemetryError, Timestamp};
use spatiax::telemetry::buffer::IngestionQueue;

fn point(channel: u32, nanos: u64, value: f64) -> DataPoint {
    DataPoint {
        channel_id: ChannelId(channel),
        timestamp: Timestamp::from_nanos(nanos),
        value: value.to_bits(),
        quality: DataQuality::Good,
    }
}

#[test]
fn samples_leave_in_the_order_they_came() {
    let mut q = IngestionQueue::new(10);
    assert!(q.is_empty());
    q.push(point(1, 1, 1.0)).unwrap();
    q.push(point(2, 2, 2.0)).unwrap();
    q.push(point(1, 3, 3.0)).unwrap();
    assert_eq!(q.len(), 3);
    assert_eq!(q.pop(), Some(point(1, 1, 1.0)));
    assert_eq!(q.drain_batch(5), vec![point(2, 2, 2.0), point(1, 3, 3.0)]);
    assert_eq!(q.pop(), None);
    assert!(q.is_empty());
}

#[test]
fn a_full_queue_drops_and_counts() {
    let mut q = IngestionQueue::new(2);
    assert_eq!(q.push(point(1, 1, 1.0)), Ok(()));
    assert_eq!(q.push(point(1, 2, 2.0)), Ok(()));
    assert_eq!(q.push(point(1, 3, 3.0)), Err(TelemetryError::BufferOverflow { capacity: 2 }));
    assert_eq!(q.push(point(1, 4, 4.0)), Err(TelemetryError::BufferOverflow { capacity: 2 }));
    assert_eq!(q.dropped_count(), 2);
    assert_eq!(q.len(), 2);
    assert_eq!(q.pop(), Some(point(1, 1, 1.0)));
    assert_eq!(q.push(point(1, 5, 5.0)), Ok(()));
    assert_eq!(q.drain_batch(10), vec![point(1, 2, 2.0), point(1, 5, 5.0)]);
}

#[test]
fn a_batch_takes_at_most_what_is_asked() {
    let mut q = IngestionQueue::new(100);
    for k in 0..7 {
        q.push(point(3, k, k as f64)).unwrap();
    }
    let first = q.drain_batch(3);
    assert_eq!(first.iter().map(|p| p.timestamp.nanos).collect::<Vec<_>>(), vec![0, 1, 2]);
    assert_eq!(q.len(), 4);
    assert!(q.drain_batch(0).is_empty());
    assert_eq!(q.drain_batch(100).len(), 4);
}

#[test]
fn a_queue_that_takes_nothing_refuses_everything() {
    let mut q = IngestionQueue::new(0);
    assert_eq!(q.push(point(1, 1, 1.0)), Err(TelemetryError::BufferOverflow { capacity: 0 }));
    assert_eq!(q.dropped_count(), 1);
    assert!(q.is_empty());
}
