use spatiax::telemetry::base::{ChannelId, DataPoint, DataQuality, TelemetryError, Timestamp};
use spatiax::telemetry::buffer::{BufferStats, TelemetryBuffer};

fn point(channel: u32, nanos: u64) -> DataPoint {
    DataPoint {
        channel_id: ChannelId(channel),
        timestamp: Timestamp::from_nanos(nanos),
        value: (nanos as f64).to_bits(),
        quality: DataQuality::Good,
    }
}

fn times(points: &[DataPoint]) -> Vec<u64> {
    points.iter().map(|p| p.timestamp.nanos).collect()
}

#[test]
fn a_full_buffer_drops_its_oldest_sample() {
    let mut b = TelemetryBuffer::new(3);
    b.add_channel(ChannelId(1));
    for t in 1..=5 {
        assert_eq!(b.push(point(1, t)), Ok(()));
    }
    assert_eq!(times(&b.get_latest(ChannelId(1), 10).unwrap()), vec![3, 4, 5]);
    assert_eq!(b.get_stats().dropped_samples, 2);
}

#[test]
fn the_latest_samples_come_oldest_first() {
    let mut b = TelemetryBuffer::new(10);
    b.add_channel(ChannelId(1));
    for t in 1..=6 {
        b.push(point(1, t)).unwrap();
    }
    assert_eq!(times(&b.get_latest(ChannelId(1), 2).unwrap()), vec![5, 6]);
    assert!(b.get_latest(ChannelId(1), 0).unwrap().is_empty());
    assert_eq!(b.get_latest(ChannelId(7), 2), Err(TelemetryError::ChannelNotFound { id: ChannelId(7) }));
}

#[test]
fn a_range_includes_both_ends() {
    let mut b = TelemetryBuffer::new(10);
    b.add_channel(ChannelId(2));
    for t in [10, 20, 30, 40] {
        b.push(point(2, t)).unwrap();
    }
    let r = b.get_range(ChannelId(2), Timestamp::from_nanos(20), Timestamp::from_nanos(30)).unwrap();
    assert_eq!(times(&r), vec![20, 30]);
    let r = b.get_range(ChannelId(2), Timestamp::from_nanos(41), Timestamp::from_nanos(50)).unwrap();
    assert!(r.is_empty());
    assert!(b.get_range(ChannelId(3), Timestamp::from_nanos(0), Timestamp::from_nanos(1)).is_err());
}

#[test]
fn a_sample_for_an_unknown_channel_is_refused() {
    let mut b = TelemetryBuffer::new(4);
    b.add_channel(ChannelId(1));
    assert_eq!(b.push(point(9, 1)), Err(TelemetryError::ChannelNotFound { id: ChannelId(9) }));
    assert_eq!(b.get_stats().total_samples, 0);
}

#[test]
fn channels_keep_their_samples_apart() {
    let mut b = TelemetryBuffer::new(2);
    b.add_channel(ChannelId(1));
    b.add_channel(ChannelId(2));
    b.push(point(1, 1)).unwrap();
    b.push(point(2, 2)).unwrap();
    b.push(point(1, 3)).unwrap();
    b.push(point(1, 5)).unwrap();
    assert_eq!(times(&b.get_latest(ChannelId(1), 5).unwrap()), vec![3, 5]);
    assert_eq!(times(&b.get_latest(ChannelId(2), 5).unwrap()), vec![2]);
    assert_eq!(
        b.get_stats(),
        BufferStats { channel_count: 2, total_samples: 3, total_capacity: 4, dropped_samples: 1 }
    );
}

#[test]
fn adding_a_channel_again_empties_its_buffer() {
    let mut b = TelemetryBuffer::new(2);
    b.add_channel(ChannelId(1));
    b.push(point(1, 1)).unwrap();
    b.add_channel(ChannelId(1));
    assert!(b.get_latest(ChannelId(1), 5).unwrap().is_empty());
    assert_eq!(b.get_stats().channel_count, 1);
}

#[test]
fn clearing_empties_every_buffer_and_the_drop_count() {
    let mut b = TelemetryBuffer::new(1);
    b.add_channel(ChannelId(1));
    b.add_channel(ChannelId(2));
    b.push(point(1, 1)).unwrap();
    b.push(point(1, 2)).unwrap();
    b.push(point(2, 3)).unwrap();
    b.clear();
    assert_eq!(
        b.get_stats(),
        BufferStats { channel_count: 2, total_samples: 0, total_capacity: 2, dropped_samples: 0 }
    );
    b.push(point(2, 4)).unwrap();
    assert_eq!(times(&b.get_latest(ChannelId(2), 1).unwrap()), vec![4]);
}
