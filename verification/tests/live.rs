use std::time::{Duration, UNIX_EPOCH};
use spatiax::live::{data_frame, micros_since_epoch, Received};
use spatiax::{CanId, Error};

#[test]
fn a_classic_data_frame_keeps_its_identifier_payload_and_receive_time() {
    let converted = data_frame(
        Received::Normal,
        CanId::Standard(0x100),
        &[0x34, 0x12, 0x64],
        1_700_000_000_000_250,
    )
    .unwrap()
    .unwrap();
    assert_eq!(converted.id(), CanId::Standard(0x100));
    assert_eq!(converted.data(), [0x34, 0x12, 0x64]);
    assert_eq!(converted.timestamp_us, 1_700_000_000_000_250);
}

#[test]
fn an_fd_frame_with_an_extended_identifier_carries_all_its_bytes() {
    let converted = data_frame(Received::Fd, CanId::Extended(0x18FE_EE00), &[0xAB; 12], 0)
        .unwrap()
        .unwrap();
    assert_eq!(converted.id(), CanId::Extended(0x18FE_EE00));
    assert_eq!(converted.len(), 12);
    assert_eq!(converted.data(), [0xAB; 12]);
}

#[test]
fn remote_and_error_frames_are_dropped() {
    assert!(data_frame(Received::Remote, CanId::Standard(0x100), &[], 0).is_none());
    assert!(data_frame(Received::Fault, CanId::Extended(0x0000_0004), &[0; 8], 0).is_none());
}

#[test]
fn a_payload_over_the_fd_maximum_is_an_error_not_a_frame() {
    assert_eq!(
        data_frame(Received::Fd, CanId::Standard(1), &[0; 65], 0),
        Some(Err(Error::FrameTooLong { len: 65 }))
    );
}

#[test]
fn a_receive_time_before_the_epoch_reads_as_zero() {
    let before = UNIX_EPOCH - Duration::from_secs(1);
    let since = before.duration_since(UNIX_EPOCH).ok().map(|d| d.as_micros());
    let frame = data_frame(Received::Normal, CanId::Standard(1), &[], micros_since_epoch(since));
    assert_eq!(frame.unwrap().unwrap().timestamp_us, 0);
}

#[test]
fn receive_times_count_microseconds_and_stop_at_the_largest_u64() {
    assert_eq!(micros_since_epoch(Some(1_690_000_000_123_456)), 1_690_000_000_123_456);
    assert_eq!(micros_since_epoch(Some(u128::from(u64::MAX) + 1)), u64::MAX);
    assert_eq!(micros_since_epoch(None), 0);
}
