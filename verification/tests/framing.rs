use spatiax::telemetry::framing::{find_frame_boundary, find_serial_frame_boundary};

#[test]
fn a_line_feed_ends_a_text_frame() {
    assert_eq!(find_serial_frame_boundary(b"12,34\r\n56"), Some(7));
    assert_eq!(find_frame_boundary(b"abc\ndef\n"), Some(4));
    assert_eq!(find_serial_frame_boundary(b"no end yet"), None);
    assert_eq!(find_frame_boundary(b""), None);
}

#[test]
fn a_binary_frame_ends_its_declared_length_after_its_header() {
    // Sync, length 3, three bytes of body, then the next frame's start.
    let data = [0x00, 0xAA, 0x55, 0x03, 0x00, 1, 2, 3, 0xAA];
    assert_eq!(find_frame_boundary(&data), Some(8));
    assert_eq!(find_serial_frame_boundary(&data), Some(8));
    // A frame that is not all there yet has no boundary.
    assert_eq!(find_frame_boundary(&data[..7]), None);
}

#[test]
fn the_serial_reader_also_takes_the_swapped_pattern_and_refuses_zero_lengths() {
    let swapped = [0x55, 0xAA, 0x02, 0x00, 9, 9, 0];
    assert_eq!(find_serial_frame_boundary(&swapped), Some(6));
    assert_eq!(find_frame_boundary(&swapped), None);
    let empty = [0xAA, 0x55, 0x00, 0x00, 0x07];
    assert_eq!(find_frame_boundary(&empty), Some(4));
    assert_eq!(find_serial_frame_boundary(&empty), None);
}
