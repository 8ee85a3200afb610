use spatiax::dbc::{ByteOrder, Multiplexing, Signal, ValueType};
use spatiax::decode::extract_raw;
use spatiax::encode::insert_raw;
use spatiax::Error;

fn sig(start_bit: u16, length: u8, byte_order: ByteOrder) -> Signal {
    Signal {
        name: "T".into(),
        start_bit,
        length,
        byte_order,
        value_type: ValueType::Unsigned,
        factor: "1".into(),
        offset: "0".into(),
        min: "0".into(),
        max: "0".into(),
        unit: String::new(),
        multiplexing: Multiplexing::Plain,
        value_table: Vec::new(),
    }
}

#[test]
fn intel_writes_a_byte_aligned_word_little_endian() {
    let mut data = [0u8; 8];
    insert_raw(&mut data, &sig(0, 16, ByteOrder::Intel), 0x1234).unwrap();
    assert_eq!(data, [0x34, 0x12, 0, 0, 0, 0, 0, 0]);
}

#[test]
fn motorola_writes_a_byte_aligned_word_big_endian() {
    let mut data = [0u8; 8];
    insert_raw(&mut data, &sig(7, 16, ByteOrder::Motorola), 0x1234).unwrap();
    assert_eq!(data, [0x12, 0x34, 0, 0, 0, 0, 0, 0]);
}

#[test]
fn encode_motorola_straddles_a_byte_boundary_from_an_unaligned_start() {
    let mut data = [0u8; 8];
    insert_raw(&mut data, &sig(11, 8, ByteOrder::Motorola), 0xFF).unwrap();
    assert_eq!(data, [0x00, 0x0F, 0xF0, 0, 0, 0, 0, 0]);
}

#[test]
fn encode_intel_straddles_a_byte_boundary_from_an_unaligned_start() {
    let mut data = [0u8; 8];
    insert_raw(&mut data, &sig(4, 8, ByteOrder::Intel), 0xBA).unwrap();
    assert_eq!(data, [0xA0, 0x0B, 0, 0, 0, 0, 0, 0]);
}

#[test]
fn insertion_clears_ones_as_well_as_setting_them() {
    let mut data = [0xFF; 8];
    insert_raw(&mut data, &sig(8, 8, ByteOrder::Intel), 0x00).unwrap();
    assert_eq!(data, [0xFF, 0x00, 0xFF, 0xFF, 0xFF, 0xFF, 0xFF, 0xFF]);
}

#[test]
fn insertion_leaves_neighbouring_bits_alone() {
    let mut data = [0xFF; 8];
    insert_raw(&mut data, &sig(2, 4, ByteOrder::Intel), 0b0000).unwrap();
    assert_eq!(data[0], 0b1100_0011);
    assert_eq!(&data[1..], &[0xFF; 7]);
}

#[test]
fn a_raw_value_wider_than_the_signal_is_rejected_without_writing() {
    let mut data = [0u8; 8];
    let err = insert_raw(&mut data, &sig(0, 8, ByteOrder::Intel), 0x100).unwrap_err();
    assert!(matches!(
        err,
        Error::RawOutOfRange {
            length: 8,
            raw: 0x100,
            ..
        }
    ));
    assert_eq!(data, [0u8; 8]);
}

#[test]
fn encode_a_signal_longer_than_the_payload_is_an_error_not_a_panic() {
    let mut data = [0u8; 2];
    let err = insert_raw(&mut data, &sig(0, 32, ByteOrder::Intel), 1).unwrap_err();
    assert!(matches!(
        err,
        Error::SignalOutOfBounds {
            required: 4,
            available: 2,
            ..
        }
    ));
    assert_eq!(data, [0u8; 2]);
}

#[test]
fn full_width_64_bit_signals_insert_without_overflow() {
    let mut data = [0u8; 8];
    insert_raw(&mut data, &sig(0, 64, ByteOrder::Intel), u64::MAX).unwrap();
    assert_eq!(data, [0xFF; 8]);

    let mut data = [0u8; 8];
    insert_raw(&mut data, &sig(7, 64, ByteOrder::Motorola), 0x0102_0304_0506_0708).unwrap();
    assert_eq!(data, [0x01, 0x02, 0x03, 0x04, 0x05, 0x06, 0x07, 0x08]);
}

#[test]
fn insert_then_extract_returns_the_original_at_a_few_awkward_layouts() {
    let cases = [
        (sig(3, 13, ByteOrder::Intel), 0x1ABC),
        (sig(13, 13, ByteOrder::Motorola), 0x1ABC),
        (sig(62, 2, ByteOrder::Intel), 0b10),
        (sig(56, 1, ByteOrder::Motorola), 1),
    ];
    for (s, raw) in cases {
        let mut data = [0u8; 8];
        insert_raw(&mut data, &s, raw).unwrap();
        assert_eq!(extract_raw(&data, &s).unwrap(), raw, "{s:?}");
    }
}

#[test]
fn two_signals_written_in_either_order_give_the_same_payload() {
    let a = sig(0, 12, ByteOrder::Intel);
    let b = sig(12, 4, ByteOrder::Intel);
    let mut one = [0u8; 2];
    insert_raw(&mut one, &a, 0xABC).unwrap();
    insert_raw(&mut one, &b, 0x5).unwrap();
    let mut two = [0u8; 2];
    insert_raw(&mut two, &b, 0x5).unwrap();
    insert_raw(&mut two, &a, 0xABC).unwrap();
    assert_eq!(one, two);
    assert_eq!(one, [0xBC, 0x5A]);
}
