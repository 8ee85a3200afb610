use spatiax::dbc::{ByteOrder, Multiplexing, Signal, ValueType};
use spatiax::decode::{bit_positions, extract_raw, motorola_step, required_bytes};
use spatiax::Error;

fn sig(start_bit: u16, length: u8, byte_order: ByteOrder) -> Signal {
    Signal {
        name: "T".into(),
        start_bit,
        length,
        byte_order,
        value_type: ValueType::Unsigned,
        factor: "1".into(),
        offset: "0".into(),
        min: "0".into(),
        max: "0".into(),
        unit: String::new(),
        multiplexing: Multiplexing::Plain,
        value_table: Vec::new(),
    }
}

/// Physical value: raw times factor plus offset, as the DBC texts give them.
fn value(s: &Signal, raw: u64) -> f64 {
    raw as f64 * s.factor.parse::<f64>().unwrap() + s.offset.parse::<f64>().unwrap()
}

#[test]
fn intel_reads_a_byte_aligned_word_little_endian() {
    let data = [0x34, 0x12, 0, 0, 0, 0, 0, 0];
    let s = sig(0, 16, ByteOrder::Intel);
    assert_eq!(extract_raw(&data, &s).unwrap(), 0x1234);
}

#[test]
fn motorola_reads_a_byte_aligned_word_big_endian() {
    let data = [0x12, 0x34, 0, 0, 0, 0, 0, 0];
    let s = sig(7, 16, ByteOrder::Motorola);
    assert_eq!(extract_raw(&data, &s).unwrap(), 0x1234);
}

#[test]
fn decode_motorola_straddles_a_byte_boundary_from_an_unaligned_start() {
    let data = [0x00, 0x0F, 0xF0, 0, 0, 0, 0, 0];
    let s = sig(11, 8, ByteOrder::Motorola);
    assert_eq!(extract_raw(&data, &s).unwrap(), 0xFF);
}

#[test]
fn decode_intel_straddles_a_byte_boundary_from_an_unaligned_start() {
    let data = [0xA0, 0x0B, 0, 0, 0, 0, 0, 0];
    let s = sig(4, 8, ByteOrder::Intel);
    assert_eq!(extract_raw(&data, &s).unwrap(), 0xBA);
}

#[test]
fn intel_and_motorola_disagree_on_the_same_payload() {
    let data = [0x12, 0x34, 0, 0, 0, 0, 0, 0];
    let i = extract_raw(&data, &sig(0, 16, ByteOrder::Intel)).unwrap();
    let m = extract_raw(&data, &sig(7, 16, ByteOrder::Motorola)).unwrap();
    assert_eq!(i, 0x3412);
    assert_eq!(m, 0x1234);
    assert_ne!(i, m);
}

#[test]
fn single_bit_signals_decode_at_every_position_in_a_byte() {
    let data = [0b1010_1010, 0, 0, 0, 0, 0, 0, 0];
    for bit in 0..8u16 {
        let expected = u64::from(bit % 2 == 1);
        assert_eq!(
            extract_raw(&data, &sig(bit, 1, ByteOrder::Intel)).unwrap(),
            expected,
            "intel bit {bit}"
        );
        assert_eq!(
            extract_raw(&data, &sig(bit, 1, ByteOrder::Motorola)).unwrap(),
            expected,
            "motorola bit {bit}"
        );
    }
}

#[test]
fn required_bytes_differs_between_orders_for_the_same_start_bit() {
    assert_eq!(required_bytes(&sig(7, 16, ByteOrder::Intel)), 3);
    assert_eq!(required_bytes(&sig(7, 16, ByteOrder::Motorola)), 2);
}

#[test]
fn required_bytes_for_motorola_unaligned_starts() {
    assert_eq!(required_bytes(&sig(11, 8, ByteOrder::Motorola)), 3);
    assert_eq!(required_bytes(&sig(11, 4, ByteOrder::Motorola)), 2);
    assert_eq!(required_bytes(&sig(0, 1, ByteOrder::Motorola)), 1);
}

#[test]
fn decode_a_signal_longer_than_the_payload_is_an_error_not_a_panic() {
    let data = [0x00, 0x01];
    let s = sig(0, 32, ByteOrder::Intel);
    assert!(matches!(
        extract_raw(&data, &s),
        Err(Error::SignalOutOfBounds {
            required: 4,
            available: 2,
            ..
        })
    ));
}

#[test]
fn a_motorola_signal_longer_than_the_payload_is_an_error_not_a_panic() {
    let data = [0x00];
    let s = sig(7, 16, ByteOrder::Motorola);
    assert!(matches!(
        extract_raw(&data, &s),
        Err(Error::SignalOutOfBounds {
            required: 2,
            available: 1,
            ..
        })
    ));
}

#[test]
fn decode_signal_applies_scaling_to_the_extracted_bits() {
    let data = [0x34, 0x12, 0, 0, 0, 0, 0, 0];
    let mut s = sig(0, 16, ByteOrder::Intel);
    s.factor = "0.25".into();
    let raw = extract_raw(&data, &s).unwrap();
    assert_eq!(value(&s, raw), 1165.0);
}

#[test]
fn a_full_width_64_bit_signal_extracts_without_overflow() {
    let data = [0xFF; 8];
    assert_eq!(extract_raw(&data, &sig(0, 64, ByteOrder::Intel)).unwrap(), u64::MAX);
    assert_eq!(extract_raw(&data, &sig(7, 64, ByteOrder::Motorola)).unwrap(), u64::MAX);
}

#[test]
fn a_64_bit_motorola_signal_preserves_byte_order() {
    let data = [0x01, 0x02, 0x03, 0x04, 0x05, 0x06, 0x07, 0x08];
    assert_eq!(
        extract_raw(&data, &sig(7, 64, ByteOrder::Motorola)).unwrap(),
        0x0102_0304_0506_0708
    );
    assert_eq!(
        extract_raw(&data, &sig(0, 64, ByteOrder::Intel)).unwrap(),
        0x0807_0605_0403_0201
    );
}

#[test]
fn the_motorola_walk_descends_in_a_byte_and_jumps_to_the_next_msb() {
    assert_eq!(motorola_step(7), 6);
    assert_eq!(motorola_step(1), 0);
    assert_eq!(motorola_step(0), 15);
    assert_eq!(motorola_step(8), 23);
    // Least significant bit first: the walk from the start bit, reversed.
    assert_eq!(bit_positions(&sig(11, 6, ByteOrder::Motorola)), vec![22, 23, 8, 9, 10, 11]);
    assert_eq!(bit_positions(&sig(6, 3, ByteOrder::Intel)), vec![6, 7, 8]);
}
