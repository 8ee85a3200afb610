use spatiax::telemetry::alerts::{NotificationEndpoint, NotificationManager, NotificationType};
use spatiax::telemetry::base::{ChannelId, DataBatch, DataPoint, DataQuality, TelemetryError, Timestamp};
use spatiax::telemetry::can::CanFrame;
use spatiax::telemetry::ingestion::{
    extract_value, BinaryProtocolDecoder, ByteOrder, ChannelDecoderBuilder, DataDecoder, DecoderDataType,
    RawPoint, RawReading, ValueLayout,
};

fn layout(data_type: DecoderDataType, byte_order: ByteOrder, offset: usize) -> ValueLayout {
    ValueLayout { data_type, byte_order, offset, bit_mask: None, bit_shift: 0 }
}

fn invalid(message: &str) -> TelemetryError {
    TelemetryError::InvalidDataFormat { message: message.to_string() }
}

#[test]
fn integers_are_read_in_either_byte_order() {
    let data = [0x00, 0x34, 0x12, 0x78, 0x56];
    let le = layout(DecoderDataType::UInt16, ByteOrder::LittleEndian, 1);
    let be = layout(DecoderDataType::UInt16, ByteOrder::BigEndian, 1);
    assert_eq!(extract_value(&data, &le), Ok(RawReading::Integer(0x1234)));
    assert_eq!(extract_value(&data, &be), Ok(RawReading::Integer(0x3412)));
    let word = layout(DecoderDataType::UInt32, ByteOrder::LittleEndian, 1);
    assert_eq!(extract_value(&data, &word), Ok(RawReading::Integer(0x5678_1234)));
    let byte = layout(DecoderDataType::UInt8, ByteOrder::BigEndian, 4);
    assert_eq!(extract_value(&data, &byte), Ok(RawReading::Integer(0x56)));
}

#[test]
fn signed_integers_read_as_signed_values() {
    let data = [0xFF, 0xFE, 0xFF, 0x80, 0x00, 0x00, 0x00];
    let int8 = layout(DecoderDataType::Int8, ByteOrder::LittleEndian, 0);
    assert_eq!(extract_value(&data, &int8), Ok(RawReading::Signed(-1)));
    let int16 = layout(DecoderDataType::Int16, ByteOrder::LittleEndian, 1);
    assert_eq!(extract_value(&data, &int16), Ok(RawReading::Signed(-2)));
    let be16 = layout(DecoderDataType::Int16, ByteOrder::BigEndian, 0);
    assert_eq!(extract_value(&[0xFF, 0xFE], &be16), Ok(RawReading::Signed(-2)));
    let int32 = layout(DecoderDataType::Int32, ByteOrder::BigEndian, 3);
    assert_eq!(extract_value(&data, &int32), Ok(RawReading::Signed(i32::MIN as i64)));
    let uint64 = layout(DecoderDataType::UInt64, ByteOrder::BigEndian, 0);
    let wide = [0x01, 0x02, 0x03, 0x04, 0xAA, 0xBB, 0xCC, 0xDD];
    assert_eq!(extract_value(&wide, &uint64), Ok(RawReading::Integer(0x0102_0304_AABB_CCDD)));
    let int64 = layout(DecoderDataType::Int64, ByteOrder::LittleEndian, 0);
    assert_eq!(extract_value(&[0xFE, 0xFF, 0xFF, 0xFF, 0xFF, 0xFF, 0xFF, 0xFF], &int64), Ok(RawReading::Signed(-2)));
}

#[test]
fn a_masked_signed_integer_gives_the_masked_bits() {
    let mut l = layout(DecoderDataType::Int8, ByteOrder::LittleEndian, 0);
    l.bit_mask = Some(0xF00);
    l.bit_shift = 8;
    assert_eq!(extract_value(&[0xFF], &l), Ok(RawReading::Integer(0xF)));
}

#[test]
fn a_wide_shift_is_harmless_where_no_shift_happens() {
    let mut l = layout(DecoderDataType::Float32, ByteOrder::LittleEndian, 0);
    l.bit_mask = Some(1);
    l.bit_shift = 40;
    assert_eq!(extract_value(&1.0f32.to_le_bytes(), &l), Ok(RawReading::Float32(1.0f32.to_bits())));
    let mut short = layout(DecoderDataType::UInt16, ByteOrder::LittleEndian, 0);
    short.bit_mask = Some(1);
    short.bit_shift = 40;
    assert!(extract_value(&[1], &short).is_err());
}

#[test]
fn floats_come_back_as_their_bits() {
    let f = 12.5f32.to_le_bytes();
    let data = [0, f[0], f[1], f[2], f[3]];
    let l = layout(DecoderDataType::Float32, ByteOrder::LittleEndian, 1);
    assert_eq!(extract_value(&data, &l), Ok(RawReading::Float32(12.5f32.to_bits())));
    let d = (-0.25f64).to_be_bytes();
    let l = layout(DecoderDataType::Float64, ByteOrder::BigEndian, 0);
    assert_eq!(extract_value(&d, &l), Ok(RawReading::Float64((-0.25f64).to_bits())));
}

#[test]
fn a_mask_and_shift_pick_out_bits() {
    let data = [0b1011_0110, 0x00];
    let mut l = layout(DecoderDataType::UInt8, ByteOrder::LittleEndian, 0);
    l.bit_mask = Some(0b0011_0000);
    l.bit_shift = 4;
    assert_eq!(extract_value(&data, &l), Ok(RawReading::Integer(0b11)));
    let mut flag = layout(DecoderDataType::Boolean, ByteOrder::LittleEndian, 0);
    flag.bit_mask = Some(0b0000_1000);
    flag.bit_shift = 3;
    assert_eq!(extract_value(&data, &flag), Ok(RawReading::Flag(false)));
    flag.bit_mask = Some(0b0000_0100);
    flag.bit_shift = 2;
    assert_eq!(extract_value(&data, &flag), Ok(RawReading::Flag(true)));
    let plain = layout(DecoderDataType::Boolean, ByteOrder::LittleEndian, 1);
    assert_eq!(extract_value(&data, &plain), Ok(RawReading::Flag(false)));
}

#[test]
fn reading_past_the_data_is_an_error_with_a_message() {
    let data = [1, 2, 3];
    let l = layout(DecoderDataType::UInt8, ByteOrder::LittleEndian, 3);
    assert_eq!(extract_value(&data, &l), Err(invalid("Offset 3 exceeds data length 3")));
    let l = layout(DecoderDataType::Int32, ByteOrder::LittleEndian, 1);
    assert_eq!(extract_value(&data, &l), Err(invalid("Insufficient data for Int32")));
    let l = layout(DecoderDataType::Float64, ByteOrder::BigEndian, 0);
    assert_eq!(extract_value(&data, &l), Err(invalid("Insufficient data for Float64")));
}

// ---- the binary protocol ----

fn crc(bytes: &[u8]) -> u16 {
    crc::Crc::<u16>::new(&crc::CRC_16_IBM_SDLC).checksum(bytes)
}

/// A frame of `records` (identifier, value, quality) stamped `nanos`, with
/// `expected` in its checksum field. The checksum covers bytes 6 up to two
/// before the declared length, the field itself included.
fn frame(nanos: u64, records: &[(u16, f32, u8)], expected: u16) -> Vec<u8> {
    let body_end = 14 + 7 * records.len();
    let declared = (body_end + 2) as u16;
    let mut data = vec![0xAA, 0x55];
    data.extend_from_slice(&declared.to_le_bytes());
    data.extend_from_slice(&nanos.to_le_bytes());
    data.extend_from_slice(&expected.to_le_bytes());
    for (id, value, quality) in records {
        data.extend_from_slice(&id.to_le_bytes());
        data.extend_from_slice(&value.to_bits().to_le_bytes());
        data.push(*quality);
    }
    data.extend_from_slice(&[0; 6]);
    data
}

fn decoder() -> BinaryProtocolDecoder {
    let mut decoder = BinaryProtocolDecoder::new("bin".to_string());
    decoder.add_channel_mapping(7, ChannelId(70));
    decoder.add_channel_mapping(9, ChannelId(90));
    decoder
}

#[test]
fn mapped_records_become_points_and_unmapped_ones_are_passed_over() {
    let data = frame(1_234, &[(7, 1.5, 0), (8, 2.0, 0), (9, -3.0, 2)], 0xBEEF);
    let points = decoder().decode_with_crc(&data, 0xBEEF).unwrap();
    let at = Timestamp::from_nanos(1_234);
    assert_eq!(
        points,
        [
            RawPoint { channel_id: ChannelId(70), timestamp: at, value_bits: 1.5f32.to_bits(), quality: DataQuality::Good },
            RawPoint { channel_id: ChannelId(90), timestamp: at, value_bits: (-3.0f32).to_bits(), quality: DataQuality::Bad },
        ]
    );
}

#[test]
fn a_checksum_that_disagrees_is_reported_in_hex() {
    let data = frame(0, &[(7, 1.0, 1)], 0x0A0B);
    assert_eq!(
        decoder().decode_with_crc(&data, 0x000C),
        Err(invalid("CRC mismatch: expected 0xa0b, got 0x0c"))
    );
}

#[test]
fn the_checksum_is_the_crc_of_the_body() {
    // Choose the two top bytes of the timestamp so that the body's CRC is
    // the value in the checksum field.
    let expected = 0x1D0F;
    let mut data = frame(0, &[(9, 4.0, 3)], expected);
    let declared = 14 + 7 + 2;
    let hit = (0..=u16::MAX).find(|pad| {
        data[10..12].copy_from_slice(&pad.to_le_bytes());
        crc(&data[6..declared - 2]) == expected
    });
    assert!(hit.is_some());
    let nanos = u64::from_le_bytes(data[4..12].try_into().unwrap());
    let points = decoder().decode(&data).unwrap();
    assert_eq!(
        points,
        [RawPoint {
            channel_id: ChannelId(90),
            timestamp: Timestamp::from_nanos(nanos),
            value_bits: 4.0f32.to_bits(),
            quality: DataQuality::Unknown,
        }]
    );
    // Any other value in the field is a mismatch against the same CRC.
    data[12] ^= 1;
    let actual = crc(&data[6..declared - 2]);
    let message = format!("CRC mismatch: expected {:#04x}, got {:#04x}", expected ^ 1, actual);
    assert_eq!(decoder().decode(&data), Err(invalid(&message)));
}

#[test]
fn a_frame_is_refused_for_its_shape_before_its_checksum_is_read() {
    let d = decoder();
    assert_eq!(d.decode(&[0xAA, 0x55, 0, 0]), Err(invalid("Binary frame too short")));
    assert_eq!(d.decode(&[0x55, 0xAA, 0, 0, 0, 0, 0, 0]), Err(invalid("Invalid sync pattern")));
    assert_eq!(
        d.decode(&[0xAA, 0x55, 8, 0, 0, 0, 0, 0, 0]),
        Err(TelemetryError::Io { message: "failed to fill whole buffer".to_string() })
    );
    let mut long = frame(0, &[], 0);
    long[2] = 200;
    assert_eq!(d.decode(&long), Err(invalid("Frame length mismatch")));
}

#[test]
fn a_later_mapping_of_an_identifier_replaces_the_earlier_one() {
    let mut d = decoder();
    d.add_channel_mapping(7, ChannelId(71));
    assert_eq!(d.get_name(), "bin");
    let data = frame(5, &[(7, 0.0, 0)], 0x0001);
    let points = d.decode_with_crc(&data, 0x0001).unwrap();
    assert_eq!(points.len(), 1);
    assert_eq!(points[0].channel_id, ChannelId(71));
}

// ---- frames, time and alerts ----

#[test]
fn identifiers_above_eleven_bits_are_extended() {
    let at = Timestamp::from_nanos(42);
    let standard = CanFrame::with_timestamp(0x7FF, vec![1, 2], at);
    assert!(!standard.is_extended);
    assert!(!standard.is_remote);
    assert_eq!(standard.len(), 2);
    assert_eq!(standard.timestamp, at);
    let extended = CanFrame::new(0x800, vec![]);
    assert!(extended.is_extended);
    assert!(extended.is_empty());
}

#[test]
fn the_clock_reads_after_the_epoch() {
    assert!(Timestamp::now().nanos > 1_600_000_000_000_000_000);
    assert!(Timestamp::from_nanos(1) < Timestamp::from_nanos(2));
}

fn endpoint(name: &str, enabled: bool) -> NotificationEndpoint {
    NotificationEndpoint {
        name: name.to_string(),
        endpoint_type: NotificationType::Webhook,
        url: format!("https://example.invalid/{name}"),
        enabled,
    }
}

#[test]
fn alerts_go_to_each_enabled_endpoint_once() {
    let mut manager = NotificationManager::new();
    assert!(manager.enabled_endpoints().is_empty());
    manager.add_endpoint(endpoint("pit", true));
    manager.add_endpoint(endpoint("garage", false));
    manager.add_endpoint(endpoint("team", true));
    manager.add_endpoint(endpoint("pit", false));
    manager.add_endpoint(endpoint("garage", true));
    let mut names: Vec<&str> = manager.enabled_endpoints().iter().map(|e| e.name.as_str()).collect();
    names.sort();
    assert_eq!(names, ["garage", "team"]);
}

#[test]
fn a_default_manager_sends_nowhere() {
    assert!(NotificationManager::default().enabled_endpoints().is_empty());
}

#[test]
fn the_alert_engine_defaults_rate_limit_to_ten_a_minute() {
    let c = spatiax::telemetry::alerts::AlertEngineConfig::default();
    assert_eq!(c.max_active_alerts, 10000);
    assert_eq!(c.alert_history_size, 100000);
    assert_eq!(c.batch_size, 100);
    assert_eq!(c.acknowledgment_timeout_ms, 300000);
    assert!(c.enable_rate_limiting);
    assert_eq!(c.rate_limit_window_ms, 60000);
    assert_eq!(c.max_alerts_per_channel, 10);
}

#[test]
fn a_raw_frame_yields_the_channels_it_holds_in_order() {
    let mut decoder = DataDecoder::new();
    decoder.add_channel(
        ChannelDecoderBuilder::new(ChannelId(1))
            .data_type(DecoderDataType::UInt16)
            .byte_order(ByteOrder::BigEndian)
            .offset(0)
            .scale(0.5f64.to_bits())
            .build(),
    );
    decoder.add_channel(ChannelDecoderBuilder::new(ChannelId(2)).data_type(DecoderDataType::UInt32).offset(6).build());
    decoder.add_channel(
        ChannelDecoderBuilder::new(ChannelId(3))
            .data_type(DecoderDataType::Boolean)
            .offset(2)
            .bit_mask(0x80, 7)
            .bias(1.0f64.to_bits())
            .build(),
    );
    let data = [0x12, 0x34, 0x80, 0x00];
    let samples = decoder.decode_frame(&data, Timestamp::from_nanos(9)).unwrap();
    assert_eq!(samples.len(), 2);
    assert_eq!(samples[0].channel_id, ChannelId(1));
    assert_eq!(samples[0].reading, RawReading::Integer(0x1234));
    assert_eq!(samples[0].scale, 0.5f64.to_bits());
    assert_eq!(samples[0].timestamp, Timestamp::from_nanos(9));
    assert_eq!(samples[1].channel_id, ChannelId(3));
    assert_eq!(samples[1].reading, RawReading::Flag(true));
    assert_eq!(samples[1].bias, 1.0f64.to_bits());
    // Replacing a channel keeps its place.
    decoder.add_channel(ChannelDecoderBuilder::new(ChannelId(1)).data_type(DecoderDataType::UInt8).offset(1).build());
    let samples = decoder.decode_frame(&data, Timestamp::from_nanos(9)).unwrap();
    assert_eq!(samples[0].reading, RawReading::Integer(0x34));
    assert_eq!(samples[0].scale, 1.0f64.to_bits());
}

#[test]
fn a_new_decoder_config_reads_a_little_endian_float_at_the_start() {
    let c = ChannelDecoderBuilder::new(ChannelId(4)).build();
    assert_eq!(c.data_type, DecoderDataType::Float32);
    assert_eq!(c.byte_order, ByteOrder::LittleEndian);
    assert_eq!(c.offset, 0);
    assert_eq!(f64::from_bits(c.scale), 1.0);
    assert_eq!(f64::from_bits(c.bias), 0.0);
    assert_eq!(c.bit_mask, None);
    let decoder = DataDecoder::default();
    assert!(decoder.decode_frame(&[1, 2, 3, 4], Timestamp::from_nanos(0)).unwrap().is_empty());
}

#[test]
fn a_channel_identifier_comes_from_its_number() {
    assert_eq!(ChannelId::from(42u32), ChannelId(42));
    let id: ChannelId = 7u32.into();
    assert_eq!(id, ChannelId(7));
}

#[test]
fn a_batch_keeps_its_points_under_a_version_four_identifier() {
    let p = DataPoint { channel_id: ChannelId(1), timestamp: Timestamp::from_nanos(5), value: 1.5f64.to_bits(), quality: DataQuality::Good };
    let b = DataBatch::new(vec![p, p]);
    assert_eq!(b.len(), 2);
    assert!(!b.is_empty());
    assert_eq!((b.batch_id >> 76) & 0xF, 4);
    assert_eq!((b.batch_id >> 62) & 3, 2);
    assert_ne!(DataBatch::new(Vec::new()).batch_id, b.batch_id);
    assert!(DataBatch::new(Vec::new()).is_empty());
}
