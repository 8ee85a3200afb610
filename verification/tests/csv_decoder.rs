use spatiax::telemetry::base::{ChannelId, TelemetryError, Timestamp};
use spatiax::telemetry::ingestion::{CsvField, CsvProtocolDecoder};

fn decoder(columns: &[u32], timestamp_column: usize, has_header: bool) -> CsvProtocolDecoder {
    CsvProtocolDecoder::new(
        "csv".to_string(),
        columns.iter().map(|&c| ChannelId(c)).collect(),
        timestamp_column,
        has_header,
    )
}

fn triples(fields: &[CsvField]) -> Vec<(u32, u64, String)> {
    fields.iter().map(|f| (f.channel_id.0, f.timestamp.nanos, f.text.clone())).collect()
}

#[test]
fn each_line_gives_one_value_per_channel_column() {
    let d = decoder(&[10, 11], 2, true);
    let data = b"a,b,time\n1.5,2.5,100\n3,x,200\n";
    let fields = d.decode_at(data, Timestamp::from_nanos(7)).unwrap();
    assert_eq!(
        triples(&fields),
        vec![
            (10, 100, "1.5".to_string()),
            (11, 100, "2.5".to_string()),
            (10, 200, "3".to_string()),
            (11, 200, "x".to_string()),
        ]
    );
}

#[test]
fn without_a_header_the_first_line_is_data() {
    let d = decoder(&[1], 1, false);
    let fields = d.decode_at(b"4,9", Timestamp::from_nanos(0)).unwrap();
    assert_eq!(triples(&fields), vec![(1, 9, "4".to_string())]);
}

#[test]
fn a_header_is_skipped_only_once() {
    let d = decoder(&[1], 1, true);
    let fields = d.decode_at(b"v,t\r\nv,t\r\n5,6\r\n", Timestamp::from_nanos(0)).unwrap();
    assert_eq!(triples(&fields), vec![(1, 0, "v".to_string()), (1, 6, "5".to_string())]);
}

#[test]
fn a_timestamp_that_is_no_number_takes_the_given_time() {
    let d = decoder(&[3], 1, false);
    let fields = d.decode_at(b"1,soon\n2,-5\n3,+8\n4,18446744073709551616", Timestamp::from_nanos(77)).unwrap();
    assert_eq!(
        triples(&fields),
        vec![
            (3, 77, "1".to_string()),
            (3, 77, "2".to_string()),
            (3, 8, "3".to_string()),
            (3, 77, "4".to_string()),
        ]
    );
}

#[test]
fn short_lines_are_skipped() {
    // Two channel columns need at least three fields; the timestamp is in
    // column 3, so four.
    let d = decoder(&[1, 2], 3, false);
    let fields = d.decode_at(b"1,2,3\n\n1,2,3,4\n1,2\n", Timestamp::from_nanos(0)).unwrap();
    assert_eq!(triples(&fields), vec![(1, 4, "1".to_string()), (2, 4, "2".to_string())]);
}

#[test]
fn empty_fields_and_trailing_carriage_returns_are_kept() {
    let d = decoder(&[1, 2], 2, false);
    let fields = d.decode_at(b",,5\n7,8,9\r", Timestamp::from_nanos(0)).unwrap();
    // The last line has no newline, so its carriage return stays in the
    // timestamp field, which is then no number.
    assert_eq!(
        triples(&fields),
        vec![(1, 5, "".to_string()), (2, 5, "".to_string()), (1, 0, "7".to_string()), (2, 0, "8".to_string())]
    );
}

#[test]
fn empty_input_gives_nothing() {
    let d = decoder(&[1], 0, true);
    assert!(d.decode_at(b"", Timestamp::from_nanos(0)).unwrap().is_empty());
    assert!(d.decode(b"").unwrap().is_empty());
}

#[test]
fn text_that_is_not_utf8_is_refused() {
    let d = decoder(&[1], 0, false);
    match d.decode_at(&[0x31, 0xff, 0x0a], Timestamp::from_nanos(0)) {
        Err(TelemetryError::InvalidDataFormat { message }) => {
            assert!(message.starts_with("Invalid UTF-8: "), "{}", message);
            assert_eq!(message, "Invalid UTF-8: invalid utf-8 sequence of 1 bytes from index 1");
        }
        other => panic!("unexpected {:?}", other.map(|v| v.len())),
    }
}

#[test]
fn decoding_by_the_clock_keeps_numeric_timestamps() {
    let d = decoder(&[1], 1, false);
    let fields = d.decode(b"2.5,123\n").unwrap();
    assert_eq!(triples(&fields), vec![(1, 123, "2.5".to_string())]);
    let fields = d.decode(b"2.5,later\n").unwrap();
    assert!(fields[0].timestamp.nanos > 1_600_000_000_000_000_000);
}

#[test]
fn multibyte_text_is_split_by_characters() {
    let d = decoder(&[1], 1, false);
    let fields = d.decode_at("é,1\n".as_bytes(), Timestamp::from_nanos(0)).unwrap();
    assert_eq!(triples(&fields), vec![(1, 1, "é".to_string())]);
}
