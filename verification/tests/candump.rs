use spatiax::candump::{parse_line, LogReader};
use spatiax::{CanFrame, CanId, Error};

fn frames(log: &str) -> Vec<Result<CanFrame, Error>> {
    let lines: Vec<String> = log.lines().map(String::from).collect();
    let mut reader = LogReader::new();
    let all = reader.read_lines(&lines);
    assert_eq!(reader.line_no(), lines.len());
    all
}

fn one(log: &str) -> CanFrame {
    let mut all = frames(log);
    assert_eq!(all.len(), 1, "expected one frame from {log:?}, got {all:?}");
    all.remove(0).unwrap()
}

fn line_of(result: &Result<CanFrame, Error>) -> usize {
    match result {
        Err(Error::CandumpParse { line, .. }) => *line,
        other => panic!("expected a log parse error, got {other:?}"),
    }
}

#[test]
fn reads_a_classic_frame_with_its_timestamp() {
    let frame = one("(1690000000.123456) can0 123#DEADBEEF\n");
    assert_eq!(frame.id(), CanId::Standard(0x123));
    assert_eq!(frame.data(), [0xDE, 0xAD, 0xBE, 0xEF]);
    assert_eq!(frame.timestamp_us, 1_690_000_000_123_456);
}

#[test]
fn eight_digit_identifiers_are_extended_even_when_small() {
    assert_eq!(one("(0.0) can0 18FEEE00#01\n").id(), CanId::Extended(0x18FE_EE00));
    assert_eq!(one("(0.0) can0 00000123#01\n").id(), CanId::Extended(0x123));
}

#[test]
fn reads_a_can_fd_frame_and_drops_its_flags_digit() {
    let hex = "0123456789ABCDEF".repeat(8);
    let frame = one(&format!("(0.0) can0 123##1{hex}\n"));
    assert_eq!(frame.len(), 64);
    assert_eq!(frame.data()[0], 0x01);
    assert_eq!(frame.data()[63], 0xEF);

    assert!(one("(0.0) can0 123##0\n").is_empty());
    assert_eq!(line_of(&frames("(0.0) can0 123##\n")[0]), 1);
}

#[test]
fn skips_remote_frames_error_frames_and_blank_lines() {
    let log = "(0.0) can0 123#R\n\
               (0.0) can0 123#R3\n\
               \n\
               (0.0) can0 20000004#0000000000000008\n\
               (0.0) can0 123#01\n";
    let all = frames(log);
    assert_eq!(all.len(), 1);
    assert_eq!(all[0].as_ref().unwrap().data(), [1]);
}

#[test]
fn keeps_the_data_length_code_of_a_len8_dlc_frame() {
    let frame = one("(0.0) can0 123#0011223344556677_9\n");
    assert_eq!(frame.len(), 8);
    assert_eq!(frame.dlc(), Some(9));
    assert_eq!(one("(0.0) can0 123#0011223344556677_F\n").dlc(), Some(15));
    // No suffix, so the payload length gives the code.
    assert_eq!(one("(0.0) can0 123#001122\n").dlc(), Some(3));
}

#[test]
fn rejects_a_data_length_code_that_contradicts_its_payload() {
    let log = "(0.0) can0 123#001122_9\n\
               (0.0) can0 123#0011223344556677_G\n\
               (0.0) can0 123#0011223344556677_10\n";
    let all = frames(log);
    assert_eq!(all.len(), 3);
    for (index, result) in all.iter().enumerate() {
        assert_eq!(line_of(result), index + 1);
    }
}

#[test]
fn rejects_a_can_fd_payload_of_a_length_no_code_can_express() {
    let all = frames("(0.0) can0 123##1001122334455667788\n");
    assert!(
        matches!(&all[0], Err(Error::CandumpParse { message, .. }) if message.contains("9 byte")),
        "{all:?}"
    );
    // The lengths CAN FD does carry are read as before.
    assert_eq!(one("(0.0) can0 123##100112233445566778899AABB\n").len(), 12);
}

#[test]
fn accepts_a_bare_frame_and_a_short_fraction() {
    let frame = one("123#DEADBEEF\n");
    assert_eq!(frame.timestamp_us, 0);
    assert_eq!(frame.data(), [0xDE, 0xAD, 0xBE, 0xEF]);

    assert_eq!(one("(12.5) 123#00\n").timestamp_us, 12_500_000);
    assert_eq!(one("(12) 123#00\n").timestamp_us, 12_000_000);
    assert_eq!(one("(0.1234567) 123#00\n").timestamp_us, 123_456);
}

#[test]
fn reports_malformed_lines_by_number_and_keeps_going() {
    let log = "(0.0) can0 123#01\n\
               (0.0) can0 123#012\n\
               (0.0) can0 123#GG\n\
               (0.0) can0 123 01\n\
               (0.0) can0 XYZ#01\n\
               (0.0) can0 800#01\n\
               (0.0) can0 C0000000#01\n\
               (abc) can0 123#01\n\
               (0.0) can0 123#02\n";
    let all = frames(log);
    assert_eq!(all.len(), 9);
    assert_eq!(all[0].as_ref().unwrap().data(), [1]);
    for (index, result) in all.iter().enumerate().take(8).skip(1) {
        assert_eq!(line_of(result), index + 1);
    }
    assert_eq!(all[8].as_ref().unwrap().data(), [2]);
}

#[test]
fn rejects_a_payload_over_the_can_fd_maximum_with_a_line_number() {
    let hex = "00".repeat(65);
    let all = frames(&format!("\n(0.0) can0 123##1{hex}\n"));
    assert_eq!(line_of(&all[0]), 2);
}

#[test]
fn a_human_readable_candump_line_is_an_error_rather_than_a_guess() {
    let all = frames("  can0  123   [4]  DE AD BE EF\n");
    assert!(matches!(
        &all[0],
        Err(Error::CandumpParse { message, .. }) if message.contains("<id>#<data>")
    ));
}

#[test]
fn the_reader_counts_every_line_it_is_handed() {
    let mut reader = LogReader::new();
    assert_eq!(reader.line_no(), 0);
    assert!(reader.next_line("").is_none());
    assert!(reader.next_line("(0.0) can0 123#R").is_none());
    assert!(reader.next_line("(0.0) can0 123#01").is_some());
    assert_eq!(reader.line_no(), 3);
}

#[test]
fn a_single_line_parses_on_its_own() {
    let frame = parse_line("(1.000002) vcan0 7FF#", 4).unwrap().unwrap();
    assert_eq!(frame.id(), CanId::Standard(0x7FF));
    assert!(frame.is_empty());
    assert_eq!(frame.timestamp_us, 1_000_002);
    assert_eq!(parse_line("   ", 4), Ok(None));
    assert!(matches!(parse_line("(0.0) can0 XYZ#00", 7), Err(Error::CandumpParse { line: 7, .. })));
}

#[test]
fn a_whole_log_yields_each_frame_and_each_error_in_line_order() {
    let log = format!("\n(0.0) can0 123##1{}\n(1.0) can0 7FF#AB\n", "00".repeat(65));
    let all = frames(&log);
    assert_eq!(all.len(), 2);
    assert!(matches!(all[0], Err(Error::CandumpParse { line: 2, .. })));
    assert_eq!(all[1].as_ref().unwrap().data(), [0xAB]);

    let mut reader = LogReader::new();
    assert!(reader.next_line("").is_none());
    let rest = reader.read_lines(&["bad".to_string()]);
    assert!(matches!(rest[0], Err(Error::CandumpParse { line: 2, .. })));
}
