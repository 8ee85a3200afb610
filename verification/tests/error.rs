use spatiax::Error;

#[test]
fn dbc_parse_error_reports_one_based_line_number() {
    let e = Error::DbcParse {
        line: 42,
        message: "unterminated signal".into(),
    };
    assert!(e.describe().contains("line 42"));
}

#[test]
fn out_of_bounds_error_names_the_signal_and_both_sizes() {
    let e = Error::SignalOutOfBounds {
        signal: "EngineRPM".into(),
        required: 8,
        available: 4,
    };
    let s = e.describe();
    assert!(s.contains("EngineRPM"));
    assert!(s.contains('8'));
    assert!(s.contains('4'));
}

#[test]
fn every_error_reads_as_its_message() {
    assert_eq!(
        Error::InvalidId { raw: 0x800, reason: "exceeds the 11-bit standard identifier range" }
            .describe(),
        "invalid CAN identifier 0x800: exceeds the 11-bit standard identifier range"
    );
    assert_eq!(
        Error::FrameTooLong { len: 65 }.describe(),
        "frame payload of 65 bytes exceeds the CAN FD maximum of 64"
    );
    assert_eq!(
        Error::DlcMismatch { dlc: 9, len: 3 }.describe(),
        "data length code 9 does not describe a payload of 3 byte(s)"
    );
    assert_eq!(
        Error::RawOutOfRange { signal: "S".into(), length: 8, raw: 0x100 }.describe(),
        "raw value 0x100 does not fit in the 8 bit(s) of signal `S`"
    );
    assert_eq!(
        Error::CandumpParse { line: 3, message: "bad".into() }.describe(),
        "candump log parse error on line 3: bad"
    );
    assert_eq!(
        Error::Export { reason: "no".into() }.describe(),
        "cannot export: no"
    );
}
