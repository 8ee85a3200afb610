use spatiax::dbc::{parse, ByteOrder, Database, Multiplexing, ValueType};
use spatiax::{CanId, Error};

const ONE_MESSAGE: &str = r#"
BO_ 256 EngineData: 8 ECU
 SG_ EngineRPM : 0|16@1+ (0.25,0) [0|16383.75] "rpm" DASH,LOGGER
 SG_ CoolantTemp : 16|8@1+ (0.5,-40) [-40|87.5] "degC" DASH
"#;

fn line_of(result: Result<Database, Error>) -> usize {
    match result {
        Err(Error::DbcParse { line, .. }) => line,
        Err(other) => panic!("expected a parse error with a line number, got {other:?}"),
        Ok(_) => panic!("expected a parse error with a line number, got a database"),
    }
}

fn number(text: &str) -> f64 {
    text.parse().unwrap()
}

#[test]
fn parses_signals_rather_than_silently_producing_none() {
    let db = parse(ONE_MESSAGE).unwrap();
    assert_eq!(db.len(), 1);
    assert_eq!(db.signal_count(), 2);
}

#[test]
fn parses_every_field_of_a_signal_record() {
    let db = parse(ONE_MESSAGE).unwrap();
    let rpm = &db.message(CanId::Standard(256)).unwrap().signals[0];

    assert_eq!(rpm.name, "EngineRPM");
    assert_eq!(rpm.start_bit, 0);
    assert_eq!(rpm.length, 16);
    assert_eq!(rpm.byte_order, ByteOrder::Intel);
    assert_eq!(rpm.value_type, ValueType::Unsigned);
    assert_eq!(number(&rpm.factor), 0.25);
    assert_eq!(number(&rpm.offset), 0.0);
    assert_eq!(number(&rpm.min), 0.0);
    assert_eq!(number(&rpm.max), 16383.75);
    assert_eq!(rpm.unit, "rpm");
    assert_eq!(rpm.multiplexing, Multiplexing::Plain);
}

#[test]
fn parses_a_negative_offset_and_minimum() {
    let db = parse(ONE_MESSAGE).unwrap();
    let temp = &db.message(CanId::Standard(256)).unwrap().signals[1];
    assert_eq!(number(&temp.offset), -40.0);
    assert_eq!(number(&temp.min), -40.0);
}

#[test]
fn parses_message_header_fields() {
    let db = parse(ONE_MESSAGE).unwrap();
    let message = db.message(CanId::Standard(256)).unwrap();
    assert_eq!(message.name, "EngineData");
    assert_eq!(message.dlc, 8);
    assert_eq!(message.sender, "ECU");
}

#[test]
fn accepts_a_detached_colon_in_the_message_header() {
    let db = parse("BO_ 256 EngineData : 8 ECU\n").unwrap();
    let message = db.message(CanId::Standard(256)).unwrap();
    assert_eq!(message.name, "EngineData");
    assert_eq!(message.dlc, 8);
}

#[test]
fn interprets_the_dbc_extended_identifier_flag() {
    let db =
        parse("BO_ 2566843904 Diag: 8 ECU\n SG_ Code : 0|8@1+ (1,0) [0|255] \"\" X\n").unwrap();
    assert!(db.message(CanId::Extended(0x18FE_EE00)).is_some());
}

#[test]
fn parses_motorola_and_signed_flags() {
    let db = parse("BO_ 1 M: 8 E\n SG_ S : 7|16@0- (1,0) [0|0] \"\" X\n").unwrap();
    let s = &db.message(CanId::Standard(1)).unwrap().signals[0];
    assert_eq!(s.byte_order, ByteOrder::Motorola);
    assert_eq!(s.value_type, ValueType::Signed);
}

#[test]
fn parses_multiplexor_and_multiplexed_markers() {
    let text = "BO_ 768 Susp: 8 ECU\n \
                SG_ Mux M : 0|8@1+ (1,0) [0|255] \"\" X\n \
                SG_ PosFL m0 : 8|16@1- (0.1,0) [0|0] \"mm\" X\n \
                SG_ PosFR m12 : 8|16@1- (0.1,0) [0|0] \"mm\" X\n";
    let db = parse(text).unwrap();
    let signals = &db.message(CanId::Standard(768)).unwrap().signals;
    assert_eq!(signals[0].multiplexing, Multiplexing::Multiplexor);
    assert_eq!(signals[1].multiplexing, Multiplexing::Multiplexed(0));
    assert_eq!(signals[2].multiplexing, Multiplexing::Multiplexed(12));
}

#[test]
fn skips_records_it_does_not_understand() {
    let text = "VERSION \"x\"\n\
                NS_ :\n\
                BS_:\n\
                BU_: ECU DASH\n\
                BO_ 256 EngineData: 8 ECU\n \
                SG_ EngineRPM : 0|16@1+ (0.25,0) [0|16383.75] \"rpm\" DASH\n\
                CM_ SG_ 256 EngineRPM \"Engine speed\";\n\
                BA_ \"GenMsgCycleTime\" BO_ 256 10;\n\
                BO_TX_BU_ 256 : ECU;\n";
    let db = parse(text).unwrap();
    assert_eq!(db.len(), 1);
    assert_eq!(db.signal_count(), 1);
}

#[test]
fn parses_several_messages_and_keeps_signals_with_their_own_message() {
    let text = "BO_ 1 A: 8 E\n SG_ S1 : 0|8@1+ (1,0) [0|0] \"\" X\n\
                BO_ 2 B: 8 E\n SG_ S2 : 0|8@1+ (1,0) [0|0] \"\" X\n \
                SG_ S3 : 8|8@1+ (1,0) [0|0] \"\" X\n";
    let db = parse(text).unwrap();
    assert_eq!(db.message(CanId::Standard(1)).unwrap().signals.len(), 1);
    assert_eq!(db.message(CanId::Standard(2)).unwrap().signals.len(), 2);
}

#[test]
fn reports_the_line_number_of_a_malformed_signal() {
    let text = "BO_ 256 M: 8 E\n SG_ Broken : notanumber|16@1+ (1,0) [0|0] \"\" X\n";
    assert_eq!(line_of(parse(text)), 2);
}

#[test]
fn reports_the_line_number_of_an_invalid_identifier() {
    let text = "BO_ 1 Ok: 8 E\n\nBO_ 2048 TooBig: 8 E\n";
    assert_eq!(line_of(parse(text)), 3);
}

#[test]
fn rejects_a_signal_wider_than_64_bits() {
    let text = "BO_ 256 M: 8 E\n SG_ Wide : 0|65@1+ (1,0) [0|0] \"\" X\n";
    assert_eq!(line_of(parse(text)), 2);
}

#[test]
fn rejects_a_zero_width_signal() {
    let text = "BO_ 256 M: 8 E\n SG_ Empty : 0|0@1+ (1,0) [0|0] \"\" X\n";
    assert_eq!(line_of(parse(text)), 2);
}

#[test]
fn rejects_a_signal_that_precedes_any_message() {
    let text = " SG_ Orphan : 0|8@1+ (1,0) [0|0] \"\" X\n";
    assert_eq!(line_of(parse(text)), 1);
}

#[test]
fn rejects_an_unknown_byte_order_or_sign() {
    assert_eq!(line_of(parse("BO_ 1 M: 8 E\n SG_ S : 0|8@2+ (1,0) [0|0] \"\" X\n")), 2);
    assert_eq!(line_of(parse("BO_ 1 M: 8 E\n SG_ S : 0|8@1* (1,0) [0|0] \"\" X\n")), 2);
}

#[test]
fn rejects_a_truncated_signal_record() {
    assert_eq!(line_of(parse("BO_ 1 M: 8 E\n SG_ S : 0|8@1\n")), 2);
    assert_eq!(line_of(parse("BO_ 1 M: 8 E\n SG_ S : 0|8@1+ (1,0)\n")), 2);
    assert_eq!(
        line_of(parse("BO_ 1 M: 8 E\n SG_ S : 0|8@1+ (1,0) [0|0] \"unterminated\n")),
        2
    );
}

#[test]
fn accepts_an_empty_unit_string() {
    let db = parse("BO_ 1 M: 8 E\n SG_ S : 0|8@1+ (1,0) [0|255] \"\" X\n").unwrap();
    assert_eq!(db.message(CanId::Standard(1)).unwrap().signals[0].unit, "");
}

#[test]
fn an_empty_document_is_an_empty_database() {
    assert!(parse("").unwrap().is_empty());
    assert!(parse("\n\n  \n").unwrap().is_empty());
}

#[test]
fn parse_errors_say_what_was_wrong() {
    let message = |text: &str| match parse(text) {
        Err(Error::DbcParse { message, .. }) => message,
        _ => panic!("expected a parse error"),
    };
    assert_eq!(
        message("BO_ 1 M: 8 E\n SG_ Broken : x|16@1+ (1,0) [0|0] \"\" X\n"),
        "`x` is not a valid start bit"
    );
    assert_eq!(
        message("BO_ 2048 TooBig: 8 E\n"),
        "invalid CAN identifier 0x800: no extended flag set but value exceeds 11 bits"
    );
    assert_eq!(
        message("BO_ 1 M: 8 E\n SG_ S : 0|65@1+ (1,0) [0|0] \"\" X\n"),
        "signal length 65 is outside the supported range 1..=64"
    );
    assert_eq!(
        message("BO_ 1 M: 8 E\n SG_ S : 0|8@2+ (1,0) [0|0] \"\" X\n"),
        "expected byte order 0 or 1 after `@`, found `2`"
    );
    assert_eq!(
        message("BO_ 1 M: 8 E\n SG_ S : 0|8@1\n"),
        "expected sign + or - after byte order, found end of line"
    );
    assert_eq!(
        message("BO_ 1 M: 8 E\n SG_ S : 0|8@1+ (1,0)\n"),
        "signal record has no `[` for minimum/maximum"
    );
    assert_eq!(
        message(" SG_ Orphan : 0|8@1+ (1,0) [0|0] \"\" X\n"),
        "SG_ record appears before any BO_ message"
    );
    assert_eq!(message("BO_ 1\n"), "message record has no name");
    assert_eq!(
        message("BO_ 1 M: 8 E\n SG_ S x : 0|8@1+ (1,0) [0|0] \"\" X\n"),
        "unexpected token `x` after signal name"
    );
}

#[test]
fn a_later_message_with_the_same_identifier_replaces_the_earlier() {
    let db = parse("BO_ 1 A: 8 E\nBO_ 2 B: 8 E\nBO_ 1 C: 4 E\n").unwrap();
    assert_eq!(db.len(), 2);
    assert_eq!(db.message(CanId::Standard(1)).unwrap().name, "C");
    assert_eq!(db.messages()[0].name, "C");
    assert_eq!(db.messages()[1].name, "B");
}
