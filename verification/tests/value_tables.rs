use spatiax::dbc::{parse, Database, Decoded};
use spatiax::output::{Format, Writer};
use spatiax::{CanFrame, CanId, Error};

const GEARBOX: &str = "BO_ 512 Gearbox: 8 TCU\n \
                       SG_ Gear : 0|4@1- (1,0) [-1|7] \"\" DASH\n \
                       SG_ Mode : 8|8@1+ (1,0) [0|3] \"\" DASH\n\
                       VAL_ 512 Gear -1 \"Reverse\" 0 \"Neutral\" 1 \"First\" ;\n\
                       VAL_ 512 Mode 0 \"Road\" 1 \"Track  wet\" 2 \"\" ;\n";

fn decode<'a>(db: &'a Database, payload: &[u8]) -> Vec<Decoded<'a>> {
    let frame = CanFrame::new(CanId::Standard(512), payload, 0).unwrap();
    db.decode_frame(&frame).unwrap().into_iter().map(|r| r.unwrap()).collect()
}

#[test]
fn parses_value_tables_onto_their_signal() {
    let db = parse(GEARBOX).unwrap();
    let message = db.message(CanId::Standard(512)).unwrap();
    let gear = message.signal("Gear").unwrap();
    let labels: Vec<(i64, &str)> = gear.value_table.iter().map(|(v, t)| (*v, t.as_str())).collect();
    assert_eq!(labels, [(-1, "Reverse"), (0, "Neutral"), (1, "First")]);
    let mode = message.signal("Mode").unwrap();
    assert_eq!(mode.value_table.len(), 3);
    assert_eq!(mode.value_table[1].1, "Track  wet");
    assert_eq!(mode.value_table[2].1, "");
}

#[test]
fn labels_match_the_sign_interpreted_raw_value() {
    let db = parse(GEARBOX).unwrap();
    // Gear is a signed 4-bit signal: raw 0xF is -1.
    let decoded = decode(&db, &[0x0F, 0x01]);
    assert_eq!(decoded[0].raw, 0xF);
    assert_eq!(decoded[0].label(), Some("Reverse"));
    assert_eq!(decoded[1].label(), Some("Track  wet"));
    let decoded = decode(&db, &[0x01, 0x07]);
    assert_eq!(decoded[0].label(), Some("First"));
    assert_eq!(decoded[1].label(), None);
}

#[test]
fn a_later_value_table_and_a_repeated_value_take_precedence() {
    let text = format!("{GEARBOX}VAL_ 512 Mode 3 \"Pit\" 3 \"Pit lane\";\n");
    let db = parse(&text).unwrap();
    let decoded = decode(&db, &[0x00, 0x03]);
    assert_eq!(decoded[1].label(), Some("Pit lane"));
    assert_eq!(decoded[1].signal.value_table.len(), 2);
}

#[test]
fn a_value_table_reaches_a_message_already_finished() {
    let text = "BO_ 512 Gearbox: 8 TCU\n \
                SG_ Gear : 0|4@1- (1,0) [-1|7] \"\" DASH\n\
                BO_ 513 Other: 8 TCU\n\
                VAL_ 512 Gear 2 \"Second\";\n";
    let db = parse(text).unwrap();
    assert_eq!(decode(&db, &[0x02])[0].label(), Some("Second"));
}

#[test]
fn a_value_table_for_something_undefined_is_skipped() {
    let text = format!("{GEARBOX}VAL_ 999 Gear 0 \"x\";\nVAL_ 512 Nothing 0 \"x\";\n");
    let db = parse(&text).unwrap();
    assert_eq!(db.len(), 1);
    assert_eq!(db.signal_count(), 2);
}

#[test]
fn a_malformed_value_table_is_reported_with_its_line() {
    let cases = [
        ("VAL_ 512\n", "value table record has no signal name"),
        ("VAL_ 512 Gear one \"One\";\n", "`one` is not a valid value"),
        ("VAL_ 512 Gear 1 One;\n", "value 1 has no quoted description"),
        ("VAL_ 512 Gear 1 \"One;\n", "unterminated description for value 1"),
    ];
    for (record, message) in cases {
        let text = format!("{GEARBOX}{record}");
        match parse(&text) {
            Err(Error::DbcParse { line, message: m }) => {
                assert_eq!(line, 6, "{record:?}");
                assert_eq!(m, message, "{record:?}");
            }
            other => panic!("expected a parse error for {record:?}, got {other:?}"),
        }
    }
}

#[test]
fn labels_show_in_both_output_formats() {
    let db = parse(GEARBOX).unwrap();
    let frame = CanFrame::new(CanId::Standard(512), &[0x00, 0x02], 1).unwrap();
    let message = db.message(CanId::Standard(512)).unwrap();
    let decoded = decode(&db, &[0x00, 0x02]);
    let mut text = Writer::new(Format::Text);
    text.signal(&frame, message, &decoded[0], "0");
    assert_eq!(text.flush(), "  Gear: Neutral (0)\n");
    let mut csv = Writer::new(Format::Csv);
    csv.signal(&frame, message, &decoded[1], "2");
    assert_eq!(csv.flush(), "0.000001,200,Gearbox,Mode,2,2,,\n");
}

#[test]
fn extended_multiplexing_is_refused_rather_than_decoded_wrongly() {
    let text = format!("{GEARBOX}SG_MUL_VAL_ 512 Gear Mode 1-2;\n");
    match parse(&text) {
        Err(Error::DbcParse { line, message }) => {
            assert_eq!(line, 6);
            assert_eq!(message, "extended multiplexing (`SG_MUL_VAL_`) is not supported");
        }
        other => panic!("expected a parse error, got {other:?}"),
    }
    let nested = "BO_ 1 M: 8 X\n SG_ Page m1M : 0|8@1+ (1,0) [0|0] \"\" X\n";
    assert!(matches!(parse(nested), Err(Error::DbcParse { line: 2, .. })));
}
