use spatiax::dbc::types::{sign_extend, twos_complement};
use spatiax::dbc::{parse, ByteOrder, Database, Decoded, Message, Multiplexing, Signal, ValueType};
use spatiax::{CanFrame, CanId, Error};

const DBC: &str = "BO_ 256 EngineData: 8 ECU\n \
                   SG_ EngineRPM : 0|16@1+ (0.25,0) [0|16383.75] \"rpm\" DASH\n \
                   SG_ CoolantTemp : 16|8@1+ (0.5,-40) [-40|87.5] \"degC\" DASH\n";

const MUXED: &str = "BO_ 768 Susp: 8 ECU\n \
                     SG_ Plain : 56|8@1+ (1,0) [0|255] \"\" X\n \
                     SG_ Page M : 0|8@1+ (1,0) [0|255] \"\" X\n \
                     SG_ PosFL m0 : 8|16@1- (0.1,0) [0|0] \"mm\" X\n \
                     SG_ PosFR m1 : 8|16@1- (0.1,0) [0|0] \"mm\" X\n";

fn decode_all<'a>(db: &'a Database, frame: &CanFrame) -> Vec<Result<Decoded<'a>, Error>> {
    db.decode_frame(frame).expect("message is defined")
}

/// Physical value: the raw value, sign-extended for a signed signal, times
/// the factor plus the offset.
fn value(d: &Decoded<'_>) -> f64 {
    let s = d.signal;
    let numeric = match s.value_type {
        ValueType::Unsigned => d.raw as f64,
        ValueType::Signed => sign_extend(d.raw, s.length) as f64,
    };
    numeric * s.factor.parse::<f64>().unwrap() + s.offset.parse::<f64>().unwrap()
}

fn names(decoded: &[Result<Decoded<'_>, Error>]) -> Vec<String> {
    decoded
        .iter()
        .map(|d| d.as_ref().unwrap().signal.name.clone())
        .collect()
}

fn sig(length: u8, value_type: ValueType) -> Signal {
    Signal {
        name: "T".into(),
        start_bit: 0,
        length,
        byte_order: ByteOrder::Intel,
        value_type,
        factor: "1".into(),
        offset: "0".into(),
        min: "0".into(),
        max: "0".into(),
        unit: String::new(),
        multiplexing: Multiplexing::Plain,
        value_table: Vec::new(),
    }
}

fn msg(id: u16, signals: Vec<Signal>) -> Message {
    Message {
        id: CanId::Standard(id),
        name: format!("M{id}"),
        dlc: 8,
        sender: String::new(),
        signals,
    }
}

#[test]
fn decodes_every_signal_of_a_known_frame() {
    let db = parse(DBC).unwrap();
    let frame =
        CanFrame::new(CanId::Standard(256), &[0x34, 0x12, 0x64, 0, 0, 0, 0, 0], 0).unwrap();

    let decoded = decode_all(&db, &frame);
    assert_eq!(decoded.len(), 2);

    let rpm = decoded[0].as_ref().unwrap();
    assert_eq!(rpm.signal.name, "EngineRPM");
    assert_eq!(rpm.raw, 0x1234);
    assert_eq!(value(rpm), 1165.0);

    let temp = decoded[1].as_ref().unwrap();
    assert_eq!(temp.signal.name, "CoolantTemp");
    assert_eq!(temp.raw, 100);
    assert_eq!(value(temp), 10.0);
}

#[test]
fn an_unknown_identifier_is_none_rather_than_an_error() {
    let db = parse(DBC).unwrap();
    let frame = CanFrame::new(CanId::Standard(0x7FF), &[0; 8], 0).unwrap();
    assert!(db.decode_frame(&frame).is_none());
}

#[test]
fn a_standard_id_does_not_match_an_extended_message_of_equal_value() {
    let db = parse("BO_ 2147483904 Ext: 8 E\n SG_ S : 0|8@1+ (1,0) [0|0] \"\" X\n").unwrap();
    assert!(db.message(CanId::Extended(256)).is_some());

    let frame = CanFrame::new(CanId::Standard(256), &[0; 8], 0).unwrap();
    assert!(db.decode_frame(&frame).is_none());
}

#[test]
fn a_short_frame_still_yields_the_signals_that_fit() {
    let db = parse(DBC).unwrap();
    let frame = CanFrame::new(CanId::Standard(256), &[0x34, 0x12], 0).unwrap();

    let decoded = decode_all(&db, &frame);
    assert_eq!(decoded[0].as_ref().unwrap().raw, 0x1234);
    assert!(decoded[1].is_err());
}

#[test]
fn a_message_with_no_signals_yields_an_empty_iterator() {
    let db = parse("BO_ 1 Empty: 8 E\n").unwrap();
    let frame = CanFrame::new(CanId::Standard(1), &[0; 8], 0).unwrap();
    assert_eq!(db.decode_frame(&frame).unwrap().len(), 0);
}

#[test]
fn the_multiplexor_value_selects_which_page_decodes() {
    let db = parse(MUXED).unwrap();
    let page0 = CanFrame::new(CanId::Standard(768), &[0, 0x34, 0x12, 0, 0, 0, 0, 9], 0).unwrap();
    let page1 = CanFrame::new(CanId::Standard(768), &[1, 0x34, 0x12, 0, 0, 0, 0, 9], 0).unwrap();

    let decoded = decode_all(&db, &page0);
    assert_eq!(names(&decoded), ["Plain", "Page", "PosFL"]);
    assert_eq!(decoded[2].as_ref().unwrap().raw, 0x1234);

    assert_eq!(names(&decode_all(&db, &page1)), ["Plain", "Page", "PosFR"]);
}

#[test]
fn an_unclaimed_selector_yields_only_the_plain_signals_and_the_multiplexor() {
    let db = parse(MUXED).unwrap();
    let frame = CanFrame::new(CanId::Standard(768), &[7, 0, 0, 0, 0, 0, 0, 9], 0).unwrap();
    assert_eq!(names(&decode_all(&db, &frame)), ["Plain", "Page"]);
}

#[test]
fn multiplexed_signals_are_skipped_when_the_multiplexor_does_not_fit() {
    let text = "BO_ 1 A: 8 E\n \
                SG_ Page M : 56|8@1+ (1,0) [0|0] \"\" X\n \
                SG_ Low m0 : 0|8@1+ (1,0) [0|0] \"\" X\n";
    let db = parse(text).unwrap();
    let frame = CanFrame::new(CanId::Standard(1), &[0], 0).unwrap();

    let decoded = decode_all(&db, &frame);
    assert_eq!(decoded.len(), 1);
    assert!(matches!(
        decoded[0],
        Err(Error::SignalOutOfBounds { ref signal, .. }) if signal == "Page"
    ));
}

#[test]
fn a_multiplexed_signal_without_any_multiplexor_decodes_as_plain() {
    let db = parse("BO_ 1 A: 8 E\n SG_ S m3 : 0|8@1+ (1,0) [0|0] \"\" X\n").unwrap();
    let frame = CanFrame::new(CanId::Standard(1), &[0x2A; 8], 0).unwrap();
    let decoded = decode_all(&db, &frame);
    assert_eq!(decoded.len(), 1);
    assert_eq!(decoded[0].as_ref().unwrap().raw, 0x2A);
}

#[test]
fn message_decode_is_usable_without_a_frame() {
    let db = parse(MUXED).unwrap();
    let message = db.message(CanId::Standard(768)).unwrap();
    let count = message.decode(&[1, 0, 0, 0, 0, 0, 0, 0]).len();
    assert_eq!(count, 3);
}

#[test]
fn signal_count_sums_across_messages() {
    let one = || sig(8, ValueType::Unsigned);
    let mut db = Database::new();
    db.insert(msg(1, vec![one()]));
    db.insert(msg(2, vec![one(), one()]));
    assert_eq!(db.len(), 2);
    assert_eq!(db.signal_count(), 3);
}

#[test]
fn inserting_the_same_id_twice_replaces_the_definition() {
    let mut db = Database::new();
    db.insert(msg(1, vec![]));
    db.insert(msg(1, vec![sig(8, ValueType::Unsigned)]));
    assert_eq!(db.len(), 1);
    assert_eq!(db.signal_count(), 1);
}

#[test]
fn empty_database_reports_empty() {
    let db = Database::new();
    assert!(db.is_empty());
    assert!(db.message(CanId::Standard(1)).is_none());
    assert_eq!(db.messages().len(), 0);
}

#[test]
fn signed_raw_values_sign_extend_from_the_signal_width() {
    assert_eq!(sign_extend(0xFFF, 12), -1);
    assert_eq!(sign_extend(0x7FF, 12), 2047);
    assert_eq!(sign_extend(u64::MAX, 64), -1);
    assert_eq!(sign_extend(1, 1), -1);
    assert_eq!(sign_extend(0, 1), 0);
}

#[test]
fn twos_complement_patterns_fit_the_signal_width_and_invert_sign_extension() {
    assert_eq!(twos_complement(-1, 12), 0xFFF);
    assert_eq!(twos_complement(-2048, 12), 0x800);
    assert_eq!(twos_complement(2047, 12), 0x7FF);
    assert_eq!(twos_complement(-1, 1), 1);
    assert_eq!(twos_complement(-1, 64), u64::MAX);
    for n in [-2048i64, -1, 0, 1, 2047] {
        assert_eq!(sign_extend(twos_complement(n, 12), 12), n);
    }
}

#[test]
fn a_message_finds_its_signals_and_its_multiplexor() {
    let db = parse(MUXED).unwrap();
    let message = db.message(CanId::Standard(768)).unwrap();
    assert_eq!(message.signal("PosFR").unwrap().start_bit, 8);
    assert!(message.signal("Missing").is_none());
    assert_eq!(message.multiplexor().unwrap().name, "Page");
    let plain = parse(DBC).unwrap();
    assert!(plain.message(CanId::Standard(256)).unwrap().multiplexor().is_none());
}
