use spatiax::dbc::{parse, Database};
use spatiax::output::{csv_field, id, timestamp, Format, Writer};
use spatiax::{CanFrame, CanId};

#[test]
fn identifiers_print_the_way_candump_writes_them() {
    assert_eq!(id(CanId::Standard(0x10)), "010");
    assert_eq!(id(CanId::Extended(0x10)), "00000010");
    assert_eq!(id(CanId::Extended(0x18FE_EE00)), "18FEEE00");
}

#[test]
fn timestamps_keep_six_digits_of_microseconds() {
    let frame = CanFrame::new(CanId::Standard(1), &[], 1_700_000_000_000_250).unwrap();
    assert_eq!(timestamp(&frame), "1700000000.000250");
    let zero = CanFrame::new(CanId::Standard(1), &[], 0).unwrap();
    assert_eq!(timestamp(&zero), "0.000000");
}

#[test]
fn csv_fields_are_quoted_only_when_they_need_to_be() {
    assert_eq!(csv_field("rpm"), "rpm");
    assert_eq!(csv_field(""), "");
    assert_eq!(csv_field("Not available"), "Not available");
    assert_eq!(csv_field("a,b"), "\"a,b\"");
    assert_eq!(csv_field("say \"hi\""), "\"say \"\"hi\"\"\"");
}

#[test]
fn line_breaks_are_quoted_too() {
    assert_eq!(csv_field("two\nlines"), "\"two\nlines\"");
    assert_eq!(csv_field("cr\r"), "\"cr\r\"");
}

fn database() -> Database {
    parse(
        "BO_ 256 Engine,Data: 8 ECU\n \
         SG_ EngineRPM : 0|16@1+ (1,0) [0|65535] \"rpm\" DASH\n \
         SG_ Gear : 16|8@1+ (1,0) [0|8] \"\" DASH\n",
    )
    .expect("fixture parses")
}

#[test]
fn text_groups_signals_under_their_frame() {
    let db = database();
    let frame = CanFrame::new(CanId::Standard(256), &[0x10, 0x27, 3], 1_500_000).unwrap();
    let message = db.message(CanId::Standard(256)).unwrap();
    let decoded = db.decode_frame(&frame).unwrap();
    let mut out = Writer::new(Format::Text);
    out.begin();
    out.frame(&frame, message);
    let rpm = decoded[0].as_ref().unwrap();
    let gear = decoded[1].as_ref().unwrap();
    out.signal(&frame, message, rpm, "10000");
    out.signal(&frame, message, gear, "3");
    assert_eq!(
        out.flush(),
        "1.500000 100 Engine,Data\n  EngineRPM: 10000 rpm\n  Gear: 3\n"
    );
    assert_eq!(out.flush(), "");
}

#[test]
fn csv_puts_one_signal_per_row_after_a_header() {
    let db = database();
    let frame = CanFrame::new(CanId::Standard(256), &[0x10, 0x27, 3], 1_500_000).unwrap();
    let message = db.message(CanId::Standard(256)).unwrap();
    let decoded = db.decode_frame(&frame).unwrap();
    let mut out = Writer::new(Format::Csv);
    out.begin();
    out.frame(&frame, message);
    out.signal(&frame, message, decoded[0].as_ref().unwrap(), "10000");
    assert_eq!(
        out.flush(),
        "timestamp,id,message,signal,raw,value,unit,label\n\
         1.500000,100,\"Engine,Data\",EngineRPM,10000,10000,rpm,\n"
    );
}
