use spatiax::telemetry::base::{ChannelId, TelemetryError};
use spatiax::telemetry::can::{
    extract_signal_value, CanDatabase, CanMessage, CanSignal, SignalByteOrder, SignalReading,
    SignalValueType,
};
use spatiax::telemetry::database::{DatabaseManager, DatabaseValidator, ValidationErrorType};
use spatiax::telemetry::decoder::{create_automotive_database, CanDatabaseBuilder, DbcParser};

fn signal(name: &str, start_bit: u8, length: u8, order: SignalByteOrder, kind: SignalValueType) -> CanSignal {
    CanSignal {
        name: name.to_string(),
        channel_id: ChannelId(1),
        start_bit,
        length,
        byte_order: order,
        value_type: kind,
        scale: 1.0f64.to_bits(),
        offset: 0.0f64.to_bits(),
        min_value: None,
        max_value: None,
        unit: String::new(),
        multiplexer: None,
    }
}

fn intel(start: u8, length: u8) -> CanSignal {
    signal("S", start, length, SignalByteOrder::Intel, SignalValueType::Unsigned)
}

#[test]
fn motorola_signals_walk_down_from_their_start_bit() {
    let data = [0x12, 0x34, 0, 0, 0, 0, 0, 0];
    assert_eq!(extract_signal_value(&data, &intel(0, 16)), Ok(SignalReading::Unsigned(0x3412)));
    // The most significant bit sits at bit 7 of byte 0; the walk goes down
    // that byte and goes on at bit 7 of byte 1.
    let moto = signal("M", 7, 16, SignalByteOrder::Motorola, SignalValueType::Unsigned);
    assert_eq!(extract_signal_value(&data, &moto), Ok(SignalReading::Unsigned(0x1234)));
    // Four bits from position 4: Intel takes bits 4 to 7 of byte 0,
    // Motorola takes bits 4 down to 1.
    assert_eq!(extract_signal_value(&data, &intel(4, 4)), Ok(SignalReading::Unsigned(0x1)));
    let nibble = signal("M", 4, 4, SignalByteOrder::Motorola, SignalValueType::Unsigned);
    assert_eq!(extract_signal_value(&data, &nibble), Ok(SignalReading::Unsigned(0x9)));
    // From bit 0 the walk leaves byte 0 at once: 16 bits reach byte 2.
    let low = signal("M", 0, 16, SignalByteOrder::Motorola, SignalValueType::Unsigned);
    assert_eq!(
        extract_signal_value(&[0x12, 0x34], &low),
        Err("Signal extends beyond data length: end_byte=2, data_len=2".to_string())
    );
    assert_eq!(extract_signal_value(&[0x01, 0x34, 0x80], &low), Ok(SignalReading::Unsigned(0x9A40)));
}

#[test]
fn signed_signals_are_sign_extended_only_below_64_bits() {
    let neg = signal("T", 0, 8, SignalByteOrder::Intel, SignalValueType::Signed);
    assert_eq!(extract_signal_value(&[0xFF], &neg), Ok(SignalReading::Signed(-1)));
    assert_eq!(extract_signal_value(&[0x7F], &neg), Ok(SignalReading::Unsigned(0x7F)));
    let twelve = signal("T", 0, 12, SignalByteOrder::Intel, SignalValueType::Signed);
    assert_eq!(extract_signal_value(&[0x00, 0x08], &twelve), Ok(SignalReading::Signed(-2048)));
    let wide = signal("W", 0, 64, SignalByteOrder::Intel, SignalValueType::Signed);
    assert_eq!(extract_signal_value(&[0xFF; 8], &wide), Ok(SignalReading::Unsigned(u64::MAX)));
}

#[test]
fn unreadable_signals_are_errors_with_messages() {
    assert_eq!(extract_signal_value(&[], &intel(0, 8)), Err("Empty data".to_string()));
    assert_eq!(
        extract_signal_value(&[1], &intel(0, 0)),
        Err("Invalid signal length: 0".to_string())
    );
    assert_eq!(
        extract_signal_value(&[1], &intel(0, 65)),
        Err("Invalid signal length: 65".to_string())
    );
    assert_eq!(
        extract_signal_value(&[1], &intel(8, 8)),
        Err("Signal extends beyond data length: end_byte=1, data_len=1".to_string())
    );
}

#[test]
fn a_message_finds_the_first_signal_of_a_name() {
    let mut message = CanMessage::new(0x100, "Engine".to_string(), 8);
    assert_eq!(message.sender, "");
    assert_eq!(message.cycle_time, None);
    message.add_signal(signal("Rpm", 0, 16, SignalByteOrder::Intel, SignalValueType::Unsigned));
    message.add_signal(signal("Rpm", 16, 8, SignalByteOrder::Intel, SignalValueType::Unsigned));
    assert_eq!(message.signals.len(), 2);
    assert_eq!(message.get_signal("Rpm").unwrap().start_bit, 0);
    assert!(message.get_signal("Load").is_none());
}

#[test]
fn a_database_replaces_messages_by_identifier_and_indexes_signal_names() {
    let mut db = CanDatabase::new();
    let mut first = CanMessage::new(0x100, "A".to_string(), 8);
    first.add_signal(intel(0, 8));
    db.add_message(first);
    let mut second = CanMessage::new(0x200, "B".to_string(), 8);
    second.add_signal(signal("T", 8, 8, SignalByteOrder::Intel, SignalValueType::Unsigned));
    db.add_message(second);
    assert_eq!(db.message_count(), 2);
    assert_eq!(db.signal_count(), 2);
    assert_eq!(db.get_signal_by_name("T").unwrap().start_bit, 8);
    assert_eq!(db.get_message(0x200).unwrap().name, "B");
    assert!(db.get_message(0x300).is_none());

    // Redefining 0x100 without its signal leaves the name indexed but unfound.
    db.add_message(CanMessage::new(0x100, "A2".to_string(), 4));
    assert_eq!(db.message_count(), 2);
    assert_eq!(db.get_message(0x100).unwrap().name, "A2");
    assert_eq!(db.signal_count(), 2);
    assert!(db.get_signal_by_name("S").is_none());
    let names: Vec<&str> = db.get_all_messages().iter().map(|m| m.name.as_str()).collect();
    assert_eq!(names, ["A2", "B"]);
}

fn number(text: &str) -> u64 {
    text.parse::<f64>().map(f64::to_bits).unwrap_or(0)
}

#[test]
fn the_telemetry_reader_takes_message_and_signal_records_and_skips_the_rest() {
    let text = "VERSION \"\"\n\
                # a comment\n\
                SG_ Orphan : 0|8@1+ (1,0) [0|1] \"\" X\n\
                BO_ 256 EngineData: 8 ECU\n \
                SG_ EngineRPM : 0|16@1+ (0.25,0) [0|16383.75] \"rpm\" DASH\n\
                \r\n\
                BO_ 512 Brakes: 4\r\n\
                BO_ 256 EngineAgain:: 6 ECU2\n";
    let db = DbcParser::parse_file(text, number).unwrap();
    assert_eq!(db.message_count(), 2);
    // The name still points at message 256, which no longer holds it.
    assert_eq!(db.signal_count(), 1);
    assert!(db.get_signal_by_name("EngineRPM").is_none());
    let engine = db.get_message(256).unwrap();
    assert_eq!(engine.name, "EngineAgain");
    assert_eq!(engine.length, 6);
    assert_eq!(engine.sender, "ECU2");
    assert!(engine.signals.is_empty());
    let brakes = db.get_message(512).unwrap();
    assert_eq!(brakes.length, 4);
    assert_eq!(brakes.sender, "");
    let order: Vec<u32> = db.get_all_messages().iter().map(|m| m.id).collect();
    assert_eq!(order, [256, 512]);
}

#[test]
fn signal_records_are_loaded_under_their_message() {
    let text = "BO_ 256 EngineData: 8 ECU\n SG_ EngineRPM : 0|16@1+ (0.25,0) [0|16383.75] \"rpm\" DASH\n";
    let db = DbcParser::parse_file(text, number).unwrap();
    assert_eq!(db.message_count(), 1);
    assert_eq!(db.signal_count(), 1);
    let rpm = db.get_signal_by_name("EngineRPM").unwrap();
    assert_eq!(rpm.channel_id, ChannelId(1));
    assert_eq!((rpm.start_bit, rpm.length), (0, 16));
    assert_eq!(rpm.byte_order, SignalByteOrder::Intel);
    assert_eq!(rpm.value_type, SignalValueType::Unsigned);
    assert_eq!(rpm.scale, 0.25f64.to_bits());
    assert_eq!(rpm.offset, 0.0f64.to_bits());
    assert_eq!(rpm.min_value, Some(0.0f64.to_bits()));
    assert_eq!(rpm.max_value, Some(16383.75f64.to_bits()));
    assert_eq!(rpm.unit, "rpm");
    assert_eq!(db.get_message(256).unwrap().signals.len(), 1);
}

#[test]
fn signals_are_numbered_across_messages_in_reading_order() {
    let text = "BO_ 1 A: 8 E\n SG_ X : 7|16@0- (2,-1) \"\" R\n SG_ Y : 16|8@1+ (oops,1) [a|b] \"\" R\n\
                BO_ 2 B: 8 E\n SG_ Z : 0|1@1+ \"on\" R\n";
    let db = DbcParser::parse_file(text, number).unwrap();
    assert_eq!(db.signal_count(), 3);
    let x = db.get_signal_by_name("X").unwrap();
    assert_eq!(x.channel_id, ChannelId(1));
    assert_eq!(x.byte_order, SignalByteOrder::Motorola);
    assert_eq!(x.value_type, SignalValueType::Signed);
    assert_eq!(x.scale, 2.0f64.to_bits());
    assert_eq!(x.offset, (-1.0f64).to_bits());
    assert_eq!((x.min_value, x.max_value), (None, None));
    let y = db.get_signal_by_name("Y").unwrap();
    assert_eq!(y.channel_id, ChannelId(2));
    // A scale that is not a number is 1; limits that are not numbers are absent.
    assert_eq!(y.scale, 1.0f64.to_bits());
    assert_eq!(y.offset, 1.0f64.to_bits());
    assert_eq!((y.min_value, y.max_value), (None, None));
    let z = db.get_signal_by_name("Z").unwrap();
    assert_eq!(z.channel_id, ChannelId(3));
    assert_eq!(z.unit, "on");
    assert_eq!(z.scale, 1.0f64.to_bits());
    assert_eq!(z.offset, 0.0f64.to_bits());
}

#[test]
fn extended_message_identifiers_lose_the_dbc_flag_bit() {
    let db = DbcParser::parse_file("BO_ 2566843904 Diag: 8 ECU\n", number).unwrap();
    let diag = db.get_message(0x18FE_EE00).unwrap();
    assert_eq!(diag.name, "Diag");
    assert_eq!(diag.length, 8);
    assert_eq!(diag.sender, "ECU");
    assert!(db.get_message(0x98FE_EE00).is_none());
}

#[test]
fn a_signal_record_reads_on_its_own_and_moves_the_counter() {
    let mut counter = 7;
    let line = DbcParser::parse_signal_line(" SG_ Temp : 8|8@1- (0.5,-40) [-40|87.5] \"degC\" DASH", &mut counter)
        .unwrap();
    assert_eq!(counter, 8);
    assert_eq!(line.name, "Temp");
    assert_eq!(line.channel_id, ChannelId(7));
    assert_eq!((line.start_bit, line.length), (8, 8));
    assert_eq!(line.value_type, SignalValueType::Signed);
    assert_eq!(line.byte_order, SignalByteOrder::Intel);
    assert_eq!(line.scale.as_deref(), Some("0.5"));
    assert_eq!(line.offset.as_deref(), Some("-40"));
    assert_eq!(line.min_value.as_deref(), Some("-40"));
    assert_eq!(line.max_value.as_deref(), Some("87.5"));
    assert_eq!(line.unit, "degC");
}

#[test]
fn malformed_signal_records_are_refused_with_their_text() {
    let mut counter = 1;
    let cases = [
        ("SG_ NoColon 0|8@1+", "Missing colon in signal line: NoColon 0|8@1+"),
        ("SG_ S : 0 8@1+", "Missing pipe in signal definition: 0 8@1+"),
        ("SG_ S : x|8@1+", "Invalid start bit: x"),
        ("SG_ S : 0|8 1+", "Missing @ in signal definition: 0|8 1+"),
        ("SG_ S : 0|300@1+", "Invalid length: 300"),
    ];
    for (line, message) in cases {
        assert_eq!(DbcParser::parse_signal_line(line, &mut counter).unwrap_err(), format_error(message));
    }
    assert_eq!(counter, 1);
    assert_eq!(
        DbcParser::parse_file("BO_ 1 A: 8 E\n SG_ S : 0|8 1+\n", number).unwrap_err(),
        format_error("Missing @ in signal definition: 0|8 1+")
    );
}

fn format_error(message: &str) -> TelemetryError {
    TelemetryError::InvalidDataFormat { message: message.to_string() }
}

#[test]
fn malformed_message_records_are_refused_with_their_text() {
    assert_eq!(
        DbcParser::parse_file("BO_ 1 Short:\n", number).unwrap_err(),
        format_error("Invalid message line: BO_ 1 Short:")
    );
    assert_eq!(
        DbcParser::parse_file("  BO_ 0x10 Hex: 8 ECU  \n", number).unwrap_err(),
        format_error("Invalid message ID: 0x10")
    );
    assert_eq!(
        DbcParser::parse_file("BO_ 16 Big: 300 ECU\n", number).unwrap_err(),
        format_error("Invalid DLC: 300")
    );
    assert_eq!(DbcParser::parse_file("", number).unwrap().message_count(), 0);
}

#[test]
fn builders_number_channels_in_the_order_signals_are_added() {
    let db = CanDatabaseBuilder::new()
        .add_message(0x100, "Engine_Data", 8)
        .add_signal("Engine_RPM", 0, 16, 0.25f64.to_bits(), 0.0f64.to_bits(), "rpm")
        .add_signal("Engine_Load", 16, 8, 0.4f64.to_bits(), 0.0f64.to_bits(), "%")
        .with_cycle_time(10)
        .with_sender("ECU")
        .finish_message()
        .add_message(0x500, "Suspension", 8)
        .add_signed_signal("Front_Left_Damper", 0, 16, 0.01f64.to_bits(), 0.0f64.to_bits(), "mm")
        .finish_message()
        .build();
    assert_eq!(db.message_count(), 2);
    let engine = db.get_message(0x100).unwrap();
    assert_eq!(engine.cycle_time, Some(10));
    assert_eq!(engine.sender, "ECU");
    assert_eq!(engine.signals[1].channel_id, ChannelId(2));
    assert_eq!(f64::from_bits(engine.signals[0].scale), 0.25);
    let damper = db.get_signal_by_name("Front_Left_Damper").unwrap();
    assert_eq!(damper.channel_id, ChannelId(3));
    assert_eq!(damper.value_type, SignalValueType::Signed);
    assert_eq!(damper.byte_order, SignalByteOrder::Intel);
}

fn inverted_range(s: &CanSignal) -> Option<String> {
    match (s.min_value, s.max_value) {
        (Some(min), Some(max)) if f64::from_bits(min) >= f64::from_bits(max) => Some(format!(
            "Signal '{}' has invalid range: min={}, max={}",
            s.name,
            f64::from_bits(min),
            f64::from_bits(max)
        )),
        _ => None,
    }
}

#[test]
fn validation_reports_each_problem_in_message_order() {
    let mut db = CanDatabase::new();
    let mut good = CanMessage::new(0x100, "Good".to_string(), 8);
    good.add_signal(intel(0, 8));
    db.add_message(good);
    let mut bad = CanMessage::new(0x2000_0000, "Bad".to_string(), 9);
    bad.add_signal(signal("Past", 70, 8, SignalByteOrder::Intel, SignalValueType::Unsigned));
    bad.add_signal(signal("Zero", 5, 0, SignalByteOrder::Intel, SignalValueType::Unsigned));
    let mut limits = intel(0, 8);
    limits.name = "Limits".to_string();
    limits.min_value = Some(10.0f64.to_bits());
    limits.max_value = Some(2.0f64.to_bits());
    bad.add_signal(limits);
    db.add_message(bad);

    let errors = DatabaseValidator::validate(&db, inverted_range);
    let kinds: Vec<ValidationErrorType> = errors.iter().map(|e| e.error_type).collect();
    assert_eq!(
        kinds,
        [
            ValidationErrorType::InvalidMessageId,
            ValidationErrorType::InvalidDlc,
            ValidationErrorType::SignalOutOfBounds,
            ValidationErrorType::InvalidSignalLength,
            ValidationErrorType::InvalidRange,
        ]
    );
    assert_eq!(errors[0].description, "Message ID 0x20000000 exceeds maximum CAN ID");
    assert_eq!(errors[0].signal_name, None);
    assert_eq!(errors[1].description, "DLC 9 exceeds maximum of 8 bytes");
    assert_eq!(
        errors[2].description,
        "Signal 'Past' extends beyond message boundaries (bit 77 > max bit 71)"
    );
    assert_eq!(errors[3].description, "Signal 'Zero' has invalid length: 0");
    assert_eq!(errors[4].description, "Signal 'Limits' has invalid range: min=10, max=2");
    assert_eq!(errors[4].signal_name.as_deref(), Some("Limits"));
    assert!(errors.iter().all(|e| e.message_id == Some(0x2000_0000)));
}

#[test]
fn the_first_database_added_is_active_until_another_is_chosen() {
    let mut manager = DatabaseManager::new();
    assert!(manager.get_active_database().is_none());
    manager.add_database("race", DbcParser::parse_file("BO_ 1 A: 8 X\n", number).unwrap());
    manager.add_database("test", DbcParser::parse_file("BO_ 2 B: 8 X\nBO_ 3 C: 8 X\n", number).unwrap());
    assert_eq!(manager.get_active_database().unwrap().message_count(), 1);
    assert_eq!(manager.list_databases(), ["race", "test"]);
    manager.set_active_database("test").unwrap();
    assert_eq!(manager.get_active_database().unwrap().message_count(), 2);
    assert_eq!(
        manager.set_active_database("dev"),
        Err(TelemetryError::ConfigError { message: "Database 'dev' not found".to_string() })
    );
    let stats = manager.get_stats();
    assert_eq!(stats.database_count, 2);
    assert_eq!(stats.total_messages, 3);
    assert_eq!(stats.total_signals, 0);
    assert_eq!(stats.active_database.as_deref(), Some("test"));
    // Replacing a database keeps its place and the active choice.
    manager.add_database("race", CanDatabase::new());
    assert_eq!(manager.list_databases(), ["race", "test"]);
    assert_eq!(manager.get_database("race").unwrap().message_count(), 0);
    assert!(manager.get_database("dev").is_none());
}

#[test]
fn only_a_record_with_its_limits_reversed_under_a_message_makes_reading_panic() {
    let reversed = " SG_ S : 0|8@1+ (1,0) ]0|1[ \"\" X\n";
    assert!(DbcParser::panics_on(&format!("BO_ 1 A: 8 E\n{reversed}")));
    assert!(!DbcParser::panics_on(reversed));
    assert!(!DbcParser::panics_on("BO_ 1 A: 8 E\n SG_ S : 0|8@1+ (1,0) [0|1] \"\" X\n"));
    assert!(!DbcParser::panics_on(&format!("BO_ 1 A: 8\n SG_ S : x|8@1+\n{reversed}")));
}

#[test]
fn the_sample_automotive_database_holds_five_messages_and_sixteen_signals() {
    let db = create_automotive_database();
    assert_eq!(db.message_count(), 5);
    assert_eq!(db.signal_count(), 16);
    let ids: Vec<u32> = db.get_all_messages().iter().map(|m| m.id).collect();
    assert_eq!(ids, [0x100, 0x200, 0x300, 0x400, 0x500]);
    let engine = db.get_message(0x100).unwrap();
    assert_eq!((engine.name.as_str(), engine.sender.as_str(), engine.cycle_time), ("Engine_Data", "ECU", Some(10)));
    let rpm = db.get_signal_by_name("Engine_RPM").unwrap();
    assert_eq!((rpm.channel_id, rpm.start_bit, rpm.length), (ChannelId(1), 0, 16));
    assert_eq!(rpm.scale, 0.25f64.to_bits());
    let coolant = db.get_signal_by_name("Coolant_Temp").unwrap();
    assert_eq!(coolant.offset, (-40.0f64).to_bits());
    assert_eq!(coolant.unit, "°C");
    let damper = db.get_signal_by_name("Rear_Right_Damper").unwrap();
    assert_eq!(damper.channel_id, ChannelId(16));
    assert_eq!(damper.value_type, SignalValueType::Signed);
    assert_eq!(damper.scale, 0.01f64.to_bits());
    assert_eq!(db.get_signal_by_name("Fuel_Pressure").unwrap().scale, 0.1f64.to_bits());
    assert_eq!(db.get_signal_by_name("Engine_Load").unwrap().scale, 0.4f64.to_bits());
    assert_eq!(db.get_message(0x500).unwrap().cycle_time, Some(5));
}
