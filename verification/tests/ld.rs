use spatiax::dbc::{parse, Signal};
use spatiax::ld::sample::{resample, sample, Sampled, RATE_LADDER};
use spatiax::ld::writer::{
    date_and_time, CHAN_LEN, EVENT_LEN, EVENT_PTR, HEAD_LEN, MARKER, META_PTR, PRO_LOGGING,
};
use spatiax::ld::{Channel, Session, NAME_LEN, SHORT_NAME_LEN, UNIT_LEN};
use spatiax::{CanFrame, CanId, Database, Error};

fn bits(values: &[f32]) -> Vec<u32> {
    values.iter().map(|v| v.to_bits()).collect()
}

fn floats(samples: &[u32]) -> Vec<f32> {
    samples.iter().map(|b| f32::from_bits(*b)).collect()
}

// ---- channels and sessions ----

#[test]
fn a_long_name_is_cut_to_the_field_the_format_provides() {
    let channel = Channel::new(&"N".repeat(40), "rpm", bits(&[1.0]));
    assert_eq!(channel.name.len(), NAME_LEN);
    assert_eq!(channel.short_name.len(), SHORT_NAME_LEN);
}

#[test]
fn the_short_name_is_the_head_of_the_full_name() {
    let channel = Channel::new("EngineSpeed", "rpm", vec![]);
    assert_eq!(channel.name, "EngineSpeed");
    assert_eq!(channel.short_name, "EngineSp");
}

#[test]
fn a_unit_the_readers_cannot_decode_loses_the_bytes_they_would_reject() {
    assert_eq!(Channel::new("Coolant", "°C", vec![]).unit, "C");
}

#[test]
fn a_repeated_name_is_numbered_rather_than_written_twice() {
    let mut session = Session::new(0, 50);
    session.push(Channel::new("WheelSpeed", "km/h", bits(&[1.0])));
    session.push(Channel::new("WheelSpeed", "km/h", bits(&[2.0])));
    session.push(Channel::new("WheelSpeed", "km/h", bits(&[3.0])));
    let names: Vec<_> = session.channels().iter().map(|c| c.name.as_str()).collect();
    assert_eq!(names, ["WheelSpeed", "WheelSpeed_2", "WheelSpeed_3"]);
}

#[test]
fn numbering_a_name_that_already_fills_the_field_keeps_it_within_it() {
    let long = "N".repeat(NAME_LEN);
    let mut session = Session::new(0, 50);
    session.push(Channel::new(&long, "", vec![]));
    session.push(Channel::new(&long, "", vec![]));
    assert!(session.channels()[1].name.len() <= NAME_LEN);
    assert!(session.channels()[1].name.ends_with("_2"));
}

#[test]
fn the_sample_count_is_the_length_every_channel_must_share() {
    let mut session = Session::new(0, 10);
    assert_eq!(session.sample_count(), 0);
    session.push(Channel::new("A", "", bits(&[1.0, 2.0, 3.0])));
    assert_eq!(session.sample_count(), 3);
}

#[test]
fn names_and_units_keep_printable_ascii_and_drop_surrounding_blanks() {
    let channel = Channel::new("  Oil\tPressure  ", " kPa\u{7f} ", vec![]);
    assert_eq!(channel.name, "OilPressure");
    assert_eq!(channel.short_name, "OilPress");
    assert_eq!(channel.unit, "kPa");
    assert_eq!(Channel::new("x", &"u".repeat(20), vec![]).unit.len(), UNIT_LEN);
}

#[test]
fn renaming_also_renames_the_short_name_and_keeps_the_samples() {
    let mut session = Session::new(0, 10);
    session.push(Channel::new("Throttle", "%", bits(&[1.0])));
    session.push(Channel::new("Throttle", "%", bits(&[2.0])));
    let second = &session.channels()[1];
    assert_eq!(second.name, "Throttle_2");
    assert_eq!(second.short_name, "Throttle");
    assert_eq!(floats(&second.samples), [2.0]);
    // A third channel that happens to be called `Throttle_2` is numbered too.
    session.push(Channel::new("Throttle_2", "%", vec![]));
    assert_eq!(session.channels()[2].name, "Throttle_2_2");
}

// ---- writing ----

fn session() -> Session {
    let mut session = Session::new(1_756_900_800_000_000, 20);
    session.driver = "driver".to_string();
    session.push(Channel::new("EngineSpeed", "rpm", bits(&[0.0, 1000.0, 2000.0])));
    session.push(Channel::new("WheelSpeedFL", "km/h", bits(&[0.0, 10.5, 21.0])));
    session
}

fn written() -> Vec<u8> {
    let mut buf = Vec::new();
    spatiax::ld::writer::write(&session(), &mut buf).expect("a session with equal channels writes");
    buf
}

fn u32_at(buf: &[u8], at: usize) -> u32 {
    u32::from_le_bytes(buf[at..at + 4].try_into().unwrap())
}

#[test]
fn the_file_is_header_event_channel_headers_and_samples_with_nothing_over() {
    assert_eq!(written().len(), HEAD_LEN + EVENT_LEN + 2 * CHAN_LEN + 2 * 3 * 4);
}

#[test]
fn the_header_carries_the_marker_the_readers_look_for() {
    assert_eq!(u32_at(&written(), 0), MARKER);
    assert_eq!(u32_at(&written(), 1502), PRO_LOGGING);
}

#[test]
fn the_header_points_at_the_first_channel_and_the_first_samples() {
    let buf = written();
    assert_eq!(u32_at(&buf, 8), META_PTR);
    assert_eq!(u32_at(&buf, 12), META_PTR + 2 * CHAN_LEN as u32);
    assert_eq!(u32_at(&buf, 36), EVENT_PTR);
    assert_eq!(u32_at(&buf, 86), 2);
}

#[test]
fn the_channel_headers_chain_forwards_and_backwards_and_stop() {
    let buf = written();
    let first = META_PTR as usize;
    let second = first + CHAN_LEN;
    assert_eq!(u32_at(&buf, first), 0);
    assert_eq!(u32_at(&buf, first + 4), META_PTR + CHAN_LEN as u32);
    assert_eq!(u32_at(&buf, second), META_PTR);
    assert_eq!(u32_at(&buf, second + 4), 0);
}

#[test]
fn each_channel_points_at_its_own_samples() {
    let buf = written();
    let data = META_PTR + 2 * CHAN_LEN as u32;
    assert_eq!(u32_at(&buf, META_PTR as usize + 8), data);
    assert_eq!(u32_at(&buf, META_PTR as usize + CHAN_LEN + 8), data + 3 * 4);
}

#[test]
fn samples_are_written_as_little_endian_floats_in_channel_order() {
    let buf = written();
    let data = (META_PTR + 2 * CHAN_LEN as u32) as usize;
    let first = f32::from_le_bytes(buf[data..data + 4].try_into().unwrap());
    let second = f32::from_le_bytes(buf[data + 12..data + 16].try_into().unwrap());
    assert_eq!(first, 0.0);
    assert_eq!(second, 0.0);
    let mid = f32::from_le_bytes(buf[data + 16..data + 20].try_into().unwrap());
    assert_eq!(mid, 10.5);
}

#[test]
fn channels_of_different_lengths_are_refused_rather_than_written() {
    let mut session = session();
    session.push(Channel::new("Odd", "", bits(&[1.0])));
    let mut buf = Vec::new();
    assert!(spatiax::ld::writer::write(&session, &mut buf).is_err());
}

#[test]
fn a_refused_session_names_the_channel_and_writes_nothing() {
    let mut session = session();
    session.push(Channel::new("Odd", "", bits(&[1.0])));
    let mut buf = vec![7u8];
    match spatiax::ld::writer::write(&session, &mut buf) {
        Err(Error::Export { reason }) => {
            assert_eq!(reason, "channel `Odd` carries 1 samples but the session has 3")
        }
        other => panic!("expected an export error, got {other:?}"),
    }
    assert_eq!(buf, [7]);
}

#[test]
fn writing_appends_to_what_the_buffer_already_holds() {
    let mut buf = vec![1u8, 2, 3];
    spatiax::ld::writer::write(&session(), &mut buf).unwrap();
    assert_eq!(&buf[..3], [1, 2, 3]);
    assert_eq!(&buf[3..], written().as_slice());
}

#[test]
fn an_empty_session_is_a_header_and_an_event_block() {
    let mut buf = Vec::new();
    spatiax::ld::writer::write(&Session::new(0, 1), &mut buf).unwrap();
    assert_eq!(buf.len(), HEAD_LEN + EVENT_LEN);
    assert_eq!(u32_at(&buf, 8), META_PTR);
    assert_eq!(u32_at(&buf, 12), META_PTR);
    assert_eq!(u32_at(&buf, 86), 0);
}

#[test]
fn the_epoch_and_a_century_that_is_not_a_leap_year_convert_correctly() {
    assert_eq!(date_and_time(0), ("01/01/1970".to_string(), "00:00:00".to_string()));
    assert_eq!(
        date_and_time(1_000_000_000_000_000),
        ("09/09/2001".to_string(), "01:46:40".to_string())
    );
    assert_eq!(
        date_and_time(1_756_900_800_000_000),
        ("03/09/2025".to_string(), "12:00:00".to_string())
    );
    assert_eq!(
        date_and_time(4_102_444_800_000_000),
        ("01/01/2100".to_string(), "00:00:00".to_string())
    );
}

#[test]
fn a_leap_day_and_the_last_second_of_a_year_convert_correctly() {
    // 2024-02-29 23:59:59 and 2023-12-31 23:59:59.
    assert_eq!(
        date_and_time(1_709_251_199_000_000),
        ("29/02/2024".to_string(), "23:59:59".to_string())
    );
    assert_eq!(
        date_and_time(1_704_067_199_999_999),
        ("31/12/2023".to_string(), "23:59:59".to_string())
    );
}

// ---- resampling ----

fn database() -> Database {
    parse(
        "BO_ 256 EngineData: 8 ECU\n \
         SG_ EngineRPM : 0|16@1+ (1,0) [0|65535] \"rpm\" DASH\n",
    )
    .expect("fixture parses")
}

fn frame(rpm: u16, at_us: u64) -> CanFrame {
    let bytes = rpm.to_le_bytes();
    CanFrame::new(CanId::Standard(256), &bytes, at_us).expect("fits")
}

/// The physical value of an unscaled signal, as the bits of an `f32`.
fn raw_as_float(_: &Signal, raw: u64) -> u32 {
    (raw as f32).to_bits()
}

fn sampled(db: &Database, frames: &[CanFrame], rate: u16) -> Result<Sampled, Error> {
    sample(db, frames, rate, raw_as_float)
}

#[test]
fn a_signal_holds_its_last_value_until_the_next_frame() {
    let db = database();
    let frames = [frame(100, 0), frame(200, 500_000)];
    let sampled = sampled(&db, &frames, 10).expect("one channel");
    let samples = floats(&sampled.session.channels()[0].samples);
    // 10 Hz over half a second: six grid points, stepping at 0.5 s.
    assert_eq!(samples, [100.0, 100.0, 100.0, 100.0, 100.0, 200.0]);
}

#[test]
fn a_channel_starts_at_its_first_value_rather_than_zero() {
    let db = database();
    let frames = [frame(1, 0), frame(700, 900_000)];
    let sampled = sampled(&db, &frames, 2).expect("one channel");
    assert_eq!(f32::from_bits(sampled.session.channels()[0].samples[0]), 1.0);
}

#[test]
fn the_grid_spans_the_log_from_first_frame_to_last() {
    let db = database();
    let frames = [frame(1, 1_000_000), frame(2, 3_000_000)];
    let sampled = sampled(&db, &frames, 1).expect("one channel");
    assert_eq!(sampled.session.started_at_us, 1_000_000);
    assert_eq!(sampled.session.sample_count(), 3);
}

#[test]
fn a_log_with_no_frames_is_an_error() {
    assert!(sampled(&database(), &[], 10).is_err());
}

#[test]
fn a_signal_no_frame_carried_gets_no_channel() {
    let db = parse(
        "BO_ 256 EngineData: 8 ECU\n \
         SG_ EngineRPM : 0|16@1+ (1,0) [0|65535] \"rpm\" DASH\n\
         BO_ 512 Absent: 8 ECU\n \
         SG_ NeverSeen : 0|8@1+ (1,0) [0|255] \"\" DASH\n",
    )
    .expect("fixture parses");
    let sampled = sampled(&db, &[frame(1, 0)], 1).expect("one channel");
    assert_eq!(sampled.session.channels().len(), 1);
    assert_eq!(sampled.session.channels()[0].name, "EngineRPM");
}

#[test]
fn a_frame_too_short_for_its_signals_is_counted_not_guessed() {
    let db = database();
    let short = CanFrame::new(CanId::Standard(256), &[0x01], 0).expect("fits");
    let frames = [frame(5, 0), short];
    let sampled = sampled(&db, &frames, 1).expect("one channel");
    assert_eq!(sampled.skipped, 1);
}

#[test]
fn a_zero_rate_and_a_log_of_strangers_are_refused_with_reasons() {
    let db = database();
    match sampled(&db, &[frame(1, 0)], 0) {
        Err(Error::Export { reason }) => assert_eq!(reason, "a sample rate of 0 Hz describes no grid"),
        other => panic!("expected an export error, got {other:?}"),
    }
    let stranger = CanFrame::new(CanId::Standard(0x7FF), &[1, 2], 0).unwrap();
    match sampled(&db, &[stranger], 1) {
        Err(Error::Export { reason }) => {
            assert_eq!(reason, "no signal in the database was decoded from this log")
        }
        other => panic!("expected an export error, got {other:?}"),
    }
}

#[test]
fn frames_out_of_order_are_sampled_in_time_order() {
    let db = database();
    let frames = [frame(30, 2_000_000), frame(10, 0), frame(20, 1_000_000)];
    let sampled = sampled(&db, &frames, 1).expect("one channel");
    assert_eq!(floats(&sampled.session.channels()[0].samples), [10.0, 20.0, 30.0]);
}

#[test]
fn resample_holds_and_carries_back() {
    let updates = [(1_000_000u64, 5u32), (1_500_000, 6), (1_500_000, 7)];
    // Grid at 2 Hz from 0 s: 0, 0.5, 1.0, 1.5, 2.0.
    assert_eq!(resample(&updates, 0, 2, 5), [5, 5, 5, 7, 7]);
}

#[test]
fn the_rate_ladder_climbs_from_one_hertz_to_a_kilohertz() {
    assert_eq!(RATE_LADDER.first(), Some(&1));
    assert_eq!(RATE_LADDER.last(), Some(&1000));
    assert!(RATE_LADDER.windows(2).all(|w| w[0] < w[1]));
}

#[test]
fn pushing_keeps_channel_names_distinct_and_within_the_field() {
    let mut session = Session::new(0, 50);
    let long = "A_very_long_channel_name_for_ld_files";
    for _ in 0..12 {
        session.push(Channel::new(long, "", bits(&[0.0])));
        session.push(Channel::new("X_2", "", bits(&[0.0])));
        session.push(Channel::new("X", "", bits(&[0.0])));
    }
    let names: Vec<&str> = session.channels().iter().map(|c| c.name.as_str()).collect();
    assert_eq!(names.len(), 36);
    for (i, a) in names.iter().enumerate() {
        assert!(a.len() <= NAME_LEN, "{a} is too long");
        for b in &names[i + 1..] {
            assert_ne!(a, b);
        }
    }
}
