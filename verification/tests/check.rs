use spatiax::dbc::{check, parse};

fn problems(dbc: &str) -> Vec<String> {
    check(&parse(dbc).unwrap()).iter().map(|p| p.describe()).collect()
}

#[test]
fn a_signal_running_past_the_dlc_is_reported_with_both_sizes() {
    let dbc = "BO_ 256 Short: 2 ECU\n \
               SG_ Fits : 0|16@1+ (1,0) [0|0] \"\" X\n \
               SG_ Spills : 16|8@1+ (1,0) [0|0] \"\" X\n";
    assert_eq!(
        problems(dbc),
        ["Short: signal `Spills` needs 3 byte(s) but the message declares 2"]
    );
}

#[test]
fn overlapping_signals_are_reported_once_per_pair_in_dbc_order() {
    let dbc = "BO_ 256 Tangled: 8 ECU\n \
               SG_ A : 0|16@1+ (1,0) [0|0] \"\" X\n \
               SG_ B : 15|8@1+ (1,0) [0|0] \"\" X\n \
               SG_ C : 22|1@1+ (1,0) [0|0] \"\" X\n";
    assert_eq!(
        problems(dbc),
        [
            "Tangled: signals `A` and `B` overlap",
            "Tangled: signals `B` and `C` overlap",
        ]
    );
}

#[test]
fn motorola_overlap_is_judged_on_the_bits_actually_walked() {
    let touching = "BO_ 1 M: 8 E\n \
                    SG_ A : 7|16@0+ (1,0) [0|0] \"\" X\n \
                    SG_ B : 23|8@0+ (1,0) [0|0] \"\" X\n";
    assert!(problems(touching).is_empty());

    let crossing = "BO_ 1 M: 8 E\n \
                    SG_ A : 7|16@0+ (1,0) [0|0] \"\" X\n \
                    SG_ B : 8|1@0+ (1,0) [0|0] \"\" X\n";
    assert_eq!(problems(crossing), ["M: signals `A` and `B` overlap"]);
}

#[test]
fn signals_on_different_pages_may_share_bits_but_not_with_the_multiplexor() {
    let paged = "BO_ 1 P: 8 E\n \
                 SG_ Mux M : 0|8@1+ (1,0) [0|0] \"\" X\n \
                 SG_ Page0 m0 : 8|16@1+ (1,0) [0|0] \"\" X\n \
                 SG_ Page1 m1 : 8|16@1+ (1,0) [0|0] \"\" X\n \
                 SG_ Page1b m1 : 16|8@1+ (1,0) [0|0] \"\" X\n \
                 SG_ Plain : 4|8@1+ (1,0) [0|0] \"\" X\n";
    assert_eq!(
        problems(paged),
        [
            "P: signals `Mux` and `Plain` overlap",
            "P: signals `Page0` and `Plain` overlap",
            "P: signals `Page1` and `Page1b` overlap",
            "P: signals `Page1` and `Plain` overlap",
        ]
    );
}

#[test]
fn a_start_bit_beyond_any_frame_is_past_the_dlc_rather_than_a_panic() {
    let dbc = "BO_ 1 Far: 8 E\n \
               SG_ A : 600|8@1+ (1,0) [0|0] \"\" X\n \
               SG_ B : 600|8@1+ (1,0) [0|0] \"\" X\n";
    assert_eq!(
        problems(dbc),
        [
            "Far: signal `A` needs 76 byte(s) but the message declares 8",
            "Far: signal `B` needs 76 byte(s) but the message declares 8",
        ]
    );
}

#[test]
fn a_database_whose_signals_fit_and_do_not_touch_has_no_problems() {
    let dbc = "BO_ 256 EngineData: 8 ECU\n \
               SG_ EngineRPM : 0|16@1+ (0.25,0) [0|16383.75] \"rpm\" DASH\n \
               SG_ CoolantTemp : 16|8@1+ (0.5,-40) [-40|87.5] \"degC\" DASH\n\
               BO_ 512 Wheels: 8 ABS\n \
               SG_ FL : 7|16@0+ (0.01,0) [0|0] \"km/h\" X\n \
               SG_ FR : 23|16@0+ (0.01,0) [0|0] \"km/h\" X\n";
    assert!(problems(dbc).is_empty());
}

#[test]
fn problems_come_grouped_by_message_in_ascending_identifier_order() {
    let later_first = "BO_ 512 High: 1 ECU\n \
                       SG_ H : 0|16@1+ (1,0) [0|0] \"\" X\n\
                       BO_ 256 Low: 1 ECU\n \
                       SG_ L : 0|16@1+ (1,0) [0|0] \"\" X\n";
    let earlier_first = "BO_ 256 Low: 1 ECU\n \
                         SG_ L : 0|16@1+ (1,0) [0|0] \"\" X\n\
                         BO_ 512 High: 1 ECU\n \
                         SG_ H : 0|16@1+ (1,0) [0|0] \"\" X\n";
    let expected = [
        "Low: signal `L` needs 2 byte(s) but the message declares 1",
        "High: signal `H` needs 2 byte(s) but the message declares 1",
    ];
    assert_eq!(problems(later_first), expected);
    assert_eq!(problems(earlier_first), expected);
}

#[test]
fn a_standard_identifier_comes_before_an_extended_one_with_the_same_number() {
    let standard = "BO_ 256 Std: 1 ECU\n SG_ S : 0|16@1+ (1,0) [0|0] \"\" X\n";
    let extended = "BO_ 2147483904 Ext: 1 ECU\n SG_ E : 0|16@1+ (1,0) [0|0] \"\" X\n";
    let expected = [
        "Std: signal `S` needs 2 byte(s) but the message declares 1",
        "Ext: signal `E` needs 2 byte(s) but the message declares 1",
    ];
    assert_eq!(problems(&format!("{standard}{extended}")), expected);
    assert_eq!(problems(&format!("{extended}{standard}")), expected);
}
