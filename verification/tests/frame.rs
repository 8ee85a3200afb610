use spatiax::frame::{dlc_to_len, len_to_dlc};
use spatiax::{CanFrame, CanId, Error, MAX_FRAME_LEN};

#[test]
fn dbc_id_without_flag_is_standard() {
    assert_eq!(CanId::from_dbc(0x100).unwrap(), CanId::Standard(0x100));
}

#[test]
fn dbc_id_with_bit31_set_is_extended_and_strips_the_flag() {
    let id = CanId::from_dbc(0x98FE_EE00).unwrap();
    assert_eq!(id, CanId::Extended(0x18FE_EE00));
    assert!(id.is_extended());
    assert_eq!(id.raw(), 0x18FE_EE00);
}

#[test]
fn dbc_id_over_11_bits_without_flag_is_rejected_not_truncated() {
    assert!(matches!(CanId::from_dbc(0x800), Err(Error::InvalidId { .. })));
}

#[test]
fn standard_and_extended_ids_with_equal_value_are_not_equal() {
    assert_ne!(CanId::Standard(0x100), CanId::Extended(0x100));
}

#[test]
fn frame_data_returns_only_the_payload_length() {
    let f = CanFrame::new(CanId::Standard(0x100), &[1, 2, 3], 0).unwrap();
    assert_eq!(f.data(), &[1, 2, 3]);
    assert_eq!(f.len(), 3);
}

#[test]
fn frame_accepts_a_full_64_byte_can_fd_payload() {
    let payload = [0xAAu8; MAX_FRAME_LEN];
    let f = CanFrame::new(CanId::Standard(0x1), &payload, 0).unwrap();
    assert_eq!(f.len(), MAX_FRAME_LEN);
}

#[test]
fn frame_rejects_a_payload_over_the_can_fd_maximum() {
    let payload = [0u8; MAX_FRAME_LEN + 1];
    assert!(matches!(
        CanFrame::new(CanId::Standard(0x1), &payload, 0),
        Err(Error::FrameTooLong { len: 65 })
    ));
}

fn consume(_: CanFrame) {}

#[test]
fn frame_is_copy_and_therefore_allocation_free() {
    let f = CanFrame::new(CanId::Standard(0x100), &[1], 0).unwrap();
    consume(f);
    assert_eq!(f.len(), 1);
}

#[test]
fn standard_and_extended_constructors_check_their_ranges() {
    assert_eq!(CanId::standard(0x7FF).unwrap(), CanId::Standard(0x7FF));
    assert!(matches!(
        CanId::standard(0x800),
        Err(Error::InvalidId { raw: 0x800, .. })
    ));
    assert_eq!(CanId::extended(0x1FFF_FFFF).unwrap(), CanId::Extended(0x1FFF_FFFF));
    assert!(matches!(
        CanId::extended(0x2000_0000),
        Err(Error::InvalidId { raw: 0x2000_0000, .. })
    ));
    assert!(!CanId::Standard(1).is_extended());
    assert_eq!(CanId::Standard(0x123).raw(), 0x123);
}

#[test]
fn a_data_length_code_and_its_length_map_back_and_forth() {
    for dlc in 0..=15u8 {
        let len = dlc_to_len(dlc).unwrap();
        assert_eq!(len_to_dlc(len), Some(dlc));
    }
    assert_eq!(dlc_to_len(9), Some(12));
    assert_eq!(dlc_to_len(15), Some(64));
    assert_eq!(dlc_to_len(16), None);
    assert_eq!(len_to_dlc(9), None);
}

#[test]
fn a_frame_declares_the_code_of_its_length_unless_given_one() {
    let f = CanFrame::new(CanId::Standard(1), &[0; 12], 0).unwrap();
    assert_eq!(f.dlc(), Some(9));
    let g = CanFrame::new(CanId::Standard(1), &[0; 9], 0).unwrap();
    assert_eq!(g.dlc(), None);
    let h = CanFrame::with_dlc(CanId::Standard(1), &[0; 8], 0, 15).unwrap();
    assert_eq!(h.dlc(), Some(15));
    assert!(matches!(
        CanFrame::with_dlc(CanId::Standard(1), &[0; 3], 0, 9),
        Err(Error::DlcMismatch { dlc: 9, len: 3 })
    ));
    assert!(CanFrame::new(CanId::Standard(1), &[], 5).unwrap().is_empty());
}
