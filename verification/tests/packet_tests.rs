use metamux::packet::{
    adaptation_field_length, continuity_counter, has_adaptation_field, has_payload, has_pcr,
    payload_unit_start_indicator, pcr, pid, pointer_field_offset, set_pid, sync_byte,
    transport_error_indicator, transport_priority, transport_scrambling_control, PACKET_SIZE,
    SYNC_BYTE,
};

fn blank_packet() -> Vec<u8> {
    let mut p = vec![0xFFu8; PACKET_SIZE];
    p[0] = SYNC_BYTE;
    p[1] = 0x00;
    p[2] = 0x00;
    p[3] = 0x10;
    p
}

#[test]
fn header_fields_decode() {
    let mut p = blank_packet();
    p[1] = 0b0110_0001; // pusi set, priority set, pid hi = 0x01
    p[2] = 0x22;
    p[3] = 0b0011_0101; // scrambling 0, af + payload, cc = 5
    assert_eq!(sync_byte(&p), 0x47);
    assert!(!transport_error_indicator(&p));
    assert!(payload_unit_start_indicator(&p));
    assert!(transport_priority(&p));
    assert_eq!(pid(&p), 0x0122);
    assert_eq!(transport_scrambling_control(&p), 0);
    assert!(has_adaptation_field(&p));
    assert!(has_payload(&p));
    assert_eq!(continuity_counter(&p), 5);
}

#[test]
fn error_and_scrambling_bits() {
    let mut p = blank_packet();
    p[1] = 0b1000_0000;
    p[3] = 0b1100_0000;
    assert!(transport_error_indicator(&p));
    assert!(!payload_unit_start_indicator(&p));
    assert!(!transport_priority(&p));
    assert_eq!(transport_scrambling_control(&p), 3);
    assert!(!has_adaptation_field(&p));
    assert!(!has_payload(&p));
    assert_eq!(continuity_counter(&p), 0);
}

#[test]
fn adaptation_field_and_pointer_offset() {
    let mut p = blank_packet();
    assert_eq!(adaptation_field_length(&p), 0);
    assert_eq!(pointer_field_offset(&p), 4);
    p[3] = 0x30;
    p[4] = 7;
    assert_eq!(adaptation_field_length(&p), 7);
    assert_eq!(pointer_field_offset(&p), 11);
}

#[test]
fn pcr_decodes_exact_value() {
    let mut p = blank_packet();
    p[3] = 0x30;
    p[4] = 7; // adaptation field length
    p[5] = 0x10; // PCR flag
    p[6] = 0x00;
    p[7] = 0x00;
    p[8] = 0x00;
    p[9] = 0x01;
    p[10] = 0x80; // top bit carries the 33rd
    assert!(has_pcr(&p));
    assert_eq!(pcr(&p), Some(3));
    p[6] = 0xFF;
    p[7] = 0xFF;
    p[8] = 0xFF;
    p[9] = 0xFF;
    assert_eq!(pcr(&p), Some((1u64 << 33) - 1));
}

#[test]
fn packet_without_pcr() {
    let p = blank_packet();
    assert!(!has_pcr(&p));
    assert_eq!(pcr(&p), None);
}

#[test]
fn set_pid_patches_only_the_channel() {
    let mut p = blank_packet();
    p[1] = 0b1110_0001;
    p[2] = 0x22;
    let before = p.clone();
    set_pid(&mut p, 0x1ABC);
    assert_eq!(pid(&p), 0x1ABC);
    assert_eq!(p[1] & 0xE0, before[1] & 0xE0);
    assert_eq!(&p[3..], &before[3..]);
    assert_eq!(p[0], before[0]);
}
