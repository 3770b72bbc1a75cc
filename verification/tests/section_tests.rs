use metamux::rewrite::patch_section_length;
use metamux::section::{
    append_crc, crc32, current_next_indicator, section_length, table_id, table_id_extension,
};

#[test]
fn header_accessors() {
    let s: Vec<u8> = vec![0x02, 0xB0, 0x0D, 0x12, 0x34, 0xC3, 0x00, 0x00];
    assert_eq!(table_id(&s), 0x02);
    assert_eq!(section_length(&s), 0x00D);
    assert_eq!(table_id_extension(&s), 0x1234);
    assert!(current_next_indicator(&s));
    let s2: Vec<u8> = vec![0x00, 0xBF, 0xFF, 0x00, 0x00, 0xC2];
    assert_eq!(section_length(&s2), 0xFFF);
    assert!(!current_next_indicator(&s2));
}

#[test]
fn crc32_known_check_value() {
    // CRC-32/MPEG-2 of "123456789" is 0x0376E6E7
    let msg: Vec<u8> = b"123456789".to_vec();
    assert_eq!(crc32(&msg), 0x0376E6E7);
}

#[test]
fn crc32_of_empty_is_initial_register() {
    let empty: Vec<u8> = Vec::new();
    assert_eq!(crc32(&empty), 0xFFFFFFFF);
}

#[test]
fn append_crc_embeds_matching_checksum() {
    let mut s: Vec<u8> = vec![0x00, 0xB0, 0x09, 0xAB, 0xCD, 0xC1, 0x00, 0x00];
    let body = s.clone();
    append_crc(&mut s);
    assert_eq!(s.len(), body.len() + 4);
    let c = crc32(&body);
    assert_eq!(s[body.len()], (c >> 24) as u8);
    assert_eq!(s[body.len() + 1], ((c >> 16) & 0xFF) as u8);
    assert_eq!(s[body.len() + 2], ((c >> 8) & 0xFF) as u8);
    assert_eq!(s[body.len() + 3], (c & 0xFF) as u8);
}

#[test]
fn patch_section_length_counts_tail_and_checksum() {
    // 8 header bytes + 4 entry bytes; declared length must cover
    // everything after byte 2 plus the 4 checksum bytes: 13
    let mut s: Vec<u8> = vec![0x00, 0xB0, 0x00, 0xAB, 0xCD, 0xC1, 0x00, 0x00, 0x00, 0x01, 0xE1, 0x00];
    patch_section_length(&mut s);
    assert_eq!(section_length(&s), 13);
    assert_eq!(s[1] & 0xF0, 0xB0);
}
