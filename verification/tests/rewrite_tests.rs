use metamux::rewrite::{rewrite_pat, rewrite_pmt, patch_section_length, ReplaceStream};
use metamux::remux::streams_insert;
use metamux::section::{append_crc, crc32, section_length, table_id, table_id_extension};

fn record(pid: u16, stream_type: u8, es_info: Vec<u8>) -> ReplaceStream {
    ReplaceStream { original_pid: pid, stream_type, target_pid: pid, es_info }
}

#[test]
fn pat_rewrite_single_entry_and_checksum() {
    // input PAT: tsid 0x0001, two entries (NIT and a program)
    let mut pat = vec![0x00u8, 0xB0, 0x00, 0x00, 0x01, 0xC1, 0x00, 0x00];
    pat.extend_from_slice(&[0x00, 0x00, 0x00, 0x10]); // network entry
    pat.extend_from_slice(&[0x00, 0x01, 0xE1, 0x00]); // program 1 -> 0x100
    patch_section_length(&mut pat);
    append_crc(&mut pat);

    let t = 0xBEEF;
    let n = 0x0042;
    let out = rewrite_pat(&pat, t, n);
    // header kept, table extension replaced
    assert_eq!(out.len(), 16);
    assert_eq!(table_id(&out), 0x00);
    assert_eq!(table_id_extension(&out), t);
    assert_eq!(section_length(&out), 13);
    // exactly one program entry: {n, 0x10}
    assert_eq!(&out[8..12], &[0x00, 0x42, 0x00, 0x10]);
    // recomputed checksum matches the trailing four bytes
    let c = crc32(&out[..12].to_vec());
    assert_eq!(
        &out[12..16],
        &[(c >> 24) as u8, ((c >> 16) & 0xFF) as u8, ((c >> 8) & 0xFF) as u8, (c & 0xFF) as u8]
    );
}

#[test]
fn pat_rewrite_is_deterministic() {
    let mut pat = vec![0x00u8, 0xB0, 0x00, 0x77, 0x66, 0xC1, 0x00, 0x00];
    pat.extend_from_slice(&[0x00, 0x05, 0xE2, 0x00]);
    patch_section_length(&mut pat);
    append_crc(&mut pat);
    let a = rewrite_pat(&pat, 0x1234, 7);
    let b = rewrite_pat(&pat, 0x1234, 7);
    assert_eq!(a, b);
}

fn sample_pmt() -> Vec<u8> {
    // program 1, pcr pid 0x500, empty program-descriptor loop,
    // one video entry (0x1B, pid 0x500, no descriptors)
    let mut pmt = vec![0x02u8, 0xB0, 0x00, 0x00, 0x01, 0xC1, 0x00, 0x00];
    pmt.extend_from_slice(&[0xE5, 0x00]); // pcr pid
    pmt.extend_from_slice(&[0xF0, 0x00]); // program info length 0
    pmt.extend_from_slice(&[0x1B, 0xE5, 0x00, 0xF0, 0x00]); // video entry
    patch_section_length(&mut pmt);
    append_crc(&mut pmt);
    pmt
}

#[test]
fn pmt_append_ordering_is_ascending() {
    // records inserted out of order end up appended by ascending pid
    let mut streams: Vec<ReplaceStream> = Vec::new();
    streams_insert(&mut streams, record(30, 0x0D, vec![]));
    streams_insert(&mut streams, record(10, 0x0D, vec![]));
    streams_insert(&mut streams, record(20, 0x0D, vec![]));

    let pmt = sample_pmt();
    let out = rewrite_pmt(&pmt, 0x0042, &streams);
    assert_eq!(table_id_extension(&out), 0x0042);
    // header(8) + pcr/pil(4) + original entry(5), then the three
    // appended five-byte entries, then the checksum
    let appended = &out[17..17 + 15];
    assert_eq!(appended[0], 0x0D);
    assert_eq!(((appended[1] & 0x1F) as u16) << 8 | appended[2] as u16, 10);
    assert_eq!(((appended[6] & 0x1F) as u16) << 8 | appended[7] as u16, 20);
    assert_eq!(((appended[11] & 0x1F) as u16) << 8 | appended[12] as u16, 30);
    // original entry kept verbatim, in place
    assert_eq!(&out[12..17], &[0x1B, 0xE5, 0x00, 0xF0, 0x00]);
    // fresh checksum
    let n = out.len();
    let c = crc32(&out[..n - 4].to_vec());
    assert_eq!(
        &out[n - 4..],
        &[(c >> 24) as u8, ((c >> 16) & 0xFF) as u8, ((c >> 8) & 0xFF) as u8, (c & 0xFF) as u8]
    );
    // declared length covers everything after the length field
    assert_eq!(section_length(&out), out.len() - 3);
}

#[test]
fn pmt_rewrite_keeps_descriptor_loops_verbatim() {
    let mut streams: Vec<ReplaceStream> = Vec::new();
    streams_insert(&mut streams, record(0x200, 0x0D, vec![0x52, 0x01, 0x38]));
    let pmt = sample_pmt();
    let out = rewrite_pmt(&pmt, 1, &streams);
    // the appended entry carries its descriptor bytes unchanged
    let tail_start = 17;
    assert_eq!(out[tail_start], 0x0D);
    assert_eq!(out[tail_start + 3], 0x00);
    assert_eq!(out[tail_start + 4], 0x03);
    assert_eq!(&out[tail_start + 5..tail_start + 8], &[0x52, 0x01, 0x38]);
}
