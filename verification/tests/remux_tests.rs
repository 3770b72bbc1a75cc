use metamux::packet::{pid, PACKET_SIZE, SYNC_BYTE};
use metamux::packetize::packtize_section;
use metamux::reader::SectionReader;
use metamux::remux::{MetaScanner, RemuxDriver};
use metamux::rewrite::patch_section_length;
use metamux::section::{append_crc, crc32, table_id_extension};

fn finish(mut body: Vec<u8>) -> Vec<u8> {
    patch_section_length(&mut body);
    append_crc(&mut body);
    body
}

fn pat_section(tsid: u16, program: u16, pmt_pid: u16) -> Vec<u8> {
    let mut s = vec![0x00u8, 0xB0, 0x00, (tsid >> 8) as u8, (tsid & 0xFF) as u8, 0xC1, 0x00, 0x00];
    s.extend_from_slice(&[0x00, 0x00, 0x00, 0x10]); // network entry
    s.extend_from_slice(&[
        (program >> 8) as u8,
        (program & 0xFF) as u8,
        0xE0 | ((pmt_pid >> 8) & 0x1F) as u8,
        (pmt_pid & 0xFF) as u8,
    ]);
    finish(s)
}

fn pmt_section(program: u16, pcr_pid: u16, entries: &[(u8, u16)]) -> Vec<u8> {
    let mut s = vec![0x02u8, 0xB0, 0x00, (program >> 8) as u8, (program & 0xFF) as u8, 0xC1, 0x00,
        0x00];
    s.extend_from_slice(&[0xE0 | ((pcr_pid >> 8) & 0x1F) as u8, (pcr_pid & 0xFF) as u8]);
    s.extend_from_slice(&[0xF0, 0x00]); // empty program-descriptor loop
    for &(st, epid) in entries {
        s.extend_from_slice(&[st, 0xE0 | ((epid >> 8) & 0x1F) as u8, (epid & 0xFF) as u8, 0xF0,
            0x00]);
    }
    finish(s)
}

fn raw_packet(channel: u16, counter: u8) -> Vec<u8> {
    let mut p = vec![0xFFu8; PACKET_SIZE];
    p[0] = SYNC_BYTE;
    p[1] = ((channel >> 8) & 0x1F) as u8;
    p[2] = (channel & 0xFF) as u8;
    p[3] = 0x10 | (counter & 0x0F);
    p
}

fn assemble_one(packets: &[Vec<u8>]) -> Vec<u8> {
    let mut reader = SectionReader::new();
    let mut done = Vec::new();
    for p in packets {
        reader.push(p);
        while let Some(s) = reader.pop() {
            done.push(s);
        }
    }
    assert_eq!(done.len(), 1);
    done.remove(0)
}

#[test]
fn scanner_discovers_and_queues() {
    let mut scanner = MetaScanner::new();
    for p in packtize_section(&pat_section(0x1111, 2, 0x300), 0, 0) {
        scanner.scan_packet(&p);
    }
    for p in packtize_section(&pmt_section(2, 0x400, &[(0x0D, 0x200)]), 0x300, 0) {
        scanner.scan_packet(&p);
    }
    let si = raw_packet(0x11, 0);
    scanner.scan_packet(&si);
    let carousel = raw_packet(0x200, 0);
    scanner.scan_packet(&carousel);

    assert_eq!(scanner.transport_stream_id, Some(0x1111));
    assert_eq!(scanner.program_number, Some(2));
    assert_eq!(scanner.streams.len(), 1);
    assert_eq!(scanner.streams[0].original_pid, 0x200);
    assert_eq!(scanner.streams[0].stream_type, 0x0D);
    assert_eq!(scanner.streams[0].target_pid, 0x200);
    assert_eq!(scanner.queue.len(), 2);
    assert_eq!(scanner.queue[0].pid, 0x11);
    assert_eq!(scanner.queue[0].time, 0);
    assert_eq!(scanner.queue[0].packet, si);
    assert_eq!(scanner.queue[1].pid, 0x200);
    assert_eq!(scanner.queue[1].time, 0);
}

#[test]
fn scanner_qualifies_synchronized_data_by_descriptor() {
    let mut scanner = MetaScanner::new();
    for p in packtize_section(&pat_section(7, 9, 0x300), 0, 0) {
        scanner.scan_packet(&p);
    }
    // entry with the qualifying component descriptor, and one without
    let mut s = vec![0x02u8, 0xB0, 0x00, 0x00, 0x09, 0xC1, 0x00, 0x00, 0xE4, 0x00, 0xF0, 0x00];
    s.extend_from_slice(&[0x06, 0xE2, 0x10, 0xF0, 0x03, 0x52, 0x01, 0x38]); // qualifies
    s.extend_from_slice(&[0x06, 0xE2, 0x20, 0xF0, 0x03, 0x52, 0x01, 0x39]); // wrong value
    s.extend_from_slice(&[0x04, 0xE2, 0x30, 0xF0, 0x00]); // audio: ignored
    let pmt = finish(s);
    for p in packtize_section(&pmt, 0x300, 0) {
        scanner.scan_packet(&p);
    }
    assert_eq!(scanner.streams.len(), 1);
    assert_eq!(scanner.streams[0].original_pid, 0x210);
    assert_eq!(scanner.streams[0].stream_type, 0x06);
    assert_eq!(scanner.streams[0].es_info, vec![0x52, 0x01, 0x38]);
}

fn pcr_packet(channel: u16, base: u64) -> Vec<u8> {
    let mut p = raw_packet(channel, 0);
    p[3] = 0x30; // adaptation field + payload
    p[4] = 7; // adaptation field length
    p[5] = 0x10; // PCR flag
    p[6] = ((base >> 25) & 0xFF) as u8;
    p[7] = ((base >> 17) & 0xFF) as u8;
    p[8] = ((base >> 9) & 0xFF) as u8;
    p[9] = ((base >> 1) & 0xFF) as u8;
    p[10] = ((base & 1) << 7) as u8;
    p
}

#[test]
fn scanner_stamps_queue_entries_with_elapsed_time() {
    let mut scanner = MetaScanner::new();
    for p in packtize_section(&pat_section(0x1111, 2, 0x300), 0, 0) {
        scanner.scan_packet(&p);
    }
    for p in packtize_section(&pmt_section(2, 0x400, &[(0x0D, 0x200)]), 0x300, 0) {
        scanner.scan_packet(&p);
    }
    scanner.scan_packet(&raw_packet(0x11, 0)); // queued at elapsed 0
    scanner.scan_packet(&pcr_packet(0x400, 1000)); // first sample: zero delta
    scanner.scan_packet(&pcr_packet(0x400, 91000)); // +90000 ticks
    scanner.scan_packet(&raw_packet(0x11, 1)); // queued at elapsed 90000
    assert_eq!(scanner.clock.elapsed, 90000);
    assert_eq!(scanner.queue.len(), 2);
    assert_eq!(scanner.queue[0].time, 0);
    assert_eq!(scanner.queue[1].time, 90000);
}

#[test]
fn driver_defers_future_entries_until_their_time() {
    let si = raw_packet(0x11, 0);
    let queue = vec![metamux::remux::QueueEntry { time: 50, pid: 0x11, packet: si.clone() }];
    let mut driver = RemuxDriver::new(0x1111, 2, Vec::new(), queue);

    // the entry's time is in the future: nothing drains yet
    let pat = packtize_section(&pat_section(0x0001, 1, 0x100), 0, 0);
    assert_eq!(driver.handle_packet(&pat[0]).len(), 1);
    let pmt = packtize_section(&pmt_section(1, 0x500, &[(0x1B, 0x500)]), 0x100, 0);
    assert_eq!(driver.handle_packet(&pmt[0]).len(), 1);
    // the clock advances only after the drain, so the packet that carries
    // the decisive sample does not release the entry itself
    assert_eq!(driver.handle_packet(&pcr_packet(0x500, 0)).len(), 1);
    assert_eq!(driver.handle_packet(&pcr_packet(0x500, 50)).len(), 1);
    assert_eq!(driver.clock.elapsed, 50);
    // the next packet drains it, behind the pass-through
    let video = raw_packet(0x500, 1);
    let out = driver.handle_packet(&video);
    assert_eq!(out, vec![video, si]);
}

#[test]
fn scanner_discovery_first_value_wins() {
    let mut scanner = MetaScanner::new();
    for p in packtize_section(&pat_section(0x1111, 2, 0x300), 0, 0) {
        scanner.scan_packet(&p);
    }
    for p in packtize_section(&pmt_section(2, 0x400, &[(0x0D, 0x200)]), 0x300, 0) {
        scanner.scan_packet(&p);
    }
    // a later PAT and PMT with different values change nothing
    for p in packtize_section(&pat_section(0x2222, 3, 0x300), 0, 1) {
        scanner.scan_packet(&p);
    }
    for p in packtize_section(&pmt_section(3, 0x400, &[(0x0D, 0x210)]), 0x300, 1) {
        scanner.scan_packet(&p);
    }
    assert_eq!(scanner.transport_stream_id, Some(0x1111));
    assert_eq!(scanner.program_number, Some(2));
    // the replacement map still grows with newly seen streams
    assert_eq!(scanner.streams.len(), 2);
    assert_eq!(scanner.streams[0].original_pid, 0x200);
    assert_eq!(scanner.streams[1].original_pid, 0x210);
}

#[test]
fn driver_clears_program_map_channel_on_unusable_pat() {
    let mut driver = RemuxDriver::new(0x1111, 2, Vec::new(), Vec::new());
    let pat = packtize_section(&pat_section(1, 1, 0x100), 0, 0);
    assert_eq!(driver.handle_packet(&pat[0]).len(), 1);
    // a PAT carrying only the network entry is not rewritten and clears
    // the discovered program-map channel
    let mut s = vec![0x00u8, 0xB0, 0x00, 0x00, 0x01, 0xC1, 0x00, 0x00];
    s.extend_from_slice(&[0x00, 0x00, 0x00, 0x10]);
    let nit_only = finish(s);
    let out = driver.handle_packet(&packtize_section(&nit_only, 0, 1)[0]);
    assert!(out.is_empty());
    // traffic on the former program-map channel now passes through
    let pkt = raw_packet(0x100, 0);
    assert_eq!(driver.handle_packet(&pkt), vec![pkt]);
}

#[test]
fn driver_counters_advance_by_exact_packet_count() {
    // a table large enough to span sixteen packets: the dedicated counter
    // advances by the emitted packet count modulo sixteen, so it returns
    // to zero rather than slipping by one
    let entries: Vec<(u8, u16)> = (0..550).map(|i| (0x1B, 0x500 + i as u16)).collect();
    let big_pmt = pmt_section(1, 0x500, &entries);
    let mut driver = RemuxDriver::new(0x1111, 2, Vec::new(), Vec::new());
    let pat = packtize_section(&pat_section(0x0001, 1, 0x100), 0, 0);
    let out_pat = driver.handle_packet(&pat[0]);
    assert_eq!(out_pat.len(), 1);
    assert_eq!(driver.pat_cc, 1);
    let mut total = 0;
    for p in packtize_section(&big_pmt, 0x100, 0) {
        total += driver.handle_packet(&p).len();
    }
    assert_eq!(total, 16);
    assert_eq!(driver.pmt_cc, 0);
}

#[test]
fn end_to_end_merge() {
    // metadata pass
    let mut scanner = MetaScanner::new();
    for p in packtize_section(&pat_section(0x1111, 2, 0x300), 0, 0) {
        scanner.scan_packet(&p);
    }
    for p in packtize_section(&pmt_section(2, 0x400, &[(0x0D, 0x200)]), 0x300, 0) {
        scanner.scan_packet(&p);
    }
    let si = raw_packet(0x11, 0);
    scanner.scan_packet(&si);
    let carousel = raw_packet(0x200, 3);
    scanner.scan_packet(&carousel);

    let tsid = scanner.transport_stream_id.unwrap();
    let program = scanner.program_number.unwrap();
    let mut driver = RemuxDriver::new(tsid, program, scanner.streams, scanner.queue);

    // primary pass: one PAT (program 1 -> 0x100), one PMT (one video
    // entry), one video packet, one service-information packet
    let primary_pat = packtize_section(&pat_section(0x0001, 1, 0x100), 0, 0);
    assert_eq!(primary_pat.len(), 1);
    let out1 = driver.handle_packet(&primary_pat[0]);
    // rewritten PAT first, then both replay entries timed at elapsed 0
    assert_eq!(out1.len(), 3);
    let new_pat = assemble_one(&out1[..1]);
    assert_eq!(table_id_extension(&new_pat), 0x1111);
    assert_eq!(&new_pat[8..12], &[0x00, 0x02, 0x00, 0x10]);
    let c = crc32(&new_pat[..12].to_vec());
    assert_eq!(
        &new_pat[12..16],
        &[(c >> 24) as u8, ((c >> 16) & 0xFF) as u8, ((c >> 8) & 0xFF) as u8, (c & 0xFF) as u8]
    );
    assert_eq!(out1[1], si);
    // the carousel packet is re-channeled to its target (the original
    // channel plus the zero offset)
    assert_eq!(pid(&out1[2]), 0x200);
    assert_eq!(out1[2][3..], carousel[3..]);

    let primary_pmt = packtize_section(&pmt_section(1, 0x500, &[(0x1B, 0x500)]), 0x100, 0);
    assert_eq!(primary_pmt.len(), 1);
    let out2 = driver.handle_packet(&primary_pmt[0]);
    assert_eq!(out2.len(), 1);
    let new_pmt = assemble_one(&out2[..1]);
    assert_eq!(table_id_extension(&new_pmt), 2);
    // original video entry kept, replacement entry appended
    assert_eq!(&new_pmt[12..17], &[0x1B, 0xE5, 0x00, 0xF0, 0x00]);
    assert_eq!(new_pmt[17], 0x0D);
    assert_eq!(((new_pmt[18] & 0x1F) as u16) << 8 | new_pmt[19] as u16, 0x200);

    // ordinary traffic passes through unchanged
    let video = raw_packet(0x500, 1);
    let out3 = driver.handle_packet(&video);
    assert_eq!(out3, vec![video.clone()]);

    // the primary stream's own service information is dropped
    let dropped = raw_packet(0x12, 0);
    let out4 = driver.handle_packet(&dropped);
    assert!(out4.is_empty());
}
