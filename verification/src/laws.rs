//! Relations between the packetizer, the assembler and the checksum
//! engine: a packetized section reassembles to itself, and a section that
//! carries a freshly computed checksum still matches it after the round
//! trip.

use vstd::prelude::*;
use crate::packet::{PACKET_SIZE, HEADER_SIZE, STUFFING_BYTE, spec_payload_unit_start_indicator,
    spec_has_adaptation_field, spec_pointer_field_offset};
use crate::section::{BASIC_HEADER_SIZE, CRC_SIZE, spec_section_length, is_complete_section,
    spec_crc32, crc_bytes, crc_matches, lemma_section_length_bound};
use crate::reader::{AsmView, absorb, file_buf, scan_from, push_start, push_no_start, asm_push,
    incomplete};
use crate::packetize::{chunk_end, spec_packet_at, packetize_spec};

verus! {

/// The assembler state after feeding every packet of `ps` in order.
pub open spec fn asm_push_all(v: AsmView, ps: Seq<Seq<u8>>) -> AsmView
    decreases ps.len(),
{
    if ps.len() == 0 {
        v
    } else {
        asm_push_all(asm_push(v, ps[0]), ps.drop_first())
    }
}

/// Structural facts about the packet carrying the chunk at `begin`.
proof fn lemma_packet_at_shape(s: Seq<u8>, pid: u16, cc: u8, begin: int)
    requires
        0 <= begin < s.len(),
    ensures
        spec_packet_at(s, pid, cc, begin).len() == PACKET_SIZE,
        spec_payload_unit_start_indicator(spec_packet_at(s, pid, cc, begin)) <==> begin == 0,
        !spec_has_adaptation_field(spec_packet_at(s, pid, cc, begin)),
        spec_pointer_field_offset(spec_packet_at(s, pid, cc, begin)) == HEADER_SIZE,
{
    let pkt = spec_packet_at(s, pid, cc, begin);
    let next = chunk_end(s, begin);
    let body_len: int = if begin == 0 {
        1 + next
    } else {
        next - begin
    };
    assert(pkt.len() == 4 + body_len + (PACKET_SIZE - HEADER_SIZE - body_len));
    assert((0x40u8 | (((pid & 0x1F00) >> 8) as u8)) & 0x40 != 0) by (bit_vector);
    assert((0u8 | (((pid & 0x1F00) >> 8) as u8)) & 0x40 == 0) by (bit_vector);
    assert((0x10u8 | (cc & 0x0F)) & 0x20 == 0) by (bit_vector);
}

/// Feeding the continuation packets of `s` from `begin` on, into an
/// assembler already holding the first `begin` bytes, completes exactly
/// the section `s`.
proof fn lemma_feed_rest(s: Seq<u8>, pid: u16, cc: u8, begin: int, q0: Seq<Seq<u8>>)
    requires
        is_complete_section(s),
        BASIC_HEADER_SIZE <= begin < s.len(),
        cc < 16,
    ensures
        (asm_push_all(
            AsmView { buf: Some(s.take(begin)), queue: q0 },
            packetize_spec(s, pid, cc, begin),
        ) == AsmView { buf: None, queue: q0.push(s) }),
    decreases s.len() - begin,
{
    let v = AsmView { buf: Some(s.take(begin)), queue: q0 };
    let pkt = spec_packet_at(s, pid, cc, begin);
    let next = chunk_end(s, begin);
    let rest = packetize_spec(s, pid, (((cc & 0x0F) + 1) % 16) as u8, next);
    assert(packetize_spec(s, pid, cc, begin) == seq![pkt] + rest);
    lemma_packet_at_shape(s, pid, cc, begin);
    assert((seq![pkt] + rest)[0] == pkt);
    assert((seq![pkt] + rest).drop_first() =~= rest);

    // the packet is a continuation: no start indicator, payload at offset 4
    let b = s.take(begin);
    assert(spec_section_length(b) == spec_section_length(s));
    let total = BASIC_HEADER_SIZE + spec_section_length(s);
    assert(total == s.len());
    // absorb takes no header bytes and then the chunk
    let ab = absorb(b, pkt, 4);
    let take2: int = if 188 - 4 <= total - begin {
        188 - 4
    } else {
        total - begin
    };
    assert(b + pkt.subrange(4, 4) =~= b);
    assert(spec_section_length(b + pkt.subrange(4, 4)) == spec_section_length(s));
    assert(pkt.subrange(4, 4 + (next - begin)) =~= s.subrange(begin, next));
    assert(asm_push(v, pkt) == push_no_start(v, pkt));
    if s.len() <= begin + 184 {
        // final chunk: the buffer completes as exactly s
        assert(next == s.len());
        assert(take2 == next - begin);
        assert(ab.0 =~= s);
        assert(is_complete_section(ab.0));
        assert(push_no_start(v, pkt) == AsmView { buf: None, queue: q0.push(ab.0) });
        assert(packetize_spec(s, pid, (((cc & 0x0F) + 1) % 16) as u8, next) =~= Seq::<Seq<u8>>::empty());
        assert(asm_push_all(AsmView { buf: None, queue: q0.push(s) }, rest) == AsmView {
            buf: None,
            queue: q0.push(s),
        });
    } else {
        // middle chunk: the buffer grows to s.take(next)
        assert(next == begin + 184);
        assert(take2 == 184);
        assert(ab.0 =~= s.take(next));
        assert(ab.0.len() == next < total);
        assert(!is_complete_section(ab.0));
        assert(incomplete(ab.0));
        assert(push_no_start(v, pkt) == AsmView { buf: Some(s.take(next)), queue: q0 });
        let cc2 = (((cc & 0x0F) + 1) % 16) as u8;
        assert(cc < 16 ==> (((cc & 0x0F) + 1) % 16) < 16) by (bit_vector);
        lemma_feed_rest(s, pid, cc2, next, q0);
    }
}

/// Packetize/assemble inverse: packetizing any complete section whose
/// first byte is not the stuffing marker, and feeding the packets, in
/// order, to an assembler that starts empty, yields exactly that section
/// once, and leaves no partial buffer behind.
pub proof fn lemma_packetize_assemble_inverse(s: Seq<u8>, pid: u16, cc: u8, v0: AsmView)
    requires
        is_complete_section(s),
        s[0] != STUFFING_BYTE,
        cc < 16,
        (v0.buf is None),
        v0.queue == Seq::<Seq<u8>>::empty(),
    ensures
        (asm_push_all(v0, packetize_spec(s, pid, cc, 0)) == AsmView {
            buf: None,
            queue: seq![s],
        }),
{
    lemma_section_length_bound(s);
    let pkt = spec_packet_at(s, pid, cc, 0);
    let next = chunk_end(s, 0);
    let cc2 = (((cc & 0x0F) + 1) % 16) as u8;
    let rest = packetize_spec(s, pid, cc2, next);
    assert(packetize_spec(s, pid, cc, 0) == seq![pkt] + rest);
    lemma_packet_at_shape(s, pid, cc, 0);
    assert((seq![pkt] + rest)[0] == pkt);
    assert((seq![pkt] + rest).drop_first() =~= rest);

    // start-indicated packet: pointer byte 0 at offset 4, data from 5
    assert(pkt[4] == 0u8);
    assert(asm_push(v0, pkt) == push_start(v0, pkt));
    assert(push_start(v0, pkt) == scan_from(v0, pkt, 5));
    assert(pkt[5] == s[0]);

    // first absorption: three header bytes, then the chunk
    let b0 = Seq::<u8>::empty();
    let b1 = b0 + pkt.subrange(5, 8);
    assert(pkt.subrange(5, 8) =~= s.take(3));
    assert(b1 =~= s.take(3));
    assert(spec_section_length(b1) == spec_section_length(s));
    let total = BASIC_HEADER_SIZE + spec_section_length(s);
    assert(total == s.len());
    let take2: int = if 188 - 8 <= total - 3 {
        188 - 8
    } else {
        total - 3
    };
    let ab = absorb(b0, pkt, 5);
    if s.len() <= 183 {
        // whole section inside the first packet
        assert(next == s.len());
        assert(take2 == total - 3);
        assert(pkt.subrange(8, 8 + (s.len() - 3)) =~= s.subrange(3, s.len() as int));
        assert(ab.0 =~= s);
        assert(ab.1 == 5 + s.len());
        assert(is_complete_section(ab.0));
        let v2 = AsmView { buf: None, queue: seq![s] };
        assert(file_buf(v0, ab.0) =~~= v2);
        if 5 + s.len() < 188 {
            // the tail of the packet is stuffing: the scan stops
            assert(pkt[5 + s.len() as int] == STUFFING_BYTE);
            assert(scan_from(v2, pkt, 5 + s.len() as int) == v2);
        }
        assert(scan_from(v0, pkt, 5) == v2);
        assert(rest =~= Seq::<Seq<u8>>::empty());
        assert(asm_push_all(v2, rest) == v2);
    } else {
        // the first packet fills the buffer to 183 bytes
        assert(next == 183);
        assert(take2 == 180);
        assert(pkt.subrange(8, 188) =~= s.subrange(3, 183));
        assert(ab.0 =~= s.take(183));
        assert(ab.1 == 188);
        assert(ab.0.len() == 183 < total);
        assert(!is_complete_section(ab.0));
        assert(incomplete(ab.0));
        let v2 = AsmView { buf: Some(s.take(183)), queue: Seq::<Seq<u8>>::empty() };
        assert(file_buf(v0, ab.0) =~~= v2);
        assert(scan_from(v2, pkt, 188) == v2);
        assert(scan_from(v0, pkt, 5) == v2);
        assert(cc < 16 ==> (((cc & 0x0F) + 1) % 16) < 16) by (bit_vector);
        lemma_feed_rest(s, pid, cc2, 183, Seq::<Seq<u8>>::empty());
        assert(v0.queue.push(s) =~= seq![s]);
    }
    assert(v0.queue.push(s) =~= seq![s]);
}

/// Checksum round trip: appending the engine's checksum to a section body
/// yields a complete section; packetized and reassembled from empty, it
/// comes back exactly once, and the checksum recomputed over everything
/// before its final four bytes equals the value embedded in them.
pub proof fn lemma_checksum_round_trip(body: Seq<u8>, pid: u16, cc: u8, v0: AsmView)
    requires
        body.len() >= BASIC_HEADER_SIZE,
        spec_section_length(body) == body.len() + CRC_SIZE - BASIC_HEADER_SIZE,
        body[0] != STUFFING_BYTE,
        cc < 16,
        (v0.buf is None),
        v0.queue == Seq::<Seq<u8>>::empty(),
    ensures
        ({
            let s = body + crc_bytes(spec_crc32(body));
            &&& is_complete_section(s)
            &&& crc_matches(s)
            &&& asm_push_all(v0, packetize_spec(s, pid, cc, 0)) == AsmView {
                buf: None,
                queue: seq![s],
            }
        }),
{
    let s = body + crc_bytes(spec_crc32(body));
    assert(s.len() == body.len() + CRC_SIZE);
    assert(spec_section_length(s) == spec_section_length(body));
    assert(is_complete_section(s));
    assert(s.subrange(0, s.len() - CRC_SIZE) =~= body);
    assert(s.subrange(s.len() - CRC_SIZE, s.len() as int) =~= crc_bytes(spec_crc32(body)));
    assert(crc_matches(s));
    assert(s[0] == body[0]);
    lemma_packetize_assemble_inverse(s, pid, cc, v0);
}

} // verus!
