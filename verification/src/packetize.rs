//! The section packetizer: fragments one complete PSI section into the
//! minimal ordered run of fixed-size transport packets, start indicator
//! set only on the first, a zero pointer field on the first, payload flag
//! always set, no adaptation field, stuffing-byte padding on the last,
//! and the continuity counter advancing by one per packet, modulo 16.

use vstd::prelude::*;
use crate::packet::{Packet, PACKET_SIZE, HEADER_SIZE, SYNC_BYTE, STUFFING_BYTE, is_packet,
    spec_continuity_counter};

verus! {

/// Where the payload chunk starting at `begin` ends: the first packet
/// also carries the one-byte pointer field, so it holds one byte less.
pub open spec fn chunk_end(s: Seq<u8>, begin: int) -> int {
    let cap: int = if begin == 0 {
        (PACKET_SIZE - HEADER_SIZE - 1) as int
    } else {
        (PACKET_SIZE - HEADER_SIZE) as int
    };
    if s.len() <= begin + cap {
        s.len() as int
    } else {
        begin + cap
    }
}

/// The packet that carries the chunk of `s` starting at `begin`, under
/// continuity counter `cc`.
pub open spec fn spec_packet_at(s: Seq<u8>, pid: u16, cc: u8, begin: int) -> Seq<u8> {
    let next = chunk_end(s, begin);
    let hdr = seq![
        SYNC_BYTE,
        ((if begin == 0 {
            0x40u8
        } else {
            0u8
        }) | (((pid & 0x1F00) >> 8) as u8)),
        (pid & 0x00FF) as u8,
        (0x10u8 | (cc & 0x0F)),
    ];
    let body = if begin == 0 {
        seq![0u8] + s.subrange(0, next)
    } else {
        s.subrange(begin, next)
    };
    hdr + body + Seq::<u8>::new(
        (PACKET_SIZE - HEADER_SIZE - body.len()) as nat,
        |i: int| STUFFING_BYTE,
    )
}

/// The full run of packets for the part of `s` from `begin` on.
pub open spec fn packetize_spec(s: Seq<u8>, pid: u16, cc: u8, begin: int) -> Seq<Seq<u8>>
    decreases s.len() - begin,
{
    if begin < 0 || begin >= s.len() {
        Seq::empty()
    } else {
        seq![spec_packet_at(s, pid, cc, begin)] + packetize_spec(
            s,
            pid,
            (((cc & 0x0F) + 1) % 16) as u8,
            chunk_end(s, begin),
        )
    }
}

/// Fragments `section` into transport packets on channel `pid`, the first
/// packet stamped with continuity counter `continuity_counter` and each
/// further packet with the counter advanced by one, modulo 16.
pub fn packtize_section(section: &Vec<u8>, pid: u16, continuity_counter: u8) -> (r: Vec<Packet>)
    requires
        continuity_counter < 16,
        section@.len() + PACKET_SIZE <= usize::MAX,
    ensures
        r.deep_view() == packetize_spec(section@, pid, continuity_counter, 0),
        forall|k: int| 0 <= k < r@.len() ==> is_packet(#[trigger] r.deep_view()[k]),
        forall|k: int|
            0 <= k < r@.len() ==> spec_continuity_counter(#[trigger] r.deep_view()[k]) == (
            continuity_counter + k) % 16,
{
    let ghost s = section@;
    let ghost cc0 = continuity_counter;
    let mut packets: Vec<Packet> = Vec::new();
    let mut cc = continuity_counter;
    let mut begin: usize = 0;
    while begin < section.len()
        invariant
            section@ == s,
            continuity_counter == cc0,
            cc0 < 16,
            s.len() + PACKET_SIZE <= usize::MAX,
            cc < 16,
            begin <= s.len(),
            packets.deep_view() + packetize_spec(s, pid, cc, begin as int) =~~= packetize_spec(
                s,
                pid,
                cc0,
                0,
            ),
            cc == (cc0 + packets@.len()) % 16,
            forall|k: int| 0 <= k < packets@.len() ==> is_packet(#[trigger] packets.deep_view()[k]),
            forall|k: int|
                0 <= k < packets@.len() ==> spec_continuity_counter(
                    #[trigger] packets.deep_view()[k],
                ) == (cc0 + k) % 16,
        decreases s.len() - begin,
    {
        let ghost packets_pre = packets.deep_view();
        let ghost cc_pre = cc;
        let ghost begin_pre = begin as int;
        let mut packet: Vec<u8> = Vec::new();
        packet.push(SYNC_BYTE);
        packet.push(
            (if begin == 0 {
                0x40u8
            } else {
                0u8
            }) | (((pid & 0x1F00) >> 8) as u8),
        );
        packet.push((pid & 0x00FF) as u8);
        packet.push(0x10u8 | (cc & 0x0F));
        proof {
            assert(cc < 16 ==> (cc & 0x0F) + 1 <= 16) by (bit_vector);
        }
        cc = ((cc & 0x0F) + 1) % 16;

        let cap: usize = if begin == 0 {
            PACKET_SIZE - HEADER_SIZE - 1
        } else {
            PACKET_SIZE - HEADER_SIZE
        };
        let next: usize = if section.len() <= begin + cap {
            section.len()
        } else {
            begin + cap
        };
        if begin == 0 {
            packet.push(0u8);
        }
        let ghost hdr_part = packet@;
        let mut j: usize = begin;
        while j < next
            invariant
                begin <= j <= next <= s.len(),
                section@ == s,
                begin == begin_pre,
                packet@ == (hdr_part + (if begin_pre == 0 {
                    s.subrange(0, j as int)
                } else {
                    s.subrange(begin_pre, j as int)
                })),
            decreases next - j,
        {
            let b = section[j];
            packet.push(b);
            proof {
                if begin_pre == 0 {
                    assert(s.subrange(0, j + 1) =~= s.subrange(0, j as int).push(s[j as int]));
                } else {
                    assert(s.subrange(begin_pre, j + 1) =~= s.subrange(begin_pre, j as int).push(
                        s[j as int],
                    ));
                }
            }
            j = j + 1;
        }
        let ghost body = packet@;
        proof {
            assert(body.len() <= PACKET_SIZE);
        }
        while packet.len() < PACKET_SIZE
            invariant
                body.len() <= packet@.len() <= PACKET_SIZE,
                packet@ == body + Seq::<u8>::new(
                    (packet@.len() - body.len()) as nat,
                    |i: int| STUFFING_BYTE,
                ),
            decreases PACKET_SIZE - packet@.len(),
        {
            packet.push(STUFFING_BYTE);
            proof {
                assert(packet@ =~= body + Seq::<u8>::new(
                    (packet@.len() - body.len()) as nat,
                    |i: int| STUFFING_BYTE,
                ));
            }
        }
        proof {
            assert(chunk_end(s, begin_pre) == next);
            assert(packet@ =~= spec_packet_at(s, pid, cc_pre, begin_pre));
            assert(cc_pre < 16 ==> (0x10u8 | (cc_pre & 0x0F)) & 0x0F == cc_pre) by (bit_vector);
            assert(spec_continuity_counter(packet@) == cc_pre);
        }
        packets.push(packet);
        proof {
            assert(packets.deep_view() =~~= packets_pre.push(
                spec_packet_at(s, pid, cc_pre, begin_pre),
            ));
            assert(packets.deep_view() + packetize_spec(s, pid, cc, next as int) =~~= packets_pre
                + packetize_spec(s, pid, cc_pre, begin_pre));
            assert(cc_pre < 16 ==> ((cc_pre & 0x0F) + 1) % 16 == ((cc_pre + 1) as u8) % 16)
                by (bit_vector);
            vstd::arithmetic::div_mod::lemma_add_mod_noop(
                cc0 as int + packets_pre.len() as int,
                1,
                16,
            );
            vstd::arithmetic::div_mod::lemma_small_mod(1nat, 16nat);
        }
        begin = next;
    }
    proof {
        assert(packets.deep_view() + Seq::<Seq<u8>>::empty() =~~= packets.deep_view());
    }
    packets
}

} // verus!
