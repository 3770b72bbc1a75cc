//! Transport-packet field codec: read-only accessors over a fixed-size
//! byte buffer, plus the channel-number patch used when replayed packets
//! are re-targeted.

use vstd::prelude::*;

verus! {

pub const PACKET_SIZE: usize = 188;
pub const HEADER_SIZE: usize = 4;
pub const SYNC_BYTE: u8 = 0x47;
pub const STUFFING_BYTE: u8 = 0xFF;
/// Rollover modulus of the 33-bit reference-clock base (2^33).
pub const MPEGTS_TIMESTAMP_CLOCKS: u64 = 8589934592;
pub const MPEGTS_TIMESTAMP_1SEC: u64 = 90000;

/// A transport packet: exactly `PACKET_SIZE` bytes.
pub type Packet = Vec<u8>;

/// A byte sequence is a transport packet when it has exactly the fixed size.
pub open spec fn is_packet(s: Seq<u8>) -> bool {
    s.len() == PACKET_SIZE
}

pub open spec fn spec_sync_byte(s: Seq<u8>) -> u8 {
    s[0]
}

pub open spec fn spec_transport_error_indicator(s: Seq<u8>) -> bool {
    s[1] & 0x80 != 0
}

pub open spec fn spec_payload_unit_start_indicator(s: Seq<u8>) -> bool {
    s[1] & 0x40 != 0
}

pub open spec fn spec_transport_priority(s: Seq<u8>) -> bool {
    s[1] & 0x20 != 0
}

pub open spec fn spec_pid(s: Seq<u8>) -> u16 {
    (((s[1] & 0x1F) as u16) << 8) | (s[2] as u16)
}

pub open spec fn spec_transport_scrambling_control(s: Seq<u8>) -> u8 {
    (s[3] & 0xC0) >> 6
}

pub open spec fn spec_has_adaptation_field(s: Seq<u8>) -> bool {
    s[3] & 0x20 != 0
}

pub open spec fn spec_has_payload(s: Seq<u8>) -> bool {
    s[3] & 0x10 != 0
}

pub open spec fn spec_continuity_counter(s: Seq<u8>) -> u8 {
    s[3] & 0x0F
}

pub open spec fn spec_adaptation_field_length(s: Seq<u8>) -> usize {
    if !spec_has_adaptation_field(s) {
        0
    } else {
        s[HEADER_SIZE as int] as usize
    }
}

pub open spec fn spec_pointer_field_offset(s: Seq<u8>) -> usize {
    (HEADER_SIZE + spec_adaptation_field_length(s)) as usize
}

pub open spec fn spec_has_pcr(s: Seq<u8>) -> bool {
    spec_has_adaptation_field(s) && spec_adaptation_field_length(s) != 0 && s[5] & 0x10 != 0
}

/// The 33-bit reference-clock base carried in the adaptation field:
/// 32 bits from bytes 6..10 and one top bit of byte 10.
pub open spec fn spec_pcr_base(s: Seq<u8>) -> u64 {
    (((s[6] as u64) << 25) | ((s[7] as u64) << 17) | ((s[8] as u64) << 9) | ((s[9] as u64) << 1))
        | (((s[10] & 0x80) as u64) >> 7)
}

pub fn sync_byte(packet: &Packet) -> (r: u8)
    requires
        is_packet(packet@),
    ensures
        r == spec_sync_byte(packet@),
{
    packet[0]
}

pub fn transport_error_indicator(packet: &Packet) -> (r: bool)
    requires
        is_packet(packet@),
    ensures
        r == spec_transport_error_indicator(packet@),
{
    packet[1] & 0x80 != 0
}

pub fn payload_unit_start_indicator(packet: &Packet) -> (r: bool)
    requires
        is_packet(packet@),
    ensures
        r == spec_payload_unit_start_indicator(packet@),
{
    packet[1] & 0x40 != 0
}

pub fn transport_priority(packet: &Packet) -> (r: bool)
    requires
        is_packet(packet@),
    ensures
        r == spec_transport_priority(packet@),
{
    packet[1] & 0x20 != 0
}

/// The 13-bit channel identifier.
pub fn pid(packet: &Packet) -> (r: u16)
    requires
        is_packet(packet@),
    ensures
        r == spec_pid(packet@),
        r < 0x2000,
{
    let r = (((packet[1] & 0x1F) as u16) << 8) | (packet[2] as u16);
    proof {
        let a = packet@[1];
        let b = packet@[2];
        assert((((a & 0x1F) as u16) << 8) | (b as u16) < 0x2000) by (bit_vector);
    }
    r
}

pub fn transport_scrambling_control(packet: &Packet) -> (r: u8)
    requires
        is_packet(packet@),
    ensures
        r == spec_transport_scrambling_control(packet@),
{
    (packet[3] & 0xC0) >> 6
}

pub fn has_adaptation_field(packet: &Packet) -> (r: bool)
    requires
        is_packet(packet@),
    ensures
        r == spec_has_adaptation_field(packet@),
{
    packet[3] & 0x20 != 0
}

pub fn has_payload(packet: &Packet) -> (r: bool)
    requires
        is_packet(packet@),
    ensures
        r == spec_has_payload(packet@),
{
    packet[3] & 0x10 != 0
}

pub fn continuity_counter(packet: &Packet) -> (r: u8)
    requires
        is_packet(packet@),
    ensures
        r == spec_continuity_counter(packet@),
        r < 16,
{
    let r = packet[3] & 0x0F;
    proof {
        let a = packet@[3];
        assert(a & 0x0F < 16) by (bit_vector);
    }
    r
}

pub fn adaptation_field_length(packet: &Packet) -> (r: usize)
    requires
        is_packet(packet@),
    ensures
        r == spec_adaptation_field_length(packet@),
        r <= 255,
{
    if !has_adaptation_field(packet) {
        0
    } else {
        packet[HEADER_SIZE] as usize
    }
}

/// Offset of the byte just past the header and any adaptation field.
pub fn pointer_field_offset(packet: &Packet) -> (r: usize)
    requires
        is_packet(packet@),
    ensures
        r == spec_pointer_field_offset(packet@),
        HEADER_SIZE <= r <= HEADER_SIZE + 255,
{
    HEADER_SIZE + adaptation_field_length(packet)
}

pub fn has_pcr(packet: &Packet) -> (r: bool)
    requires
        is_packet(packet@),
    ensures
        r == spec_has_pcr(packet@),
{
    has_adaptation_field(packet) && adaptation_field_length(packet) != 0 && (packet[HEADER_SIZE
        + 1] & 0x10) != 0
}

/// The reference-clock base, when the adaptation field carries one.
pub fn pcr(packet: &Packet) -> (r: Option<u64>)
    requires
        is_packet(packet@),
    ensures
        r is Some <==> spec_has_pcr(packet@),
        r is Some ==> r->0 == spec_pcr_base(packet@) && r->0 < MPEGTS_TIMESTAMP_CLOCKS,
{
    if !has_pcr(packet) {
        return None;
    }
    let b6 = packet[6];
    let b7 = packet[7];
    let b8 = packet[8];
    let b9 = packet[9];
    let b10 = packet[10];
    let pcr_base: u64 = (((b6 as u64) << 25) | ((b7 as u64) << 17) | ((b8 as u64) << 9) | ((
    b9 as u64) << 1)) | (((b10 & 0x80) as u64) >> 7);
    proof {
        assert((((b6 as u64) << 25) | ((b7 as u64) << 17) | ((b8 as u64) << 9) | ((b9 as u64) << 1))
            | (((b10 & 0x80) as u64) >> 7) < 8589934592u64) by (bit_vector);
    }
    Some(pcr_base)
}

/// A packet with its 13-bit channel identifier overwritten and every
/// other bit kept.
pub open spec fn spec_set_pid(p: Seq<u8>, new_pid: u16) -> Seq<u8> {
    p.update(1, (p[1] & 0xE0) | (((new_pid & 0x1F00) >> 8) as u8)).update(
        2,
        (new_pid & 0x00FF) as u8,
    )
}

/// Overwrites the 13-bit channel identifier, leaving every other header
/// bit and every other byte unchanged.
pub fn set_pid(packet: &mut Packet, new_pid: u16)
    requires
        is_packet(old(packet)@),
        new_pid < 0x2000,
    ensures
        final(packet)@ == spec_set_pid(old(packet)@, new_pid),
        is_packet(final(packet)@),
        spec_pid(final(packet)@) == new_pid,
        final(packet)@[1] & 0xE0 == old(packet)@[1] & 0xE0,
        forall|i: int|
            0 <= i < PACKET_SIZE && i != 1 && i != 2 ==> final(packet)@[i] == old(packet)@[i],
{
    let hi = (packet[1] & 0xE0) | (((new_pid & 0x1F00) >> 8) as u8);
    let lo = (new_pid & 0x00FF) as u8;
    let ghost old1 = packet@[1];
    packet[1] = hi;
    packet[2] = lo;
    proof {
        assert(packet@ =~= spec_set_pid(old(packet)@, new_pid));
        assert(new_pid < 0x2000 ==> (((((old1 & 0xE0) | (((new_pid & 0x1F00) >> 8) as u8)) & 0x1F)
            as u16) << 8) | (((new_pid & 0x00FF) as u8) as u16) == new_pid) by (bit_vector);
        assert(((old1 & 0xE0) | (((new_pid & 0x1F00) >> 8) as u8)) & 0xE0 == old1 & 0xE0)
            by (bit_vector);
    }
}

} // verus!
