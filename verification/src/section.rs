//! PSI section header accessors and the table-checksum engine:
//! a 32-bit cyclic redundancy check, bit-serial, most-significant bit
//! first, polynomial 0x04C11DB7, initial register 0xFFFFFFFF, no final
//! inversion and no reflection.

use vstd::prelude::*;

verus! {

pub const BASIC_HEADER_SIZE: usize = 3;
pub const EXTENDED_HEADER_SIZE: usize = 8;
pub const CRC_SIZE: usize = 4;

/// A PSI section: a logically contiguous byte sequence.
pub type Section = Vec<u8>;

pub open spec fn spec_table_id(s: Seq<u8>) -> u8 {
    s[0]
}

/// The declared 12-bit length of everything after the length field.
pub open spec fn spec_section_length(s: Seq<u8>) -> usize {
    ((((s[1] & 0x0F) as u16) << 8) | (s[2] as u16)) as usize
}

pub open spec fn spec_table_id_extension(s: Seq<u8>) -> u16 {
    ((s[3] as u16) << 8) | (s[4] as u16)
}

pub open spec fn spec_current_next_indicator(s: Seq<u8>) -> bool {
    s[5] & 0x01 != 0
}

/// A section is complete exactly when its total length equals the basic
/// header size plus its declared section length.
pub open spec fn is_complete_section(s: Seq<u8>) -> bool {
    s.len() >= BASIC_HEADER_SIZE && s.len() == BASIC_HEADER_SIZE + spec_section_length(s)
}

/// The declared section length always fits in 12 bits.
pub proof fn lemma_section_length_bound(s: Seq<u8>)
    requires
        s.len() >= 3,
    ensures
        spec_section_length(s) <= 0xFFF,
{
    let a = s[1];
    let b = s[2];
    assert(((((a & 0x0F) as u16) << 8) | (b as u16)) <= 0xFFF) by (bit_vector);
}

pub fn table_id(section: &Section) -> (r: u8)
    requires
        section@.len() >= 1,
    ensures
        r == spec_table_id(section@),
{
    section[0]
}

pub fn section_length(section: &Section) -> (r: usize)
    requires
        section@.len() >= 3,
    ensures
        r == spec_section_length(section@),
        r <= 0xFFF,
{
    proof {
        lemma_section_length_bound(section@);
    }
    ((((section[1] & 0x0F) as u16) << 8) | (section[2] as u16)) as usize
}

pub fn table_id_extension(section: &Section) -> (r: u16)
    requires
        section@.len() >= 5,
    ensures
        r == spec_table_id_extension(section@),
{
    ((section[3] as u16) << 8) | (section[4] as u16)
}

pub fn current_next_indicator(section: &Section) -> (r: bool)
    requires
        section@.len() >= 6,
    ensures
        r == spec_current_next_indicator(section@),
{
    section[5] & 0x01 != 0
}

/// One shift of the checksum register by a single message bit
/// (`bit` is 0 or 1), most-significant bit first.
pub open spec fn crc_step_bit(crc: u32, bit: u8) -> u32 {
    let fb: u8 = if crc & 0x80000000 != 0 {
        1
    } else {
        0
    };
    if fb ^ bit != 0 {
        (crc << 1) ^ 0x04C11DB7
    } else {
        crc << 1
    }
}

pub open spec fn byte_bit(b: u8, i: u32) -> u8 {
    (b >> i) & 1
}

/// Eight register shifts, consuming one message byte from its
/// most-significant bit down.
pub open spec fn crc_step_byte(crc: u32, b: u8) -> u32 {
    crc_step_bit(
        crc_step_bit(
            crc_step_bit(
                crc_step_bit(
                    crc_step_bit(
                        crc_step_bit(
                            crc_step_bit(crc_step_bit(crc, byte_bit(b, 7)), byte_bit(b, 6)),
                            byte_bit(b, 5),
                        ),
                        byte_bit(b, 4),
                    ),
                    byte_bit(b, 3),
                ),
                byte_bit(b, 2),
            ),
            byte_bit(b, 1),
        ),
        byte_bit(b, 0),
    )
}

/// The table checksum of a byte sequence: register starts at 0xFFFFFFFF
/// and consumes each byte in order.
pub open spec fn spec_crc32(s: Seq<u8>) -> u32
    decreases s.len(),
{
    if s.len() == 0 {
        0xFFFFFFFF
    } else {
        crc_step_byte(spec_crc32(s.drop_last()), s.last())
    }
}

/// The big-endian four-byte encoding of a checksum value.
pub open spec fn crc_bytes(c: u32) -> Seq<u8> {
    seq![
        ((c >> 24) & 0xFF) as u8,
        ((c >> 16) & 0xFF) as u8,
        ((c >> 8) & 0xFF) as u8,
        (c & 0xFF) as u8,
    ]
}

/// A section whose trailing four bytes encode the checksum of everything
/// before them.
pub open spec fn crc_matches(s: Seq<u8>) -> bool {
    s.len() >= CRC_SIZE && s.subrange(s.len() - CRC_SIZE, s.len() as int) == crc_bytes(
        spec_crc32(s.subrange(0, s.len() - CRC_SIZE)),
    )
}

fn crc32_step_bit(crc: u32, bit: u8) -> (r: u32)
    ensures
        r == crc_step_bit(crc, bit),
{
    let fb: u8 = if crc & 0x80000000 != 0 {
        1
    } else {
        0
    };
    let sh = crc << 1u32;
    if fb ^ bit != 0 {
        sh ^ 0x04C11DB7
    } else {
        sh
    }
}

fn crc32_step_byte(crc: u32, b: u8) -> (r: u32)
    ensures
        r == crc_step_byte(crc, b),
{
    let mut c = crc32_step_bit(crc, (b >> 7u32) & 1);
    c = crc32_step_bit(c, (b >> 6u32) & 1);
    c = crc32_step_bit(c, (b >> 5u32) & 1);
    c = crc32_step_bit(c, (b >> 4u32) & 1);
    c = crc32_step_bit(c, (b >> 3u32) & 1);
    c = crc32_step_bit(c, (b >> 2u32) & 1);
    c = crc32_step_bit(c, (b >> 1u32) & 1);
    c = crc32_step_bit(c, b & 1);
    assert(b & 1 == byte_bit(b, 0)) by (bit_vector);
    c
}

/// Computes the table checksum over `section`.
pub fn crc32(section: &Section) -> (r: u32)
    ensures
        r == spec_crc32(section@),
{
    let mut crc: u32 = 0xFFFFFFFF;
    let mut idx: usize = 0;
    while idx < section.len()
        invariant
            idx <= section@.len(),
            crc == spec_crc32(section@.take(idx as int)),
        decreases section@.len() - idx,
    {
        let b = section[idx];
        crc = crc32_step_byte(crc, b);
        proof {
            let pre = section@.take(idx as int);
            let post = section@.take(idx + 1);
            assert(post.drop_last() =~= pre);
            assert(post.last() == section@[idx as int]);
        }
        idx = idx + 1;
    }
    proof {
        assert(section@.take(section@.len() as int) =~= section@);
    }
    crc
}

/// Appends the big-endian checksum of the current contents, so that the
/// grown section matches its own trailing checksum.
pub fn append_crc(out: &mut Vec<u8>)
    requires
        old(out)@.len() + CRC_SIZE <= usize::MAX,
    ensures
        final(out)@ == old(out)@ + crc_bytes(spec_crc32(old(out)@)),
        crc_matches(final(out)@),
{
    let c = crc32(out);
    out.push(((c >> 24u32) & 0xFF) as u8);
    out.push(((c >> 16u32) & 0xFF) as u8);
    out.push(((c >> 8u32) & 0xFF) as u8);
    out.push((c & 0xFF) as u8);
    proof {
        assert(out@ =~= old(out)@ + crc_bytes(spec_crc32(old(out)@)));
        assert(out@.subrange(0, out@.len() - CRC_SIZE) =~= old(out)@);
        assert(out@.subrange(out@.len() - CRC_SIZE, out@.len() as int) =~= crc_bytes(
            spec_crc32(old(out)@),
        ));
    }
}

} // verus!
