//! The table rewriter: produces fresh PAT and PMT sections from decoded
//! ones and the discovery state, patches the declared section length, and
//! appends a freshly computed checksum. Also the shared PAT/PMT field
//! parsing both passes use.

use vstd::prelude::*;
use crate::section::{Section, BASIC_HEADER_SIZE, EXTENDED_HEADER_SIZE, CRC_SIZE,
    spec_section_length, spec_table_id, spec_table_id_extension, is_complete_section, spec_crc32,
    crc_bytes, crc_matches, append_crc, section_length, lemma_section_length_bound};

verus! {

/// The channel number that marks a PAT entry as the network-information
/// reference, to be skipped when searching for the program map channel.
pub const PAT_NIT_PID: u16 = 0x10;

/// The synthetic program-map channel number written into rewritten PATs.
/// It coincides with `PAT_NIT_PID` by design; the two constants are kept
/// apart because they mean different things.
pub const REWRITTEN_PMT_PID: u16 = 0x10;

/// Additive offset applied to a replaced elementary stream's channel
/// number; zero today, reserved for collision avoidance.
pub const REPLACE_PID_OFFSET: u16 = 0;

/// A data-carousel stream type: qualifies for replacement outright.
pub const STREAM_TYPE_CAROUSEL: u8 = 0x0D;

/// A synchronized-data stream type: qualifies only with the component
/// descriptor below.
pub const STREAM_TYPE_SYNC_DATA: u8 = 0x06;

/// Descriptor tag and discriminator byte that qualify a synchronized-data
/// stream for replacement.
pub const QUALIFYING_DESC_TAG: u8 = 0x52;

pub const QUALIFYING_DESC_VALUE: u8 = 0x38;

/// One elementary stream to graft into the rewritten program map.
pub struct ReplaceStream {
    pub original_pid: u16,
    pub stream_type: u8,
    pub target_pid: u16,
    pub es_info: Vec<u8>,
}

/// The mathematical image of a `ReplaceStream`.
pub struct RepView {
    pub original_pid: u16,
    pub stream_type: u8,
    pub target_pid: u16,
    pub es_info: Seq<u8>,
}

impl ReplaceStream {
    pub open spec fn rep_view(self) -> RepView {
        RepView {
            original_pid: self.original_pid,
            stream_type: self.stream_type,
            target_pid: self.target_pid,
            es_info: self.es_info@,
        }
    }
}

/// A record the rewriter can encode: channel numbers of 13 bits, a
/// descriptor loop that fits its 12-bit length field, and the target
/// computed from the original by the fixed offset.
pub open spec fn rep_wf(r: RepView) -> bool {
    &&& r.original_pid < 0x2000
    &&& r.target_pid == REPLACE_PID_OFFSET + r.original_pid
    &&& r.es_info.len() <= 0xFFF
}

/// The wire encoding of one grafted program-map entry.
pub open spec fn encode_rep(r: RepView) -> Seq<u8> {
    seq![
        r.stream_type,
        ((r.target_pid & 0x1F00) >> 8) as u8,
        (r.target_pid & 0x00FF) as u8,
        (((r.es_info.len() as u16) & 0x0F00) >> 8) as u8,
        ((r.es_info.len() as u16) & 0x00FF) as u8,
    ] + r.es_info
}

/// The wire encoding of a run of grafted entries, in order.
pub open spec fn encode_reps(rs: Seq<RepView>) -> Seq<u8>
    decreases rs.len(),
{
    if rs.len() == 0 {
        Seq::empty()
    } else {
        encode_rep(rs[0]) + encode_reps(rs.drop_first())
    }
}

/// Rewrites the declared section length to cover everything that follows
/// the length field, the checksum included.
pub open spec fn patch_len(body: Seq<u8>) -> Seq<u8> {
    let l = (body.len() + CRC_SIZE - BASIC_HEADER_SIZE) as usize;
    body.update(1, (body[1] & 0xF0) | (((l & 0x0F00) >> 8) as u8)).update(2, (l & 0x00FF) as u8)
}

/// Length patch followed by the appended checksum: how every rewritten
/// section is finished.
pub open spec fn finish_section(body: Seq<u8>) -> Seq<u8> {
    patch_len(body) + crc_bytes(spec_crc32(patch_len(body)))
}

/// Patches the declared section length of `out` as `patch_len` describes.
pub fn patch_section_length(out: &mut Vec<u8>)
    requires
        old(out)@.len() >= BASIC_HEADER_SIZE,
        old(out)@.len() + CRC_SIZE <= usize::MAX,
    ensures
        final(out)@ == patch_len(old(out)@),
        final(out)@.len() == old(out)@.len(),
        old(out)@.len() + CRC_SIZE - BASIC_HEADER_SIZE <= 0xFFF ==> spec_section_length(
            final(out)@,
        ) == old(out)@.len() + CRC_SIZE - BASIC_HEADER_SIZE,
{
    let l: usize = out.len() + CRC_SIZE - BASIC_HEADER_SIZE;
    let b1 = out[1];
    let hi: u8 = ((l & 0x0F00) >> 8) as u8;
    let lo: u8 = (l & 0x00FF) as u8;
    out[1] = (b1 & 0xF0) | hi;
    out[2] = lo;
    proof {
        assert(out@ =~= patch_len(old(out)@));
        assert(l <= 0xFFF ==> (((((b1 & 0xF0) | (((l & 0x0F00) >> 8) as u8)) & 0x0F) as u16) << 8)
            | (((l & 0x00FF) as u8) as u16) == l) by (bit_vector);
    }
}

/// The body of a rewritten PAT, before the length patch and checksum: the
/// input's extended header carrying the discovered transport-stream id,
/// then exactly one program entry mapping the discovered program number to
/// the synthetic program-map channel.
pub open spec fn pat_body(s: Seq<u8>, tsid: u16, n: u16) -> Seq<u8> {
    s.subrange(0, EXTENDED_HEADER_SIZE as int).update(3, ((tsid & 0xFF00) >> 8) as u8).update(
        4,
        (tsid & 0x00FF) as u8,
    ) + seq![
        ((n & 0xFF00) >> 8) as u8,
        (n & 0x00FF) as u8,
        ((REWRITTEN_PMT_PID & 0x1F00) >> 8) as u8,
        (REWRITTEN_PMT_PID & 0x00FF) as u8,
    ]
}

/// The whole rewritten PAT.
pub open spec fn rewrite_pat_spec(s: Seq<u8>, tsid: u16, n: u16) -> Seq<u8> {
    finish_section(pat_body(s, tsid, n))
}

/// The program number of the PAT entry at index `k` of section `s`.
pub open spec fn pat_entry_program(s: Seq<u8>, k: int) -> u16 {
    ((s[EXTENDED_HEADER_SIZE + 4 * k] as u16) << 8) | (s[EXTENDED_HEADER_SIZE + 4 * k + 1] as u16)
}

/// The program-map channel of the PAT entry at index `k` of section `s`.
pub open spec fn pat_entry_pid(s: Seq<u8>, k: int) -> u16 {
    (((s[EXTENDED_HEADER_SIZE + 4 * k + 2] & 0x1F) as u16) << 8) | (s[EXTENDED_HEADER_SIZE + 4 * k
        + 3] as u16)
}

/// How many whole program entries a complete section of length `len` holds.
pub open spec fn pat_entry_count(len: int) -> int {
    (len - EXTENDED_HEADER_SIZE - CRC_SIZE) / 4
}

/// Rewrites one PAT: the discovered transport-stream id replaces the table
/// extension, and the entry loop becomes exactly one entry, the discovered
/// program number mapped to the synthetic program-map channel, followed by
/// the patched length and a fresh checksum.
pub fn rewrite_pat(pat: &Section, transport_stream_id: u16, program_number: u16) -> (r: Vec<u8>)
    requires
        pat@.len() >= EXTENDED_HEADER_SIZE,
    ensures
        r@ == rewrite_pat_spec(pat@, transport_stream_id, program_number),
        r@.len() == EXTENDED_HEADER_SIZE + 4 + CRC_SIZE,
        is_complete_section(r@),
        crc_matches(r@),
        spec_table_id(r@) == spec_table_id(pat@),
        spec_table_id_extension(r@) == transport_stream_id,
        pat_entry_count(r@.len() as int) == 1,
        pat_entry_program(r@, 0) == program_number,
        pat_entry_pid(r@, 0) == REWRITTEN_PMT_PID,
{
    let mut out: Vec<u8> = Vec::new();
    let mut i: usize = 0;
    while i < EXTENDED_HEADER_SIZE
        invariant
            pat@.len() >= EXTENDED_HEADER_SIZE,
            i <= EXTENDED_HEADER_SIZE,
            out@ == pat@.subrange(0, i as int),
        decreases EXTENDED_HEADER_SIZE - i,
    {
        let b = pat[i];
        out.push(b);
        proof {
            assert(pat@.subrange(0, i + 1) =~= pat@.subrange(0, i as int).push(pat@[i as int]));
        }
        i = i + 1;
    }
    out[3] = ((transport_stream_id & 0xFF00) >> 8) as u8;
    out[4] = (transport_stream_id & 0x00FF) as u8;
    out.push(((program_number & 0xFF00) >> 8) as u8);
    out.push((program_number & 0x00FF) as u8);
    out.push(((REWRITTEN_PMT_PID & 0x1F00) >> 8) as u8);
    out.push((REWRITTEN_PMT_PID & 0x00FF) as u8);
    proof {
        assert(out@ =~= pat_body(pat@, transport_stream_id, program_number));
    }
    patch_section_length(&mut out);
    append_crc(&mut out);
    proof {
        let r = out@;
        let n = program_number;
        let t = transport_stream_id;
        assert(r[8] == ((n & 0xFF00) >> 8) as u8 && r[9] == (n & 0x00FF) as u8);
        assert(((((n & 0xFF00) >> 8) as u8 as u16) << 8) | ((n & 0x00FF) as u8 as u16) == n)
            by (bit_vector);
        assert((((((0x10u16 & 0x1F00) >> 8) as u8 & 0x1F) as u16) << 8) | ((0x10u16
            & 0x00FF) as u8 as u16) == 0x10u16) by (bit_vector);
        assert(((((t & 0xFF00) >> 8) as u8 as u16) << 8) | ((t & 0x00FF) as u8 as u16) == t)
            by (bit_vector);
    }
    out
}

/// The program-clock channel declared by a PMT.
pub open spec fn spec_pmt_pcr_pid(s: Seq<u8>) -> u16 {
    (((s[EXTENDED_HEADER_SIZE as int] & 0x1F) as u16) << 8) | (s[EXTENDED_HEADER_SIZE + 1] as u16)
}

/// The declared length of a PMT's leading descriptor loop.
pub open spec fn spec_pmt_program_info_length(s: Seq<u8>) -> usize {
    ((((s[EXTENDED_HEADER_SIZE + 2] & 0x0F) as u16) << 8) | (s[EXTENDED_HEADER_SIZE
        + 3] as u16)) as usize
}

pub fn pmt_pcr_pid(pmt: &Section) -> (r: u16)
    requires
        pmt@.len() >= EXTENDED_HEADER_SIZE + 2,
    ensures
        r == spec_pmt_pcr_pid(pmt@),
        r < 0x2000,
{
    let a = pmt[EXTENDED_HEADER_SIZE];
    let b = pmt[EXTENDED_HEADER_SIZE + 1];
    proof {
        assert((((a & 0x1F) as u16) << 8) | (b as u16) < 0x2000) by (bit_vector);
    }
    (((a & 0x1F) as u16) << 8) | (b as u16)
}

pub fn pmt_program_info_length(pmt: &Section) -> (r: usize)
    requires
        pmt@.len() >= EXTENDED_HEADER_SIZE + 4,
    ensures
        r == spec_pmt_program_info_length(pmt@),
        r <= 0xFFF,
{
    let a = pmt[EXTENDED_HEADER_SIZE + 2];
    let b = pmt[EXTENDED_HEADER_SIZE + 3];
    proof {
        assert(((((a & 0x0F) as u16) << 8) | (b as u16)) <= 0xFFF) by (bit_vector);
    }
    (((((a & 0x0F) as u16) << 8) | (b as u16))) as usize
}

/// Where a section's data region ends: just before the trailing checksum.
pub open spec fn data_end(s: Seq<u8>) -> int {
    BASIC_HEADER_SIZE + spec_section_length(s) - CRC_SIZE
}

/// The declared descriptor-loop length of the stream entry at `begin`.
pub open spec fn es_info_len(s: Seq<u8>, begin: int) -> int {
    ((((s[begin + 3] & 0x0F) as u16) << 8) | (s[begin + 4] as u16)) as int
}

/// Whether a whole stream entry starts at `begin`.
pub open spec fn es_entry_at(s: Seq<u8>, begin: int) -> bool {
    &&& begin + 5 <= data_end(s)
    &&& data_end(s) <= s.len()
    &&& begin + 5 + es_info_len(s, begin) <= data_end(s)
}

/// Where the run of whole stream entries starting at `begin` stops.
pub open spec fn es_walk_end(s: Seq<u8>, begin: int) -> int
    decreases data_end(s) - begin,
{
    if es_entry_at(s, begin) {
        es_walk_end(s, begin + 5 + es_info_len(s, begin))
    } else {
        begin
    }
}

/// The body of a rewritten PMT: the header and descriptor loop copied with
/// the table extension replaced by the discovered program number, every
/// original stream entry verbatim, then the grafted entries in list order.
pub open spec fn pmt_body(s: Seq<u8>, n: u16, rs: Seq<RepView>) -> Seq<u8> {
    let start = EXTENDED_HEADER_SIZE + 4 + spec_pmt_program_info_length(s);
    s.subrange(0, start as int).update(3, ((n & 0xFF00) >> 8) as u8).update(
        4,
        (n & 0x00FF) as u8,
    ) + s.subrange(start as int, es_walk_end(s, start as int)) + encode_reps(rs)
}

/// The whole rewritten PMT.
pub open spec fn rewrite_pmt_spec(s: Seq<u8>, n: u16, rs: Seq<RepView>) -> Seq<u8> {
    finish_section(pmt_body(s, n, rs))
}

/// Rewrites one PMT: header and descriptor loop kept (table extension
/// becomes the discovered program number), original stream entries copied
/// unchanged and in order, one entry appended per replacement record in
/// list order, then the patched length and a fresh checksum.
pub fn rewrite_pmt(pmt: &Section, program_number: u16, streams: &Vec<ReplaceStream>) -> (r: Vec<
    u8,
>)
    requires
        pmt@.len() >= EXTENDED_HEADER_SIZE + 4,
        EXTENDED_HEADER_SIZE + 4 + spec_pmt_program_info_length(pmt@) <= pmt@.len(),
        forall|i: int| 0 <= i < streams@.len() ==> rep_wf(#[trigger] streams@[i].rep_view()),
        pmt@.len() + encode_reps(streams@.map_values(|x: ReplaceStream| x.rep_view())).len()
            + 2 * CRC_SIZE <= usize::MAX,
    ensures
        r@ == rewrite_pmt_spec(
            pmt@,
            program_number,
            streams@.map_values(|x: ReplaceStream| x.rep_view()),
        ),
        crc_matches(r@),
        spec_table_id(r@) == spec_table_id(pmt@),
        spec_table_id_extension(r@) == program_number,
        r@.len() + CRC_SIZE <= 0xFFF + BASIC_HEADER_SIZE + CRC_SIZE ==> is_complete_section(r@),
        r@.len() <= pmt@.len() + encode_reps(streams@.map_values(|x: ReplaceStream| x.rep_view()))
            .len() + CRC_SIZE,
{
    let ghost rs = streams@.map_values(|x: ReplaceStream| x.rep_view());
    let pil = pmt_program_info_length(pmt);
    let start = EXTENDED_HEADER_SIZE + 4 + pil;
    let mut out: Vec<u8> = Vec::new();
    let mut i: usize = 0;
    while i < start
        invariant
            pmt@.len() >= start,
            start == EXTENDED_HEADER_SIZE + 4 + spec_pmt_program_info_length(pmt@),
            i <= start,
            out@ == pmt@.subrange(0, i as int),
        decreases start - i,
    {
        let b = pmt[i];
        out.push(b);
        proof {
            assert(pmt@.subrange(0, i + 1) =~= pmt@.subrange(0, i as int).push(pmt@[i as int]));
        }
        i = i + 1;
    }
    out[3] = ((program_number & 0xFF00) >> 8) as u8;
    out[4] = (program_number & 0x00FF) as u8;
    let ghost prefix = out@;

    // copy the original stream entries verbatim, whole entries only
    proof {
        lemma_section_length_bound(pmt@);
    }
    let send = section_length(pmt);
    let mut begin = start;
    while begin + 5 + CRC_SIZE <= BASIC_HEADER_SIZE + send && BASIC_HEADER_SIZE + send - CRC_SIZE
        <= pmt.len() && begin + 5 + es_info_length_at(pmt, begin) + CRC_SIZE <= BASIC_HEADER_SIZE
        + send
        invariant
            pmt@.len() >= start,
            start == EXTENDED_HEADER_SIZE + 4 + spec_pmt_program_info_length(pmt@),
            send == spec_section_length(pmt@),
            send <= 0xFFF,
            start <= begin <= pmt@.len(),
            begin <= 4200,
            out@ == prefix + pmt@.subrange(start as int, begin as int),
            es_walk_end(pmt@, begin as int) == es_walk_end(pmt@, start as int),
        decreases BASIC_HEADER_SIZE + spec_section_length(pmt@) - CRC_SIZE - begin,
    {
        let el = es_info_length_at(pmt, begin);
        let stop = begin + 5 + el;
        let mut j = begin;
        while j < stop
            invariant
                pmt@.len() >= stop,
                start as int <= begin as int <= j as int <= stop,
                out@ == prefix + pmt@.subrange(start as int, j as int),
            decreases stop - j,
        {
            let b = pmt[j];
            out.push(b);
            proof {
                assert(pmt@.subrange(start as int, j + 1) =~= pmt@.subrange(
                    start as int,
                    j as int,
                ).push(pmt@[j as int]));
            }
            j = j + 1;
        }
        begin = stop;
    }
    proof {
        assert(!es_entry_at(pmt@, begin as int));
        assert(es_walk_end(pmt@, begin as int) == begin as int);
        assert(out@ == prefix + pmt@.subrange(start as int, es_walk_end(pmt@, start as int)));
    }

    // append the grafted entries in list order
    let ghost copied = out@;
    let mut k: usize = 0;
    while k < streams.len()
        invariant
            k <= streams@.len(),
            rs == streams@.map_values(|x: ReplaceStream| x.rep_view()),
            forall|i: int| 0 <= i < streams@.len() ==> rep_wf(#[trigger] streams@[i].rep_view()),
            out@ == copied + encode_reps(rs.take(k as int)),
        decreases streams@.len() - k,
    {
        let rec = &streams[k];
        let ghost out_pre = out@;
        out.push(rec.stream_type);
        out.push(((rec.target_pid & 0x1F00) >> 8) as u8);
        out.push((rec.target_pid & 0x00FF) as u8);
        let el16 = rec.es_info.len() as u16;
        out.push(((el16 & 0x0F00) >> 8) as u8);
        out.push((el16 & 0x00FF) as u8);
        let mut j: usize = 0;
        let ghost out_hdr = out@;
        while j < rec.es_info.len()
            invariant
                j <= rec.es_info@.len(),
                out@ == out_hdr + rec.es_info@.subrange(0, j as int),
            decreases rec.es_info@.len() - j,
        {
            let b = rec.es_info[j];
            out.push(b);
            proof {
                assert(rec.es_info@.subrange(0, j + 1) =~= rec.es_info@.subrange(0, j as int).push(
                    rec.es_info@[j as int],
                ));
            }
            j = j + 1;
        }
        proof {
            assert(rec.es_info@.subrange(0, rec.es_info@.len() as int) =~= rec.es_info@);
            assert(out@ =~= out_pre + encode_rep(streams@[k as int].rep_view()));
            lemma_encode_reps_take(rs, k as int);
            assert(out@ =~= copied + encode_reps(rs.take(k as int + 1)));
        }
        k = k + 1;
    }
    proof {
        assert(rs.take(rs.len() as int) =~= rs);
        assert(out@ == pmt_body(pmt@, program_number, rs));
        assert(copied.len() == begin as int);
        assert(out@.len() + 2 * CRC_SIZE <= usize::MAX);
    }
    patch_section_length(&mut out);
    append_crc(&mut out);
    proof {
        let r = out@;
        let n = program_number;
        assert(((((n & 0xFF00) >> 8) as u8 as u16) << 8) | ((n & 0x00FF) as u8 as u16) == n)
            by (bit_vector);
    }
    out
}

/// Encoding a longer prefix appends exactly one more entry's bytes.
proof fn lemma_encode_reps_take(rs: Seq<RepView>, k: int)
    requires
        0 <= k < rs.len(),
    ensures
        encode_reps(rs.take(k + 1)) == encode_reps(rs.take(k)) + encode_rep(rs[k]),
    decreases k,
{
    if k == 0 {
        let t1 = rs.take(1);
        assert(t1.len() == 1 && t1[0] == rs[0]);
        assert(t1.drop_first() =~= Seq::<RepView>::empty());
        assert(encode_reps(t1.drop_first()) == Seq::<u8>::empty());
        assert(encode_reps(t1) == encode_rep(rs[0]) + Seq::<u8>::empty());
        assert(rs.take(0).len() == 0);
        assert(encode_reps(rs.take(0)) == Seq::<u8>::empty());
        assert(encode_rep(rs[0]) + Seq::<u8>::empty() =~= Seq::<u8>::empty() + encode_rep(rs[0]));
    } else {
        let t1 = rs.take(k + 1);
        let t0 = rs.take(k);
        assert(t1.drop_first() =~= rs.drop_first().take(k));
        assert(t0.drop_first() =~= rs.drop_first().take(k - 1));
        lemma_encode_reps_take(rs.drop_first(), k - 1);
        assert(encode_reps(t1) == encode_rep(t1[0]) + encode_reps(t1.drop_first()));
        assert(encode_reps(t0) == encode_rep(t0[0]) + encode_reps(t0.drop_first()));
        assert(rs.drop_first()[k - 1] == rs[k]);
        assert(encode_rep(rs[0]) + (encode_reps(rs.drop_first().take(k - 1)) + encode_rep(rs[k]))
            =~= (encode_rep(rs[0]) + encode_reps(rs.drop_first().take(k - 1))) + encode_rep(
            rs[k],
        ));
    }
}

/// Reads the descriptor-loop length of the stream entry at `begin`.
fn es_info_length_at(pmt: &Section, begin: usize) -> (r: usize)
    requires
        begin <= 0x2000,
        begin + 5 <= pmt@.len(),
    ensures
        r as int == es_info_len(pmt@, begin as int),
        r <= 0xFFF,
{
    let a = pmt[begin + 3];
    let b = pmt[begin + 4];
    proof {
        assert(((((a & 0x0F) as u16) << 8) | (b as u16)) <= 0xFFF) by (bit_vector);
    }
    ((((a & 0x0F) as u16) << 8) | (b as u16)) as usize
}

} // verus!
