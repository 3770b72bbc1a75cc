//! The two passes of the remux: the metadata scanner, which discovers the
//! transport-stream id, the program number and the replacement streams and
//! queues timed packets for replay; and the remux driver, which rewrites
//! the primary stream's tables, drops superseded channels, and drains the
//! replay queue in elapsed-time order.

use vstd::prelude::*;
use crate::packet::{Packet, is_packet, spec_pid, spec_has_pcr, spec_pcr_base, spec_set_pid, pid,
    has_pcr, pcr, set_pid};
use crate::section::{Section, BASIC_HEADER_SIZE, EXTENDED_HEADER_SIZE, CRC_SIZE,
    spec_section_length, spec_table_id_extension, is_complete_section, section_length,
    table_id_extension, lemma_section_length_bound};
use crate::reader::{SectionReader, AsmView, asm_push};
use crate::clock::{ClockTracker, advance_delta};
use crate::rewrite::{ReplaceStream, RepView, rep_wf, encode_reps, encode_rep, rewrite_pat,
    rewrite_pmt, rewrite_pat_spec, rewrite_pmt_spec, pmt_pcr_pid, pmt_program_info_length,
    spec_pmt_pcr_pid, spec_pmt_program_info_length, es_info_len, es_entry_at, data_end,
    PAT_NIT_PID, REPLACE_PID_OFFSET, STREAM_TYPE_CAROUSEL, STREAM_TYPE_SYNC_DATA,
    QUALIFYING_DESC_TAG, QUALIFYING_DESC_VALUE};
use crate::packetize::{packtize_section, packetize_spec};

verus! {

/// The fixed service-information channels whose packets are replayed from
/// the metadata stream and dropped from the primary stream.
pub open spec fn spec_is_si_pid(p: u16) -> bool {
    p == 0x10 || p == 0x11 || p == 0x12 || p == 0x14 || p == 0x24
}

pub fn is_si_pid(p: u16) -> (r: bool)
    ensures
        r == spec_is_si_pid(p),
{
    p == 0x10 || p == 0x11 || p == 0x12 || p == 0x14 || p == 0x24
}

/// The first program entry of a PAT, from `begin` on, whose program-map
/// channel is not the network-information reference: (program number,
/// program-map channel).
pub open spec fn pat_find_spec(s: Seq<u8>, begin: int) -> Option<(u16, u16)>
    decreases BASIC_HEADER_SIZE + spec_section_length(s) - CRC_SIZE - begin,
{
    let dend = BASIC_HEADER_SIZE + spec_section_length(s) - CRC_SIZE;
    if begin + 4 <= dend && dend <= s.len() {
        let prog = ((s[begin] as u16) << 8) | (s[begin + 1] as u16);
        let mpid = (((s[begin + 2] & 0x1F) as u16) << 8) | (s[begin + 3] as u16);
        if mpid == PAT_NIT_PID {
            pat_find_spec(s, begin + 4)
        } else {
            Some((prog, mpid))
        }
    } else {
        None
    }
}

/// Scans a PAT's program entries and returns the first one that is not the
/// network-information reference.
pub fn pat_find_program(pat: &Section) -> (r: Option<(u16, u16)>)
    requires
        pat@.len() >= BASIC_HEADER_SIZE,
    ensures
        r == pat_find_spec(pat@, EXTENDED_HEADER_SIZE as int),
        (match r {
            Some(t) => t.1 < 0x2000,
            None => true,
        }),
{
    proof {
        lemma_section_length_bound(pat@);
    }
    let send = section_length(pat);
    let mut begin: usize = EXTENDED_HEADER_SIZE;
    while begin + 4 + CRC_SIZE <= BASIC_HEADER_SIZE + send && BASIC_HEADER_SIZE + send - CRC_SIZE
        <= pat.len()
        invariant
            pat@.len() >= BASIC_HEADER_SIZE,
            send == spec_section_length(pat@),
            send <= 0xFFF,
            EXTENDED_HEADER_SIZE <= begin <= 4200,
            pat_find_spec(pat@, begin as int) == pat_find_spec(pat@, EXTENDED_HEADER_SIZE as int),
        decreases BASIC_HEADER_SIZE + spec_section_length(pat@) - CRC_SIZE - begin,
    {
        let prog = ((pat[begin] as u16) << 8) | (pat[begin + 1] as u16);
        let b2 = pat[begin + 2];
        let b3 = pat[begin + 3];
        let mpid = (((b2 & 0x1F) as u16) << 8) | (b3 as u16);
        if mpid != PAT_NIT_PID {
            proof {
                assert((((b2 & 0x1F) as u16) << 8) | (b3 as u16) < 0x2000) by (bit_vector);
            }
            return Some((prog, mpid));
        }
        begin = begin + 4;
    }
    None
}

/// The mathematical image of a replacement-record list.
pub open spec fn view_of_streams(v: Seq<ReplaceStream>) -> Seq<RepView> {
    v.map_values(|x: ReplaceStream| x.rep_view())
}

/// Whether some record keys the given original channel.
pub open spec fn streams_has_pid(ss: Seq<RepView>, p: u16) -> bool {
    exists|i: int| 0 <= i < ss.len() && ss[i].original_pid == p
}

/// A well-formed replacement map: every record encodable, keys strictly
/// ascending (so unique, and the targets ascend with them).
pub open spec fn streams_wf(ss: Seq<RepView>) -> bool {
    &&& forall|i: int| 0 <= i < ss.len() ==> rep_wf(#[trigger] ss[i])
    &&& forall|i: int, j: int|
        0 <= i < j < ss.len() ==> ss[i].original_pid < ss[j].original_pid
}

/// Keys are 13-bit values and strictly ascend, so the map stays small.
proof fn lemma_streams_len_bound(ss: Seq<RepView>)
    requires
        streams_wf(ss),
    ensures
        ss.len() <= 0x2000,
{
    if ss.len() > 0x2000 {
        lemma_streams_index_lower(ss, 0x2000);
    }
}

proof fn lemma_streams_index_lower(ss: Seq<RepView>, i: int)
    requires
        streams_wf(ss),
        0 <= i < ss.len(),
    ensures
        ss[i].original_pid >= i,
    decreases i,
{
    if i > 0 {
        lemma_streams_index_lower(ss, i - 1);
    }
}

/// The encoded run of a well-formed map fits comfortably in memory.
pub proof fn lemma_encode_reps_bound(ss: Seq<RepView>)
    requires
        streams_wf(ss),
    ensures
        encode_reps(ss).len() <= 0x2000 * 0x1004,
{
    lemma_streams_len_bound(ss);
    lemma_encode_reps_len_linear(ss);
    vstd::arithmetic::mul::lemma_mul_inequality(ss.len() as int, 0x2000, 0x1004);
}

proof fn lemma_encode_reps_len_linear(ss: Seq<RepView>)
    requires
        forall|i: int| 0 <= i < ss.len() ==> rep_wf(#[trigger] ss[i]),
    ensures
        encode_reps(ss).len() <= ss.len() * 0x1004,
    decreases ss.len(),
{
    if ss.len() == 0 {
    } else {
        assert(forall|i: int|
            0 <= i < ss.drop_first().len() ==> rep_wf(#[trigger] ss.drop_first()[i]));
        lemma_encode_reps_len_linear(ss.drop_first());
        assert(encode_rep(ss[0]).len() <= 0x1004);
        assert(ss.len() * 0x1004 == (ss.drop_first().len() as int) * 0x1004 + 0x1004) by (
        nonlinear_arith)
            requires ss.len() == ss.drop_first().len() + 1
        ;
    }
}

/// In a well-formed replacement map the targets ascend with the keys: the
/// grafted entries of a rewritten program map appear in ascending order of
/// their replacement channel, whatever order the records were found in.
pub proof fn lemma_replacement_targets_ascend(ss: Seq<RepView>)
    requires
        streams_wf(ss),
    ensures
        forall|i: int, j: int| 0 <= i < j < ss.len() ==> ss[i].target_pid < ss[j].target_pid,
{
}

/// Finds the record keyed by `p`, if any.
pub fn streams_find(streams: &Vec<ReplaceStream>, p: u16) -> (r: Option<usize>)
    ensures
        match r {
            Some(i) => i < streams@.len() && streams@[i as int].original_pid == p,
            None => !streams_has_pid(view_of_streams(streams@), p),
        },
{
    let ghost ss = view_of_streams(streams@);
    let mut i: usize = 0;
    while i < streams.len()
        invariant
            ss == view_of_streams(streams@),
            i <= streams@.len(),
            forall|j: int| 0 <= j < i ==> ss[j].original_pid != p,
        decreases streams@.len() - i,
    {
        if streams[i].original_pid == p {
            return Some(i);
        }
        i = i + 1;
    }
    None
}

/// A replacement-record list with record `r` inserted at its key's place:
/// a record with the same key is replaced, any other record kept.
pub open spec fn insert_rep(ss: Seq<RepView>, r: RepView) -> Seq<RepView>
    decreases ss.len(),
{
    if ss.len() == 0 {
        seq![r]
    } else if ss[0].original_pid < r.original_pid {
        seq![ss[0]] + insert_rep(ss.drop_first(), r)
    } else if ss[0].original_pid == r.original_pid {
        seq![r] + ss.drop_first()
    } else {
        seq![r] + ss
    }
}

/// Where the keys ascend, inserting lands at the first position whose key
/// is not below the new record's.
proof fn lemma_insert_rep_at(ss: Seq<RepView>, r: RepView, i: int)
    requires
        forall|a: int, b: int| 0 <= a < b < ss.len() ==> ss[a].original_pid < ss[b].original_pid,
        0 <= i <= ss.len(),
        forall|j: int| 0 <= j < i ==> ss[j].original_pid < r.original_pid,
        i < ss.len() ==> ss[i].original_pid >= r.original_pid,
    ensures
        (insert_rep(ss, r) == if i < ss.len() && ss[i].original_pid == r.original_pid {
            ss.update(i, r)
        } else {
            ss.insert(i, r)
        }),
    decreases i,
{
    if i == 0 {
        if ss.len() == 0 {
            assert(insert_rep(ss, r) =~= ss.insert(0, r));
        } else if ss[0].original_pid == r.original_pid {
            assert(seq![r] + ss.drop_first() =~= ss.update(0, r));
        } else {
            assert(seq![r] + ss =~= ss.insert(0, r));
        }
    } else {
        let d = ss.drop_first();
        assert(ss[0].original_pid < r.original_pid);
        assert(forall|a: int, b: int|
            0 <= a < b < d.len() ==> d[a].original_pid < d[b].original_pid);
        assert(forall|j: int| 0 <= j < i - 1 ==> d[j].original_pid < r.original_pid);
        assert(i - 1 < d.len() ==> d[i - 1] == ss[i]);
        lemma_insert_rep_at(d, r, i - 1);
        if i < ss.len() && ss[i].original_pid == r.original_pid {
            assert(seq![ss[0]] + d.update(i - 1, r) =~= ss.update(i, r));
        } else {
            assert(seq![ss[0]] + d.insert(i - 1, r) =~= ss.insert(i, r));
        }
    }
}

/// Inserts or replaces the record keyed by its original channel, keeping
/// the keys strictly ascending.
pub fn streams_insert(streams: &mut Vec<ReplaceStream>, rec: ReplaceStream)
    requires
        streams_wf(view_of_streams(old(streams)@)),
        rep_wf(rec.rep_view()),
    ensures
        view_of_streams(final(streams)@) == insert_rep(
            view_of_streams(old(streams)@),
            rec.rep_view(),
        ),
        streams_wf(view_of_streams(final(streams)@)),
        streams_has_pid(
            view_of_streams(final(streams)@),
            rec.original_pid,
        ),
        forall|p: u16|
            #[trigger] streams_has_pid(view_of_streams(old(streams)@), p)
                ==> streams_has_pid(view_of_streams(final(streams)@), p),
{
    let ghost ss0 = view_of_streams(streams@);
    let mut i: usize = 0;
    while i < streams.len() && streams[i].original_pid < rec.original_pid
        invariant
            ss0 == view_of_streams(streams@),
            streams_wf(ss0),
            i <= streams@.len(),
            forall|j: int| 0 <= j < i ==> ss0[j].original_pid < rec.original_pid,
        decreases streams@.len() - i,
    {
        i = i + 1;
    }
    if i < streams.len() && streams[i].original_pid == rec.original_pid {
        let ghost oldv = streams@;
        streams[i] = rec;
        proof {
            let ss1 = view_of_streams(streams@);
            assert(ss1 =~= ss0.update(i as int, rec.rep_view()));
            lemma_insert_rep_at(ss0, rec.rep_view(), i as int);
            assert forall|p: u16| streams_has_pid(ss0, p) implies streams_has_pid(ss1, p) by {
                let w = choose|k: int| 0 <= k < ss0.len() && ss0[k].original_pid == p;
                if w == i {
                    assert(ss1[i as int].original_pid == p);
                } else {
                    assert(ss1[w].original_pid == p);
                }
            }
            assert(ss1[i as int].original_pid == rec.original_pid);
        }
    } else {
        streams.insert(i, rec);
        proof {
            let ss1 = view_of_streams(streams@);
            let iv = i as int;
            assert(ss1 =~= ss0.insert(iv, rec.rep_view()));
            lemma_insert_rep_at(ss0, rec.rep_view(), iv);
            assert(forall|j: int| 0 <= j < iv ==> ss1[j] == ss0[j]);
            assert(forall|j: int| iv < j < ss1.len() ==> ss1[j] == ss0[j - 1]);
            assert(ss1[iv] == rec.rep_view());
            assert forall|a: int, b: int| 0 <= a < b < ss1.len() implies ss1[a].original_pid
                < ss1[b].original_pid by {
                if b < iv {
                    assert(ss1[a] == ss0[a] && ss1[b] == ss0[b]);
                } else if b == iv {
                    assert(ss1[a] == ss0[a]);
                    assert(ss0[a].original_pid < rec.original_pid);
                } else {
                    assert(ss1[b] == ss0[b - 1]);
                    if a < iv {
                        assert(a < b - 1 ==> ss0[a].original_pid < ss0[b - 1].original_pid);
                        assert(a == b - 1 ==> ss1[a] == ss0[a]);
                    } else if a == iv {
                        assert(iv < ss0.len());
                        assert(ss0[iv].original_pid > rec.original_pid);
                        assert(iv <= b - 1 < ss0.len());
                        assert(iv < b - 1 ==> ss0[iv].original_pid < ss0[b - 1].original_pid);
                    } else {
                        assert(ss1[a] == ss0[a - 1]);
                    }
                }
            }
            assert forall|p: u16| streams_has_pid(ss0, p) implies streams_has_pid(ss1, p) by {
                let w = choose|k: int| 0 <= k < ss0.len() && ss0[k].original_pid == p;
                if w < iv {
                    assert(ss1[w].original_pid == p);
                } else {
                    assert(ss1[w + 1].original_pid == p);
                }
            }
            assert(ss1[iv].original_pid == rec.original_pid);
        }
    }
}

/// One timed packet queued for replay: elapsed ticks at capture, the
/// origin channel, and the raw bytes.
pub struct QueueEntry {
    pub time: u64,
    pub pid: u16,
    pub packet: Vec<u8>,
}

/// The mathematical image of a queue entry.
pub struct QEView {
    pub time: u64,
    pub pid: u16,
    pub packet: Seq<u8>,
}

impl QueueEntry {
    pub open spec fn qe_view(self) -> QEView {
        QEView { time: self.time, pid: self.pid, packet: self.packet@ }
    }
}

pub open spec fn qe_wf(e: QEView) -> bool {
    is_packet(e.packet) && e.pid == spec_pid(e.packet) && e.pid < 0x2000
}

pub open spec fn queue_wf(q: Seq<QEView>) -> bool {
    forall|i: int| 0 <= i < q.len() ==> qe_wf(#[trigger] q[i])
}

/// What a replayed entry looks like on output: re-channeled to its
/// replacement target when its origin channel is a map key, verbatim
/// otherwise.
pub open spec fn replay_patched(e: QEView, ss: Seq<RepView>) -> Seq<u8> {
    if streams_has_pid(ss, e.pid) {
        spec_set_pid(e.packet, (REPLACE_PID_OFFSET + e.pid) as u16)
    } else {
        e.packet
    }
}

fn clone_packet(p: &Vec<u8>) -> (r: Vec<u8>)
    ensures
        r@ == p@,
{
    let mut out: Vec<u8> = Vec::new();
    let mut i: usize = 0;
    while i < p.len()
        invariant
            i <= p@.len(),
            out@ == p@.subrange(0, i as int),
        decreases p@.len() - i,
    {
        let b = p[i];
        out.push(b);
        proof {
            assert(p@.subrange(0, i + 1) =~= p@.subrange(0, i as int).push(p@[i as int]));
        }
        i = i + 1;
    }
    proof {
        assert(p@.subrange(0, p@.len() as int) =~= p@);
    }
    out
}

/// The discovery fold over a run of completed PATs, in order: the
/// transport-stream id keeps its first value; the program-map channel is
/// re-derived per table, cleared when a table has no usable entry.
pub open spec fn scan_pats_spec(secs: Seq<Seq<u8>>, tsid: Option<u16>, mp: Option<u16>) -> (
    Option<u16>,
    Option<u16>,
)
    decreases secs.len(),
{
    if secs.len() == 0 {
        (tsid, mp)
    } else {
        let s = secs[0];
        let tsid1 = if tsid is None && s.len() >= 5 {
            Some(spec_table_id_extension(s))
        } else {
            tsid
        };
        let mp1 = match pat_find_spec(s, EXTENDED_HEADER_SIZE as int) {
            Some(t) => Some(t.1),
            None => None,
        };
        scan_pats_spec(secs.drop_first(), tsid1, mp1)
    }
}

/// The discovery fold over a run of completed PMTs, in order: the
/// program-clock channel is re-derived, the program number keeps its
/// first value, and the replacement map gains every qualifying stream
/// entry. A table too short for the extended header is skipped.
pub open spec fn scan_pmts_spec(
    secs: Seq<Seq<u8>>,
    pn: Option<u16>,
    pcr: Option<u16>,
    ss: Seq<RepView>,
) -> (Option<u16>, Option<u16>, Seq<RepView>)
    decreases secs.len(),
{
    if secs.len() == 0 {
        (pn, pcr, ss)
    } else {
        let s = secs[0];
        if s.len() >= EXTENDED_HEADER_SIZE + 4 {
            let pcr1 = Some(spec_pmt_pcr_pid(s));
            let pn1 = if pn is None {
                Some(spec_table_id_extension(s))
            } else {
                pn
            };
            let ss1 = collect_spec(ss, s, EXTENDED_HEADER_SIZE + 4 + spec_pmt_program_info_length(s));
            scan_pmts_spec(secs.drop_first(), pn1, pcr1, ss1)
        } else {
            scan_pmts_spec(secs.drop_first(), pn, pcr, ss)
        }
    }
}

/// First pass: scans the metadata stream once.
pub struct MetaScanner {
    pub pat_reader: SectionReader,
    pub pmt_reader: SectionReader,
    pub pmt_pid: Option<u16>,
    pub pcr_pid: Option<u16>,
    pub transport_stream_id: Option<u16>,
    pub program_number: Option<u16>,
    pub streams: Vec<ReplaceStream>,
    pub clock: ClockTracker,
    pub queue: Vec<QueueEntry>,
}

impl MetaScanner {
    pub open spec fn streams_view(self) -> Seq<RepView> {
        view_of_streams(self.streams@)
    }

    pub open spec fn queue_view(self) -> Seq<QEView> {
        self.queue@.map_values(|x: QueueEntry| x.qe_view())
    }

    pub open spec fn wf(self) -> bool {
        &&& self.pat_reader.wf()
        &&& self.pmt_reader.wf()
        &&& self.clock.wf()
        &&& streams_wf(self.streams_view())
        &&& queue_wf(self.queue_view())
    }

    pub fn new() -> (r: MetaScanner)
        ensures
            r.wf(),
            r.transport_stream_id is None,
            r.program_number is None,
            (r.pmt_pid is None),
            (r.pcr_pid is None),
            r.streams@.len() == 0,
            r.queue@.len() == 0,
            r.clock.elapsed == 0,
            (r.clock.previous is None),
            r.pat_reader.abs() == (AsmView { buf: None, queue: Seq::<Seq<u8>>::empty() }),
            r.pmt_reader.abs() == (AsmView { buf: None, queue: Seq::<Seq<u8>>::empty() }),
    {
        let r = MetaScanner {
            pat_reader: SectionReader::new(),
            pmt_reader: SectionReader::new(),
            pmt_pid: None,
            pcr_pid: None,
            transport_stream_id: None,
            program_number: None,
            streams: Vec::new(),
            clock: ClockTracker::new(),
            queue: Vec::new(),
        };
        proof {
            assert(r.streams_view() =~= Seq::<RepView>::empty());
            assert(r.queue_view() =~= Seq::<QEView>::empty());
        }
        r
    }

    /// Feeds one metadata-stream packet: updates discovery, queues the
    /// packet when its channel is a service-information channel or an
    /// already-known replacement key (stamped with the elapsed time before
    /// this packet's own clock sample), and then advances the clock when
    /// the packet carries a reference-clock sample on the discovered
    /// program-clock channel.
    pub fn scan_packet(&mut self, packet: &Packet)
        requires
            is_packet(packet@),
            old(self).wf(),
        ensures
            final(self).wf(),
            // the queue grows by this packet alone, or not at all
            final(self).queue_view().len() >= old(self).queue_view().len(),
            forall|i: int|
                0 <= i < old(self).queue_view().len() ==> final(self).queue_view()[i] == old(
                    self,
                ).queue_view()[i],
            final(self).queue_view().len() <= old(self).queue_view().len() + 1,
            forall|i: int|
                old(self).queue_view().len() <= i < final(self).queue_view().len() ==> (#[trigger]
                final(self).queue_view()[i]).packet == packet@ && final(self).queue_view()[i].pid
                    == spec_pid(packet@) && final(self).queue_view()[i].time == old(
                    self,
                ).clock.elapsed,
            // the packet is queued exactly when its channel qualifies
            final(self).queue_view().len() == old(self).queue_view().len() + 1 <==> (spec_is_si_pid(
                spec_pid(packet@),
            ) || streams_has_pid(final(self).streams_view(), spec_pid(packet@))),
            // discovery is idempotent: first value wins
            old(self).transport_stream_id is Some ==> final(self).transport_stream_id == old(
                self,
            ).transport_stream_id,
            old(self).program_number is Some ==> final(self).program_number == old(
                self,
            ).program_number,
            // known replacement keys are never lost
            forall|p: u16|
                #[trigger] streams_has_pid(old(self).streams_view(), p) ==> streams_has_pid(
                    final(self).streams_view(),
                    p,
                ),
            // the clock advances exactly on a reference-clock sample of the
            // discovered program-clock channel
            ({
                let hit = final(self).pcr_pid == Some(spec_pid(packet@)) && spec_has_pcr(packet@);
                let d = advance_delta(old(self).clock.previous, spec_pcr_base(packet@));
                &&& (!hit ==> final(self).clock == old(self).clock)
                &&& (hit ==> final(self).clock.previous == Some(spec_pcr_base(packet@)))
                &&& (hit && old(self).clock.elapsed + d <= u64::MAX ==> final(self).clock.elapsed
                    == old(self).clock.elapsed + d)
            }),
            // a channel-0 packet runs the PAT discovery fold over every
            // section it completes, and touches nothing else
            spec_pid(packet@) == 0 ==> ({
                let pushed = asm_push(old(self).pat_reader.abs(), packet@);
                let d = scan_pats_spec(
                    pushed.queue,
                    old(self).transport_stream_id,
                    old(self).pmt_pid,
                );
                &&& final(self).transport_stream_id == d.0
                &&& final(self).pmt_pid == d.1
                &&& final(self).pat_reader.abs() == (AsmView {
                    buf: pushed.buf,
                    queue: Seq::empty(),
                })
                &&& final(self).pmt_reader == old(self).pmt_reader
                &&& final(self).program_number == old(self).program_number
                &&& final(self).pcr_pid == old(self).pcr_pid
                &&& final(self).streams@ == old(self).streams@
            }),
            // a program-map-channel packet runs the PMT discovery fold
            (spec_pid(packet@) != 0 && old(self).pmt_pid == Some(spec_pid(packet@))) ==> ({
                let pushed = asm_push(old(self).pmt_reader.abs(), packet@);
                let d = scan_pmts_spec(
                    pushed.queue,
                    old(self).program_number,
                    old(self).pcr_pid,
                    view_of_streams(old(self).streams@),
                );
                &&& final(self).program_number == d.0
                &&& final(self).pcr_pid == d.1
                &&& view_of_streams(final(self).streams@) == d.2
                &&& final(self).pmt_reader.abs() == (AsmView {
                    buf: pushed.buf,
                    queue: Seq::empty(),
                })
                &&& final(self).pat_reader == old(self).pat_reader
                &&& final(self).transport_stream_id == old(self).transport_stream_id
                &&& final(self).pmt_pid == old(self).pmt_pid
            }),
            // any other channel leaves discovery and the assemblers alone
            (spec_pid(packet@) != 0 && old(self).pmt_pid != Some(spec_pid(packet@))) ==> ({
                &&& final(self).pat_reader == old(self).pat_reader
                &&& final(self).pmt_reader == old(self).pmt_reader
                &&& final(self).transport_stream_id == old(self).transport_stream_id
                &&& final(self).program_number == old(self).program_number
                &&& final(self).pcr_pid == old(self).pcr_pid
                &&& final(self).streams@ == old(self).streams@
                &&& final(self).pmt_pid == old(self).pmt_pid
            }),
    {
        let p = pid(packet);
        if p == 0 {
            self.pat_reader.push(packet);
            let ghost pushed = self.pat_reader.abs();
            let ghost dtarget = scan_pats_spec(
                pushed.queue,
                old(self).transport_stream_id,
                old(self).pmt_pid,
            );
            let mut cur = self.pat_reader.pop();
            proof {
                assert((match cur {
                    Some(c) => seq![c@],
                    None => Seq::<Seq<u8>>::empty(),
                }) + self.pat_reader.abs().queue =~= pushed.queue);
            }
            while cur.is_some()
                invariant
                    self.pat_reader.wf(),
                    self.pat_reader.abs().buf == pushed.buf,
                    self.pmt_reader == old(self).pmt_reader,
                    self.clock == old(self).clock,
                    self.queue@ == old(self).queue@,
                    self.streams@ == old(self).streams@,
                    self.pcr_pid == old(self).pcr_pid,
                    self.program_number == old(self).program_number,
                    old(self).wf(),
                    old(self).transport_stream_id is Some ==> self.transport_stream_id == old(
                        self,
                    ).transport_stream_id,
                    scan_pats_spec(
                        (match cur {
                            Some(c) => seq![c@],
                            None => Seq::<Seq<u8>>::empty(),
                        }) + self.pat_reader.abs().queue,
                        self.transport_stream_id,
                        self.pmt_pid,
                    ) == dtarget,
                    (cur is None) ==> self.pat_reader.abs().queue.len() == 0,
                    (match cur {
                        Some(s) => is_complete_section(s@),
                        None => true,
                    }),
                decreases self.pat_reader.abs().queue.len() + (if cur is Some {
                    1int
                } else {
                    0int
                }),
            {
                let pat = cur.unwrap();
                let ghost tsid_pre = self.transport_stream_id;
                let ghost q_mid = self.pat_reader.abs().queue;
                self.pmt_pid = None;
                if self.transport_stream_id.is_none() && pat.len() >= 5 {
                    self.transport_stream_id = Some(table_id_extension(&pat));
                }
                match pat_find_program(&pat) {
                    Some((_prog, mpid)) => {
                        self.pmt_pid = Some(mpid);
                    },
                    None => {},
                }
                proof {
                    assert((seq![pat@] + q_mid)[0] == pat@);
                    assert((seq![pat@] + q_mid).drop_first() =~= q_mid);
                    assert(self.transport_stream_id == (if tsid_pre is None && pat@.len() >= 5 {
                        Some(spec_table_id_extension(pat@))
                    } else {
                        tsid_pre
                    }));
                    assert(self.pmt_pid == (match pat_find_spec(
                        pat@,
                        EXTENDED_HEADER_SIZE as int,
                    ) {
                        Some(tt) => Some(tt.1),
                        None => None::<u16>,
                    }));
                    assert(scan_pats_spec(q_mid, self.transport_stream_id, self.pmt_pid)
                        == dtarget);
                }
                cur = self.pat_reader.pop();
                proof {
                    assert((match cur {
                        Some(c) => seq![c@],
                        None => Seq::<Seq<u8>>::empty(),
                    }) + self.pat_reader.abs().queue =~= q_mid);
                }
            }
            proof {
                assert((match cur {
                    Some(c) => seq![c@],
                    None => Seq::<Seq<u8>>::empty(),
                }) + self.pat_reader.abs().queue =~= self.pat_reader.abs().queue);
                assert(scan_pats_spec(self.pat_reader.abs().queue, self.transport_stream_id,
                    self.pmt_pid) == dtarget);
                assert(self.pat_reader.abs().queue =~= Seq::<Seq<u8>>::empty());
                assert(self.pat_reader.abs() == (AsmView {
                    buf: pushed.buf,
                    queue: Seq::<Seq<u8>>::empty(),
                }));
            }
        } else {
            let is_pmt = match self.pmt_pid {
                Some(mp) => mp == p,
                None => false,
            };
            if is_pmt {
                self.pmt_reader.push(packet);
                let ghost pushedm = self.pmt_reader.abs();
                let ghost mtarget = scan_pmts_spec(
                    pushedm.queue,
                    old(self).program_number,
                    old(self).pcr_pid,
                    view_of_streams(old(self).streams@),
                );
                let mut cur = self.pmt_reader.pop();
                proof {
                    assert((match cur {
                        Some(c) => seq![c@],
                        None => Seq::<Seq<u8>>::empty(),
                    }) + self.pmt_reader.abs().queue =~= pushedm.queue);
                }
                while cur.is_some()
                    invariant
                        self.pmt_reader.wf(),
                        self.pmt_reader.abs().buf == pushedm.buf,
                        self.pat_reader == old(self).pat_reader,
                        self.clock == old(self).clock,
                        self.queue@ == old(self).queue@,
                        self.transport_stream_id == old(self).transport_stream_id,
                        self.pmt_pid == old(self).pmt_pid,
                        old(self).wf(),
                        streams_wf(self.streams_view()),
                        old(self).program_number is Some ==> self.program_number == old(
                            self,
                        ).program_number,
                        forall|q: u16|
                            #[trigger] streams_has_pid(old(self).streams_view(), q)
                                ==> streams_has_pid(self.streams_view(), q),
                        scan_pmts_spec(
                            (match cur {
                                Some(c) => seq![c@],
                                None => Seq::<Seq<u8>>::empty(),
                            }) + self.pmt_reader.abs().queue,
                            self.program_number,
                            self.pcr_pid,
                            view_of_streams(self.streams@),
                        ) == mtarget,
                        (cur is None) ==> self.pmt_reader.abs().queue.len() == 0,
                        (match cur {
                            Some(s) => is_complete_section(s@),
                            None => true,
                        }),
                    decreases self.pmt_reader.abs().queue.len() + (if cur is Some {
                        1int
                    } else {
                        0int
                    }),
                {
                    let pmt = cur.unwrap();
                    let ghost pn_pre = self.program_number;
                    let ghost ss_pre = view_of_streams(self.streams@);
                    let ghost q_mid = self.pmt_reader.abs().queue;
                    if pmt.len() >= EXTENDED_HEADER_SIZE + 4 {
                        self.pcr_pid = Some(pmt_pcr_pid(&pmt));
                        if self.program_number.is_none() {
                            self.program_number = Some(table_id_extension(&pmt));
                        }
                        collect_replace_streams(&pmt, &mut self.streams);
                        proof {
                            assert(self.pcr_pid == Some(spec_pmt_pcr_pid(pmt@)));
                            assert(self.program_number == (if pn_pre is None {
                                Some(spec_table_id_extension(pmt@))
                            } else {
                                pn_pre
                            }));
                            assert(view_of_streams(self.streams@) == collect_spec(
                                ss_pre,
                                pmt@,
                                EXTENDED_HEADER_SIZE + 4 + spec_pmt_program_info_length(pmt@),
                            ));
                        }
                    }
                    proof {
                        assert((seq![pmt@] + q_mid)[0] == pmt@);
                        assert((seq![pmt@] + q_mid).drop_first() =~= q_mid);
                        assert(scan_pmts_spec(q_mid, self.program_number, self.pcr_pid,
                            view_of_streams(self.streams@)) == mtarget);
                    }
                    cur = self.pmt_reader.pop();
                    proof {
                        assert((match cur {
                            Some(c) => seq![c@],
                            None => Seq::<Seq<u8>>::empty(),
                        }) + self.pmt_reader.abs().queue =~= q_mid);
                    }
                }
                proof {
                    assert((match cur {
                        Some(c) => seq![c@],
                        None => Seq::<Seq<u8>>::empty(),
                    }) + self.pmt_reader.abs().queue =~= self.pmt_reader.abs().queue);
                    assert(scan_pmts_spec(self.pmt_reader.abs().queue, self.program_number,
                        self.pcr_pid, view_of_streams(self.streams@)) == mtarget);
                    assert(self.pmt_reader.abs().queue =~= Seq::<Seq<u8>>::empty());
                    assert(self.pmt_reader.abs() == (AsmView {
                        buf: pushedm.buf,
                        queue: Seq::<Seq<u8>>::empty(),
                    }));
                }
            }
        }

        let mut enqueue = is_si_pid(p);
        if !enqueue {
            match streams_find(&self.streams, p) {
                Some(i) => {
                    proof {
                        assert(self.streams_view()[i as int] == self.streams@[i as int].rep_view());
                        assert(streams_has_pid(self.streams_view(), p));
                    }
                    enqueue = true;
                },
                None => {},
            }
        }
        let ghost pre_q = self.queue_view();
        if enqueue {
            let entry = QueueEntry { time: self.clock.elapsed, pid: p, packet: clone_packet(
                packet,
            ) };
            self.queue.push(entry);
            proof {
                assert(self.queue_view() =~= pre_q.push(
                    QEView { time: old(self).clock.elapsed, pid: p, packet: packet@ },
                ));
            }
        }

        let on_pcr_channel = match self.pcr_pid {
            Some(cp) => cp == p,
            None => false,
        };
        if on_pcr_channel && has_pcr(packet) {
            match pcr(packet) {
                Some(sample) => {
                    self.clock.advance(sample);
                },
                None => {},
            }
        }
    }
}

/// Whether the descriptor loop, scanned from `off` in the walk's own
/// steps, carries the qualifying component descriptor: the tag byte with
/// the discriminator as the byte after the length.
pub open spec fn desc_qualifies(info: Seq<u8>, off: int) -> bool
    decreases info.len() - off,
{
    if 0 <= off && off + 2 <= info.len() {
        ||| (info[off] == QUALIFYING_DESC_TAG && off + 2 < info.len() && info[off + 2]
            == QUALIFYING_DESC_VALUE)
        ||| desc_qualifies(
            info,
            if off + 2 + info[off + 1] <= info.len() {
                off + 2 + info[off + 1]
            } else {
                info.len() as int
            },
        )
    } else {
        false
    }
}

/// The elementary channel of the stream entry at `b`.
pub open spec fn es_entry_pid(s: Seq<u8>, b: int) -> u16 {
    (((s[b + 1] & 0x1F) as u16) << 8) | (s[b + 2] as u16)
}

/// The record the stream entry at `b` contributes when it qualifies.
pub open spec fn rep_of_entry(s: Seq<u8>, b: int) -> RepView {
    RepView {
        original_pid: es_entry_pid(s, b),
        stream_type: s[b],
        target_pid: (REPLACE_PID_OFFSET + es_entry_pid(s, b)) as u16,
        es_info: s.subrange(b + 5, b + 5 + es_info_len(s, b)),
    }
}

/// A stream entry qualifies for replacement when its type is the data
/// carousel, or the synchronized-data type with the qualifying component
/// descriptor.
pub open spec fn entry_qualifies(s: Seq<u8>, b: int) -> bool {
    ||| s[b] == STREAM_TYPE_CAROUSEL
    ||| (s[b] == STREAM_TYPE_SYNC_DATA && desc_qualifies(
        s.subrange(b + 5, b + 5 + es_info_len(s, b)),
        0,
    ))
}

/// The replacement map after walking the whole stream entries of `s` from
/// `b`: each qualifying entry's record inserted in turn.
pub open spec fn collect_spec(ss: Seq<RepView>, s: Seq<u8>, b: int) -> Seq<RepView>
    decreases data_end(s) - b,
{
    if es_entry_at(s, b) {
        let ss2 = if entry_qualifies(s, b) {
            insert_rep(ss, rep_of_entry(s, b))
        } else {
            ss
        };
        collect_spec(ss2, s, b + 5 + es_info_len(s, b))
    } else {
        ss
    }
}

/// Walks a PMT's stream entries and records every qualifying one: a
/// data-carousel stream always, a synchronized-data stream when its
/// descriptor loop carries the qualifying component descriptor. The
/// replacement target is the original channel plus the fixed offset.
pub fn collect_replace_streams(pmt: &Section, streams: &mut Vec<ReplaceStream>)
    requires
        pmt@.len() >= EXTENDED_HEADER_SIZE + 4,
        streams_wf(view_of_streams(old(streams)@)),
    ensures
        view_of_streams(final(streams)@) == collect_spec(
            view_of_streams(old(streams)@),
            pmt@,
            EXTENDED_HEADER_SIZE + 4 + spec_pmt_program_info_length(pmt@),
        ),
        streams_wf(view_of_streams(final(streams)@)),
        forall|p: u16|
            #[trigger] streams_has_pid(view_of_streams(old(streams)@), p)
                ==> streams_has_pid(view_of_streams(final(streams)@), p),
{
    proof {
        lemma_section_length_bound(pmt@);
    }
    let send = section_length(pmt);
    let pil = pmt_program_info_length(pmt);
    let mut begin = EXTENDED_HEADER_SIZE + 4 + pil;
    let ghost start0 = begin as int;
    let ghost target = collect_spec(view_of_streams(streams@), pmt@, start0);
    while begin + 5 + CRC_SIZE <= BASIC_HEADER_SIZE + send && BASIC_HEADER_SIZE + send - CRC_SIZE
        <= pmt.len() && begin + 5 + es_info_length_of(pmt, begin) + CRC_SIZE <= BASIC_HEADER_SIZE
        + send
        invariant
            pmt@.len() >= EXTENDED_HEADER_SIZE + 4,
            send == spec_section_length(pmt@),
            send <= 0xFFF,
            begin <= 0x2100,
            streams_wf(view_of_streams(streams@)),
            collect_spec(view_of_streams(streams@), pmt@, begin as int) == target,
            target == collect_spec(view_of_streams(old(streams)@), pmt@, start0),
            forall|p: u16|
                #[trigger] streams_has_pid(
                    view_of_streams(old(streams)@),
                    p,
                ) ==> streams_has_pid(view_of_streams(streams@), p),
        decreases BASIC_HEADER_SIZE + spec_section_length(pmt@) - CRC_SIZE - begin,
    {
        let ghost ss_pre = view_of_streams(streams@);
        let ghost b_pre = begin as int;
        proof {
            assert(es_entry_at(pmt@, b_pre));
        }
        let stream_type = pmt[begin];
        let b1 = pmt[begin + 1];
        let b2 = pmt[begin + 2];
        let elementary_pid = (((b1 & 0x1F) as u16) << 8) | (b2 as u16);
        proof {
            assert((((b1 & 0x1F) as u16) << 8) | (b2 as u16) < 0x2000) by (bit_vector);
        }
        let el = es_info_length_of(pmt, begin);

        // copy the descriptor loop once; both uses below take it verbatim
        let mut info: Vec<u8> = Vec::new();
        let mut j = begin + 5;
        let stop = begin + 5 + el;
        while j < stop
            invariant
                pmt@.len() >= stop,
                begin + 5 <= j <= stop,
                info@ == pmt@.subrange(begin + 5, j as int),
            decreases stop - j,
        {
            let b = pmt[j];
            info.push(b);
            proof {
                assert(pmt@.subrange(begin + 5, j + 1) =~= pmt@.subrange(begin + 5, j as int).push(
                    pmt@[j as int],
                ));
            }
            j = j + 1;
        }

        proof {
            assert(info@ == pmt@.subrange(b_pre + 5, b_pre + 5 + es_info_len(pmt@, b_pre)));
            assert(elementary_pid == es_entry_pid(pmt@, b_pre));
        }
        if stream_type == STREAM_TYPE_CAROUSEL {
            let rec = ReplaceStream {
                original_pid: elementary_pid,
                stream_type,
                target_pid: REPLACE_PID_OFFSET + elementary_pid,
                es_info: info,
            };
            proof {
                assert(rec.rep_view() == rep_of_entry(pmt@, b_pre));
                assert(entry_qualifies(pmt@, b_pre));
            }
            streams_insert(streams, rec);
        } else if stream_type == STREAM_TYPE_SYNC_DATA {
            let mut off: usize = 0;
            let mut found = false;
            while off + 2 <= info.len()
                invariant
                    off <= info@.len(),
                    info@.len() <= 0xFFF,
                    desc_qualifies(info@, 0) == (found || desc_qualifies(info@, off as int)),
                decreases info@.len() - off,
            {
                let tag = info[off];
                let dlen = info[off + 1] as usize;
                if tag == QUALIFYING_DESC_TAG && off + 2 < info.len() && info[off + 2]
                    == QUALIFYING_DESC_VALUE {
                    found = true;
                }
                let next = off + 2 + dlen;
                proof {
                    assert(desc_qualifies(info@, off as int) == ((info@[off as int]
                        == QUALIFYING_DESC_TAG && off + 2 < info@.len() && info@[off + 2]
                        == QUALIFYING_DESC_VALUE) || desc_qualifies(
                        info@,
                        if off + 2 + info@[off + 1] <= info@.len() {
                            off + 2 + info@[off + 1]
                        } else {
                            info@.len() as int
                        },
                    )));
                }
                off = if next <= info.len() {
                    next
                } else {
                    info.len()
                };
            }
            proof {
                assert(!desc_qualifies(info@, off as int));
                assert(found == desc_qualifies(info@, 0));
                assert(entry_qualifies(pmt@, b_pre) == (found || stream_type
                    == STREAM_TYPE_CAROUSEL));
            }
            if found {
                let rec = ReplaceStream {
                    original_pid: elementary_pid,
                    stream_type,
                    target_pid: REPLACE_PID_OFFSET + elementary_pid,
                    es_info: info,
                };
                proof {
                    assert(rec.rep_view() == rep_of_entry(pmt@, b_pre));
                }
                streams_insert(streams, rec);
            }
        } else {
            proof {
                assert(!entry_qualifies(pmt@, b_pre));
            }
        }
        begin = begin + 5 + el;
        proof {
            assert(collect_spec(ss_pre, pmt@, b_pre) == collect_spec(
                view_of_streams(streams@),
                pmt@,
                begin as int,
            ));
        }
    }
    proof {
        assert(!es_entry_at(pmt@, begin as int));
        assert(collect_spec(view_of_streams(streams@), pmt@, begin as int) == view_of_streams(
            streams@,
        ));
    }
}

/// Reads the descriptor-loop length of the stream entry at `begin`.
fn es_info_length_of(pmt: &Section, begin: usize) -> (r: usize)
    requires
        begin <= 0x2100,
        begin + 5 <= pmt@.len(),
    ensures
        r as int == es_info_len(pmt@, begin as int),
        r <= 0xFFF,
{
    let a = pmt[begin + 3];
    let b = pmt[begin + 4];
    proof {
        assert(((((a & 0x0F) as u16) << 8) | (b as u16)) <= 0xFFF) by (bit_vector);
    }
    ((((a & 0x0F) as u16) << 8) | (b as u16)) as usize
}

/// A PAT whose scan finds a usable entry is long enough to rewrite.
proof fn lemma_pat_find_some_len(s: Seq<u8>, b: int)
    requires
        pat_find_spec(s, b) is Some,
        b >= 0,
    ensures
        s.len() >= b + 4,
    decreases BASIC_HEADER_SIZE + spec_section_length(s) - CRC_SIZE - b,
{
    let dend = BASIC_HEADER_SIZE + spec_section_length(s) - CRC_SIZE;
    if b + 4 <= dend && dend <= s.len() {
        if (((s[b + 2] & 0x1F) as u16) << 8) | (s[b + 3] as u16) == PAT_NIT_PID {
            lemma_pat_find_some_len(s, b + 4);
        }
    }
}

/// The driver's fold over a run of completed PATs, in order: per table the
/// program-map channel is re-derived; a table with no usable entry clears
/// it and stops the run (later completed tables wait in the assembler); a
/// usable table is rewritten, packetized on channel 0 under the dedicated
/// counter, and emitted. Yields the program-map channel, the counter, the
/// emitted packets, and how many tables were consumed.
pub open spec fn drive_pats_spec(
    secs: Seq<Seq<u8>>,
    tsid: u16,
    n: u16,
    mp: Option<u16>,
    cc: u8,
) -> (Option<u16>, u8, Seq<Seq<u8>>, int)
    decreases secs.len(),
{
    if secs.len() == 0 {
        (mp, cc, Seq::empty(), 0)
    } else {
        let s = secs[0];
        match pat_find_spec(s, EXTENDED_HEADER_SIZE as int) {
            None => (None, cc, Seq::empty(), 1),
            Some(t) => {
                let pkts = packetize_spec(rewrite_pat_spec(s, tsid, n), 0, cc, 0);
                let cc1 = ((cc + pkts.len()) % 16) as u8;
                let r = drive_pats_spec(secs.drop_first(), tsid, n, Some(t.1), cc1);
                (r.0, r.1, pkts + r.2, 1 + r.3)
            },
        }
    }
}

/// The driver's fold over a run of completed PMTs, in order: per table the
/// program-clock channel is re-derived, and a table whose header and
/// descriptor loop fit is rewritten with the replacement records appended,
/// packetized on the program-map channel under the dedicated counter, and
/// emitted. Yields the program-clock channel, the counter and the packets.
pub open spec fn drive_pmts_spec(
    secs: Seq<Seq<u8>>,
    n: u16,
    rs: Seq<RepView>,
    ch: u16,
    pcr: Option<u16>,
    cc: u8,
) -> (Option<u16>, u8, Seq<Seq<u8>>)
    decreases secs.len(),
{
    if secs.len() == 0 {
        (pcr, cc, Seq::empty())
    } else {
        let s = secs[0];
        if s.len() >= EXTENDED_HEADER_SIZE + 4 {
            let pcr1 = Some(spec_pmt_pcr_pid(s));
            if EXTENDED_HEADER_SIZE + 4 + spec_pmt_program_info_length(s) <= s.len() {
                let pkts = packetize_spec(rewrite_pmt_spec(s, n, rs), ch, cc, 0);
                let cc1 = ((cc + pkts.len()) % 16) as u8;
                let r = drive_pmts_spec(secs.drop_first(), n, rs, ch, pcr1, cc1);
                (r.0, r.1, pkts + r.2)
            } else {
                drive_pmts_spec(secs.drop_first(), n, rs, ch, pcr1, cc)
            }
        } else {
            drive_pmts_spec(secs.drop_first(), n, rs, ch, pcr, cc)
        }
    }
}

/// Second pass: drives the primary stream and interleaves the replay
/// queue.
pub struct RemuxDriver {
    pub pat_reader: SectionReader,
    pub pmt_reader: SectionReader,
    pub pmt_pid: Option<u16>,
    pub pcr_pid: Option<u16>,
    pub pat_cc: u8,
    pub pmt_cc: u8,
    pub clock: ClockTracker,
    pub transport_stream_id: u16,
    pub program_number: u16,
    pub streams: Vec<ReplaceStream>,
    pub queue: Vec<QueueEntry>,
    pub qhead: usize,
}

impl RemuxDriver {
    pub open spec fn streams_view(self) -> Seq<RepView> {
        view_of_streams(self.streams@)
    }

    pub open spec fn queue_view(self) -> Seq<QEView> {
        self.queue@.map_values(|x: QueueEntry| x.qe_view())
    }

    pub open spec fn wf(self) -> bool {
        &&& self.pat_reader.wf()
        &&& self.pmt_reader.wf()
        &&& self.clock.wf()
        &&& self.pat_cc < 16
        &&& self.pmt_cc < 16
        &&& streams_wf(self.streams_view())
        &&& queue_wf(self.queue_view())
        &&& self.qhead <= self.queue@.len()
    }

    /// A fresh driver over the scan pass's discovery record and queue.
    pub fn new(
        transport_stream_id: u16,
        program_number: u16,
        streams: Vec<ReplaceStream>,
        queue: Vec<QueueEntry>,
    ) -> (r: RemuxDriver)
        requires
            streams_wf(view_of_streams(streams@)),
            queue_wf(queue@.map_values(|x: QueueEntry| x.qe_view())),
        ensures
            r.wf(),
            r.qhead == 0,
            r.queue@ == queue@,
            r.streams@ == streams@,
            r.transport_stream_id == transport_stream_id,
            r.program_number == program_number,
            r.pat_cc == 0,
            r.pmt_cc == 0,
            (r.pmt_pid is None),
            (r.pcr_pid is None),
            r.clock.elapsed == 0,
            (r.clock.previous is None),
            r.pat_reader.abs() == (AsmView { buf: None, queue: Seq::<Seq<u8>>::empty() }),
            r.pmt_reader.abs() == (AsmView { buf: None, queue: Seq::<Seq<u8>>::empty() }),
    {
        RemuxDriver {
            pat_reader: SectionReader::new(),
            pmt_reader: SectionReader::new(),
            pmt_pid: None,
            pcr_pid: None,
            pat_cc: 0,
            pmt_cc: 0,
            clock: ClockTracker::new(),
            transport_stream_id,
            program_number,
            streams,
            queue,
            qhead: 0,
        }
    }

    /// Handles one primary-stream packet and returns, in order, the
    /// packets to write: rewritten tables or the packet itself, then the
    /// replay-queue entries whose recorded time is at or before the
    /// driver's elapsed time, each re-channeled when its origin channel is
    /// a replacement key. The clock advances last, on a reference-clock
    /// sample of the program-clock channel.
    pub fn handle_packet(&mut self, packet: &Packet) -> (out: Vec<Packet>)
        requires
            is_packet(packet@),
            old(self).wf(),
        ensures
            final(self).wf(),
            forall|k: int| 0 <= k < out@.len() ==> is_packet(#[trigger] out.deep_view()[k]),
            final(self).queue@ == old(self).queue@,
            final(self).streams@ == old(self).streams@,
            // the drained prefix: everything due at the current elapsed time
            old(self).qhead <= final(self).qhead <= old(self).queue@.len(),
            forall|i: int|
                old(self).qhead <= i < final(self).qhead ==> #[trigger] old(
                    self,
                ).queue_view()[i].time <= old(self).clock.elapsed,
            ({
                let h = final(self).qhead as int;
                h < old(self).queue@.len() ==> old(self).queue_view()[h].time > old(
                    self,
                ).clock.elapsed
            }),
            // what was drained is at the tail of the output, in order
            out@.len() >= final(self).qhead - old(self).qhead,
            forall|i: int|
                old(self).qhead <= i < final(self).qhead ==> #[trigger] out.deep_view()[out@.len()
                    - (final(self).qhead - i)] == replay_patched(
                    old(self).queue_view()[i],
                    old(self).streams_view(),
                ),
            // an ordinary channel passes through in front of the drain
            (spec_pid(packet@) != 0 && old(self).pmt_pid != Some(spec_pid(packet@))
                && !spec_is_si_pid(spec_pid(packet@)) && !streams_has_pid(
                old(self).streams_view(),
                spec_pid(packet@),
            )) ==> out@.len() == 1 + final(self).qhead - old(self).qhead
                && out.deep_view()[0] == packet@,
            // a superseded channel is dropped: only the drain comes out
            (spec_pid(packet@) != 0 && old(self).pmt_pid != Some(spec_pid(packet@)) && (
            spec_is_si_pid(spec_pid(packet@)) || streams_has_pid(
                old(self).streams_view(),
                spec_pid(packet@),
            ))) ==> out@.len() == final(self).qhead - old(self).qhead,
            // the clock advances exactly on a reference-clock sample of the
            // program-clock channel
            ({
                let hit = final(self).pcr_pid == Some(spec_pid(packet@)) && spec_has_pcr(packet@);
                let d = advance_delta(old(self).clock.previous, spec_pcr_base(packet@));
                &&& (!hit ==> final(self).clock == old(self).clock)
                &&& (hit ==> final(self).clock.previous == Some(spec_pcr_base(packet@)))
                &&& (hit && old(self).clock.elapsed + d <= u64::MAX ==> final(self).clock.elapsed
                    == old(self).clock.elapsed + d)
            }),
            // a channel-0 packet runs the PAT fold: the output's front is
            // exactly the rewritten tables' packets, and the dedicated
            // counter advances by the emitted count modulo 16
            spec_pid(packet@) == 0 ==> ({
                let pushed = asm_push(old(self).pat_reader.abs(), packet@);
                let d = drive_pats_spec(
                    pushed.queue,
                    old(self).transport_stream_id,
                    old(self).program_number,
                    old(self).pmt_pid,
                    old(self).pat_cc,
                );
                &&& final(self).pmt_pid == d.0
                &&& final(self).pat_cc == d.1
                &&& out.deep_view().take(out@.len() - (final(self).qhead - old(self).qhead))
                    == d.2
                &&& final(self).pat_reader.abs() == (AsmView {
                    buf: pushed.buf,
                    queue: pushed.queue.subrange(d.3, pushed.queue.len() as int),
                })
                &&& final(self).pmt_reader == old(self).pmt_reader
                &&& final(self).pmt_cc == old(self).pmt_cc
                &&& final(self).pcr_pid == old(self).pcr_pid
            }),
            // a program-map-channel packet runs the PMT fold likewise
            (spec_pid(packet@) != 0 && old(self).pmt_pid == Some(spec_pid(packet@))) ==> ({
                let pushed = asm_push(old(self).pmt_reader.abs(), packet@);
                let d = drive_pmts_spec(
                    pushed.queue,
                    old(self).program_number,
                    view_of_streams(old(self).streams@),
                    spec_pid(packet@),
                    old(self).pcr_pid,
                    old(self).pmt_cc,
                );
                &&& final(self).pcr_pid == d.0
                &&& final(self).pmt_cc == d.1
                &&& out.deep_view().take(out@.len() - (final(self).qhead - old(self).qhead))
                    == d.2
                &&& final(self).pmt_reader.abs() == (AsmView {
                    buf: pushed.buf,
                    queue: Seq::empty(),
                })
                &&& final(self).pat_reader == old(self).pat_reader
                &&& final(self).pat_cc == old(self).pat_cc
                &&& final(self).pmt_pid == old(self).pmt_pid
            }),
            // any other channel leaves the tables' machinery alone
            (spec_pid(packet@) != 0 && old(self).pmt_pid != Some(spec_pid(packet@))) ==> ({
                &&& final(self).pat_reader == old(self).pat_reader
                &&& final(self).pmt_reader == old(self).pmt_reader
                &&& final(self).pat_cc == old(self).pat_cc
                &&& final(self).pmt_cc == old(self).pmt_cc
                &&& final(self).pmt_pid == old(self).pmt_pid
                &&& final(self).pcr_pid == old(self).pcr_pid
            }),
    {
        let p = pid(packet);
        let mut out: Vec<Packet> = Vec::new();

        if p == 0 {
            self.pat_reader.push(packet);
            let ghost pushed = self.pat_reader.abs();
            let ghost ptarget = drive_pats_spec(
                pushed.queue,
                old(self).transport_stream_id,
                old(self).program_number,
                old(self).pmt_pid,
                old(self).pat_cc,
            );
            let ghost mut done: int = 0;
            let ghost mut stopped: bool = false;
            let mut cur = self.pat_reader.pop();
            proof {
                assert((match cur {
                    Some(c) => seq![c@],
                    None => Seq::<Seq<u8>>::empty(),
                }) + self.pat_reader.abs().queue =~= pushed.queue);
                assert(pushed.queue.subrange(0, pushed.queue.len() as int) =~= pushed.queue);
                assert(out.deep_view() =~~= Seq::<Seq<u8>>::empty());
            }
            while cur.is_some()
                invariant
                    self.pat_reader.wf(),
                    self.pat_reader.abs().buf == pushed.buf,
                    self.pat_cc < 16,
                    p == 0,
                    self.pmt_reader == old(self).pmt_reader,
                    self.pmt_cc == old(self).pmt_cc,
                    self.clock == old(self).clock,
                    self.queue@ == old(self).queue@,
                    self.qhead == old(self).qhead,
                    self.streams@ == old(self).streams@,
                    self.pcr_pid == old(self).pcr_pid,
                    self.transport_stream_id == old(self).transport_stream_id,
                    self.program_number == old(self).program_number,
                    old(self).wf(),
                    0 <= done <= pushed.queue.len(),
                    (match cur {
                        Some(c) => seq![c@],
                        None => Seq::<Seq<u8>>::empty(),
                    }) + self.pat_reader.abs().queue == pushed.queue.subrange(
                        done,
                        pushed.queue.len() as int,
                    ),
                    !stopped ==> ({
                        let rem = drive_pats_spec(
                            (match cur {
                                Some(c) => seq![c@],
                                None => Seq::<Seq<u8>>::empty(),
                            }) + self.pat_reader.abs().queue,
                            old(self).transport_stream_id,
                            old(self).program_number,
                            self.pmt_pid,
                            self.pat_cc,
                        );
                        ptarget == (rem.0, rem.1, out.deep_view() + rem.2, done + rem.3)
                    }),
                    stopped ==> ptarget == (self.pmt_pid, self.pat_cc, out.deep_view(), done),
                    stopped ==> (cur is None),
                    (!stopped && cur is None) ==> self.pat_reader.abs().queue.len() == 0,
                    forall|k: int| 0 <= k < out@.len() ==> is_packet(#[trigger] out.deep_view()[k]),
                    (match cur {
                        Some(s) => is_complete_section(s@),
                        None => true,
                    }),
                decreases self.pat_reader.abs().queue.len() + (if cur is Some {
                    1int
                } else {
                    0int
                }),
            {
                let pat = cur.unwrap();
                let ghost q_mid = self.pat_reader.abs().queue;
                let ghost cc_pre = self.pat_cc;
                proof {
                    assert((seq![pat@] + q_mid)[0] == pat@);
                    assert((seq![pat@] + q_mid).drop_first() =~= q_mid);
                }
                match pat_find_program(&pat) {
                    Some((_prog, _mpid)) => {
                        self.pmt_pid = Some(_mpid);
                        proof {
                            lemma_pat_find_some_len(pat@, EXTENDED_HEADER_SIZE as int);
                        }
                        if pat.len() >= EXTENDED_HEADER_SIZE {
                            let new_pat = rewrite_pat(
                                &pat,
                                self.transport_stream_id,
                                self.program_number,
                            );
                            let mut packets = packtize_section(&new_pat, p, self.pat_cc);
                            let n = (packets.len() % 16) as u8;
                            self.pat_cc = (self.pat_cc + n) % 16;
                            let ghost out_pre = out.deep_view();
                            let ghost added = packets.deep_view();
                            out.append(&mut packets);
                            proof {
                                assert(out.deep_view() =~~= out_pre + added);
                                assert(added == packetize_spec(
                                    rewrite_pat_spec(
                                        pat@,
                                        old(self).transport_stream_id,
                                        old(self).program_number,
                                    ),
                                    0,
                                    cc_pre,
                                    0,
                                ));
                                vstd::arithmetic::div_mod::lemma_add_mod_noop(
                                    added.len() as int,
                                    cc_pre as int,
                                    16,
                                );
                                vstd::arithmetic::div_mod::lemma_small_mod(cc_pre as nat, 16nat);
                                assert(self.pat_cc as int == (cc_pre + added.len()) % 16);
                                let rem2 = drive_pats_spec(
                                    q_mid,
                                    old(self).transport_stream_id,
                                    old(self).program_number,
                                    self.pmt_pid,
                                    self.pat_cc,
                                );
                                assert((out_pre + added) + rem2.2 =~~= out_pre + (added + rem2.2));
                                done = done + 1;
                            }
                        }
                        cur = self.pat_reader.pop();
                        proof {
                            assert((match cur {
                                Some(c) => seq![c@],
                                None => Seq::<Seq<u8>>::empty(),
                            }) + self.pat_reader.abs().queue =~= q_mid);
                            assert(q_mid =~= pushed.queue.subrange(done, pushed.queue.len() as int));
                        }
                    },
                    None => {
                        // no usable entry: clear the channel; later completed
                        // tables stay queued for the next packet
                        self.pmt_pid = None;
                        proof {
                            assert(out.deep_view() + Seq::<Seq<u8>>::empty() =~~= out.deep_view());
                            stopped = true;
                            done = done + 1;
                        }
                        cur = None;
                        proof {
                            assert(Seq::<Seq<u8>>::empty() + self.pat_reader.abs().queue =~= q_mid);
                            assert(q_mid =~= pushed.queue.subrange(done, pushed.queue.len() as int));
                        }
                    },
                }
            }
            proof {
                if !stopped {
                    assert(self.pat_reader.abs().queue.len() == 0);
                    assert((match cur {
                        Some(c) => seq![c@],
                        None => Seq::<Seq<u8>>::empty(),
                    }) + self.pat_reader.abs().queue =~= Seq::<Seq<u8>>::empty());
                    assert(out.deep_view() + Seq::<Seq<u8>>::empty() =~~= out.deep_view());
                }
                assert(ptarget == (self.pmt_pid, self.pat_cc, out.deep_view(), done));
                assert(self.pat_reader.abs().queue =~= pushed.queue.subrange(
                    done,
                    pushed.queue.len() as int,
                ));
                assert(self.pat_reader.abs() == (AsmView {
                    buf: pushed.buf,
                    queue: pushed.queue.subrange(ptarget.3, pushed.queue.len() as int),
                }));
            }
        } else {
            let is_pmt = match self.pmt_pid {
                Some(mp) => mp == p,
                None => false,
            };
            if is_pmt {
                self.pmt_reader.push(packet);
                let ghost pushedm = self.pmt_reader.abs();
                let ghost mtarget = drive_pmts_spec(
                    pushedm.queue,
                    old(self).program_number,
                    view_of_streams(old(self).streams@),
                    spec_pid(packet@),
                    old(self).pcr_pid,
                    old(self).pmt_cc,
                );
                let mut cur = self.pmt_reader.pop();
                proof {
                    assert((match cur {
                        Some(c) => seq![c@],
                        None => Seq::<Seq<u8>>::empty(),
                    }) + self.pmt_reader.abs().queue =~= pushedm.queue);
                    assert(out.deep_view() =~~= Seq::<Seq<u8>>::empty());
                }
                while cur.is_some()
                    invariant
                        self.pmt_reader.wf(),
                        self.pmt_reader.abs().buf == pushedm.buf,
                        self.pmt_cc < 16,
                        p == spec_pid(packet@),
                        self.pat_reader == old(self).pat_reader,
                        self.pat_cc == old(self).pat_cc,
                        self.clock == old(self).clock,
                        self.queue@ == old(self).queue@,
                        self.qhead == old(self).qhead,
                        self.pmt_pid == old(self).pmt_pid,
                        self.transport_stream_id == old(self).transport_stream_id,
                        self.program_number == old(self).program_number,
                        old(self).wf(),
                        streams_wf(self.streams_view()),
                        self.streams@ == old(self).streams@,
                        ({
                            let rem = drive_pmts_spec(
                                (match cur {
                                    Some(c) => seq![c@],
                                    None => Seq::<Seq<u8>>::empty(),
                                }) + self.pmt_reader.abs().queue,
                                old(self).program_number,
                                view_of_streams(old(self).streams@),
                                spec_pid(packet@),
                                self.pcr_pid,
                                self.pmt_cc,
                            );
                            mtarget == (rem.0, rem.1, out.deep_view() + rem.2)
                        }),
                        (cur is None) ==> self.pmt_reader.abs().queue.len() == 0,
                        forall|k: int|
                            0 <= k < out@.len() ==> is_packet(#[trigger] out.deep_view()[k]),
                        (match cur {
                            Some(s) => is_complete_section(s@),
                            None => true,
                        }),
                    decreases self.pmt_reader.abs().queue.len() + (if cur is Some {
                        1int
                    } else {
                        0int
                    }),
                {
                    let pmt = cur.unwrap();
                    let ghost q_mid = self.pmt_reader.abs().queue;
                    let ghost cc_pre = self.pmt_cc;
                    proof {
                        assert((seq![pmt@] + q_mid)[0] == pmt@);
                        assert((seq![pmt@] + q_mid).drop_first() =~= q_mid);
                    }
                    if pmt.len() >= EXTENDED_HEADER_SIZE + 4 {
                        self.pcr_pid = Some(pmt_pcr_pid(&pmt));
                        let pil = pmt_program_info_length(&pmt);
                        if EXTENDED_HEADER_SIZE + 4 + pil <= pmt.len() {
                            proof {
                                lemma_encode_reps_bound(self.streams_view());
                                lemma_section_length_bound(pmt@);
                                assert(pmt@.len() == BASIC_HEADER_SIZE + spec_section_length(pmt@));
                                assert forall|ix: int|
                                    0 <= ix < self.streams@.len() implies rep_wf(
                                    #[trigger] self.streams@[ix].rep_view(),
                                ) by {
                                    assert(self.streams_view()[ix] == self.streams@[
                                        ix].rep_view());
                                }
                                assert(view_of_streams(self.streams@) =~= self.streams@.map_values(
                                    |x: ReplaceStream| x.rep_view(),
                                ));
                            }
                            let new_pmt = rewrite_pmt(&pmt, self.program_number, &self.streams);
                            let mut packets = packtize_section(&new_pmt, p, self.pmt_cc);
                            let n = (packets.len() % 16) as u8;
                            self.pmt_cc = (self.pmt_cc + n) % 16;
                            let ghost out_pre = out.deep_view();
                            let ghost added = packets.deep_view();
                            out.append(&mut packets);
                            proof {
                                assert(out.deep_view() =~~= out_pre + added);
                                assert(added == packetize_spec(
                                    rewrite_pmt_spec(
                                        pmt@,
                                        old(self).program_number,
                                        view_of_streams(old(self).streams@),
                                    ),
                                    spec_pid(packet@),
                                    cc_pre,
                                    0,
                                ));
                                vstd::arithmetic::div_mod::lemma_add_mod_noop(
                                    added.len() as int,
                                    cc_pre as int,
                                    16,
                                );
                                vstd::arithmetic::div_mod::lemma_small_mod(cc_pre as nat, 16nat);
                                assert(self.pmt_cc as int == (cc_pre + added.len()) % 16);
                                let rem2 = drive_pmts_spec(
                                    q_mid,
                                    old(self).program_number,
                                    view_of_streams(old(self).streams@),
                                    spec_pid(packet@),
                                    self.pcr_pid,
                                    self.pmt_cc,
                                );
                                assert((out_pre + added) + rem2.2 =~~= out_pre + (added + rem2.2));
                            }
                        }
                    }
                    cur = self.pmt_reader.pop();
                    proof {
                        assert((match cur {
                            Some(c) => seq![c@],
                            None => Seq::<Seq<u8>>::empty(),
                        }) + self.pmt_reader.abs().queue =~= q_mid);
                    }
                }
                proof {
                    assert((match cur {
                        Some(c) => seq![c@],
                        None => Seq::<Seq<u8>>::empty(),
                    }) + self.pmt_reader.abs().queue =~= self.pmt_reader.abs().queue);
                    assert(out.deep_view() + Seq::<Seq<u8>>::empty() =~~= out.deep_view());
                    assert(mtarget == (self.pcr_pid, self.pmt_cc, out.deep_view()));
                    assert(self.pmt_reader.abs().queue =~= Seq::<Seq<u8>>::empty());
                    assert(self.pmt_reader.abs() == (AsmView {
                        buf: pushedm.buf,
                        queue: Seq::<Seq<u8>>::empty(),
                    }));
                }
            } else {
                let mut drop_it = is_si_pid(p);
                if !drop_it {
                    match streams_find(&self.streams, p) {
                        Some(i) => {
                            proof {
                                assert(self.streams_view()[i as int] == self.streams@[i
                                    as int].rep_view());
                                assert(streams_has_pid(self.streams_view(), p));
                            }
                            drop_it = true;
                        },
                        None => {},
                    }
                }
                if drop_it {
                    // superseded by replayed metadata: drop
                } else {
                    let ghost out_pre = out.deep_view();
                    out.push(clone_packet(packet));
                    proof {
                        assert(out.deep_view() =~~= out_pre.push(packet@));
                    }
                }
            }
        }

        // drain the replay queue up to the current elapsed time
        let ghost mid = *self;
        let ghost before_drain = out.deep_view();
        let ghost h0 = self.qhead as int;
        let e = self.clock.elapsed;
        while self.qhead < self.queue.len() && self.queue[self.qhead].time <= e
            invariant
                queue_wf(self.queue_view()),
                streams_wf(self.streams_view()),
                self.queue@ == old(self).queue@,
                self.streams@ == old(self).streams@,
                self.pat_reader == mid.pat_reader,
                self.pmt_reader == mid.pmt_reader,
                self.pat_cc == mid.pat_cc,
                self.pmt_cc == mid.pmt_cc,
                self.pmt_pid == mid.pmt_pid,
                self.pcr_pid == mid.pcr_pid,
                self.pat_reader.wf(),
                self.pmt_reader.wf(),
                self.pat_cc < 16,
                self.pmt_cc < 16,
                self.clock == old(self).clock,
                e == self.clock.elapsed,
                h0 <= self.qhead as int <= self.queue@.len(),
                out.deep_view().len() == before_drain.len() + (self.qhead as int - h0),
                forall|k: int|
                    0 <= k < before_drain.len() ==> #[trigger] out.deep_view()[k]
                        == before_drain[k],
                forall|k: int| 0 <= k < out@.len() ==> is_packet(#[trigger] out.deep_view()[k]),
                forall|i: int|
                    h0 <= i < self.qhead as int ==> #[trigger] self.queue_view()[i].time <= e,
                forall|i: int|
                    h0 <= i < self.qhead as int ==> #[trigger] out.deep_view()[before_drain.len()
                        + (i - h0)] == replay_patched(self.queue_view()[i], self.streams_view()),
            decreases self.queue@.len() - self.qhead,
        {
            let ghost out_pre = out.deep_view();
            proof {
                assert(self.queue_view()[self.qhead as int] == self.queue@[self.qhead
                    as int].qe_view());
                assert(qe_wf(self.queue_view()[self.qhead as int]));
            }
            let entry_pid = self.queue[self.qhead].pid;
            let mut bytes = clone_packet(&self.queue[self.qhead].packet);
            match streams_find(&self.streams, entry_pid) {
                Some(i) => {
                    proof {
                        assert(self.streams_view()[i as int] == self.streams@[i as int].rep_view());
                        assert(rep_wf(self.streams_view()[i as int]));
                    }
                    let target = self.streams[i].target_pid;
                    set_pid(&mut bytes, target);
                    proof {
                        let ss = self.streams_view();
                        let ev = self.queue_view()[self.qhead as int];
                        assert(streams_has_pid(ss, ev.pid));
                        assert(bytes@ == replay_patched(ev, ss));
                    }
                },
                None => {
                    proof {
                        assert(bytes@ == replay_patched(
                            self.queue_view()[self.qhead as int],
                            self.streams_view(),
                        ));
                    }
                },
            }
            out.push(bytes);
            proof {
                assert(out.deep_view() =~~= out_pre.push(
                    replay_patched(self.queue_view()[self.qhead as int], self.streams_view()),
                ));
            }
            self.qhead = self.qhead + 1;
        }

        proof {
            assert(out.deep_view().len() == out@.len());
            assert(out.deep_view().len() == before_drain.len() + (self.qhead as int - h0));
            assert forall|i: int| h0 <= i < self.qhead as int implies #[trigger] out.deep_view()[
            out@.len() - (self.qhead as int - i)] == replay_patched(
                self.queue_view()[i],
                self.streams_view(),
            ) by {
                assert(out.deep_view()[before_drain.len() + (i - h0)] == replay_patched(
                    self.queue_view()[i],
                    self.streams_view(),
                ));
                assert(before_drain.len() + (i - h0) == out@.len() - (self.qhead as int - i));
            }
            assert(self.queue_view() =~= old(self).queue_view());
            assert(self.streams_view() =~= old(self).streams_view());
        }
        // finally, advance the clock on the program-clock channel
        let on_pcr_channel = match self.pcr_pid {
            Some(cp) => cp == p,
            None => false,
        };
        if on_pcr_channel && has_pcr(packet) {
            match pcr(packet) {
                Some(sample) => {
                    self.clock.advance(sample);
                },
                None => {},
            }
        }
        out
    }
}

} // verus!
