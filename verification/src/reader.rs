//! The section assembler: reconstructs variable-length PSI sections from
//! the packets of one channel. A packet with the start indicator begins a
//! new section at the pointer-field boundary (a stuffing byte there means
//! no more sections in this packet); one without it extends the section
//! being accumulated, or is discarded when none is. A buffer that reaches
//! exactly the basic header size plus its declared section length moves to
//! an output queue; input that ends mid-section is silently dropped.

use vstd::prelude::*;
use crate::packet::{Packet, PACKET_SIZE, STUFFING_BYTE, is_packet, spec_pointer_field_offset,
    spec_payload_unit_start_indicator, pointer_field_offset, payload_unit_start_indicator};
use crate::section::{Section, BASIC_HEADER_SIZE, spec_section_length, is_complete_section,
    section_length, lemma_section_length_bound};

verus! {

/// The assembler's abstract state: the partial buffer, if one is
/// accumulating, and the queue of completed sections.
#[verifier::ext_equal]
pub struct AsmView {
    pub buf: Option<Seq<u8>>,
    pub queue: Seq<Seq<u8>>,
}

/// A buffer that is still short of the basic header or of its declared
/// total length.
pub open spec fn incomplete(b: Seq<u8>) -> bool {
    b.len() < BASIC_HEADER_SIZE || b.len() < BASIC_HEADER_SIZE + spec_section_length(b)
}

/// One absorption from `p[begin..]` into buffer `b`: first completes the
/// three header bytes (the declared length is only knowable then), then
/// takes bytes up to the declared total length or to the packet's end.
/// Yields the grown buffer and the position just past the consumed bytes.
pub open spec fn absorb(b: Seq<u8>, p: Seq<u8>, begin: int) -> (Seq<u8>, int) {
    let take1: int = if b.len() < BASIC_HEADER_SIZE {
        if 188 - begin <= BASIC_HEADER_SIZE - b.len() {
            188 - begin
        } else {
            BASIC_HEADER_SIZE - b.len()
        }
    } else {
        0
    };
    let b1 = b + p.subrange(begin, begin + take1);
    let begin1 = begin + take1;
    if b1.len() < BASIC_HEADER_SIZE {
        (b1, begin1)
    } else {
        let total = BASIC_HEADER_SIZE + spec_section_length(b1);
        let take2: int = if 188 - begin1 <= total - b1.len() {
            188 - begin1
        } else {
            total - b1.len()
        };
        (b1 + p.subrange(begin1, begin1 + take2), begin1 + take2)
    }
}

/// Files a grown buffer: a complete one moves to the queue, any other
/// stays accumulating.
pub open spec fn file_buf(v: AsmView, b: Seq<u8>) -> AsmView {
    if is_complete_section(b) {
        AsmView { buf: None, queue: v.queue.push(b) }
    } else {
        AsmView { buf: Some(b), queue: v.queue }
    }
}

/// The scan loop of a start-indicated packet: from `begin` on, absorb
/// into the accumulating buffer or begin a new one, stopping at the
/// packet's end or at a stuffing byte where a new section would start.
pub open spec fn scan_from(v: AsmView, p: Seq<u8>, begin: int) -> AsmView
    decreases 188 - begin,
{
    if begin < 0 || begin >= 188 {
        v
    } else if v.buf is None && p[begin] == STUFFING_BYTE {
        v
    } else {
        let b0: Seq<u8> = match v.buf {
            None => Seq::empty(),
            Some(b) => b,
        };
        let (b2, begin2) = absorb(b0, p, begin);
        let v2 = file_buf(v, b2);
        if begin2 <= begin {
            v2
        } else {
            scan_from(v2, p, begin2)
        }
    }
}

/// The transition of one start-indicated packet: new section data begins
/// at the pointer-field boundary, advanced by the pointer's value when no
/// section is currently accumulating, plus the pointer byte itself.
pub open spec fn push_start(v: AsmView, p: Seq<u8>) -> AsmView {
    let pfo = spec_pointer_field_offset(p) as int;
    if pfo >= 188 {
        v
    } else {
        let begin: int = if v.buf is None {
            pfo + p[pfo] + 1
        } else {
            pfo + 1
        };
        scan_from(v, p, begin)
    }
}

/// The transition of a packet without the start indicator: its payload
/// extends the accumulating section, or is discarded when none is.
pub open spec fn push_no_start(v: AsmView, p: Seq<u8>) -> AsmView {
    let pfo = spec_pointer_field_offset(p) as int;
    match v.buf {
        None => v,
        Some(b) => if pfo >= 188 {
            v
        } else {
            file_buf(v, absorb(b, p, pfo).0)
        },
    }
}

/// The assembler's transition for one packet.
pub open spec fn asm_push(v: AsmView, p: Seq<u8>) -> AsmView {
    if spec_payload_unit_start_indicator(p) {
        push_start(v, p)
    } else {
        push_no_start(v, p)
    }
}

/// State machine reconstructing PSI sections from one channel's packets.
pub struct SectionReader {
    section: Option<Vec<u8>>,
    queue: Vec<Section>,
}

impl SectionReader {
    /// The abstract state.
    pub closed spec fn abs(self) -> AsmView {
        AsmView {
            buf: match self.section {
                Some(b) => Some(b@),
                None => None,
            },
            queue: self.queue.deep_view(),
        }
    }

    /// The accumulating buffer is never complete, and everything queued is.
    pub closed spec fn wf(self) -> bool {
        &&& match self.section {
            Some(b) => incomplete(b@),
            None => true,
        }
        &&& forall|i: int|
            0 <= i < self.queue@.len() ==> is_complete_section(#[trigger] self.queue.deep_view()[i])
    }

    pub fn new() -> (r: SectionReader)
        ensures
            r.wf(),
            r.abs().buf is None,
            r.abs().queue == Seq::<Seq<u8>>::empty(),
    {
        let r = SectionReader { section: None, queue: Vec::new() };
        proof {
            assert(r.queue.deep_view() =~= Seq::<Seq<u8>>::empty());
        }
        r
    }

    /// Feeds one packet of this assembler's channel.
    pub fn push(&mut self, packet: &Packet)
        requires
            is_packet(packet@),
            old(self).wf(),
        ensures
            final(self).wf(),
            final(self).abs() == asm_push(old(self).abs(), packet@),
    {
        let ghost v0 = old(self).abs();
        let ghost p = packet@;
        let pfo = pointer_field_offset(packet);
        if payload_unit_start_indicator(packet) {
            if pfo >= PACKET_SIZE {
                return ;
            }
            let begin0: usize = if self.section.is_none() {
                pfo + packet[pfo] as usize + 1
            } else {
                pfo + 1
            };
            let mut begin = begin0;
            proof {
                assert(push_start(v0, p) == scan_from(v0, p, begin0 as int));
            }
            while begin < PACKET_SIZE
                invariant
                    is_packet(p),
                    packet@ == p,
                    self.wf(),
                    v0 == old(self).abs(),
                    spec_payload_unit_start_indicator(p),
                    scan_from(self.abs(), p, begin as int) == push_start(v0, p),
                decreases PACKET_SIZE - begin,
            {
                let ghost v_cur = self.abs();
                let ghost begin_pre = begin as int;
                if self.section.is_none() {
                    if packet[begin] == STUFFING_BYTE {
                        proof {
                            assert(scan_from(v_cur, p, begin_pre) == v_cur);
                        }
                        return ;
                    }
                    self.section = Some(Vec::new());
                    proof {
                        assert(self.abs().buf == Some(Seq::<u8>::empty()));
                        assert(Seq::<u8>::empty() =~= (match v_cur.buf {
                            None => Seq::<u8>::empty(),
                            Some(b) => b,
                        }));
                    }
                }
                let ghost b0: Seq<u8> = match v_cur.buf {
                    None => Seq::empty(),
                    Some(b) => b,
                };
                let mut b = self.section.take().unwrap();
                let begin2 = absorb_into(&mut b, packet, begin);
                let complete = if b.len() >= BASIC_HEADER_SIZE {
                    b.len() == BASIC_HEADER_SIZE + section_length(&b)
                } else {
                    false
                };
                if complete {
                    self.queue.push(b);
                    self.section = None;
                    proof {
                        assert(self.queue.deep_view() =~~= v_cur.queue.push(
                            absorb(b0, p, begin_pre).0,
                        ));
                    }
                } else {
                    self.section = Some(b);
                }
                proof {
                    assert(self.abs() =~~= file_buf(v_cur, absorb(b0, p, begin_pre).0));
                    assert(begin2 as int == absorb(b0, p, begin_pre).1);
                    assert(scan_from(v_cur, p, begin_pre) == scan_from(self.abs(), p, begin2 as int));
                }
                begin = begin2;
            }
            proof {
                assert(scan_from(self.abs(), p, begin as int) == self.abs());
            }
        } else {
            if self.section.is_some() && pfo < PACKET_SIZE {
                let ghost b0: Seq<u8> = self.abs().buf->0;
                let mut b = self.section.take().unwrap();
                let begin2 = absorb_into(&mut b, packet, pfo);
                let complete = if b.len() >= BASIC_HEADER_SIZE {
                    b.len() == BASIC_HEADER_SIZE + section_length(&b)
                } else {
                    false
                };
                if complete {
                    self.queue.push(b);
                    self.section = None;
                    proof {
                        assert(self.queue.deep_view() =~~= v0.queue.push(
                            absorb(b0, p, pfo as int).0,
                        ));
                    }
                } else {
                    self.section = Some(b);
                }
                proof {
                    assert(self.abs() =~~= file_buf(v0, absorb(b0, p, pfo as int).0));
                }
            }
        }
    }

    /// Hands out the oldest completed section, if any.
    pub fn pop(&mut self) -> (r: Option<Section>)
        requires
            old(self).wf(),
        ensures
            final(self).wf(),
            final(self).abs().buf == old(self).abs().buf,
            old(self).abs().queue.len() == 0 ==> r is None && final(self).abs() == old(self).abs(),
            old(self).abs().queue.len() > 0 ==> r is Some && r->0@ == old(self).abs().queue[0]
                && final(self).abs().queue == old(self).abs().queue.subrange(
                1,
                old(self).abs().queue.len() as int,
            ),
            r is Some ==> is_complete_section(r->0@),
    {
        if self.queue.len() == 0 {
            proof {
                assert(self.queue.deep_view() =~= old(self).queue.deep_view());
            }
            None
        } else {
            let s = self.queue.remove(0);
            proof {
                assert(self.queue.deep_view() =~= old(self).queue.deep_view().subrange(
                    1,
                    old(self).queue.deep_view().len() as int,
                ));
                assert(is_complete_section(old(self).abs().queue[0]));
            }
            Some(s)
        }
    }
}

/// Grows `buf` from `packet[begin..]` as `absorb` describes.
fn absorb_into(buf: &mut Vec<u8>, packet: &Packet, begin: usize) -> (r: usize)
    requires
        is_packet(packet@),
        begin < PACKET_SIZE,
        incomplete(old(buf)@),
    ensures
        final(buf)@ == absorb(old(buf)@, packet@, begin as int).0,
        r as int == absorb(old(buf)@, packet@, begin as int).1,
        begin < r <= PACKET_SIZE,
        !is_complete_section(final(buf)@) ==> incomplete(final(buf)@) && r == PACKET_SIZE,
{
    let ghost b_init = buf@;
    let ghost p = packet@;
    let mut pos = begin;
    if buf.len() < BASIC_HEADER_SIZE {
        let avail = PACKET_SIZE - pos;
        let need = BASIC_HEADER_SIZE - buf.len();
        let take = if avail <= need {
            avail
        } else {
            need
        };
        let end = pos + take;
        proof {
            assert(buf@ =~= b_init + p.subrange(begin as int, begin as int));
        }
        while pos < end
            invariant
                is_packet(p),
                packet@ == p,
                begin <= pos <= end <= PACKET_SIZE,
                buf@ == b_init + p.subrange(begin as int, pos as int),
            decreases end - pos,
        {
            let byte = packet[pos];
            buf.push(byte);
            proof {
                assert(p.subrange(begin as int, pos + 1) =~= p.subrange(begin as int, pos as int)
                    .push(p[pos as int]));
            }
            pos = pos + 1;
        }
        proof {
            assert(buf@ =~= b_init + p.subrange(begin as int, begin + (if 188 - begin as int
                <= BASIC_HEADER_SIZE - b_init.len() {
                188 - begin as int
            } else {
                BASIC_HEADER_SIZE - b_init.len()
            })));
        }
        if buf.len() < BASIC_HEADER_SIZE {
            return pos;
        }
    } else {
        proof {
            assert(buf@ =~= b_init + p.subrange(begin as int, begin as int));
        }
    }
    let ghost b1 = buf@;
    let ghost pos1 = pos as int;
    proof {
        lemma_section_length_bound(buf@);
    }
    let total = BASIC_HEADER_SIZE + section_length(buf);
    let avail = PACKET_SIZE - pos;
    let need = total - buf.len();
    let take = if avail <= need {
        avail
    } else {
        need
    };
    let end = pos + take;
    proof {
        assert(buf@ =~= b1 + p.subrange(pos1, pos1));
    }
    while pos < end
        invariant
            is_packet(p),
            packet@ == p,
            0 <= pos1,
            pos1 <= pos <= end <= PACKET_SIZE,
            buf@ == b1 + p.subrange(pos1, pos as int),
        decreases end - pos,
    {
        let byte = packet[pos];
        buf.push(byte);
        proof {
            assert(p.subrange(pos1, pos + 1) =~= p.subrange(pos1, pos as int).push(p[pos as int]));
        }
        pos = pos + 1;
    }
    proof {
        let total_s = BASIC_HEADER_SIZE + spec_section_length(b1);
        let take2: int = if 188 - pos1 <= total_s - b1.len() {
            188 - pos1
        } else {
            total_s - b1.len()
        };
        assert(buf@ =~= b1 + p.subrange(pos1, pos1 + take2));
    }
    pos
}

} // verus!
