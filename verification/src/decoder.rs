//! The executable sans-IO decoder, verified against the machine in
//! [`crate::machine`].
//!
//! Bytes go in through [`TraceDataDecoder::feed`]; each
//! [`TraceDataDecoder::pull`] first runs the machine over everything fed
//! so far and then hands out the oldest completed packet, if any.

use std::collections::VecDeque;

use vstd::prelude::*;

use crate::machine::lemma_run_wf;
use crate::machine::spec_extract_size;
use crate::machine::spec_run;
use crate::machine::spec_step;
use crate::machine::state_wf;
use crate::machine::step_extension;
use crate::machine::step_header;
use crate::machine::step_reserved;
use crate::machine::step_sync;
use crate::machine::step_timestamp;
use crate::machine::ts_value;
use crate::machine::SpecState;
use crate::packet::packet_wf;
use crate::packet::SpecPacket;
use crate::packet::TracePacket;

verus! {

/// The decoder's partial-decode state, mirroring [`SpecState`] with
/// executable accumulators.
enum DecoderState {
    Header,
    Syncing(usize),
    ItmData { id: usize, payload: Vec<u8>, size: usize },
    DwtData { id: usize, payload: Vec<u8>, size: usize },
    Extension(Vec<u8>),
    Reserved(Vec<u8>),
    TimeStamp { tc: usize, ts: Vec<u8> },
}

impl View for DecoderState {
    type V = SpecState;

    closed spec fn view(&self) -> SpecState {
        match self {
            DecoderState::Header => SpecState::Header,
            DecoderState::Syncing(count) => (SpecState::Syncing { count: *count }),
            DecoderState::ItmData { id, payload, size } => (SpecState::ItmData {
                id: *id,
                payload: payload@,
                size: *size,
            }),
            DecoderState::DwtData { id, payload, size } => (SpecState::DwtData {
                id: *id,
                payload: payload@,
                size: *size,
            }),
            DecoderState::Extension(data) => (SpecState::Extension { data: data@ }),
            DecoderState::Reserved(data) => (SpecState::Reserved { data: data@ }),
            DecoderState::TimeStamp { tc, ts } => (SpecState::TimeStamp {
                tc: *tc,
                groups: ts@,
            }),
        }
    }
}

/// The model of a whole decoder: the bytes not yet consumed, the packets
/// not yet pulled, and the current machine state.
pub struct SpecDecoder {
    pub incoming: Seq<u8>,
    pub packets: Seq<SpecPacket>,
    pub state: SpecState,
}

/// The packet queue, seen as a sequence of packet models.
spec fn packets_view(packets: Seq<TracePacket>) -> Seq<SpecPacket> {
    Seq::new(packets.len(), |i: int| packets[i]@)
}

/// Streaming trace decoder.
///
/// Drive it with [`feed`](Self::feed) and [`pull`](Self::pull) from a
/// single owner; it holds no transport, clock or other resource, only the
/// two queues and the current decode state.
pub struct TraceDataDecoder {
    incoming: VecDeque<u8>,
    packets: VecDeque<TracePacket>,
    state: DecoderState,
}

impl View for TraceDataDecoder {
    type V = SpecDecoder;

    closed spec fn view(&self) -> SpecDecoder {
        SpecDecoder {
            incoming: self.incoming@,
            packets: packets_view(self.packets@),
            state: self.state@,
        }
    }
}

/// `s.push(p)` and `s + seq![p]` are the same sequence.
proof fn lemma_push_is_add_one(s: Seq<SpecPacket>, p: SpecPacket)
    ensures
        s.push(p) == s + seq![p],
{
    assert(s.push(p) =~= s + seq![p]);
}

/// Appending no packets changes nothing.
proof fn lemma_add_empty(s: Seq<SpecPacket>)
    ensures
        s + Seq::<SpecPacket>::empty() == s,
{
    assert(s + Seq::<SpecPacket>::empty() =~= s);
}

impl TraceDataDecoder {
    /// Every reachable decoder satisfies this: the machine state is
    /// well-formed and every queued packet obeys the size rule of its
    /// kind.
    pub open spec fn wf(&self) -> bool {
        &&& state_wf(self@.state)
        &&& forall|i: int| 0 <= i < self@.packets.len() ==> packet_wf(#[trigger] self@.packets[i])
    }

    /// A fresh decoder: no pending bytes, no completed packets, waiting
    /// for a header byte.
    pub fn new() -> (decoder: Self)
        ensures
            decoder@.incoming == Seq::<u8>::empty(),
            decoder@.packets == Seq::<SpecPacket>::empty(),
            decoder@.state == SpecState::Header,
            decoder.wf(),
    {
        let decoder = TraceDataDecoder {
            incoming: VecDeque::new(),
            packets: VecDeque::new(),
            state: DecoderState::Header,
        };
        proof {
            assert(decoder@.packets =~= Seq::<SpecPacket>::empty());
        }
        decoder
    }

    /// Feed trace data into the decoder.
    ///
    /// The bytes are only queued; nothing is decoded until the next
    /// [`pull`](Self::pull).  Feeding never fails.
    pub fn feed(&mut self, data: Vec<u8>)
        ensures
            final(self)@.incoming == old(self)@.incoming + data@,
            final(self)@.packets == old(self)@.packets,
            final(self)@.state == old(self)@.state,
            old(self).wf() ==> final(self).wf(),
    {
        let n = data.len();
        let mut i: usize = 0;
        while i < n
            invariant
                i <= n,
                n == data@.len(),
                self.incoming@ == old(self)@.incoming + data@.take(i as int),
                self.packets == old(self).packets,
                self.state == old(self).state,
            decreases n - i,
        {
            let b = data[i];
            self.incoming.push_back(b);
            i = i + 1;
            proof {
                assert((old(self)@.incoming + data@.take(i - 1)).push(b) =~= old(self)@.incoming
                    + data@.take(i as int));
            }
        }
        proof {
            assert(data@.take(n as int) =~= data@);
        }
    }

    /// Take the oldest unconsumed byte, if any.
    fn next_byte(&mut self) -> (r: Option<u8>)
        ensures
            final(self)@.packets == old(self)@.packets,
            final(self)@.state == old(self)@.state,
            match r {
                Option::Some(b) => old(self)@.incoming.len() > 0 && b == old(self)@.incoming[0]
                    && final(self)@.incoming == old(self)@.incoming.drop_first(),
                Option::None => old(self)@.incoming.len() == 0
                    && final(self)@.incoming == old(self)@.incoming,
            },
    {
        self.incoming.pop_front()
    }

    /// Pull the next completed packet from the decoder.
    ///
    /// First runs the machine over every byte fed so far, then removes
    /// and returns the oldest completed packet; `None` is the ordinary
    /// signal that no complete packet is buffered, never an error.
    pub fn pull(&mut self) -> (r: Option<TracePacket>)
        ensures
            final(self)@.incoming == Seq::<u8>::empty(),
            final(self)@.state == spec_run(old(self)@.state, old(self)@.incoming).0,
            ({
                let available = old(self)@.packets + spec_run(
                    old(self)@.state,
                    old(self)@.incoming,
                ).1;
                match r {
                    Option::Some(p) => available.len() > 0 && p@ == available[0]
                        && final(self)@.packets == available.drop_first(),
                    Option::None => available.len() == 0 && final(self)@.packets == available,
                }
            }),
            old(self).wf() ==> final(self).wf(),
            old(self).wf() ==> (r matches Option::Some(p) ==> packet_wf(p@)),
    {
        self.process_incoming();
        proof {
            if old(self).wf() {
                lemma_run_wf(old(self)@.state, old(self)@.incoming);
                assert forall|i: int| 0 <= i < self@.packets.len() implies packet_wf(
                    #[trigger] self@.packets[i],
                ) by {
                    let emitted = spec_run(old(self)@.state, old(self)@.incoming).1;
                    if i < old(self)@.packets.len() {
                        assert(self@.packets[i] == old(self)@.packets[i]);
                    } else {
                        assert(self@.packets[i] == emitted[i - old(self)@.packets.len()]);
                    }
                }
            }
        }
        let ghost mid_packets = self.packets@;
        let r = self.packets.pop_front();
        proof {
            if mid_packets.len() > 0 {
                assert(packets_view(mid_packets)[0] == mid_packets[0]@);
                assert(packets_view(mid_packets.subrange(1, mid_packets.len() as int))
                    =~= packets_view(mid_packets).drop_first());
            }
        }
        r
    }

    /// Drain the pending byte queue through the state machine.
    fn process_incoming(&mut self)
        ensures
            final(self)@.incoming == Seq::<u8>::empty(),
            final(self)@.state == spec_run(old(self)@.state, old(self)@.incoming).0,
            final(self)@.packets == old(self)@.packets + spec_run(
                old(self)@.state,
                old(self)@.incoming,
            ).1,
    {
        while self.incoming.len() != 0
            invariant
                spec_run(self@.state, self@.incoming).0 == spec_run(
                    old(self)@.state,
                    old(self)@.incoming,
                ).0,
                self@.packets + spec_run(self@.state, self@.incoming).1 == old(self)@.packets
                    + spec_run(old(self)@.state, old(self)@.incoming).1,
            decreases self@.incoming.len(),
        {
            let ghost pre = self@;
            if let Option::Some(b) = self.next_byte() {
                self.process_byte(b);
            }
            proof {
                let st = spec_step(pre.state, pre.incoming[0]);
                assert(pre.incoming.drop_first() == self@.incoming);
                assert(spec_run(pre.state, pre.incoming).0 == spec_run(
                    st.0,
                    pre.incoming.drop_first(),
                ).0);
                assert(spec_run(pre.state, pre.incoming).1 == st.1 + spec_run(
                    st.0,
                    pre.incoming.drop_first(),
                ).1);
                assert((pre.packets + st.1) + spec_run(st.0, pre.incoming.drop_first()).1
                    =~= pre.packets + (st.1 + spec_run(st.0, pre.incoming.drop_first()).1));
            }
        }
        proof {
            assert(self@.packets + spec_run(self@.state, self@.incoming).1 =~= self@.packets);
        }
    }

    /// Advance the state machine by one consumed byte.
    fn process_byte(&mut self, b: u8)
        ensures
            final(self)@.incoming == old(self)@.incoming,
            final(self)@.state == spec_step(old(self)@.state, b).0,
            final(self)@.packets == old(self)@.packets + spec_step(old(self)@.state, b).1,
    {
        let mut current = DecoderState::Header;
        core::mem::swap(&mut current, &mut self.state);
        match current {
            DecoderState::Header => {
                self.decode_first_byte(b);
            },
            DecoderState::Syncing(amount) => {
                self.handle_sync_byte(b, amount);
            },
            DecoderState::ItmData { id, payload, size } => {
                let mut payload = payload;
                payload.push(b);
                self.handle_itm(id, payload, size);
            },
            DecoderState::DwtData { id, payload, size } => {
                let mut payload = payload;
                payload.push(b);
                self.handle_dwt(id, payload, size);
            },
            DecoderState::Extension(data) => {
                self.handle_extension(data, b);
            },
            DecoderState::Reserved(data) => {
                self.handle_reserved(data, b);
            },
            DecoderState::TimeStamp { tc, ts } => {
                self.handle_timestamp(b, tc, ts);
            },
        }
    }

    /// Append a completed packet to the output queue.
    fn emit(&mut self, packet: TracePacket)
        ensures
            final(self)@.incoming == old(self)@.incoming,
            final(self)@.state == old(self)@.state,
            final(self)@.packets == old(self)@.packets.push(packet@),
    {
        let ghost p = packet@;
        let ghost before = self.packets@;
        self.packets.push_back(packet);
        proof {
            assert(packets_view(before.push(packet)) =~= packets_view(before).push(p));
        }
    }

    /// Dispatch on a header byte; see table E-1 of the ARMv7-M reference
    /// manual.
    fn decode_first_byte(&mut self, header: u8)
        requires
            old(self)@.state == SpecState::Header,
        ensures
            final(self)@.incoming == old(self)@.incoming,
            final(self)@.state == step_header(header).0,
            final(self)@.packets == old(self)@.packets + step_header(header).1,
    {
        if header == 0x70 {
            self.emit(TracePacket::Overflow);
            proof {
                lemma_push_is_add_one(old(self)@.packets, SpecPacket::Overflow);
            }
        } else if header == 0x00 {
            // A run of zero bytes terminated by 0x80 synchronizes the
            // stream.
            self.state = DecoderState::Syncing(1);
            proof {
                lemma_add_empty(old(self)@.packets);
            }
        } else {
            let nibble = header & 0xf;
            match nibble {
                0 => {
                    if header & 0x80 == 0 {
                        // Short-form timestamp, value in the header byte;
                        // zero is invalid and dropped.
                        let ts = ((header >> 4) & 0x7) as usize;
                        if ts == 0 {
                            self.state = DecoderState::Header;
                        } else {
                            self.emit(TracePacket::TimeStamp { tc: 0, ts });
                            self.state = DecoderState::Header;
                            proof {
                                lemma_push_is_add_one(
                                    old(self)@.packets,
                                    (SpecPacket::TimeStamp { tc: 0, ts }),
                                );
                            }
                        }
                    } else if header & 0xc0 == 0xc0 {
                        // Long-form timestamp: value bytes follow.
                        let tc = ((header >> 4) & 0x3) as usize;
                        self.state = DecoderState::TimeStamp { tc, ts: Vec::new() };
                    } else {
                        // Invalid header byte: drop it.
                        self.state = DecoderState::Header;
                    }
                },
                0x4 => {
                    let mut data: Vec<u8> = Vec::new();
                    data.push(header);
                    self.state = DecoderState::Reserved(data);
                    proof {
                        assert(data@ =~= seq![header]);
                    }
                },
                0x8 => {
                    let mut data: Vec<u8> = Vec::new();
                    data.push(header);
                    self.state = DecoderState::Extension(data);
                    proof {
                        assert(data@ =~= seq![header]);
                    }
                },
                x => {
                    match extract_size(x) {
                        Option::None => {
                            // Invalid size code: drop the byte.
                            self.state = DecoderState::Header;
                        },
                        Option::Some(size) => {
                            let id = (header >> 3) as usize;
                            if x & 0x4 == 0x4 {
                                // Hardware (DWT) source.
                                self.state = DecoderState::DwtData { id, payload: Vec::new(), size };
                            } else {
                                // Software (ITM) source.
                                self.state = DecoderState::ItmData { id, payload: Vec::new(), size };
                            }
                        },
                    }
                },
            }
            proof {
                if step_header(header).1.len() == 0 {
                    lemma_add_empty(old(self)@.packets);
                }
            }
        }
    }

    /// One byte of a synchronization run.
    fn handle_sync_byte(&mut self, b: u8, amount: usize)
        ensures
            final(self)@.incoming == old(self)@.incoming,
            final(self)@.state == step_sync(amount, b).0,
            final(self)@.packets == old(self)@.packets + step_sync(amount, b).1,
    {
        match b {
            0x00 => {
                if amount > 6 {
                    // Too many zero bytes: abandon the run.
                    self.state = DecoderState::Header;
                } else {
                    self.state = DecoderState::Syncing(amount + 1);
                }
            },
            0x80 => {
                if amount == 5 {
                    self.emit(TracePacket::Sync);
                    proof {
                        lemma_push_is_add_one(old(self)@.packets, SpecPacket::Sync);
                    }
                }
                self.state = DecoderState::Header;
            },
            _ => {
                // Spurious byte during synchronization: abandon the run.
                self.state = DecoderState::Header;
            },
        }
        proof {
            if step_sync(amount, b).1.len() == 0 {
                lemma_add_empty(old(self)@.packets);
            }
        }
    }

    /// One value byte of a long-form timestamp.
    fn handle_timestamp(&mut self, b: u8, tc: usize, ts_bytes: Vec<u8>)
        ensures
            final(self)@.incoming == old(self)@.incoming,
            final(self)@.state == step_timestamp(tc, ts_bytes@, b).0,
            final(self)@.packets == old(self)@.packets + step_timestamp(tc, ts_bytes@, b).1,
    {
        let mut ts_bytes = ts_bytes;
        let continuation = (b & 0x80) > 0;
        ts_bytes.push(b & 0x7f);
        if continuation {
            self.state = DecoderState::TimeStamp { tc, ts: ts_bytes };
            proof {
                lemma_add_empty(old(self)@.packets);
            }
        } else {
            // Reassemble the value: groups arrived least-significant
            // first, so fold them from the last one down.
            let ghost groups = ts_bytes@;
            let mut ts: usize = 0;
            let mut i: usize = ts_bytes.len();
            proof {
                assert(groups.subrange(i as int, groups.len() as int) =~= Seq::<u8>::empty());
            }
            while i > 0
                invariant
                    i <= groups.len(),
                    groups == ts_bytes@,
                    ts == ts_value(groups.subrange(i as int, groups.len() as int)),
                decreases i,
            {
                i = i - 1;
                ts = (ts << 7) | (ts_bytes[i] as usize);
                proof {
                    let tail = groups.subrange(i as int, groups.len() as int);
                    assert(tail.drop_first() =~= groups.subrange(i + 1, groups.len() as int));
                    assert(tail[0] == groups[i as int]);
                    assert(ts_value(tail) == (ts_value(tail.drop_first()) << 7) | (
                    tail[0] as usize));
                }
            }
            proof {
                assert(groups.subrange(0, groups.len() as int) =~= groups);
            }
            self.emit(TracePacket::TimeStamp { tc, ts });
            self.state = DecoderState::Header;
            proof {
                lemma_push_is_add_one(
                    old(self)@.packets,
                    (SpecPacket::TimeStamp { tc, ts: ts_value(ts_bytes@.push(b & 0x7f)) }),
                );
            }
        }
    }

    /// One payload byte of a software instrumentation packet; `payload`
    /// already includes it.
    fn handle_itm(&mut self, id: usize, payload: Vec<u8>, size: usize)
        ensures
            final(self)@.incoming == old(self)@.incoming,
            payload@.len() == size ==> final(self)@.state == SpecState::Header
                && final(self)@.packets == old(self)@.packets + seq![(SpecPacket::ItmData {
                id,
                payload: payload@,
            })],
            payload@.len() != size ==> final(self)@.state == (SpecState::ItmData {
                id,
                payload: payload@,
                size,
            }) && final(self)@.packets == old(self)@.packets,
    {
        if payload.len() == size {
            let ghost p = (SpecPacket::ItmData { id, payload: payload@ });
            self.emit(TracePacket::ItmData { id, payload });
            self.state = DecoderState::Header;
            proof {
                lemma_push_is_add_one(old(self)@.packets, p);
            }
        } else {
            self.state = DecoderState::ItmData { id, payload, size };
        }
    }

    /// One payload byte of a hardware event packet; `payload` already
    /// includes it.
    fn handle_dwt(&mut self, id: usize, payload: Vec<u8>, size: usize)
        ensures
            final(self)@.incoming == old(self)@.incoming,
            payload@.len() == size ==> final(self)@.state == SpecState::Header
                && final(self)@.packets == old(self)@.packets + seq![(SpecPacket::DwtData {
                id,
                payload: payload@,
            })],
            payload@.len() != size ==> final(self)@.state == (SpecState::DwtData {
                id,
                payload: payload@,
                size,
            }) && final(self)@.packets == old(self)@.packets,
    {
        if payload.len() == size {
            let ghost p = (SpecPacket::DwtData { id, payload: payload@ });
            self.emit(TracePacket::DwtData { id, payload });
            self.state = DecoderState::Header;
            proof {
                lemma_push_is_add_one(old(self)@.packets, p);
            }
        } else {
            self.state = DecoderState::DwtData { id, payload, size };
        }
    }

    /// One byte of an extension packet.
    fn handle_extension(&mut self, data: Vec<u8>, b: u8)
        ensures
            final(self)@.incoming == old(self)@.incoming,
            final(self)@.state == step_extension(data@, b).0,
            final(self)@.packets == old(self)@.packets + step_extension(data@, b).1,
    {
        let mut data = data;
        let is_continuation = (b & 0x80) > 0;
        data.push(b);
        if is_continuation && data.len() < 5 {
            self.state = DecoderState::Extension(data);
            proof {
                lemma_add_empty(old(self)@.packets);
            }
        } else {
            let ghost p = (SpecPacket::Extension { data: data@ });
            self.emit(TracePacket::Extension { data });
            self.state = DecoderState::Header;
            proof {
                lemma_push_is_add_one(old(self)@.packets, p);
            }
        }
    }

    /// One byte of a reserved packet.
    fn handle_reserved(&mut self, data: Vec<u8>, b: u8)
        ensures
            final(self)@.incoming == old(self)@.incoming,
            final(self)@.state == step_reserved(data@, b).0,
            final(self)@.packets == old(self)@.packets + step_reserved(data@, b).1,
    {
        let mut data = data;
        let is_continuation = (b & 0x80) > 0;
        data.push(b);
        if is_continuation && data.len() < 5 {
            self.state = DecoderState::Reserved(data);
            proof {
                lemma_add_empty(old(self)@.packets);
            }
        } else {
            let ghost p = (SpecPacket::Reserved { data: data@ });
            self.emit(TracePacket::Reserved { data });
            self.state = DecoderState::Header;
            proof {
                lemma_push_is_add_one(old(self)@.packets, p);
            }
        }
    }
}

/// Payload size encoded in the low two bits of a header nibble.
fn extract_size(c: u8) -> (r: Option<usize>)
    ensures
        r == spec_extract_size(c),
{
    if c & 0b11 == 0b01 {
        Option::Some(1)
    } else if c & 0b11 == 0b10 {
        Option::Some(2)
    } else if c & 0b11 == 0b11 {
        Option::Some(4)
    } else {
        Option::None
    }
}

} // verus!
