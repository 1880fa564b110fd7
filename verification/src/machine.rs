//! The decode state machine as a pure function over mathematical values.
//!
//! One byte advances the machine by one step: `spec_step` maps the current
//! partial-decode state and the byte to the next state and the packets
//! emitted (none or one).  `spec_run` folds `spec_step` over a whole byte
//! sequence.  The executable decoder is verified against these functions,
//! and the stream-level laws (chunking invariance, the size rule on every
//! emitted packet, resynchronization after malformed input) are proved of
//! them here.

use vstd::prelude::*;

use crate::packet::packet_wf;
use crate::packet::SpecPacket;

verus! {

/// The current partial-decode state.  `Header` is the initial state and
/// the state between packets; every completed or abandoned packet returns
/// the machine to it.
pub enum SpecState {
    /// Waiting for the next header byte.
    Header,
    /// Inside a synchronization run: `count` zero bytes seen so far.
    Syncing { count: usize },
    /// Collecting the payload of a software instrumentation packet.
    ItmData { id: usize, payload: Seq<u8>, size: usize },
    /// Collecting the payload of a hardware event packet.
    DwtData { id: usize, payload: Seq<u8>, size: usize },
    /// Collecting an extension packet; `data` includes the header byte.
    Extension { data: Seq<u8> },
    /// Collecting a reserved packet; `data` includes the header byte.
    Reserved { data: Seq<u8> },
    /// Collecting the 7-bit groups of a long-form timestamp, in arrival
    /// order.
    TimeStamp { tc: usize, groups: Seq<u8> },
}

/// Payload size encoded in the low two bits of a header nibble: `0b01`,
/// `0b10` and `0b11` stand for 1, 2 and 4 bytes; `0b00` is invalid.
pub open spec fn spec_extract_size(c: u8) -> Option<usize> {
    if c & 0b11 == 0b01 {
        Some(1usize)
    } else if c & 0b11 == 0b10 {
        Some(2usize)
    } else if c & 0b11 == 0b11 {
        Some(4usize)
    } else {
        None
    }
}

/// The timestamp value carried by 7-bit groups in arrival order: the
/// least-significant group arrives first, and each later group is 7 bits
/// more significant.
pub open spec fn ts_value(groups: Seq<u8>) -> usize
    decreases groups.len(),
{
    if groups.len() == 0 {
        0usize
    } else {
        (ts_value(groups.drop_first()) << 7) | (groups[0] as usize)
    }
}

/// Dispatch on a header byte.
pub open spec fn step_header(b: u8) -> (SpecState, Seq<SpecPacket>) {
    if b == 0x70 {
        (SpecState::Header, seq![SpecPacket::Overflow])
    } else if b == 0x00 {
        ((SpecState::Syncing { count: 1 }), Seq::empty())
    } else {
        let nibble = b & 0xf;
        if nibble == 0 {
            if b & 0x80 == 0 {
                // Short-form timestamp: the value sits in bits 4-6 of the
                // header itself.  A zero value is invalid and is dropped.
                let ts = ((b >> 4) & 0x7) as usize;
                if ts == 0 {
                    (SpecState::Header, Seq::empty())
                } else {
                    (SpecState::Header, seq![SpecPacket::TimeStamp { tc: 0, ts }])
                }
            } else if b & 0xc0 == 0xc0 {
                // Long-form timestamp header: delay context in bits 4-5,
                // value bytes follow.
                ((SpecState::TimeStamp { tc: ((b >> 4) & 0x3) as usize, groups: Seq::empty() }),
                Seq::empty())
            } else {
                // Invalid header byte: discard.
                (SpecState::Header, Seq::empty())
            }
        } else if nibble == 0x4 {
            ((SpecState::Reserved { data: seq![b] }), Seq::empty())
        } else if nibble == 0x8 {
            ((SpecState::Extension { data: seq![b] }), Seq::empty())
        } else {
            match spec_extract_size(nibble) {
                Option::None => (SpecState::Header, Seq::empty()),
                Option::Some(size) => {
                    let id = (b >> 3) as usize;
                    if nibble & 0x4 == 0x4 {
                        ((SpecState::DwtData { id, payload: Seq::empty(), size }), Seq::empty())
                    } else {
                        ((SpecState::ItmData { id, payload: Seq::empty(), size }), Seq::empty())
                    }
                },
            }
        }
    }
}

/// One byte of a synchronization run: zero bytes accumulate (at most
/// seven), and `0x80` terminates the run, emitting `Sync` exactly when
/// five zero bytes preceded it.  Anything else abandons the run.
pub open spec fn step_sync(count: usize, b: u8) -> (SpecState, Seq<SpecPacket>) {
    if b == 0x00 {
        if count > 6 {
            (SpecState::Header, Seq::empty())
        } else {
            ((SpecState::Syncing { count: (count + 1) as usize }), Seq::empty())
        }
    } else if b == 0x80 {
        if count == 5 {
            (SpecState::Header, seq![SpecPacket::Sync])
        } else {
            (SpecState::Header, Seq::empty())
        }
    } else {
        (SpecState::Header, Seq::empty())
    }
}

/// One payload byte of a software instrumentation packet.
pub open spec fn step_itm(id: usize, payload: Seq<u8>, size: usize, b: u8) -> (
    SpecState,
    Seq<SpecPacket>,
) {
    let extended = payload.push(b);
    if extended.len() == size {
        (SpecState::Header, seq![SpecPacket::ItmData { id, payload: extended }])
    } else {
        ((SpecState::ItmData { id, payload: extended, size }), Seq::empty())
    }
}

/// One payload byte of a hardware event packet.
pub open spec fn step_dwt(id: usize, payload: Seq<u8>, size: usize, b: u8) -> (
    SpecState,
    Seq<SpecPacket>,
) {
    let extended = payload.push(b);
    if extended.len() == size {
        (SpecState::Header, seq![SpecPacket::DwtData { id, payload: extended }])
    } else {
        ((SpecState::DwtData { id, payload: extended, size }), Seq::empty())
    }
}

/// One byte of an extension packet: bit 7 asks for continuation, and the
/// whole packet is capped at five bytes including the header.
pub open spec fn step_extension(data: Seq<u8>, b: u8) -> (SpecState, Seq<SpecPacket>) {
    let extended = data.push(b);
    if b & 0x80 != 0 && extended.len() < 5 {
        ((SpecState::Extension { data: extended }), Seq::empty())
    } else {
        (SpecState::Header, seq![SpecPacket::Extension { data: extended }])
    }
}

/// One byte of a reserved packet, with the same rule as `step_extension`.
pub open spec fn step_reserved(data: Seq<u8>, b: u8) -> (SpecState, Seq<SpecPacket>) {
    let extended = data.push(b);
    if b & 0x80 != 0 && extended.len() < 5 {
        ((SpecState::Reserved { data: extended }), Seq::empty())
    } else {
        (SpecState::Header, seq![SpecPacket::Reserved { data: extended }])
    }
}

/// One value byte of a long-form timestamp: the low 7 bits join the
/// accumulated groups, and a clear bit 7 completes the packet.
pub open spec fn step_timestamp(tc: usize, groups: Seq<u8>, b: u8) -> (SpecState, Seq<SpecPacket>) {
    let extended = groups.push(b & 0x7f);
    if b & 0x80 != 0 {
        ((SpecState::TimeStamp { tc, groups: extended }), Seq::empty())
    } else {
        (SpecState::Header, seq![SpecPacket::TimeStamp { tc, ts: ts_value(extended) }])
    }
}

/// One step of the machine: consume one byte in the current state.
pub open spec fn spec_step(s: SpecState, b: u8) -> (SpecState, Seq<SpecPacket>) {
    match s {
        SpecState::Header => step_header(b),
        SpecState::Syncing { count } => step_sync(count, b),
        SpecState::ItmData { id, payload, size } => step_itm(id, payload, size, b),
        SpecState::DwtData { id, payload, size } => step_dwt(id, payload, size, b),
        SpecState::Extension { data } => step_extension(data, b),
        SpecState::Reserved { data } => step_reserved(data, b),
        SpecState::TimeStamp { tc, groups } => step_timestamp(tc, groups, b),
    }
}

/// Run the machine over a whole byte sequence, collecting every emitted
/// packet in order.
pub open spec fn spec_run(s: SpecState, bytes: Seq<u8>) -> (SpecState, Seq<SpecPacket>)
    decreases bytes.len(),
{
    if bytes.len() == 0 {
        (s, Seq::empty())
    } else {
        let first = spec_step(s, bytes[0]);
        let rest = spec_run(first.0, bytes.drop_first());
        (rest.0, first.1 + rest.1)
    }
}

/// What holds of every reachable state: accumulators are never longer
/// than the packet they are building allows.
pub open spec fn state_wf(s: SpecState) -> bool {
    match s {
        SpecState::Header => true,
        SpecState::Syncing { count } => 1 <= count <= 7,
        SpecState::ItmData { id: _, payload, size } => (size == 1 || size == 2 || size == 4)
            && payload.len() < size,
        SpecState::DwtData { id: _, payload, size } => (size == 1 || size == 2 || size == 4)
            && payload.len() < size,
        SpecState::Extension { data } => 1 <= data.len() <= 4,
        SpecState::Reserved { data } => 1 <= data.len() <= 4,
        SpecState::TimeStamp { tc, groups: _ } => tc <= 3,
    }
}

/// One step preserves state well-formedness, and whatever it emits obeys
/// the size rule of its packet kind.
pub proof fn lemma_step_wf(s: SpecState, b: u8)
    requires
        state_wf(s),
    ensures
        state_wf(spec_step(s, b).0),
        forall|i: int| 0 <= i < spec_step(s, b).1.len() ==> packet_wf(#[trigger] spec_step(
            s,
            b,
        ).1[i]),
{
    assert(((b >> 4) & 0x3) <= 3) by (bit_vector);
    assert(((b >> 4) & 0x7) <= 7) by (bit_vector);
}

/// No partial emission: run from any well-formed state, over any input,
/// every packet that comes out obeys the size rule implied by its header
/// encoding, and the machine is again in a well-formed state.
pub proof fn lemma_run_wf(s: SpecState, bytes: Seq<u8>)
    requires
        state_wf(s),
    ensures
        state_wf(spec_run(s, bytes).0),
        forall|i: int| 0 <= i < spec_run(s, bytes).1.len() ==> packet_wf(#[trigger] spec_run(
            s,
            bytes,
        ).1[i]),
    decreases bytes.len(),
{
    if bytes.len() > 0 {
        let first = spec_step(s, bytes[0]);
        lemma_step_wf(s, bytes[0]);
        lemma_run_wf(first.0, bytes.drop_first());
    }
}

/// Chunking invariance: splitting the input anywhere changes neither the
/// final state nor the emitted packet sequence — feeding `a + b` emits
/// exactly what feeding `a` and then `b` emits.
pub proof fn lemma_run_append(s: SpecState, a: Seq<u8>, b: Seq<u8>)
    ensures
        spec_run(s, a + b).0 == spec_run(spec_run(s, a).0, b).0,
        spec_run(s, a + b).1 == spec_run(s, a).1 + spec_run(spec_run(s, a).0, b).1,
    decreases a.len(),
{
    if a.len() == 0 {
        assert(a + b =~= b);
        assert(spec_run(s, a).1 + spec_run(spec_run(s, a).0, b).1 =~= spec_run(s, b).1);
    } else {
        let first = spec_step(s, a[0]);
        assert((a + b).drop_first() =~= a.drop_first() + b);
        lemma_run_append(first.0, a.drop_first(), b);
        assert(spec_run(s, a + b).1 =~= spec_run(s, a).1 + spec_run(spec_run(s, a).0, b).1);
    }
}

/// Idempotent draining: with no input the machine neither moves nor
/// emits, so once everything is drained, repeated runs keep yielding
/// nothing.
pub proof fn lemma_run_empty(s: SpecState)
    ensures
        spec_run(s, Seq::<u8>::empty()) == (s, Seq::<SpecPacket>::empty()),
{
}

/// A run of `n` zero bytes.
pub open spec fn zero_run(n: nat) -> Seq<u8> {
    Seq::new(n, |i: int| 0u8)
}

/// Zero bytes accumulate in a synchronization run as long as the total
/// stays within the allowed seven.
proof fn lemma_sync_zeros(count: usize, n: nat)
    requires
        1 <= count,
        count + n <= 7,
    ensures
        spec_run((SpecState::Syncing { count }), zero_run(n)) == (
            (SpecState::Syncing { count: (count + n) as usize }),
            Seq::<SpecPacket>::empty(),
        ),
    decreases n,
{
    if n == 0 {
        assert(zero_run(0).len() == 0);
    } else {
        assert(zero_run(n)[0] == 0u8);
        assert(zero_run(n).drop_first() =~= zero_run((n - 1) as nat));
        lemma_sync_zeros((count + 1) as usize, (n - 1) as nat);
        assert(Seq::<SpecPacket>::empty() + Seq::<SpecPacket>::empty() =~= Seq::<
            SpecPacket,
        >::empty());
    }
}

/// Resynchronization: a malformed synchronization attempt — up to seven
/// zero bytes followed by a byte that neither continues nor terminates
/// the run — is discarded whole, emits nothing, and the bytes after it
/// decode exactly as they would on a fresh stream.
pub proof fn lemma_resynchronization(n: nat, b: u8, rest: Seq<u8>)
    requires
        1 <= n <= 7,
        b != 0x00,
        b != 0x80,
    ensures
        spec_run(SpecState::Header, zero_run(n) + seq![b] + rest) == spec_run(
            SpecState::Header,
            rest,
        ),
{
    let prefix = zero_run(n) + seq![b];
    assert(zero_run(n)[0] == 0u8);
    assert(zero_run(n).drop_first() =~= zero_run((n - 1) as nat));
    lemma_sync_zeros(1, (n - 1) as nat);
    let after_zeros = (SpecState::Syncing { count: n as usize });
    assert(spec_run(SpecState::Header, zero_run(n)) == (
        after_zeros,
        Seq::<SpecPacket>::empty(),
    )) by {
        assert(spec_run(SpecState::Header, zero_run(n)).1 =~= Seq::<SpecPacket>::empty());
    }
    assert(spec_run(after_zeros, seq![b]) == (SpecState::Header, Seq::<SpecPacket>::empty())) by {
        assert(seq![b].drop_first() =~= Seq::<u8>::empty());
        lemma_run_empty(SpecState::Header);
        assert(spec_run(after_zeros, seq![b]).1 =~= Seq::<SpecPacket>::empty());
    }
    lemma_run_append(SpecState::Header, zero_run(n), seq![b]);
    assert(spec_run(SpecState::Header, prefix) == (SpecState::Header, Seq::<SpecPacket>::empty()))
        by {
        assert(spec_run(SpecState::Header, prefix).1 =~= Seq::<SpecPacket>::empty());
    }
    lemma_run_append(SpecState::Header, prefix, rest);
    assert(spec_run(SpecState::Header, prefix + rest).1 =~= spec_run(SpecState::Header, rest).1);
}

} // verus!
