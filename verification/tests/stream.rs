//! Byte-level behaviour of the decoder: packet kinds, malformed input,
//! chunked feeding and draining.

use swo_trace::TraceDataDecoder;
use swo_trace::TracePacket;

fn drain(decoder: &mut TraceDataDecoder) -> Vec<TracePacket> {
    let mut packets = Vec::new();
    while let Some(packet) = decoder.pull() {
        packets.push(packet);
    }
    packets
}

#[test]
fn chunked_feed_matches_single_feed() {
    let trace_data: Vec<u8> = vec![
        3, 65, 0, 0, 0, 192, 204, 244, 109, 3, 66, 0, 0, 0, 192, 29, 3, 67, 0, 0, 0, 112, 71, 86,
        0, 0, 8, 112, 143, 226, 239, 127, 91, 240, 196, 8,
    ];

    let mut whole = TraceDataDecoder::new();
    whole.feed(trace_data.clone());
    let expected = drain(&mut whole);

    let mut chunked = TraceDataDecoder::new();
    for b in trace_data {
        chunked.feed(vec![b]);
    }
    assert_eq!(expected, drain(&mut chunked));

    let mut interleaved = TraceDataDecoder::new();
    let mut collected = Vec::new();
    for b in [3u8, 66, 0, 0, 0, 192, 29] {
        interleaved.feed(vec![b]);
        collected.append(&mut drain(&mut interleaved));
    }
    assert_eq!(
        vec![
            TracePacket::ItmData {
                id: 0,
                payload: vec![66, 0, 0, 0]
            },
            TracePacket::TimeStamp { tc: 0, ts: 29 },
        ],
        collected
    );
}

#[test]
fn malformed_sync_then_itm() {
    // A malformed sync sequence does not corrupt the packet after it.
    let mut decoder = TraceDataDecoder::new();
    decoder.feed(vec![0x00, 0x00, 0x99, 0x01, 0xAA]);
    assert_eq!(
        Some(TracePacket::ItmData {
            id: 0,
            payload: vec![0xAA]
        }),
        decoder.pull()
    );
    assert_eq!(None, decoder.pull());
}

#[test]
fn drained_decoder_keeps_returning_none() {
    let mut decoder = TraceDataDecoder::new();
    decoder.feed(vec![0x70]);
    assert_eq!(Some(TracePacket::Overflow), decoder.pull());
    for _ in 0..10 {
        assert_eq!(None, decoder.pull());
    }
    // New bytes revive it.
    decoder.feed(vec![0x70]);
    assert_eq!(Some(TracePacket::Overflow), decoder.pull());
}

#[test]
fn long_form_timestamp_reconstruction() {
    // Header 0xD0: long form, tc = 1.  Groups 0x01 (continued) then 0x02:
    // value (0x02 << 7) | 0x01 = 257.
    let mut decoder = TraceDataDecoder::new();
    decoder.feed(vec![0xD0, 0x81, 0x02]);
    assert_eq!(
        Some(TracePacket::TimeStamp { tc: 1, ts: 257 }),
        decoder.pull()
    );
    assert_eq!(None, decoder.pull());
}

#[test]
fn itm_then_timestamp() {
    let mut decoder = TraceDataDecoder::new();
    decoder.feed(vec![3, 65, 0, 0, 0, 192, 204, 244, 109]);
    assert_eq!(
        Some(TracePacket::ItmData {
            id: 0,
            payload: vec![65, 0, 0, 0]
        }),
        decoder.pull()
    );
    assert_eq!(
        Some(TracePacket::TimeStamp { tc: 0, ts: 1800780 }),
        decoder.pull()
    );
    assert_eq!(None, decoder.pull());
}

#[test]
fn overflow_passthrough() {
    let mut decoder = TraceDataDecoder::new();
    decoder.feed(vec![0x70, 0x70]);
    assert_eq!(Some(TracePacket::Overflow), decoder.pull());
    assert_eq!(Some(TracePacket::Overflow), decoder.pull());
    assert_eq!(None, decoder.pull());
}

#[test]
fn sync_packet() {
    // Five zero bytes terminated by 0x80.
    let mut decoder = TraceDataDecoder::new();
    decoder.feed(vec![0x00, 0x00, 0x00, 0x00, 0x00, 0x80]);
    assert_eq!(Some(TracePacket::Sync), decoder.pull());
    assert_eq!(None, decoder.pull());
}

#[test]
fn sync_with_wrong_zero_count_is_dropped() {
    let mut decoder = TraceDataDecoder::new();
    decoder.feed(vec![0x00, 0x00, 0x00, 0x00, 0x80]);
    assert_eq!(None, decoder.pull());
    // The decoder is back at a header boundary.
    decoder.feed(vec![0x70]);
    assert_eq!(Some(TracePacket::Overflow), decoder.pull());
}

#[test]
fn sync_with_too_many_zeros_is_dropped() {
    let mut decoder = TraceDataDecoder::new();
    decoder.feed(vec![0x00, 0x00, 0x00, 0x00, 0x00, 0x00, 0x00, 0x00, 0x80]);
    assert_eq!(None, decoder.pull());
    decoder.feed(vec![0x70]);
    assert_eq!(Some(TracePacket::Overflow), decoder.pull());
}

#[test]
fn short_form_timestamp() {
    // 0x30: low nibble zero, bit 7 clear, value bits 3.
    let mut decoder = TraceDataDecoder::new();
    decoder.feed(vec![0x30]);
    assert_eq!(Some(TracePacket::TimeStamp { tc: 0, ts: 3 }), decoder.pull());
    assert_eq!(None, decoder.pull());
}

#[test]
fn invalid_header_byte_is_dropped() {
    // 0x90: timestamp nibble with bit 7 set but bit 6 clear.
    let mut decoder = TraceDataDecoder::new();
    decoder.feed(vec![0x90, 0x70]);
    assert_eq!(Some(TracePacket::Overflow), decoder.pull());
    assert_eq!(None, decoder.pull());
}

#[test]
fn invalid_size_code_is_dropped() {
    // 0x0C: size code 0b00 is invalid; the byte is discarded.
    let mut decoder = TraceDataDecoder::new();
    decoder.feed(vec![0x0C, 0x70]);
    assert_eq!(Some(TracePacket::Overflow), decoder.pull());
    assert_eq!(None, decoder.pull());
}

#[test]
fn two_byte_itm_payload() {
    // 0x0A: id 1, software source, 2-byte payload.
    let mut decoder = TraceDataDecoder::new();
    decoder.feed(vec![0x0A, 1, 2]);
    assert_eq!(
        Some(TracePacket::ItmData {
            id: 1,
            payload: vec![1, 2]
        }),
        decoder.pull()
    );
    assert_eq!(None, decoder.pull());
}

#[test]
fn partial_payload_is_never_emitted() {
    let mut decoder = TraceDataDecoder::new();
    decoder.feed(vec![3, 65]);
    assert_eq!(None, decoder.pull());
    decoder.feed(vec![0, 0, 0]);
    assert_eq!(
        Some(TracePacket::ItmData {
            id: 0,
            payload: vec![65, 0, 0, 0]
        }),
        decoder.pull()
    );
    assert_eq!(None, decoder.pull());
}

#[test]
fn extension_packet() {
    // Header 0x08, one more byte without the continuation bit.
    let mut decoder = TraceDataDecoder::new();
    decoder.feed(vec![0x08, 0x05]);
    assert_eq!(
        Some(TracePacket::Extension {
            data: vec![0x08, 0x05]
        }),
        decoder.pull()
    );
    assert_eq!(None, decoder.pull());
}

#[test]
fn extension_packet_is_capped_at_five_bytes() {
    // Every byte asks for continuation, but the packet closes at five
    // bytes including the header.
    let mut decoder = TraceDataDecoder::new();
    decoder.feed(vec![0x88, 0x80, 0x80, 0x80, 0x80, 0x70]);
    assert_eq!(
        Some(TracePacket::Extension {
            data: vec![0x88, 0x80, 0x80, 0x80, 0x80]
        }),
        decoder.pull()
    );
    assert_eq!(Some(TracePacket::Overflow), decoder.pull());
    assert_eq!(None, decoder.pull());
}

#[test]
fn reserved_packet() {
    let mut decoder = TraceDataDecoder::new();
    decoder.feed(vec![0x04, 0x7F]);
    assert_eq!(
        Some(TracePacket::Reserved {
            data: vec![0x04, 0x7F]
        }),
        decoder.pull()
    );
    assert_eq!(None, decoder.pull());
}

#[test]
fn feeding_nothing_yields_nothing() {
    let mut decoder = TraceDataDecoder::new();
    decoder.feed(vec![]);
    assert_eq!(None, decoder.pull());
}
