//! Reference captures containing ITM trace data, timestamps and DWT trace
//! data.

use swo_trace::TraceDataDecoder;
use swo_trace::TracePacket;

#[test]
fn example_capture1() {
    // Example trace, containing ITM trace data, timestamps and DWT trace data.
    let trace_data: Vec<u8> = vec![
        3, 65, 0, 0, 0, 192, 204, 244, 109, 3, 66, 0, 0, 0, 192, 29, 3, 67, 0, 0, 0, 112, 71, 86,
        0, 0, 8, 112, 143, 226, 239, 127, 91, 240, 196, 8,
    ];

    let mut decoder = TraceDataDecoder::new();

    decoder.feed(trace_data);
    assert_eq!(
        Some(TracePacket::ItmData {
            id: 0,
            payload: vec![65, 0, 0, 0]
        }),
        decoder.pull()
    );
    assert_eq!(
        Some(TracePacket::TimeStamp { tc: 0, ts: 1800780 }),
        decoder.pull()
    );
    assert_eq!(
        Some(TracePacket::ItmData {
            id: 0,
            payload: vec![66, 0, 0, 0]
        }),
        decoder.pull()
    );
    assert_eq!(
        Some(TracePacket::TimeStamp { tc: 0, ts: 29 }),
        decoder.pull()
    );
    assert_eq!(
        Some(TracePacket::ItmData {
            id: 0,
            payload: vec![67, 0, 0, 0]
        }),
        decoder.pull()
    );
    assert_eq!(Some(TracePacket::Overflow), decoder.pull());
    assert_eq!(
        Some(TracePacket::DwtData {
            id: 8,
            payload: vec![86, 0, 0, 8]
        }),
        decoder.pull()
    );
    assert_eq!(Some(TracePacket::Overflow), decoder.pull());
    assert_eq!(
        Some(TracePacket::DwtData {
            id: 17,
            payload: vec![226, 239, 127, 91]
        }),
        decoder.pull()
    );
    assert_eq!(
        Some(TracePacket::TimeStamp { tc: 3, ts: 1092 }),
        decoder.pull()
    );
    assert_eq!(None, decoder.pull());
}

#[test]
fn example_capture2() {
    // Example trace, containing ITM trace data, timestamps and DWT trace data.
    let trace_data: Vec<u8> = vec![
        71, 68, 0, 0, 8, 135, 215, 2, 0, 0, 192, 161, 245, 109, 71, 72, 0, 0, 8, 112, 71, 96, 0,
        0, 8, 112, 143, 216, 2, 0, 0, 240, 197,
    ];

    let mut decoder = TraceDataDecoder::new();

    decoder.feed(trace_data);
    assert_eq!(
        Some(TracePacket::DwtData {
            id: 8,
            payload: vec![68, 0, 0, 8]
        }),
        decoder.pull()
    );
    assert_eq!(
        Some(TracePacket::DwtData {
            id: 16,
            payload: vec![215, 2, 0, 0]
        }),
        decoder.pull()
    );
    assert_eq!(
        Some(TracePacket::TimeStamp { tc: 0, ts: 1800865 }),
        decoder.pull()
    );
    assert_eq!(
        Some(TracePacket::DwtData {
            id: 8,
            payload: vec![72, 0, 0, 8]
        }),
        decoder.pull()
    );
    assert_eq!(Some(TracePacket::Overflow), decoder.pull());
    assert_eq!(
        Some(TracePacket::DwtData {
            id: 8,
            payload: vec![96, 0, 0, 8]
        }),
        decoder.pull()
    );
    assert_eq!(Some(TracePacket::Overflow), decoder.pull());
    assert_eq!(
        Some(TracePacket::DwtData {
            id: 17,
            payload: vec![216, 2, 0, 0]
        }),
        decoder.pull()
    );
    assert_eq!(None, decoder.pull());
}
