//! Streaming decoder for the ARM CoreSight SWO (Single Wire Output) trace
//! byte stream, as laid out in appendix E of the ARMv7-M architecture
//! reference manual.
//!
//! The decoder is sans-IO: bytes are pushed in with
//! [`TraceDataDecoder::feed`], completed packets are pulled out one at a
//! time with [`TraceDataDecoder::pull`].  Malformed input never raises an
//! error; the decoder discards the bytes it could not complete into a
//! packet and resynchronizes on the next header byte.
//!
//! The byte-level behaviour is specified once, as a pure state machine over
//! mathematical sequences in [`machine`], and the executable decoder in
//! [`decoder`] is verified against it.

pub mod decoder;
pub mod machine;
pub mod packet;

pub use decoder::TraceDataDecoder;
pub use packet::TracePacket;
