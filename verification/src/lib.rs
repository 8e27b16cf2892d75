//! Framing codec for a packetized serial-byte protocol.
//!
//! Payloads of 0 to 254 bytes are packed into self-delimited frames:
//! a start byte, a one-byte id, a byte-stuffing overhead byte, the payload
//! length, the stuffed payload, a CRC-8 checksum and a stop byte. A stateful
//! decoder recovers frames byte by byte from an arbitrary stream.

pub mod cobs;
pub mod codec;
pub mod crc;
pub mod laws;

pub use codec::ParseState;
pub use codec::SerMsg;
