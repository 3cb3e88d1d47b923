//! Decoding of smart-meter telegrams: assembling frames out of a chunked byte
//! stream, checking their CRC-16 trailer, and the OBIS identifier grammar.
pub mod obis;
pub mod p1;
