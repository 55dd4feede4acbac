//! Core pieces of a still-image codec library: a bounded byte writer, a
//! CRC-32 engine, a QOI encoder and a magic-byte format sniffer.
pub mod codecs;
pub mod colorspace;
pub mod constants;
pub mod crc;
pub mod decoder;
pub mod encoder;
pub mod errors;
pub mod qoi;
pub mod writer;
