//! Constants of the QOI format.
use vstd::prelude::*;

verus! {

/// The four bytes `qoif`, as a big-endian integer.
pub const QOI_MAGIC: u32 = 0x716f_6966;

/// The size of the header in bytes.
pub const QOI_HEADER_SIZE: usize = 14;

/// The size in bytes of the marker that ends a stream.
pub const QOI_PADDING: usize = 8;

/// Tag of an index chunk; the low six bits hold the slot.
pub const QOI_OP_INDEX: u8 = 0x00;

/// Tag of a small-difference chunk.
pub const QOI_OP_DIFF: u8 = 0x40;

/// Tag of a luma-difference chunk.
pub const QOI_OP_LUMA: u8 = 0x80;

/// Tag of a run chunk; the low six bits hold the run length less one.
pub const QOI_OP_RUN: u8 = 0xc0;

/// Tag of a chunk that carries red, green and blue in full.
pub const QOI_OP_RGB: u8 = 0xfe;

/// Tag of a chunk that carries red, green, blue and alpha in full.
pub const QOI_OP_RGBA: u8 = 0xff;

/// The two bits that tell the short tags apart.
pub const QOI_MASK_2: u8 = 0xc0;

} // verus!
