//! What can go wrong while encoding.
use crate::colorspace::ColorSpace;
use vstd::prelude::*;

verus! {

/// The colorspaces that the QOI encoder takes.
pub const SUPPORTED_COLORSPACES: [ColorSpace; 2] = [ColorSpace::RGB, ColorSpace::RGBA];

/// `SUPPORTED_COLORSPACES` as the slice that an error carries.
pub open spec fn supported_colorspaces() -> &'static [ColorSpace] {
    vstd::array::spec_array_as_slice(&SUPPORTED_COLORSPACES)
}

/// Errors of the QOI encoder.
#[derive(Debug)]
pub enum QoiEncodeErrors {
    /// The colorspace that was given, and the ones that are accepted.
    UnsupportedColorspace(ColorSpace, &'static [ColorSpace]),
    /// A width or height that does not fit in 32 bits.
    TooLargeDimensions(usize),
    /// Any other failure, in words.
    Generic(&'static str),
}

} // verus!
