//! Colorspaces, color characteristics and bit depths of raw pixel data.
use vstd::prelude::*;

verus! {

/// How the channels of a pixel are to be read.
#[allow(clippy::upper_case_acronyms)]
#[derive(Copy, Clone, Debug, PartialEq, Eq, Structural)]
pub enum ColorSpace {
    /// Red, green, blue.
    RGB,
    /// Red, green, blue, alpha.
    RGBA,
    /// Luma and two chroma channels.
    YCbCr,
    /// Grayscale.
    Luma,
    /// Grayscale with alpha.
    LumaA,
    /// Luma, two chroma channels and black.
    YCCK,
    /// Cyan, magenta, yellow, black.
    CMYK,
    /// Blue, green, red.
    BGR,
    /// Blue, green, red, alpha.
    BGRA,
    /// The colorspace is not known.
    Unknown,
    /// Alpha, red, green, blue.
    ARGB,
    /// Hue, saturation, lightness.
    HSL,
    /// Hue, saturation, value.
    HSV,
    /// That many channels of no particular meaning.
    MultiBand(u32),
}

impl ColorSpace {
    /// The number of channels of one pixel.
    pub open spec fn components(self) -> nat {
        match self {
            ColorSpace::RGB | ColorSpace::YCbCr | ColorSpace::BGR | ColorSpace::HSV | ColorSpace::HSL => 3,
            ColorSpace::RGBA | ColorSpace::YCCK | ColorSpace::CMYK | ColorSpace::BGRA | ColorSpace::ARGB => 4,
            ColorSpace::Luma => 1,
            ColorSpace::LumaA => 2,
            ColorSpace::Unknown => 0,
            ColorSpace::MultiBand(n) => n as nat,
        }
    }

    /// The number of channels of one pixel.
    pub fn num_components(&self) -> (n: usize)
        ensures
            n == self.components(),
    {
        match self {
            ColorSpace::RGB | ColorSpace::YCbCr | ColorSpace::BGR | ColorSpace::HSV | ColorSpace::HSL => 3,
            ColorSpace::RGBA | ColorSpace::YCCK | ColorSpace::CMYK | ColorSpace::BGRA | ColorSpace::ARGB => 4,
            ColorSpace::Luma => 1,
            ColorSpace::LumaA => 2,
            ColorSpace::Unknown => 0,
            ColorSpace::MultiBand(n) => *n as usize,
        }
    }
}

/// The transfer function of the channel values.
#[allow(non_camel_case_types)]
#[derive(Copy, Clone, Debug, PartialEq, Eq, Structural)]
pub enum ColorCharacteristics {
    /// The sRGB transfer function.
    sRGB,
    /// Channel values are linear.
    Linear,
}

/// The width of one channel value.
#[derive(Copy, Clone, Debug, PartialEq, Eq, Structural)]
pub enum BitDepth {
    /// One byte per channel.
    Eight,
    /// Two bytes per channel.
    Sixteen,
    /// A 32-bit floating point value per channel.
    Float32,
    /// Not known.
    Unknown,
}

/// What an encoder has to know of the image it is given.
#[derive(Copy, Clone, Debug)]
pub struct EncoderOptions {
    width: usize,
    height: usize,
    colorspace: ColorSpace,
    depth: BitDepth,
}

impl EncoderOptions {
    /// The image width in pixels.
    pub closed spec fn width(&self) -> nat {
        self.width as nat
    }

    /// The image height in pixels.
    pub closed spec fn height(&self) -> nat {
        self.height as nat
    }

    /// The colorspace of the pixel data.
    pub closed spec fn colorspace(&self) -> ColorSpace {
        self.colorspace
    }

    /// The bit depth of the pixel data.
    pub closed spec fn depth(&self) -> BitDepth {
        self.depth
    }

    /// Options for an image of `width` by `height` pixels.
    pub fn new(width: usize, height: usize, colorspace: ColorSpace, depth: BitDepth) -> (o:
        EncoderOptions)
        ensures
            o.width() == width,
            o.height() == height,
            o.colorspace() == colorspace,
            o.depth() == depth,
    {
        EncoderOptions { width, height, colorspace, depth }
    }

    /// The image width in pixels.
    pub fn get_width(&self) -> (w: usize)
        ensures
            w == self.width(),
    {
        self.width
    }

    /// The image height in pixels.
    pub fn get_height(&self) -> (h: usize)
        ensures
            h == self.height(),
    {
        self.height
    }

    /// The colorspace of the pixel data.
    pub fn get_colorspace(&self) -> (c: ColorSpace)
        ensures
            c == self.colorspace(),
    {
        self.colorspace
    }

    /// The bit depth of the pixel data.
    pub fn get_depth(&self) -> (d: BitDepth)
        ensures
            d == self.depth(),
    {
        self.depth
    }
}

} // verus!
