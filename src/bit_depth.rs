use vstd::prelude::*;
use crate::image::BitMap;
use crate::rgb_quad::{any_transparent, distinct_colors, unique_colors, MAX_COLORS};

verus! {

/// Size in bytes of the file header.
pub const FILE_HEADER_SIZE: u32 = 14;

/// Size in bytes of the info header.
pub const INFO_HEADER_SIZE: u32 = 40;

/// How the pixels of an image are laid out on disk: 1, 4 or 8 bits of a
/// palette index per pixel, or the color itself in 3 or 4 bytes.
#[derive(Clone, Copy, Debug, PartialEq, Eq, Structural)]
pub enum BitDepth {
    Color2Bit,
    Color16Bit,
    Color256Bit,
    AllColors,
    AllColorsAndShades,
}

/// Whether every encoding of a `width` x `height` image fits the 32-bit size
/// field of the file header: both headers, a full color table and four bytes
/// per pixel.
pub open spec fn fits_format(width: int, height: int) -> bool {
    FILE_HEADER_SIZE + INFO_HEADER_SIZE + 4 * MAX_COLORS + 4 * (width * height) <= u32::MAX
}

/// Bytes in one stored row of `width` pixels: the pixels' bits rounded up to
/// a whole number of 4-byte words.
pub open spec fn row_size(width: int, depth: BitDepth) -> int {
    (width * depth.bits_per_pixel() + 31) / 32 * 4
}

/// The depth that a bit-depth code names, if any.
pub open spec fn depth_of_code(code: int) -> Option<BitDepth> {
    if code == 1 {
        Some(BitDepth::Color2Bit)
    } else if code == 4 {
        Some(BitDepth::Color16Bit)
    } else if code == 8 {
        Some(BitDepth::Color256Bit)
    } else if code == 24 {
        Some(BitDepth::AllColors)
    } else if code == 32 {
        Some(BitDepth::AllColorsAndShades)
    } else {
        None
    }
}

/// The depth suggested for an image with `n` distinct colors.
pub open spec fn suggested_depth(n: int, transparent: bool) -> BitDepth {
    if n <= 2 {
        BitDepth::Color2Bit
    } else if n <= 16 {
        BitDepth::Color16Bit
    } else if n <= 256 {
        BitDepth::Color256Bit
    } else if transparent {
        BitDepth::AllColorsAndShades
    } else {
        BitDepth::AllColors
    }
}

impl BitDepth {
    /// Bits that one pixel takes on disk.
    pub open spec fn bits_per_pixel(self) -> int {
        match self {
            BitDepth::Color2Bit => 1,
            BitDepth::Color16Bit => 4,
            BitDepth::Color256Bit => 8,
            BitDepth::AllColors => 24,
            BitDepth::AllColorsAndShades => 32,
        }
    }

    /// Whether pixels are stored as indices into a color table.
    pub open spec fn is_palette(self) -> bool {
        self.bits_per_pixel() <= 8
    }

    /// Bits per pixel for the palette depths, bytes per pixel for the others.
    pub open spec fn step(self) -> int {
        if self.is_palette() {
            self.bits_per_pixel()
        } else {
            self.bits_per_pixel() / 8
        }
    }

    /// The number of bits (palette depths) or bytes (direct-color depths)
    /// that one pixel takes.
    pub fn get_step_counter(&self) -> (r: u32)
        ensures
            r == self.step(),
    {
        match self {
            BitDepth::Color2Bit => 1,
            BitDepth::Color16Bit => 4,
            BitDepth::Color256Bit => 8,
            BitDepth::AllColors => 3,
            BitDepth::AllColorsAndShades => 4,
        }
    }

    /// The bit-depth code written in the info header.
    pub fn code(&self) -> (r: u16)
        ensures
            r == self.bits_per_pixel(),
    {
        match self {
            BitDepth::Color2Bit => 1,
            BitDepth::Color16Bit => 4,
            BitDepth::Color256Bit => 8,
            BitDepth::AllColors => 24,
            BitDepth::AllColorsAndShades => 32,
        }
    }

    /// The depth for a bit-depth code, if the code is one of 1, 4, 8, 24, 32.
    pub fn from_code(code: u16) -> (r: Option<BitDepth>)
        ensures
            r == depth_of_code(code as int),
    {
        match code {
            1 => Some(BitDepth::Color2Bit),
            4 => Some(BitDepth::Color16Bit),
            8 => Some(BitDepth::Color256Bit),
            24 => Some(BitDepth::AllColors),
            32 => Some(BitDepth::AllColorsAndShades),
            _ => None,
        }
    }

    /// The smallest depth that holds every color of the image: up to 2
    /// distinct colors take 1 bit, up to 16 take 4, up to 256 take 8, and
    /// more take 24 bits, or 32 when some pixel is transparent.
    pub fn get_suggested_bit_depth(bitmap: &BitMap) -> (r: BitDepth)
        ensures
            r == suggested_depth(
                distinct_colors(bitmap@.pixels).len() as int,
                any_transparent(bitmap@.pixels),
            ),
    {
        let pixels = bitmap.get_pixels();
        let colors = unique_colors(pixels, MAX_COLORS + 1);
        let n = colors.len();
        if n <= 2 {
            BitDepth::Color2Bit
        } else if n <= 16 {
            BitDepth::Color16Bit
        } else if n <= 256 {
            BitDepth::Color256Bit
        } else if bitmap.is_image_transparent() {
            BitDepth::AllColorsAndShades
        } else {
            BitDepth::AllColors
        }
    }
}

} // verus!
