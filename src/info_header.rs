use vstd::prelude::*;
use crate::bit_depth::{depth_of_code, BitDepth, FILE_HEADER_SIZE, INFO_HEADER_SIZE};
use crate::image::BitMap;
use crate::rgb_quad::{color_table, MAX_COLORS};
use crate::util::{byte_slice_to_u16, byte_slice_to_u32, le_u16, le_u32, push_u16, push_u32, u16_bytes, u32_bytes};

verus! {

/// The 40-byte record after the file header: the size and layout of the
/// image.
pub struct InfoHeader {
    /// The size of this header in bytes
    pub size: u32,
    /// The width of the image, in pixels
    pub width: u32,
    /// The height of the image, in pixels
    pub height: u32,
    /// The number of planes of the target device, always 1
    pub planes: u16,
    /// The number of bits per pixel: 1, 4, 8, 24 or 32
    pub bit_depth: u16,
    /// The type of compression, 0 for none
    pub compression: u32,
    /// The size of the image data in bytes, 0 when uncompressed
    pub size_image: u32,
    /// Horizontal pixels per meter, usually 0
    pub x_pixels_per_meter: u32,
    /// Vertical pixels per meter, usually 0
    pub y_pixels_per_meter: u32,
    /// The number of colors in the color table
    pub colors_used: u32,
    /// The number of important colors, 0 for all of them
    pub colors_important: u32,
}

/// The bytes of an info header.
pub open spec fn info_header_bytes(h: InfoHeader) -> Seq<u8> {
    u32_bytes(h.size) + u32_bytes(h.width) + u32_bytes(h.height) + u16_bytes(h.planes) + u16_bytes(
        h.bit_depth,
    ) + u32_bytes(h.compression) + u32_bytes(h.size_image) + u32_bytes(h.x_pixels_per_meter)
        + u32_bytes(h.y_pixels_per_meter) + u32_bytes(h.colors_used) + u32_bytes(h.colors_important)
}

impl InfoHeader {
    /// The header that describes `bitmap` stored at `bit_depth`.
    pub fn from(bitmap: &BitMap, bit_depth: BitDepth) -> (r: InfoHeader)
        ensures
            r.size == INFO_HEADER_SIZE,
            r.width == bitmap@.width,
            r.height == bitmap@.height,
            r.planes == 1,
            r.bit_depth == bit_depth.bits_per_pixel(),
            r.compression == 0,
            r.size_image == 0,
            r.x_pixels_per_meter == 0,
            r.y_pixels_per_meter == 0,
            bit_depth.is_palette() ==> r.colors_used == color_table(bitmap@.pixels).len(),
            !bit_depth.is_palette() ==> r.colors_used == 0,
            r.colors_important == 0,
    {
        let colors_used: u32 = match bit_depth {
            BitDepth::Color2Bit | BitDepth::Color16Bit | BitDepth::Color256Bit => {
                let colors = bitmap.get_all_unique_colors();
                proof {
                    assert(colors@.len() <= MAX_COLORS);
                }
                colors.len() as u32
            },
            _ => 0,
        };
        InfoHeader {
            size: 40,
            width: bitmap.get_width(),
            height: bitmap.get_height(),
            planes: 1,
            bit_depth: bit_depth.code(),
            compression: 0,
            size_image: 0,
            x_pixels_per_meter: 0,
            y_pixels_per_meter: 0,
            colors_used,
            colors_important: 0,
        }
    }

    /// Read the header from a whole file: the 40 bytes after the file header,
    /// each field little-endian.
    pub fn stream(bit_stream: &[u8]) -> (r: InfoHeader)
        requires
            bit_stream@.len() >= FILE_HEADER_SIZE + INFO_HEADER_SIZE,
        ensures
            r.size == le_u32(bit_stream@, 14),
            r.width == le_u32(bit_stream@, 18),
            r.height == le_u32(bit_stream@, 22),
            r.planes == le_u16(bit_stream@, 26),
            r.bit_depth == le_u16(bit_stream@, 28),
            r.compression == le_u32(bit_stream@, 30),
            r.size_image == le_u32(bit_stream@, 34),
            r.x_pixels_per_meter == le_u32(bit_stream@, 38),
            r.y_pixels_per_meter == le_u32(bit_stream@, 42),
            r.colors_used == le_u32(bit_stream@, 46),
            r.colors_important == le_u32(bit_stream@, 50),
    {
        let mut i: usize = 14;
        let size = byte_slice_to_u32(bit_stream, &mut i);
        let width = byte_slice_to_u32(bit_stream, &mut i);
        let height = byte_slice_to_u32(bit_stream, &mut i);
        let planes = byte_slice_to_u16(bit_stream, &mut i);
        let bit_depth = byte_slice_to_u16(bit_stream, &mut i);
        let compression = byte_slice_to_u32(bit_stream, &mut i);
        let size_image = byte_slice_to_u32(bit_stream, &mut i);
        let x_pixels_per_meter = byte_slice_to_u32(bit_stream, &mut i);
        let y_pixels_per_meter = byte_slice_to_u32(bit_stream, &mut i);
        let colors_used = byte_slice_to_u32(bit_stream, &mut i);
        let colors_important = byte_slice_to_u32(bit_stream, &mut i);
        InfoHeader {
            size,
            width,
            height,
            planes,
            bit_depth,
            compression,
            size_image,
            x_pixels_per_meter,
            y_pixels_per_meter,
            colors_used,
            colors_important,
        }
    }

    /// The header as the 40 bytes stored in a file
    pub fn as_bytes(&self) -> (r: Vec<u8>)
        ensures
            r@ == info_header_bytes(*self),
            r@.len() == INFO_HEADER_SIZE,
    {
        let mut bytes: Vec<u8> = Vec::new();
        push_u32(&mut bytes, self.size);
        push_u32(&mut bytes, self.width);
        push_u32(&mut bytes, self.height);
        push_u16(&mut bytes, self.planes);
        push_u16(&mut bytes, self.bit_depth);
        push_u32(&mut bytes, self.compression);
        push_u32(&mut bytes, self.size_image);
        push_u32(&mut bytes, self.x_pixels_per_meter);
        push_u32(&mut bytes, self.y_pixels_per_meter);
        push_u32(&mut bytes, self.colors_used);
        push_u32(&mut bytes, self.colors_important);
        proof {
            assert(bytes@ =~= info_header_bytes(*self));
        }
        bytes
    }

    /// The size of the info header in bytes, as it records it
    pub fn get_byte_size(&self) -> (r: u32)
        ensures
            r == self.size,
    {
        self.size
    }

    /// The bit depth of the image, if its code is a known one
    pub fn get_bit_depth(&self) -> (r: Option<BitDepth>)
        ensures
            r == depth_of_code(self.bit_depth as int),
    {
        BitDepth::from_code(self.bit_depth)
    }

    /// The width of the image
    pub fn get_width(&self) -> (r: u32)
        ensures
            r == self.width,
    {
        self.width
    }

    /// The height of the image
    pub fn get_height(&self) -> (r: u32)
        ensures
            r == self.height,
    {
        self.height
    }

    /// The number of colors in the color table
    pub fn get_colors_used(&self) -> (r: u32)
        ensures
            r == self.colors_used,
    {
        self.colors_used
    }
}

} // verus!
