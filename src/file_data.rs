use vstd::prelude::*;
use crate::bit_data::{decode_packed, encode_packed, indices_in_table, lemma_data_size, row_size_of, BitData};
use crate::bit_depth::{depth_of_code, fits_format, row_size, BitDepth};
use crate::error::BitmapError;
use crate::image::BitMap;
use crate::info_header::InfoHeader;
use crate::pixel_data::{decode_direct, encode_direct, PixelData};
use crate::rgb_quad::{color_table, RgbQuad};
use crate::rgba::Rgba;

verus! {

/// The stored pixel data of an image at a depth; palette depths index the
/// image's color table.
pub open spec fn encode_pixels(pixels: Seq<Rgba>, width: int, height: int, d: BitDepth) -> Seq<u8> {
    if d.is_palette() {
        encode_packed(pixels, width, height, color_table(pixels), d)
    } else {
        encode_direct(pixels, width, height, d)
    }
}

/// The pixels of stored data at a depth, palette indices looked up in
/// `table`.
pub open spec fn decode_pixels(
    bytes: Seq<u8>,
    width: int,
    height: int,
    d: BitDepth,
    table: Seq<Rgba>,
) -> Seq<Rgba> {
    if d.is_palette() {
        decode_packed(bytes, width, height, table, d)
    } else {
        decode_direct(bytes, width, height, d)
    }
}

/// Reading stored pixel data with bit-depth code `code`: `Format` for an
/// unknown code, `TruncatedData` when the bytes do not hold every row,
/// `IndexOutOfRange` when a palette index is past the table, and the
/// decoded pixels otherwise.
pub open spec fn read_pixels(
    bytes: Seq<u8>,
    width: int,
    height: int,
    code: int,
    table: Seq<Rgba>,
) -> Result<Seq<Rgba>, BitmapError> {
    match depth_of_code(code) {
        None => Err(BitmapError::Format),
        Some(d) => {
            if bytes.len() < height * row_size(width, d) {
                Err(BitmapError::TruncatedData)
            } else if d.is_palette() && !indices_in_table(bytes, width, height, d, table.len() as int) {
                Err(BitmapError::IndexOutOfRange)
            } else {
                Ok(decode_pixels(bytes, width, height, d, table))
            }
        },
    }
}

/// The pixel data of an image, packed or direct-color.
pub enum FileData {
    Bits(BitData),
    Pixels(PixelData),
}

impl FileData {
    /// The stored bytes.
    pub open spec fn spec_bytes(&self) -> Seq<u8> {
        match self {
            FileData::Bits(b) => b@.bytes,
            FileData::Pixels(p) => encode_direct(p@.pixels, p@.width as int, p@.height as int, p@.bit_depth),
        }
    }

    /// The pixels.
    pub open spec fn spec_pixels(&self) -> Seq<Rgba> {
        match self {
            FileData::Bits(b) => decode_packed(b@.bytes, b@.width as int, b@.height as int, b@.colors, b@.bit_depth),
            FileData::Pixels(p) => p@.pixels,
        }
    }

    /// Read stored pixel data (the bytes from the data offset on) as the info
    /// header describes it: packed data for the palette depths, which keeps
    /// every byte given, and pixels for the direct-color depths.
    pub fn from_slice(bit_stream: &[u8], info: &InfoHeader, colors: &RgbQuad) -> (r: Result<FileData, BitmapError>)
        requires
            fits_format(info.width as int, info.height as int),
            bit_stream@.len() <= u32::MAX,
        ensures
            r matches Ok(f) ==> read_pixels(
                bit_stream@,
                info.width as int,
                info.height as int,
                info.bit_depth as int,
                colors@,
            ) == Ok::<Seq<Rgba>, BitmapError>(f.spec_pixels()),
            r matches Ok(f) ==> (depth_of_code(info.bit_depth as int) matches Some(d) && (f is Bits
                <==> d.is_palette())),
            r matches Ok(f) ==> (f matches FileData::Bits(b) ==> f.spec_bytes() == bit_stream@),
            r matches Ok(f) ==> (depth_of_code(info.bit_depth as int) matches Some(d) && (f is Pixels
                ==> f.spec_bytes().len() == info.height * row_size(info.width as int, d))),
            r matches Err(e) ==> read_pixels(
                bit_stream@,
                info.width as int,
                info.height as int,
                info.bit_depth as int,
                colors@,
            ) == Err::<Seq<Rgba>, BitmapError>(e),
    {
        let d = match info.get_bit_depth() {
            Some(d) => d,
            None => return Err(BitmapError::Format),
        };
        let rs = row_size_of(info.get_width(), d);
        proof {
            lemma_data_size(info.width as int, info.height as int, d);
        }
        let total = info.get_height() as u64 * rs;
        if (bit_stream.len() as u64) < total {
            return Err(BitmapError::TruncatedData);
        }
        let data = bit_stream;
        match d {
            BitDepth::Color2Bit | BitDepth::Color16Bit | BitDepth::Color256Bit => {
                match BitData::from_slice(data, info, d, colors) {
                    Ok(b) => Ok(FileData::Bits(b)),
                    Err(e) => Err(e),
                }
            },
            _ => {
                match PixelData::from_slice(data, info, d) {
                    Ok(p) => Ok(FileData::Pixels(p)),
                    Err(e) => Err(e),
                }
            },
        }
    }

    /// The pixel data of an image stored at a depth
    pub fn from_bitmap(bitmap: &BitMap, bit_depth: BitDepth) -> (r: FileData)
        ensures
            r.spec_bytes() == encode_pixels(
                bitmap@.pixels,
                bitmap@.width as int,
                bitmap@.height as int,
                bit_depth,
            ),
            bit_depth.is_palette() ==> r.spec_pixels() == decode_pixels(
                r.spec_bytes(),
                bitmap@.width as int,
                bitmap@.height as int,
                bit_depth,
                color_table(bitmap@.pixels),
            ),
            !bit_depth.is_palette() ==> r.spec_pixels() == bitmap@.pixels,
    {
        match bit_depth {
            BitDepth::Color2Bit | BitDepth::Color16Bit | BitDepth::Color256Bit => {
                FileData::Bits(BitData::from_bitmap(bitmap, bit_depth))
            },
            _ => FileData::Pixels(PixelData::from_bitmap(bitmap, bit_depth)),
        }
    }

    /// The number of stored bytes (packed data) or of pixels (direct-color)
    pub fn len(&self) -> (r: usize)
        ensures
            self matches FileData::Bits(b) ==> r == b@.bytes.len(),
            self matches FileData::Pixels(p) ==> r == p@.pixels.len(),
    {
        match self {
            FileData::Bits(b) => b.len(),
            FileData::Pixels(p) => p.len(),
        }
    }

    /// The number of bytes the stored data takes
    pub fn get_bytes_size(&self) -> (r: u32)
        ensures
            r == self.spec_bytes().len(),
    {
        match self {
            FileData::Bits(b) => b.get_bytes_size(),
            FileData::Pixels(p) => p.get_bytes_size(),
        }
    }

    /// The stored bytes
    pub fn as_bytes(&self) -> (r: Vec<u8>)
        ensures
            r@ == self.spec_bytes(),
    {
        match self {
            FileData::Bits(b) => b.as_bytes(),
            FileData::Pixels(p) => p.as_bytes(),
        }
    }

    /// The pixels
    pub fn as_rgba(&self) -> (r: Vec<Rgba>)
        ensures
            r@ == self.spec_pixels(),
    {
        match self {
            FileData::Bits(b) => b.as_rgba(),
            FileData::Pixels(p) => p.as_rgba(),
        }
    }
}

} // verus!
