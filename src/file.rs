use vstd::prelude::*;
use crate::bit_depth::{fits_format, BitDepth, FILE_HEADER_SIZE, INFO_HEADER_SIZE};
use crate::error::BitmapError;
use crate::file_data::{encode_pixels, read_pixels, FileData};
use crate::file_header::{file_header_bytes, FileHeader};
use crate::image::BitMap;
use crate::info_header::{info_header_bytes, InfoHeader};
use crate::rgb_quad::{color_table, table_bytes, table_colors, RgbQuad, MAX_COLORS};
use crate::rgba::Rgba;
use crate::util::{le_u16, le_u32};

verus! {

/// What reading a whole file gives: its width, height and pixels, or the
/// first stage that fails. The stages are the file header (14 bytes, "BM"),
/// the info header (40 bytes), the color table (four bytes per color, at
/// most 256 colors), an image size that every depth can store in a file of
/// at most `u32::MAX` bytes, and the pixel data from the data offset on,
/// which must not start inside the color table.
pub open spec fn parse_file(b: Seq<u8>) -> Result<(u32, u32, Seq<Rgba>), BitmapError> {
    if b.len() < FILE_HEADER_SIZE {
        Err(BitmapError::TruncatedData)
    } else if b[0] != 66 || b[1] != 77 {
        Err(BitmapError::Format)
    } else if b.len() < FILE_HEADER_SIZE + INFO_HEADER_SIZE {
        Err(BitmapError::TruncatedData)
    } else {
        let width = le_u32(b, 18);
        let height = le_u32(b, 22);
        let table_end = FILE_HEADER_SIZE + INFO_HEADER_SIZE + 4 * le_u32(b, 46);
        let off_bits = le_u32(b, 10);
        if le_u32(b, 14) != INFO_HEADER_SIZE {
            Err(BitmapError::Format)
        } else if b.len() < table_end {
            Err(BitmapError::TruncatedData)
        } else if le_u32(b, 46) > MAX_COLORS {
            Err(BitmapError::Format)
        } else if !fits_format(width, height) || b.len() > u32::MAX {
            Err(BitmapError::Format)
        } else if off_bits > b.len() {
            Err(BitmapError::TruncatedData)
        } else if off_bits < table_end {
            Err(BitmapError::Format)
        } else {
            match read_pixels(
                b.subrange(off_bits, b.len() as int),
                width,
                height,
                le_u16(b, 28),
                table_colors(b.subrange(FILE_HEADER_SIZE + INFO_HEADER_SIZE, table_end)),
            ) {
                Ok(p) => Ok((width as u32, height as u32, p)),
                Err(e) => Err(e),
            }
        }
    }
}

/// The color table stored with an image at a depth.
pub open spec fn file_table(pixels: Seq<Rgba>, d: BitDepth) -> Seq<Rgba> {
    if d.is_palette() {
        color_table(pixels)
    } else {
        Seq::empty()
    }
}

/// The file header written for a color table of `colors` entries and pixel
/// data of `data_len` bytes.
pub open spec fn expected_header(colors: nat, data_len: nat) -> FileHeader {
    FileHeader {
        bitmap_type: [66u8, 77u8],
        size: (FILE_HEADER_SIZE + INFO_HEADER_SIZE + 4 * colors + data_len) as u32,
        reserved1: 0,
        reserved2: 0,
        off_bits: (FILE_HEADER_SIZE + INFO_HEADER_SIZE + 4 * colors) as u32,
    }
}

/// The info header written for a `width` x `height` image at a depth with
/// a color table of `colors` entries.
pub open spec fn expected_info(width: u32, height: u32, d: BitDepth, colors: nat) -> InfoHeader {
    InfoHeader {
        size: INFO_HEADER_SIZE,
        width,
        height,
        planes: 1,
        bit_depth: d.bits_per_pixel() as u16,
        compression: 0,
        size_image: 0,
        x_pixels_per_meter: 0,
        y_pixels_per_meter: 0,
        colors_used: colors as u32,
        colors_important: 0,
    }
}

/// The bytes of the file that stores a `width` x `height` image at a depth:
/// file header, info header, color table, pixel data.
pub open spec fn encode_file(pixels: Seq<Rgba>, width: u32, height: u32, d: BitDepth) -> Seq<u8> {
    let table = file_table(pixels, d);
    let data = encode_pixels(pixels, width as int, height as int, d);
    file_header_bytes(expected_header(table.len(), data.len())) + info_header_bytes(
        expected_info(width, height, d, table.len()),
    ) + table_bytes(table) + data
}

/// A bitmap file: both headers, the color table and the pixel data.
pub struct File {
    file: FileHeader,
    info: InfoHeader,
    colors: RgbQuad,
    data: FileData,
}

impl File {
    #[verifier::type_invariant]
    spec fn well_formed(self) -> bool {
        &&& self.info.size == INFO_HEADER_SIZE
        &&& fits_format(self.info.width as int, self.info.height as int)
        &&& self.data.spec_pixels().len() == self.info.width * self.info.height
        &&& FILE_HEADER_SIZE + INFO_HEADER_SIZE + 4 * self.colors@.len() + self.data.spec_bytes().len()
            <= u32::MAX
    }

    /// The file header.
    pub closed spec fn header(&self) -> FileHeader {
        self.file
    }

    /// The info header.
    pub closed spec fn info(&self) -> InfoHeader {
        self.info
    }

    /// The color table.
    pub closed spec fn colors(&self) -> Seq<Rgba> {
        self.colors@
    }

    /// The pixel data.
    pub closed spec fn data(&self) -> FileData {
        self.data
    }

    /// The number of bytes the whole file takes.
    pub open spec fn spec_file_size(&self) -> int {
        FILE_HEADER_SIZE + self.info().size + 4 * self.colors().len() + self.data().spec_bytes().len()
    }

    /// Parse a whole file. See `parse_file` for what each stage checks.
    pub fn read(byte_array: &[u8]) -> (r: Result<File, BitmapError>)
        ensures
            r matches Ok(f) ==> parse_file(byte_array@) == Ok::<(u32, u32, Seq<Rgba>), BitmapError>(
                (f.info().width, f.info().height, f.data().spec_pixels()),
            ),
            r matches Err(e) ==> parse_file(byte_array@) == Err::<(u32, u32, Seq<Rgba>), BitmapError>(
                e,
            ),
    {
        let file = match FileHeader::from_slice(byte_array) {
            Ok(f) => f,
            Err(e) => return Err(e),
        };
        if byte_array.len() < 54 {
            return Err(BitmapError::TruncatedData);
        }
        let info = InfoHeader::stream(byte_array);
        if info.get_byte_size() != 40 {
            return Err(BitmapError::Format);
        }
        let colors_used = info.get_colors_used() as u64;
        let table_end = 54 + 4 * colors_used;
        if (byte_array.len() as u64) < table_end {
            return Err(BitmapError::TruncatedData);
        }
        if colors_used > 256 {
            return Err(BitmapError::Format);
        }
        let colors = match RgbQuad::from_slice(&byte_array[54..table_end as usize]) {
            Ok(c) => c,
            Err(e) => return Err(e),
        };
        proof {
            assert(info.width as u64 * info.height as u64 <= u64::MAX) by (nonlinear_arith)
                requires
                    info.width <= u32::MAX,
                    info.height <= u32::MAX,
            ;
        }
        let area = info.get_width() as u64 * info.get_height() as u64;
        if area > (u32::MAX as u64 - 1078) / 4 || byte_array.len() as u64 > u32::MAX as u64 {
            return Err(BitmapError::Format);
        }
        let offset = file.get_off_bits() as usize;
        if offset > byte_array.len() {
            return Err(BitmapError::TruncatedData);
        }
        if (offset as u64) < table_end {
            return Err(BitmapError::Format);
        }
        let pixel_bytes = &byte_array[offset..byte_array.len()];
        let data = match FileData::from_slice(pixel_bytes, &info, &colors) {
            Ok(d) => d,
            Err(e) => return Err(e),
        };
        proof {
            if let Some(d) = crate::bit_depth::depth_of_code(info.bit_depth as int) {
                crate::bit_data::lemma_data_size(info.width as int, info.height as int, d);
            }
        }
        Ok(File { file, info, colors, data })
    }

    /// The file that stores `bitmap` at `bit_depth`. Its headers agree with
    /// its parts: the size field is the whole file's size and the data offset
    /// follows the color table.
    pub fn create(bitmap: &BitMap, bit_depth: BitDepth) -> (r: File)
        ensures
            r.header().size == r.spec_file_size(),
            r.header().off_bits == FILE_HEADER_SIZE + INFO_HEADER_SIZE + 4 * r.colors().len(),
            r.header() == expected_header(r.colors().len(), r.data().spec_bytes().len()),
            r.info() == expected_info(
                bitmap@.width as u32,
                bitmap@.height as u32,
                bit_depth,
                r.colors().len(),
            ),
            r.colors() == file_table(bitmap@.pixels, bit_depth),
            r.data().spec_bytes() == encode_pixels(
                bitmap@.pixels,
                bitmap@.width as int,
                bitmap@.height as int,
                bit_depth,
            ),
            !bit_depth.is_palette() ==> r.data().spec_pixels() == bitmap@.pixels,
    {
        let pixels = bitmap.get_pixels();
        let data = FileData::from_bitmap(bitmap, bit_depth);
        let colors = RgbQuad::from(bitmap, bit_depth);
        let info = InfoHeader::from(bitmap, bit_depth);
        let data_size = data.get_bytes_size();
        let color_size = colors.get_bytes_size();
        proof {
            crate::bit_data::lemma_data_size(bitmap@.width as int, bitmap@.height as int, bit_depth);
        }
        let file = FileHeader::new(data_size, color_size, info.get_byte_size());
        proof {
            assert(colors@ =~= file_table(bitmap@.pixels, bit_depth));
        }
        File { file, info, colors, data }
    }

    /// The number of bytes the whole file takes
    pub fn calculate_file_size(&self) -> (r: u32)
        ensures
            r == self.spec_file_size(),
    {
        proof {
            use_type_invariant(self);
        }
        self.file.get_byte_size() + self.info.get_byte_size() + self.colors.get_bytes_size()
            + self.data.get_bytes_size()
    }

    /// The whole file as bytes: file header, info header, color table, pixel
    /// data
    pub fn to_bytes(&self) -> (r: Vec<u8>)
        ensures
            r@ == file_header_bytes(self.header()) + info_header_bytes(self.info()) + table_bytes(
                self.colors(),
            ) + self.data().spec_bytes(),
            r@.len() == self.spec_file_size(),
    {
        proof {
            use_type_invariant(self);
        }
        let mut bytes = self.file.as_bytes();
        let mut info = self.info.as_bytes();
        let mut colors = self.colors.as_bytes();
        let mut data = self.data.as_bytes();
        bytes.append(&mut info);
        bytes.append(&mut colors);
        bytes.append(&mut data);
        bytes
    }

    /// The width of the image
    pub fn get_width(&self) -> (r: u32)
        ensures
            r == self.info().width,
    {
        self.info.get_width()
    }

    /// The height of the image
    pub fn get_height(&self) -> (r: u32)
        ensures
            r == self.info().height,
    {
        self.info.get_height()
    }

    /// The pixels of the image, bottom row first
    pub fn get_bitmap_as_pixels(&self) -> (r: Vec<Rgba>)
        ensures
            r@ == self.data().spec_pixels(),
            r@.len() == self.info().width * self.info().height,
            fits_format(self.info().width as int, self.info().height as int),
    {
        proof {
            use_type_invariant(self);
        }
        self.data.as_rgba()
    }
}

} // verus!
