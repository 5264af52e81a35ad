use vstd::prelude::*;
use crate::bit_data::{lemma_data_size, lemma_row_size_at_most, row_size_of};
use crate::bit_depth::{fits_format, row_size, BitDepth};
use crate::error::BitmapError;
use crate::file_header::FileHeader;
use crate::grid::{lemma_cell_in_grid, lemma_cell_of_index};
use crate::image::BitMap;
use crate::info_header::InfoHeader;
use crate::rgb_quad::channel_byte;
use crate::rgba::Rgba;

verus! {

/// Byte `j` of stored row `row` at a direct-color depth: the channels of
/// each pixel (blue, green, red, and alpha at 32 bits), then zero padding.
pub open spec fn direct_byte(pixels: Seq<Rgba>, width: int, d: BitDepth, row: int, j: int) -> u8 {
    let k = d.step();
    if j < width * k {
        channel_byte(pixels[row * width + j / k], j % k)
    } else {
        0
    }
}

/// The stored pixel data of an image at a direct-color depth: each row
/// padded with zero bytes to a multiple of four.
pub open spec fn encode_direct(pixels: Seq<Rgba>, width: int, height: int, d: BitDepth) -> Seq<u8> {
    let rs = row_size(width, d);
    Seq::new((height * rs) as nat, |i: int| direct_byte(pixels, width, d, i / rs, i % rs))
}

/// The pixel stored at column `col` of row `row` at a direct-color depth;
/// opaque at 24 bits.
pub open spec fn direct_pixel(bytes: Seq<u8>, width: int, d: BitDepth, row: int, col: int) -> Rgba {
    let o = row * row_size(width, d) + col * d.step();
    Rgba::spec_rgba(
        bytes[o + 2],
        bytes[o + 1],
        bytes[o],
        if d.step() == 4 {
            bytes[o + 3]
        } else {
            100
        },
    )
}

/// The pixels of stored data at a direct-color depth.
pub open spec fn decode_direct(bytes: Seq<u8>, width: int, height: int, d: BitDepth) -> Seq<Rgba> {
    Seq::new((width * height) as nat, |k: int| direct_pixel(bytes, width, d, k / width, k % width))
}

/// A pixel's bytes lie inside its stored row.
proof fn lemma_pixel_in_row(width: int, d: BitDepth, col: int, c: int)
    requires
        !d.is_palette(),
        0 <= col < width,
        0 <= c < d.step(),
    ensures
        0 <= col * d.step() + c < width * d.step() <= row_size(width, d),
        (col * d.step() + c) / d.step() == col,
        (col * d.step() + c) % d.step() == c,
{
    let k = d.step();
    assert(0 <= col * k + c < width * k) by (nonlinear_arith)
        requires
            0 <= col < width,
            0 <= c < k,
    ;
    vstd::arithmetic::div_mod::lemma_fundamental_div_mod_converse(col * k + c, k, col, c);
    let b = d.bits_per_pixel();
    vstd::arithmetic::div_mod::lemma_fundamental_div_mod(width * b + 31, 32);
    let q = (width * b + 31) / 32;
    assert(width * k <= q * 4) by (nonlinear_arith)
        requires
            b == 8 * k,
            width * b + 31 == 32 * q + (width * b + 31) % 32,
            (width * b + 31) % 32 < 32,
            width >= 0,
    ;
}

/// The pixels of a direct-color row fit its stored size.
proof fn lemma_pixel_in_row_size(width: int, d: BitDepth)
    requires
        !d.is_palette(),
        width >= 0,
    ensures
        0 <= width * d.step() <= row_size(width, d) <= 4 * width,
        row_size(width, d) <= width * d.step() + 3,
{
    if width > 0 {
        lemma_pixel_in_row(width, d, width - 1, d.step() - 1);
    }
    lemma_row_size_at_most(width, d);
    let b = d.bits_per_pixel();
    let k = d.step();
    vstd::arithmetic::div_mod::lemma_fundamental_div_mod(width * b + 31, 32);
    let q = (width * b + 31) / 32;
    assert(q * 4 <= width * k + 3) by (nonlinear_arith)
        requires
            b == 8 * k,
            width * b + 31 == 32 * q + (width * b + 31) % 32,
            0 <= (width * b + 31) % 32,
    ;
}

/// The channel bytes of a pixel, as stored at a direct-color depth.
fn push_pixel(bytes: &mut Vec<u8>, p: &Rgba, d: BitDepth)
    requires
        !d.is_palette(),
    ensures
        final(bytes)@ == old(bytes)@ + Seq::new(d.step() as nat, |c: int| channel_byte(*p, c)),
{
    bytes.push(p.get_blue());
    bytes.push(p.get_green());
    bytes.push(p.get_red());
    if d == BitDepth::AllColorsAndShades {
        bytes.push(p.get_alpha());
    }
    proof {
        assert(bytes@ =~= old(bytes)@ + Seq::new(d.step() as nat, |c: int| channel_byte(*p, c)));
    }
}

/// The pixels of an image at a direct-color depth (24 or 32 bits).
pub struct PixelData {
    pixels: Vec<Rgba>,
    padding: u32,
    width: u32,
    height: u32,
    bit_depth: BitDepth,
}

/// A `PixelData` as values.
pub struct DirectView {
    pub width: nat,
    pub height: nat,
    pub pixels: Seq<Rgba>,
    pub bit_depth: BitDepth,
}

impl View for PixelData {
    type V = DirectView;

    closed spec fn view(&self) -> DirectView {
        DirectView {
            width: self.width as nat,
            height: self.height as nat,
            pixels: self.pixels@,
            bit_depth: self.bit_depth,
        }
    }
}

impl PixelData {
    #[verifier::type_invariant]
    spec fn well_formed(self) -> bool {
        &&& !self.bit_depth.is_palette()
        &&& self.pixels@.len() == self.width * self.height
        &&& fits_format(self.width as int, self.height as int)
        &&& self.padding == row_size(self.width as int, self.bit_depth) - self.width * self.bit_depth.step()
    }

    /// The pixels of an image, to be stored at a direct-color depth.
    pub fn from_bitmap(bitmap: &BitMap, bit_depth: BitDepth) -> (r: PixelData)
        requires
            !bit_depth.is_palette(),
        ensures
            r@.width == bitmap@.width,
            r@.height == bitmap@.height,
            r@.pixels == bitmap@.pixels,
            r@.bit_depth == bit_depth,
    {
        let pixels = bitmap.get_pixels();
        PixelData {
            pixels: pixels.clone(),
            padding: PixelData::get_row_padding_size(bitmap.get_width(), bit_depth),
            width: bitmap.get_width(),
            height: bitmap.get_height(),
            bit_depth,
        }
    }

    /// Read the pixels of a whole file at a direct-color depth, from the data
    /// offset that the file header gives.
    pub fn stream(bit_stream: &[u8], file: &FileHeader, info: &InfoHeader, bit_depth: BitDepth) -> (r: Result<PixelData, BitmapError>)
        requires
            !bit_depth.is_palette(),
            fits_format(info.width as int, info.height as int),
        ensures
            file.off_bits > bit_stream@.len() ==> r == Err::<PixelData, BitmapError>(BitmapError::TruncatedData),
            file.off_bits <= bit_stream@.len() && bit_stream@.len() - file.off_bits < info.height
                * row_size(info.width as int, bit_depth) ==> r == Err::<PixelData, BitmapError>(
                BitmapError::TruncatedData,
            ),
            file.off_bits <= bit_stream@.len() && bit_stream@.len() - file.off_bits >= info.height
                * row_size(info.width as int, bit_depth) ==> (r matches Ok(p) && p@.width == info.width
                && p@.height == info.height && p@.bit_depth == bit_depth && p@.pixels == decode_direct(
                bit_stream@.subrange(file.off_bits as int, bit_stream@.len() as int),
                info.width as int,
                info.height as int,
                bit_depth,
            )),
    {
        let offset = file.get_off_bits() as usize;
        if offset > bit_stream.len() {
            return Err(BitmapError::TruncatedData);
        }
        PixelData::from_slice(&bit_stream[offset..bit_stream.len()], info, bit_depth)
    }

    /// Read the stored pixel data at a direct-color depth. Fails with
    /// `TruncatedData` when the bytes do not hold every row.
    pub fn from_slice(bit_stream: &[u8], info: &InfoHeader, bit_depth: BitDepth) -> (r: Result<PixelData, BitmapError>)
        requires
            !bit_depth.is_palette(),
            fits_format(info.width as int, info.height as int),
        ensures
            bit_stream@.len() < info.height * row_size(info.width as int, bit_depth) ==> r == Err::<
                PixelData,
                BitmapError,
            >(BitmapError::TruncatedData),
            bit_stream@.len() >= info.height * row_size(info.width as int, bit_depth) ==> (r matches Ok(p)
                && p@.width == info.width && p@.height == info.height && p@.bit_depth == bit_depth
                && p@.pixels == decode_direct(
                bit_stream@,
                info.width as int,
                info.height as int,
                bit_depth,
            )),
    {
        let width = info.get_width();
        let height = info.get_height();
        let rs = row_size_of(width, bit_depth);
        proof {
            lemma_data_size(width as int, height as int, bit_depth);
        }
        let total = height as u64 * rs;
        if (bit_stream.len() as u64) < total {
            return Err(BitmapError::TruncatedData);
        }
        let step = bit_depth.get_step_counter() as u64;
        let n = width as u64 * height as u64;
        let ghost spec_pixels = decode_direct(bit_stream@, width as int, height as int, bit_depth);
        let mut pixels: Vec<Rgba> = Vec::new();
        let mut k: u64 = 0;
        while k < n
            invariant
                n == width * height,
                fits_format(width as int, height as int),
                k <= n,
                !bit_depth.is_palette(),
                step == bit_depth.step(),
                rs == row_size(width as int, bit_depth),
                total == height * rs,
                total <= bit_stream@.len(),
                spec_pixels == decode_direct(bit_stream@, width as int, height as int, bit_depth),
                pixels@ =~= spec_pixels.take(k as int),
            decreases n - k,
        {
            proof {
                lemma_cell_of_index(k as int, width as int, height as int);
            }
            let row = k / width as u64;
            let col = k % width as u64;
            proof {
                lemma_data_size(width as int, height as int, bit_depth);
                lemma_pixel_in_row(width as int, bit_depth, col as int, step - 1);
                lemma_cell_in_grid(row as int, (col * step + step - 1) as int, rs as int, height as int);
            }
            let o = (row * rs + col * step) as usize;
            let pixel = if step == 4 {
                Rgba::bgra(bit_stream[o], bit_stream[o + 1], bit_stream[o + 2], bit_stream[o + 3])
            } else {
                Rgba::bgr(bit_stream[o], bit_stream[o + 1], bit_stream[o + 2])
            };
            pixels.push(pixel);
            k = k + 1;
        }
        proof {
            assert(spec_pixels.take(n as int) =~= spec_pixels);
        }
        Ok(
            PixelData {
                pixels,
                padding: PixelData::get_row_padding_size(width, bit_depth),
                width,
                height,
                bit_depth,
            },
        )
    }

    /// The stored pixel data: each pixel's channels, blue first, and each
    /// row padded with zero bytes to a multiple of four
    pub fn as_bytes(&self) -> (r: Vec<u8>)
        ensures
            r@ == encode_direct(self@.pixels, self@.width as int, self@.height as int, self@.bit_depth),
    {
        proof {
            use_type_invariant(self);
            lemma_data_size(self.width as int, self.height as int, self.bit_depth);
        }
        let width = self.width;
        let height = self.height;
        let d = self.bit_depth;
        let rs = row_size_of(width, d);
        let step = d.get_step_counter() as u64;
        let ghost spec_bytes = encode_direct(self.pixels@, width as int, height as int, d);
        let mut bytes: Vec<u8> = Vec::new();
        let mut row: u64 = 0;
        while row < height as u64
            invariant
                row <= height,
                width == self.width,
                height == self.height,
                d == self.bit_depth,
                !d.is_palette(),
                self.pixels@.len() == width * height,
                fits_format(width as int, height as int),
                rs == row_size(width as int, d),
                step == d.step(),
                height * rs <= u32::MAX,
                spec_bytes == encode_direct(self.pixels@, width as int, height as int, d),
                bytes@ =~= spec_bytes.take(row * rs),
            decreases height - row,
        {
            proof {
                lemma_row_size_at_most(width as int, d);
                lemma_pixel_in_row_size(width as int, d);
                assert((row + 1) * rs <= height * rs) by (nonlinear_arith)
                    requires
                        row < height,
                        rs >= 0,
                ;
            }
            let mut col: u64 = 0;
            while col < width as u64
                invariant
                    row < height,
                    col <= width,
                    width == self.width,
                    height == self.height,
                    d == self.bit_depth,
                    !d.is_palette(),
                    self.pixels@.len() == width * height,
                    fits_format(width as int, height as int),
                    rs == row_size(width as int, d),
                    step == d.step(),
                    width * step <= rs,
                    (row + 1) * rs <= height * rs,
                    height * rs <= u32::MAX,
                    spec_bytes == encode_direct(self.pixels@, width as int, height as int, d),
                    bytes@ =~= spec_bytes.take(row * rs + col * step),
                decreases width - col,
            {
                proof {
                    lemma_cell_in_grid(row as int, col as int, width as int, height as int);
                    lemma_pixel_in_row(width as int, d, col as int, step - 1);
                }
                let ghost before = bytes@;
                push_pixel(&mut bytes, &self.pixels[(row * width as u64 + col) as usize], d);
                proof {
                    let base = row * rs + col * step;
                    assert forall|i: int| base <= i < base + step implies #[trigger] spec_bytes[i]
                        == channel_byte(self.pixels@[row * width + col], i - base) by {
                        let c = i - base;
                        lemma_pixel_in_row(width as int, d, col as int, c);
                        lemma_cell_in_grid(row as int, col * step + c, rs as int, height as int);
                        vstd::arithmetic::div_mod::lemma_fundamental_div_mod_converse(
                            row * rs + col * step + c,
                            rs as int,
                            row as int,
                            col * step + c,
                        );
                    }
                    assert(row * rs + (col + 1) * step == row * rs + col * step + step) by (nonlinear_arith);
                    assert(row * rs + rs == (row + 1) * rs) by (nonlinear_arith);
                    assert(bytes@ =~= spec_bytes.take(row * rs + col * step + step));
                }
                col = col + 1;
            }
            let pad = rs - width as u64 * step;
            let mut p: u64 = 0;
            while p < pad
                invariant
                    row < height,
                    p <= pad,
                    pad == rs - width * step,
                    width * step <= rs,
                    rs == row_size(width as int, d),
                    step == d.step(),
                    (row + 1) * rs <= height * rs,
                    height * rs <= u32::MAX,
                    spec_bytes == encode_direct(self.pixels@, width as int, height as int, d),
                    bytes@ =~= spec_bytes.take(row * rs + width * step + p),
                decreases pad - p,
            {
                proof {
                    let i = row * rs + width * step + p;
                    lemma_cell_in_grid(row as int, width * step + p, rs as int, height as int);
                    vstd::arithmetic::div_mod::lemma_fundamental_div_mod_converse(
                        i,
                        rs as int,
                        row as int,
                        width * step + p,
                    );
                }
                bytes.push(0);
                p = p + 1;
            }
            proof {
                assert(row * rs + rs == (row + 1) * rs) by (nonlinear_arith);
            }
            row = row + 1;
        }
        proof {
            assert(spec_bytes.take(height * rs) =~= spec_bytes);
        }
        bytes
    }

    /// The number of pixels
    pub fn len(&self) -> (r: usize)
        ensures
            r == self@.pixels.len(),
    {
        self.pixels.len()
    }

    /// The number of bytes the stored pixel data takes
    pub fn get_bytes_size(&self) -> (r: u32)
        ensures
            r == self@.height * row_size(self@.width as int, self@.bit_depth),
    {
        proof {
            use_type_invariant(self);
            lemma_data_size(self.width as int, self.height as int, self.bit_depth);
            lemma_row_size_at_most(self.width as int, self.bit_depth);
            assert(self.pixels@.len() * self.bit_depth.step() + self.padding * self.height
                == self.height * row_size(self.width as int, self.bit_depth)) by (nonlinear_arith)
                requires
                    self.pixels@.len() == self.width * self.height,
                    self.padding == row_size(self.width as int, self.bit_depth) - self.width
                        * self.bit_depth.step(),
            ;
            assert(0 <= self.pixels@.len() * self.bit_depth.step() <= self.height * row_size(
                self.width as int,
                self.bit_depth,
            )) by (nonlinear_arith)
                requires
                    self.pixels@.len() == self.width * self.height,
                    self.width * self.bit_depth.step() <= row_size(self.width as int, self.bit_depth),
                    self.bit_depth.step() >= 0,
            ;
        }
        let used = self.pixels.len() as u32 * self.bit_depth.get_step_counter();
        let padding = self.padding * self.height;
        used + padding
    }

    /// A copy of the pixels
    pub fn as_rgba(&self) -> (r: Vec<Rgba>)
        ensures
            r@ == self@.pixels,
    {
        self.pixels.clone()
    }

    /// The zero bytes that end each stored row at a direct-color depth, so
    /// that rows take whole 4-byte words
    fn get_row_padding_size(width: u32, bit_depth: BitDepth) -> (r: u32)
        ensures
            !bit_depth.is_palette() ==> r == row_size(width as int, bit_depth) - width
                * bit_depth.step(),
    {
        match bit_depth {
            BitDepth::AllColors | BitDepth::AllColorsAndShades => {
                let rs = row_size_of(width, bit_depth);
                proof {
                    lemma_pixel_in_row_size(width as int, bit_depth);
                }
                (rs - width as u64 * bit_depth.get_step_counter() as u64) as u32
            },
            _ => 0,
        }
    }
}

} // verus!
