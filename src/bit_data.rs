use vstd::prelude::*;
use crate::bit_depth::{fits_format, row_size, BitDepth};
use crate::error::BitmapError;
use crate::grid::{lemma_cell_in_grid, lemma_cell_of_index};
use crate::image::BitMap;
use crate::info_header::InfoHeader;
use crate::rgb_quad::{color_table, find_color, unique_colors, RgbQuad, MAX_COLORS};
use crate::rgba::Rgba;

verus! {

/// `base` to the power `e`.
pub open spec fn power(base: int, e: int) -> int
    decreases e,
{
    if e <= 0 {
        1
    } else {
        base * power(base, e - 1)
    }
}

/// The number of values one packed field holds at a palette depth.
pub open spec fn levels(d: BitDepth) -> int {
    match d {
        BitDepth::Color2Bit => 2,
        BitDepth::Color16Bit => 16,
        _ => 256,
    }
}

/// The number of pixels packed into one byte at a palette depth.
pub open spec fn pixels_per_byte(d: BitDepth) -> int {
    match d {
        BitDepth::Color2Bit => 8,
        BitDepth::Color16Bit => 2,
        _ => 1,
    }
}

/// `i` is the first position of `c` in `table`.
pub open spec fn first_match(table: Seq<Rgba>, c: Rgba, i: int) -> bool {
    &&& 0 <= i < table.len()
    &&& table[i] == c
    &&& forall|j: int| 0 <= j < i ==> table[j] != c
}

/// The palette index of a color: its first position in the table, or 0 when
/// the table does not hold it.
pub open spec fn palette_index(table: Seq<Rgba>, c: Rgba) -> int {
    if exists|i: int| first_match(table, c, i) {
        choose|i: int| first_match(table, c, i)
    } else {
        0
    }
}

/// The field stored for column `col` of row `row`: the low bits of the
/// pixel's palette index, or 0 past the end of the row.
pub open spec fn pixel_field(
    pixels: Seq<Rgba>,
    width: int,
    table: Seq<Rgba>,
    d: BitDepth,
    row: int,
    col: int,
) -> int {
    if 0 <= col < width {
        palette_index(table, pixels[row * width + col]) % levels(d)
    } else {
        0
    }
}

/// The fields packed into byte `j` of row `row`, first pixel first.
pub open spec fn byte_fields(
    pixels: Seq<Rgba>,
    width: int,
    table: Seq<Rgba>,
    d: BitDepth,
    row: int,
    j: int,
) -> spec_fn(int) -> int {
    |t: int| pixel_field(pixels, width, table, d, row, j * pixels_per_byte(d) + t)
}

/// The first `n` digits of `digit` in base `base`, the first one most
/// significant.
pub open spec fn pack_digits(digit: spec_fn(int) -> int, base: int, n: int) -> int
    decreases n,
{
    if n <= 0 {
        0
    } else {
        pack_digits(digit, base, n - 1) * base + digit(n - 1)
    }
}

/// Byte `j` of stored row `row`: its fields packed most significant first.
pub open spec fn packed_byte(
    pixels: Seq<Rgba>,
    width: int,
    table: Seq<Rgba>,
    d: BitDepth,
    row: int,
    j: int,
) -> u8 {
    pack_digits(byte_fields(pixels, width, table, d, row, j), levels(d), pixels_per_byte(d)) as u8
}

/// The stored pixel data of an image at a palette depth: each row packed
/// and padded with zero bytes to a multiple of four.
pub open spec fn encode_packed(
    pixels: Seq<Rgba>,
    width: int,
    height: int,
    table: Seq<Rgba>,
    d: BitDepth,
) -> Seq<u8> {
    let rs = row_size(width, d);
    Seq::new((height * rs) as nat, |i: int| packed_byte(pixels, width, table, d, i / rs, i % rs))
}

/// Field `s` of a packed byte, counted from the most significant end.
pub open spec fn unpack(byte: u8, d: BitDepth, s: int) -> int {
    (byte as int / power(levels(d), pixels_per_byte(d) - 1 - s)) % levels(d)
}

/// The palette index stored for column `col` of row `row`.
pub open spec fn stored_index(bytes: Seq<u8>, width: int, d: BitDepth, row: int, col: int) -> int {
    unpack(
        bytes[row * row_size(width, d) + col / pixels_per_byte(d)],
        d,
        col % pixels_per_byte(d),
    )
}

/// Whether every pixel of stored data refers to an entry of the table.
pub open spec fn indices_in_table(
    bytes: Seq<u8>,
    width: int,
    height: int,
    d: BitDepth,
    table_len: int,
) -> bool {
    forall|k: int|
        0 <= k < width * height ==> #[trigger] stored_index(bytes, width, d, k / width, k % width)
            < table_len
}

/// The pixels of stored data at a palette depth.
pub open spec fn decode_packed(
    bytes: Seq<u8>,
    width: int,
    height: int,
    table: Seq<Rgba>,
    d: BitDepth,
) -> Seq<Rgba> {
    Seq::new(
        (width * height) as nat,
        |k: int| table[stored_index(bytes, width, d, k / width, k % width)],
    )
}

proof fn lemma_depth_facts(d: BitDepth)
    requires
        d.is_palette(),
    ensures
        levels(d) >= 2,
        pixels_per_byte(d) >= 1,
        pixels_per_byte(d) * d.bits_per_pixel() == 8,
        power(levels(d), pixels_per_byte(d)) == 256,
        power(levels(d), 0) == 1,
{
    reveal_with_fuel(power, 9);
}

proof fn lemma_power_positive(base: int, e: int)
    requires
        base >= 1,
    ensures
        power(base, e) >= 1,
    decreases e,
{
    if e > 0 {
        lemma_power_positive(base, e - 1);
        assert(base * power(base, e - 1) >= 1) by (nonlinear_arith)
            requires
                base >= 1,
                power(base, e - 1) >= 1,
        ;
    }
}

/// Packed digits stay below `base^n`, and unpacking digit `s` gives it back.
pub proof fn lemma_unpack_pack(digit: spec_fn(int) -> int, base: int, n: int, s: int)
    requires
        base >= 2,
        0 <= s < n,
        forall|t: int| 0 <= t < n ==> 0 <= #[trigger] digit(t) < base,
    ensures
        0 <= pack_digits(digit, base, n) < power(base, n),
        (pack_digits(digit, base, n) / power(base, n - 1 - s)) % base == digit(s),
    decreases n,
{
    let p = pack_digits(digit, base, n - 1);
    let x = pack_digits(digit, base, n);
    if n - 1 > 0 {
        let s2 = if s < n - 1 {
            s
        } else {
            0
        };
        lemma_unpack_pack(digit, base, n - 1, s2);
    } else {
        assert(p == 0);
    }
    assert(0 <= p < power(base, n - 1));
    assert(0 <= x < power(base, n)) by (nonlinear_arith)
        requires
            x == p * base + digit(n - 1),
            0 <= p < power(base, n - 1),
            0 <= digit(n - 1) < base,
            power(base, n) == base * power(base, n - 1),
    ;
    vstd::arithmetic::div_mod::lemma_fundamental_div_mod_converse(x, base, p, digit(n - 1));
    if s == n - 1 {
        assert(power(base, 0) == 1);
        assert(x / 1 == x);
    } else {
        lemma_power_positive(base, n - 2 - s);
        assert(power(base, n - 1 - s) == base * power(base, n - 2 - s));
        vstd::arithmetic::div_mod::lemma_div_denominator(x, base, power(base, n - 2 - s));
    }
}

/// The palette index of a color, as `find_color` reports it.
fn lookup(table: &Vec<Rgba>, c: &Rgba) -> (r: usize)
    ensures
        r == palette_index(table@, *c),
        table@.contains(*c) ==> r < table@.len(),
{
    match find_color(table, c) {
        Some(i) => {
            proof {
                assert(first_match(table@, *c, i as int));
                let k = choose|k: int| first_match(table@, *c, k);
                if k < i {
                    assert(table@[k] != *c);
                } else if k > i {
                    assert(table@[i as int] != *c);
                }
            }
            i
        },
        None => {
            proof {
                if exists|i: int| first_match(table@, *c, i) {
                    let i = choose|i: int| first_match(table@, *c, i);
                    assert(table@.contains(*c));
                }
            }
            0
        },
    }
}

/// Number of values one field holds.
fn levels_of(d: BitDepth) -> (r: u32)
    requires
        d.is_palette(),
    ensures
        r == levels(d),
{
    match d {
        BitDepth::Color2Bit => 2,
        BitDepth::Color16Bit => 16,
        _ => 256,
    }
}

/// Number of pixels in one byte.
fn pixels_per_byte_of(d: BitDepth) -> (r: u32)
    requires
        d.is_palette(),
    ensures
        r == pixels_per_byte(d),
{
    match d {
        BitDepth::Color2Bit => 8,
        BitDepth::Color16Bit => 2,
        _ => 1,
    }
}

/// Bytes in one stored row of `width` pixels.
pub(crate) fn row_size_of(width: u32, d: BitDepth) -> (r: u64)
    ensures
        r == row_size(width as int, d),
        r <= 4 * width,
{
    let bits: u64 = match d {
        BitDepth::Color2Bit => 1,
        BitDepth::Color16Bit => 4,
        BitDepth::Color256Bit => 8,
        BitDepth::AllColors => 24,
        BitDepth::AllColorsAndShades => 32,
    };
    proof {
        lemma_row_size_at_most(width as int, d);
    }
    (width as u64 * bits + 31) / 32 * 4
}

/// A stored row takes at most four bytes per pixel, and whole words.
pub proof fn lemma_row_size_at_most(width: int, d: BitDepth)
    requires
        width >= 0,
    ensures
        0 <= row_size(width, d) <= 4 * width,
        row_size(width, d) % 4 == 0,
{
    let b = d.bits_per_pixel();
    let q = (width * b + 31) / 32;
    vstd::arithmetic::div_mod::lemma_fundamental_div_mod(width * b + 31, 32);
    assert(0 <= q <= width) by (nonlinear_arith)
        requires
            width * b + 31 == 32 * q + (width * b + 31) % 32,
            0 <= (width * b + 31) % 32 < 32,
            1 <= b <= 32,
            width >= 0,
    ;
}

/// The stored rows of an image that fits the format fit a `u32`.
pub proof fn lemma_data_size(width: int, height: int, d: BitDepth)
    requires
        width >= 0,
        height >= 0,
        fits_format(width, height),
    ensures
        0 <= height * row_size(width, d) <= 4 * (width * height),
        row_size(width, d) * height == height * row_size(width, d),
        height * row_size(width, d) <= u32::MAX,
{
    lemma_row_size_at_most(width, d);
    let rs = row_size(width, d);
    assert(0 <= height * rs <= 4 * (width * height)) by (nonlinear_arith)
        requires
            0 <= rs <= 4 * width,
            height >= 0,
    ;
    assert(rs * height == height * rs) by (nonlinear_arith);
}

/// A column's byte lies inside its stored row.
proof fn lemma_byte_in_row(width: int, d: BitDepth, col: int)
    requires
        d.is_palette(),
        0 <= col < width,
    ensures
        0 <= col / pixels_per_byte(d) < row_size(width, d),
{
    lemma_depth_facts(d);
    let ppb = pixels_per_byte(d);
    let b = d.bits_per_pixel();
    let q = col / ppb;
    let rq = (width * b + 31) / 32;
    vstd::arithmetic::div_mod::lemma_fundamental_div_mod(col, ppb);
    vstd::arithmetic::div_mod::lemma_fundamental_div_mod(width * b + 31, 32);
    vstd::arithmetic::div_mod::lemma_div_pos_is_pos(col, ppb);
    assert(q < rq * 4) by (nonlinear_arith)
        requires
            col == ppb * q + col % ppb,
            0 <= col % ppb,
            col < width,
            ppb * b == 8,
            b >= 1,
            width * b + 31 == 32 * rq + (width * b + 31) % 32,
            (width * b + 31) % 32 < 32,
            q >= 0,
    ;
}

/// Every field is a valid digit.
proof fn lemma_fields_are_digits(
    pixels: Seq<Rgba>,
    width: int,
    table: Seq<Rgba>,
    d: BitDepth,
    row: int,
    j: int,
)
    requires
        d.is_palette(),
    ensures
        forall|t: int|
            0 <= t < pixels_per_byte(d) ==> 0 <= #[trigger] byte_fields(pixels, width, table, d, row, j)(t)
                < levels(d),
{
    lemma_depth_facts(d);
}

/// Reading the stored data back gives every pixel's field.
pub proof fn lemma_stored_fields(pixels: Seq<Rgba>, width: int, height: int, table: Seq<Rgba>, d: BitDepth, row: int, col: int)
    requires
        d.is_palette(),
        0 <= row < height,
        0 <= col < width,
    ensures
        stored_index(encode_packed(pixels, width, height, table, d), width, d, row, col)
            == pixel_field(pixels, width, table, d, row, col),
{
    lemma_depth_facts(d);
    let rs = row_size(width, d);
    let ppb = pixels_per_byte(d);
    let j = col / ppb;
    let s = col % ppb;
    lemma_byte_in_row(width, d, col);
    lemma_cell_in_grid(row, j, rs, height);
    let i = row * rs + j;
    vstd::arithmetic::div_mod::lemma_fundamental_div_mod_converse(i, rs, row, j);
    let f = byte_fields(pixels, width, table, d, row, j);
    lemma_fields_are_digits(pixels, width, table, d, row, j);
    vstd::arithmetic::div_mod::lemma_fundamental_div_mod(col, ppb);
    vstd::arithmetic::div_mod::lemma_mod_pos_bound(col, ppb);
    lemma_unpack_pack(f, levels(d), ppb, s);
    assert(f(s) == pixel_field(pixels, width, table, d, row, j * ppb + s));
    assert(j * ppb + s == col) by (nonlinear_arith)
        requires
            col == ppb * j + s,
    ;
}

/// Binary data of an image at a palette depth: packed palette indices and
/// the color table they point into.
pub struct BitData {
    width: u32,
    height: u32,
    colors: Vec<Rgba>,
    bytes: Vec<u8>,
    bit_depth: BitDepth,
}

/// A `BitData` as values.
pub struct PackedView {
    pub width: nat,
    pub height: nat,
    pub colors: Seq<Rgba>,
    pub bytes: Seq<u8>,
    pub bit_depth: BitDepth,
}

impl View for BitData {
    type V = PackedView;

    closed spec fn view(&self) -> PackedView {
        PackedView {
            width: self.width as nat,
            height: self.height as nat,
            colors: self.colors@,
            bytes: self.bytes@,
            bit_depth: self.bit_depth,
        }
    }
}

impl BitData {
    #[verifier::type_invariant]
    spec fn decodable(self) -> bool {
        &&& self.bit_depth.is_palette()
        &&& fits_format(self.width as int, self.height as int)
        &&& self.bytes@.len() >= self.height * row_size(self.width as int, self.bit_depth)
        &&& self.bytes@.len() <= u32::MAX
        &&& indices_in_table(
            self.bytes@,
            self.width as int,
            self.height as int,
            self.bit_depth,
            self.colors@.len() as int,
        )
    }

    /// Take the stored pixel data of an image (the bytes from the data
    /// offset on) at a palette depth, keeping every byte. Fails with `TruncatedData` when the
    /// bytes do not hold every row, and with `IndexOutOfRange` when a pixel
    /// refers past the end of the color table.
    pub fn from_slice(bit_stream: &[u8], info: &InfoHeader, bit_depth: BitDepth, colors: &RgbQuad) -> (r: Result<BitData, BitmapError>)
        requires
            bit_depth.is_palette(),
            fits_format(info.width as int, info.height as int),
            bit_stream@.len() <= u32::MAX,
        ensures
            bit_stream@.len() < info.height * row_size(info.width as int, bit_depth) ==> r == Err::<
                BitData,
                BitmapError,
            >(BitmapError::TruncatedData),
            bit_stream@.len() >= info.height * row_size(info.width as int, bit_depth) && !indices_in_table(
                bit_stream@,
                info.width as int,
                info.height as int,
                bit_depth,
                colors@.len() as int,
            ) ==> r == Err::<BitData, BitmapError>(BitmapError::IndexOutOfRange),
            bit_stream@.len() >= info.height * row_size(info.width as int, bit_depth) && indices_in_table(
                bit_stream@,
                info.width as int,
                info.height as int,
                bit_depth,
                colors@.len() as int,
            ) ==> (r matches Ok(b) && b@.width == info.width && b@.height == info.height
                && b@.colors == colors@ && b@.bit_depth == bit_depth && b@.bytes == bit_stream@),
    {
        let width = info.get_width();
        let height = info.get_height();
        let rs = row_size_of(width, bit_depth);
        proof {
            lemma_data_size(width as int, height as int, bit_depth);
        }
        let total = height as u64 * rs;
        if (bit_stream.len() as u64) < total {
            return Err(BitmapError::TruncatedData);
        }
        let total = total as usize;
        let mut bytes: Vec<u8> = Vec::new();
        let mut i: usize = 0;
        while i < bit_stream.len()
            invariant
                i <= bit_stream@.len(),
                bytes@ =~= bit_stream@.take(i as int),
            decreases bit_stream.len() - i,
        {
            bytes.push(bit_stream[i]);
            i = i + 1;
        }
        proof {
            assert(bit_stream@.take(i as int) =~= bit_stream@);
        }
        let table = colors.clone_colors();
        let n = width as u64 * height as u64;
        let ppb = pixels_per_byte_of(bit_depth) as u64;
        let lv = levels_of(bit_depth);
        let mut k: u64 = 0;
        while k < n
            invariant
                n == width * height,
                n <= u32::MAX,
                k <= n,
                total <= bit_stream@.len(),
                width == info.width,
                height == info.height,
                bytes@ == bit_stream@,
                fits_format(width as int, height as int),
                total == height * row_size(width as int, bit_depth),
                rs == row_size(width as int, bit_depth),
                bit_depth.is_palette(),
                ppb == pixels_per_byte(bit_depth),
                lv == levels(bit_depth),
                table@ == colors@,
                forall|k2: int|
                    0 <= k2 < k ==> #[trigger] stored_index(
                        bit_stream@,
                        width as int,
                        bit_depth,
                        k2 / (width as int),
                        k2 % (width as int),
                    ) < table@.len(),
            decreases n - k,
        {
            proof {
                lemma_cell_of_index(k as int, width as int, height as int);
            }
            let row = k / width as u64;
            let col = k % width as u64;
            proof {
                lemma_data_size(width as int, height as int, bit_depth);
                lemma_byte_in_row(width as int, bit_depth, col as int);
                lemma_cell_in_grid(row as int, (col / ppb) as int, rs as int, height as int);
                assert(bytes@[row * rs + col / ppb] == bit_stream@[row * rs + col / ppb]);
                assert(stored_index(bytes@, width as int, bit_depth, row as int, col as int)
                    == stored_index(bit_stream@, width as int, bit_depth, row as int, col as int));
            }
            let idx = read_index(&bytes, width, bit_depth, row, col);
            if idx as usize >= table.len() {
                proof {
                    assert(stored_index(
                        bit_stream@,
                        width as int,
                        bit_depth,
                        (k as int) / (width as int),
                        (k as int) % (width as int),
                    ) >= colors@.len());
                    assert(!indices_in_table(
                        bit_stream@,
                        width as int,
                        height as int,
                        bit_depth,
                        colors@.len() as int,
                    ));
                }
                return Err(BitmapError::IndexOutOfRange);
            }
            k = k + 1;
        }
        proof {
            assert forall|k2: int| 0 <= k2 < width * height implies #[trigger] stored_index(
                bytes@,
                width as int,
                bit_depth,
                k2 / (width as int),
                k2 % (width as int),
            ) < table@.len() by {
                lemma_cell_of_index(k2, width as int, height as int);
                let row = k2 / (width as int);
                let col = k2 % (width as int);
                lemma_data_size(width as int, height as int, bit_depth);
                lemma_byte_in_row(width as int, bit_depth, col);
                lemma_cell_in_grid(row, col / (ppb as int), rs as int, height as int);
                assert(bytes@[row * rs + col / (ppb as int)] == bit_stream@[row * rs + col / (ppb as int)]);
                assert(stored_index(bit_stream@, width as int, bit_depth, row, col) < table@.len());
            }
        }
        Ok(BitData { width, height, colors: table, bytes, bit_depth })
    }

    /// Encode an image at a palette depth: rows packed with the indices of
    /// the image's color table, each padded to a multiple of four bytes.
    pub fn from_bitmap(bitmap: &BitMap, bit_depth: BitDepth) -> (r: BitData)
        requires
            bit_depth.is_palette(),
        ensures
            r@.width == bitmap@.width,
            r@.height == bitmap@.height,
            r@.colors == color_table(bitmap@.pixels),
            r@.bit_depth == bit_depth,
            r@.bytes == encode_packed(
                bitmap@.pixels,
                bitmap@.width as int,
                bitmap@.height as int,
                color_table(bitmap@.pixels),
                bit_depth,
            ),
    {
        let pixels = bitmap.get_pixels();
        let width = bitmap.get_width();
        let height = bitmap.get_height();
        let table = unique_colors(pixels, MAX_COLORS);
        let rs = row_size_of(width, bit_depth);
        proof {
            lemma_data_size(width as int, height as int, bit_depth);
        }
        let total = (height as u64 * rs) as usize;
        let ghost spec_bytes = encode_packed(pixels@, width as int, height as int, table@, bit_depth);
        let mut bytes: Vec<u8> = Vec::new();
        let mut i: usize = 0;
        while i < total
            invariant
                i <= total,
                total == height * rs,
                rs == row_size(width as int, bit_depth),
                rs <= 4 * width,
                bit_depth.is_palette(),
                pixels@.len() == width * height,
                fits_format(width as int, height as int),
                spec_bytes == encode_packed(pixels@, width as int, height as int, table@, bit_depth),
                bytes@ =~= spec_bytes.take(i as int),
            decreases total - i,
        {
            proof {
                assert(rs > 0) by (nonlinear_arith)
                    requires
                        i < total,
                        total == height * rs,
                        rs >= 0,
                ;
                lemma_data_size(width as int, height as int, bit_depth);
                lemma_cell_of_index(i as int, rs as int, height as int);
            }
            let row = i as u64 / rs;
            let j = i as u64 % rs;
            let b = pack_byte(pixels, width, height, &table, bit_depth, row, j);
            bytes.push(b);
            i = i + 1;
        }
        proof {
            assert(spec_bytes.take(total as int) =~= spec_bytes);
            assert forall|k: int| 0 <= k < width * height implies #[trigger] stored_index(
                bytes@,
                width as int,
                bit_depth,
                k / (width as int),
                k % (width as int),
            ) < table@.len() by {
                lemma_cell_of_index(k, width as int, height as int);
                let row = k / (width as int);
                let col = k % (width as int);
                lemma_stored_fields(pixels@, width as int, height as int, table@, bit_depth, row, col);
                lemma_cell_in_grid(row, col, width as int, height as int);
                lemma_table_holds(pixels@, row * width + col);
                lemma_depth_facts(bit_depth);
                let x = palette_index(table@, pixels@[row * width + col]);
                vstd::arithmetic::div_mod::lemma_mod_decreases(x as nat, levels(bit_depth) as nat);
            }
        }
        BitData { width, height, colors: table, bytes, bit_depth }
    }

    /// The stored pixel data
    pub fn as_bytes(&self) -> (r: Vec<u8>)
        ensures
            r@ == self@.bytes,
    {
        self.bytes.clone()
    }

    /// The pixels: each stored index looked up in the color table
    pub fn as_rgba(&self) -> (r: Vec<Rgba>)
        ensures
            r@ == decode_packed(
                self@.bytes,
                self@.width as int,
                self@.height as int,
                self@.colors,
                self@.bit_depth,
            ),
    {
        proof {
            use_type_invariant(self);
        }
        let width = self.width;
        let height = self.height;
        let bit_depth = self.bit_depth;
        let rs = row_size_of(width, bit_depth);
        let ppb = pixels_per_byte_of(bit_depth) as u64;
        let n = width as u64 * height as u64;
        let ghost spec_pixels = decode_packed(self.bytes@, width as int, height as int, self.colors@, bit_depth);
        let mut pixels: Vec<Rgba> = Vec::new();
        let mut k: u64 = 0;
        while k < n
            invariant
                n == width * height,
                n <= u32::MAX,
                k <= n,
                width == self.width,
                height == self.height,
                bit_depth == self.bit_depth,
                rs == row_size(width as int, bit_depth),
                ppb == pixels_per_byte(bit_depth),
                bit_depth.is_palette(),
                self.bytes@.len() >= height * rs,
                indices_in_table(self.bytes@, width as int, height as int, bit_depth, self.colors@.len() as int),
                spec_pixels == decode_packed(self.bytes@, width as int, height as int, self.colors@, bit_depth),
                pixels@ =~= spec_pixels.take(k as int),
            decreases n - k,
        {
            proof {
                lemma_cell_of_index(k as int, width as int, height as int);
                lemma_byte_in_row(width as int, bit_depth, (k % width as u64) as int);
                lemma_cell_in_grid((k / width as u64) as int, ((k % width as u64) / ppb) as int, rs as int, height as int);
                assert(stored_index(self.bytes@, width as int, bit_depth, (k as int) / (width as int), (k as int) % (width as int)) < self.colors@.len());
            }
            let row = k / width as u64;
            let col = k % width as u64;
            let idx = read_index(&self.bytes, width, bit_depth, row, col);
            pixels.push(self.colors[idx as usize]);
            k = k + 1;
        }
        proof {
            assert(spec_pixels.take(n as int) =~= spec_pixels);
        }
        pixels
    }

    /// The number of stored bytes
    pub fn len(&self) -> (r: usize)
        ensures
            r == self@.bytes.len(),
    {
        self.bytes.len()
    }

    /// The number of stored bytes
    pub fn get_bytes_size(&self) -> (r: u32)
        ensures
            r == self@.bytes.len(),
    {
        proof {
            use_type_invariant(self);
        }
        self.bytes.len() as u32
    }
}

/// A pixel's color lies in the color table when the image has at most 256
/// distinct colors, at a position below their number.
pub proof fn lemma_table_holds(pixels: Seq<Rgba>, k: int)
    requires
        0 <= k < pixels.len(),
    ensures
        distinct_colors_fit(pixels) ==> color_table(pixels).contains(pixels[k])
            && palette_index(color_table(pixels), pixels[k]) < color_table(pixels).len(),
        palette_index(color_table(pixels), pixels[k]) < color_table(pixels).len() || palette_index(
            color_table(pixels),
            pixels[k],
        ) == 0,
        color_table(pixels).len() > 0,
{
    crate::rgb_quad::lemma_distinct_no_repeats(pixels);
    let t = color_table(pixels);
    let d = crate::rgb_quad::distinct_colors(pixels);
    assert(pixels.contains(pixels[k]));
    assert(d.contains(pixels[k]));
    assert(d.len() > 0);
    if d.len() > MAX_COLORS {
        assert(t.len() == MAX_COLORS);
    }
    if exists|i: int| first_match(t, pixels[k], i) {
        let i = choose|i: int| first_match(t, pixels[k], i);
    }
    if distinct_colors_fit(pixels) {
        assert(t == d);
        let i = choose|i: int| 0 <= i < d.len() && d[i] == pixels[k];
        let m = choose|m: int| 0 <= m < t.len() && t[m] == pixels[k] && forall|j: int| 0 <= j < m ==> t[j] != pixels[k];
    }
}

/// Whether an image has at most 256 distinct colors, so that its color
/// table holds all of them.
pub open spec fn distinct_colors_fit(pixels: Seq<Rgba>) -> bool {
    crate::rgb_quad::distinct_colors(pixels).len() <= MAX_COLORS
}

/// The stored index of one pixel.
fn read_index(bytes: &Vec<u8>, width: u32, d: BitDepth, row: u64, col: u64) -> (r: u32)
    requires
        d.is_palette(),
        col < width,
        row * row_size(width as int, d) + (col as int) / pixels_per_byte(d) < bytes@.len(),
    ensures
        r == stored_index(bytes@, width as int, d, row as int, col as int),
{
    proof {
        lemma_depth_facts(d);
    }
    let rs = row_size_of(width, d);
    let ppb = pixels_per_byte_of(d) as u64;
    let lv = levels_of(d);
    let blen = bytes.len();
    proof {
        assert(0 <= row * rs) by (nonlinear_arith)
            requires
                row >= 0,
                rs >= 0,
        ;
    }
    let byte = bytes[(row * rs + col / ppb) as usize];
    let s = col % ppb;
    let mut divisor: u32 = 1;
    let mut e: u64 = 0;
    let shift = ppb - 1 - s;
    while e < shift
        invariant
            e <= shift,
            shift < ppb,
            ppb == pixels_per_byte(d),
            lv == levels(d),
            divisor == power(levels(d), e as int),
            power(levels(d), pixels_per_byte(d)) == 256,
            d.is_palette(),
        decreases shift - e,
    {
        proof {
            lemma_power_le(levels(d), (e + 1) as int, pixels_per_byte(d));
        }
        divisor = divisor * lv;
        e = e + 1;
    }
    proof {
        lemma_power_positive(levels(d), e as int);
    }
    (byte as u32 / divisor) % lv
}

proof fn lemma_power_le(base: int, e1: int, e2: int)
    requires
        base >= 1,
        0 <= e1 <= e2,
    ensures
        power(base, e1) <= power(base, e2),
    decreases e2,
{
    if e1 < e2 {
        lemma_power_le(base, e1, e2 - 1);
        lemma_power_positive(base, e2 - 1);
        assert(power(base, e2 - 1) <= base * power(base, e2 - 1)) by (nonlinear_arith)
            requires
                base >= 1,
                power(base, e2 - 1) >= 1,
        ;
    }
}

/// Byte `j` of stored row `row`, packed field by field.
fn pack_byte(pixels: &Vec<Rgba>, width: u32, height: u32, table: &Vec<Rgba>, d: BitDepth, row: u64, j: u64) -> (r: u8)
    requires
        d.is_palette(),
        fits_format(width as int, height as int),
        pixels@.len() == width * height,
        row < height,
        j < row_size(width as int, d),
    ensures
        r == packed_byte(pixels@, width as int, table@, d, row as int, j as int),
{
    proof {
        lemma_depth_facts(d);
        lemma_row_size_at_most(width as int, d);
    }
    let ppb = pixels_per_byte_of(d) as u64;
    let lv = levels_of(d);
    let ghost f = byte_fields(pixels@, width as int, table@, d, row as int, j as int);
    let mut acc: u32 = 0;
    let mut t: u64 = 0;
    while t < ppb
        invariant
            t <= ppb,
            ppb == pixels_per_byte(d),
            lv == levels(d),
            d.is_palette(),
            power(levels(d), pixels_per_byte(d)) == 256,
            pixels@.len() == width * height,
            fits_format(width as int, height as int),
            row < height,
            j < 4 * width,
            f == byte_fields(pixels@, width as int, table@, d, row as int, j as int),
            acc == pack_digits(f, levels(d), t as int),
            0 <= acc < power(levels(d), t as int),
        decreases ppb - t,
    {
        let col = j * ppb + t;
        let field: u32 = if col < width as u64 {
            proof {
                lemma_cell_in_grid(row as int, col as int, width as int, height as int);
            }
            let idx = lookup(table, &pixels[(row * width as u64 + col) as usize]);
            (idx % (lv as usize)) as u32
        } else {
            0
        };
        proof {
            assert(field == f(t as int));
            lemma_power_le(levels(d), (t + 1) as int, pixels_per_byte(d));
            assert(acc * lv + field < power(levels(d), (t + 1) as int)) by (nonlinear_arith)
                requires
                    0 <= acc < power(levels(d), t as int),
                    0 <= field < lv,
                    power(levels(d), (t + 1) as int) == lv * power(levels(d), t as int),
            ;
        }
        acc = acc * lv + field;
        t = t + 1;
    }
    acc as u8
}

} // verus!
