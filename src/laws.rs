use vstd::prelude::*;
use crate::bit_data::{
    first_match, lemma_data_size, lemma_row_size_at_most, lemma_stored_fields, lemma_table_holds,
    levels, palette_index,
};
use crate::bit_depth::{fits_format, row_size, BitDepth, FILE_HEADER_SIZE, INFO_HEADER_SIZE};
use crate::file::{encode_file, expected_header, expected_info, file_table, parse_file};
use crate::file_header::file_header_bytes;
use crate::info_header::info_header_bytes;
use crate::bit_data::{indices_in_table, stored_index};
use crate::bit_depth::depth_of_code;
use crate::util::{le_u16, le_u32, lemma_u16_round_trip, lemma_u32_round_trip, u16_bytes, u32_bytes};
use crate::file_data::{decode_pixels, encode_pixels};
use crate::grid::{lemma_cell_in_grid, lemma_cell_of_index};
use crate::pixel_data::{decode_direct, encode_direct};
use crate::resample::{bicubic_grid, bilinear_grid, clamp_index, cubic_row, nearest_grid, span};
use crate::rgb_quad::{
    channel_byte, color_table, distinct_colors, lemma_distinct_no_repeats, table_bytes, table_colors,
    MAX_COLORS,
};
use crate::rgba::{blend_channel, cubic_channel, cubic_numerator, Rgba};

verus! {

broadcast use crate::rgba::Rgba::lemma_spec_rgba;

/// Every color of a grid has its alpha in range, as every `Rgba` value
/// built by this library does.
pub open spec fn valid_colors(pixels: Seq<Rgba>) -> bool {
    forall|i: int| 0 <= i < pixels.len() ==> (#[trigger] pixels[i])@.alpha <= 100
}

/// Whether a depth can store every pixel of a grid unchanged: a palette
/// depth needs at most as many distinct colors as its indices reach, and
/// 24 bits need opaque pixels.
pub open spec fn depth_holds(pixels: Seq<Rgba>, d: BitDepth) -> bool {
    &&& d.is_palette() ==> distinct_colors(pixels).len() <= levels(d)
    &&& d == BitDepth::AllColors ==> forall|i: int| 0 <= i < pixels.len() ==> (#[trigger] pixels[i])@.alpha == 100
}

/// Decoding what was encoded gives the pixels back, at every depth that can
/// hold them; encoding the decoded pixels again gives the same bytes.
pub proof fn lemma_round_trip(pixels: Seq<Rgba>, width: int, height: int, d: BitDepth)
    requires
        width >= 0,
        height >= 0,
        pixels.len() == width * height,
        valid_colors(pixels),
        depth_holds(pixels, d),
    ensures
        decode_pixels(encode_pixels(pixels, width, height, d), width, height, d, color_table(pixels))
            == pixels,
        encode_pixels(
            decode_pixels(encode_pixels(pixels, width, height, d), width, height, d, color_table(pixels)),
            width,
            height,
            d,
        ) == encode_pixels(pixels, width, height, d),
{
    let bytes = encode_pixels(pixels, width, height, d);
    let decoded = decode_pixels(bytes, width, height, d, color_table(pixels));
    assert forall|k: int| 0 <= k < pixels.len() implies #[trigger] decoded[k] == pixels[k] by {
        lemma_cell_of_index(k, width, height);
        let row = k / width;
        let col = k % width;
        if d.is_palette() {
            lemma_palette_pixel(pixels, width, height, d, row, col);
        } else {
            lemma_direct_pixel(pixels, width, height, d, row, col);
        }
    }
    assert(decoded =~= pixels);
}

/// One pixel read back from packed data.
proof fn lemma_palette_pixel(pixels: Seq<Rgba>, width: int, height: int, d: BitDepth, row: int, col: int)
    requires
        width > 0,
        height >= 0,
        pixels.len() == width * height,
        d.is_palette(),
        distinct_colors(pixels).len() <= levels(d),
        0 <= row < height,
        0 <= col < width,
    ensures
        decode_pixels(encode_pixels(pixels, width, height, d), width, height, d, color_table(pixels))[row
            * width + col] == pixels[row * width + col],
{
    let table = color_table(pixels);
    let k = row * width + col;
    lemma_cell_in_grid(row, col, width, height);
    vstd::arithmetic::div_mod::lemma_fundamental_div_mod_converse(k, width, row, col);
    lemma_stored_fields(pixels, width, height, table, d, row, col);
    lemma_table_holds(pixels, k);
    assert(levels(d) <= MAX_COLORS);
    assert(table == distinct_colors(pixels));
    assert(table.contains(pixels[k]));
    lemma_first_match_exists(table, pixels[k]);
    let x = palette_index(table, pixels[k]);
    assert(first_match(table, pixels[k], x));
    assert(0 <= x < table.len());
    assert(table.len() <= levels(d));
    vstd::arithmetic::div_mod::lemma_small_mod(x as nat, levels(d) as nat);
}

/// A color that a table holds has a first position in it.
proof fn lemma_first_match_exists(table: Seq<Rgba>, c: Rgba)
    requires
        table.contains(c),
    ensures
        exists|i: int| first_match(table, c, i),
    decreases table.len(),
{
    let init = table.drop_last();
    if init.contains(c) {
        lemma_first_match_exists(init, c);
        let i = choose|i: int| first_match(init, c, i);
        assert forall|j: int| 0 <= j < i implies table[j] != c by {
            assert(table[j] == init[j]);
        }
        assert(table[i] == init[i]);
        assert(first_match(table, c, i));
    } else {
        let i = table.len() - 1;
        assert forall|j: int| 0 <= j < i implies table[j] != c by {
            assert(table[j] == init[j]);
        }
        let w = choose|w: int| 0 <= w < table.len() && table[w] == c;
        if w < i {
            assert(init[w] == c);
        }
        assert(first_match(table, c, i));
    }
}

/// One pixel read back from direct-color data.
proof fn lemma_direct_pixel(pixels: Seq<Rgba>, width: int, height: int, d: BitDepth, row: int, col: int)
    requires
        width > 0,
        height >= 0,
        pixels.len() == width * height,
        !d.is_palette(),
        valid_colors(pixels),
        d == BitDepth::AllColors ==> forall|i: int| 0 <= i < pixels.len() ==> (#[trigger] pixels[i])@.alpha == 100,
        0 <= row < height,
        0 <= col < width,
    ensures
        decode_direct(encode_direct(pixels, width, height, d), width, height, d)[row * width + col]
            == pixels[row * width + col],
{
    let k = row * width + col;
    let step = d.step();
    let rs = row_size(width, d);
    let bytes = encode_direct(pixels, width, height, d);
    lemma_cell_in_grid(row, col, width, height);
    vstd::arithmetic::div_mod::lemma_fundamental_div_mod_converse(k, width, row, col);
    let o = row * rs + col * step;
    lemma_channel_position(width, height, d, row, col, 0);
    lemma_channel_position(width, height, d, row, col, 1);
    lemma_channel_position(width, height, d, row, col, 2);
    assert(bytes[o + 0] == pixels[k]@.blue);
    assert(bytes[o + 1] == pixels[k]@.green);
    assert(bytes[o + 2] == pixels[k]@.red);
    if step == 4 {
        lemma_channel_position(width, height, d, row, col, 3);
        assert(bytes[o + 3] == pixels[k]@.alpha);
    }
    assert(pixels[k]@.alpha <= 100);
    Rgba::lemma_rebuild(pixels[k]);
}

/// Where channel `c` of a pixel lies in direct-color data.
proof fn lemma_channel_position(width: int, height: int, d: BitDepth, row: int, col: int, c: int)
    requires
        width > 0,
        !d.is_palette(),
        0 <= row < height,
        0 <= col < width,
        0 <= c < d.step(),
    ensures
        ({
            let rs = row_size(width, d);
            let i = row * rs + col * d.step() + c;
            &&& 0 <= i < height * rs
            &&& i / rs == row
            &&& i % rs == col * d.step() + c
            &&& (col * d.step() + c) / d.step() == col
            &&& (col * d.step() + c) % d.step() == c
            &&& col * d.step() + c < width * d.step()
        }),
{
    let k = d.step();
    let rs = row_size(width, d);
    assert(0 <= col * k + c < width * k) by (nonlinear_arith)
        requires
            0 <= col < width,
            0 <= c < k,
    ;
    vstd::arithmetic::div_mod::lemma_fundamental_div_mod_converse(col * k + c, k, col, c);
    let b = d.bits_per_pixel();
    vstd::arithmetic::div_mod::lemma_fundamental_div_mod(width * b + 31, 32);
    let q = (width * b + 31) / 32;
    assert(width * k <= q * 4) by (nonlinear_arith)
        requires
            b == 8 * k,
            width * b + 31 == 32 * q + (width * b + 31) % 32,
            (width * b + 31) % 32 < 32,
            width >= 0,
    ;
    lemma_cell_in_grid(row, col * k + c, rs, height);
    vstd::arithmetic::div_mod::lemma_fundamental_div_mod_converse(row * rs + col * k + c, rs, row, col * k + c);
}

/// Every stored row takes a whole number of 4-byte words, no more than the
/// fewest that hold its pixels, and the pixel data is one such row per
/// image row.
pub proof fn lemma_rows_padded(pixels: Seq<Rgba>, width: int, height: int, d: BitDepth)
    requires
        width >= 0,
        height >= 0,
    ensures
        row_size(width, d) % 4 == 0,
        8 * row_size(width, d) >= width * d.bits_per_pixel(),
        8 * (row_size(width, d) - 4) < width * d.bits_per_pixel() || row_size(width, d) == 0,
        encode_pixels(pixels, width, height, d).len() == height * row_size(width, d),
{
    lemma_row_size_at_most(width, d);
    let b = d.bits_per_pixel();
    let q = (width * b + 31) / 32;
    vstd::arithmetic::div_mod::lemma_fundamental_div_mod(width * b + 31, 32);
    vstd::arithmetic::div_mod::lemma_mod_pos_bound(width * b + 31, 32);
    assert(32 * q >= width * b && (32 * (q - 1) < width * b || q == 0)) by (nonlinear_arith)
        requires
            width * b + 31 == 32 * q + (width * b + 31) % 32,
            0 <= (width * b + 31) % 32 < 32,
            q >= 0,
    ;
    assert(height * row_size(width, d) >= 0) by (nonlinear_arith)
        requires
            height >= 0,
            row_size(width, d) >= 0,
    ;
}

/// The size field of a written file is the file's length, and the data
/// offset points just past the color table.
pub proof fn lemma_file_size(pixels: Seq<Rgba>, width: u32, height: u32, d: BitDepth)
    requires
        pixels.len() == width * height,
        fits_format(width as int, height as int),
    ensures
        ({
            let table = file_table(pixels, d);
            let data = encode_pixels(pixels, width as int, height as int, d);
            let header = expected_header(table.len(), data.len());
            &&& encode_file(pixels, width, height, d).len() == header.size
            &&& header.off_bits == FILE_HEADER_SIZE + INFO_HEADER_SIZE + table_bytes(table).len()
        }),
{
    let table = file_table(pixels, d);
    lemma_data_size(width as int, height as int, d);
    lemma_rows_padded(pixels, width as int, height as int, d);
    if d.is_palette() {
        assert(table.len() <= MAX_COLORS);
    }
}

/// A blend that gives all the weight to one color gives that color's
/// channel.
proof fn lemma_blend_all_right(l: int, r: int, scale: int)
    requires
        scale > 0,
        r >= 0,
    ensures
        blend_channel(l, 0, r, scale, scale) == r,
{
    assert(2 * (l * 0 + r * scale) + scale == r * (2 * scale) + scale) by (nonlinear_arith);
    vstd::arithmetic::div_mod::lemma_fundamental_div_mod_converse(r * (2 * scale) + scale, 2 * scale, r, scale);
}

/// A cubic interpolation taken at 0 gives its second point.
proof fn lemma_cubic_at_zero(p0: int, p1: int, p2: int, p3: int, d: int, max: int)
    requires
        d > 0,
        0 <= p1 <= max,
    ensures
        cubic_channel(p0, p1, p2, p3, 0, d, max) == p1,
{
    let d3 = d * d * d;
    assert(d3 > 0) by (nonlinear_arith)
        requires
            d > 0,
            d3 == d * d * d,
    ;
    assert(cubic_numerator(p0, p1, p2, p3, 0, d) == (-p0 + 3 * p1 - 3 * p2 + p3) * (0 * 0 * 0) + (2
        * p0 - 5 * p1 + 4 * p2 - p3) * (0 * 0 * d) + (-p0 + p2) * (0 * d * d) + 2 * p1 * (d * d
        * d));
    assert((-p0 + 3 * p1 - 3 * p2 + p3) * (0 * 0 * 0) + (2 * p0 - 5 * p1 + 4 * p2 - p3) * (0 * 0
        * d) + (-p0 + p2) * (0 * d * d) + 2 * p1 * (d * d * d) == 2 * p1 * d3) by (nonlinear_arith)
        requires
            d3 == d * d * d,
    ;
    let n = 2 * p1 * d3;
    let den = 2 * d3;
    assert(n <= max * den) by (nonlinear_arith)
        requires
            p1 <= max,
            d3 > 0,
            n == 2 * p1 * d3,
            den == 2 * d3,
    ;
    assert(n >= 0) by (nonlinear_arith)
        requires
            p1 >= 0,
            d3 > 0,
            n == 2 * p1 * d3,
    ;
    assert(2 * n + den == p1 * (2 * den) + den) by (nonlinear_arith)
        requires
            n == 2 * p1 * d3,
            den == 2 * d3,
    ;
    vstd::arithmetic::div_mod::lemma_fundamental_div_mod_converse(2 * n + den, 2 * den, p1, den);
}

/// On an axis resized to its own length, target position `x` maps to
/// source position `x` with no fraction.
proof fn lemma_same_position(x: int, n: int)
    requires
        0 <= x < n,
    ensures
        x * span(n) / span(n) == x,
        x * span(n) % span(n) == 0,
{
    vstd::arithmetic::div_mod::lemma_fundamental_div_mod_converse(x * span(n), span(n), x, 0);
}

/// Resizing an image to its own size, by any of the three rules, gives the
/// same pixels.
pub proof fn lemma_resize_same_size(src: Seq<Rgba>, width: int, height: int)
    requires
        width >= 0,
        height >= 0,
        src.len() == width * height,
        valid_colors(src),
    ensures
        nearest_grid(src, width, height, width, height) == src,
        bilinear_grid(src, width, height, width, height) == src,
        bicubic_grid(src, width, height, width, height) == src,
{
    let nn = nearest_grid(src, width, height, width, height);
    let bl = bilinear_grid(src, width, height, width, height);
    let bc = bicubic_grid(src, width, height, width, height);
    assert forall|k: int| 0 <= k < src.len() implies #[trigger] nn[k] == src[k] && bl[k] == src[k]
        && bc[k] == src[k] by {
        lemma_cell_of_index(k, width, height);
        let x = k % width;
        let y = k / width;
        vstd::arithmetic::div_mod::lemma_fundamental_div_mod_converse(x * width, width, x, 0);
        vstd::arithmetic::div_mod::lemma_fundamental_div_mod_converse(y * height, height, y, 0);
        lemma_same_position(x, width);
        lemma_same_position(y, height);
        assert(y * width + x == k) by (nonlinear_arith)
            requires
                k == (k / width) * width + k % width,
                x == k % width,
                y == k / width,
        ;
        lemma_cell_in_grid(y, x, width, height);
        let c = src[k];
        assert(c@.alpha <= 100);
        Rgba::lemma_rebuild(c);
        // Bilinear: both blends put all the weight on the pixel itself.
        let dx = span(width);
        let dy = span(height);
        let c1 = clamp_index(x + 1, width);
        let r1 = clamp_index(y + 1, height);
        lemma_cell_in_grid(y, c1, width, height);
        lemma_cell_in_grid(r1, x, width, height);
        lemma_cell_in_grid(r1, c1, width, height);
        let top = Rgba::spec_blend(src[y * width + c1], 0, c, dx, dx);
        lemma_blend_all_right(src[y * width + c1]@.red as int, c@.red as int, dx);
        lemma_blend_all_right(src[y * width + c1]@.green as int, c@.green as int, dx);
        lemma_blend_all_right(src[y * width + c1]@.blue as int, c@.blue as int, dx);
        lemma_blend_all_right(src[y * width + c1]@.alpha as int, c@.alpha as int, dx);
        assert(top == c);
        let bottom = Rgba::spec_blend(src[r1 * width + c1], 0, src[r1 * width + x], dx, dx);
        lemma_blend_all_right(bottom@.red as int, c@.red as int, dy);
        lemma_blend_all_right(bottom@.green as int, c@.green as int, dy);
        lemma_blend_all_right(bottom@.blue as int, c@.blue as int, dy);
        lemma_blend_all_right(bottom@.alpha as int, c@.alpha as int, dy);
        assert(Rgba::spec_blend(bottom, 0, top, dy, dy) == c);
        // Bicubic: every interpolation is taken at 0 and gives its second point.
        assert forall|row: int| 0 <= row < height implies #[trigger] cubic_row(src, width, row, x, 0, dx)
            == src[row * width + x] by {
            lemma_cell_in_grid(row, x, width, height);
            let q = src[row * width + x];
            let p0 = src[row * width + clamp_index(x - 1, width)];
            let p2 = src[row * width + clamp_index(x + 1, width)];
            let p3 = src[row * width + clamp_index(x + 2, width)];
            assert(q@.alpha <= 100);
            lemma_cubic_at_zero(p0@.red as int, q@.red as int, p2@.red as int, p3@.red as int, dx, 255);
            lemma_cubic_at_zero(p0@.green as int, q@.green as int, p2@.green as int, p3@.green as int, dx, 255);
            lemma_cubic_at_zero(p0@.blue as int, q@.blue as int, p2@.blue as int, p3@.blue as int, dx, 255);
            lemma_cubic_at_zero(p0@.alpha as int, q@.alpha as int, p2@.alpha as int, p3@.alpha as int, dx, 100);
            Rgba::lemma_rebuild(q);
        }
        let q0 = cubic_row(src, width, clamp_index(y - 1, height), x, 0, dx);
        let q2 = cubic_row(src, width, clamp_index(y + 1, height), x, 0, dx);
        let q3 = cubic_row(src, width, clamp_index(y + 2, height), x, 0, dx);
        assert(cubic_row(src, width, clamp_index(y, height), x, 0, dx) == c);
        lemma_cubic_at_zero(q0@.red as int, c@.red as int, q2@.red as int, q3@.red as int, dy, 255);
        lemma_cubic_at_zero(q0@.green as int, c@.green as int, q2@.green as int, q3@.green as int, dy, 255);
        lemma_cubic_at_zero(q0@.blue as int, c@.blue as int, q2@.blue as int, q3@.blue as int, dy, 255);
        lemma_cubic_at_zero(q0@.alpha as int, c@.alpha as int, q2@.alpha as int, q3@.alpha as int, dy, 100);
    }
    assert(nn =~= src);
    assert(bl =~= src);
    assert(bc =~= src);
}

/// A `u32` stored at `i` reads back.
proof fn lemma_read_u32(s: Seq<u8>, i: int, x: u32)
    requires
        0 <= i,
        i + 4 <= s.len(),
        s.subrange(i, i + 4) == u32_bytes(x),
    ensures
        le_u32(s, i) == x,
{
    lemma_u32_round_trip(x);
    assert(s[i] == s.subrange(i, i + 4)[0]);
    assert(s[i + 1] == s.subrange(i, i + 4)[1]);
    assert(s[i + 2] == s.subrange(i, i + 4)[2]);
    assert(s[i + 3] == s.subrange(i, i + 4)[3]);
}

/// A `u16` stored at `i` reads back.
proof fn lemma_read_u16(s: Seq<u8>, i: int, x: u16)
    requires
        0 <= i,
        i + 2 <= s.len(),
        s.subrange(i, i + 2) == u16_bytes(x),
    ensures
        le_u16(s, i) == x,
{
    lemma_u16_round_trip(x);
    assert(s[i] == s.subrange(i, i + 2)[0]);
    assert(s[i + 1] == s.subrange(i, i + 2)[1]);
}

/// A stored color table reads back as the same colors.
proof fn lemma_table_round_trip(t: Seq<Rgba>)
    requires
        valid_colors(t),
    ensures
        table_colors(table_bytes(t)) == t,
{
    let b = table_bytes(t);
    let back = table_colors(b);
    assert forall|i: int| 0 <= i < t.len() implies #[trigger] back[i] == t[i] by {
        assert forall|c: int| 0 <= c < 4 implies #[trigger] b[4 * i + c] == channel_byte(t[i], c) by {
            vstd::arithmetic::div_mod::lemma_fundamental_div_mod_converse(4 * i + c, 4, i, c);
        }
        assert(b[4 * i + 0] == channel_byte(t[i], 0));
        assert(b[4 * i + 1] == channel_byte(t[i], 1));
        assert(b[4 * i + 2] == channel_byte(t[i], 2));
        assert(b[4 * i + 3] == channel_byte(t[i], 3));
        assert(t[i]@.alpha <= 100);
        Rgba::lemma_rebuild(t[i]);
    }
    assert(back =~= t);
}

/// Where the fields of the file header lie in its bytes.
proof fn lemma_header_fields(h: crate::file_header::FileHeader)
    ensures
        file_header_bytes(h).len() == 14,
        file_header_bytes(h)[0] == h.bitmap_type[0],
        file_header_bytes(h)[1] == h.bitmap_type[1],
        file_header_bytes(h).subrange(10, 14) == u32_bytes(h.off_bits),
{
    assert(file_header_bytes(h).subrange(10, 14) =~= u32_bytes(h.off_bits));
}

/// Where the fields of the info header lie in its bytes.
proof fn lemma_info_fields(i: crate::info_header::InfoHeader)
    ensures
        info_header_bytes(i).len() == 40,
        info_header_bytes(i).subrange(0, 4) == u32_bytes(i.size),
        info_header_bytes(i).subrange(4, 8) == u32_bytes(i.width),
        info_header_bytes(i).subrange(8, 12) == u32_bytes(i.height),
        info_header_bytes(i).subrange(14, 16) == u16_bytes(i.bit_depth),
        info_header_bytes(i).subrange(32, 36) == u32_bytes(i.colors_used),
{
    let p1 = u32_bytes(i.size) + u32_bytes(i.width);
    let p2 = p1 + u32_bytes(i.height);
    let p3 = p2 + u16_bytes(i.planes);
    let p4 = p3 + u16_bytes(i.bit_depth);
    let p5 = p4 + u32_bytes(i.compression) + u32_bytes(i.size_image) + u32_bytes(
        i.x_pixels_per_meter,
    ) + u32_bytes(i.y_pixels_per_meter);
    let p6 = p5 + u32_bytes(i.colors_used);
    let b = info_header_bytes(i);
    assert(b == p6 + u32_bytes(i.colors_important));
    assert(p5.len() == 32);
    assert(p1.subrange(0, 4) =~= u32_bytes(i.size));
    assert(p1.subrange(4, 8) =~= u32_bytes(i.width));
    assert(p2.subrange(8, 12) =~= u32_bytes(i.height));
    assert(p4.subrange(14, 16) =~= u16_bytes(i.bit_depth));
    assert(p6.subrange(32, 36) =~= u32_bytes(i.colors_used));
    let rest = u32_bytes(i.colors_important);
    lemma_prefix_subrange(p6, rest, 32, 36);
    lemma_prefix_subrange(p6, rest, 0, 16);
    lemma_prefix_subrange(p5, u32_bytes(i.colors_used), 0, 16);
    assert(p5 == p4 + (u32_bytes(i.compression) + u32_bytes(i.size_image) + u32_bytes(
        i.x_pixels_per_meter,
    ) + u32_bytes(i.y_pixels_per_meter))) by {
        assert(p5 =~= p4 + (u32_bytes(i.compression) + u32_bytes(i.size_image) + u32_bytes(
            i.x_pixels_per_meter,
        ) + u32_bytes(i.y_pixels_per_meter)));
    }
    lemma_prefix_subrange(p4, u32_bytes(i.compression) + u32_bytes(i.size_image) + u32_bytes(
        i.x_pixels_per_meter,
    ) + u32_bytes(i.y_pixels_per_meter), 0, 16);
    assert(b.subrange(0, 16) == p4);
    assert(p4.subrange(0, 12) =~= p2);
    assert(p2.subrange(0, 8) =~= p1);
    assert(b.subrange(0, 4) =~= p1.subrange(0, 4));
    assert(b.subrange(4, 8) =~= p1.subrange(4, 8));
    assert(b.subrange(8, 12) =~= p2.subrange(8, 12));
    assert(b.subrange(14, 16) =~= p4.subrange(14, 16));
}

/// A range inside the first part of a concatenation.
proof fn lemma_prefix_subrange(a: Seq<u8>, b: Seq<u8>, i: int, j: int)
    requires
        0 <= i <= j <= a.len(),
    ensures
        (a + b).subrange(i, j) == a.subrange(i, j),
{
    assert((a + b).subrange(i, j) =~= a.subrange(i, j));
}

/// A range of a sequence that lies inside a range already known.
proof fn lemma_sub_subrange(s: Seq<u8>, a: int, b: int, t: Seq<u8>, i: int, j: int)
    requires
        0 <= a <= b <= s.len(),
        s.subrange(a, b) == t,
        0 <= i <= j <= b - a,
    ensures
        s.subrange(a + i, a + j) == t.subrange(i, j),
{
    assert(s.subrange(a + i, a + j) =~= t.subrange(i, j));
}

/// The headers of a written file read back as written.
proof fn lemma_file_headers(pixels: Seq<Rgba>, width: u32, height: u32, d: BitDepth)
    requires
        pixels.len() == width * height,
        fits_format(width as int, height as int),
    ensures
        ({
            let table = file_table(pixels, d);
            let data = encode_pixels(pixels, width as int, height as int, d);
            let b = encode_file(pixels, width, height, d);
            let n = table.len() as int;
            &&& b.len() == 54 + 4 * n + data.len()
            &&& b[0] == 66 && b[1] == 77
            &&& le_u32(b, 10) == 54 + 4 * n
            &&& le_u32(b, 14) == 40
            &&& le_u32(b, 18) == width
            &&& le_u32(b, 22) == height
            &&& le_u16(b, 28) == d.bits_per_pixel()
            &&& le_u32(b, 46) == n
            &&& b.subrange(54, 54 + 4 * n) == table_bytes(table)
            &&& b.subrange(54 + 4 * n, b.len() as int) == data
        }),
{
    let table = file_table(pixels, d);
    let data = encode_pixels(pixels, width as int, height as int, d);
    let n = table.len() as int;
    let header = expected_header(table.len(), data.len());
    let info = expected_info(width, height, d, table.len());
    let hb = file_header_bytes(header);
    let ib = info_header_bytes(info);
    let tb = table_bytes(table);
    let b = encode_file(pixels, width, height, d);
    lemma_file_size(pixels, width, height, d);
    lemma_data_size(width as int, height as int, d);
    lemma_rows_padded(pixels, width as int, height as int, d);
    if d.is_palette() {
        assert(n <= MAX_COLORS);
    }
    lemma_header_fields(header);
    lemma_info_fields(info);
    assert(b.subrange(0, 14) =~= hb);
    assert(b.subrange(14, 54) =~= ib);
    assert(b.subrange(54, 54 + 4 * n) =~= tb);
    assert(b.subrange(54 + 4 * n, b.len() as int) =~= data);
    assert(b[0] == hb[0] && b[1] == hb[1]);
    lemma_sub_subrange(b, 0, 14, hb, 10, 14);
    lemma_sub_subrange(b, 14, 54, ib, 0, 4);
    lemma_sub_subrange(b, 14, 54, ib, 4, 8);
    lemma_sub_subrange(b, 14, 54, ib, 8, 12);
    lemma_sub_subrange(b, 14, 54, ib, 14, 16);
    lemma_sub_subrange(b, 14, 54, ib, 32, 36);
    lemma_read_u32(b, 10, header.off_bits);
    lemma_read_u32(b, 14, info.size);
    lemma_read_u32(b, 18, width);
    lemma_read_u32(b, 22, height);
    lemma_read_u16(b, 28, info.bit_depth);
    lemma_read_u32(b, 46, info.colors_used);
}

/// Reading a written file gives back its size and pixels, at every depth
/// that can hold them.
pub proof fn lemma_file_round_trip(pixels: Seq<Rgba>, width: u32, height: u32, d: BitDepth)
    requires
        pixels.len() == width * height,
        fits_format(width as int, height as int),
        valid_colors(pixels),
        depth_holds(pixels, d),
    ensures
        parse_file(encode_file(pixels, width, height, d)) == Ok::<(u32, u32, Seq<Rgba>), crate::error::BitmapError>(
            (width, height, pixels),
        ),
{
    let table = file_table(pixels, d);
    let data = encode_pixels(pixels, width as int, height as int, d);
    let b = encode_file(pixels, width, height, d);
    lemma_file_headers(pixels, width, height, d);
    lemma_data_size(width as int, height as int, d);
    lemma_rows_padded(pixels, width as int, height as int, d);
    assert(depth_of_code(d.bits_per_pixel()) == Some(d));
    if d.is_palette() {
        lemma_distinct_no_repeats(pixels);
        assert forall|i: int| 0 <= i < table.len() implies (#[trigger] table[i])@.alpha <= 100 by {
            let c = table[i];
            assert(distinct_colors(pixels).contains(c));
            assert(pixels.contains(c));
            let k = choose|k: int| 0 <= k < pixels.len() && pixels[k] == c;
        }
    }
    lemma_table_round_trip(table);
    lemma_round_trip(pixels, width as int, height as int, d);
    if d.is_palette() {
        assert forall|k: int| 0 <= k < width * height implies #[trigger] stored_index(
            data,
            width as int,
            d,
            k / (width as int),
            k % (width as int),
        ) < table.len() by {
            lemma_cell_of_index(k, width as int, height as int);
            let row = k / (width as int);
            let col = k % (width as int);
            lemma_stored_fields(pixels, width as int, height as int, table, d, row, col);
            lemma_cell_in_grid(row, col, width as int, height as int);
            lemma_table_holds(pixels, row * width + col);
            let x = palette_index(table, pixels[row * width + col]);
            vstd::arithmetic::div_mod::lemma_mod_decreases(x as nat, levels(d) as nat);
        }
        assert(indices_in_table(data, width as int, height as int, d, table.len() as int));
    }
}

/// At a direct-color depth, encoding decoded data again gives the same
/// bytes, for every image; at 24 bits alpha is neither stored nor needed.
pub proof fn lemma_reencode_direct(pixels: Seq<Rgba>, width: int, height: int, d: BitDepth)
    requires
        width >= 0,
        height >= 0,
        pixels.len() == width * height,
        valid_colors(pixels),
        !d.is_palette(),
    ensures
        encode_direct(
            decode_direct(encode_direct(pixels, width, height, d), width, height, d),
            width,
            height,
            d,
        ) == encode_direct(pixels, width, height, d),
{
    let bytes = encode_direct(pixels, width, height, d);
    let q = decode_direct(bytes, width, height, d);
    let again = encode_direct(q, width, height, d);
    let rs = row_size(width, d);
    let k = d.step();
    lemma_rows_padded(pixels, width, height, d);
    assert forall|i: int| 0 <= i < bytes.len() implies #[trigger] again[i] == bytes[i] by {
        lemma_cell_of_index(i, rs, height);
        let row = i / rs;
        let j = i % rs;
        if j < width * k {
            lemma_cell_of_index(j, k, width);
            let col = j / k;
            let c = j % k;
            assert(width * k == k * width) by (nonlinear_arith);
            lemma_cell_in_grid(row, col, width, height);
            vstd::arithmetic::div_mod::lemma_fundamental_div_mod_converse(row * width + col, width, row, col);
            assert(j == col * k + c) by (nonlinear_arith)
                requires
                    j == (j / k) * k + j % k,
                    col == j / k,
                    c == j % k,
            ;
            lemma_channel_position(width, height, d, row, col, 0);
            lemma_channel_position(width, height, d, row, col, 1);
            lemma_channel_position(width, height, d, row, col, 2);
            let o = row * rs + col * k;
            let p = pixels[row * width + col];
            assert(bytes[o + 0] == p@.blue);
            assert(bytes[o + 1] == p@.green);
            assert(bytes[o + 2] == p@.red);
            if k == 4 {
                lemma_channel_position(width, height, d, row, col, 3);
                assert(bytes[o + 3] == p@.alpha);
                assert(p@.alpha <= 100);
            }
            assert(q[row * width + col] == crate::pixel_data::direct_pixel(bytes, width, d, row, col));
            assert(i == o + c);
            lemma_channel_position(width, height, d, row, col, c);
        }
    }
    assert(again =~= bytes);
}

} // verus!
