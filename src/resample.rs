use vstd::prelude::*;
use crate::grid::{lemma_cell_in_grid, lemma_cell_of_index};
use crate::rgba::Rgba;

verus! {

/// `i` moved into `0..n`.
pub open spec fn clamp_index(i: int, n: int) -> int {
    if i < 0 {
        0
    } else if i >= n {
        n - 1
    } else {
        i
    }
}

/// The distance between the first and last pixel of an axis of `n` pixels,
/// taken as 1 for axes of one pixel.
pub open spec fn span(n: int) -> int {
    if n > 2 {
        n - 1
    } else {
        1
    }
}

/// Nearest-neighbor resampling of a `w1` x `h1` grid to `w2` x `h2`: target
/// pixel (x, y) takes source pixel (x * w1 / w2, y * h1 / h2), rounded down.
pub open spec fn nearest_grid(src: Seq<Rgba>, w1: int, h1: int, w2: int, h2: int) -> Seq<Rgba> {
    Seq::new((w2 * h2) as nat, |k: int| src[(k / w2 * h1 / h2) * w1 + k % w2 * w1 / w2])
}

/// Bilinear resampling, target pixel (x, y). The source position is
/// `x * span(w1) / span(w2)` across and `y * span(h1) / span(h2)` up; the two
/// pixels around it on each of two rows are blended by the fractional part,
/// then the two rows.
pub open spec fn bilinear_pixel(src: Seq<Rgba>, w1: int, h1: int, w2: int, h2: int, x: int, y: int) -> Rgba {
    let dx = span(w2);
    let px = x * span(w1);
    let c0 = clamp_index(px / dx, w1);
    let c1 = clamp_index(px / dx + 1, w1);
    let fx = px % dx;
    let dy = span(h2);
    let py = y * span(h1);
    let r0 = clamp_index(py / dy, h1);
    let r1 = clamp_index(py / dy + 1, h1);
    let fy = py % dy;
    let top = Rgba::spec_blend(src[r0 * w1 + c1], fx, src[r0 * w1 + c0], dx - fx, dx);
    let bottom = Rgba::spec_blend(src[r1 * w1 + c1], fx, src[r1 * w1 + c0], dx - fx, dx);
    Rgba::spec_blend(bottom, fy, top, dy - fy, dy)
}

/// Bilinear resampling of a `w1` x `h1` grid to `w2` x `h2`.
pub open spec fn bilinear_grid(src: Seq<Rgba>, w1: int, h1: int, w2: int, h2: int) -> Seq<Rgba> {
    Seq::new((w2 * h2) as nat, |k: int| bilinear_pixel(src, w1, h1, w2, h2, k % w2, k / w2))
}

/// Cubic interpolation along row `row` around column `c`, at `t / d` past
/// it, with columns clamped to the grid.
pub open spec fn cubic_row(src: Seq<Rgba>, w1: int, row: int, c: int, t: int, d: int) -> Rgba {
    Rgba::spec_cubic(
        src[row * w1 + clamp_index(c - 1, w1)],
        src[row * w1 + clamp_index(c, w1)],
        src[row * w1 + clamp_index(c + 1, w1)],
        src[row * w1 + clamp_index(c + 2, w1)],
        t,
        d,
    )
}

/// Bicubic resampling, target pixel (x, y): the source position is found as
/// for bilinear resampling; four rows around it are each interpolated
/// across, then the four results up. Rows are clamped to the grid.
pub open spec fn bicubic_pixel(src: Seq<Rgba>, w1: int, h1: int, w2: int, h2: int, x: int, y: int) -> Rgba {
    let dx = span(w2);
    let px = x * span(w1);
    let c = px / dx;
    let tx = px % dx;
    let dy = span(h2);
    let py = y * span(h1);
    let r = py / dy;
    let ty = py % dy;
    Rgba::spec_cubic(
        cubic_row(src, w1, clamp_index(r - 1, h1), c, tx, dx),
        cubic_row(src, w1, clamp_index(r, h1), c, tx, dx),
        cubic_row(src, w1, clamp_index(r + 1, h1), c, tx, dx),
        cubic_row(src, w1, clamp_index(r + 2, h1), c, tx, dx),
        ty,
        dy,
    )
}

/// Bicubic resampling of a `w1` x `h1` grid to `w2` x `h2`.
pub open spec fn bicubic_grid(src: Seq<Rgba>, w1: int, h1: int, w2: int, h2: int) -> Seq<Rgba> {
    Seq::new((w2 * h2) as nat, |k: int| bicubic_pixel(src, w1, h1, w2, h2, k % w2, k / w2))
}

/// What a resampling needs: a source grid of `w1 * h1` pixels that is not
/// empty unless the target is, and a target whose size fits a `u32`.
pub open spec fn resample_ok(src: Seq<Rgba>, w1: int, h1: int, w2: int, h2: int) -> bool {
    &&& src.len() == w1 * h1
    &&& w1 * h1 <= u32::MAX
    &&& w2 * h2 <= u32::MAX
    &&& (w1 > 0 && h1 > 0) || w2 * h2 == 0
}

/// `span` in exact arithmetic.
fn span_of(n: u32) -> (r: u64)
    ensures
        r == span(n as int),
        r >= 1,
{
    if n > 2 {
        (n - 1) as u64
    } else {
        1
    }
}

/// Clamp `i` into `0..n`.
fn clamp_of(i: i64, n: u32) -> (r: u64)
    requires
        n > 0,
    ensures
        r == clamp_index(i as int, n as int),
        r < n,
{
    if i < 0 {
        0
    } else if i >= n as i64 {
        (n - 1) as u64
    } else {
        i as u64
    }
}

proof fn lemma_source_position(x: int, w1: int, w2: int)
    requires
        0 <= x < w2,
        0 < w1 <= 0xffff_ffff,
        x <= 0xffff_ffff,
    ensures
        0 <= x * span(w1) / span(w2) <= w1,
        0 <= x * span(w1) % span(w2) < span(w2),
        0 <= x * span(w1) <= 0xffff_ffff * 0xffff_ffff,
{
    let d = span(w2);
    let n = span(w1);
    vstd::arithmetic::div_mod::lemma_fundamental_div_mod(x * n, d);
    vstd::arithmetic::div_mod::lemma_mod_pos_bound(x * n, d);
    assert(0 <= x * n) by (nonlinear_arith)
        requires
            x >= 0,
            n >= 1,
    ;
    vstd::arithmetic::div_mod::lemma_div_pos_is_pos(x * n, d);
    let q = (x * n) / d;
    if w2 > 2 {
        assert(x <= d);
        if w1 > 2 {
            assert(q <= n) by (nonlinear_arith)
                requires
                    x * n == d * q + (x * n) % d,
                    0 <= (x * n) % d,
                    x <= d,
                    d >= 1,
                    n >= 1,
            ;
        } else {
            assert(q <= 1) by (nonlinear_arith)
                requires
                    x * n == d * q + (x * n) % d,
                    0 <= (x * n) % d,
                    x <= d,
                    d >= 1,
                    n == 1,
            ;
        }
    } else {
        assert(d == 1);
        assert(x <= 1);
        assert(q == x * n);
        if w1 > 2 {
            assert(x * n <= n) by (nonlinear_arith)
                requires
                    x <= 1,
                    x >= 0,
                    n >= 1,
            ;
        }
    }
    assert(x * n <= 0xffff_ffff * 0xffff_ffff) by (nonlinear_arith)
        requires
            0 <= x <= 0xffff_ffff,
            1 <= n <= 0xffff_ffff,
    ;
}

/// The source pixel that nearest-neighbor resampling takes for target
/// pixel (x, y).
proof fn lemma_nearest_source(x: int, y: int, w1: int, h1: int, w2: int, h2: int)
    requires
        0 <= x < w2,
        0 <= y < h2,
        w1 > 0,
        h1 > 0,
    ensures
        0 <= x * w1 / w2 < w1,
        0 <= y * h1 / h2 < h1,
        0 <= (y * h1 / h2) * w1 + x * w1 / w2 < w1 * h1,
{
    assert(0 <= x * w1 < w2 * w1) by (nonlinear_arith)
        requires
            0 <= x < w2,
            w1 > 0,
    ;
    assert(0 <= y * h1 < h2 * h1) by (nonlinear_arith)
        requires
            0 <= y < h2,
            h1 > 0,
    ;
    assert(w2 * w1 == w1 * w2 && h2 * h1 == h1 * h2) by (nonlinear_arith);
    crate::grid::lemma_div_below(x * w1, w2, w1);
    crate::grid::lemma_div_below(y * h1, h2, h1);
    lemma_cell_in_grid(y * h1 / h2, x * w1 / w2, w1, h1);
}

/// Resize a grid with the nearest-neighbor rule.
pub fn nearest(src: &Vec<Rgba>, w1: u32, h1: u32, w2: u32, h2: u32) -> (r: Vec<Rgba>)
    requires
        resample_ok(src@, w1 as int, h1 as int, w2 as int, h2 as int),
    ensures
        r@ == nearest_grid(src@, w1 as int, h1 as int, w2 as int, h2 as int),
{
    let n = w2 as u64 * h2 as u64;
    let ghost target = nearest_grid(src@, w1 as int, h1 as int, w2 as int, h2 as int);
    let mut out: Vec<Rgba> = Vec::new();
    let mut k: u64 = 0;
    while k < n
        invariant
            resample_ok(src@, w1 as int, h1 as int, w2 as int, h2 as int),
            n == w2 * h2,
            k <= n,
            target == nearest_grid(src@, w1 as int, h1 as int, w2 as int, h2 as int),
            out@ =~= target.take(k as int),
        decreases n - k,
    {
        proof {
            lemma_cell_of_index(k as int, w2 as int, h2 as int);
            assert(w1 > 0 && h1 > 0) by (nonlinear_arith)
                requires
                    (w1 > 0 && h1 > 0) || w2 * h2 == 0,
                    k < w2 * h2,
            ;
        }
        let x = k % w2 as u64;
        let y = k / w2 as u64;
        proof {
            lemma_nearest_source(x as int, y as int, w1 as int, h1 as int, w2 as int, h2 as int);
            assert(x * w1 <= 0xffff_ffff * 0xffff_ffff) by (nonlinear_arith)
                requires
                    x <= 0xffff_ffff,
                    w1 <= 0xffff_ffff,
            ;
            assert(y * h1 <= 0xffff_ffff * 0xffff_ffff) by (nonlinear_arith)
                requires
                    y <= 0xffff_ffff,
                    h1 <= 0xffff_ffff,
            ;
        }
        let sx = x * w1 as u64 / w2 as u64;
        let sy = y * h1 as u64 / h2 as u64;
        out.push(src[(sy * w1 as u64 + sx) as usize]);
        k = k + 1;
    }
    proof {
        assert(target.take(n as int) =~= target);
    }
    out
}

/// Positions of one target pixel in the source for the interpolating
/// resamplers: base cell, fraction and denominator on each axis.
fn source_position(x: u64, w1: u32, w2: u32) -> (r: (u64, u64, u64))
    requires
        x < w2,
        w1 > 0,
    ensures
        r.2 == span(w2 as int),
        r.0 == x * span(w1 as int) / span(w2 as int),
        r.1 == x * span(w1 as int) % span(w2 as int),
        r.0 <= w1,
        r.1 < r.2,
        r.2 <= u32::MAX,
{
    let d = span_of(w2);
    let n = span_of(w1);
    proof {
        lemma_source_position(x as int, w1 as int, w2 as int);
    }
    let px = x * n;
    (px / d, px % d, d)
}

/// The bilinear resampling of one target pixel.
fn bilinear_at(src: &Vec<Rgba>, w1: u32, h1: u32, w2: u32, h2: u32, x: u64, y: u64) -> (r: Rgba)
    requires
        src@.len() == w1 * h1,
        w1 * h1 <= u32::MAX,
        w1 > 0,
        h1 > 0,
        x < w2,
        y < h2,
    ensures
        r == bilinear_pixel(src@, w1 as int, h1 as int, w2 as int, h2 as int, x as int, y as int),
{
    let (bx, fx, dx) = source_position(x, w1, w2);
    let (by, fy, dy) = source_position(y, h1, h2);
    let c0 = clamp_of(bx as i64, w1);
    let c1 = clamp_of(bx as i64 + 1, w1);
    let r0 = clamp_of(by as i64, h1);
    let r1 = clamp_of(by as i64 + 1, h1);
    proof {
        lemma_cell_in_grid(r0 as int, c0 as int, w1 as int, h1 as int);
        lemma_cell_in_grid(r0 as int, c1 as int, w1 as int, h1 as int);
        lemma_cell_in_grid(r1 as int, c0 as int, w1 as int, h1 as int);
        lemma_cell_in_grid(r1 as int, c1 as int, w1 as int, h1 as int);
    }
    let w = w1 as u64;
    let (fx, dx, fy, dy) = (fx as u32, dx as u32, fy as u32, dy as u32);
    let top = match Rgba::linear_interpolation(
        &src[(r0 * w + c1) as usize],
        fx,
        &src[(r0 * w + c0) as usize],
        dx - fx,
        dx,
    ) {
        Ok(c) => c,
        Err(_) => Rgba::black(),
    };
    let bottom = match Rgba::linear_interpolation(
        &src[(r1 * w + c1) as usize],
        fx,
        &src[(r1 * w + c0) as usize],
        dx - fx,
        dx,
    ) {
        Ok(c) => c,
        Err(_) => Rgba::black(),
    };
    match Rgba::linear_interpolation(&bottom, fy, &top, dy - fy, dy) {
        Ok(c) => c,
        Err(_) => Rgba::black(),
    }
}

/// Resize a grid with bilinear interpolation.
pub fn bilinear(src: &Vec<Rgba>, w1: u32, h1: u32, w2: u32, h2: u32) -> (r: Vec<Rgba>)
    requires
        resample_ok(src@, w1 as int, h1 as int, w2 as int, h2 as int),
    ensures
        r@ == bilinear_grid(src@, w1 as int, h1 as int, w2 as int, h2 as int),
{
    let n = w2 as u64 * h2 as u64;
    let ghost target = bilinear_grid(src@, w1 as int, h1 as int, w2 as int, h2 as int);
    let mut out: Vec<Rgba> = Vec::new();
    let mut k: u64 = 0;
    while k < n
        invariant
            resample_ok(src@, w1 as int, h1 as int, w2 as int, h2 as int),
            n == w2 * h2,
            k <= n,
            target == bilinear_grid(src@, w1 as int, h1 as int, w2 as int, h2 as int),
            out@ =~= target.take(k as int),
        decreases n - k,
    {
        proof {
            lemma_cell_of_index(k as int, w2 as int, h2 as int);
            assert(w1 > 0 && h1 > 0) by (nonlinear_arith)
                requires
                    (w1 > 0 && h1 > 0) || w2 * h2 == 0,
                    k < w2 * h2,
            ;
        }
        let x = k % w2 as u64;
        let y = k / w2 as u64;
        out.push(bilinear_at(src, w1, h1, w2, h2, x, y));
        k = k + 1;
    }
    proof {
        assert(target.take(n as int) =~= target);
    }
    out
}

/// Cubic interpolation along one source row.
fn cubic_row_at(src: &Vec<Rgba>, w1: u32, h1: u32, row: u64, c: u64, t: u64, d: u64) -> (r: Rgba)
    requires
        src@.len() == w1 * h1,
        w1 * h1 <= u32::MAX,
        w1 > 0,
        row < h1,
        c <= w1,
        t < d,
        1 <= d <= u32::MAX,
    ensures
        r == cubic_row(src@, w1 as int, row as int, c as int, t as int, d as int),
{
    proof {
        lemma_cell_in_grid(row as int, 0, w1 as int, h1 as int);
    }
    let base = row * w1 as u64;
    let c0 = clamp_of(c as i64 - 1, w1);
    let c1 = clamp_of(c as i64, w1);
    let c2 = clamp_of(c as i64 + 1, w1);
    let c3 = clamp_of(c as i64 + 2, w1);
    proof {
        lemma_cell_in_grid(row as int, c0 as int, w1 as int, h1 as int);
        lemma_cell_in_grid(row as int, c1 as int, w1 as int, h1 as int);
        lemma_cell_in_grid(row as int, c2 as int, w1 as int, h1 as int);
        lemma_cell_in_grid(row as int, c3 as int, w1 as int, h1 as int);
    }
    Rgba::cubic_interpolate(
        &src[(base + c0) as usize],
        &src[(base + c1) as usize],
        &src[(base + c2) as usize],
        &src[(base + c3) as usize],
        t as u32,
        d as u32,
    )
}

/// The bicubic resampling of one target pixel.
fn bicubic_at(src: &Vec<Rgba>, w1: u32, h1: u32, w2: u32, h2: u32, x: u64, y: u64) -> (r: Rgba)
    requires
        src@.len() == w1 * h1,
        w1 * h1 <= u32::MAX,
        w1 > 0,
        h1 > 0,
        x < w2,
        y < h2,
    ensures
        r == bicubic_pixel(src@, w1 as int, h1 as int, w2 as int, h2 as int, x as int, y as int),
{
    let (c, tx, dx) = source_position(x, w1, w2);
    let (r, ty, dy) = source_position(y, h1, h2);
    let p0 = cubic_row_at(src, w1, h1, clamp_of(r as i64 - 1, h1), c, tx, dx);
    let p1 = cubic_row_at(src, w1, h1, clamp_of(r as i64, h1), c, tx, dx);
    let p2 = cubic_row_at(src, w1, h1, clamp_of(r as i64 + 1, h1), c, tx, dx);
    let p3 = cubic_row_at(src, w1, h1, clamp_of(r as i64 + 2, h1), c, tx, dx);
    Rgba::cubic_interpolate(&p0, &p1, &p2, &p3, ty as u32, dy as u32)
}

/// Resize a grid with bicubic interpolation.
pub fn bicubic(src: &Vec<Rgba>, w1: u32, h1: u32, w2: u32, h2: u32) -> (r: Vec<Rgba>)
    requires
        resample_ok(src@, w1 as int, h1 as int, w2 as int, h2 as int),
    ensures
        r@ == bicubic_grid(src@, w1 as int, h1 as int, w2 as int, h2 as int),
{
    let n = w2 as u64 * h2 as u64;
    let ghost target = bicubic_grid(src@, w1 as int, h1 as int, w2 as int, h2 as int);
    let mut out: Vec<Rgba> = Vec::new();
    let mut k: u64 = 0;
    while k < n
        invariant
            resample_ok(src@, w1 as int, h1 as int, w2 as int, h2 as int),
            n == w2 * h2,
            k <= n,
            target == bicubic_grid(src@, w1 as int, h1 as int, w2 as int, h2 as int),
            out@ =~= target.take(k as int),
        decreases n - k,
    {
        proof {
            lemma_cell_of_index(k as int, w2 as int, h2 as int);
            assert(w1 > 0 && h1 > 0) by (nonlinear_arith)
                requires
                    (w1 > 0 && h1 > 0) || w2 * h2 == 0,
                    k < w2 * h2,
            ;
        }
        let x = k % w2 as u64;
        let y = k / w2 as u64;
        out.push(bicubic_at(src, w1, h1, w2, h2, x, y));
        k = k + 1;
    }
    proof {
        assert(target.take(n as int) =~= target);
    }
    out
}

} // verus!
