use vstd::prelude::*;
use crate::grid::{lemma_cell_in_grid, lemma_cell_of_index};
use crate::rgba::Rgba;

verus! {

/// The rectangle of columns `fx..tx` and rows `fy..ty` (rows counted from
/// the top) of a `w` x `h` grid, stored bottom row first like the grid.
pub open spec fn crop_grid(src: Seq<Rgba>, w: int, h: int, fx: int, fy: int, tx: int, ty: int) -> Seq<Rgba> {
    let cw = tx - fx;
    let ch = ty - fy;
    Seq::new((cw * ch) as nat, |k: int| src[(h - ty + k / cw) * w + fx + k % cw])
}

/// A `w` x `h` grid with the `sw` x `sh` grid `src` written over it, its top
/// left corner at column `sx` and row `sy` (counted from the top).
pub open spec fn paste_grid(
    dst: Seq<Rgba>,
    w: int,
    h: int,
    src: Seq<Rgba>,
    sw: int,
    sh: int,
    sx: int,
    sy: int,
) -> Seq<Rgba> {
    Seq::new(
        dst.len(),
        |k: int|
            {
                let col = k % w;
                let y = h - 1 - k / w;
                if sx <= col < sx + sw && sy <= y < sy + sh {
                    src[(sh - 1 - (y - sy)) * sw + (col - sx)]
                } else {
                    dst[k]
                }
            },
    )
}

/// A `w` x `h` grid turned a quarter right: `h` wide and `w` high.
pub open spec fn rotate_right_grid(src: Seq<Rgba>, w: int, h: int) -> Seq<Rgba> {
    Seq::new((w * h) as nat, |k: int| src[(k % h) * w + (w - 1 - k / h)])
}

/// A `w` x `h` grid turned a quarter left: `h` wide and `w` high.
pub open spec fn rotate_left_grid(src: Seq<Rgba>, w: int, h: int) -> Seq<Rgba> {
    Seq::new((w * h) as nat, |k: int| src[(h - 1 - k % h) * w + k / h])
}

/// Extract a rectangle of a grid.
pub fn crop_pixels(src: &Vec<Rgba>, w: u32, h: u32, fx: u32, fy: u32, tx: u32, ty: u32) -> (r: Vec<Rgba>)
    requires
        src@.len() == w * h,
        w * h <= u32::MAX,
        fx <= tx <= w,
        fy <= ty <= h,
    ensures
        r@ == crop_grid(src@, w as int, h as int, fx as int, fy as int, tx as int, ty as int),
{
    let cw = tx - fx;
    let ch = ty - fy;
    proof {
        assert(cw * ch <= w * h) by (nonlinear_arith)
            requires
                0 <= cw <= w,
                0 <= ch <= h,
        ;
    }
    let n = cw as u64 * ch as u64;
    let ghost target = crop_grid(src@, w as int, h as int, fx as int, fy as int, tx as int, ty as int);
    let mut out: Vec<Rgba> = Vec::new();
    let mut k: u64 = 0;
    while k < n
        invariant
            src@.len() == w * h,
            w * h <= u32::MAX,
            fx <= tx <= w,
            fy <= ty <= h,
            cw == tx - fx,
            ch == ty - fy,
            n == cw * ch,
            k <= n,
            target == crop_grid(src@, w as int, h as int, fx as int, fy as int, tx as int, ty as int),
            out@ =~= target.take(k as int),
        decreases n - k,
    {
        proof {
            lemma_cell_of_index(k as int, cw as int, ch as int);
        }
        let row = (h - ty) as u64 + k / cw as u64;
        let col = fx as u64 + k % cw as u64;
        proof {
            lemma_cell_in_grid(row as int, col as int, w as int, h as int);
        }
        out.push(src[(row * w as u64 + col) as usize]);
        k = k + 1;
    }
    proof {
        assert(target.take(n as int) =~= target);
    }
    out
}

/// Write a grid over a rectangle of another.
pub fn paste_pixels(
    dst: &Vec<Rgba>,
    w: u32,
    h: u32,
    src: &Vec<Rgba>,
    sw: u32,
    sh: u32,
    sx: u32,
    sy: u32,
) -> (r: Vec<Rgba>)
    requires
        dst@.len() == w * h,
        w * h <= u32::MAX,
        src@.len() == sw * sh,
        sx + sw <= w,
        sy + sh <= h,
    ensures
        r@ == paste_grid(dst@, w as int, h as int, src@, sw as int, sh as int, sx as int, sy as int),
{
    proof {
        assert(sw * sh <= w * h) by (nonlinear_arith)
            requires
                0 <= sw <= w,
                0 <= sh <= h,
        ;
    }
    let n = dst.len() as u64;
    let ghost target = paste_grid(dst@, w as int, h as int, src@, sw as int, sh as int, sx as int, sy as int);
    let mut out: Vec<Rgba> = Vec::new();
    let mut k: u64 = 0;
    while k < n
        invariant
            dst@.len() == w * h,
            w * h <= u32::MAX,
            src@.len() == sw * sh,
            sw * sh <= w * h,
            sx + sw <= w,
            sy + sh <= h,
            n == dst@.len(),
            k <= n,
            target == paste_grid(dst@, w as int, h as int, src@, sw as int, sh as int, sx as int, sy as int),
            out@ =~= target.take(k as int),
        decreases n - k,
    {
        proof {
            lemma_cell_of_index(k as int, w as int, h as int);
        }
        let col = k % w as u64;
        let y = (h - 1) as u64 - k / w as u64;
        if sx as u64 <= col && col < (sx + sw) as u64 && sy as u64 <= y && y < (sy + sh) as u64 {
            let srow = (sh - 1) as u64 - (y - sy as u64);
            let scol = col - sx as u64;
            proof {
                lemma_cell_in_grid(srow as int, scol as int, sw as int, sh as int);
            }
            out.push(src[(srow * sw as u64 + scol) as usize]);
        } else {
            out.push(dst[k as usize]);
        }
        k = k + 1;
    }
    proof {
        assert(target.take(n as int) =~= target);
    }
    out
}

/// Turn a grid a quarter right.
pub fn rotate_right_pixels(src: &Vec<Rgba>, w: u32, h: u32) -> (r: Vec<Rgba>)
    requires
        src@.len() == w * h,
        w * h <= u32::MAX,
    ensures
        r@ == rotate_right_grid(src@, w as int, h as int),
{
    let n = w as u64 * h as u64;
    let ghost target = rotate_right_grid(src@, w as int, h as int);
    let mut out: Vec<Rgba> = Vec::new();
    let mut k: u64 = 0;
    while k < n
        invariant
            src@.len() == w * h,
            w * h <= u32::MAX,
            n == w * h,
            k <= n,
            target == rotate_right_grid(src@, w as int, h as int),
            out@ =~= target.take(k as int),
        decreases n - k,
    {
        proof {
            assert(w * h == h * w) by (nonlinear_arith);
            lemma_cell_of_index(k as int, h as int, w as int);
        }
        let row = k % h as u64;
        let col = (w - 1) as u64 - k / h as u64;
        proof {
            lemma_cell_in_grid(row as int, col as int, w as int, h as int);
        }
        out.push(src[(row * w as u64 + col) as usize]);
        k = k + 1;
    }
    proof {
        assert(target.take(n as int) =~= target);
    }
    out
}

/// Turn a grid a quarter left.
pub fn rotate_left_pixels(src: &Vec<Rgba>, w: u32, h: u32) -> (r: Vec<Rgba>)
    requires
        src@.len() == w * h,
        w * h <= u32::MAX,
    ensures
        r@ == rotate_left_grid(src@, w as int, h as int),
{
    let n = w as u64 * h as u64;
    let ghost target = rotate_left_grid(src@, w as int, h as int);
    let mut out: Vec<Rgba> = Vec::new();
    let mut k: u64 = 0;
    while k < n
        invariant
            src@.len() == w * h,
            w * h <= u32::MAX,
            n == w * h,
            k <= n,
            target == rotate_left_grid(src@, w as int, h as int),
            out@ =~= target.take(k as int),
        decreases n - k,
    {
        proof {
            assert(w * h == h * w) by (nonlinear_arith);
            lemma_cell_of_index(k as int, h as int, w as int);
        }
        let row = (h - 1) as u64 - k % h as u64;
        let col = k / h as u64;
        proof {
            lemma_cell_in_grid(row as int, col as int, w as int, h as int);
        }
        out.push(src[(row * w as u64 + col) as usize]);
        k = k + 1;
    }
    proof {
        assert(target.take(n as int) =~= target);
    }
    out
}

/// The length of a window reaching `distance` either side of its center on
/// an axis of `size` pixels: at most the whole axis.
pub open spec fn window_len(size: int, distance: int) -> int {
    if 2 * distance < size {
        2 * distance
    } else {
        size
    }
}

/// Where a window reaching `distance` either side of `center` starts, once
/// moved back inside an axis of `size` pixels.
pub open spec fn window_start(size: int, center: int, distance: int) -> int {
    let lo = if center < distance {
        0
    } else {
        center - distance
    };
    if lo > size - window_len(size, distance) {
        size - window_len(size, distance)
    } else {
        lo
    }
}

/// The span `from..to` of an axis of `size` pixels that reaches `distance`
/// either side of `center`, shifted to stay inside the axis where it would
/// cross an edge.
pub fn crop_window(size: u32, center: u32, distance: u32) -> (r: (u32, u32))
    ensures
        r.0 == window_start(size as int, center as int, distance as int),
        r.1 == r.0 + window_len(size as int, distance as int),
        r.1 <= size,
{
    let len: u64 = if 2 * (distance as u64) < size as u64 {
        2 * (distance as u64)
    } else {
        size as u64
    };
    let lo: u64 = if center < distance {
        0
    } else {
        (center - distance) as u64
    };
    let from = if lo > size as u64 - len {
        size as u64 - len
    } else {
        lo
    };
    (from as u32, (from + len) as u32)
}

} // verus!
