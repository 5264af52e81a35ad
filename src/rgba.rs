use vstd::prelude::*;
use crate::error::BitmapError;

verus! {

/// The channels of a color as plain values: red, green and blue in 0..=255,
/// alpha in 0..=100.
pub struct Channels {
    pub red: u8,
    pub green: u8,
    pub blue: u8,
    pub alpha: u8,
}

/// A color: red, green and blue intensities and an alpha (opacity) that is
/// kept between 0 and 100.
#[derive(Clone, Copy, Debug, Hash, PartialEq, Eq, Structural)]
pub struct Rgba {
    red: u8,
    green: u8,
    blue: u8,
    alpha: u8,
}

impl View for Rgba {
    type V = Channels;

    closed spec fn view(&self) -> Channels {
        Channels { red: self.red, green: self.green, blue: self.blue, alpha: self.alpha }
    }
}

/// `a` clamped to the alpha range.
pub open spec fn clamp_alpha(a: u8) -> u8 {
    if a < 100 {
        a
    } else {
        100
    }
}

/// Luminance of a color, `round(0.2126 r + 0.7152 g + 0.0722 b)`, in exact
/// arithmetic.
pub open spec fn gray_level(r: int, g: int, b: int) -> int {
    (2126 * r + 7152 * g + 722 * b + 5000) / 10000
}

/// One channel of a blend: `round((l * lw + r * rw) / scale)`, halves rounded up.
pub open spec fn blend_channel(l: int, lw: int, r: int, rw: int, scale: int) -> int {
    (2 * (l * lw + r * rw) + scale) / (2 * scale)
}

/// Twice the denominator times the cubic through `p0..p3` (Catmull-Rom
/// coefficients) taken at `t / d`.
pub open spec fn cubic_numerator(p0: int, p1: int, p2: int, p3: int, t: int, d: int) -> int {
    (-p0 + 3 * p1 - 3 * p2 + p3) * (t * t * t) + (2 * p0 - 5 * p1 + 4 * p2 - p3) * (t * t * d) + (
    -p0 + p2) * (t * d * d) + 2 * p1 * (d * d * d)
}

/// One channel of a cubic interpolation at `t / d`, rounded and clamped to
/// `0..=max`.
pub open spec fn cubic_channel(p0: int, p1: int, p2: int, p3: int, t: int, d: int, max: int) -> int {
    let n = cubic_numerator(p0, p1, p2, p3, t, d);
    let den = 2 * (d * d * d);
    if n > max * den {
        max
    } else if n < 0 {
        0
    } else {
        (2 * n + den) / (2 * den)
    }
}

proof fn lemma_div_at_most(n: int, d: int, m: int)
    requires
        d > 0,
        0 <= n,
        n < (m + 1) * d,
    ensures
        0 <= n / d <= m,
{
    let q = n / d;
    vstd::arithmetic::div_mod::lemma_fundamental_div_mod(n, d);
    vstd::arithmetic::div_mod::lemma_mod_pos_bound(n, d);
    vstd::arithmetic::div_mod::lemma_div_pos_is_pos(n, d);
    assert(q <= m) by (nonlinear_arith)
        requires
            n == d * q + n % d,
            0 <= n % d,
            n < (m + 1) * d,
            d > 0,
    ;
}

proof fn lemma_blend_bounded(l: int, lw: int, r: int, rw: int, scale: int, max: int)
    requires
        0 <= l <= max,
        0 <= r <= max,
        0 <= lw,
        0 <= rw,
        lw + rw == scale,
        scale > 0,
    ensures
        0 <= blend_channel(l, lw, r, rw, scale) <= max,
{
    assert(l * lw <= max * lw) by (nonlinear_arith)
        requires
            l <= max,
            0 <= lw,
    ;
    assert(r * rw <= max * rw) by (nonlinear_arith)
        requires
            r <= max,
            0 <= rw,
    ;
    assert(0 <= l * lw && 0 <= r * rw) by (nonlinear_arith)
        requires
            0 <= l,
            0 <= lw,
            0 <= r,
            0 <= rw,
    ;
    assert(max * lw + max * rw == max * scale) by (nonlinear_arith)
        requires
            lw + rw == scale,
    ;
    assert(2 * (l * lw + r * rw) + scale < (max + 1) * (2 * scale)) by (nonlinear_arith)
        requires
            l * lw + r * rw <= max * scale,
            scale > 0,
    ;
    lemma_div_at_most(2 * (l * lw + r * rw) + scale, 2 * scale, max);
}

impl Rgba {
    #[verifier::type_invariant]
    spec fn alpha_in_range(self) -> bool {
        self.alpha <= 100
    }

    /// The color with the given channels, alpha clamped to 100.
    pub closed spec fn spec_rgba(red: u8, green: u8, blue: u8, alpha: u8) -> Rgba {
        Rgba { red, green, blue, alpha: clamp_alpha(alpha) }
    }

    /// What the channels of a color built from values say.
    pub broadcast proof fn lemma_spec_rgba(red: u8, green: u8, blue: u8, alpha: u8)
        ensures
            (#[trigger] Rgba::spec_rgba(red, green, blue, alpha))@ == (Channels {
                red,
                green,
                blue,
                alpha: clamp_alpha(alpha),
            }),
    {
    }

    /// A color whose alpha is in range is rebuilt from its own channels.
    pub proof fn lemma_rebuild(c: Rgba)
        requires
            c@.alpha <= 100,
        ensures
            Rgba::spec_rgba(c@.red, c@.green, c@.blue, c@.alpha) == c,
    {
    }

    /// Create the color white
    pub fn white() -> (c: Rgba)
        ensures
            c == Rgba::spec_rgba(255, 255, 255, 100),
    {
        Rgba { red: 255, green: 255, blue: 255, alpha: 100 }
    }

    /// Check to see if a color is opaque black
    pub fn is_black(&self) -> (r: bool)
        ensures
            r == (*self == Rgba::spec_rgba(0, 0, 0, 100)),
    {
        self.red == 0 && self.green == 0 && self.blue == 0 && self.alpha == 100
    }

    /// Check to see if a color is opaque white
    pub fn is_white(&self) -> (r: bool)
        ensures
            r == (*self == Rgba::spec_rgba(255, 255, 255, 100)),
    {
        self.red == 255 && self.green == 255 && self.blue == 255 && self.alpha == 100
    }

    /// Create the color black
    pub fn black() -> (c: Rgba)
        ensures
            c == Rgba::spec_rgba(0, 0, 0, 100),
    {
        Rgba { red: 0, green: 0, blue: 0, alpha: 100 }
    }

    /// Create an opaque color from red, green and blue
    pub fn rgb(red: u8, green: u8, blue: u8) -> (c: Rgba)
        ensures
            c == Rgba::spec_rgba(red, green, blue, 100),
    {
        Rgba { red, green, blue, alpha: 100 }
    }

    /// Create an opaque color from blue, green and red
    pub fn bgr(blue: u8, green: u8, red: u8) -> (c: Rgba)
        ensures
            c == Rgba::spec_rgba(red, green, blue, 100),
    {
        Rgba { red, green, blue, alpha: 100 }
    }

    /// Create a color from blue, green, red and alpha (clamped to 100)
    pub fn bgra(blue: u8, green: u8, red: u8, alpha: u8) -> (c: Rgba)
        ensures
            c == Rgba::spec_rgba(red, green, blue, alpha),
    {
        Rgba { red, green, blue, alpha: if alpha < 100 { alpha } else { 100 } }
    }

    /// Create a color from red, green, blue and alpha (clamped to 100)
    pub fn rgba(red: u8, green: u8, blue: u8, alpha: u8) -> (c: Rgba)
        ensures
            c == Rgba::spec_rgba(red, green, blue, alpha),
    {
        Rgba { red, green, blue, alpha: if alpha < 100 { alpha } else { 100 } }
    }

    /// Change the current color to the other color
    pub fn recolor_to(&mut self, other: &Self)
        ensures
            *final(self) == *other,
    {
        *self = *other;
    }

    /// Check if the alpha value is less than 100 (fully visible)
    pub fn is_transparent(&self) -> (r: bool)
        ensures
            r == (self@.alpha < 100),
    {
        self.alpha < 100
    }

    /// The amount of red in the pixel
    pub fn get_red(&self) -> (r: u8)
        ensures
            r == self@.red,
    {
        self.red
    }

    /// The amount of green in the pixel
    pub fn get_green(&self) -> (r: u8)
        ensures
            r == self@.green,
    {
        self.green
    }

    /// The amount of blue in the pixel
    pub fn get_blue(&self) -> (r: u8)
        ensures
            r == self@.blue,
    {
        self.blue
    }

    /// The amount of alpha in the pixel, at most 100
    pub fn get_alpha(&self) -> (r: u8)
        ensures
            r == self@.alpha,
            r <= 100,
    {
        proof {
            use_type_invariant(self);
        }
        self.alpha
    }

    /// Convert the color to its gray level, keeping alpha
    pub fn color_to_gray(&mut self)
        ensures
            *final(self) == Rgba::spec_gray(*old(self)),
            0 <= gray_level(old(self)@.red as int, old(self)@.green as int, old(self)@.blue as int) <= 255,
    {
        proof {
            use_type_invariant(&*self);
        }
        let sum: u32 = 2126 * (self.red as u32) + 7152 * (self.green as u32) + 722 * (self.blue as u32) + 5000;
        proof {
            lemma_div_at_most(sum as int, 10000, 255);
        }
        let gray = (sum / 10000) as u8;
        self.set_gray_scale_pixel(gray);
    }

    /// The gray version of a color: red, green and blue set to its gray
    /// level, alpha kept.
    pub open spec fn spec_gray(c: Rgba) -> Rgba {
        let g = gray_level(c@.red as int, c@.green as int, c@.blue as int);
        Rgba::spec_rgba(g as u8, g as u8, g as u8, c@.alpha)
    }

    /// Set red, green and blue to the same level
    fn set_gray_scale_pixel(&mut self, gray: u8)
        ensures
            *final(self) == Rgba::spec_rgba(gray, gray, gray, old(self)@.alpha),
    {
        proof {
            use_type_invariant(&*self);
        }
        self.red = gray;
        self.green = gray;
        self.blue = gray;
    }

    /// The blend of two colors, each channel
    /// `round((lhs * lhs_weight + rhs * rhs_weight) / scale)`.
    pub open spec fn spec_blend(lhs: Rgba, lhs_weight: int, rhs: Rgba, rhs_weight: int, scale: int) -> Rgba {
        Rgba::spec_rgba(
            blend_channel(lhs@.red as int, lhs_weight, rhs@.red as int, rhs_weight, scale) as u8,
            blend_channel(lhs@.green as int, lhs_weight, rhs@.green as int, rhs_weight, scale) as u8,
            blend_channel(lhs@.blue as int, lhs_weight, rhs@.blue as int, rhs_weight, scale) as u8,
            blend_channel(lhs@.alpha as int, lhs_weight, rhs@.alpha as int, rhs_weight, scale) as u8,
        )
    }

    /// Blend two colors together. The weights are `lhs_factor / scale` and
    /// `rhs_factor / scale`, and must add up to exactly one.
    pub fn linear_interpolation(lhs: &Rgba, lhs_factor: u32, rhs: &Rgba, rhs_factor: u32, scale: u32) -> (r: Result<Rgba, BitmapError>)
        ensures
            scale == 0 || lhs_factor + rhs_factor != scale ==> r == Err::<Rgba, BitmapError>(
                BitmapError::InvalidBlend,
            ),
            scale > 0 && lhs_factor + rhs_factor == scale ==> r == Ok::<Rgba, BitmapError>(
                Rgba::spec_blend(*lhs, lhs_factor as int, *rhs, rhs_factor as int, scale as int),
            ),
    {
        if scale == 0 || lhs_factor as u64 + rhs_factor as u64 != scale as u64 {
            return Err(BitmapError::InvalidBlend);
        }
        proof {
            use_type_invariant(lhs);
            use_type_invariant(rhs);
        }
        let red = blend_u8(lhs.red, lhs_factor, rhs.red, rhs_factor, scale, 255);
        let green = blend_u8(lhs.green, lhs_factor, rhs.green, rhs_factor, scale, 255);
        let blue = blend_u8(lhs.blue, lhs_factor, rhs.blue, rhs_factor, scale, 255);
        let alpha = blend_u8(lhs.alpha, lhs_factor, rhs.alpha, rhs_factor, scale, 100);
        Ok(Rgba { red, green, blue, alpha })
    }

    /// The cubic interpolation of four colors, taken at `factor / scale`.
    pub open spec fn spec_cubic(p0: Rgba, p1: Rgba, p2: Rgba, p3: Rgba, factor: int, scale: int) -> Rgba {
        Rgba::spec_rgba(
            cubic_channel(p0@.red as int, p1@.red as int, p2@.red as int, p3@.red as int, factor, scale, 255) as u8,
            cubic_channel(p0@.green as int, p1@.green as int, p2@.green as int, p3@.green as int, factor, scale, 255) as u8,
            cubic_channel(p0@.blue as int, p1@.blue as int, p2@.blue as int, p3@.blue as int, factor, scale, 255) as u8,
            cubic_channel(p0@.alpha as int, p1@.alpha as int, p2@.alpha as int, p3@.alpha as int, factor, scale, 100) as u8,
        )
    }

    /// Cubic interpolation over four colors, taken at `factor / scale` between
    /// `p1` (at 0) and `p2` (at 1). Every channel is rounded and clamped to its
    /// range.
    pub fn cubic_interpolate(p0: &Rgba, p1: &Rgba, p2: &Rgba, p3: &Rgba, factor: u32, scale: u32) -> (r: Rgba)
        requires
            scale > 0,
        ensures
            r == Rgba::spec_cubic(*p0, *p1, *p2, *p3, factor as int, scale as int),
    {
        let red = cubic_u8(p0.red, p1.red, p2.red, p3.red, factor, scale, 255);
        let green = cubic_u8(p0.green, p1.green, p2.green, p3.green, factor, scale, 255);
        let blue = cubic_u8(p0.blue, p1.blue, p2.blue, p3.blue, factor, scale, 255);
        let alpha = cubic_u8(p0.alpha, p1.alpha, p2.alpha, p3.alpha, factor, scale, 100);
        Rgba { red, green, blue, alpha }
    }
}

fn blend_u8(l: u8, lw: u32, r: u8, rw: u32, scale: u32, max: u8) -> (c: u8)
    requires
        l <= max,
        r <= max,
        lw + rw == scale,
        scale > 0,
    ensures
        c == blend_channel(l as int, lw as int, r as int, rw as int, scale as int),
        c <= max,
{
    proof {
        lemma_blend_bounded(l as int, lw as int, r as int, rw as int, scale as int, max as int);
        assert((l as int) * (lw as int) <= 255 * 0xffff_ffff) by (nonlinear_arith)
            requires
                l <= 255,
                lw <= 0xffff_ffff,
        ;
        assert((r as int) * (rw as int) <= 255 * 0xffff_ffff) by (nonlinear_arith)
            requires
                r <= 255,
                rw <= 0xffff_ffff,
        ;
    }
    let num: u64 = (l as u64) * (lw as u64) + (r as u64) * (rw as u64);
    let v: u64 = (2 * num + scale as u64) / (2 * scale as u64);
    v as u8
}

fn cubic_u8(p0: u8, p1: u8, p2: u8, p3: u8, t: u32, d: u32, max: u8) -> (c: u8)
    requires
        d > 0,
    ensures
        c == cubic_channel(p0 as int, p1 as int, p2 as int, p3 as int, t as int, d as int, max as int),
        c <= max,
{
    let ti = t as i128;
    let di = d as i128;
    proof {
        assert(0 <= ti * ti <= 0xffff_ffff * 0xffff_ffff) by (nonlinear_arith)
            requires
                0 <= ti <= 0xffff_ffff,
        ;
        assert(0 <= ti * di <= 0xffff_ffff * 0xffff_ffff) by (nonlinear_arith)
            requires
                0 <= ti <= 0xffff_ffff,
                0 <= di <= 0xffff_ffff,
        ;
        assert(0 <= di * di <= 0xffff_ffff * 0xffff_ffff) by (nonlinear_arith)
            requires
                0 <= di <= 0xffff_ffff,
        ;
    }
    let tt = ti * ti;
    let td = ti * di;
    let dd = di * di;
    proof {
        assert(0 <= tt * ti <= 0xffff_ffff * 0xffff_ffff * 0xffff_ffff) by (nonlinear_arith)
            requires
                0 <= tt <= 0xffff_ffff * 0xffff_ffff,
                0 <= ti <= 0xffff_ffff,
        ;
        assert(0 <= tt * di <= 0xffff_ffff * 0xffff_ffff * 0xffff_ffff) by (nonlinear_arith)
            requires
                0 <= tt <= 0xffff_ffff * 0xffff_ffff,
                0 <= di <= 0xffff_ffff,
        ;
        assert(0 <= ti * dd <= 0xffff_ffff * 0xffff_ffff * 0xffff_ffff) by (nonlinear_arith)
            requires
                0 <= dd <= 0xffff_ffff * 0xffff_ffff,
                0 <= ti <= 0xffff_ffff,
        ;
        assert(0 <= dd * di <= 0xffff_ffff * 0xffff_ffff * 0xffff_ffff) by (nonlinear_arith)
            requires
                0 <= dd <= 0xffff_ffff * 0xffff_ffff,
                0 <= di <= 0xffff_ffff,
        ;
    }
    let t3 = tt * ti;
    let t2d = tt * di;
    let td2 = ti * dd;
    let d3 = dd * di;
    let (q0, q1, q2, q3) = (p0 as i128, p1 as i128, p2 as i128, p3 as i128);
    let a = -q0 + 3 * q1 - 3 * q2 + q3;
    let b = 2 * q0 - 5 * q1 + 4 * q2 - q3;
    let c = -q0 + q2;
    let e = 2 * q1;
    proof {
        let big: int = 0xffff_ffff_int * 0xffff_ffff_int * 0xffff_ffff_int;
        assert(-1020 * big <= a * t3 <= 1020 * big) by (nonlinear_arith)
            requires
                -1020 <= a <= 1020,
                0 <= t3 <= big,
        ;
        assert(-1530 * big <= b * t2d <= 1530 * big) by (nonlinear_arith)
            requires
                -1530 <= b <= 1530,
                0 <= t2d <= big,
        ;
        assert(-255 * big <= c * td2 <= 255 * big) by (nonlinear_arith)
            requires
                -255 <= c <= 255,
                0 <= td2 <= big,
        ;
        assert(0 <= e * d3 <= 510 * big) by (nonlinear_arith)
            requires
                0 <= e <= 510,
                0 <= d3 <= big,
        ;
        assert(t3 == (t as int) * (t as int) * (t as int));
        assert(t2d == (t as int) * (t as int) * (d as int));
        assert(td2 == (t as int) * ((d as int) * (d as int)));
        assert((t as int) * ((d as int) * (d as int)) == (t as int) * (d as int) * (d as int)) by (nonlinear_arith);
        assert(d3 == (d as int) * (d as int) * (d as int));
        assert(d3 > 0) by (nonlinear_arith)
            requires
                d3 == (d as int) * (d as int) * (d as int),
                d > 0,
        ;
        assert(0 <= (max as int) * (2 * d3) <= 255 * (2 * big)) by (nonlinear_arith)
            requires
                0 <= d3 <= big,
                max <= 255,
        ;
        assert(e * d3 == 2 * (p1 as int) * ((d as int) * (d as int) * (d as int))) by (nonlinear_arith)
            requires
                e == 2 * (p1 as int),
                d3 == (d as int) * (d as int) * (d as int),
        ;
    }
    let n = a * t3 + b * t2d + c * td2 + e * d3;
    let den = 2 * d3;
    if n > (max as i128) * den {
        max
    } else if n < 0 {
        0
    } else {
        proof {
            assert(2 * n + den < (max as int + 1) * (2 * den)) by (nonlinear_arith)
                requires
                    n <= (max as int) * den,
                    den > 0,
            ;
            lemma_div_at_most(2 * n + den, 2 * den, max as int);
        }
        ((2 * n + den) / (2 * den)) as u8
    }
}

} // verus!
