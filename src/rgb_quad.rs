use vstd::prelude::*;
use crate::bit_depth::BitDepth;
use crate::error::BitmapError;
use crate::image::BitMap;
use crate::rgba::Rgba;

verus! {

/// The most entries a color table holds.
pub const MAX_COLORS: usize = 256;

/// The distinct colors of `s`, in the order in which they first appear.
pub open spec fn distinct_colors(s: Seq<Rgba>) -> Seq<Rgba>
    decreases s.len(),
{
    if s.len() == 0 {
        Seq::empty()
    } else {
        let d = distinct_colors(s.drop_last());
        if d.contains(s.last()) {
            d
        } else {
            d.push(s.last())
        }
    }
}

/// The first `cap` distinct colors of `s`.
pub open spec fn first_colors(s: Seq<Rgba>, cap: int) -> Seq<Rgba> {
    let d = distinct_colors(s);
    if d.len() <= cap {
        d
    } else {
        d.take(cap)
    }
}

/// The color table of an image: its first 256 distinct colors.
pub open spec fn color_table(s: Seq<Rgba>) -> Seq<Rgba> {
    first_colors(s, MAX_COLORS as int)
}

/// Whether some pixel of `s` is transparent.
pub open spec fn any_transparent(s: Seq<Rgba>) -> bool {
    exists|i: int| 0 <= i < s.len() && (#[trigger] s[i])@.alpha < 100
}

/// Byte `k` (0 to 3) of a color as stored: blue, green, red, then alpha.
pub open spec fn channel_byte(c: Rgba, k: int) -> u8 {
    if k == 0 {
        c@.blue
    } else if k == 1 {
        c@.green
    } else if k == 2 {
        c@.red
    } else {
        c@.alpha
    }
}

/// The bytes of a color table: four per color.
pub open spec fn table_bytes(colors: Seq<Rgba>) -> Seq<u8> {
    Seq::new(4 * colors.len(), |i: int| channel_byte(colors[i / 4], i % 4))
}

/// The colors of a stored color table: one per four bytes, alpha clamped.
pub open spec fn table_colors(bytes: Seq<u8>) -> Seq<Rgba> {
    Seq::new(
        bytes.len() / 4,
        |i: int| Rgba::spec_rgba(bytes[4 * i + 2], bytes[4 * i + 1], bytes[4 * i], bytes[4 * i + 3]),
    )
}

/// The distinct colors of a sequence have no repeats.
pub proof fn lemma_distinct_no_repeats(s: Seq<Rgba>)
    ensures
        distinct_colors(s).no_duplicates(),
        forall|c: Rgba| s.contains(c) <==> distinct_colors(s).contains(c),
    decreases s.len(),
{
    if s.len() > 0 {
        lemma_distinct_no_repeats(s.drop_last());
        let d = distinct_colors(s.drop_last());
        assert forall|c: Rgba| s.contains(c) <==> distinct_colors(s).contains(c) by {
            let e = distinct_colors(s);
            if s.contains(c) {
                let i = choose|i: int| 0 <= i < s.len() && s[i] == c;
                if i < s.len() - 1 {
                    assert(s.drop_last()[i] == c);
                    assert(s.drop_last().contains(c));
                    assert(d.contains(c));
                    let j = choose|j: int| 0 <= j < d.len() && d[j] == c;
                    assert(e[j] == c);
                } else if d.contains(s.last()) {
                    assert(e == d);
                } else {
                    assert(e[d.len() as int] == c);
                }
            }
            if e.contains(c) {
                if d.contains(c) {
                    assert(s.drop_last().contains(c));
                    let i = choose|i: int| 0 <= i < s.drop_last().len() && s.drop_last()[i] == c;
                    assert(s[i] == s.drop_last()[i]);
                } else {
                    assert(e == d.push(s.last()));
                    let i = choose|i: int| 0 <= i < e.len() && e[i] == c;
                    assert(i == d.len());
                    assert(s[s.len() - 1] == c);
                }
            }
        }
        assert(distinct_colors(s).no_duplicates());
    }
}

/// Step of the scan that collects the first `cap` distinct colors.
proof fn lemma_first_colors_step(s: Seq<Rgba>, i: int, cap: int)
    requires
        0 <= i < s.len(),
        cap >= 0,
    ensures
        ({
            let before = first_colors(s.take(i), cap);
            let after = first_colors(s.take(i + 1), cap);
            &&& before.len() < cap && !before.contains(s[i]) ==> after == before.push(s[i])
            &&& before.len() >= cap || before.contains(s[i]) ==> after == before
        }),
{
    let t = s.take(i + 1);
    assert(t.drop_last() =~= s.take(i));
    assert(t.last() == s[i]);
    let d = distinct_colors(s.take(i));
    let before = first_colors(s.take(i), cap);
    if d.len() > cap {
        assert(before.len() == cap);
        assert(d.push(s[i]).take(cap) =~= d.take(cap));
    } else if d.len() == cap {
        if !d.contains(s[i]) {
            assert(d.push(s[i]).take(cap) =~= d);
        }
    }
}

/// The position of the first entry of `table` equal to `c`.
pub fn find_color(table: &Vec<Rgba>, c: &Rgba) -> (r: Option<usize>)
    ensures
        r matches Some(i) ==> i < table@.len() && table@[i as int] == *c && forall|j: int|
            0 <= j < i ==> table@[j] != *c,
        r is None ==> !table@.contains(*c),
{
    let mut i: usize = 0;
    while i < table.len()
        invariant
            i <= table@.len(),
            forall|j: int| 0 <= j < i ==> table@[j] != *c,
        decreases table.len() - i,
    {
        if table[i] == *c {
            return Some(i);
        }
        i = i + 1;
    }
    None
}

/// The first `cap` distinct colors of `pixels`, in order of appearance.
pub fn unique_colors(pixels: &Vec<Rgba>, cap: usize) -> (r: Vec<Rgba>)
    ensures
        r@ == first_colors(pixels@, cap as int),
        r@.len() <= cap,
{
    let mut out: Vec<Rgba> = Vec::new();
    let mut i: usize = 0;
    proof {
        assert(pixels@.take(0) =~= Seq::<Rgba>::empty());
    }
    while i < pixels.len()
        invariant
            i <= pixels@.len(),
            out@ == first_colors(pixels@.take(i as int), cap as int),
            out@.len() <= cap,
        decreases pixels.len() - i,
    {
        proof {
            lemma_first_colors_step(pixels@, i as int, cap as int);
        }
        let c = pixels[i];
        if out.len() < cap {
            if find_color(&out, &c).is_none() {
                out.push(c);
            }
        }
        i = i + 1;
    }
    proof {
        assert(pixels@.take(pixels@.len() as int) =~= pixels@);
    }
    out
}

/// A list of colors used to render a bitmap image through palette indices.
pub struct RgbQuad {
    data: Vec<Rgba>,
}

impl View for RgbQuad {
    type V = Seq<Rgba>;

    closed spec fn view(&self) -> Seq<Rgba> {
        self.data@
    }
}

impl RgbQuad {
    #[verifier::type_invariant]
    spec fn at_most_max_colors(self) -> bool {
        self.data@.len() <= MAX_COLORS
    }

    /// Bytes that one stored color takes.
    pub fn single_rgb_quad_size() -> (r: usize)
        ensures
            r == 4,
    {
        4
    }

    /// Read a color table from its bytes: four per color (blue, green, red,
    /// alpha). Fails with `TruncatedData` when the length is not a multiple of
    /// four, and with `Format` when it holds more than 256 colors.
    pub fn from_slice(bit_stream: &[u8]) -> (r: Result<RgbQuad, BitmapError>)
        ensures
            bit_stream@.len() % 4 != 0 ==> r == Err::<RgbQuad, BitmapError>(BitmapError::TruncatedData),
            bit_stream@.len() % 4 == 0 && bit_stream@.len() > 4 * MAX_COLORS ==> r == Err::<
                RgbQuad,
                BitmapError,
            >(BitmapError::Format),
            bit_stream@.len() % 4 == 0 && bit_stream@.len() <= 4 * MAX_COLORS ==> (r matches Ok(q)
                && q@ == table_colors(bit_stream@)),
    {
        if bit_stream.len() % 4 != 0 {
            return Err(BitmapError::TruncatedData);
        }
        if bit_stream.len() > 4 * MAX_COLORS {
            return Err(BitmapError::Format);
        }
        let colors_used = bit_stream.len() / 4;
        let mut data: Vec<Rgba> = Vec::new();
        let mut index: usize = 0;
        while index < colors_used
            invariant
                colors_used == bit_stream@.len() / 4,
                colors_used <= MAX_COLORS,
                index <= colors_used,
                data@ =~= table_colors(bit_stream@).take(index as int),
            decreases colors_used - index,
        {
            let i: usize = index * 4;
            data.push(
                Rgba::bgra(bit_stream[i], bit_stream[i + 1], bit_stream[i + 2], bit_stream[i + 3]),
            );
            index = index + 1;
        }
        proof {
            assert(table_colors(bit_stream@).take(colors_used as int) =~= table_colors(bit_stream@));
        }
        Ok(RgbQuad { data })
    }

    /// The color table of a bitmap at a depth: the image's first 256 distinct
    /// colors for the palette depths, empty for the others.
    pub fn from(bitmap: &BitMap, bit_depth: BitDepth) -> (r: RgbQuad)
        ensures
            bit_depth.is_palette() ==> r@ == color_table(bitmap@.pixels),
            !bit_depth.is_palette() ==> r@.len() == 0,
    {
        match bit_depth {
            BitDepth::Color2Bit | BitDepth::Color16Bit | BitDepth::Color256Bit => RgbQuad {
                data: unique_colors(bitmap.get_pixels(), MAX_COLORS),
            },
            _ => RgbQuad::empty(),
        }
    }

    /// An empty color table.
    pub fn empty() -> (r: RgbQuad)
        ensures
            r@.len() == 0,
    {
        RgbQuad { data: Vec::new() }
    }

    /// Bytes the stored table takes: four per color.
    pub fn get_bytes_size(&self) -> (r: u32)
        ensures
            r == 4 * self@.len(),
    {
        proof {
            use_type_invariant(self);
        }
        4 * self.data.len() as u32
    }

    /// The stored table: blue, green, red and alpha of each color.
    pub fn as_bytes(&self) -> (r: Vec<u8>)
        ensures
            r@ == table_bytes(self@),
    {
        proof {
            use_type_invariant(self);
        }
        let mut bytes: Vec<u8> = Vec::new();
        let mut i: usize = 0;
        while i < self.data.len()
            invariant
                i <= self.data@.len(),
                self.data@.len() <= MAX_COLORS,
                bytes@ =~= table_bytes(self.data@).take(4 * i),
            decreases self.data.len() - i,
        {
            let rgb = &self.data[i];
            bytes.push(rgb.get_blue());
            bytes.push(rgb.get_green());
            bytes.push(rgb.get_red());
            bytes.push(rgb.get_alpha());
            proof {
                let t = table_bytes(self.data@);
                assert(t[4 * i] == rgb@.blue);
                assert(t[4 * i + 1] == rgb@.green);
                assert(t[4 * i + 2] == rgb@.red);
                assert(t[4 * i + 3] == rgb@.alpha);
            }
            i = i + 1;
        }
        proof {
            assert(table_bytes(self.data@).take(4 * i) =~= table_bytes(self.data@));
        }
        bytes
    }

    /// A copy of the colors
    pub fn clone_colors(&self) -> (r: Vec<Rgba>)
        ensures
            r@ == self@,
    {
        self.data.clone()
    }

    /// The number of colors in the table
    pub fn len(&self) -> (r: usize)
        ensures
            r == self@.len(),
            r <= MAX_COLORS,
    {
        proof {
            use_type_invariant(self);
        }
        self.data.len()
    }
}

} // verus!
