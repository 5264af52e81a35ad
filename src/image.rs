use vstd::prelude::*;
use vstd::string::StringSliceAdditionalSpecFns;
use crate::bit_depth::{fits_format, suggested_depth, BitDepth};
use crate::edit::{
    crop_grid, crop_pixels, paste_grid, paste_pixels, rotate_left_grid, rotate_left_pixels,
    rotate_right_grid, rotate_right_pixels,
};
use crate::error::BitmapError;
use crate::file::{encode_file, parse_file, File};
use crate::fill::{fill, fill_grid};
use crate::resample::{bicubic, bicubic_grid, bilinear, bilinear_grid, nearest, nearest_grid};
use crate::rgb_quad::{any_transparent, color_table, distinct_colors, unique_colors, MAX_COLORS};
use crate::rgba::Rgba;

verus! {

/// An image as values: its size, its pixels row by row starting with the
/// bottom row, and the file it was read from.
pub struct Image {
    pub width: nat,
    pub height: nat,
    pub pixels: Seq<Rgba>,
    pub filename: Option<Seq<char>>,
}

/// Position in the stored grid of the pixel at column `x` and row `y`
/// counted from the top.
pub open spec fn index_of(width: int, height: int, x: int, y: int) -> int {
    (height - 1 - y) * width + x
}

/// Whether a file name, as UTF-8 bytes, ends with ".bmp".
pub open spec fn has_bmp_extension(name: Seq<u8>) -> bool {
    &&& name.len() >= 4
    &&& name[name.len() - 4] == 46
    &&& name[name.len() - 3] == 98
    &&& name[name.len() - 2] == 109
    &&& name[name.len() - 1] == 112
}

/// The depth an image is saved at by default: 32 bits when some pixel is
/// transparent, 24 otherwise.
pub open spec fn default_depth(pixels: Seq<Rgba>) -> BitDepth {
    if any_transparent(pixels) {
        BitDepth::AllColorsAndShades
    } else {
        BitDepth::AllColors
    }
}

/// The depth that `BitDepth::get_suggested_bit_depth` picks for an image.
pub open spec fn simplest_depth(pixels: Seq<Rgba>) -> BitDepth {
    suggested_depth(distinct_colors(pixels).len() as int, any_transparent(pixels))
}

/// Every pixel of a grid turned gray.
pub open spec fn gray_grid(pixels: Seq<Rgba>) -> Seq<Rgba> {
    Seq::new(pixels.len(), |i: int| Rgba::spec_gray(pixels[i]))
}

/// A grid with every pixel equal to `from` replaced by `to`.
pub open spec fn replace_grid(pixels: Seq<Rgba>, from: Rgba, to: Rgba) -> Seq<Rgba> {
    Seq::new(
        pixels.len(),
        |i: int|
            if pixels[i] == from {
                to
            } else {
                pixels[i]
            },
    )
}

/// In memory representation of a bitmap allowing for easier editing
pub struct BitMap {
    filename: Option<String>,
    width: u32,
    height: u32,
    pixels: Vec<Rgba>,
}

impl View for BitMap {
    type V = Image;

    closed spec fn view(&self) -> Image {
        Image {
            width: self.width as nat,
            height: self.height as nat,
            pixels: self.pixels@,
            filename: match self.filename {
                Some(f) => Some(f@),
                None => None,
            },
        }
    }
}

impl BitMap {
    #[verifier::type_invariant]
    spec fn well_formed(self) -> bool {
        &&& self.pixels@.len() == self.width * self.height
        &&& fits_format(self.width as int, self.height as int)
    }

    /// Create a new white image in memory
    pub fn new(width: u32, height: u32) -> (r: BitMap)
        requires
            fits_format(width as int, height as int),
        ensures
            r@.width == width,
            r@.height == height,
            r@.pixels == Seq::new((width * height) as nat, |i: int| Rgba::spec_rgba(255, 255, 255, 100)),
            r@.filename is None,
    {
        proof {
            assert(width * height <= u32::MAX);
        }
        let n = width as usize * height as usize;
        let white = Rgba::white();
        let mut pixels: Vec<Rgba> = Vec::new();
        let mut i: usize = 0;
        while i < n
            invariant
                i <= n,
                pixels@ =~= Seq::new(i as nat, |k: int| Rgba::spec_rgba(255, 255, 255, 100)),
                white == Rgba::spec_rgba(255, 255, 255, 100),
            decreases n - i,
        {
            pixels.push(white);
            i = i + 1;
        }
        BitMap { filename: None, width, height, pixels }
    }

    /// Create a new image from a list of pixels, bottom row first. Fails with
    /// `InvalidArgument` when the number of pixels is not `width * height`, or
    /// the image would be too large to store.
    pub fn create(width: u32, height: u32, pixels: Vec<Rgba>) -> (r: Result<BitMap, BitmapError>)
        ensures
            pixels@.len() == width * height && fits_format(width as int, height as int) ==> (r matches Ok(
                b,
            ) && b@.width == width && b@.height == height && b@.pixels == pixels@
                && b@.filename is None),
            !(pixels@.len() == width * height && fits_format(width as int, height as int)) ==> r
                == Err::<BitMap, BitmapError>(BitmapError::InvalidArgument),
    {
        proof {
            assert(width as u64 * height as u64 <= u64::MAX) by (nonlinear_arith)
                requires
                    width <= u32::MAX,
                    height <= u32::MAX,
            ;
        }
        let area: u64 = width as u64 * height as u64;
        if area > (u32::MAX as u64 - 1078) / 4 || area != pixels.len() as u64 {
            return Err(BitmapError::InvalidArgument);
        }
        Ok(BitMap { filename: None, width, height, pixels })
    }

    /// An image read from the file `filename`.
    pub(crate) fn from_parts(filename: String, width: u32, height: u32, pixels: Vec<Rgba>) -> (r: BitMap)
        requires
            pixels@.len() == width * height,
            fits_format(width as int, height as int),
        ensures
            r@.width == width,
            r@.height == height,
            r@.pixels == pixels@,
            r@.filename == Some(filename@),
    {
        BitMap { filename: Some(filename), width, height, pixels }
    }

    /// Get the pixel at column `x` and row `y` (counted from the top), if it is
    /// inside the image
    pub fn get_pixel(&self, x: u32, y: u32) -> (r: Option<&Rgba>)
        ensures
            x < self@.width && y < self@.height ==> r == Some(
                &self@.pixels[index_of(self@.width as int, self@.height as int, x as int, y as int)],
            ),
            !(x < self@.width && y < self@.height) ==> r is None,
    {
        if x >= self.width || y >= self.height {
            return None;
        }
        Some(&self.pixels[self.get_index(x, y)])
    }

    /// All the pixels of the image, bottom row first
    pub fn get_pixels(&self) -> (r: &Vec<Rgba>)
        ensures
            r@ == self@.pixels,
            r@.len() == self@.width * self@.height,
            fits_format(self@.width as int, self@.height as int),
    {
        proof {
            use_type_invariant(self);
        }
        &self.pixels
    }

    /// Get the width of the image
    pub fn get_width(&self) -> (r: u32)
        ensures
            r == self@.width,
    {
        self.width
    }

    /// Get the height of the image
    pub fn get_height(&self) -> (r: u32)
        ensures
            r == self@.height,
    {
        self.height
    }

    /// Get the area of the image in pixels
    pub fn get_size(&self) -> (r: u32)
        ensures
            r == self@.width * self@.height,
    {
        proof {
            use_type_invariant(self);
        }
        self.width * self.height
    }

    /// The name of the file the image was read from, if any
    pub fn get_filename(&self) -> (r: Option<&String>)
        ensures
            self@.filename is None <==> r is None,
            r matches Some(f) ==> self@.filename == Some(f@),
    {
        self.filename.as_ref()
    }

    /// The stored grid holds the bottom row first: the index of the pixel at
    /// column `x` and row `y` counted from the top.
    fn get_index(&self, x: u32, y: u32) -> (r: usize)
        requires
            x < self@.width,
            y < self@.height,
        ensures
            r == index_of(self@.width as int, self@.height as int, x as int, y as int),
            r < self@.pixels.len(),
    {
        proof {
            use_type_invariant(self);
            crate::grid::lemma_cell_in_grid(
                (self.height - 1 - y) as int,
                x as int,
                self.width as int,
                self.height as int,
            );
        }
        ((self.height - y - 1) as usize) * (self.width as usize) + (x as usize)
    }

    /// The first 256 distinct colors of the image, in order of appearance
    pub fn get_all_unique_colors(&self) -> (r: Vec<Rgba>)
        ensures
            r@ == color_table(self@.pixels),
    {
        unique_colors(&self.pixels, MAX_COLORS)
    }

    /// Check if there is at least one pixel that is translucent
    pub fn is_image_transparent(&self) -> (r: bool)
        ensures
            r == any_transparent(self@.pixels),
    {
        let mut i: usize = 0;
        while i < self.pixels.len()
            invariant
                i <= self.pixels@.len(),
                forall|j: int| 0 <= j < i ==> (#[trigger] self.pixels@[j])@.alpha >= 100,
            decreases self.pixels.len() - i,
        {
            if self.pixels[i].is_transparent() {
                return true;
            }
            i = i + 1;
        }
        false
    }

    /// Read an image from the bytes of the file `filename`. Fails with
    /// `InvalidArgument` when the name does not end with ".bmp", and
    /// otherwise as `parse_file` says.
    pub fn read(filename: &str, bytes: &[u8]) -> (r: Result<BitMap, BitmapError>)
        ensures
            !has_bmp_extension(filename.spec_bytes()) ==> r == Err::<BitMap, BitmapError>(
                BitmapError::InvalidArgument,
            ),
            has_bmp_extension(filename.spec_bytes()) ==> (match parse_file(bytes@) {
                Ok((w, h, p)) => r matches Ok(b) && b@.width == w && b@.height == h && b@.pixels == p
                    && b@.filename == Some(filename@),
                Err(e) => r == Err::<BitMap, BitmapError>(e),
            }),
    {
        let name = filename.as_bytes();
        let n = name.len();
        if n < 4 || name[n - 4] != 46 || name[n - 3] != 98 || name[n - 2] != 109 || name[n - 1]
            != 112 {
            return Err(BitmapError::InvalidArgument);
        }
        let file = match File::read(bytes) {
            Ok(f) => f,
            Err(e) => return Err(e),
        };
        let width = file.get_width();
        let height = file.get_height();
        let pixels = file.get_bitmap_as_pixels();
        Ok(BitMap::from_parts(filename.to_owned(), width, height, pixels))
    }

    /// Get the estimated file size in bytes at 24 bits per pixel
    pub fn get_estimated_file_size_in_bytes(&self) -> (r: u32)
        ensures
            r == encode_file(self@.pixels, self@.width as u32, self@.height as u32, BitDepth::AllColors).len(),
    {
        let file = File::create(self, BitDepth::AllColors);
        file.calculate_file_size()
    }

    /// The whole file that stores the image at the default depth: 32 bits
    /// when some pixel is transparent, 24 otherwise
    pub fn to_bytes(&self) -> (r: Vec<u8>)
        ensures
            r@ == encode_file(self@.pixels, self@.width as u32, self@.height as u32, default_depth(self@.pixels)),
    {
        let bit_depth = if self.is_image_transparent() {
            BitDepth::AllColorsAndShades
        } else {
            BitDepth::AllColors
        };
        File::create(self, bit_depth).to_bytes()
    }

    /// The whole file that stores the image at the smallest depth that holds
    /// its colors (see `BitDepth::get_suggested_bit_depth`)
    pub fn to_simplified_bytes(&self) -> (r: Vec<u8>)
        ensures
            r@ == encode_file(self@.pixels, self@.width as u32, self@.height as u32, simplest_depth(self@.pixels)),
    {
        let bit_depth = BitDepth::get_suggested_bit_depth(self);
        File::create(self, bit_depth).to_bytes()
    }

    /// The bytes to write back to the file the image was read from, at the
    /// default depth. Fails with `Io` when the image was not read from a file.
    pub fn save(&self) -> (r: Result<Vec<u8>, BitmapError>)
        ensures
            self@.filename is None ==> r == Err::<Vec<u8>, BitmapError>(BitmapError::Io),
            self@.filename is Some ==> (r matches Ok(bytes) && bytes@ == encode_file(
                self@.pixels,
                self@.width as u32,
                self@.height as u32,
                default_depth(self@.pixels),
            )),
    {
        match self.filename {
            Some(_) => Ok(self.to_bytes()),
            None => Err(BitmapError::Io),
        }
    }

    /// The bytes to write back to the file the image was read from, at the
    /// smallest depth that holds its colors. Fails with `Io` when the image
    /// was not read from a file.
    pub fn simplify_and_save(&self) -> (r: Result<Vec<u8>, BitmapError>)
        ensures
            self@.filename is None ==> r == Err::<Vec<u8>, BitmapError>(BitmapError::Io),
            self@.filename is Some ==> (r matches Ok(bytes) && bytes@ == encode_file(
                self@.pixels,
                self@.width as u32,
                self@.height as u32,
                simplest_depth(self@.pixels),
            )),
    {
        match self.filename {
            Some(_) => Ok(self.to_simplified_bytes()),
            None => Err(BitmapError::Io),
        }
    }

    /// Replace the size and pixels, keeping the file name.
    fn replace_pixels(&mut self, width: u32, height: u32, pixels: Vec<Rgba>)
        requires
            pixels@.len() == width * height,
            fits_format(width as int, height as int),
        ensures
            final(self)@ == (Image { width: width as nat, height: height as nat, pixels: pixels@, filename: old(self)@.filename }),
    {
        let filename = match &self.filename {
            Some(f) => Some(f.clone()),
            None => None,
        };
        *self = BitMap { filename, width, height, pixels };
    }

    /// Crop the columns `from_x..to_x` and rows `from_y..to_y` (rows counted
    /// from the top) into a new image. Fails with `InvalidArgument` when a
    /// start is past its end; an empty rectangle gives a 0 x 0 image; a
    /// rectangle past the image's edge fails with `OutOfBounds`.
    pub fn crop(&self, from_x: u32, from_y: u32, to_x: u32, to_y: u32) -> (r: Result<BitMap, BitmapError>)
        ensures
            from_x > to_x || from_y > to_y ==> r == Err::<BitMap, BitmapError>(BitmapError::InvalidArgument),
            from_x <= to_x && from_y <= to_y && (to_x - from_x) * (to_y - from_y) == 0 ==> (r matches Ok(b)
                && b@.width == 0 && b@.height == 0 && b@.pixels.len() == 0 && b@.filename is None),
            from_x <= to_x && from_y <= to_y && (to_x - from_x) * (to_y - from_y) != 0 && (to_x > self@.width
                || to_y > self@.height) ==> r == Err::<BitMap, BitmapError>(BitmapError::OutOfBounds),
            from_x <= to_x && from_y <= to_y && (to_x - from_x) * (to_y - from_y) != 0 && to_x <= self@.width
                && to_y <= self@.height ==> (r matches Ok(b) && b@.width == to_x - from_x && b@.height
                == to_y - from_y && b@.filename is None && b@.pixels == crop_grid(
                self@.pixels,
                self@.width as int,
                self@.height as int,
                from_x as int,
                from_y as int,
                to_x as int,
                to_y as int,
            )),
    {
        proof {
            use_type_invariant(self);
        }
        if from_x > to_x || from_y > to_y {
            return Err(BitmapError::InvalidArgument);
        }
        let width = to_x - from_x;
        let height = to_y - from_y;
        if width == 0 || height == 0 {
            proof {
                assert(width * height == 0) by (nonlinear_arith)
                    requires
                        width == 0 || height == 0,
                ;
            }
            return Ok(BitMap::new(0, 0));
        }
        proof {
            assert(width * height != 0) by (nonlinear_arith)
                requires
                    width > 0,
                    height > 0,
            ;
        }
        if to_x > self.width || to_y > self.height {
            return Err(BitmapError::OutOfBounds);
        }
        let pixels = crop_pixels(&self.pixels, self.width, self.height, from_x, from_y, to_x, to_y);
        proof {
            assert(width * height <= self.width * self.height) by (nonlinear_arith)
                requires
                    width <= self.width,
                    height <= self.height,
            ;
        }
        Ok(BitMap { filename: None, width, height, pixels })
    }

    /// Paste a whole image over this one, its top left corner at column
    /// `start_at_x` and row `start_at_y` (counted from the top). Fails with
    /// `OutOfBounds`, changing nothing, when it does not fit.
    pub fn paste(&mut self, bitmap: &BitMap, start_at_x: u32, start_at_y: u32) -> (r: Result<(), BitmapError>)
        ensures
            start_at_x + bitmap@.width > old(self)@.width || start_at_y + bitmap@.height > old(self)@.height
                ==> r == Err::<(), BitmapError>(BitmapError::OutOfBounds) && final(self)@ == old(self)@,
            start_at_x + bitmap@.width <= old(self)@.width && start_at_y + bitmap@.height <= old(self)@.height
                ==> r is Ok && final(self)@ == (Image {
                pixels: paste_grid(
                    old(self)@.pixels,
                    old(self)@.width as int,
                    old(self)@.height as int,
                    bitmap@.pixels,
                    bitmap@.width as int,
                    bitmap@.height as int,
                    start_at_x as int,
                    start_at_y as int,
                ),
                ..old(self)@
            }),
    {
        proof {
            use_type_invariant(&*self);
            use_type_invariant(bitmap);
        }
        if start_at_x as u64 + bitmap.width as u64 > self.width as u64 || start_at_y as u64
            + bitmap.height as u64 > self.height as u64 {
            return Err(BitmapError::OutOfBounds);
        }
        let pixels = paste_pixels(
            &self.pixels,
            self.width,
            self.height,
            &bitmap.pixels,
            bitmap.width,
            bitmap.height,
            start_at_x,
            start_at_y,
        );
        self.replace_pixels(self.width, self.height, pixels);
        Ok(())
    }

    /// Set the color of the pixel at column `x` and row `y` (counted from the
    /// top). Fails with `OutOfBounds`, changing nothing, outside the image.
    pub fn set_pixel(&mut self, x: u32, y: u32, color: Rgba) -> (r: Result<(), BitmapError>)
        ensures
            x >= old(self)@.width || y >= old(self)@.height ==> r == Err::<(), BitmapError>(
                BitmapError::OutOfBounds,
            ) && final(self)@ == old(self)@,
            x < old(self)@.width && y < old(self)@.height ==> r is Ok && final(self)@ == (Image {
                pixels: old(self)@.pixels.update(
                    index_of(old(self)@.width as int, old(self)@.height as int, x as int, y as int),
                    color,
                ),
                ..old(self)@
            }),
    {
        if y >= self.height || x >= self.width {
            return Err(BitmapError::OutOfBounds);
        }
        let index = self.get_index(x, y);
        let mut pixels = self.pixels.clone();
        pixels.set(index, color);
        proof {
            use_type_invariant(&*self);
        }
        self.replace_pixels(self.width, self.height, pixels);
        Ok(())
    }

    /// Convert every pixel to its gray level, keeping alpha
    pub fn color_to_gray(&mut self)
        ensures
            final(self)@ == (Image { pixels: gray_grid(old(self)@.pixels), ..old(self)@ }),
    {
        proof {
            use_type_invariant(&*self);
        }
        let mut pixels: Vec<Rgba> = Vec::new();
        let mut i: usize = 0;
        while i < self.pixels.len()
            invariant
                i <= self.pixels@.len(),
                pixels@ =~= gray_grid(self.pixels@).take(i as int),
            decreases self.pixels.len() - i,
        {
            let mut c = self.pixels[i];
            c.color_to_gray();
            pixels.push(c);
            i = i + 1;
        }
        proof {
            assert(gray_grid(self.pixels@).take(i as int) =~= gray_grid(self.pixels@));
        }
        self.replace_pixels(self.width, self.height, pixels);
    }

    /// Replace every pixel equal to `from` with `to`
    pub fn replace_all_color(&mut self, from: Rgba, to: Rgba)
        ensures
            final(self)@ == (Image { pixels: replace_grid(old(self)@.pixels, from, to), ..old(self)@ }),
    {
        proof {
            use_type_invariant(&*self);
        }
        let mut pixels: Vec<Rgba> = Vec::new();
        let mut i: usize = 0;
        while i < self.pixels.len()
            invariant
                i <= self.pixels@.len(),
                pixels@ =~= replace_grid(self.pixels@, from, to).take(i as int),
            decreases self.pixels.len() - i,
        {
            let mut c = self.pixels[i];
            if c == from {
                c.recolor_to(&to);
            }
            pixels.push(c);
            i = i + 1;
        }
        proof {
            assert(replace_grid(self.pixels@, from, to).take(i as int) =~= replace_grid(self.pixels@, from, to));
        }
        self.replace_pixels(self.width, self.height, pixels);
    }

    /// Flood fill from the pixel at column `x` and row `y` (counted from the
    /// top): every pixel joined to it through edge-adjacent pixels of its
    /// color takes `color`. Fails with `OutOfBounds`, changing nothing,
    /// outside the image.
    pub fn fill_region(&mut self, x: u32, y: u32, color: Rgba) -> (r: Result<(), BitmapError>)
        ensures
            x >= old(self)@.width || y >= old(self)@.height ==> r == Err::<(), BitmapError>(
                BitmapError::OutOfBounds,
            ) && final(self)@ == old(self)@,
            x < old(self)@.width && y < old(self)@.height ==> r is Ok && final(self)@ == (Image {
                pixels: fill_grid(
                    old(self)@.pixels,
                    old(self)@.width as int,
                    old(self)@.height as int,
                    index_of(old(self)@.width as int, old(self)@.height as int, x as int, y as int),
                    color,
                ),
                ..old(self)@
            }),
    {
        if y >= self.height || x >= self.width {
            return Err(BitmapError::OutOfBounds);
        }
        proof {
            use_type_invariant(&*self);
        }
        let seed = self.get_index(x, y);
        let pixels = fill(&self.pixels, self.width, self.height, seed, color);
        self.replace_pixels(self.width, self.height, pixels);
        Ok(())
    }

    /// Resize to `width` x `height` with the nearest-neighbor rule
    pub fn fast_resize_to(&mut self, width: u32, height: u32)
        requires
            fits_format(width as int, height as int),
            old(self)@.width * old(self)@.height > 0 || width * height == 0,
        ensures
            final(self)@ == (Image {
                width: width as nat,
                height: height as nat,
                pixels: nearest_grid(old(self)@.pixels, old(self)@.width as int, old(self)@.height as int, width as int, height as int),
                ..old(self)@
            }),
    {
        self.fast_resize(width, height);
    }

    /// Resize with the nearest-neighbor rule.
    fn fast_resize(&mut self, width: u32, height: u32)
        requires
            fits_format(width as int, height as int),
            old(self)@.width * old(self)@.height > 0 || width * height == 0,
        ensures
            final(self)@ == (Image {
                width: width as nat,
                height: height as nat,
                pixels: nearest_grid(old(self)@.pixels, old(self)@.width as int, old(self)@.height as int, width as int, height as int),
                ..old(self)@
            }),
    {
        proof {
            use_type_invariant(&*self);
            lemma_size_positive(self.width as int, self.height as int);
        }
        let pixels = nearest(&self.pixels, self.width, self.height, width, height);
        self.replace_pixels(width, height, pixels);
    }

    /// Resize to `width` x `height` with bilinear interpolation
    pub fn resize_to(&mut self, width: u32, height: u32)
        requires
            fits_format(width as int, height as int),
            old(self)@.width * old(self)@.height > 0 || width * height == 0,
        ensures
            final(self)@ == (Image {
                width: width as nat,
                height: height as nat,
                pixels: bilinear_grid(old(self)@.pixels, old(self)@.width as int, old(self)@.height as int, width as int, height as int),
                ..old(self)@
            }),
    {
        self.resize(width, height);
    }

    /// Resize with bilinear interpolation.
    fn resize(&mut self, width: u32, height: u32)
        requires
            fits_format(width as int, height as int),
            old(self)@.width * old(self)@.height > 0 || width * height == 0,
        ensures
            final(self)@ == (Image {
                width: width as nat,
                height: height as nat,
                pixels: bilinear_grid(old(self)@.pixels, old(self)@.width as int, old(self)@.height as int, width as int, height as int),
                ..old(self)@
            }),
    {
        proof {
            use_type_invariant(&*self);
            lemma_size_positive(self.width as int, self.height as int);
        }
        let pixels = bilinear(&self.pixels, self.width, self.height, width, height);
        self.replace_pixels(width, height, pixels);
    }

    /// Resize to `width` x `height` with bicubic interpolation
    pub fn slow_resize_to(&mut self, width: u32, height: u32)
        requires
            fits_format(width as int, height as int),
            old(self)@.width * old(self)@.height > 0 || width * height == 0,
        ensures
            final(self)@ == (Image {
                width: width as nat,
                height: height as nat,
                pixels: bicubic_grid(old(self)@.pixels, old(self)@.width as int, old(self)@.height as int, width as int, height as int),
                ..old(self)@
            }),
    {
        self.slow_resize(width, height);
    }

    /// Resize to `width` x `height` with bicubic interpolation
    pub fn slow_resize(&mut self, width: u32, height: u32)
        requires
            fits_format(width as int, height as int),
            old(self)@.width * old(self)@.height > 0 || width * height == 0,
        ensures
            final(self)@ == (Image {
                width: width as nat,
                height: height as nat,
                pixels: bicubic_grid(old(self)@.pixels, old(self)@.width as int, old(self)@.height as int, width as int, height as int),
                ..old(self)@
            }),
    {
        proof {
            use_type_invariant(&*self);
            lemma_size_positive(self.width as int, self.height as int);
        }
        let pixels = bicubic(&self.pixels, self.width, self.height, width, height);
        self.replace_pixels(width, height, pixels);
    }

    /// Turn the image a quarter right
    pub fn rotate_right(&mut self)
        ensures
            final(self)@ == (Image {
                width: old(self)@.height,
                height: old(self)@.width,
                pixels: rotate_right_grid(old(self)@.pixels, old(self)@.width as int, old(self)@.height as int),
                ..old(self)@
            }),
    {
        proof {
            use_type_invariant(&*self);
            assert(self.width * self.height == self.height * self.width) by (nonlinear_arith);
        }
        let pixels = rotate_right_pixels(&self.pixels, self.width, self.height);
        self.replace_pixels(self.height, self.width, pixels);
    }

    /// Turn the image a quarter left
    pub fn rotate_left(&mut self)
        ensures
            final(self)@ == (Image {
                width: old(self)@.height,
                height: old(self)@.width,
                pixels: rotate_left_grid(old(self)@.pixels, old(self)@.width as int, old(self)@.height as int),
                ..old(self)@
            }),
    {
        proof {
            use_type_invariant(&*self);
            assert(self.width * self.height == self.height * self.width) by (nonlinear_arith);
        }
        let pixels = rotate_left_pixels(&self.pixels, self.width, self.height);
        self.replace_pixels(self.height, self.width, pixels);
    }
}

proof fn lemma_size_positive(width: int, height: int)
    requires
        width >= 0,
        height >= 0,
    ensures
        width * height > 0 <==> width > 0 && height > 0,
{
    if width > 0 && height > 0 {
        assert(width * height > 0) by (nonlinear_arith)
            requires
                width > 0,
                height > 0,
        ;
    }
}

impl PartialEq for BitMap {
    /// Two images are equal when they have the same size and pixels,
    /// wherever they were read from.
    fn eq(&self, other: &BitMap) -> (r: bool) {
        if self.width != other.width || self.height != other.height || self.pixels.len()
            != other.pixels.len() {
            return false;
        }
        let mut i: usize = 0;
        while i < self.pixels.len()
            invariant
                i <= self.pixels@.len(),
                self.pixels@.len() == other.pixels@.len(),
                forall|k: int| 0 <= k < i ==> self.pixels@[k] == other.pixels@[k],
            decreases self.pixels.len() - i,
        {
            if self.pixels[i] != other.pixels[i] {
                return false;
            }
            i = i + 1;
        }
        proof {
            assert(self.pixels@ =~= other.pixels@);
        }
        true
    }
}

impl vstd::std_specs::cmp::PartialEqSpecImpl for BitMap {
    open spec fn obeys_eq_spec() -> bool {
        true
    }

    open spec fn eq_spec(&self, other: &BitMap) -> bool {
        &&& self@.width == other@.width
        &&& self@.height == other@.height
        &&& self@.pixels == other@.pixels
    }
}

} // verus!
