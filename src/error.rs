use vstd::prelude::*;

verus! {

/// The ways an operation of this library can fail.
#[derive(Clone, Copy, Debug, PartialEq, Eq, Structural)]
pub enum BitmapError {
    /// Data this library does not read: a bad signature, an unrecognized
    /// bit-depth code, an info header other than the 40-byte one, more than
    /// 256 palette colors, or an image too large for the format.
    Format,
    /// The buffer is shorter than the structure it declares.
    TruncatedData,
    /// A palette index beyond the end of the color table.
    IndexOutOfRange,
    /// Pixel or region coordinates outside the image.
    OutOfBounds,
    /// A malformed argument, such as crop bounds in the wrong order.
    InvalidArgument,
    /// Interpolation weights that do not add up to one.
    InvalidBlend,
    /// The image was not read from a file, so there is nowhere to save it.
    Io,
}

} // verus!
