//! Read, write and edit Windows bitmap (BMP) images.
//!
//! The byte codec (packed palette rows and direct-color rows), the headers,
//! and the editing and resampling operations are verified against
//! specifications stated over sequences of pixels and bytes.
pub mod bit_data;
pub mod bit_depth;
pub mod edit;
pub mod error;
pub mod file;
pub mod file_data;
pub mod file_header;
pub mod fill;
mod grid;
pub mod image;
pub mod info_header;
pub mod laws;
pub mod pixel_data;
pub mod resample;
pub mod rgb_quad;
pub mod rgba;
pub mod util;

pub use image::BitMap;
pub use rgba::Rgba;
